//! The paradox breakers: cycles of moves and disrupted convoys.

use vstd::prelude::*;
use crate::base::{
    compute_attack_strength, compute_prevent_strength, is_path, status_of, OrderStatus,
};
use crate::board::{GameMap, MapState};
use crate::frozen::{freeze, frozen_len, frozen_names, names_in, thaw};
use crate::graph::{edges, graph_wf, lemma_labels_backward, lemma_labels_forward, reach_from, reachable};
use crate::independence::law_no_cycle_is_left;
use crate::keyset::KeySet;
use crate::model::{known, position, Position, Status};
use crate::order::{Move, Order, Orders};
use crate::prefix::{first_keys, lemma_first_keys_all, lemma_first_keys_next, lemma_first_keys_none};
use frozenset::FrozenSet;
use crate::resolution::settle;
use crate::text::{same_text, Name};

verus! {

/// A cycle that is found holds the province it was found from, and only
/// provinces with orders.
pub proof fn lemma_cycle_from(g: Position, status: Status, start: Name, cur: Name, seen: Set<Name>, fuel: nat)
    requires
        g.cycle_from(status, start, cur, seen, fuel) is Some,
    ensures
        seen.subset_of(g.cycle_from(status, start, cur, seen, fuel).unwrap()),
        g.cycle_from(status, start, cur, seen, fuel).unwrap().contains(cur),
        g.cycle_from(status, start, cur, seen, fuel).unwrap().subset_of(seen.union(g.orders.dom())),
        forall|q: Name|
            g.cycle_from(status, start, cur, seen, fuel).unwrap().contains(q) && !seen.contains(q) ==> known(
                status,
                q,
            ) != Some(false),
    decreases fuel,
{
    let next = g.dest_of(cur);
    let passed = seen.insert(cur);
    if next != start && !passed.contains(next) {
        lemma_cycle_from(g, status, start, next, passed, (fuel - 1) as nat);
    }
}

/// Compute the cycle starting at the given province: a circular sequence of
/// moves, each with a path and with an attack strength surely greater than
/// the prevent strength of every other unit moving to the same province.
pub fn get_cycle_at(
    map: &GameMap,
    state: &MapState,
    orders: &Orders,
    order_status: &OrderStatus,
    start: &str,
) -> (r: Option<KeySet<String>>)
    requires
        map.wf(),
        state.wf(),
        orders.wf(),
        order_status.wf(),
        position(map, state, orders).valid(),
    ensures
        match r {
            Some(cycle) => cycle.wf() && position(map, state, orders).cycle_at(order_status@, start@) == Some(
                cycle@,
            ),
            None => position(map, state, orders).cycle_at(order_status@, start@) is None,
        },
{
    let ghost g = position(map, state, orders);
    let ghost st = order_status@;
    let n = orders.len();
    let mut cycle: KeySet<String> = KeySet::new();
    let mut current: String = start.to_owned();
    proof {
        orders.lemma_view();
    }
    loop
        invariant
            map.wf(),
            state.wf(),
            orders.wf(),
            order_status.wf(),
            g == position(map, state, orders),
            g.valid(),
            st == order_status@,
            n == g.orders.dom().len(),
            cycle.wf(),
            cycle@.subset_of(g.orders.dom()),
            cycle@.len() <= n,
            !cycle@.contains(current@),
            g.cycle_at(st, start@) == g.cycle_from(
                st,
                start@,
                current@,
                cycle@,
                (n + 1 - cycle@.len()) as nat,
            ),
        decreases n - cycle@.len(),
    {
        proof {
            orders.lemma_view();
            cycle.lemma_len();
        }
        let dest: String = match orders.get(current.as_str()) {
            Some(Order::Move(m)) => m.dest.0.clone(),
            _ => {
                return None;
            },
        };
        match status_of(order_status, current.as_str()) {
            Some(false) => {
                return None;
            },
            _ => {},
        }
        match is_path(map, state, orders, order_status, current.as_str()) {
            Some(true) => {},
            _ => {
                return None;
            },
        }
        // if the attack might not succeed, invalid cycle
        let attack_strength = compute_attack_strength(map, state, orders, order_status, current.as_str());
        let mut i: usize = 0;
        while i < orders.len()
            invariant
                map.wf(),
                state.wf(),
                orders.wf(),
                order_status.wf(),
                g == position(map, state, orders),
                g.valid(),
                st == order_status@,
                g.is_mover(current@),
                dest@ == g.dest_of(current@),
                attack_strength@ == g.attack_strength(st, current@),
                cycle@.len() <= n,
                g.cycle_at(st, start@) == g.cycle_from(
                    st,
                    start@,
                    current@,
                    cycle@,
                    (n + 1 - cycle@.len()) as nat,
                ),
                i <= orders.names().len(),
                forall|j: int|
                    0 <= j < i && g.rival(#[trigger] orders.names()[j], current@) ==> attack_strength@.min
                        > g.prevent_strength(st, orders.names()[j]).max,
            decreases orders.names().len() - i,
        {
            proof {
                orders.lemma_view();
            }
            let key = orders.key_at(i);
            if !same_text(key.as_str(), current.as_str()) && Move::is_move_to(orders.value_at(i), dest.as_str()) {
                let strength = compute_prevent_strength(map, state, orders, order_status, key.as_str());
                if attack_strength.min <= strength.max {
                    assert(g.rival(orders.names()[i as int], current@));
                    return None;
                }
            }
            i += 1;
        }
        proof {
            assert forall|q: Name| #[trigger] g.rival(q, current@) implies attack_strength@.min
                > g.prevent_strength(st, q).max by {
                let j = choose|j: int| 0 <= j < orders.names().len() && orders.names()[j] == q;
                assert(g.rival(orders.names()[j], current@));
            }
            assert(g.wins_place(st, current@));
            cycle@.lemma_subset_not_in_lt(g.orders.dom(), current@);
        }
        cycle.insert(current.clone());
        proof {
            cycle.lemma_len();
        }
        // if the destination is already in the cycle, invalid cycle
        if same_text(dest.as_str(), start) {
            return Some(cycle);
        } else if cycle.contains(&dest) {
            return None;
        }
        current = dest;
    }
}

/// A first cycle that is found holds an unresolved order, holds only
/// provinces with orders, and none whose order is known to fail.
pub proof fn lemma_first_cycle(g: Position, order: Seq<Name>, status: Status, i: nat) -> (start: Name)
    requires
        g.first_cycle(order, status, i) is Some,
        forall|j: int| 0 <= j < order.len() ==> g.orders.contains_key(#[trigger] order[j]),
    ensures
        g.cycle_at(status, start) == g.first_cycle(order, status, i),
        g.first_cycle(order, status, i).unwrap().contains(start),
        g.starts_cycle(status, start),
        g.first_cycle(order, status, i).unwrap().subset_of(g.orders.dom()),
        forall|q: Name| g.first_cycle(order, status, i).unwrap().contains(q) ==> known(status, q) != Some(false),
    decreases order.len() - i,
{
    let p = order[i as int];
    if g.starts_cycle(status, p) && g.cycle_at(status, p) is Some {
        lemma_cycle_from(g, status, p, p, Set::empty(), g.orders.dom().len() + 1);
        p
    } else {
        lemma_first_cycle(g, order, status, i + 1)
    }
}

/// The first cycle found when starting from the orders in turn.
fn find_cycle(map: &GameMap, state: &MapState, orders: &Orders, order_status: &OrderStatus) -> (r: Option<
    KeySet<String>,
>)
    requires
        map.wf(),
        state.wf(),
        orders.wf(),
        order_status.wf(),
        position(map, state, orders).valid(),
    ensures
        match r {
            Some(cycle) => cycle.wf() && position(map, state, orders).first_cycle(
                orders.names(),
                order_status@,
                0,
            ) == Some(cycle@),
            None => position(map, state, orders).first_cycle(orders.names(), order_status@, 0) is None,
        },
{
    let ghost g = position(map, state, orders);
    let ghost st = order_status@;
    let mut i: usize = 0;
    while i < orders.len()
        invariant
            map.wf(),
            state.wf(),
            orders.wf(),
            order_status.wf(),
            g == position(map, state, orders),
            g.valid(),
            st == order_status@,
            i <= orders.names().len(),
            g.first_cycle(orders.names(), st, 0) == g.first_cycle(orders.names(), st, i as nat),
        decreases orders.names().len() - i,
    {
        proof {
            orders.lemma_view();
        }
        let key = orders.key_at(i);
        if status_of(order_status, key.as_str()).is_none() && orders.value_at(i).is_move() {
            match get_cycle_at(map, state, orders, order_status, key.as_str()) {
                Some(cycle) => {
                    return Some(cycle);
                },
                None => {},
            }
        }
        i += 1;
    }
    None
}

/// Resolves every province of `cycle` that is unresolved to success.
fn confirm_cycle(order_status: &mut OrderStatus, cycle: &KeySet<String>)
    requires
        old(order_status).wf(),
    ensures
        final(order_status).wf(),
        final(order_status)@ == settle(old(order_status)@, cycle@, true),
{
    let ghost st = order_status@;
    let mut j: usize = 0;
    assert(order_status@ =~= settle(st, first_keys(cycle.seq(), 0), true));
    while j < cycle.len()
        invariant
            order_status.wf(),
            j <= cycle.seq().len(),
            order_status@ == settle(st, first_keys(cycle.seq(), j as int), true),
        decreases cycle.seq().len() - j,
    {
        let item = cycle.at(j);
        let ghost before = order_status@;
        if !order_status.contains_key(item.as_str()) {
            order_status.insert(item.clone(), true);
        }
        assert(order_status@ =~= settle(st, first_keys(cycle.seq(), j + 1), true)) by {
            assert(first_keys(cycle.seq(), j + 1) =~= first_keys(cycle.seq(), j as int).insert(item@));
        }
        j += 1;
    }
    proof {
        lemma_first_keys_all(cycle.seq(), cycle@, |q: Name| true);
    }
}

/// Resolve all move orders in a cycle with success, cycle after cycle until
/// no more is found.
pub fn handle_cycles(map: &GameMap, state: &MapState, orders: &Orders, order_status: &mut OrderStatus)
    requires
        map.wf(),
        state.wf(),
        orders.wf(),
        old(order_status).wf(),
        position(map, state, orders).valid(),
    ensures
        final(order_status).wf(),
        final(order_status)@ == position(map, state, orders).break_cycles(orders.names(), old(order_status)@),
        old(order_status)@.submap_of(final(order_status)@),
        final(order_status)@.dom().subset_of(old(order_status)@.dom().union(orders@.dom())),
        forall|q: Name|
            #[trigger] final(order_status)@.contains_key(q) && !old(order_status)@.contains_key(q)
                ==> final(order_status)@[q],
        forall|p: Name|
            #[trigger] position(map, state, orders).starts_cycle(final(order_status)@, p) ==> position(
                map,
                state,
                orders,
            ).cycle_at(final(order_status)@, p) is None,
{
    let ghost g = position(map, state, orders);
    let ghost st0 = order_status@;
    let ghost mut fuel: nat = g.unresolved(st0).len();

    proof {
        orders.lemma_view();
    }
    loop
        invariant
            map.wf(),
            state.wf(),
            orders.wf(),
            order_status.wf(),
            g == position(map, state, orders),
            g.valid(),
            st0 == old(order_status)@,
            g.break_cycles(orders.names(), st0) == g.break_cycles_within(orders.names(), order_status@, fuel),
            fuel >= g.unresolved(order_status@).len(),
            st0.submap_of(order_status@),
            order_status@.dom().subset_of(st0.dom().union(orders@.dom())),
        decreases fuel,
    {
        let ghost st = order_status@;
        match find_cycle(map, state, orders, order_status) {
            None => {
                proof {
                    orders.lemma_view();
                    law_no_cycle_is_left(g, orders.names(), st0);
                }
                return ;
            },
            Some(cycle) => {
                confirm_cycle(order_status, &cycle);
                proof {
                    orders.lemma_view();
                    let start = lemma_first_cycle(g, orders.names(), st, 0);
                    let before = g.unresolved(st);
                    let after = g.unresolved(order_status@);
                    assert(after.subset_of(before));
                    assert(before.contains(start) && !after.contains(start));
                    after.lemma_subset_not_in_lt(before, start);
                    fuel = (fuel - 1) as nat;
                }
            },
        }
    }
}

/// Whether `graph` is the graph of dependencies among the orders: its nodes
/// are the positions of the orders, and an order has an edge to each order
/// that it depends on.
pub open spec fn is_dependency_graph(g: Position, names: Seq<Name>, graph: Seq<Vec<usize>>) -> bool {
    &&& graph.len() == names.len()
    &&& names.len() <= usize::MAX
    &&& graph_wf(graph)
    &&& forall|a: usize, b: usize|
        a < names.len() && b < names.len() ==> (#[trigger] edges(graph)(a, b) <==> g.dep_link()(
            names[a as int],
            names[b as int],
        ))
}

/// The graph of dependencies among the orders.
pub fn dependency_graph(map: &GameMap, state: &MapState, orders: &Orders) -> (graph: Vec<Vec<usize>>)
    requires
        map.wf(),
        state.wf(),
        orders.wf(),
        position(map, state, orders).valid(),
    ensures
        is_dependency_graph(position(map, state, orders), orders.names(), graph@),
{
    let ghost g = position(map, state, orders);
    let ghost names = orders.names();
    let n = orders.len();
    let mut graph: Vec<Vec<usize>> = Vec::new();
    let mut a: usize = 0;
    while a < n
        invariant
            map.wf(),
            state.wf(),
            orders.wf(),
            g == position(map, state, orders),
            g.valid(),
            names == orders.names(),
            n == names.len(),
            a <= n,
            graph.len() == a,
            forall|x: int, k: int| 0 <= x < a && 0 <= k < graph[x]@.len() ==> (#[trigger] graph[x]@[k]) < n,
            forall|x: int, y: usize|
                0 <= x < a && y < n ==> (#[trigger] graph[x]@.contains(y) <==> g.deps(names[x]).contains(
                    names[y as int],
                )),
        decreases n - a,
    {
        proof {
            orders.lemma_view();
        }
        let key = orders.key_at(a);
        let deps = orders.value_at(a).deps(map, state, orders, key.as_str());
        let mut list: Vec<usize> = Vec::new();
        let mut j: usize = 0;
        while j < deps.len()
            invariant
                orders.wf(),
                names == orders.names(),
                n == names.len(),
                j <= deps.seq().len(),
                forall|k: int| 0 <= k < list@.len() ==> (#[trigger] list@[k]) < n,
                forall|y: usize|
                    y < n ==> (#[trigger] list@.contains(y) <==> exists|m: int|
                        0 <= m < j && deps.seq()[m] == names[y as int]),
            decreases deps.seq().len() - j,
        {
            let ghost before = list@;
            match orders.position(deps.at(j).as_str()) {
                Some(b) => {
                    list.push(b);
                    assert(list@[before.len() as int] == b);
                    assert forall|y: usize| y < n implies (#[trigger] list@.contains(y) <==> exists|m: int|
                        0 <= m < j + 1 && deps.seq()[m] == names[y as int]) by {
                        if before.contains(y) {
                            let k = choose|k: int| 0 <= k < before.len() && before[k] == y;
                            assert(list@[k] == y);
                        }
                        if list@.contains(y) && !before.contains(y) {
                            let k = choose|k: int| 0 <= k < list@.len() && list@[k] == y;
                            assert(k == before.len());
                            assert(deps.seq()[j as int] == names[y as int]);
                        }
                        if exists|m: int| 0 <= m < j + 1 && deps.seq()[m] == names[y as int] {
                            let m = choose|m: int| 0 <= m < j + 1 && deps.seq()[m] == names[y as int];
                            if m == j {
                                assert(names[b as int] == names[y as int]);
                                assert(b == y);
                            }
                        }
                    }
                },
                None => {
                    assert forall|y: usize| y < n implies (#[trigger] list@.contains(y) <==> exists|m: int|
                        0 <= m < j + 1 && deps.seq()[m] == names[y as int]) by {
                        assert(names.contains(names[y as int]));
                    }
                },
            }
            j += 1;
        }
        proof {
            assert forall|y: usize| y < n implies (#[trigger] list@.contains(y) <==> g.deps(
                names[a as int],
            ).contains(names[y as int])) by {
                if deps@.contains(names[y as int]) {
                    let m = choose|m: int| 0 <= m < deps.seq().len() && deps.seq()[m] == names[y as int];
                    assert(0 <= m < j && deps.seq()[m] == names[y as int]);
                }
                if list@.contains(y) {
                    let m = choose|m: int| 0 <= m < j && deps.seq()[m] == names[y as int];
                    assert(deps.seq().contains(names[y as int]));
                }
            }
        }
        let ghost graph0 = graph@;
        graph.push(list);
        assert(forall|x: int| 0 <= x < a ==> graph@[x] == graph0[x]);
        a += 1;
    }
    proof {
        orders.lemma_view();
        assert forall|x: usize, y: usize| x < names.len() && y < names.len() implies (#[trigger] edges(graph@)(
            x,
            y,
        ) <==> g.dep_link()(names[x as int], names[y as int])) by {
            assert(graph@[x as int]@.contains(y) <==> g.deps(names[x as int]).contains(names[y as int]));
        }
    }
    graph
}

/// In the graph of dependencies, the positions reached are those of the
/// orders depended on.
proof fn lemma_graph_reach(g: Position, names: Seq<Name>, graph: Seq<Vec<usize>>, a: usize, b: usize)
    requires
        is_dependency_graph(g, names, graph),
        names.no_duplicates(),
        names.to_set() == g.orders.dom(),
        a < names.len(),
        b < names.len(),
    ensures
        reachable(edges(graph), a, b) <==> reachable(g.dep_link(), names[a as int], names[b as int]),
{
    if reachable(edges(graph), a, b) {
        lemma_labels_forward(graph, g.dep_link(), names, a, b);
    }
    if reachable(g.dep_link(), names[a as int], names[b as int]) {
        assert forall|x: usize, t: Name| x < graph.len() && #[trigger] g.dep_link()(names[x as int], t) implies exists|
            y: usize,
        |
            y < graph.len() && names[y as int] == t && #[trigger] edges(graph)(x, y) by {
            assert(g.orders.dom().contains(t));
            assert(names.contains(t));
            let m = choose|m: int| 0 <= m < names.len() && names[m] == t;
            let y = m as usize;
            assert(edges(graph)(x, y) <==> g.dep_link()(names[x as int], names[y as int]));
        }
        let y = lemma_labels_backward(graph, g.dep_link(), names, a, names[b as int]);
        assert(y == b);
    }
}

/// The component of the order at position `start`: the convoys that it
/// depends on, directly or through other orders.
fn get_component(
    map: &GameMap,
    state: &MapState,
    orders: &Orders,
    graph: &Vec<Vec<usize>>,
    start: usize,
) -> (component: FrozenSet<String>)
    requires
        orders.wf(),
        start < orders.names().len(),
        is_dependency_graph(position(map, state, orders), orders.names(), graph@),
    ensures
        frozen_names(component) == position(map, state, orders).component(orders.names()[start as int]),
{
    let ghost g = position(map, state, orders);
    let ghost names = orders.names();
    let ghost p = g.in_component(names[start as int]);
    let seen = reach_from(graph, start);
    let mut members: Vec<String> = Vec::new();
    let mut y: usize = 0;
    proof {
        lemma_first_keys_none(names, p);
        assert(names_in(members@) =~= Set::<Name>::empty());
    }
    while y < orders.len()
        invariant
            orders.wf(),
            g == position(map, state, orders),
            names == orders.names(),
            start < names.len(),
            is_dependency_graph(g, names, graph@),
            p == g.in_component(names[start as int]),
            seen.len() == names.len(),
            forall|b: usize| b < names.len() ==> (#[trigger] seen[b as int] <==> reachable(edges(graph@), start, b)),
            y <= names.len(),
            names_in(members@) == first_keys(names, y as int).filter(p),
        decreases names.len() - y,
    {
        proof {
            orders.lemma_view();
            lemma_first_keys_next(names, y as int, p);
            lemma_graph_reach(g, names, graph@, start, y);
        }
        let is_convoy = match orders.value_at(y) {
            Order::Convoy(_) => true,
            _ => false,
        };
        if seen[y] && is_convoy {
            let ghost before = members@;
            let key = orders.key_at(y).clone();
            members.push(key);
            assert(names_in(members@) =~= names_in(before).insert(names[y as int])) by {
                assert(members@[before.len() as int]@ == names[y as int]);
                assert forall|k: Name| names_in(before).insert(names[y as int]).contains(k) implies names_in(
                    members@,
                ).contains(k) by {
                    if k != names[y as int] {
                        let m = choose|m: int| 0 <= m < before.len() && (#[trigger] before[m])@ == k;
                        assert(members@[m]@ == k);
                    }
                }
                assert forall|k: Name| names_in(members@).contains(k) implies names_in(before).insert(
                    names[y as int],
                ).contains(k) by {
                    let m = choose|m: int| 0 <= m < members@.len() && (#[trigger] members@[m])@ == k;
                    if m < before.len() {
                        assert(before[m]@ == k);
                    }
                }
            }
        }
        y += 1;
    }
    proof {
        orders.lemma_view();
        lemma_first_keys_all(names, g.orders.dom(), p);
    }
    freeze(members)
}

/// Resolves every province among `names` that is unresolved to failure.
fn fail_all(order_status: &mut OrderStatus, names: &Vec<String>)
    requires
        old(order_status).wf(),
    ensures
        final(order_status).wf(),
        final(order_status)@ == settle(old(order_status)@, names_in(names@), false),
{
    let ghost st = order_status@;
    let mut j: usize = 0;
    assert(order_status@ =~= settle(st, names_in(names@.take(0)), false));
    while j < names.len()
        invariant
            order_status.wf(),
            j <= names.len(),
            order_status@ == settle(st, names_in(names@.take(j as int)), false),
        decreases names.len() - j,
    {
        let item = &names[j];
        if !order_status.contains_key(item.as_str()) {
            order_status.insert(item.clone(), false);
        }
        assert(names_in(names@.take(j + 1)) =~= names_in(names@.take(j as int)).insert(item@)) by {
            let a = names@.take(j + 1);
            let b = names@.take(j as int);
            assert(a[j as int]@ == item@);
            assert forall|k: Name| names_in(b).insert(item@).contains(k) implies names_in(a).contains(k) by {
                if k != item@ {
                    let m = choose|m: int| 0 <= m < b.len() && (#[trigger] b[m])@ == k;
                    assert(a[m]@ == k);
                }
            }
            assert forall|k: Name| names_in(a).contains(k) implies names_in(b).insert(item@).contains(k) by {
                let m = choose|m: int| 0 <= m < a.len() && (#[trigger] a[m])@ == k;
                if m < j {
                    assert(b[m]@ == k);
                }
            }
        }
        assert(order_status@ =~= settle(st, names_in(names@.take(j + 1)), false));
        j += 1;
    }
    assert(names@.take(names.len() as int) =~= names@);
}

/// Compute the components of the unresolved convoys, and set all convoy
/// orders in the components with the fewest convoy orders to fail.
///
/// If there are several components with the same minimal number of convoy
/// orders, the convoy orders of all of them fail. A convoy that was resolved
/// before keeps its outcome.
pub fn handle_convoy(map: &GameMap, state: &MapState, orders: &Orders, order_status: &mut OrderStatus)
    requires
        map.wf(),
        state.wf(),
        orders.wf(),
        old(order_status).wf(),
        position(map, state, orders).valid(),
    ensures
        final(order_status).wf(),
        final(order_status)@ == position(map, state, orders).break_convoys(old(order_status)@),
        old(order_status)@.submap_of(final(order_status)@),
        final(order_status)@.dom().subset_of(old(order_status)@.dom().union(orders@.dom())),
{
    let ghost g = position(map, state, orders);
    let ghost st0 = order_status@;
    let ghost names = orders.names();
    let graph = dependency_graph(map, state, orders);
    let mut components: Vec<FrozenSet<String>> = Vec::new();
    let ghost mut starts: Seq<Name> = Seq::empty();
    let mut i: usize = 0;
    while i < orders.len()
        invariant
            orders.wf(),
            order_status.wf(),
            g == position(map, state, orders),
            names == orders.names(),
            st0 == order_status@,
            is_dependency_graph(g, names, graph@),
            i <= names.len(),
            components.len() == starts.len(),
            forall|k: int|
                0 <= k < starts.len() ==> g.open_convoy(st0, #[trigger] starts[k]) && frozen_names(
                    components[k],
                ) == g.component(starts[k]),
            forall|j: int| 0 <= j < i && g.open_convoy(st0, #[trigger] names[j]) ==> starts.contains(names[j]),
        decreases names.len() - i,
    {
        proof {
            orders.lemma_view();
        }
        let key = orders.key_at(i);
        let is_convoy = match orders.value_at(i) {
            Order::Convoy(_) => true,
            _ => false,
        };
        if is_convoy && status_of(order_status, key.as_str()).is_none() {
            let component = get_component(map, state, orders, &graph, i);
            let ghost starts0 = starts;
            components.push(component);
            proof {
                starts = starts.push(names[i as int]);
                assert(starts[starts0.len() as int] == names[i as int]);
                assert forall|j: int| 0 <= j < i + 1 && g.open_convoy(st0, #[trigger] names[j]) implies starts.contains(
                    names[j],
                ) by {
                    if j < i {
                        let k = choose|k: int| 0 <= k < starts0.len() && starts0[k] == names[j];
                        assert(starts[k] == names[j]);
                    }
                }
            }
        }
        i += 1;
    }
    proof {
        orders.lemma_view();
        assert forall|c: Name| #[trigger] g.open_convoy(st0, c) implies starts.contains(c) by {
            let j = choose|j: int| 0 <= j < names.len() && names[j] == c;
            assert(g.open_convoy(st0, names[j]));
        }
    }
    if components.len() == 0 {
        proof {
            assert forall|q: Name| !g.disrupted(st0, q) by {
                if g.disrupted(st0, q) {
                    let c = choose|c: Name| #[trigger]
                        g.open_convoy(st0, c) && g.least_tangle(st0, c) && g.component(c).contains(q);
                    assert(starts.contains(c));
                }
            }
            assert(order_status@ =~= g.break_convoys(st0));
        }
        return ;
    }
    let mut min = frozen_len(&components[0]);
    let ghost mut least: int = 0;
    let mut k: usize = 1;
    while k < components.len()
        invariant
            components.len() == starts.len(),
            1 <= k <= components.len(),
            forall|m: int| 0 <= m < starts.len() ==> frozen_names(components[m]) == g.component(#[trigger] starts[m]),
            0 <= least < k,
            min == g.component(starts[least]).len(),
            forall|m: int| 0 <= m < k ==> min <= g.component(#[trigger] starts[m]).len(),
        decreases components.len() - k,
    {
        let size = frozen_len(&components[k]);
        if size < min {
            min = size;
            proof {
                least = k as int;
            }
        }
        k += 1;
    }
    let ghost mut done: Set<Name> = Set::empty();
    let mut k: usize = 0;
    assert(order_status@ =~= settle(st0, done, false));
    while k < components.len()
        invariant
            order_status.wf(),
            components.len() == starts.len(),
            k <= components.len(),
            forall|m: int| 0 <= m < starts.len() ==> frozen_names(components[m]) == g.component(#[trigger] starts[m]),
            order_status@ == settle(st0, done, false),
            forall|q: Name|
                done.contains(q) <==> exists|m: int|
                    0 <= m < k && g.component(#[trigger] starts[m]).len() == min && g.component(starts[m]).contains(q),
        decreases components.len() - k,
    {
        if frozen_len(&components[k]) == min {
            let members = thaw(&components[k]);
            let ghost before = order_status@;
            fail_all(order_status, &members);
            proof {
                let done0 = done;
                done = done.union(g.component(starts[k as int]));
                assert(order_status@ =~= settle(st0, done, false));
                assert forall|q: Name|
                    done.contains(q) <==> exists|m: int|
                        0 <= m < k + 1 && g.component(#[trigger] starts[m]).len() == min && g.component(
                            starts[m],
                        ).contains(q) by {
                    if done0.contains(q) {
                        let m = choose|m: int|
                            0 <= m < k && g.component(#[trigger] starts[m]).len() == min && g.component(
                                starts[m],
                            ).contains(q);
                        assert(0 <= m < k + 1);
                    }
                    if g.component(starts[k as int]).contains(q) {
                        assert(g.component(starts[k as int]).len() == min);
                    }
                }
            }
        }
        k += 1;
    }
    proof {
        let target = Set::new(|q: Name| g.disrupted(st0, q));
        assert forall|q: Name| done.contains(q) <==> target.contains(q) by {
            if done.contains(q) {
                let m = choose|m: int|
                    0 <= m < starts.len() && g.component(#[trigger] starts[m]).len() == min && g.component(
                        starts[m],
                    ).contains(q);
                let c = starts[m];
                assert forall|other: Name| #[trigger] g.open_convoy(st0, other) implies g.component(other).len()
                    >= g.component(c).len() by {
                    let m2 = choose|m2: int| 0 <= m2 < starts.len() && starts[m2] == other;
                    assert(min <= g.component(starts[m2]).len());
                }
                assert(g.open_convoy(st0, c) && g.least_tangle(st0, c) && g.component(c).contains(q));
            }
            if g.disrupted(st0, q) {
                let c = choose|c: Name| #[trigger]
                    g.open_convoy(st0, c) && g.least_tangle(st0, c) && g.component(c).contains(q);
                assert(starts.contains(c));
                let m = choose|m: int| 0 <= m < starts.len() && starts[m] == c;
                assert(g.open_convoy(st0, starts[least]));
                assert(min <= g.component(starts[m]).len());
                assert(g.component(starts[m]).len() == min);
            }
        }
        assert(done =~= target);
    }
}

} // verus!
