//! Adjudication of the orders of the standard game: dependencies, paths,
//! strengths and verdicts.

use vstd::prelude::*;
use crate::board::{GameMap, MapState, Unit};
use crate::graph::{edges, graph_wf, lemma_labels_backward, lemma_labels_forward, reach_from, reachable};
use crate::keyset::KeySet;
use crate::model::{chain_along, hop, known, position, reaches, sea_link, Interval, Position};
use crate::order::{Convoy, Core, Hold, Move, Order, Orders, SupportHold, SupportMove};
use crate::prefix::{first_keys, lemma_first_keys_all, lemma_first_keys_next, lemma_first_keys_none};
use crate::table::Table;
use crate::text::{same_text, Name};

verus! {

/// What is known of the orders, as stored: a resolved order is bound to its
/// outcome, an unresolved order is absent.
pub type OrderStatus = Table<bool>;

/// The outcome of the order given in `prov`, if it is known.
pub fn status_of(order_status: &OrderStatus, prov: &str) -> (r: Option<bool>)
    requires
        order_status.wf(),
    ensures
        r == known(order_status@, prov@),
{
    match order_status.get(prov) {
        Some(b) => Some(*b),
        None => None,
    }
}

/// Whether a fleet may sail from sea `a` to sea `b`.
pub fn sea_linked(map: &GameMap, a: &str, b: &str) -> (r: bool)
    ensures
        r == sea_link(map@, a@, b@),
{
    let key = ((a.to_owned(), String::new()), (b.to_owned(), String::new()));
    map.fleet_adj.contains(&key)
}

/// Whether `prov` is a sea province of the map.
pub fn province_is_sea(map: &GameMap, prov: &str) -> (r: bool)
    requires
        map.wf(),
    ensures
        r == (map@.provinces.contains_key(prov@) && map@.provinces[prov@].is_sea),
{
    match map.provinces.get(prov) {
        Some(p) => p.is_sea,
        None => false,
    }
}

/// The moves into `this_prov`: what a hold there depends on.
pub fn deps_for_hold(map: &GameMap, state: &MapState, orders: &Orders, this_prov: &str) -> (deps: KeySet<String>)
    requires
        orders.wf(),
    ensures
        deps.wf(),
        deps@ == orders@.dom().filter(position(map, state, orders).holds_on(this_prov@)),
{
    let ghost g = position(map, state, orders);
    let ghost p = g.holds_on(this_prov@);
    let mut deps: KeySet<String> = KeySet::new();
    let mut i: usize = 0;
    proof {
        lemma_first_keys_none(orders.names(), p);
    }
    while i < orders.len()
        invariant
            orders.wf(),
            g == position(map, state, orders),
            p == g.holds_on(this_prov@),
            i <= orders.names().len(),
            deps.wf(),
            deps@ == first_keys(orders.names(), i as int).filter(p),
        decreases orders.names().len() - i,
    {
        proof {
            lemma_first_keys_next(orders.names(), i as int, p);
        }
        if Move::is_move_to(orders.value_at(i), this_prov) {
            deps.insert(orders.key_at(i).clone());
        }
        i += 1;
    }
    proof {
        orders.lemma_view();
        lemma_first_keys_all(orders.names(), orders@.dom(), p);
    }
    deps
}

/// Whether the unit in `this_prov` stays in place. It is dislodged where a
/// move into the province is known to succeed; the matter is open where one
/// may yet succeed.
pub fn is_dislodged(
    map: &GameMap,
    state: &MapState,
    orders: &Orders,
    this_prov: &str,
    order_status: &OrderStatus,
) -> (r: Option<bool>)
    requires
        orders.wf(),
        order_status.wf(),
    ensures
        r == position(map, state, orders).undislodged(order_status@, this_prov@),
{
    let ghost g = position(map, state, orders);
    let ghost st = order_status@;
    let mut possible_dislodge = false;
    let mut i: usize = 0;
    proof {
        orders.lemma_view();
    }
    while i < orders.len()
        invariant
            orders.wf(),
            order_status.wf(),
            g == position(map, state, orders),
            st == order_status@,
            i <= orders.names().len(),
            forall|j: int|
                0 <= j < i && g.moves_to(#[trigger] orders.names()[j], this_prov@) ==> known(st, orders.names()[j])
                    != Some(true),
            possible_dislodge <==> exists|j: int|
                0 <= j < i && g.moves_to(#[trigger] orders.names()[j], this_prov@) && known(st, orders.names()[j])
                    is None,
        decreases orders.names().len() - i,
    {
        let key = orders.key_at(i);
        if Move::is_move_to(orders.value_at(i), this_prov) {
            match status_of(order_status, key.as_str()) {
                Some(true) => {
                    assert(g.moves_to(orders.names()[i as int], this_prov@));
                    return Some(false);
                },
                Some(false) => {},
                None => {
                    possible_dislodge = true;
                },
            }
        }
        i += 1;
    }
    proof {
        assert forall|q: Name| #[trigger] g.moves_to(q, this_prov@) implies known(st, q) != Some(true) by {
            let j = choose|j: int| 0 <= j < orders.names().len() && orders.names()[j] == q;
            assert(g.moves_to(orders.names()[j], this_prov@));
        }
        if !possible_dislodge {
            assert forall|q: Name| #[trigger] g.moves_to(q, this_prov@) implies !(known(st, q) is None) by {
                let j = choose|j: int| 0 <= j < orders.names().len() && orders.names()[j] == q;
                assert(g.moves_to(orders.names()[j], this_prov@));
            }
        }
    }
    if possible_dislodge {
        None
    } else {
        Some(true)
    }
}

/// Whether the unit in `src` could enter `dest`, coasts of `dest` apart.
pub fn unit_can_reach(map: &GameMap, state: &MapState, src: &str, dest: &str) -> (r: bool)
    requires
        state.wf(),
        state@.units.contains_key(src@),
    ensures
        r == reaches(map@, state@.units, src@, dest@),
{
    match state.units.get(src) {
        Some(Unit::Army(_)) => map.army_adj.contains(&(src.to_owned(), dest.to_owned())),
        Some(Unit::Fleet(_, coast)) => map.fleet_adj.contains(
            &((src.to_owned(), coast.clone()), (dest.to_owned(), String::new())),
        ),
        None => false,
    }
}

/// Whether the mover in `src` is adjacent to its destination: an army by
/// army adjacency; a fleet by fleet adjacency from its coast to the coast it
/// is sent to, which must be a coast of the destination.
pub fn is_direct_path(map: &GameMap, state: &MapState, orders: &Orders, src: &str) -> (r: bool)
    requires
        map.wf(),
        state.wf(),
        orders.wf(),
        position(map, state, orders).is_mover(src@),
        state@.units.contains_key(src@),
        map@.provinces.contains_key(position(map, state, orders).dest_of(src@)),
    ensures
        r == position(map, state, orders).direct_path(src@),
{
    let (dest_prov, dest_coast) = match orders.get(src) {
        Some(Order::Move(m)) => (&m.dest.0, &m.dest.1),
        _ => {
            return false;
        },
    };
    match state.units.get(src) {
        Some(Unit::Army(_)) => map.army_adj.contains(&(src.to_owned(), dest_prov.clone())),
        Some(Unit::Fleet(_, src_coast)) => {
            let coast_ok = match map.provinces.get(dest_prov.as_str()) {
                Some(p) => p.coasts.contains(dest_coast) || (dest_coast.as_str().is_empty() && p.coasts.is_empty()),
                None => false,
            };
            assert(dest_coast@.len() == 0 <==> dest_coast@ =~= Seq::<char>::empty());
            if !coast_ok {
                return false;
            }
            map.fleet_adj.contains(&((src.to_owned(), src_coast.clone()), (dest_prov.clone(), dest_coast.clone())))
        },
        None => false,
    }
}

/// The provinces that `is_path_along` searches: the source, then the fleets.
pub open spec fn chain_nodes(src: Name, convoys: Seq<Name>) -> Seq<Name> {
    seq![src] + convoys
}

fn chain_node<'a>(src: &'a str, convoys: &'a KeySet<String>, i: usize) -> (r: &'a str)
    requires
        i <= convoys.seq().len(),
    ensures
        r@ == chain_nodes(src@, convoys.seq())[i as int],
{
    if i == 0 {
        src
    } else {
        convoys.at(i - 1).as_str()
    }
}

/// Whether a chain of one or more of the fleets in `convoys`, each next to
/// the one before by fleet adjacency without coasts, joins `src` to `dest`.
pub fn is_path_along(map: &GameMap, src: &str, dest: &str, convoys: &KeySet<String>) -> (r: bool)
    requires
        convoys.seq().len() < usize::MAX,
    ensures
        r == chain_along(map@, src@, dest@, convoys@),
{
    let n = convoys.len() + 1;
    let ghost label = chain_nodes(src@, convoys.seq());
    let ghost rel = hop(map@, src@, convoys@);
    let mut adj: Vec<Vec<usize>> = Vec::new();
    let mut a: usize = 0;
    while a < n
        invariant
            n == convoys.seq().len() + 1,
            label == chain_nodes(src@, convoys.seq()),
            rel == hop(map@, src@, convoys@),
            a <= n,
            adj.len() == a,
            forall|x: int, k: int| 0 <= x < a && 0 <= k < adj[x]@.len() ==> (#[trigger] adj[x]@[k]) < n,
            forall|x: int, y: usize|
                0 <= x < a && y < n ==> (#[trigger] adj[x]@.contains(y) <==> rel(label[x], label[y as int])),
        decreases n - a,
    {
        let from = chain_node(src, convoys, a);
        let mut list: Vec<usize> = Vec::new();
        let mut b: usize = 1;
        assert(!rel(label[a as int], label[0]));
        while b < n
            invariant
                n == convoys.seq().len() + 1,
                label == chain_nodes(src@, convoys.seq()),
                rel == hop(map@, src@, convoys@),
                a < n,
                from@ == label[a as int],
                1 <= b <= n,
                forall|k: int| 0 <= k < list@.len() ==> (#[trigger] list@[k]) < b,
                forall|y: usize| y < b ==> (#[trigger] list@.contains(y) <==> rel(label[a as int], label[y as int])),
            decreases n - b,
        {
            let to = chain_node(src, convoys, b);
            let ghost before = list@;
            assert(convoys.seq().contains(convoys.seq()[b - 1]));
            assert(convoys@.contains(to@));
            let linked = sea_linked(map, from, to) && !same_text(to, src);
            if linked {
                list.push(b);
                assert(list@[before.len() as int] == b);
                assert forall|y: usize| y < b + 1 implies (#[trigger] list@.contains(y) <==> rel(
                    label[a as int],
                    label[y as int],
                )) by {
                    if before.contains(y) {
                        let k = choose|k: int| 0 <= k < before.len() && before[k] == y;
                        assert(list@[k] == y);
                    }
                    if list@.contains(y) && y != b {
                        let k = choose|k: int| 0 <= k < list@.len() && list@[k] == y;
                        assert(before[k] == y);
                    }
                }
            }
            b += 1;
        }
        let ghost adj0 = adj@;
        adj.push(list);
        assert(forall|x: int| 0 <= x < a ==> adj@[x] == adj0[x]);
        a += 1;
    }
    assert(graph_wf(adj@));
    let seen = reach_from(&adj, 0);
    assert(label[0] == src@);
    let mut y: usize = 1;
    while y < n
        invariant
            n == convoys.seq().len() + 1,
            n == adj.len(),
            seen.len() == n,
            label == chain_nodes(src@, convoys.seq()),
            rel == hop(map@, src@, convoys@),
            graph_wf(adj@),
            forall|x: int, z: usize|
                0 <= x < n && z < n ==> (#[trigger] adj[x]@.contains(z) <==> rel(label[x], label[z as int])),
            forall|b: usize| b < n ==> (#[trigger] seen[b as int] <==> reachable(edges(adj@), 0, b)),
            1 <= y <= n,
            forall|z: usize|
                1 <= z < y ==> !(#[trigger] seen[z as int] && label[z as int] != src@ && sea_link(
                    map@,
                    label[z as int],
                    dest@,
                )),
        decreases n - y,
    {
        let node = chain_node(src, convoys, y);
        if seen[y] && !same_text(node, src) && sea_linked(map, node, dest) {
            proof {
                assert forall|x: usize, z: usize|
                    x < adj@.len() && z < adj@.len() && #[trigger] edges(adj@)(x, z) implies rel(
                    label[x as int],
                    label[z as int],
                ) by {
                    assert(adj@[x as int]@.contains(z));
                }
                lemma_labels_forward(adj@, rel, label, 0, y);
                assert(reachable(rel, src@, label[y as int]));
            }
            return true;
        }
        y += 1;
    }
    proof {
        if chain_along(map@, src@, dest@, convoys@) {
            let last = choose|last: Name|
                last != src@ && #[trigger] reachable(rel, src@, last) && sea_link(map@, last, dest@);
            assert forall|x: usize, t: Name| x < adj@.len() && #[trigger] rel(label[x as int], t) implies exists|
                z: usize,
            |
                z < adj@.len() && label[z as int] == t && #[trigger] edges(adj@)(x, z) by {
                assert(convoys.seq().contains(t));
                let j = choose|j: int| 0 <= j < convoys.seq().len() && convoys.seq()[j] == t;
                let z = (j + 1) as usize;
                assert(label[z as int] == t);
                assert(adj@[x as int]@.contains(z));
                assert(edges(adj@)(x, z));
            }
            let z = lemma_labels_backward(adj@, rel, label, 0, last);
            assert(seen[z as int]);
            assert(1 <= z < n);
        }
    }
    false
}

/// The fleets at sea that are ordered to convoy the move from `src` to
/// `dest` and, as far as known, do so.
fn convoy_fleets(
    map: &GameMap,
    state: &MapState,
    orders: &Orders,
    order_status: &OrderStatus,
    src: &str,
    dest: &str,
    sure: bool,
) -> (fleets: KeySet<String>)
    requires
        map.wf(),
        orders.wf(),
        order_status.wf(),
    ensures
        fleets.wf(),
        fleets@ == position(map, state, orders).convoy_fleets(order_status@, src@, dest@, sure),
        fleets.seq().len() <= orders.names().len(),
{
    let ghost g = position(map, state, orders);
    let ghost p = g.carries(order_status@, src@, dest@, sure);
    let mut fleets: KeySet<String> = KeySet::new();
    let mut i: usize = 0;
    proof {
        lemma_first_keys_none(orders.names(), p);
    }
    while i < orders.len()
        invariant
            map.wf(),
            orders.wf(),
            order_status.wf(),
            g == position(map, state, orders),
            p == g.carries(order_status@, src@, dest@, sure),
            i <= orders.names().len(),
            fleets.wf(),
            fleets.seq().len() <= i,
            fleets@ == first_keys(orders.names(), i as int).filter(p),
        decreases orders.names().len() - i,
    {
        proof {
            lemma_first_keys_next(orders.names(), i as int, p);
        }
        let key = orders.key_at(i);
        if Convoy::is_convoy_for(orders.value_at(i), src, dest) && province_is_sea(map, key.as_str()) {
            let counts = match status_of(order_status, key.as_str()) {
                Some(true) => true,
                Some(false) => false,
                None => !sure,
            };
            if counts {
                fleets.insert(key.clone());
            }
        }
        i += 1;
    }
    proof {
        orders.lemma_view();
        lemma_first_keys_all(orders.names(), orders@.dom(), p);
    }
    fleets
}

/// Whether the mover in `src` has a convoyed path to its destination.
pub fn is_convoy_path(
    map: &GameMap,
    state: &MapState,
    orders: &Orders,
    order_status: &OrderStatus,
    src: &str,
) -> (r: Option<bool>)
    requires
        map.wf(),
        state.wf(),
        orders.wf(),
        order_status.wf(),
        position(map, state, orders).valid(),
        position(map, state, orders).is_mover(src@),
    ensures
        r == position(map, state, orders).convoy_path(order_status@, src@),
{
    let dest_prov = match orders.get(src) {
        Some(Order::Move(m)) => &m.dest.0,
        _ => {
            return None;
        },
    };
    match state.units.get(src) {
        Some(Unit::Fleet(_, _)) => {
            return Some(false);
        },
        _ => {},
    }
    if province_is_sea(map, dest_prov.as_str()) {
        return Some(false);
    }
    proof {
        orders.lemma_view();
    }
    let definite_convoys = convoy_fleets(map, state, orders, order_status, src, dest_prov.as_str(), true);
    if is_path_along(map, src, dest_prov.as_str(), &definite_convoys) {
        return Some(true);
    }
    let possible_convoys = convoy_fleets(map, state, orders, order_status, src, dest_prov.as_str(), false);
    if is_path_along(map, src, dest_prov.as_str(), &possible_convoys) {
        None
    } else {
        Some(false)
    }
}

/// Whether the mover in `src` has a path to its destination, direct or
/// convoyed.
pub fn is_path(map: &GameMap, state: &MapState, orders: &Orders, order_status: &OrderStatus, src: &str) -> (r:
    Option<bool>)
    requires
        map.wf(),
        state.wf(),
        orders.wf(),
        order_status.wf(),
        position(map, state, orders).valid(),
        position(map, state, orders).is_mover(src@),
    ensures
        r == position(map, state, orders).path(order_status@, src@),
{
    if is_direct_path(map, state, orders, src) {
        return Some(true);
    }
    is_convoy_path(map, state, orders, order_status, src)
}

/// Whether the mover in `src` is in a head-to-head battle: the unit in its
/// destination moves the other way, and neither of the two is convoyed.
pub fn is_head_to_head(
    map: &GameMap,
    state: &MapState,
    orders: &Orders,
    order_status: &OrderStatus,
    src: &str,
) -> (r: Option<bool>)
    requires
        map.wf(),
        state.wf(),
        orders.wf(),
        order_status.wf(),
        position(map, state, orders).valid(),
        position(map, state, orders).is_mover(src@),
    ensures
        r == position(map, state, orders).head_to_head(order_status@, src@),
{
    let dest_prov = match orders.get(src) {
        Some(Order::Move(m)) => &m.dest.0,
        _ => {
            return None;
        },
    };
    let opposed = match orders.get(dest_prov.as_str()) {
        Some(other) => Move::is_move_to(other, src),
        None => false,
    };
    if !opposed {
        return Some(false);
    }
    let here = is_convoy_path(map, state, orders, order_status, src);
    let there = is_convoy_path(map, state, orders, order_status, dest_prov.as_str());
    match (here, there) {
        (Some(true), _) => Some(false),
        (_, Some(true)) => Some(false),
        (None, _) => None,
        (_, None) => None,
        (Some(false), Some(false)) => Some(true),
    }
}

/// A strength under partial knowledge: at least `min`, at most `max`.
#[derive(Clone, Copy, Debug)]
pub struct Bounds {
    pub min: u32,
    pub max: u32,
}

impl View for Bounds {
    type V = Interval;

    open spec fn view(&self) -> Interval {
        Interval { min: self.min as nat, max: self.max as nat }
    }
}

/// Compute the hold strength of the target province: nothing where it is
/// empty; for a unit ordered to move, one unless the move succeeds; for any
/// other unit, one and one more for each support to hold.
pub fn compute_hold_strength(
    map: &GameMap,
    state: &MapState,
    orders: &Orders,
    order_status: &OrderStatus,
    target: &str,
) -> (r: Bounds)
    requires
        state.wf(),
        orders.wf(),
        order_status.wf(),
        orders@.dom().len() < u32::MAX,
    ensures
        r@ == position(map, state, orders).hold_strength(order_status@, target@),
{
    let ghost g = position(map, state, orders);
    let ghost st = order_status@;
    if !state.units.contains_key(target) {
        return Bounds { min: 0, max: 0 };
    }
    let moving = match orders.get(target) {
        Some(o) => o.is_move(),
        None => false,
    };
    if moving {
        // supports do not work for a unit that moves
        return match status_of(order_status, target) {
            Some(true) => Bounds { min: 0, max: 0 },
            Some(false) => Bounds { min: 1, max: 1 },
            None => Bounds { min: 0, max: 1 },
        };
    }
    let ghost sure = g.hold_support(st, target@, true);
    let ghost open = g.hold_support(st, target@, false);
    let mut bounds = Bounds { min: 1, max: 1 };
    let mut i: usize = 0;
    proof {
        orders.lemma_view();
        lemma_first_keys_none(orders.names(), sure);
        lemma_first_keys_none(orders.names(), open);
    }
    while i < orders.len()
        invariant
            orders.wf(),
            order_status.wf(),
            orders.names().len() < u32::MAX,
            g == position(map, state, orders),
            st == order_status@,
            sure == g.hold_support(st, target@, true),
            open == g.hold_support(st, target@, false),
            i <= orders.names().len(),
            bounds.min == 1 + first_keys(orders.names(), i as int).filter(sure).len(),
            bounds.max == 1 + first_keys(orders.names(), i as int).filter(open).len(),
        decreases orders.names().len() - i,
    {
        proof {
            lemma_first_keys_next(orders.names(), i as int, sure);
            lemma_first_keys_next(orders.names(), i as int, open);
        }
        if SupportHold::is_support_of(orders.value_at(i), target) {
            match status_of(order_status, orders.key_at(i).as_str()) {
                Some(true) => {
                    bounds.min += 1;
                    bounds.max += 1;
                },
                None => {
                    bounds.max += 1;
                },
                Some(false) => {},
            }
        }
        i += 1;
    }
    proof {
        lemma_first_keys_all(orders.names(), orders@.dom(), sure);
        lemma_first_keys_all(orders.names(), orders@.dom(), open);
    }
    bounds
}

/// Compute the defend strength of the move ordered in `src`: nothing where
/// it has no path, else one and one more for each support of the move.
pub fn compute_defend_strength(
    map: &GameMap,
    state: &MapState,
    orders: &Orders,
    order_status: &OrderStatus,
    src: &str,
) -> (r: Bounds)
    requires
        map.wf(),
        state.wf(),
        orders.wf(),
        order_status.wf(),
        position(map, state, orders).valid(),
        position(map, state, orders).is_mover(src@),
    ensures
        r@ == position(map, state, orders).defend_strength(order_status@, src@),
{
    let ghost g = position(map, state, orders);
    let ghost st = order_status@;
    let possibly_no_path = match is_path(map, state, orders, order_status, src) {
        Some(false) => {
            return Bounds { min: 0, max: 0 };
        },
        Some(true) => false,
        None => true,
    };
    let dest_prov = match orders.get(src) {
        Some(Order::Move(m)) => &m.dest.0,
        _ => {
            return Bounds { min: 0, max: 0 };
        },
    };
    let ghost sure = g.move_support(st, src@, dest_prov@, true);
    let ghost open = g.move_support(st, src@, dest_prov@, false);
    let mut bounds = Bounds { min: 1, max: 1 };
    let mut i: usize = 0;
    proof {
        orders.lemma_view();
        lemma_first_keys_none(orders.names(), sure);
        lemma_first_keys_none(orders.names(), open);
    }
    while i < orders.len()
        invariant
            orders.wf(),
            order_status.wf(),
            orders.names().len() < u32::MAX,
            g == position(map, state, orders),
            st == order_status@,
            sure == g.move_support(st, src@, dest_prov@, true),
            open == g.move_support(st, src@, dest_prov@, false),
            i <= orders.names().len(),
            bounds.min == 1 + first_keys(orders.names(), i as int).filter(sure).len(),
            bounds.max == 1 + first_keys(orders.names(), i as int).filter(open).len(),
        decreases orders.names().len() - i,
    {
        proof {
            lemma_first_keys_next(orders.names(), i as int, sure);
            lemma_first_keys_next(orders.names(), i as int, open);
        }
        if SupportMove::is_support_to(orders.value_at(i), src, dest_prov.as_str()) {
            match status_of(order_status, orders.key_at(i).as_str()) {
                Some(true) => {
                    bounds.min += 1;
                    bounds.max += 1;
                },
                Some(false) => {},
                None => {
                    bounds.max += 1;
                },
            }
        }
        i += 1;
    }
    proof {
        lemma_first_keys_all(orders.names(), orders@.dom(), sure);
        lemma_first_keys_all(orders.names(), orders@.dom(), open);
    }
    if possibly_no_path {
        bounds.min = 0;
    }
    bounds
}

/// Compute the prevent strength of the move ordered in `src`: its defend
/// strength, but nothing where it loses a head-to-head battle, and possibly
/// nothing while it may yet lose one.
pub fn compute_prevent_strength(
    map: &GameMap,
    state: &MapState,
    orders: &Orders,
    order_status: &OrderStatus,
    src: &str,
) -> (r: Bounds)
    requires
        map.wf(),
        state.wf(),
        orders.wf(),
        order_status.wf(),
        position(map, state, orders).valid(),
        position(map, state, orders).is_mover(src@),
    ensures
        r@ == position(map, state, orders).prevent_strength(order_status@, src@),
{
    let mut bounds = compute_defend_strength(map, state, orders, order_status, src);
    let dest_prov = match orders.get(src) {
        Some(Order::Move(m)) => &m.dest.0,
        _ => {
            return bounds;
        },
    };
    let other = status_of(order_status, dest_prov.as_str());
    match is_head_to_head(map, state, orders, order_status, src) {
        Some(false) => {},
        None => {
            match other {
                Some(false) => {},
                _ => {
                    bounds.min = 0;
                },
            }
        },
        Some(true) => {
            match other {
                Some(false) => {},
                Some(true) => {
                    bounds.min = 0;
                    bounds.max = 0;
                },
                None => {
                    bounds.min = 0;
                },
            }
        },
    }
    bounds
}

/// Whether `nation` is the nationality held in `occupant`.
fn is_nation(occupant: &Option<String>, nation: &String) -> (r: bool)
    ensures
        r == (match occupant {
            Some(n) => n@ == nation@,
            None => false,
        }),
{
    match occupant {
        Some(n) => same_text(n.as_str(), nation.as_str()),
        None => false,
    }
}

/// Compute the attack strength of the move ordered in `src`: nothing where it
/// has no path or goes against a unit of its own nationality that stays,
/// else one and one more for each support that is not given against the
/// supporter's own nationality.
pub fn compute_attack_strength(
    map: &GameMap,
    state: &MapState,
    orders: &Orders,
    order_status: &OrderStatus,
    src: &str,
) -> (r: Bounds)
    requires
        map.wf(),
        state.wf(),
        orders.wf(),
        order_status.wf(),
        position(map, state, orders).valid(),
        position(map, state, orders).is_mover(src@),
    ensures
        r@ == position(map, state, orders).attack_strength(order_status@, src@),
{
    let ghost g = position(map, state, orders);
    let ghost st = order_status@;
    let possibly_no_path = match is_path(map, state, orders, order_status, src) {
        Some(false) => {
            return Bounds { min: 0, max: 0 };
        },
        Some(true) => false,
        None => true,
    };
    let dest_prov = match orders.get(src) {
        Some(Order::Move(m)) => &m.dest.0,
        _ => {
            return Bounds { min: 0, max: 0 };
        },
    };
    let dest_moves = match orders.get(dest_prov.as_str()) {
        Some(o) => o.is_move(),
        None => false,
    };
    let dest_status = status_of(order_status, dest_prov.as_str());
    let dest_leaves = dest_moves && match dest_status {
        Some(true) => true,
        _ => false,
    };
    let possible_dest_nationality: Option<String> = match state.units.get(dest_prov.as_str()) {
        Some(u) => if dest_leaves {
            None
        } else {
            Some(u.nationality())
        },
        None => None,
    };
    let dest_nationality_certain = !dest_moves || dest_status.is_some();
    let src_nationality = match state.units.get(src) {
        Some(u) => u.nationality(),
        None => {
            return Bounds { min: 0, max: 0 };
        },
    };
    let own = is_nation(&possible_dest_nationality, &src_nationality);
    assert(match possible_dest_nationality {
        Some(n) => g.occupant(st, dest_prov@) == Some(n@),
        None => g.occupant(st, dest_prov@) is None,
    });
    assert(dest_nationality_certain == g.occupant_certain(st, dest_prov@));
    assert(own == (g.occupant(st, dest_prov@) == Some(g.nation_at(src@))));
    if own && dest_nationality_certain {
        return Bounds { min: 0, max: 0 };
    }
    let ghost sure = g.attack_support(st, src@, dest_prov@, true);
    let ghost open = g.attack_support(st, src@, dest_prov@, false);
    let mut bounds = Bounds { min: 1, max: 1 };
    let mut i: usize = 0;
    proof {
        orders.lemma_view();
        lemma_first_keys_none(orders.names(), sure);
        lemma_first_keys_none(orders.names(), open);
    }
    while i < orders.len()
        invariant
            state.wf(),
            orders.wf(),
            order_status.wf(),
            orders.names().len() < u32::MAX,
            g == position(map, state, orders),
            g.valid(),
            st == order_status@,
            match possible_dest_nationality {
                Some(n) => g.occupant(st, dest_prov@) == Some(n@),
                None => g.occupant(st, dest_prov@) is None,
            },
            dest_nationality_certain == g.occupant_certain(st, dest_prov@),
            sure == g.attack_support(st, src@, dest_prov@, true),
            open == g.attack_support(st, src@, dest_prov@, false),
            i <= orders.names().len(),
            bounds.min == 1 + first_keys(orders.names(), i as int).filter(sure).len(),
            bounds.max == 1 + first_keys(orders.names(), i as int).filter(open).len(),
        decreases orders.names().len() - i,
    {
        proof {
            orders.lemma_view();
            lemma_first_keys_next(orders.names(), i as int, sure);
            lemma_first_keys_next(orders.names(), i as int, open);
        }
        let key = orders.key_at(i);
        if SupportMove::is_support_to(orders.value_at(i), src, dest_prov.as_str()) {
            assert(g.orders.contains_key(key@));
            let same_nation = match state.units.get(key.as_str()) {
                Some(u) => is_nation(&possible_dest_nationality, u.nation_ref()),
                None => false,
            };
            match status_of(order_status, key.as_str()) {
                Some(true) => {
                    if !same_nation {
                        bounds.min += 1;
                        bounds.max += 1;
                    } else if !dest_nationality_certain {
                        bounds.max += 1;
                    }
                },
                Some(false) => {},
                None => {
                    if !dest_nationality_certain || !same_nation {
                        bounds.max += 1;
                    }
                },
            }
        }
        i += 1;
    }
    proof {
        lemma_first_keys_all(orders.names(), orders@.dom(), sure);
        lemma_first_keys_all(orders.names(), orders@.dom(), open);
    }
    if possibly_no_path || own {
        bounds.min = 0;
    }
    bounds
}

/// Whether the unit in `src` is ordered to move to `dest`.
pub fn moves_to(orders: &Orders, src: &str, dest: &str) -> (r: bool)
    requires
        orders.wf(),
    ensures
        r == (orders@.contains_key(src@) && orders@[src@].is_move_to(dest@)),
{
    match orders.get(src) {
        Some(o) => Move::is_move_to(o, dest),
        None => false,
    }
}

/// Whether the units in `a` and `b` are of different nationality.
fn foreign(state: &MapState, a: &str, b: &str) -> (r: bool)
    requires
        state.wf(),
        state@.units.contains_key(a@),
        state@.units.contains_key(b@),
    ensures
        r == (state@.units[a@].nation() != state@.units[b@].nation()),
{
    match (state.units.get(a), state.units.get(b)) {
        (Some(x), Some(y)) => !same_text(x.nation_ref().as_str(), y.nation_ref().as_str()),
        _ => false,
    }
}

/// What a support given from `this_prov` depends on: the moves into the
/// province by units of another nationality, and the convoys that carry
/// such a move.
pub fn deps_for_tap(map: &GameMap, state: &MapState, orders: &Orders, this_prov: &str) -> (deps: KeySet<String>)
    requires
        state.wf(),
        orders.wf(),
        position(map, state, orders).valid(),
        state@.units.contains_key(this_prov@),
    ensures
        deps.wf(),
        deps@ == orders@.dom().filter(position(map, state, orders).taps_on(this_prov@)),
{
    let ghost g = position(map, state, orders);
    let ghost p = g.taps_on(this_prov@);
    let mut deps: KeySet<String> = KeySet::new();
    let mut i: usize = 0;
    proof {
        lemma_first_keys_none(orders.names(), p);
    }
    while i < orders.len()
        invariant
            state.wf(),
            orders.wf(),
            g == position(map, state, orders),
            g.valid(),
            state@.units.contains_key(this_prov@),
            p == g.taps_on(this_prov@),
            i <= orders.names().len(),
            deps.wf(),
            deps@ == first_keys(orders.names(), i as int).filter(p),
        decreases orders.names().len() - i,
    {
        proof {
            orders.lemma_view();
            lemma_first_keys_next(orders.names(), i as int, p);
        }
        let key = orders.key_at(i);
        assert(g.orders.contains_key(key@));
        let rests = match orders.value_at(i) {
            Order::Move(m) => m.is_to(this_prov) && foreign(state, key.as_str(), this_prov),
            Order::Convoy(c) => same_text(c.dest.as_str(), this_prov) && moves_to(
                orders,
                c.src.as_str(),
                this_prov,
            ) && foreign(state, c.src.as_str(), this_prov),
            _ => false,
        };
        if rests {
            deps.insert(key.clone());
        }
        i += 1;
    }
    proof {
        orders.lemma_view();
        lemma_first_keys_all(orders.names(), orders@.dom(), p);
    }
    deps
}

/// The name that an exception stands for.
pub open spec fn excepted(exception: Option<&str>) -> Option<Name> {
    match exception {
        Some(name) => Some(name@),
        None => None,
    }
}

/// Whether the support given from `this_prov` is uncut. A mover of another
/// nationality cuts it where it has a path into the province. An attack out
/// of `exception` does not count; the empty name excepts no province.
pub fn is_untapped(
    map: &GameMap,
    state: &MapState,
    orders: &Orders,
    order_status: &OrderStatus,
    this_prov: &str,
    exception: &str,
) -> (r: Option<bool>)
    requires
        map.wf(),
        state.wf(),
        orders.wf(),
        order_status.wf(),
        position(map, state, orders).valid(),
        state@.units.contains_key(this_prov@),
    ensures
        r == position(map, state, orders).untapped(
            order_status@,
            this_prov@,
            if exception@.len() == 0 {
                None
            } else {
                Some(exception@)
            },
        ),
{
    if exception.is_empty() {
        untapped_but(map, state, orders, order_status, this_prov, None)
    } else {
        untapped_but(map, state, orders, order_status, this_prov, Some(exception))
    }
}

/// Whether the support given from `this_prov` is uncut, an attack out of
/// `exception` not counting.
pub fn untapped_but(
    map: &GameMap,
    state: &MapState,
    orders: &Orders,
    order_status: &OrderStatus,
    this_prov: &str,
    exception: Option<&str>,
) -> (r: Option<bool>)
    requires
        map.wf(),
        state.wf(),
        orders.wf(),
        order_status.wf(),
        position(map, state, orders).valid(),
        state@.units.contains_key(this_prov@),
    ensures
        r == position(map, state, orders).untapped(order_status@, this_prov@, excepted(exception)),
{
    let ghost g = position(map, state, orders);
    let ghost st = order_status@;
    let mut possibly_tapped = false;
    let mut i: usize = 0;
    proof {
        orders.lemma_view();
    }
    while i < orders.len()
        invariant
            map.wf(),
            state.wf(),
            orders.wf(),
            order_status.wf(),
            g == position(map, state, orders),
            g.valid(),
            state@.units.contains_key(this_prov@),
            st == order_status@,
            i <= orders.names().len(),
            forall|j: int|
                0 <= j < i && g.taps(#[trigger] orders.names()[j], this_prov@) ==> g.cut_by(
                    st,
                    orders.names()[j],
                    excepted(exception),
                ) != Some(true),
            possibly_tapped <==> exists|j: int|
                0 <= j < i && g.taps(#[trigger] orders.names()[j], this_prov@) && g.cut_by(
                    st,
                    orders.names()[j],
                    excepted(exception),
                ) is None,
        decreases orders.names().len() - i,
    {
        proof {
            orders.lemma_view();
        }
        let key = orders.key_at(i);
        assert(g.orders.contains_key(key@));
        if Move::is_move_to(orders.value_at(i), this_prov) && foreign(state, key.as_str(), this_prov) {
            assert(g.taps(orders.names()[i as int], this_prov@));
            let exempt = match exception {
                Some(name) => same_text(key.as_str(), name),
                None => false,
            };
            let cut = if exempt {
                Some(false)
            } else {
                is_path(map, state, orders, order_status, key.as_str())
            };
            match cut {
                Some(true) => {
                    return Some(false);
                },
                None => {
                    possibly_tapped = true;
                },
                Some(false) => {},
            }
        }
        i += 1;
    }
    proof {
        assert forall|q: Name| #[trigger] g.taps(q, this_prov@) implies g.cut_by(st, q, excepted(exception)) != Some(
            true,
        ) by {
            let j = choose|j: int| 0 <= j < orders.names().len() && orders.names()[j] == q;
            assert(g.taps(orders.names()[j], this_prov@));
        }
        if !possibly_tapped {
            assert forall|q: Name| #[trigger] g.taps(q, this_prov@) implies !(g.cut_by(st, q, excepted(exception))
                is None) by {
                let j = choose|j: int| 0 <= j < orders.names().len() && orders.names()[j] == q;
                assert(g.taps(orders.names()[j], this_prov@));
            }
        }
    }
    if possibly_tapped {
        None
    } else {
        Some(true)
    }
}

/// No province at all.
fn empty_set() -> (deps: KeySet<String>)
    ensures
        deps.wf(),
        deps@ == Set::<Name>::empty(),
{
    KeySet::new()
}

proof fn lemma_filter_nothing(dom: Set<Name>)
    ensures
        dom.filter(Position::rests_on_nothing()) == Set::<Name>::empty(),
{
    assert(dom.filter(Position::rests_on_nothing()) =~= Set::<Name>::empty());
}

impl Hold {
    /// The orders that a hold in `this_prov` depends on.
    pub fn deps(&self, map: &GameMap, state: &MapState, orders: &Orders, this_prov: &str) -> (deps: KeySet<
        String,
    >)
        requires
            orders.wf(),
        ensures
            deps.wf(),
            deps@ == orders@.dom().filter(position(map, state, orders).holds_on(this_prov@)),
    {
        deps_for_hold(map, state, orders, this_prov)
    }

    /// The verdict on a hold in `this_prov`: it succeeds iff the unit is not
    /// dislodged.
    pub fn adjudicate(
        &self,
        map: &GameMap,
        state: &MapState,
        orders: &Orders,
        this_prov: &str,
        order_status: &OrderStatus,
    ) -> (r: Option<bool>)
        requires
            orders.wf(),
            order_status.wf(),
        ensures
            r == position(map, state, orders).undislodged(order_status@, this_prov@),
    {
        is_dislodged(map, state, orders, this_prov, order_status)
    }
}

impl Core {
    /// The orders that a core order in `this_prov` depends on.
    pub fn deps(&self, map: &GameMap, state: &MapState, orders: &Orders, this_prov: &str) -> (deps: KeySet<
        String,
    >)
        requires
            state.wf(),
            orders.wf(),
            position(map, state, orders).valid(),
            state@.units.contains_key(this_prov@),
        ensures
            deps.wf(),
            deps@ == orders@.dom().filter(position(map, state, orders).taps_on(this_prov@)),
    {
        deps_for_tap(map, state, orders, this_prov)
    }

    /// The verdict on a core order in `this_prov`: it succeeds iff untapped.
    pub fn adjudicate(
        &self,
        map: &GameMap,
        state: &MapState,
        orders: &Orders,
        this_prov: &str,
        order_status: &OrderStatus,
    ) -> (r: Option<bool>)
        requires
            map.wf(),
            state.wf(),
            orders.wf(),
            order_status.wf(),
            position(map, state, orders).valid(),
            state@.units.contains_key(this_prov@),
        ensures
            r == position(map, state, orders).untapped(order_status@, this_prov@, None),
    {
        untapped_but(map, state, orders, order_status, this_prov, None)
    }
}

impl Convoy {
    /// The orders that this convoy, ordered in `this_prov`, depends on: those
    /// of a hold where the province is a sea, none elsewhere.
    pub fn deps(&self, map: &GameMap, state: &MapState, orders: &Orders, this_prov: &str) -> (deps: KeySet<
        String,
    >)
        requires
            map.wf(),
            orders.wf(),
        ensures
            deps.wf(),
            deps@ == if position(map, state, orders).is_sea(this_prov@) {
                orders@.dom().filter(position(map, state, orders).holds_on(this_prov@))
            } else {
                Set::<Name>::empty()
            },
    {
        if !province_is_sea(map, this_prov) {
            return empty_set();
        }
        deps_for_hold(map, state, orders, this_prov)
    }

    /// The verdict on this convoy, ordered in `this_prov`: it fails outside a
    /// sea, and at sea succeeds iff the fleet is not dislodged.
    pub fn adjudicate(
        &self,
        map: &GameMap,
        state: &MapState,
        orders: &Orders,
        this_prov: &str,
        order_status: &OrderStatus,
    ) -> (r: Option<bool>)
        requires
            map.wf(),
            orders.wf(),
            order_status.wf(),
        ensures
            r == if position(map, state, orders).is_sea(this_prov@) {
                position(map, state, orders).undislodged(order_status@, this_prov@)
            } else {
                Some(false)
            },
    {
        if !province_is_sea(map, this_prov) {
            return Some(false);
        }
        is_dislodged(map, state, orders, this_prov, order_status)
    }
}

impl SupportHold {
    /// Whether the support can be given at all: the target has an order
    /// that is no move, and the unit in `this_prov` could enter the target.
    fn can_be_given(&self, map: &GameMap, state: &MapState, orders: &Orders, this_prov: &str) -> (r: bool)
        requires
            state.wf(),
            orders.wf(),
            state@.units.contains_key(this_prov@),
        ensures
            r == position(map, state, orders).hold_supportable(this_prov@, self.target@),
    {
        match orders.get(self.target.as_str()) {
            Some(o) => !o.is_move() && unit_can_reach(map, state, this_prov, self.target.as_str()),
            None => false,
        }
    }

    /// The orders that this support, ordered in `this_prov`, depends on.
    pub fn deps(&self, map: &GameMap, state: &MapState, orders: &Orders, this_prov: &str) -> (deps: KeySet<
        String,
    >)
        requires
            state.wf(),
            orders.wf(),
            position(map, state, orders).valid(),
            state@.units.contains_key(this_prov@),
        ensures
            deps.wf(),
            deps@ == if position(map, state, orders).hold_supportable(this_prov@, self.target@) {
                orders@.dom().filter(position(map, state, orders).taps_on(this_prov@))
            } else {
                Set::<Name>::empty()
            },
    {
        if !self.can_be_given(map, state, orders, this_prov) {
            empty_set()
        } else {
            deps_for_tap(map, state, orders, this_prov)
        }
    }

    /// The verdict on this support, ordered in `this_prov`: it fails where it
    /// cannot be given, and else succeeds iff it is not cut.
    pub fn adjudicate(
        &self,
        map: &GameMap,
        state: &MapState,
        orders: &Orders,
        this_prov: &str,
        order_status: &OrderStatus,
    ) -> (r: Option<bool>)
        requires
            map.wf(),
            state.wf(),
            orders.wf(),
            order_status.wf(),
            position(map, state, orders).valid(),
            state@.units.contains_key(this_prov@),
        ensures
            r == if position(map, state, orders).hold_supportable(this_prov@, self.target@) {
                position(map, state, orders).untapped(order_status@, this_prov@, None)
            } else {
                Some(false)
            },
    {
        if !self.can_be_given(map, state, orders, this_prov) {
            Some(false)
        } else {
            untapped_but(map, state, orders, order_status, this_prov, None)
        }
    }
}

impl SupportMove {
    /// Whether the support can be given at all: the supported unit moves to
    /// the destination named, which is another province than its own, and
    /// the unit in `this_prov` could enter that destination.
    fn can_be_given(&self, map: &GameMap, state: &MapState, orders: &Orders, this_prov: &str) -> (r: bool)
        requires
            state.wf(),
            orders.wf(),
            state@.units.contains_key(this_prov@),
        ensures
            r == position(map, state, orders).move_supportable(this_prov@, self.src@, self.dest@),
    {
        moves_to(orders, self.src.as_str(), self.dest.as_str()) && unit_can_reach(
            map,
            state,
            this_prov,
            self.dest.as_str(),
        ) && !same_text(self.src.as_str(), self.dest.as_str())
    }

    /// The orders that this support, ordered in `this_prov`, depends on.
    pub fn deps(&self, map: &GameMap, state: &MapState, orders: &Orders, this_prov: &str) -> (deps: KeySet<
        String,
    >)
        requires
            state.wf(),
            orders.wf(),
            position(map, state, orders).valid(),
            state@.units.contains_key(this_prov@),
        ensures
            deps.wf(),
            deps@ == if position(map, state, orders).move_supportable(this_prov@, self.src@, self.dest@) {
                orders@.dom().filter(position(map, state, orders).taps_on(this_prov@))
            } else {
                Set::<Name>::empty()
            },
    {
        if !self.can_be_given(map, state, orders, this_prov) {
            empty_set()
        } else {
            deps_for_tap(map, state, orders, this_prov)
        }
    }

    /// The verdict on this support, ordered in `this_prov`: it fails where it
    /// cannot be given, and else succeeds iff it is not cut. An attack out of
    /// the destination of the supported move never cuts it.
    pub fn adjudicate(
        &self,
        map: &GameMap,
        state: &MapState,
        orders: &Orders,
        this_prov: &str,
        order_status: &OrderStatus,
    ) -> (r: Option<bool>)
        requires
            map.wf(),
            state.wf(),
            orders.wf(),
            order_status.wf(),
            position(map, state, orders).valid(),
            state@.units.contains_key(this_prov@),
        ensures
            r == if position(map, state, orders).move_supportable(this_prov@, self.src@, self.dest@) {
                position(map, state, orders).untapped(order_status@, this_prov@, Some(self.dest@))
            } else {
                Some(false)
            },
    {
        if !self.can_be_given(map, state, orders, this_prov) {
            Some(false)
        } else {
            untapped_but(map, state, orders, order_status, this_prov, Some(self.dest.as_str()))
        }
    }
}

impl Move {
    /// The orders that this move, ordered in `this_prov`, depends on: the
    /// other moves to its destination with their supports and convoys, the
    /// supports for the destination to hold and, where the unit in the
    /// destination moves itself, that move with its convoys and, where it
    /// comes the other way, its supports. A move to its own province depends
    /// on nothing.
    pub fn deps(&self, map: &GameMap, state: &MapState, orders: &Orders, this_prov: &str) -> (deps: KeySet<
        String,
    >)
        requires
            orders.wf(),
        ensures
            deps.wf(),
            deps@ == if self.dest.0@ == this_prov@ {
                Set::<Name>::empty()
            } else {
                orders@.dom().filter(position(map, state, orders).move_rests_on(this_prov@, self.dest.0@))
            },
    {
        let dest = self.dest.0.as_str();
        if same_text(this_prov, dest) {
            return empty_set();
        }
        let ghost g = position(map, state, orders);
        let ghost p = g.move_rests_on(this_prov@, dest@);
        let dest_stays = match orders.get(dest) {
            Some(o) => !o.is_move(),
            None => true,
        };
        let dest_comes = moves_to(orders, dest, this_prov);
        let mut deps: KeySet<String> = KeySet::new();
        let mut i: usize = 0;
        proof {
            lemma_first_keys_none(orders.names(), p);
        }
        while i < orders.len()
            invariant
                orders.wf(),
                g == position(map, state, orders),
                p == g.move_rests_on(this_prov@, dest@),
                dest_stays == !g.is_mover(dest@),
                dest_comes == g.moves_to(dest@, this_prov@),
                i <= orders.names().len(),
                deps.wf(),
                deps@ == first_keys(orders.names(), i as int).filter(p),
            decreases orders.names().len() - i,
        {
            proof {
                lemma_first_keys_next(orders.names(), i as int, p);
            }
            let key = orders.key_at(i);
            let rests = match orders.value_at(i) {
                Order::Move(m) => (m.is_to(dest) && !same_text(key.as_str(), this_prov)) || same_text(
                    key.as_str(),
                    dest,
                ),
                Order::SupportMove(sup) => (same_text(sup.dest.as_str(), dest) && moves_to(
                    orders,
                    sup.src.as_str(),
                    sup.dest.as_str(),
                )) || (same_text(sup.src.as_str(), dest) && same_text(sup.dest.as_str(), this_prov)
                    && dest_comes),
                Order::Convoy(c) => (same_text(c.dest.as_str(), dest) || same_text(c.src.as_str(), dest))
                    && moves_to(orders, c.src.as_str(), c.dest.as_str()),
                Order::SupportHold(sup) => same_text(sup.target.as_str(), dest) && dest_stays,
                _ => false,
            };
            if rests {
                deps.insert(key.clone());
            }
            i += 1;
        }
        proof {
            orders.lemma_view();
            lemma_first_keys_all(orders.names(), orders@.dom(), p);
        }
        deps
    }

    /// The verdict on this move, ordered in `this_prov`. A move to its own
    /// province fails. Any other fails where its attack strength cannot
    /// exceed some opposing strength, succeeds where it must exceed all of
    /// them, and is open otherwise. The opposing strengths are the hold
    /// strength of the destination, the defend strength of a unit that comes
    /// the other way head to head, and the prevent strength of every other
    /// move to the destination.
    pub fn adjudicate(
        &self,
        map: &GameMap,
        state: &MapState,
        orders: &Orders,
        this_prov: &str,
        order_status: &OrderStatus,
    ) -> (r: Option<bool>)
        requires
            map.wf(),
            state.wf(),
            orders.wf(),
            order_status.wf(),
            position(map, state, orders).valid(),
            orders@.contains_key(this_prov@),
            orders@[this_prov@] == self.as_order(),
        ensures
            r == position(map, state, orders).move_verdict(order_status@, this_prov@),
    {
        let ghost g = position(map, state, orders);
        let ghost st = order_status@;
        let dest = self.dest.0.as_str();
        if same_text(this_prov, dest) {
            return Some(false);
        }
        let attack = compute_attack_strength(map, state, orders, order_status, this_prov);
        let mut beats_all_bounds = true;
        if moves_to(orders, dest, this_prov) {
            match is_head_to_head(map, state, orders, order_status, this_prov) {
                Some(false) => {},
                None => {
                    let mut def = compute_defend_strength(map, state, orders, order_status, dest);
                    def.min = 0;
                    if attack.min <= def.max {
                        beats_all_bounds = false;
                    }
                },
                Some(true) => {
                    let def = compute_defend_strength(map, state, orders, order_status, dest);
                    if attack.max <= def.min {
                        return Some(false);
                    }
                    if attack.min <= def.max {
                        beats_all_bounds = false;
                    }
                },
            }
        }
        proof {
            orders.lemma_view();
        }
        let hold = compute_hold_strength(map, state, orders, order_status, dest);
        if attack.max <= hold.min {
            return Some(false);
        }
        if attack.min <= hold.max {
            beats_all_bounds = false;
        }
        let ghost facing_ok = g.facing(st, this_prov@) is Some ==> attack@.min > g.facing(
            st,
            this_prov@,
        ).unwrap().max;
        assert(beats_all_bounds == (attack@.min > g.hold_strength(st, dest@).max && facing_ok));
        assert(!(g.facing(st, this_prov@) is Some && attack@.max <= g.facing(st, this_prov@).unwrap().min));
        let mut i: usize = 0;
        while i < orders.len()
            invariant
                map.wf(),
                state.wf(),
                orders.wf(),
                order_status.wf(),
                g == position(map, state, orders),
                g.valid(),
                st == order_status@,
                dest@ == g.dest_of(this_prov@),
                attack@ == g.attack_strength(st, this_prov@),
                i <= orders.names().len(),
                forall|j: int|
                    0 <= j < i && g.rival(#[trigger] orders.names()[j], this_prov@) ==> attack@.max
                        > g.prevent_strength(st, orders.names()[j]).min,
                beats_all_bounds == (attack@.min > g.hold_strength(st, dest@).max && facing_ok && forall|j: int|
                    0 <= j < i && g.rival(#[trigger] orders.names()[j], this_prov@) ==> attack@.min
                        > g.prevent_strength(st, orders.names()[j]).max),
            decreases orders.names().len() - i,
        {
            proof {
                orders.lemma_view();
            }
            let key = orders.key_at(i);
            if Move::is_move_to(orders.value_at(i), dest) && !same_text(key.as_str(), this_prov) {
                assert(g.rival(orders.names()[i as int], this_prov@));
                let prevent = compute_prevent_strength(map, state, orders, order_status, key.as_str());
                if attack.max <= prevent.min {
                    return Some(false);
                }
                if attack.min <= prevent.max {
                    beats_all_bounds = false;
                }
            }
            i += 1;
        }
        proof {
            assert forall|q: Name| #[trigger] g.rival(q, this_prov@) implies attack@.max > g.prevent_strength(
                st,
                q,
            ).min by {
                let j = choose|j: int| 0 <= j < orders.names().len() && orders.names()[j] == q;
                assert(g.rival(orders.names()[j], this_prov@));
            }
            if beats_all_bounds {
                assert forall|q: Name| #[trigger] g.rival(q, this_prov@) implies attack@.min
                    > g.prevent_strength(st, q).max by {
                    let j = choose|j: int| 0 <= j < orders.names().len() && orders.names()[j] == q;
                    assert(g.rival(orders.names()[j], this_prov@));
                }
            }
        }
        if beats_all_bounds {
            Some(true)
        } else {
            None
        }
    }
}

impl Order {
    /// The provinces whose orders this order, given in `this_prov`, depends
    /// on for its resolution.
    pub fn deps(&self, map: &GameMap, state: &MapState, orders: &Orders, this_prov: &str) -> (deps: KeySet<
        String,
    >)
        requires
            map.wf(),
            state.wf(),
            orders.wf(),
            position(map, state, orders).valid(),
            orders@.contains_key(this_prov@),
            orders@[this_prov@] == self@,
        ensures
            deps.wf(),
            deps@ == position(map, state, orders).deps(this_prov@),
    {
        proof {
            lemma_filter_nothing(orders@.dom());
        }
        match self {
            Order::Hold(o) => o.deps(map, state, orders, this_prov),
            Order::Move(o) => o.deps(map, state, orders, this_prov),
            Order::SupportHold(o) => o.deps(map, state, orders, this_prov),
            Order::SupportMove(o) => o.deps(map, state, orders, this_prov),
            Order::Convoy(o) => o.deps(map, state, orders, this_prov),
            Order::Core(o) => o.deps(map, state, orders, this_prov),
        }
    }

    /// Whether this order, given in `this_prov`, succeeds or fails, from what
    /// `order_status` knows of the other orders; `None` where that does not
    /// decide it.
    pub fn adjudicate(
        &self,
        map: &GameMap,
        state: &MapState,
        orders: &Orders,
        this_prov: &str,
        order_status: &OrderStatus,
    ) -> (r: Option<bool>)
        requires
            map.wf(),
            state.wf(),
            orders.wf(),
            order_status.wf(),
            position(map, state, orders).valid(),
            orders@.contains_key(this_prov@),
            orders@[this_prov@] == self@,
        ensures
            r == position(map, state, orders).verdict(order_status@, this_prov@),
    {
        match self {
            Order::Hold(o) => o.adjudicate(map, state, orders, this_prov, order_status),
            Order::Move(o) => o.adjudicate(map, state, orders, this_prov, order_status),
            Order::SupportHold(o) => o.adjudicate(map, state, orders, this_prov, order_status),
            Order::SupportMove(o) => o.adjudicate(map, state, orders, this_prov, order_status),
            Order::Convoy(o) => o.adjudicate(map, state, orders, this_prov, order_status),
            Order::Core(o) => o.adjudicate(map, state, orders, this_prov, order_status),
        }
    }
}

} // verus!
