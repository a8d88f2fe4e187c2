//! Movement-phase adjudication for a Diplomacy-style board game.
//!
//! Use [`adjudicate`] to adjudicate a movement phase, and
//! [`utils::apply_adjudication`] to update the board.

pub mod base;
pub mod board;
pub mod frozen;
pub mod graph;
pub mod independence;
pub mod keyset;
pub mod laws;
pub mod model;
pub mod order;
pub mod paradox;
pub mod phase;
pub mod prefix;
pub mod resolution;
pub mod table;
pub mod text;
pub mod utils;

use vstd::prelude::*;
use crate::base::OrderStatus;
use crate::board::{GameMap, MapState};
use crate::keyset::KeySet;
use crate::model::position;
use crate::paradox::{handle_convoy, handle_cycles};
use crate::laws::{at_rest, law_adjudication_is_at_rest, law_pass_is_sound};
use crate::independence::{
    is_sound_beyond, law_adjudication_does_not_depend_on_order, law_rest_leaves_open_verdicts, lists_orders,
};
use crate::order::{Hold, Order, OrderView, Orders};
use crate::prefix::{first_keys, lemma_first_keys_all};
use crate::table::Table;
use crate::text::Name;

verus! {

/// Whether the orders fit the board: every order is given to a unit, every
/// move goes to a province of the map, and the orders are few enough to be
/// counted in 32 bits.
pub fn check_position(map: &GameMap, state: &MapState, orders: &Orders) -> (r: bool)
    requires
        map.wf(),
        state.wf(),
        orders.wf(),
    ensures
        r == position(map, state, orders).valid(),
{
    let ghost g = position(map, state, orders);
    proof {
        orders.lemma_view();
    }
    if orders.len() >= 0xffff_ffff {
        return false;
    }
    let mut i: usize = 0;
    while i < orders.len()
        invariant
            map.wf(),
            state.wf(),
            orders.wf(),
            g == position(map, state, orders),
            i <= orders.names().len(),
            forall|j: int| 0 <= j < i ==> g.units.contains_key(#[trigger] orders.names()[j]),
            forall|j: int|
                0 <= j < i && g.orders[#[trigger] orders.names()[j]] is Move ==> g.map.provinces.contains_key(
                    g.orders[orders.names()[j]].move_dest(),
                ),
        decreases orders.names().len() - i,
    {
        proof {
            orders.lemma_view();
        }
        let key = orders.key_at(i);
        assert(g.orders.contains_key(key@));
        if !state.units.contains_key(key.as_str()) {
            return false;
        }
        match orders.value_at(i) {
            Order::Move(m) => {
                if !map.provinces.contains_key(m.dest.0.as_str()) {
                    return false;
                }
            },
            _ => {},
        }
        i += 1;
    }
    proof {
        assert forall|q: Name| #[trigger] g.orders.contains_key(q) implies g.units.contains_key(q) && (g.orders[q] is Move
            ==> g.map.provinces.contains_key(g.orders[q].move_dest())) by {
            let j = choose|j: int| 0 <= j < orders.names().len() && orders.names()[j] == q;
            assert(g.units.contains_key(orders.names()[j]));
        }
    }
    true
}

/// `orders` with a hold for each of `units` that has no order.
pub open spec fn with_holds(orders: Map<Name, OrderView>, units: Set<Name>) -> Map<Name, OrderView> {
    Map::new(
        |p: Name| orders.contains_key(p) || units.contains(p),
        |p: Name|
            if orders.contains_key(p) {
                orders[p]
            } else {
                OrderView::Hold
            },
    )
}

/// Gives every unit that has no order the order to hold. The orders that
/// were given stay as they are.
pub fn sanitize_orders(state: &MapState, orders: &mut Orders)
    requires
        state.wf(),
        old(orders).wf(),
    ensures
        final(orders).wf(),
        final(orders)@ == with_holds(old(orders)@, state@.units.dom()),
{
    let ghost given = orders@;
    let mut i: usize = 0;
    assert(orders@ =~= with_holds(given, first_keys(state.units.names(), 0)));
    while i < state.units.len()
        invariant
            state.wf(),
            orders.wf(),
            i <= state.units.names().len(),
            orders@ == with_holds(given, first_keys(state.units.names(), i as int)),
        decreases state.units.names().len() - i,
    {
        let prov = state.units.key_at(i);
        if !orders.contains_key(prov.as_str()) {
            orders.insert(prov.clone(), Order::Hold(Hold));
        }
        assert(orders@ =~= with_holds(given, first_keys(state.units.names(), i + 1))) by {
            assert(first_keys(state.units.names(), i + 1) =~= first_keys(state.units.names(), i as int).insert(
                prov@,
            ));
        }
        i += 1;
    }
    proof {
        state.units.lemma_view();
        lemma_first_keys_all(state.units.names(), state@.units.dom(), |q: Name| true);
    }
}

/// What `order_status` knows of the orders in `deps`.
pub fn restricted_status(order_status: &OrderStatus, deps: &KeySet<String>) -> (r: OrderStatus)
    requires
        order_status.wf(),
    ensures
        r.wf(),
        r@ == order_status@.restrict(deps@),
{
    let mut r: OrderStatus = Table::new();
    let mut j: usize = 0;
    assert(r@ =~= order_status@.restrict(first_keys(deps.seq(), 0)));
    while j < deps.len()
        invariant
            order_status.wf(),
            r.wf(),
            j <= deps.seq().len(),
            r@ == order_status@.restrict(first_keys(deps.seq(), j as int)),
        decreases deps.seq().len() - j,
    {
        let dep_prov = deps.at(j);
        match order_status.get(dep_prov.as_str()) {
            Some(status) => {
                r.insert(dep_prov.clone(), *status);
            },
            None => {},
        }
        assert(r@ =~= order_status@.restrict(first_keys(deps.seq(), j + 1))) by {
            assert(first_keys(deps.seq(), j + 1) =~= first_keys(deps.seq(), j as int).insert(dep_prov@));
        }
        j += 1;
    }
    proof {
        lemma_first_keys_all(deps.seq(), deps@, |q: Name| true);
    }
    r
}

/// One pass over the orders: each unresolved order is adjudicated from the
/// outcomes of the orders it depends on, as far as they are resolved, and
/// is resolved where that decides it.
pub fn resolve_pass(map: &GameMap, state: &MapState, orders: &Orders, order_status: &mut OrderStatus)
    requires
        map.wf(),
        state.wf(),
        orders.wf(),
        old(order_status).wf(),
        position(map, state, orders).valid(),
    ensures
        final(order_status).wf(),
        final(order_status)@ == position(map, state, orders).pass(
            orders.names(),
            old(order_status)@,
            orders.names().len(),
        ),
        old(order_status)@.submap_of(final(order_status)@),
        final(order_status)@.dom().subset_of(old(order_status)@.dom().union(orders@.dom())),
        is_sound_beyond(position(map, state, orders), old(order_status)@, final(order_status)@),
{
    let ghost g = position(map, state, orders);
    let ghost st0 = order_status@;
    proof {
        orders.lemma_view();
        assert forall|p: Name|
            #[trigger] g.pass(orders.names(), st0, orders.names().len()).contains_key(p) && !st0.contains_key(p)
                implies g.verdict(g.pass(orders.names(), st0, orders.names().len()), p) == Some(
            g.pass(orders.names(), st0, orders.names().len())[p],
        ) by {
            law_pass_is_sound(g, orders.names(), st0, orders.names().len(), p);
        }
    }
    let mut i: usize = 0;
    while i < orders.len()
        invariant
            map.wf(),
            state.wf(),
            orders.wf(),
            order_status.wf(),
            g == position(map, state, orders),
            g.valid(),
            st0 == old(order_status)@,
            i <= orders.names().len(),
            order_status@ == g.pass(orders.names(), st0, i as nat),
            st0.submap_of(order_status@),
            order_status@.dom().subset_of(st0.dom().union(orders@.dom())),
        decreases orders.names().len() - i,
    {
        proof {
            orders.lemma_view();
        }
        let prov = orders.key_at(i);
        if !order_status.contains_key(prov.as_str()) {
            let order = orders.value_at(i);
            let deps = order.deps(map, state, orders, prov.as_str());
            let restricted_order_status = restricted_status(order_status, &deps);
            match order.adjudicate(map, state, orders, prov.as_str(), &restricted_order_status) {
                Some(status) => {
                    order_status.insert(prov.clone(), status);
                },
                None => {},
            }
        }
        i += 1;
    }
}

/// One round of resolution: a pass over the orders and, where the pass
/// resolves nothing, the paradox breakers, cycles first. Returns whether an
/// order was resolved.
pub fn resolve_round(map: &GameMap, state: &MapState, orders: &Orders, order_status: &mut OrderStatus) -> (progress:
    bool)
    requires
        map.wf(),
        state.wf(),
        orders.wf(),
        old(order_status).wf(),
        position(map, state, orders).valid(),
    ensures
        final(order_status).wf(),
        final(order_status)@ == position(map, state, orders).round(orders.names(), old(order_status)@),
        progress == (final(order_status)@.dom().len() != old(order_status)@.dom().len()),
        old(order_status)@.submap_of(final(order_status)@),
        final(order_status)@.dom().subset_of(old(order_status)@.dom().union(orders@.dom())),
{
    let ghost st0 = order_status@;
    let num_resolved = order_status.len();
    resolve_pass(map, state, orders, order_status);
    if order_status.len() != num_resolved {
        // skip the paradox step if an order was resolved
        return true;
    }
    let ghost st1 = order_status@;
    handle_cycles(map, state, orders, order_status);
    proof {
        vstd::map_lib::lemma_submap_of_trans(st0, st1, order_status@);
    }
    if order_status.len() != num_resolved {
        return true;
    }
    let ghost st2 = order_status@;
    handle_convoy(map, state, orders, order_status);
    proof {
        vstd::map_lib::lemma_submap_of_trans(st0, st2, order_status@);
    }
    order_status.len() != num_resolved
}

/// Adjudicate a movement phase.
///
/// The result binds every order that could be resolved to its outcome. An
/// order that is absent from it could not be decided. The result is the
/// same in whatever order the orders are listed.
pub fn adjudicate(map: &GameMap, state: &MapState, orders: &Orders) -> (order_status: OrderStatus)
    requires
        map.wf(),
        state.wf(),
        orders.wf(),
        position(map, state, orders).valid(),
    ensures
        order_status.wf(),
        order_status@ == position(map, state, orders).adjudication(orders.names()),
        order_status@.dom().subset_of(orders@.dom()),
        at_rest(position(map, state, orders), orders.names(), order_status@),
        forall|order: Seq<Name>|
            lists_orders(position(map, state, orders), order) ==> order_status@ == #[trigger] position(
                map,
                state,
                orders,
            ).adjudication(order),
        forall|p: Name|
            #[trigger] orders@.contains_key(p) && !order_status@.contains_key(p) ==> position(
                map,
                state,
                orders,
            ).verdict(order_status@, p) is None,
{
    let ghost g = position(map, state, orders);
    let ghost names = orders.names();
    let mut order_status: OrderStatus = Table::new();
    let ghost mut fuel: nat = g.orders.dom().len() + 1;
    proof {
        orders.lemma_view();
    }
    loop
        invariant_except_break
            g.adjudication(names) == g.resolve(names, order_status@, fuel),
            fuel + order_status@.dom().len() >= g.orders.dom().len() + 1,
        invariant
            map.wf(),
            state.wf(),
            orders.wf(),
            order_status.wf(),
            g == position(map, state, orders),
            g.valid(),
            names == orders.names(),
            order_status@.dom().subset_of(g.orders.dom()),
        ensures
            order_status.wf(),
            order_status@ == g.adjudication(names),
            order_status@.dom().subset_of(g.orders.dom()),
        decreases fuel,
    {
        let ghost before = order_status@;
        proof {
            orders.lemma_view();
            order_status.lemma_view();
            vstd::set_lib::lemma_len_subset(before.dom(), g.orders.dom());
        }
        if order_status.len() == orders.len() {
            break ;
        }
        let progress = resolve_round(map, state, orders, &mut order_status);
        proof {
            order_status.lemma_view();
            assert(before.dom().subset_of(order_status@.dom()));
            vstd::set_lib::lemma_len_subset(before.dom(), order_status@.dom());
            fuel = (fuel - 1) as nat;
        }
        if !progress {
            break ;
        }
    }
    proof {
        orders.lemma_view();
        law_adjudication_is_at_rest(g, names);
        law_rest_leaves_open_verdicts(g, names, order_status@);
        assert forall|order: Seq<Name>| lists_orders(g, order) implies order_status@ == #[trigger] g.adjudication(
            order,
        ) by {
            law_adjudication_does_not_depend_on_order(g, names, order);
        }
    }
    order_status
}

} // verus!
