//! Order-independence: what a movement phase comes to does not depend on the
//! order in which the orders are listed.

use vstd::prelude::*;
use crate::board::UnitView;
use crate::laws::{
    lemma_fewer,
    law_attack_strength_narrows, law_break_cycles_only_adds, law_deps_suffice, law_pass_is_sound,
    law_pass_only_adds, law_path_settles, law_prevent_strength_narrows, law_step_only_adds, law_verdict_settles,
    lemma_break_cycles_stays_with_orders, lemma_pass_stays_with_orders,
};
use crate::model::{known, Position, Status};
use crate::paradox::lemma_first_cycle;
use crate::resolution::settle;
use crate::text::Name;
use crate::order::OrderView;
use crate::utils::{moved, RetreatView};

verus! {

// -------------------------------------------------------------------
// What the passes resolve does not depend on the order of the orders

/// Within a pass, too, nothing that was known changes.
pub proof fn lemma_pass_grows(g: Position, order: Seq<Name>, status: Status, i: nat, n: nat)
    requires
        i <= n,
    ensures
        g.pass(order, status, i).submap_of(g.pass(order, status, n)),
    decreases n - i,
{
    if i < n {
        lemma_pass_grows(g, order, status, i, (n - 1) as nat);
        let before = g.pass(order, status, (n - 1) as nat);
        law_step_only_adds(g, before, order[n - 1]);
        vstd::map_lib::lemma_submap_of_trans(g.pass(order, status, i), before, g.pass(order, status, n));
    }
}

/// Whether every outcome in `status` that `base` does not have is the
/// verdict that all of `status` gives.
pub open spec fn is_sound_beyond(g: Position, base: Status, status: Status) -> bool {
    forall|p: Name|
        #[trigger] status.contains_key(p) && !base.contains_key(p) ==> g.verdict(status, p) == Some(status[p])
}

/// Passes change no outcome that was known.
pub proof fn law_passes_only_add(g: Position, order: Seq<Name>, base: Status, k: nat)
    ensures
        base.submap_of(g.passes(order, base, k)),
    decreases k,
{
    if k > 0 {
        let before = g.passes(order, base, (k - 1) as nat);
        law_passes_only_add(g, order, base, (k - 1) as nat);
        law_pass_only_adds(g, order, before, order.len());
        vstd::map_lib::lemma_submap_of_trans(base, before, g.passes(order, base, k));
    }
}

/// What passes resolve is sound: each outcome that they add is the verdict
/// that all the outcomes together give.
pub proof fn law_passes_are_sound(g: Position, order: Seq<Name>, base: Status, k: nat)
    requires
        g.orders.dom().finite(),
    ensures
        is_sound_beyond(g, base, g.passes(order, base, k)),
    decreases k,
{
    if k > 0 {
        let before = g.passes(order, base, (k - 1) as nat);
        let after = g.passes(order, base, k);
        law_passes_are_sound(g, order, base, (k - 1) as nat);
        law_pass_only_adds(g, order, before, order.len());
        assert forall|p: Name| #[trigger] after.contains_key(p) && !base.contains_key(p) implies g.verdict(after, p)
            == Some(after[p]) by {
            if before.contains_key(p) {
                law_verdict_settles(g, before, after, p);
            } else {
                law_pass_is_sound(g, order, before, order.len(), p);
            }
        }
    }
}

/// Looking at an order from part of a status that is sound and learns
/// nothing from that order stays within that status.
proof fn lemma_step_within(g: Position, base: Status, part: Status, whole: Status, p: Name)
    requires
        g.orders.dom().finite(),
        base.submap_of(part),
        part.submap_of(whole),
        whole.contains_key(p) && !base.contains_key(p) ==> g.verdict(whole, p) == Some(whole[p]),
        g.step(whole, p) == whole,
    ensures
        g.step(part, p).submap_of(whole),
{
    if !part.contains_key(p) {
        let seen = g.restricted(part, p);
        let all = g.restricted(whole, p);
        if g.verdict(seen, p) is Some {
            let outcome = g.verdict(seen, p).unwrap();
            assert(seen.submap_of(all));
            law_verdict_settles(g, seen, all, p);
            assert(g.verdict(all, p) == Some(outcome));
            assert(whole.contains_key(p)) by {
                if !whole.contains_key(p) {
                    assert(g.step(whole, p) == whole.insert(p, outcome));
                    assert(whole.insert(p, outcome).contains_key(p));
                }
            }
            assert(seen.submap_of(part));
            vstd::map_lib::lemma_submap_of_trans(seen, part, whole);
            law_verdict_settles(g, seen, whole, p);
            assert(g.verdict(whole, p) == Some(outcome));
            assert(!base.contains_key(p));
            assert(whole[p] == outcome);
            assert(g.step(part, p) == part.insert(p, outcome));
            lemma_insert_within(part, whole, p, outcome);
        }
    }
}

/// A map within another stays within it when it takes over a binding.
proof fn lemma_insert_within(part: Status, whole: Status, p: Name, outcome: bool)
    requires
        part.submap_of(whole),
        whole.contains_key(p),
        whole[p] == outcome,
    ensures
        part.insert(p, outcome).submap_of(whole),
{
    let more = part.insert(p, outcome);
    assert forall|k: Name| more.dom().contains(k) implies whole.dom().contains(k) && more[k] == whole[k] by {
        if k == p {
            assert(more[k] == outcome);
        } else {
            assert(part.dom().contains(k));
            assert(more[k] == part[k]);
            assert(whole.dom().contains(k) ==> part[k] == whole[k]);
            assert(whole.dom().contains(k));
        }
    }
}

/// A pass from part of a status that is sound and has nothing left to
/// learn stays within that status.
proof fn lemma_pass_within(g: Position, order: Seq<Name>, n: nat, base: Status, part: Status, whole: Status)
    requires
        g.orders.dom().finite(),
        base.submap_of(part),
        part.submap_of(whole),
        is_sound_beyond(g, base, whole),
        forall|j: int| 0 <= j < order.len() ==> g.step(whole, #[trigger] order[j]) == whole,
        n <= order.len(),
    ensures
        g.pass(order, part, n).submap_of(whole),
    decreases n,
{
    if n > 0 {
        lemma_pass_within(g, order, (n - 1) as nat, base, part, whole);
        let before = g.pass(order, part, (n - 1) as nat);
        law_pass_only_adds(g, order, part, (n - 1) as nat);
        vstd::map_lib::lemma_submap_of_trans(base, part, before);
        let p = order[n - 1];
        assert(g.step(whole, p) == whole);
        lemma_step_within(g, base, before, whole, p);
    }
}

/// Where a pass learns nothing, looking at any one of its orders learns
/// nothing.
proof fn lemma_nothing_left(g: Position, order: Seq<Name>, whole: Status, j: int)
    requires
        g.pass(order, whole, order.len()) == whole,
        0 <= j < order.len(),
    ensures
        g.step(whole, order[j]) == whole,
{
    let here = g.pass(order, whole, j as nat);
    let next = g.pass(order, whole, (j + 1) as nat);
    law_pass_only_adds(g, order, whole, j as nat);
    law_pass_only_adds(g, order, whole, (j + 1) as nat);
    lemma_pass_grows(g, order, whole, j as nat, order.len());
    lemma_pass_grows(g, order, whole, (j + 1) as nat, order.len());
    assert(here =~= whole);
    assert(next =~= whole);
    assert(next == g.step(here, order[j]));
}

/// Order-independence of the passes: whatever passes resolve, in any order
/// of the orders, is resolved in the same way by passes in another order
/// from the same outcomes that have nothing left to learn.
pub proof fn law_passes_do_not_depend_on_order(
    g: Position,
    first: Seq<Name>,
    second: Seq<Name>,
    base: Status,
    k1: nat,
    k2: nat,
)
    requires
        g.orders.dom().finite(),
        forall|j: int| 0 <= j < first.len() ==> second.contains(#[trigger] first[j]),
        g.pass(second, g.passes(second, base, k2), second.len()) == g.passes(second, base, k2),
    ensures
        g.passes(first, base, k1).submap_of(g.passes(second, base, k2)),
    decreases k1,
{
    let whole = g.passes(second, base, k2);
    law_passes_only_add(g, second, base, k2);
    if k1 > 0 {
        law_passes_do_not_depend_on_order(g, first, second, base, (k1 - 1) as nat, k2);
        law_passes_are_sound(g, second, base, k2);
        law_passes_only_add(g, first, base, (k1 - 1) as nat);
        assert forall|j: int| 0 <= j < first.len() implies g.step(whole, #[trigger] first[j]) == whole by {
            let i = choose|i: int| 0 <= i < second.len() && second[i] == first[j];
            lemma_nothing_left(g, second, whole, i);
        }
        lemma_pass_within(g, first, first.len(), base, g.passes(first, base, (k1 - 1) as nat), whole);
    }
}

/// Passes over the same orders, from the same outcomes, that have nothing
/// left to learn have resolved the same orders in the same way, whatever
/// the order of the orders.
pub proof fn law_finished_passes_agree(
    g: Position,
    first: Seq<Name>,
    second: Seq<Name>,
    base: Status,
    k1: nat,
    k2: nat,
)
    requires
        g.orders.dom().finite(),
        first.to_set() == second.to_set(),
        g.pass(first, g.passes(first, base, k1), first.len()) == g.passes(first, base, k1),
        g.pass(second, g.passes(second, base, k2), second.len()) == g.passes(second, base, k2),
    ensures
        g.passes(first, base, k1) == g.passes(second, base, k2),
{
    lemma_same_members(first, second);
    law_passes_do_not_depend_on_order(g, first, second, base, k1, k2);
    law_passes_do_not_depend_on_order(g, second, first, base, k2, k1);
    g.passes(first, base, k1).lemma_submap_eq_iff(g.passes(second, base, k2));
}

/// Sequences with the same members hold each other's elements.
pub proof fn lemma_same_members(first: Seq<Name>, second: Seq<Name>)
    requires
        first.to_set() == second.to_set(),
    ensures
        forall|j: int| 0 <= j < first.len() ==> second.contains(#[trigger] first[j]),
        forall|j: int| 0 <= j < second.len() ==> first.contains(#[trigger] second[j]),
{
    assert forall|j: int| 0 <= j < first.len() implies second.contains(#[trigger] first[j]) by {
        assert(first.contains(first[j]));
        assert(first.to_set().contains(first[j]));
    }
    assert forall|j: int| 0 <= j < second.len() implies first.contains(#[trigger] second[j]) by {
        assert(second.contains(second[j]));
        assert(second.to_set().contains(second[j]));
    }
}

// -------------------------------------------------------------------
// Cycles

/// The walk that finds a cycle passes along a ring.
proof fn lemma_walk_is_ring(g: Position, status: Status, start: Name, cur: Name, path: Seq<Name>, fuel: nat) -> (ring:
    Seq<Name>)
    requires
        g.cycle_from(status, start, cur, path.to_set(), fuel) is Some,
        path.no_duplicates(),
        !path.contains(cur),
        if path.len() == 0 {
            cur == start
        } else {
            path[0] == start && g.dest_of(path.last()) == cur
        },
        forall|i: int| 0 <= i < path.len() ==> g.wins_place(status, #[trigger] path[i]),
        forall|i: int| 0 <= i < path.len() - 1 ==> g.dest_of(#[trigger] path[i]) == path[i + 1],
    ensures
        g.is_ring(status, ring),
        ring[0] == start,
        ring.to_set() == g.cycle_from(status, start, cur, path.to_set(), fuel).unwrap(),
    decreases fuel,
{
    let next = g.dest_of(cur);
    let longer = path.push(cur);
    let passed = path.to_set().insert(cur);
    assert(longer.to_set() =~= passed) by {
        assert forall|x: Name| longer.to_set().contains(x) <==> passed.contains(x) by {
            if longer.contains(x) {
                let j = choose|j: int| 0 <= j < longer.len() && longer[j] == x;
                if j < path.len() {
                    assert(path[j] == x);
                    assert(path.contains(x));
                }
            }
            if path.contains(x) {
                let j = choose|j: int| 0 <= j < path.len() && path[j] == x;
                assert(longer[j] == x);
            }
            if x == cur {
                assert(longer[path.len() as int] == x);
            }
        }
    }
    assert(longer.no_duplicates()) by {
        assert forall|a: int, b: int| 0 <= a < longer.len() && 0 <= b < longer.len() && a != b implies longer[a]
            != longer[b] by {
            if a < path.len() {
                assert(path.contains(path[a]));
            }
            if b < path.len() {
                assert(path.contains(path[b]));
            }
        }
    }
    assert forall|i: int| 0 <= i < longer.len() implies g.wins_place(status, #[trigger] longer[i]) by {
        if i < path.len() {
            assert(longer[i] == path[i]);
        }
    }
    assert forall|i: int| 0 <= i < longer.len() - 1 implies g.dest_of(#[trigger] longer[i]) == longer[i + 1] by {
        assert(longer[i] == path[i]);
        if i < path.len() - 1 {
            assert(longer[i + 1] == path[i + 1]);
        }
    }
    if next == start {
        longer
    } else {
        assert(!longer.contains(next)) by {
            if longer.contains(next) {
                assert(longer.to_set().contains(next));
            }
        }
        lemma_walk_is_ring(g, status, start, next, longer, (fuel - 1) as nat)
    }
}

/// Along a ring the walk finds the cycle.
proof fn lemma_ring_is_walked(g: Position, status: Status, ring: Seq<Name>, i: int, fuel: nat)
    requires
        g.is_ring(status, ring),
        0 <= i < ring.len(),
        fuel >= ring.len() - i,
    ensures
        g.cycle_from(status, ring[0], ring[i], ring.take(i).to_set(), fuel) == Some(ring.to_set()),
    decreases ring.len() - i,
{
    let head = ring.take(i);
    let more = ring.take(i + 1);
    let passed = head.to_set().insert(ring[i]);
    assert(passed =~= more.to_set()) by {
        assert forall|x: Name| passed.contains(x) <==> more.to_set().contains(x) by {
            if head.contains(x) {
                let j = choose|j: int| 0 <= j < head.len() && head[j] == x;
                assert(more[j] == x);
            }
            if x == ring[i] {
                assert(more[i] == x);
            }
            if more.contains(x) {
                let j = choose|j: int| 0 <= j < more.len() && more[j] == x;
                if j < i {
                    assert(head[j] == x);
                    assert(head.contains(x));
                }
            }
        }
    }
    assert(g.wins_place(status, ring[i]));
    if i == ring.len() - 1 {
        assert(ring.take(i + 1) =~= ring);
    } else {
        assert(g.dest_of(ring[i]) == ring[i + 1]);
        assert(!passed.contains(ring[i + 1])) by {
            if more.contains(ring[i + 1]) {
                let j = choose|j: int| 0 <= j < more.len() && more[j] == ring[i + 1];
                assert(ring[j] == ring[i + 1]);
            }
        }
        lemma_ring_is_walked(g, status, ring, i + 1, (fuel - 1) as nat);
    }
}

/// A ring has no more provinces than there are orders.
proof fn lemma_ring_is_short(g: Position, status: Status, ring: Seq<Name>)
    requires
        g.orders.dom().finite(),
        g.is_ring(status, ring),
    ensures
        ring.len() <= g.orders.dom().len(),
        ring.to_set().subset_of(g.orders.dom()),
{
    ring.unique_seq_to_set();
    assert forall|x: Name| ring.to_set().contains(x) implies g.orders.dom().contains(x) by {
        let j = choose|j: int| 0 <= j < ring.len() && ring[j] == x;
        assert(g.wins_place(status, ring[j]));
    }
    vstd::set_lib::lemma_len_subset(ring.to_set(), g.orders.dom());
}

/// What a cycle is: the search that starts in `start` finds the provinces
/// of the ring that begins there.
pub proof fn law_cycle_is_a_ring(g: Position, status: Status, start: Name) -> (ring: Seq<Name>)
    requires
        g.cycle_at(status, start) is Some,
    ensures
        g.is_ring(status, ring),
        ring[0] == start,
        ring.to_set() == g.cycle_at(status, start).unwrap(),
{
    assert(Seq::<Name>::empty().to_set() =~= Set::<Name>::empty());
    lemma_walk_is_ring(g, status, start, start, Seq::empty(), g.orders.dom().len() + 1)
}

/// Every ring is found: the search that starts in its first province
/// yields its provinces.
pub proof fn law_ring_is_a_cycle(g: Position, status: Status, ring: Seq<Name>)
    requires
        g.orders.dom().finite(),
        g.is_ring(status, ring),
    ensures
        g.cycle_at(status, ring[0]) == Some(ring.to_set()),
{
    lemma_ring_is_short(g, status, ring);
    assert(ring.take(0).to_set() =~= Set::<Name>::empty());
    lemma_ring_is_walked(g, status, ring, 0, g.orders.dom().len() + 1);
}

/// A ring turned so that it begins with its province at position `i`.
pub open spec fn turned(ring: Seq<Name>, i: int) -> Seq<Name> {
    ring.skip(i) + ring.take(i)
}

/// A ring that is turned is a ring of the same provinces.
pub proof fn lemma_turned_ring(g: Position, status: Status, ring: Seq<Name>, i: int)
    requires
        g.is_ring(status, ring),
        0 <= i < ring.len(),
    ensures
        g.is_ring(status, turned(ring, i)),
        turned(ring, i)[0] == ring[i],
        turned(ring, i).to_set() == ring.to_set(),
{
    let t = turned(ring, i);
    let n = ring.len() as int;
    assert(t.len() == n);
    assert forall|j: int| 0 <= j < n implies #[trigger] t[j] == ring[if j < n - i { j + i } else { j + i - n }] by {}
    assert(t.no_duplicates()) by {
        assert forall|a: int, b: int| 0 <= a < n && 0 <= b < n && a != b implies t[a] != t[b] by {
            let ra = if a < n - i { a + i } else { a + i - n };
            let rb = if b < n - i { b + i } else { b + i - n };
            assert(t[a] == ring[ra] && t[b] == ring[rb]);
            assert(ra != rb);
        }
    }
    assert forall|j: int| 0 <= j < n implies g.wins_place(status, #[trigger] t[j]) by {
        let r = if j < n - i { j + i } else { j + i - n };
        assert(t[j] == ring[r]);
    }
    assert forall|j: int| 0 <= j < n - 1 implies g.dest_of(#[trigger] t[j]) == t[j + 1] by {
        let r = if j < n - i { j + i } else { j + i - n };
        assert(t[j] == ring[r]);
        if r == n - 1 {
            assert(t[j + 1] == ring[0]);
        } else {
            assert(t[j + 1] == ring[r + 1]);
            assert(g.dest_of(ring[r]) == ring[r + 1]);
        }
    }
    assert(g.dest_of(t.last()) == t[0]) by {
        if i == 0 {
            assert(t =~= ring);
        } else {
            assert(t.last() == ring[i - 1]);
            assert(g.dest_of(ring[i - 1]) == ring[i - 1 + 1]);
        }
    }
    assert(t.to_set() =~= ring.to_set()) by {
        assert forall|x: Name| t.to_set().contains(x) <==> ring.to_set().contains(x) by {
            if t.contains(x) {
                let j = choose|j: int| 0 <= j < t.len() && t[j] == x;
                let r = if j < n - i { j + i } else { j + i - n };
                assert(t[j] == ring[r]);
                assert(ring.contains(x));
            }
            if ring.contains(x) {
                let r = choose|r: int| 0 <= r < ring.len() && ring[r] == x;
                let j = if r >= i { r - i } else { r - i + n };
                assert(t[j] == ring[if j < n - i { j + i } else { j + i - n }]);
                assert(t[j] == x);
            }
        }
    }
}

/// A cycle is found from each of its provinces.
pub proof fn law_cycle_is_found_from_any_member(g: Position, status: Status, start: Name, member: Name)
    requires
        g.orders.dom().finite(),
        g.cycle_at(status, start) is Some,
        g.cycle_at(status, start).unwrap().contains(member),
    ensures
        g.cycle_at(status, member) == g.cycle_at(status, start),
{
    let ring = law_cycle_is_a_ring(g, status, start);
    assert(ring.contains(member));
    let i = choose|i: int| 0 <= i < ring.len() && ring[i] == member;
    lemma_turned_ring(g, status, ring, i);
    law_ring_is_a_cycle(g, status, turned(ring, i));
}

/// As orders are resolved, a move that was sure of its destination stays
/// so, unless it is known to fail.
pub proof fn law_wins_place_stands(g: Position, status: Status, later: Status, p: Name)
    requires
        g.orders.dom().finite(),
        status.submap_of(later),
        g.wins_place(status, p),
        known(later, p) != Some(false),
    ensures
        g.wins_place(later, p),
{
    law_path_settles(g, status, later, p);
    law_attack_strength_narrows(g, status, later, p);
    assert forall|q: Name| #[trigger] g.rival(q, p) implies g.attack_strength(later, p).min > g.prevent_strength(
        later,
        q,
    ).max by {
        law_prevent_strength_narrows(g, status, later, q);
    }
}

// -------------------------------------------------------------------
// What the cycle breaker resolves does not depend on the order of the orders

/// Where a search for a cycle succeeds from some order, a first cycle is
/// found.
proof fn lemma_first_cycle_found(g: Position, order: Seq<Name>, status: Status, i: nat, j: int)
    requires
        i <= j < order.len(),
        g.starts_cycle(status, order[j]),
        g.cycle_at(status, order[j]) is Some,
    ensures
        g.first_cycle(order, status, i) is Some,
    decreases order.len() - i,
{
    if !(g.starts_cycle(status, order[i as int]) && g.cycle_at(status, order[i as int]) is Some) {
        lemma_first_cycle_found(g, order, status, i + 1, j);
    }
}

/// The orders that are unresolved are finitely many.
proof fn lemma_unresolved_finite(g: Position, status: Status)
    requires
        g.orders.dom().finite(),
    ensures
        g.unresolved(status).finite(),
        g.unresolved(status).len() <= g.orders.dom().len(),
{
    g.orders.dom().lemma_len_filter(|q: Name| !status.contains_key(q));
}

/// Confirming a first cycle leaves fewer orders unresolved.
proof fn lemma_cycle_resolves(g: Position, order: Seq<Name>, status: Status)
    requires
        g.orders.dom().finite(),
        forall|j: int| 0 <= j < order.len() ==> g.orders.contains_key(#[trigger] order[j]),
        g.first_cycle(order, status, 0) is Some,
    ensures
        g.unresolved(settle(status, g.first_cycle(order, status, 0).unwrap(), true)).len() < g.unresolved(
            status,
        ).len(),
{
    let cycle = g.first_cycle(order, status, 0).unwrap();
    let start = lemma_first_cycle(g, order, status, 0);
    let before = g.unresolved(status);
    let after = g.unresolved(settle(status, cycle, true));
    lemma_unresolved_finite(g, status);
    assert(after.subset_of(before));
    assert(before.contains(start) && !after.contains(start));
    after.lemma_subset_not_in_lt(before, start);
}

/// What the cycle breaker adds are successes.
proof fn lemma_break_cycles_adds_successes(g: Position, order: Seq<Name>, status: Status, fuel: nat)
    ensures
        forall|q: Name|
            #[trigger] g.break_cycles_within(order, status, fuel).contains_key(q) && !status.contains_key(q)
                ==> g.break_cycles_within(order, status, fuel)[q],
    decreases fuel,
{
    if fuel > 0 {
        match g.first_cycle(order, status, 0) {
            None => {},
            Some(cycle) => {
                let next = settle(status, cycle, true);
                let last = g.break_cycles_within(order, next, (fuel - 1) as nat);
                lemma_break_cycles_adds_successes(g, order, next, (fuel - 1) as nat);
                law_break_cycles_only_adds(g, order, next, (fuel - 1) as nat);
                assert forall|q: Name| #[trigger] last.contains_key(q) && !status.contains_key(q) implies last[q] by {
                    if next.contains_key(q) {
                        assert(next.dom().contains(q));
                        assert(last.dom().contains(q) ==> next[q] == last[q]);
                    }
                }
            },
        }
    }
}

/// With as many rounds as there are unresolved orders, the cycle breaker
/// ends where no cycle is left to find.
proof fn lemma_break_cycles_ends(g: Position, order: Seq<Name>, status: Status, fuel: nat)
    requires
        g.orders.dom().finite(),
        forall|j: int| 0 <= j < order.len() ==> g.orders.contains_key(#[trigger] order[j]),
        fuel >= g.unresolved(status).len(),
    ensures
        g.first_cycle(order, g.break_cycles_within(order, status, fuel), 0) is None,
    decreases fuel,
{
    if g.first_cycle(order, status, 0) is Some {
        lemma_cycle_resolves(g, order, status);
        let cycle = g.first_cycle(order, status, 0).unwrap();
        lemma_break_cycles_ends(g, order, settle(status, cycle, true), (fuel - 1) as nat);
    }
}

/// A status within which cycles are broken: it holds `base`, what it adds
/// are successes, and no cycle is left to find in it.
spec fn is_uncycled(g: Position, order: Seq<Name>, base: Status, whole: Status) -> bool {
    &&& base.submap_of(whole)
    &&& forall|q: Name| #[trigger] whole.contains_key(q) && !base.contains_key(q) ==> whole[q]
    &&& g.first_cycle(order, whole, 0) is None
    &&& forall|q: Name| #[trigger] g.orders.contains_key(q) ==> order.contains(q)
}

/// A cycle found from part of a status in which no cycle is left to find
/// is resolved in that status.
proof fn lemma_cycle_within(
    g: Position,
    order: Seq<Name>,
    base: Status,
    part: Status,
    whole: Status,
    start: Name,
)
    requires
        g.orders.dom().finite(),
        is_uncycled(g, order, base, whole),
        base.submap_of(part),
        part.submap_of(whole),
        g.cycle_at(part, start) is Some,
    ensures
        settle(part, g.cycle_at(part, start).unwrap(), true).submap_of(whole),
{
    let cycle = g.cycle_at(part, start).unwrap();
    let ring = law_cycle_is_a_ring(g, part, start);
    assert forall|i: int| 0 <= i < ring.len() implies g.wins_place(whole, #[trigger] ring[i]) by {
        let m = ring[i];
        assert(g.wins_place(part, m));
        if whole.contains_key(m) {
            if base.contains_key(m) {
                assert(base.dom().contains(m));
                assert(part.dom().contains(m) ==> base[m] == part[m]);
                assert(whole.dom().contains(m) ==> base[m] == whole[m]);
            }
        }
        law_wins_place_stands(g, part, whole, m);
    }
    assert(g.is_ring(whole, ring));
    let next = settle(part, cycle, true);
    assert forall|q: Name| #[trigger] next.dom().contains(q) implies whole.dom().contains(q) && next[q] == whole[q] by {
        if part.dom().contains(q) {
            assert(whole.dom().contains(q) ==> part[q] == whole[q]);
            assert(whole.dom().contains(q));
        } else {
            assert(cycle.contains(q));
            assert(ring.contains(q));
            let i = choose|i: int| 0 <= i < ring.len() && ring[i] == q;
            if !whole.contains_key(q) {
                lemma_turned_ring(g, whole, ring, i);
                law_ring_is_a_cycle(g, whole, turned(ring, i));
                assert(g.wins_place(whole, ring[i]));
                assert(g.orders.contains_key(q));
                assert(order.contains(q));
                let j = choose|j: int| 0 <= j < order.len() && order[j] == q;
                lemma_first_cycle_found(g, order, whole, 0, j);
            }
            assert(!base.contains_key(q)) by {
                if base.contains_key(q) {
                    assert(base.dom().contains(q));
                    assert(part.dom().contains(q) ==> base[q] == part[q]);
                }
            }
        }
    }
    lemma_within(next, whole);
}

/// A map whose bindings are all bindings of another is within it.
proof fn lemma_within(part: Status, whole: Status)
    requires
        forall|q: Name| #[trigger] part.dom().contains(q) ==> whole.dom().contains(q) && part[q] == whole[q],
    ensures
        part.submap_of(whole),
{
}

/// Breaking cycles from part of a status in which no cycle is left to find
/// stays within that status.
proof fn lemma_break_cycles_within(
    g: Position,
    first: Seq<Name>,
    second: Seq<Name>,
    base: Status,
    part: Status,
    whole: Status,
    fuel: nat,
)
    requires
        g.orders.dom().finite(),
        forall|j: int| 0 <= j < first.len() ==> g.orders.contains_key(#[trigger] first[j]),
        is_uncycled(g, second, base, whole),
        base.submap_of(part),
        part.submap_of(whole),
    ensures
        g.break_cycles_within(first, part, fuel).submap_of(whole),
    decreases fuel,
{
    if fuel > 0 && g.first_cycle(first, part, 0) is Some {
        let cycle = g.first_cycle(first, part, 0).unwrap();
        let start = lemma_first_cycle(g, first, part, 0);
        lemma_cycle_within(g, second, base, part, whole, start);
        let next = settle(part, cycle, true);
        vstd::map_lib::lemma_submap_of_trans(base, part, next);
        lemma_break_cycles_within(g, first, second, base, next, whole, (fuel - 1) as nat);
    }
}

/// Order-independence of the cycle breaker: the cycles that it confirms do
/// not depend on the order in which it looks for them.
pub proof fn law_cycles_do_not_depend_on_order(g: Position, first: Seq<Name>, second: Seq<Name>, status: Status)
    requires
        g.orders.dom().finite(),
        first.to_set() == g.orders.dom(),
        second.to_set() == g.orders.dom(),
    ensures
        g.break_cycles(first, status) == g.break_cycles(second, status),
{
    let fuel = g.unresolved(status).len();
    let a = g.break_cycles(first, status);
    let b = g.break_cycles(second, status);
    assert forall|j: int| 0 <= j < first.len() implies g.orders.contains_key(#[trigger] first[j]) by {
        assert(first.contains(first[j]));
        assert(first.to_set().contains(first[j]));
    }
    assert forall|j: int| 0 <= j < second.len() implies g.orders.contains_key(#[trigger] second[j]) by {
        assert(second.contains(second[j]));
        assert(second.to_set().contains(second[j]));
    }
    assert forall|q: Name| #[trigger] g.orders.contains_key(q) implies first.contains(q) && second.contains(q) by {
        assert(first.to_set().contains(q));
        assert(second.to_set().contains(q));
    }
    law_break_cycles_only_adds(g, first, status, fuel);
    law_break_cycles_only_adds(g, second, status, fuel);
    lemma_break_cycles_adds_successes(g, first, status, fuel);
    lemma_break_cycles_adds_successes(g, second, status, fuel);
    lemma_break_cycles_ends(g, first, status, fuel);
    lemma_break_cycles_ends(g, second, status, fuel);
    assert(is_uncycled(g, first, status, a));
    assert(is_uncycled(g, second, status, b));
    lemma_break_cycles_within(g, first, second, status, status, b, fuel);
    lemma_break_cycles_within(g, second, first, status, status, a, fuel);
    a.lemma_submap_eq_iff(b);
}

// -------------------------------------------------------------------
// The outcome of a phase does not depend on the order of the orders

/// A map within another of the same finite size is that other.
proof fn lemma_same_size(part: Status, whole: Status)
    requires
        part.submap_of(whole),
        whole.dom().finite(),
        part.dom().len() == whole.dom().len(),
    ensures
        part == whole,
{
    assert(part.dom().subset_of(whole.dom()));
    vstd::set_lib::lemma_subset_equality(part.dom(), whole.dom());
    assert(part.dom() =~= whole.dom());
    assert(part =~= whole);
}

/// Sets within the orders are finite and no larger.
proof fn lemma_within_orders(g: Position, status: Status)
    requires
        g.orders.dom().finite(),
        status.dom().subset_of(g.orders.dom()),
    ensures
        status.dom().finite(),
        status.dom().len() <= g.orders.dom().len(),
{
    vstd::set_lib::lemma_len_subset(status.dom(), g.orders.dom());
}

/// Passes resolve orders only.
proof fn lemma_passes_stay_with_orders(g: Position, order: Seq<Name>, base: Status, k: nat)
    requires
        forall|j: int| 0 <= j < order.len() ==> g.orders.contains_key(#[trigger] order[j]),
        base.dom().subset_of(g.orders.dom()),
    ensures
        g.passes(order, base, k).dom().subset_of(g.orders.dom()),
    decreases k,
{
    if k > 0 {
        lemma_passes_stay_with_orders(g, order, base, (k - 1) as nat);
        lemma_pass_stays_with_orders(g, order, g.passes(order, base, (k - 1) as nat), order.len());
    }
}

/// A pass that resolves no further order changes nothing.
proof fn lemma_idle_pass(g: Position, order: Seq<Name>, status: Status)
    requires
        g.orders.dom().finite(),
        forall|j: int| 0 <= j < order.len() ==> g.orders.contains_key(#[trigger] order[j]),
        status.dom().subset_of(g.orders.dom()),
        g.pass(order, status, order.len()).dom().len() == status.dom().len(),
    ensures
        g.pass(order, status, order.len()) == status,
{
    let passed = g.pass(order, status, order.len());
    law_pass_only_adds(g, order, status, order.len());
    lemma_pass_stays_with_orders(g, order, status, order.len());
    lemma_within_orders(g, passed);
    lemma_same_size(status, passed);
}

/// Where every order is resolved, a pass changes nothing.
proof fn lemma_full_pass(g: Position, order: Seq<Name>, status: Status)
    requires
        g.orders.dom().finite(),
        forall|j: int| 0 <= j < order.len() ==> g.orders.contains_key(#[trigger] order[j]),
        status.dom().subset_of(g.orders.dom()),
        status.dom().len() == g.orders.dom().len(),
    ensures
        g.pass(order, status, order.len()) == status,
{
    let passed = g.pass(order, status, order.len());
    law_pass_only_adds(g, order, status, order.len());
    lemma_pass_stays_with_orders(g, order, status, order.len());
    lemma_within_orders(g, passed);
    lemma_within_orders(g, status);
    assert(status.dom().subset_of(passed.dom()));
    vstd::set_lib::lemma_len_subset(status.dom(), passed.dom());
    lemma_idle_pass(g, order, status);
}

/// What resolution comes to from a status in which passes are stuck.
spec fn after_breakers(g: Position, order: Seq<Name>, status: Status, fuel: nat) -> Status {
    let uncycled = g.break_cycles(order, status);
    if uncycled.dom().len() != status.dom().len() {
        g.resolve(order, uncycled, (fuel - 1) as nat)
    } else {
        let disrupted = g.break_convoys(uncycled);
        if disrupted.dom().len() != status.dom().len() {
            g.resolve(order, disrupted, (fuel - 1) as nat)
        } else {
            disrupted
        }
    }
}

/// Resolution where a pass resolves an order: it goes on from the pass.
proof fn lemma_resolve_after_pass(g: Position, order: Seq<Name>, status: Status, fuel: nat)
    requires
        fuel > 0,
        status.dom().len() != g.orders.dom().len(),
        g.pass(order, status, order.len()).dom().len() != status.dom().len(),
    ensures
        g.resolve(order, status, fuel) == g.resolve(order, g.pass(order, status, order.len()), (fuel - 1) as nat),
{
}

/// Resolution where a pass changes nothing: it goes on with the breakers.
proof fn lemma_resolve_when_stuck(g: Position, order: Seq<Name>, status: Status, fuel: nat)
    requires
        fuel > 0,
        status.dom().len() != g.orders.dom().len(),
        g.pass(order, status, order.len()) == status,
    ensures
        g.resolve(order, status, fuel) == after_breakers(g, order, status, fuel),
{
}

/// Whether the orders in `order` are the orders of the position.
pub open spec fn lists_orders(g: Position, order: Seq<Name>) -> bool {
    order.to_set() == g.orders.dom()
}

proof fn lemma_lists_orders(g: Position, order: Seq<Name>)
    requires
        lists_orders(g, order),
    ensures
        forall|j: int| 0 <= j < order.len() ==> g.orders.contains_key(#[trigger] order[j]),
{
    assert forall|j: int| 0 <= j < order.len() implies g.orders.contains_key(#[trigger] order[j]) by {
        assert(order.contains(order[j]));
        assert(order.to_set().contains(order[j]));
    }
}

/// From the same status in which passes are stuck, resolution in two
/// orders goes on from the same status, or ends in it.
proof fn lemma_breakers_agree(g: Position, first: Seq<Name>, second: Seq<Name>, status: Status)
    requires
        g.orders.dom().finite(),
        lists_orders(g, first),
        lists_orders(g, second),
        status.dom().subset_of(g.orders.dom()),
    ensures
        g.break_cycles(first, status) == g.break_cycles(second, status),
        g.break_cycles(first, status).dom().subset_of(g.orders.dom()),
        g.break_convoys(g.break_cycles(first, status)).dom().subset_of(g.orders.dom()),
        status.submap_of(g.break_cycles(first, status)),
        g.break_cycles(first, status).submap_of(g.break_convoys(g.break_cycles(first, status))),
{
    lemma_lists_orders(g, first);
    law_cycles_do_not_depend_on_order(g, first, second, status);
    let uncycled = g.break_cycles(first, status);
    lemma_break_cycles_stays_with_orders(g, first, status, g.unresolved(status).len());
    law_break_cycles_only_adds(g, first, status, g.unresolved(status).len());
    assert(g.break_convoys(uncycled).dom().subset_of(g.orders.dom())) by {
        assert forall|q: Name| g.disrupted(uncycled, q) implies g.orders.contains_key(q) by {}
    }
}

/// From statuses that passes in two orders have reached from the same
/// status, resolution comes to the same.
proof fn lemma_resolve_agrees(
    g: Position,
    first: Seq<Name>,
    second: Seq<Name>,
    base: Status,
    k1: nat,
    k2: nat,
    f1: nat,
    f2: nat,
)
    requires
        g.orders.dom().finite(),
        lists_orders(g, first),
        lists_orders(g, second),
        base.dom().subset_of(g.orders.dom()),
        f1 + g.passes(first, base, k1).dom().len() >= g.orders.dom().len() + 1,
        f2 + g.passes(second, base, k2).dom().len() >= g.orders.dom().len() + 1,
    ensures
        g.resolve(first, g.passes(first, base, k1), f1) == g.resolve(second, g.passes(second, base, k2), f2),
    decreases
            g.orders.dom().len() - base.dom().len(),
            2 * g.orders.dom().len() - g.passes(first, base, k1).dom().len() - g.passes(
                second,
                base,
                k2,
            ).dom().len(),
{
    let n = g.orders.dom().len();
    let a = g.passes(first, base, k1);
    let b = g.passes(second, base, k2);
    lemma_lists_orders(g, first);
    lemma_lists_orders(g, second);
    lemma_passes_stay_with_orders(g, first, base, k1);
    lemma_passes_stay_with_orders(g, second, base, k2);
    lemma_within_orders(g, a);
    lemma_within_orders(g, b);
    lemma_within_orders(g, base);
    law_passes_only_add(g, first, base, k1);
    law_passes_only_add(g, second, base, k2);
    assert(base.dom().subset_of(a.dom()));
    assert(base.dom().subset_of(b.dom()));
    vstd::set_lib::lemma_len_subset(base.dom(), a.dom());
    vstd::set_lib::lemma_len_subset(base.dom(), b.dom());
    let pa = g.pass(first, a, first.len());
    let pb = g.pass(second, b, second.len());
    assert(pa == g.passes(first, base, k1 + 1));
    assert(pb == g.passes(second, base, k2 + 1));
    law_pass_only_adds(g, first, a, first.len());
    law_pass_only_adds(g, second, b, second.len());
    lemma_pass_stays_with_orders(g, first, a, first.len());
    lemma_pass_stays_with_orders(g, second, b, second.len());
    lemma_within_orders(g, pa);
    lemma_within_orders(g, pb);
    assert(a.dom().subset_of(pa.dom()));
    assert(b.dom().subset_of(pb.dom()));
    vstd::set_lib::lemma_len_subset(a.dom(), pa.dom());
    vstd::set_lib::lemma_len_subset(b.dom(), pb.dom());
    if a.dom().len() != n && pa.dom().len() != a.dom().len() {
        lemma_resolve_after_pass(g, first, a, f1);
        lemma_resolve_agrees(g, first, second, base, k1 + 1, k2, (f1 - 1) as nat, f2);
    } else if b.dom().len() != n && pb.dom().len() != b.dom().len() {
        lemma_resolve_after_pass(g, second, b, f2);
        lemma_resolve_agrees(g, first, second, base, k1, k2 + 1, f1, (f2 - 1) as nat);
    } else {
        // passes are stuck in both orders, so they have come to the same
        if a.dom().len() == n {
            lemma_full_pass(g, first, a);
        } else {
            lemma_idle_pass(g, first, a);
        }
        if b.dom().len() == n {
            lemma_full_pass(g, second, b);
        } else {
            lemma_idle_pass(g, second, b);
        }
        law_finished_passes_agree(g, first, second, base, k1, k2);
        assert(a == b);
        if a.dom().len() != n {
            lemma_resolve_when_stuck(g, first, a, f1);
            lemma_resolve_when_stuck(g, second, a, f2);
            lemma_breakers_agree(g, first, second, a);
            let uncycled = g.break_cycles(first, a);
            lemma_within_orders(g, uncycled);
            assert(a.dom().subset_of(uncycled.dom()));
            vstd::set_lib::lemma_len_subset(a.dom(), uncycled.dom());
            if uncycled.dom().len() != a.dom().len() {
                assert(g.passes(first, uncycled, 0) == uncycled);
                assert(g.passes(second, uncycled, 0) == uncycled);
                lemma_resolve_agrees(g, first, second, uncycled, 0, 0, (f1 - 1) as nat, (f2 - 1) as nat);
            } else {
                let disrupted = g.break_convoys(uncycled);
                lemma_within_orders(g, disrupted);
                assert(uncycled.dom().subset_of(disrupted.dom()));
                vstd::set_lib::lemma_len_subset(uncycled.dom(), disrupted.dom());
                if disrupted.dom().len() != a.dom().len() {
                    assert(g.passes(first, disrupted, 0) == disrupted);
                    assert(g.passes(second, disrupted, 0) == disrupted);
                    lemma_resolve_agrees(g, first, second, disrupted, 0, 0, (f1 - 1) as nat, (f2 - 1) as nat);
                }
            }
        }
    }
}

/// Order-independence: the outcome of a phase does not depend on the order
/// in which the orders are looked at.
pub proof fn law_adjudication_does_not_depend_on_order(g: Position, first: Seq<Name>, second: Seq<Name>)
    requires
        g.orders.dom().finite(),
        lists_orders(g, first),
        lists_orders(g, second),
    ensures
        g.adjudication(first) == g.adjudication(second),
{
    let n = g.orders.dom().len();
    assert(g.passes(first, Map::empty(), 0) == Map::<Name, bool>::empty());
    assert(g.passes(second, Map::empty(), 0) == Map::<Name, bool>::empty());
    lemma_resolve_agrees(g, first, second, Map::empty(), 0, 0, n + 1, n + 1);
}

// -------------------------------------------------------------------
// The board after the moves

/// Whether one of the first `n` orders brings a unit to `d`.
spec fn entered_within(g: Position, status: Status, order: Seq<Name>, n: nat, d: Name) -> bool {
    exists|j: int| 0 <= j < n && g.leaves(status, #[trigger] order[j]) && g.dest_of(order[j]) == d
}

/// The board after the first `n` orders have been carried out, where no
/// two units arrive in the same province.
spec fn board_within(g: Position, status: Status, order: Seq<Name>, n: nat) -> Map<Name, UnitView> {
    Map::new(
        |d: Name| entered_within(g, status, order, n, d) || (g.units.contains_key(d) && !g.leaves(status, d)),
        |d: Name|
            if entered_within(g, status, order, n, d) {
                let p = g.entered_from(status, d);
                moved(g.units[p], g.orders[p].move_coast())
            } else {
                g.units[d]
            },
    )
}

proof fn lemma_arrivals_within(g: Position, status: Status, order: Seq<Name>, n: nat)
    requires
        g.arrivals_are_apart(status),
        n <= order.len(),
    ensures
        g.arrivals(status, order, n) == board_within(g, status, order, n),
    decreases n,
{
    if n == 0 {
        assert(g.arrivals(status, order, n) =~= board_within(g, status, order, 0));
    } else {
        lemma_arrivals_within(g, status, order, (n - 1) as nat);
        let before = board_within(g, status, order, (n - 1) as nat);
        let after = board_within(g, status, order, n);
        let p = order[n - 1];
        assert forall|x: Name| entered_within(g, status, order, (n - 1) as nat, x) implies entered_within(
            g,
            status,
            order,
            n,
            x,
        ) by {
            let j = choose|j: int|
                0 <= j < n - 1 && g.leaves(status, #[trigger] order[j]) && g.dest_of(order[j]) == x;
            assert(0 <= j < n);
        }
        assert forall|x: Name|
            entered_within(g, status, order, n, x) && !(g.leaves(status, p) && g.dest_of(p) == x)
                implies entered_within(g, status, order, (n - 1) as nat, x) by {
            let j = choose|j: int| 0 <= j < n && g.leaves(status, #[trigger] order[j]) && g.dest_of(order[j]) == x;
            assert(0 <= j < n - 1);
        }
        if g.leaves(status, p) {
            let d = g.dest_of(p);
            assert(g.leaves(status, order[n - 1]) && g.dest_of(order[n - 1]) == d);
            assert(entered_within(g, status, order, n, d));
            assert(g.entered(status, d));
            let from = g.entered_from(status, d);
            assert(g.leaves(status, from) && g.dest_of(from) == d);
            assert(from == p);
            assert(before.insert(d, moved(g.units[p], g.orders[p].move_coast())) =~= after);
        } else {
            assert(before =~= after);
        }
    }
}

/// Where no two units arrive in the same province, the board after the
/// moves does not depend on the order in which they are carried out.
pub proof fn law_arrivals_apart(g: Position, status: Status, order: Seq<Name>)
    requires
        g.arrivals_are_apart(status),
        lists_orders(g, order),
    ensures
        g.arrivals(status, order, order.len()) == g.board_after(status),
{
    lemma_arrivals_within(g, status, order, order.len());
    assert(board_within(g, status, order, order.len()) =~= g.board_after(status)) by {
        assert forall|d: Name| g.entered(status, d) implies entered_within(g, status, order, order.len(), d) by {
            let p = g.entered_from(status, d);
            assert(g.leaves(status, p) && g.dest_of(p) == d);
            assert(order.to_set().contains(p));
            assert(order.contains(p));
            let j = choose|j: int| 0 <= j < order.len() && order[j] == p;
            assert(g.leaves(status, order[j]) && g.dest_of(order[j]) == d);
        }
        assert forall|d: Name| entered_within(g, status, order, order.len(), d) implies g.entered(status, d) by {
            let j = choose|j: int|
                0 <= j < order.len() && g.leaves(status, #[trigger] order[j]) && g.dest_of(order[j]) == d;
            assert(g.leaves(status, order[j]) && g.dest_of(order[j]) == d);
        }
    }
}

/// Where a pass over all orders learns nothing, every order that is left
/// unresolved has an open verdict, from all that is known.
pub proof fn law_idle_pass_leaves_open_verdicts(g: Position, order: Seq<Name>, status: Status, p: Name)
    requires
        lists_orders(g, order),
        g.pass(order, status, order.len()) == status,
        g.orders.contains_key(p),
        !status.contains_key(p),
    ensures
        g.verdict(status, p) is None,
{
    assert(order.to_set().contains(p));
    assert(order.contains(p));
    let j = choose|j: int| 0 <= j < order.len() && order[j] == p;
    lemma_nothing_left(g, order, status, j);
    law_deps_suffice(g, status, p);
    if g.verdict(g.restricted(status, p), p) is Some {
        let outcome = g.verdict(g.restricted(status, p), p).unwrap();
        assert(g.step(status, p) == status.insert(p, outcome));
        assert(status.insert(p, outcome).contains_key(p));
    }
}

/// Once cycles are broken, no cycle is left: from no unresolved move does
/// the search find one. And what was added are successes.
pub proof fn law_no_cycle_is_left(g: Position, order: Seq<Name>, status: Status)
    requires
        g.orders.dom().finite(),
        lists_orders(g, order),
    ensures
        forall|p: Name|
            #[trigger] g.starts_cycle(g.break_cycles(order, status), p) ==> g.cycle_at(
                g.break_cycles(order, status),
                p,
            ) is None,
        forall|q: Name|
            #[trigger] g.break_cycles(order, status).contains_key(q) && !status.contains_key(q) ==> g.break_cycles(
                order,
                status,
            )[q],
{
    let fuel = g.unresolved(status).len();
    let last = g.break_cycles(order, status);
    lemma_lists_orders(g, order);
    lemma_break_cycles_ends(g, order, status, fuel);
    lemma_break_cycles_adds_successes(g, order, status, fuel);
    assert forall|p: Name| #[trigger] g.starts_cycle(last, p) implies g.cycle_at(last, p) is None by {
        if g.cycle_at(last, p) is Some {
            assert(order.to_set().contains(p));
            assert(order.contains(p));
            let j = choose|j: int| 0 <= j < order.len() && order[j] == p;
            lemma_first_cycle_found(g, order, last, 0, j);
        }
    }
}

/// Where resolution is at rest, every order that is left unresolved has an
/// open verdict, from all that is known.
pub proof fn law_rest_leaves_open_verdicts(g: Position, order: Seq<Name>, status: Status)
    requires
        g.orders.dom().finite(),
        lists_orders(g, order),
        status.dom().subset_of(g.orders.dom()),
        crate::laws::at_rest(g, order, status),
    ensures
        forall|p: Name| #[trigger] g.orders.contains_key(p) && !status.contains_key(p) ==> g.verdict(status, p) is None,
{
    lemma_lists_orders(g, order);
    lemma_within_orders(g, status);
    if status.dom().len() == g.orders.dom().len() {
        vstd::set_lib::lemma_subset_equality(status.dom(), g.orders.dom());
        assert(status.dom() =~= g.orders.dom());
    } else {
        let passed = g.pass(order, status, order.len());
        let last = g.round(order, status);
        law_pass_only_adds(g, order, status, order.len());
        lemma_pass_stays_with_orders(g, order, status, order.len());
        lemma_within_orders(g, passed);
        assert(status.dom().subset_of(passed.dom()));
        vstd::set_lib::lemma_len_subset(status.dom(), passed.dom());
        if passed.dom().len() != status.dom().len() {
            assert(last == passed);
        }
        lemma_idle_pass(g, order, status);
        assert forall|p: Name| #[trigger] g.orders.contains_key(p) && !status.contains_key(p) implies g.verdict(
            status,
            p,
        ) is None by {
            law_idle_pass_leaves_open_verdicts(g, order, status, p);
        }
    }
}

// -------------------------------------------------------------------
// Holding

/// Whether every order is an order to hold.
pub open spec fn all_hold(g: Position) -> bool {
    forall|q: Name| #[trigger] g.orders.contains_key(q) ==> g.orders[q] == OrderView::Hold
}

/// The status in which every order has succeeded.
pub open spec fn all_succeed(g: Position) -> Status {
    Map::new(|p: Name| g.orders.contains_key(p), |p: Name| true)
}

/// Among holds, a pass from nothing resolves each order it looks at to
/// success.
proof fn lemma_pass_of_holds(g: Position, order: Seq<Name>, n: nat)
    requires
        all_hold(g),
        forall|j: int| 0 <= j < order.len() ==> g.orders.contains_key(#[trigger] order[j]),
        n <= order.len(),
    ensures
        g.pass(order, Map::empty(), n) == Map::new(
            |p: Name| exists|j: int| 0 <= j < n && #[trigger] order[j] == p,
            |p: Name| true,
        ),
    decreases n,
{
    let target = Map::new(|p: Name| exists|j: int| 0 <= j < n && #[trigger] order[j] == p, |p: Name| true);
    if n == 0 {
        assert(g.pass(order, Map::empty(), n) =~= target);
    } else {
        lemma_pass_of_holds(g, order, (n - 1) as nat);
        let before = g.pass(order, Map::empty(), (n - 1) as nat);
        let p = order[n - 1];
        assert(g.orders.contains_key(p));
        assert(g.orders[p] == OrderView::Hold);
        let seen = g.restricted(before, p);
        assert forall|q: Name| !#[trigger] g.moves_to(q, p) by {
            if g.orders.contains_key(q) {
                assert(g.orders[q] == OrderView::Hold);
            }
        }
        assert(g.verdict(seen, p) == Some(true));
        assert(order[n - 1] == p);
        assert forall|q: Name| g.step(before, p).contains_key(q) <==> target.contains_key(q) by {
            if before.contains_key(q) {
                let j = choose|j: int| 0 <= j < n - 1 && #[trigger] order[j] == q;
                assert(0 <= j < n && order[j] == q);
            }
            if target.contains_key(q) {
                let j = choose|j: int| 0 <= j < n && #[trigger] order[j] == q;
                if j < n - 1 {
                    assert(before.contains_key(q));
                }
            }
        }
        assert(g.step(before, p) =~= target);
    }
}

/// Holding is stable: where every unit is told to hold, as a unit is whose
/// order was left unresolved, adjudication resolves every order to success,
/// and the board after it is the board before it, with no retreat.
pub proof fn law_holding_keeps_the_board(g: Position, order: Seq<Name>)
    requires
        g.orders.dom().finite(),
        lists_orders(g, order),
        all_hold(g),
    ensures
        g.adjudication(order) == all_succeed(g),
        g.arrivals(g.adjudication(order), order, order.len()) == g.units,
        g.retreats(g.adjudication(order), g.units) == Map::<Name, RetreatView>::empty(),
{
    let n = g.orders.dom().len();
    let nothing = Map::<Name, bool>::empty();
    let passed = g.pass(order, nothing, order.len());
    lemma_lists_orders(g, order);
    lemma_pass_of_holds(g, order, order.len());
    assert(passed =~= all_succeed(g)) by {
        assert forall|p: Name| passed.contains_key(p) <==> g.orders.contains_key(p) by {
            if g.orders.contains_key(p) {
                assert(order.to_set().contains(p));
                assert(order.contains(p));
                let j = choose|j: int| 0 <= j < order.len() && order[j] == p;
                assert(0 <= j < order.len() && order[j] == p);
            }
            if passed.contains_key(p) {
                let j = choose|j: int| 0 <= j < order.len() && #[trigger] order[j] == p;
                assert(g.orders.contains_key(order[j]));
            }
        }
    }
    assert(all_succeed(g).dom() =~= g.orders.dom());
    assert(nothing.dom() =~= Set::<Name>::empty());
    if n == 0 {
        assert(g.orders.dom() =~= Set::<Name>::empty());
        assert(all_succeed(g) =~= nothing);
        assert(g.resolve(order, nothing, 1) == nothing);
    } else {
        assert(g.round(order, nothing) == passed);
        assert(g.resolve(order, passed, n) == passed);
        assert(g.resolve(order, nothing, n + 1) == g.resolve(order, passed, n));
    }
    let status = g.adjudication(order);
    assert forall|p: Name| !#[trigger] g.leaves(status, p) by {
        if g.orders.contains_key(p) {
            assert(g.orders[p] == OrderView::Hold);
        }
    }
    lemma_nobody_leaves(g, status, order, order.len());
    assert(g.retreats(status, g.units) =~= Map::<Name, RetreatView>::empty()) by {
        assert forall|d: Name| !g.dislodged(status, d) by {
            if g.dislodged(status, d) {
                let p = choose|p: Name| #[trigger] g.leaves(status, p) && g.dest_of(p) == d;
                assert(g.leaves(status, p));
            }
        }
    }
}

/// Where no unit moves away, the board stays as it is.
proof fn lemma_nobody_leaves(g: Position, status: Status, order: Seq<Name>, n: nat)
    requires
        forall|p: Name| !#[trigger] g.leaves(status, p),
        n <= order.len(),
    ensures
        g.arrivals(status, order, n) == g.units,
    decreases n,
{
    if n == 0 {
        assert(g.stayers(status) =~= g.units);
    } else {
        lemma_nobody_leaves(g, status, order, (n - 1) as nat);
        assert(!g.leaves(status, order[n - 1]));
    }
}

// -------------------------------------------------------------------
// Moves that succeed by their verdict do not meet

/// The attack strength of a move is surely no more than its defend
/// strength may be.
proof fn lemma_attack_below_defend(g: Position, status: Status, s: Name)
    requires
        g.orders.dom().finite(),
    ensures
        g.attack_strength(status, s).min <= g.defend_strength(status, s).max,
{
    let d = g.dest_of(s);
    lemma_fewer(g.orders.dom(), g.attack_support(status, s, d, true), g.move_support(status, s, d, false));
}

/// Two moves that meet head to head do not both have the verdict to
/// succeed.
proof fn lemma_no_swap(g: Position, status: Status, x: Name, d: Name)
    requires
        g.orders.dom().finite(),
        g.moves_to(x, d),
        g.moves_to(d, x),
        g.head_to_head(status, x) == Some(true),
        g.verdict(status, x) == Some(true),
    ensures
        g.verdict(status, d) != Some(true),
{
    assert(g.dest_of(x) == d && g.dest_of(d) == x);
    assert(g.head_to_head(status, d) == Some(true));
    assert(g.facing(status, x) == Some(g.defend_strength(status, d)));
    assert(g.facing(status, d) == Some(g.defend_strength(status, x)));
    assert(g.move_prevails(status, x));
    lemma_attack_below_defend(g, status, x);
    lemma_attack_below_defend(g, status, d);
    if g.verdict(status, d) == Some(true) {
        assert(g.move_prevails(status, d));
    }
}

/// Moves that succeed by their verdict do not meet: where every move that
/// is known to succeed has the verdict to succeed, from all that is known,
/// no two of them go to the same province.
pub proof fn law_sound_moves_are_apart(g: Position, status: Status)
    requires
        g.orders.dom().finite(),
        forall|p: Name| #[trigger] g.leaves(status, p) ==> g.verdict(status, p) == Some(true),
    ensures
        g.arrivals_are_apart(status),
{
    assert forall|p: Name, q: Name|
        #[trigger] g.leaves(status, p) && #[trigger] g.leaves(status, q) && g.dest_of(p) == g.dest_of(q) implies p
        == q by {
        if p != q {
            let d = g.dest_of(p);
            assert(g.verdict(status, p) == Some(true));
            assert(g.verdict(status, q) == Some(true));
            assert(g.move_prevails(status, p));
            assert(g.move_prevails(status, q));
            assert(g.rival(q, p));
            assert(g.rival(p, q));
            lemma_attack_below_defend(g, status, p);
            lemma_attack_below_defend(g, status, q);
            if g.head_to_head(status, q) == Some(true) && known(status, d) == Some(true) {
                assert(g.moves_to(d, q));
                assert(g.leaves(status, d));
                lemma_no_swap(g, status, q, d);
            } else if g.head_to_head(status, p) == Some(true) && known(status, d) == Some(true) {
                assert(g.moves_to(d, p));
                assert(g.leaves(status, d));
                lemma_no_swap(g, status, p, d);
            } else {
                assert(g.prevent_strength(status, q).max == g.defend_strength(status, q).max);
                assert(g.prevent_strength(status, p).max == g.defend_strength(status, p).max);
            }
        }
    }
}

/// What passes alone resolve brings no two units to the same province.
pub proof fn law_passes_keep_moves_apart(g: Position, order: Seq<Name>, k: nat)
    requires
        g.orders.dom().finite(),
    ensures
        g.arrivals_are_apart(g.passes(order, Map::empty(), k)),
{
    let status = g.passes(order, Map::empty(), k);
    law_passes_are_sound(g, order, Map::empty(), k);
    assert forall|p: Name| #[trigger] g.leaves(status, p) implies g.verdict(status, p) == Some(true) by {
        assert(status.contains_key(p));
    }
    law_sound_moves_are_apart(g, status);
}

} // verus!
