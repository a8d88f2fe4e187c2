//! What holds of the rules whatever the position: bounds that are intervals,
//! knowledge that only grows, verdicts that stand once given, and
//! dependencies that are all a verdict rests on.

use vstd::prelude::*;
use crate::board::MapView;
use crate::graph::{lemma_reach_monotone, reachable};
use crate::model::{chain_along, exactly, hop, known, sea_link, Interval, Position, Status};
use crate::order::OrderView;
use crate::paradox::lemma_first_cycle;
use crate::resolution::settle;
use crate::text::Name;

verus! {

/// Whether `later` agrees with `earlier` wherever `earlier` is decided.
pub open spec fn settles(earlier: Option<bool>, later: Option<bool>) -> bool {
    earlier is None || earlier == later
}

/// Whether `later` lies within `earlier`: its lower bound is no lower and
/// its upper bound no higher.
pub open spec fn narrows(earlier: Interval, later: Interval) -> bool {
    earlier.min <= later.min && later.max <= earlier.max
}

/// Among finitely many provinces, a condition that implies another holds
/// of no more of them.
pub proof fn lemma_fewer(dom: Set<Name>, p: spec_fn(Name) -> bool, q: spec_fn(Name) -> bool)
    requires
        dom.finite(),
        forall|x: Name| dom.contains(x) && #[trigger] p(x) ==> q(x),
    ensures
        dom.filter(p).finite(),
        dom.filter(q).finite(),
        dom.filter(p).len() <= dom.filter(q).len(),
{
    dom.lemma_len_filter(p);
    dom.lemma_len_filter(q);
    assert(dom.filter(p).subset_of(dom.filter(q)));
    vstd::set_lib::lemma_len_subset(dom.filter(p), dom.filter(q));
}

// -------------------------------------------------------------------
// Boundary behaviour

/// A move to the province it starts from always fails.
pub proof fn law_self_move_fails(g: Position, status: Status, p: Name)
    requires
        g.moves_to(p, p),
    ensures
        g.verdict(status, p) == Some(false),
        g.deps(p) == Set::<Name>::empty(),
{
    assert(g.deps(p) =~= Set::<Name>::empty());
}

/// A convoy ordered outside a sea province always fails.
pub proof fn law_convoy_on_land_fails(g: Position, status: Status, p: Name)
    requires
        g.orders.contains_key(p),
        g.orders[p] is Convoy,
        !g.is_sea(p),
    ensures
        g.verdict(status, p) == Some(false),
{
}

/// A fleet never has a convoyed path.
pub proof fn law_fleet_is_not_convoyed(g: Position, status: Status, s: Name)
    requires
        g.units[s] is Fleet,
    ensures
        g.convoy_path(status, s) == Some(false),
{
}

/// A move against a unit of the mover's own nationality that is known to
/// stay always fails.
pub proof fn law_no_attack_on_own_unit(g: Position, status: Status, p: Name)
    requires
        g.is_mover(p),
        g.occupant(status, g.dest_of(p)) == Some(g.nation_at(p)),
        g.occupant_certain(status, g.dest_of(p)),
    ensures
        g.attack_strength(status, p) == exactly(0),
        g.verdict(status, p) == Some(false),
{
}

/// An attack out of the destination of a supported move never cuts the
/// support: where the only move into the supporter's province comes from
/// there, a support that can be given succeeds, whatever is known.
pub proof fn law_attack_from_destination_does_not_cut(g: Position, status: Status, p: Name)
    requires
        g.orders.contains_key(p),
        g.orders[p] is SupportMove,
        g.move_supportable(p, g.orders[p]->SupportMove_src, g.orders[p]->SupportMove_dest),
        forall|q: Name| #[trigger] g.moves_to(q, p) ==> q == g.orders[p]->SupportMove_dest,
    ensures
        g.verdict(status, p) == Some(true),
{
    let dest = g.orders[p]->SupportMove_dest;
    assert forall|q: Name| #[trigger] g.taps(q, p) implies g.cut_by(status, q, Some(dest)) == Some(false) by {
        assert(g.moves_to(q, p));
    }
}

/// A mover of the supporter's own nationality never cuts a support: where
/// only such units move into `p`, the support given from `p` is uncut.
pub proof fn law_own_units_do_not_cut(g: Position, status: Status, p: Name, exception: Option<Name>)
    requires
        forall|q: Name| #[trigger] g.moves_to(q, p) ==> g.nation_at(q) == g.nation_at(p),
    ensures
        g.untapped(status, p, exception) == Some(true),
{
    assert forall|q: Name| !#[trigger] g.taps(q, p) by {
        if g.moves_to(q, p) {
        }
    }
}

// -------------------------------------------------------------------
// Bounds are intervals

/// The hold strength has its lower bound below its upper bound.
pub proof fn law_hold_strength_is_interval(g: Position, status: Status, t: Name)
    requires
        g.orders.dom().finite(),
    ensures
        g.hold_strength(status, t).min <= g.hold_strength(status, t).max,
{
    lemma_fewer(g.orders.dom(), g.hold_support(status, t, true), g.hold_support(status, t, false));
}

/// The defend strength has its lower bound below its upper bound.
pub proof fn law_defend_strength_is_interval(g: Position, status: Status, s: Name)
    requires
        g.orders.dom().finite(),
    ensures
        g.defend_strength(status, s).min <= g.defend_strength(status, s).max,
{
    let d = g.dest_of(s);
    lemma_fewer(g.orders.dom(), g.move_support(status, s, d, true), g.move_support(status, s, d, false));
}

/// The prevent strength has its lower bound below its upper bound.
pub proof fn law_prevent_strength_is_interval(g: Position, status: Status, s: Name)
    requires
        g.orders.dom().finite(),
    ensures
        g.prevent_strength(status, s).min <= g.prevent_strength(status, s).max,
{
    law_defend_strength_is_interval(g, status, s);
}

/// The attack strength has its lower bound below its upper bound.
pub proof fn law_attack_strength_is_interval(g: Position, status: Status, s: Name)
    requires
        g.orders.dom().finite(),
    ensures
        g.attack_strength(status, s).min <= g.attack_strength(status, s).max,
{
    let d = g.dest_of(s);
    lemma_fewer(g.orders.dom(), g.attack_support(status, s, d, true), g.attack_support(status, s, d, false));
}

// -------------------------------------------------------------------
// Knowledge only grows

/// More fleets join no fewer provinces.
pub proof fn lemma_chain_monotone(map: MapView, src: Name, dest: Name, few: Set<Name>, many: Set<Name>)
    requires
        few.subset_of(many),
        chain_along(map, src, dest, few),
    ensures
        chain_along(map, src, dest, many),
{
    let last = choose|last: Name|
        last != src && #[trigger] reachable(hop(map, src, few), src, last) && sea_link(map, last, dest);
    assert forall|x: Name, y: Name| #[trigger] hop(map, src, few)(x, y) implies hop(map, src, many)(x, y) by {}
    lemma_reach_monotone(hop(map, src, few), hop(map, src, many), src, last);
}

/// As orders are resolved, a convoyed path that was decided stays as it was.
pub proof fn law_convoy_path_settles(g: Position, status: Status, later: Status, s: Name)
    requires
        status.submap_of(later),
    ensures
        settles(g.convoy_path(status, s), g.convoy_path(later, s)),
{
    let d = g.dest_of(s);
    let sure0 = g.convoy_fleets(status, s, d, true);
    let sure1 = g.convoy_fleets(later, s, d, true);
    let open0 = g.convoy_fleets(status, s, d, false);
    let open1 = g.convoy_fleets(later, s, d, false);
    assert(sure0.subset_of(sure1));
    assert(open1.subset_of(open0));
    assert(sure1.subset_of(open1));
    if chain_along(g.map, s, d, sure0) {
        lemma_chain_monotone(g.map, s, d, sure0, sure1);
    }
    if chain_along(g.map, s, d, sure1) {
        lemma_chain_monotone(g.map, s, d, sure1, open1);
    }
    if chain_along(g.map, s, d, open1) {
        lemma_chain_monotone(g.map, s, d, open1, open0);
    }
}

/// As orders are resolved, a path that was decided stays as it was.
pub proof fn law_path_settles(g: Position, status: Status, later: Status, s: Name)
    requires
        status.submap_of(later),
    ensures
        settles(g.path(status, s), g.path(later, s)),
{
    law_convoy_path_settles(g, status, later, s);
}

/// As orders are resolved, a head-to-head battle that was decided stays as
/// it was.
pub proof fn law_head_to_head_settles(g: Position, status: Status, later: Status, s: Name)
    requires
        status.submap_of(later),
    ensures
        settles(g.head_to_head(status, s), g.head_to_head(later, s)),
{
    law_convoy_path_settles(g, status, later, s);
    law_convoy_path_settles(g, status, later, g.dest_of(s));
}

/// As orders are resolved, the hold strength only narrows: its lower bound
/// does not fall and its upper bound does not rise.
pub proof fn law_hold_strength_narrows(g: Position, status: Status, later: Status, t: Name)
    requires
        g.orders.dom().finite(),
        status.submap_of(later),
    ensures
        narrows(g.hold_strength(status, t), g.hold_strength(later, t)),
{
    lemma_fewer(g.orders.dom(), g.hold_support(status, t, true), g.hold_support(later, t, true));
    lemma_fewer(g.orders.dom(), g.hold_support(later, t, false), g.hold_support(status, t, false));
}

/// As orders are resolved, the defend strength only narrows.
pub proof fn law_defend_strength_narrows(g: Position, status: Status, later: Status, s: Name)
    requires
        g.orders.dom().finite(),
        status.submap_of(later),
    ensures
        narrows(g.defend_strength(status, s), g.defend_strength(later, s)),
{
    let d = g.dest_of(s);
    law_path_settles(g, status, later, s);
    lemma_fewer(g.orders.dom(), g.move_support(status, s, d, true), g.move_support(later, s, d, true));
    lemma_fewer(g.orders.dom(), g.move_support(later, s, d, false), g.move_support(status, s, d, false));
    lemma_fewer(g.orders.dom(), g.move_support(later, s, d, true), g.move_support(later, s, d, false));
}

/// As orders are resolved, the prevent strength only narrows.
pub proof fn law_prevent_strength_narrows(g: Position, status: Status, later: Status, s: Name)
    requires
        g.orders.dom().finite(),
        status.submap_of(later),
    ensures
        narrows(g.prevent_strength(status, s), g.prevent_strength(later, s)),
{
    law_defend_strength_narrows(g, status, later, s);
    law_head_to_head_settles(g, status, later, s);
    law_defend_strength_is_interval(g, later, s);
}

/// As orders are resolved, the attack strength only narrows.
pub proof fn law_attack_strength_narrows(g: Position, status: Status, later: Status, s: Name)
    requires
        g.orders.dom().finite(),
        status.submap_of(later),
    ensures
        narrows(g.attack_strength(status, s), g.attack_strength(later, s)),
{
    let d = g.dest_of(s);
    law_path_settles(g, status, later, s);
    lemma_fewer(g.orders.dom(), g.attack_support(status, s, d, true), g.attack_support(later, s, d, true));
    lemma_fewer(g.orders.dom(), g.attack_support(later, s, d, false), g.attack_support(status, s, d, false));
    lemma_fewer(g.orders.dom(), g.attack_support(later, s, d, true), g.attack_support(later, s, d, false));
}

// -------------------------------------------------------------------
// Verdicts stand

/// As orders are resolved, a decision on whether a unit is dislodged stands.
pub proof fn law_undislodged_settles(g: Position, status: Status, later: Status, p: Name)
    requires
        status.submap_of(later),
    ensures
        settles(g.undislodged(status, p), g.undislodged(later, p)),
{
    if g.undislodged(status, p) == Some(false) {
        let q = choose|q: Name| #[trigger] g.moves_to(q, p) && known(status, q) == Some(true);
        assert(g.moves_to(q, p) && known(later, q) == Some(true));
    } else if g.undislodged(status, p) == Some(true) {
        assert forall|q: Name| #[trigger] g.moves_to(q, p) implies known(later, q) == Some(false) by {
            assert(known(status, q) == Some(false));
        }
    }
}

/// As orders are resolved, a decision on whether a support is cut stands.
pub proof fn law_untapped_settles(g: Position, status: Status, later: Status, p: Name, exception: Option<Name>)
    requires
        status.submap_of(later),
    ensures
        settles(g.untapped(status, p, exception), g.untapped(later, p, exception)),
{
    assert forall|q: Name| settles(#[trigger] g.cut_by(status, q, exception), g.cut_by(later, q, exception)) by {
        law_path_settles(g, status, later, q);
    }
    if g.untapped(status, p, exception) == Some(false) {
        let q = choose|q: Name| #[trigger] g.taps(q, p) && g.cut_by(status, q, exception) == Some(true);
        assert(settles(g.cut_by(status, q, exception), g.cut_by(later, q, exception)));
        assert(g.taps(q, p) && g.cut_by(later, q, exception) == Some(true));
    } else if g.untapped(status, p, exception) == Some(true) {
        assert forall|q: Name| #[trigger] g.taps(q, p) implies g.cut_by(later, q, exception) == Some(false) by {
            assert(settles(g.cut_by(status, q, exception), g.cut_by(later, q, exception)));
            assert(g.cut_by(status, q, exception) == Some(false));
        }
    }
}

/// As orders are resolved, a decision on a move stands.
pub proof fn law_move_verdict_settles(g: Position, status: Status, later: Status, p: Name)
    requires
        g.orders.dom().finite(),
        status.submap_of(later),
    ensures
        settles(g.move_verdict(status, p), g.move_verdict(later, p)),
{
    let d = g.dest_of(p);
    law_attack_strength_narrows(g, status, later, p);
    law_attack_strength_is_interval(g, later, p);
    law_hold_strength_narrows(g, status, later, d);
    law_hold_strength_is_interval(g, later, d);
    law_head_to_head_settles(g, status, later, p);
    law_defend_strength_narrows(g, status, later, d);
    law_defend_strength_is_interval(g, later, d);
    let attack0 = g.attack_strength(status, p);
    let attack1 = g.attack_strength(later, p);
    if d != p {
        if g.move_stopped(status, p) {
            if attack0.max <= g.hold_strength(status, d).min {
            } else if g.facing(status, p) is Some && attack0.max <= g.facing(status, p).unwrap().min {
            } else {
                let q = choose|q: Name| #[trigger] g.rival(q, p) && attack0.max <= g.prevent_strength(status, q).min;
                law_prevent_strength_narrows(g, status, later, q);
                assert(g.rival(q, p) && attack1.max <= g.prevent_strength(later, q).min);
            }
            assert(g.move_stopped(later, p));
        } else if g.move_prevails(status, p) {
            assert forall|q: Name| #[trigger] g.rival(q, p) implies attack1.min > g.prevent_strength(later, q).max
                && attack1.max > g.prevent_strength(later, q).min by {
                law_prevent_strength_narrows(g, status, later, q);
                law_prevent_strength_is_interval(g, later, q);
            }
            assert(g.move_prevails(later, p));
            assert(!g.move_stopped(later, p));
        }
    }
}

/// Soundness of the three-valued logic: a verdict reached from part of what
/// will be known is the verdict reached from all of it.
pub proof fn law_verdict_settles(g: Position, status: Status, later: Status, p: Name)
    requires
        g.orders.dom().finite(),
        status.submap_of(later),
    ensures
        settles(g.verdict(status, p), g.verdict(later, p)),
{
    law_undislodged_settles(g, status, later, p);
    law_move_verdict_settles(g, status, later, p);
    match g.orders[p] {
        OrderView::SupportMove { src, dest } => {
            law_untapped_settles(g, status, later, p, Some(dest));
        },
        _ => {
            law_untapped_settles(g, status, later, p, None);
        },
    }
}

// -------------------------------------------------------------------
// Resolution only adds

/// Looking at one more order changes no outcome that was known.
pub proof fn law_step_only_adds(g: Position, status: Status, p: Name)
    ensures
        status.submap_of(g.step(status, p)),
{
}

/// A pass changes no outcome that was known.
pub proof fn law_pass_only_adds(g: Position, order: Seq<Name>, status: Status, n: nat)
    ensures
        status.submap_of(g.pass(order, status, n)),
    decreases n,
{
    if n > 0 {
        law_pass_only_adds(g, order, status, (n - 1) as nat);
        let before = g.pass(order, status, (n - 1) as nat);
        law_step_only_adds(g, before, order[n - 1]);
        vstd::map_lib::lemma_submap_of_trans(status, before, g.step(before, order[n - 1]));
    }
}

/// Breaking cycles changes no outcome that was known.
pub proof fn law_break_cycles_only_adds(g: Position, order: Seq<Name>, status: Status, fuel: nat)
    ensures
        status.submap_of(g.break_cycles_within(order, status, fuel)),
    decreases fuel,
{
    if fuel > 0 {
        match g.first_cycle(order, status, 0) {
            None => {},
            Some(cycle) => {
                let next = settle(status, cycle, true);
                law_break_cycles_only_adds(g, order, next, (fuel - 1) as nat);
                vstd::map_lib::lemma_submap_of_trans(
                    status,
                    next,
                    g.break_cycles_within(order, next, (fuel - 1) as nat),
                );
            },
        }
    }
}

/// A round changes no outcome that was known.
pub proof fn law_round_only_adds(g: Position, order: Seq<Name>, status: Status)
    ensures
        status.submap_of(g.round(order, status)),
{
    let passed = g.pass(order, status, order.len());
    law_pass_only_adds(g, order, status, order.len());
    let uncycled = g.break_cycles(order, passed);
    law_break_cycles_only_adds(g, order, passed, g.unresolved(passed).len());
    vstd::map_lib::lemma_submap_of_trans(status, passed, uncycled);
    vstd::map_lib::lemma_submap_of_trans(status, uncycled, g.break_convoys(uncycled));
}

/// Monotonicity of the order status: from round to round no entry is
/// removed or changes its value.
pub proof fn law_resolution_only_adds(g: Position, order: Seq<Name>, status: Status, fuel: nat)
    ensures
        status.submap_of(g.resolve(order, status, fuel)),
    decreases fuel,
{
    if fuel > 0 && status.dom().len() != g.orders.dom().len() {
        let next = g.round(order, status);
        law_round_only_adds(g, order, status);
        if next.dom().len() != status.dom().len() {
            law_resolution_only_adds(g, order, next, (fuel - 1) as nat);
            vstd::map_lib::lemma_submap_of_trans(status, next, g.resolve(order, next, (fuel - 1) as nat));
        }
    }
}

/// What a pass resolves is sound: at the end of the pass, each order that
/// the pass resolved has, from all that is then known, the verdict it was
/// given.
pub proof fn law_pass_is_sound(g: Position, order: Seq<Name>, status: Status, n: nat, p: Name)
    requires
        g.orders.dom().finite(),
        g.pass(order, status, n).contains_key(p),
        !status.contains_key(p),
    ensures
        g.verdict(g.pass(order, status, n), p) == Some(g.pass(order, status, n)[p]),
    decreases n,
{
    if n > 0 {
        let before = g.pass(order, status, (n - 1) as nat);
        let after = g.pass(order, status, n);
        law_step_only_adds(g, before, order[n - 1]);
        if before.contains_key(p) {
            law_pass_is_sound(g, order, status, (n - 1) as nat, p);
            law_verdict_settles(g, before, after, p);
        } else {
            let seen = g.restricted(before, p);
            assert(seen.submap_of(before));
            vstd::map_lib::lemma_submap_of_trans(seen, before, after);
            law_verdict_settles(g, seen, after, p);
        }
    }
}

// -------------------------------------------------------------------
// Resolution runs its course

/// A pass resolves orders only.
pub proof fn lemma_pass_stays_with_orders(g: Position, order: Seq<Name>, status: Status, n: nat)
    requires
        forall|j: int| 0 <= j < order.len() ==> g.orders.contains_key(#[trigger] order[j]),
        status.dom().subset_of(g.orders.dom()),
        n <= order.len(),
    ensures
        g.pass(order, status, n).dom().subset_of(g.orders.dom()),
    decreases n,
{
    if n > 0 {
        lemma_pass_stays_with_orders(g, order, status, (n - 1) as nat);
        assert(g.orders.contains_key(order[n - 1]));
    }
}

/// Breaking cycles resolves orders only.
pub proof fn lemma_break_cycles_stays_with_orders(g: Position, order: Seq<Name>, status: Status, fuel: nat)
    requires
        forall|j: int| 0 <= j < order.len() ==> g.orders.contains_key(#[trigger] order[j]),
        status.dom().subset_of(g.orders.dom()),
    ensures
        g.break_cycles_within(order, status, fuel).dom().subset_of(g.orders.dom()),
    decreases fuel,
{
    if fuel > 0 {
        match g.first_cycle(order, status, 0) {
            None => {},
            Some(cycle) => {
                let start = lemma_first_cycle(g, order, status, 0);
                lemma_break_cycles_stays_with_orders(g, order, settle(status, cycle, true), (fuel - 1) as nat);
            },
        }
    }
}

/// A round resolves orders only.
pub proof fn lemma_round_stays_with_orders(g: Position, order: Seq<Name>, status: Status)
    requires
        forall|j: int| 0 <= j < order.len() ==> g.orders.contains_key(#[trigger] order[j]),
        status.dom().subset_of(g.orders.dom()),
    ensures
        g.round(order, status).dom().subset_of(g.orders.dom()),
{
    let passed = g.pass(order, status, order.len());
    lemma_pass_stays_with_orders(g, order, status, order.len());
    let uncycled = g.break_cycles(order, passed);
    lemma_break_cycles_stays_with_orders(g, order, passed, g.unresolved(passed).len());
    assert(g.break_convoys(uncycled).dom().subset_of(g.orders.dom())) by {
        assert forall|q: Name| g.disrupted(uncycled, q) implies g.orders.contains_key(q) by {}
    }
}

/// Whether resolution has come to rest in `status`: every order is
/// resolved, or a further round resolves nothing.
pub open spec fn at_rest(g: Position, order: Seq<Name>, status: Status) -> bool {
    status.dom().len() == g.orders.dom().len() || g.round(order, status).dom().len() == status.dom().len()
}

/// With as many rounds as there are unresolved orders, and one, resolution
/// is never cut short: it resolves orders only, and ends at rest.
pub proof fn law_resolution_runs_its_course(g: Position, order: Seq<Name>, status: Status, fuel: nat)
    requires
        g.orders.dom().finite(),
        forall|j: int| 0 <= j < order.len() ==> g.orders.contains_key(#[trigger] order[j]),
        status.dom().subset_of(g.orders.dom()),
        fuel + status.dom().len() >= g.orders.dom().len() + 1,
    ensures
        g.resolve(order, status, fuel).dom().subset_of(g.orders.dom()),
        at_rest(g, order, g.resolve(order, status, fuel)),
    decreases fuel,
{
    vstd::set_lib::lemma_len_subset(status.dom(), g.orders.dom());
    if status.dom().len() != g.orders.dom().len() {
        let next = g.round(order, status);
        law_round_only_adds(g, order, status);
        lemma_round_stays_with_orders(g, order, status);
        vstd::set_lib::lemma_len_subset(next.dom(), g.orders.dom());
        assert(status.dom().subset_of(next.dom()));
        vstd::set_lib::lemma_len_subset(status.dom(), next.dom());
        if next.dom().len() != status.dom().len() {
            law_resolution_runs_its_course(g, order, next, (fuel - 1) as nat);
        } else {
            assert(next.dom() =~= status.dom()) by {
                vstd::set_lib::lemma_subset_equality(status.dom(), next.dom());
            }
            assert(next =~= status);
        }
    }
}

/// The outcome of a phase is at rest: every order is resolved, or neither a
/// pass nor a paradox breaker resolves another.
pub proof fn law_adjudication_is_at_rest(g: Position, order: Seq<Name>)
    requires
        g.orders.dom().finite(),
        forall|j: int| 0 <= j < order.len() ==> g.orders.contains_key(#[trigger] order[j]),
    ensures
        g.adjudication(order).dom().subset_of(g.orders.dom()),
        at_rest(g, order, g.adjudication(order)),
{
    law_resolution_runs_its_course(g, order, Map::empty(), g.orders.dom().len() + 1);
}

// -------------------------------------------------------------------
// The dependencies of an order are all that its verdict rests on

/// Whether two statuses know the same of the order in `q`.
pub open spec fn same_of(a: Status, b: Status, q: Name) -> bool {
    known(a, q) == known(b, q)
}

proof fn lemma_convoy_path_same(g: Position, a: Status, b: Status, s: Name)
    requires
        forall|q: Name|
            g.orders.contains_key(q) && g.orders[q].is_convoy_for(s, g.dest_of(s)) ==> #[trigger] same_of(a, b, q),
    ensures
        g.convoy_path(a, s) == g.convoy_path(b, s),
        g.path(a, s) == g.path(b, s),
{
    let d = g.dest_of(s);
    assert forall|sure: bool| #[trigger] g.convoy_fleets(a, s, d, sure) == g.convoy_fleets(b, s, d, sure) by {
        assert forall|q: Name|
            g.convoy_fleets(a, s, d, sure).contains(q) <==> g.convoy_fleets(b, s, d, sure).contains(q) by {
            if g.orders.contains_key(q) && g.orders[q].is_convoy_for(s, d) {
                assert(same_of(a, b, q));
            }
        }
        assert(g.convoy_fleets(a, s, d, sure) =~= g.convoy_fleets(b, s, d, sure));
    }
    assert(g.convoy_fleets(a, s, d, true) == g.convoy_fleets(b, s, d, true));
    assert(g.convoy_fleets(a, s, d, false) == g.convoy_fleets(b, s, d, false));
}

proof fn lemma_head_to_head_same(g: Position, a: Status, b: Status, s: Name)
    requires
        forall|q: Name|
            g.orders.contains_key(q) && g.orders[q].is_convoy_for(s, g.dest_of(s)) ==> #[trigger] same_of(a, b, q),
        forall|q: Name|
            g.moves_to(g.dest_of(s), s) && g.orders.contains_key(q) && g.orders[q].is_convoy_for(g.dest_of(s), s)
                ==> #[trigger] same_of(a, b, q),
    ensures
        g.head_to_head(a, s) == g.head_to_head(b, s),
{
    let d = g.dest_of(s);
    lemma_convoy_path_same(g, a, b, s);
    if g.moves_to(d, s) {
        assert(g.dest_of(d) == s);
        lemma_convoy_path_same(g, a, b, d);
    }
}

proof fn lemma_hold_strength_same(g: Position, a: Status, b: Status, t: Name)
    requires
        g.is_mover(t) ==> same_of(a, b, t),
        forall|q: Name|
            !g.is_mover(t) && g.orders.contains_key(q) && g.orders[q].is_support_hold_of(t) ==> #[trigger] same_of(
                a,
                b,
                q,
            ),
    ensures
        g.hold_strength(a, t) == g.hold_strength(b, t),
{
    if !g.is_mover(t) {
        assert forall|sure: bool|
            g.orders.dom().filter(#[trigger] g.hold_support(a, t, sure)) == g.orders.dom().filter(
                g.hold_support(b, t, sure),
            ) by {
            let x = g.orders.dom().filter(g.hold_support(a, t, sure));
            let y = g.orders.dom().filter(g.hold_support(b, t, sure));
            assert forall|q: Name| x.contains(q) <==> y.contains(q) by {
                if g.orders.contains_key(q) && g.orders[q].is_support_hold_of(t) {
                    assert(same_of(a, b, q));
                }
            }
            assert(x =~= y);
        }
        assert(g.orders.dom().filter(g.hold_support(a, t, true)) == g.orders.dom().filter(
            g.hold_support(b, t, true),
        ));
        assert(g.orders.dom().filter(g.hold_support(a, t, false)) == g.orders.dom().filter(
            g.hold_support(b, t, false),
        ));
    }
}

proof fn lemma_defend_strength_same(g: Position, a: Status, b: Status, s: Name)
    requires
        forall|q: Name|
            g.orders.contains_key(q) && g.orders[q].is_convoy_for(s, g.dest_of(s)) ==> #[trigger] same_of(a, b, q),
        forall|q: Name|
            g.orders.contains_key(q) && g.orders[q].is_support_to(s, g.dest_of(s)) ==> #[trigger] same_of(a, b, q),
    ensures
        g.defend_strength(a, s) == g.defend_strength(b, s),
{
    let d = g.dest_of(s);
    lemma_convoy_path_same(g, a, b, s);
    assert forall|sure: bool|
        g.orders.dom().filter(#[trigger] g.move_support(a, s, d, sure)) == g.orders.dom().filter(
            g.move_support(b, s, d, sure),
        ) by {
        let x = g.orders.dom().filter(g.move_support(a, s, d, sure));
        let y = g.orders.dom().filter(g.move_support(b, s, d, sure));
        assert forall|q: Name| x.contains(q) <==> y.contains(q) by {
            if g.orders.contains_key(q) && g.orders[q].is_support_to(s, d) {
                assert(same_of(a, b, q));
            }
        }
        assert(x =~= y);
    }
    assert(g.orders.dom().filter(g.move_support(a, s, d, true)) == g.orders.dom().filter(
        g.move_support(b, s, d, true),
    ));
    assert(g.orders.dom().filter(g.move_support(a, s, d, false)) == g.orders.dom().filter(
        g.move_support(b, s, d, false),
    ));
}

proof fn lemma_prevent_strength_same(g: Position, a: Status, b: Status, s: Name)
    requires
        forall|q: Name|
            g.orders.contains_key(q) && g.orders[q].is_convoy_for(s, g.dest_of(s)) ==> #[trigger] same_of(a, b, q),
        forall|q: Name|
            g.orders.contains_key(q) && g.orders[q].is_support_to(s, g.dest_of(s)) ==> #[trigger] same_of(a, b, q),
        forall|q: Name|
            g.moves_to(g.dest_of(s), s) && g.orders.contains_key(q) && g.orders[q].is_convoy_for(g.dest_of(s), s)
                ==> #[trigger] same_of(a, b, q),
        g.moves_to(g.dest_of(s), s) ==> same_of(a, b, g.dest_of(s)),
    ensures
        g.prevent_strength(a, s) == g.prevent_strength(b, s),
{
    lemma_defend_strength_same(g, a, b, s);
    lemma_head_to_head_same(g, a, b, s);
}

proof fn lemma_attack_strength_same(g: Position, a: Status, b: Status, s: Name)
    requires
        forall|q: Name|
            g.orders.contains_key(q) && g.orders[q].is_convoy_for(s, g.dest_of(s)) ==> #[trigger] same_of(a, b, q),
        forall|q: Name|
            g.orders.contains_key(q) && g.orders[q].is_support_to(s, g.dest_of(s)) ==> #[trigger] same_of(a, b, q),
        g.is_mover(g.dest_of(s)) ==> same_of(a, b, g.dest_of(s)),
    ensures
        g.attack_strength(a, s) == g.attack_strength(b, s),
{
    let d = g.dest_of(s);
    lemma_convoy_path_same(g, a, b, s);
    assert(g.occupant(a, d) == g.occupant(b, d));
    assert(g.occupant_certain(a, d) == g.occupant_certain(b, d));
    assert forall|sure: bool|
        g.orders.dom().filter(#[trigger] g.attack_support(a, s, d, sure)) == g.orders.dom().filter(
            g.attack_support(b, s, d, sure),
        ) by {
        let x = g.orders.dom().filter(g.attack_support(a, s, d, sure));
        let y = g.orders.dom().filter(g.attack_support(b, s, d, sure));
        assert forall|q: Name| x.contains(q) <==> y.contains(q) by {
            if g.orders.contains_key(q) && g.orders[q].is_support_to(s, d) {
                assert(same_of(a, b, q));
            }
        }
        assert(x =~= y);
    }
    assert(g.orders.dom().filter(g.attack_support(a, s, d, true)) == g.orders.dom().filter(
        g.attack_support(b, s, d, true),
    ));
    assert(g.orders.dom().filter(g.attack_support(a, s, d, false)) == g.orders.dom().filter(
        g.attack_support(b, s, d, false),
    ));
}

proof fn lemma_undislodged_same(g: Position, a: Status, b: Status, p: Name)
    requires
        forall|q: Name| g.moves_to(q, p) ==> #[trigger] same_of(a, b, q),
    ensures
        g.undislodged(a, p) == g.undislodged(b, p),
{
    assert forall|q: Name| #[trigger] g.moves_to(q, p) implies known(a, q) == known(b, q) by {
        assert(same_of(a, b, q));
    }
}

proof fn lemma_untapped_same(g: Position, a: Status, b: Status, p: Name, exception: Option<Name>)
    requires
        forall|q: Name| g.taps(q, p) ==> #[trigger] same_of(a, b, q),
        forall|q: Name, src: Name|
            g.taps(src, p) && g.orders.contains_key(q) && #[trigger] g.orders[q].is_convoy_for(src, p) ==> same_of(
                a,
                b,
                q,
            ),
    ensures
        g.untapped(a, p, exception) == g.untapped(b, p, exception),
{
    assert forall|src: Name| #[trigger] g.taps(src, p) implies g.cut_by(a, src, exception) == g.cut_by(
        b,
        src,
        exception,
    ) by {
        assert(same_of(a, b, src));
        assert(g.dest_of(src) == p);
        assert forall|q: Name|
            g.orders.contains_key(q) && g.orders[q].is_convoy_for(src, g.dest_of(src)) implies #[trigger] same_of(
            a,
            b,
            q,
        ) by {
            assert(g.orders[q].is_convoy_for(src, p));
        }
        lemma_convoy_path_same(g, a, b, src);
    }
}

proof fn lemma_move_verdict_same(g: Position, a: Status, b: Status, p: Name)
    requires
        g.is_mover(p),
        forall|q: Name| g.orders.contains_key(q) && g.move_rests_on(p, g.dest_of(p))(q) ==> #[trigger] same_of(a, b, q),
    ensures
        g.move_verdict(a, p) == g.move_verdict(b, p),
{
    let d = g.dest_of(p);
    if d != p {
        assert(g.moves_to(p, d));
        lemma_attack_strength_same(g, a, b, p);
        lemma_hold_strength_same(g, a, b, d);
        lemma_head_to_head_same(g, a, b, p);
        if g.moves_to(d, p) {
            assert(g.dest_of(d) == p);
            lemma_defend_strength_same(g, a, b, d);
        }
        assert forall|q: Name| #[trigger] g.rival(q, p) implies g.prevent_strength(a, q) == g.prevent_strength(
            b,
            q,
        ) by {
            assert(g.dest_of(q) == d);
            lemma_prevent_strength_same(g, a, b, q);
        }
    }
}

/// The dependencies of an order are all that its verdict rests on: the
/// verdict from what is known of the dependencies alone is the verdict from
/// all that is known.
pub proof fn law_deps_suffice(g: Position, status: Status, p: Name)
    requires
        g.orders.contains_key(p),
    ensures
        g.verdict(g.restricted(status, p), p) == g.verdict(status, p),
{
    let seen = g.restricted(status, p);
    assert forall|q: Name| g.deps(p).contains(q) implies #[trigger] same_of(seen, status, q) by {}
    match g.orders[p] {
        OrderView::Hold => {
            lemma_undislodged_same(g, seen, status, p);
        },
        OrderView::Move { dest } => {
            if dest.0 != p {
                lemma_move_verdict_same(g, seen, status, p);
            }
        },
        OrderView::SupportHold { target } => {
            if g.hold_supportable(p, target) {
                lemma_untapped_same(g, seen, status, p, None);
            }
        },
        OrderView::SupportMove { src, dest } => {
            if g.move_supportable(p, src, dest) {
                lemma_untapped_same(g, seen, status, p, Some(dest));
            }
        },
        OrderView::Convoy { src, dest } => {
            if g.is_sea(p) {
                lemma_undislodged_same(g, seen, status, p);
            }
        },
        OrderView::Core => {
            lemma_untapped_same(g, seen, status, p, None);
        },
    }
}

} // verus!
