//! How a whole movement phase is resolved: passes over the orders until
//! nothing more is learnt, then the two paradox breakers.

use vstd::prelude::*;
use crate::graph::reachable;
use crate::model::{known, Position, Status};
use crate::text::Name;

verus! {

/// `status` with every province of `provinces` that was unresolved resolved
/// to `outcome`; what was resolved before stays as it was.
pub open spec fn settle(status: Status, provinces: Set<Name>, outcome: bool) -> Status {
    Map::new(
        |q: Name| status.contains_key(q) || provinces.contains(q),
        |q: Name|
            if status.contains_key(q) {
                status[q]
            } else {
                outcome
            },
    )
}

impl Position {
    /// The orders that `status` has not resolved.
    pub open spec fn unresolved(self, status: Status) -> Set<Name> {
        self.orders.dom().filter(|q: Name| !status.contains_key(q))
    }

    // ---------------------------------------------------------------
    // Passes

    /// What the order in `p` gets to see: the outcomes of the orders it
    /// depends on, as far as they are resolved.
    pub open spec fn restricted(self, status: Status, p: Name) -> Status {
        status.restrict(self.deps(p))
    }

    /// `status` after the order in `p` has been looked at: an unresolved
    /// order whose verdict is decided by what it gets to see is resolved.
    pub open spec fn step(self, status: Status, p: Name) -> Status {
        if status.contains_key(p) {
            status
        } else {
            match self.verdict(self.restricted(status, p), p) {
                Some(outcome) => status.insert(p, outcome),
                None => status,
            }
        }
    }

    /// `status` after the first `n` orders of `order` have been looked at,
    /// one after the other.
    pub open spec fn pass(self, order: Seq<Name>, status: Status, n: nat) -> Status
        decreases n,
    {
        if n == 0 {
            status
        } else {
            self.step(self.pass(order, status, (n - 1) as nat), order[n - 1])
        }
    }

    /// `status` after `k` passes over all orders.
    pub open spec fn passes(self, order: Seq<Name>, status: Status, k: nat) -> Status
        decreases k,
    {
        if k == 0 {
            status
        } else {
            self.pass(order, self.passes(order, status, (k - 1) as nat), order.len())
        }
    }

    // ---------------------------------------------------------------
    // Cycles of moves

    /// Whether the move ordered in `p` is sure to beat every other move to
    /// its destination: it is not known to fail, has a path, and its attack
    /// strength surely exceeds the prevent strength of each of them.
    pub open spec fn wins_place(self, status: Status, p: Name) -> bool {
        &&& self.is_mover(p)
        &&& known(status, p) != Some(false)
        &&& self.path(status, p) == Some(true)
        &&& forall|q: Name| #[trigger]
            self.rival(q, p) ==> self.attack_strength(status, p).min > self.prevent_strength(status, q).max
    }

    /// Whether `ring` is a cycle of moves: one province or more, none twice,
    /// each with a move that is sure of its destination, which is the next
    /// province of the ring, and for the last the first.
    pub open spec fn is_ring(self, status: Status, ring: Seq<Name>) -> bool {
        &&& ring.len() >= 1
        &&& ring.no_duplicates()
        &&& forall|i: int| 0 <= i < ring.len() ==> self.wins_place(status, #[trigger] ring[i])
        &&& forall|i: int| 0 <= i < ring.len() - 1 ==> self.dest_of(#[trigger] ring[i]) == ring[i + 1]
        &&& self.dest_of(ring.last()) == ring[0]
    }

    /// The walk from `cur` along the destinations of the moves, `seen` being
    /// the provinces passed since `start`. It yields the provinces passed
    /// once it is back at `start`, and nothing where a move on the way is
    /// not sure of its destination or the walk runs into itself elsewhere.
    pub open spec fn cycle_from(self, status: Status, start: Name, cur: Name, seen: Set<Name>, fuel: nat) -> Option<
        Set<Name>,
    >
        decreases fuel,
    {
        if fuel == 0 || !self.wins_place(status, cur) {
            None
        } else {
            let next = self.dest_of(cur);
            let passed = seen.insert(cur);
            if next == start {
                Some(passed)
            } else if passed.contains(next) {
                None
            } else {
                self.cycle_from(status, start, next, passed, (fuel - 1) as nat)
            }
        }
    }

    /// The cycle of moves that starts in `start`, if there is one.
    pub open spec fn cycle_at(self, status: Status, start: Name) -> Option<Set<Name>> {
        self.cycle_from(status, start, start, Set::empty(), self.orders.dom().len() + 1)
    }

    /// Whether a search for a cycle starts in `p`: an unresolved move.
    pub open spec fn starts_cycle(self, status: Status, p: Name) -> bool {
        !status.contains_key(p) && self.is_mover(p)
    }

    /// The first cycle found when starting from the orders of `order` in
    /// turn, from position `i` on.
    pub open spec fn first_cycle(self, order: Seq<Name>, status: Status, i: nat) -> Option<Set<Name>>
        decreases order.len() - i,
    {
        if i >= order.len() {
            None
        } else if self.starts_cycle(status, order[i as int]) && self.cycle_at(status, order[i as int]) is Some {
            self.cycle_at(status, order[i as int])
        } else {
            self.first_cycle(order, status, i + 1)
        }
    }

    /// `status` after cycles have been confirmed, one at a time, at most
    /// `fuel` of them.
    pub open spec fn break_cycles_within(self, order: Seq<Name>, status: Status, fuel: nat) -> Status
        decreases fuel,
    {
        if fuel == 0 {
            status
        } else {
            match self.first_cycle(order, status, 0) {
                None => status,
                Some(cycle) => self.break_cycles_within(order, settle(status, cycle, true), (fuel - 1) as nat),
            }
        }
    }

    /// `status` after every cycle of moves that can be found has been
    /// confirmed. Each cycle resolves an unresolved order, so there are no
    /// more cycles than unresolved orders.
    pub open spec fn break_cycles(self, order: Seq<Name>, status: Status) -> Status {
        self.break_cycles_within(order, status, self.unresolved(status).len())
    }

    // ---------------------------------------------------------------
    // Convoy paradoxes

    /// Whether the order in `a` depends on the order in `b`.
    pub open spec fn dep_link(self) -> spec_fn(Name, Name) -> bool {
        |a: Name, b: Name| self.orders.contains_key(a) && self.deps(a).contains(b)
    }

    /// Whether `q` holds a convoy that the order in `start` depends on,
    /// directly or through other orders.
    pub open spec fn in_component(self, start: Name) -> spec_fn(Name) -> bool {
        |q: Name| self.orders[q] is Convoy && reachable(self.dep_link(), start, q)
    }

    /// The convoys that the order in `start` depends on, directly or through
    /// other orders; `start` itself where it is a convoy.
    pub open spec fn component(self, start: Name) -> Set<Name> {
        self.orders.dom().filter(self.in_component(start))
    }

    /// Whether `c` holds a convoy that is not resolved.
    pub open spec fn open_convoy(self, status: Status, c: Name) -> bool {
        self.orders.contains_key(c) && self.orders[c] is Convoy && !status.contains_key(c)
    }

    /// Whether no unresolved convoy has a component with fewer convoys than
    /// that of `c`.
    pub open spec fn least_tangle(self, status: Status, c: Name) -> bool {
        forall|other: Name| #[trigger]
            self.open_convoy(status, other) ==> self.component(other).len() >= self.component(c).len()
    }

    /// Whether the convoy in `q` is disrupted: it belongs to the component
    /// of an unresolved convoy, and no unresolved convoy has a smaller one.
    pub open spec fn disrupted(self, status: Status, q: Name) -> bool {
        exists|c: Name| #[trigger]
            self.open_convoy(status, c) && self.least_tangle(status, c) && self.component(c).contains(q)
    }

    /// `status` with every disrupted convoy that was unresolved resolved to
    /// failure.
    pub open spec fn break_convoys(self, status: Status) -> Status {
        settle(status, Set::new(|q: Name| self.disrupted(status, q)), false)
    }

    // ---------------------------------------------------------------
    // The whole phase

    /// `status` after one round: a pass over all orders; where the pass
    /// learns nothing, cycles are broken; where that learns nothing either,
    /// convoys are disrupted.
    pub open spec fn round(self, order: Seq<Name>, status: Status) -> Status {
        let passed = self.pass(order, status, order.len());
        if passed.dom().len() != status.dom().len() {
            passed
        } else {
            let uncycled = self.break_cycles(order, passed);
            if uncycled.dom().len() != status.dom().len() {
                uncycled
            } else {
                self.break_convoys(uncycled)
            }
        }
    }

    /// `status` after resolution has run its course from it, in at most
    /// `fuel` rounds. It ends when every order is resolved or a round learns
    /// nothing.
    pub open spec fn resolve(self, order: Seq<Name>, status: Status, fuel: nat) -> Status
        decreases fuel,
    {
        if fuel == 0 || status.dom().len() == self.orders.dom().len() {
            status
        } else {
            let next = self.round(order, status);
            if next.dom().len() != status.dom().len() {
                self.resolve(order, next, (fuel - 1) as nat)
            } else {
                next
            }
        }
    }

    /// The outcome of the phase: what resolution arrives at from knowing
    /// nothing, the orders being looked at in the order `order`. Every round
    /// but the last resolves an order, so there are no more rounds than
    /// orders, and one.
    pub open spec fn adjudication(self, order: Seq<Name>) -> Status {
        self.resolve(order, Map::empty(), self.orders.dom().len() + 1)
    }
}

} // verus!
