//! The rules of a movement phase as mathematical functions of the position
//! and of what is known so far about the orders.

use vstd::prelude::*;
use crate::board::{GameMap, MapState, MapView, UnitView};
use crate::graph::reachable;
use crate::order::{OrderView, Orders};
use crate::text::Name;

verus! {

/// What is known of the orders: a resolved order is bound to its outcome,
/// an unresolved order is absent.
pub type Status = Map<Name, bool>;

/// The outcome of the order given in `q`, if it is known.
pub open spec fn known(status: Status, q: Name) -> Option<bool> {
    if status.contains_key(q) {
        Some(status[q])
    } else {
        None
    }
}

/// Whether the support given by `q` counts: for a lower bound only a support
/// known to succeed, for an upper bound every support not known to fail.
pub open spec fn backs(status: Status, q: Name, sure: bool) -> bool {
    if sure {
        known(status, q) == Some(true)
    } else {
        known(status, q) != Some(false)
    }
}

/// A strength under partial knowledge: at least `min`, at most `max`.
pub struct Interval {
    pub min: nat,
    pub max: nat,
}

/// The strength that is exactly `n`.
pub open spec fn exactly(n: nat) -> Interval {
    Interval { min: n, max: n }
}

/// The empty name: no coast.
pub open spec fn no_coast() -> Name {
    Seq::empty()
}

/// Whether a fleet may sail from sea `a` to sea `b`, no coast at either end.
pub open spec fn sea_link(map: MapView, a: Name, b: Name) -> bool {
    map.fleet_adj.contains(((a, no_coast()), (b, no_coast())))
}

/// One hop of a convoy out of `src`: on to a neighbouring fleet of `fleets`,
/// which is never the source itself.
pub open spec fn hop(map: MapView, src: Name, fleets: Set<Name>) -> spec_fn(Name, Name) -> bool {
    |a: Name, b: Name| sea_link(map, a, b) && fleets.contains(b) && b != src
}

/// Whether a chain of one or more of `fleets`, each next to the one before,
/// joins `src` to `dest`.
pub open spec fn chain_along(map: MapView, src: Name, dest: Name, fleets: Set<Name>) -> bool {
    exists|last: Name|
        last != src && #[trigger] reachable(hop(map, src, fleets), src, last) && sea_link(map, last, dest)
}

/// Whether the unit in `p` could enter `t`, coasts of `t` apart.
pub open spec fn reaches(map: MapView, units: Map<Name, UnitView>, p: Name, t: Name) -> bool {
    match units[p] {
        UnitView::Army(_) => map.army_adj.contains((p, t)),
        UnitView::Fleet(_, coast) => map.fleet_adj.contains(((p, coast), (t, no_coast()))),
    }
}

/// A board with the orders given on it.
pub struct Position {
    pub map: MapView,
    pub units: Map<Name, UnitView>,
    pub orders: Map<Name, OrderView>,
}

/// The position that a map, a board state and a set of orders make up.
pub open spec fn position(map: &GameMap, state: &MapState, orders: &Orders) -> Position {
    Position { map: map@, units: state.units@, orders: orders@ }
}

impl Position {
    /// Every order is given to a unit, every move goes to a province of the
    /// map, and the orders are few enough to be counted in 32 bits.
    pub open spec fn valid(self) -> bool {
        &&& self.orders.dom().finite()
        &&& self.orders.dom().len() < u32::MAX
        &&& forall|q: Name| #[trigger] self.orders.contains_key(q) ==> self.units.contains_key(q)
        &&& forall|q: Name| #[trigger]
            self.orders.contains_key(q) && self.orders[q] is Move ==> self.map.provinces.contains_key(
                self.orders[q].move_dest(),
            )
    }

    /// Whether the unit in `q` is ordered to move.
    pub open spec fn is_mover(self, q: Name) -> bool {
        self.orders.contains_key(q) && self.orders[q] is Move
    }

    /// Whether the unit in `q` is ordered to move to `d`.
    pub open spec fn moves_to(self, q: Name, d: Name) -> bool {
        self.orders.contains_key(q) && self.orders[q].is_move_to(d)
    }

    /// The province that the move ordered in `q` goes to.
    pub open spec fn dest_of(self, q: Name) -> Name {
        self.orders[q].move_dest()
    }

    /// The nationality of the unit in `q`.
    pub open spec fn nation_at(self, q: Name) -> Name {
        self.units[q].nation()
    }

    /// Whether `q` is a sea province of the map.
    pub open spec fn is_sea(self, q: Name) -> bool {
        self.map.provinces.contains_key(q) && self.map.provinces[q].is_sea
    }

    /// Whether the unit in `p` could enter `t`, coasts of `t` apart.
    pub open spec fn can_reach(self, p: Name, t: Name) -> bool {
        reaches(self.map, self.units, p, t)
    }

    // ---------------------------------------------------------------
    // Paths

    /// Whether `coast` names a coast of `d`: one that is listed, or none
    /// where none is listed.
    pub open spec fn coast_ok(self, d: Name, coast: Name) -> bool {
        let coasts = self.map.provinces[d].coasts;
        coasts.contains(coast) || (coast == no_coast() && coasts == Set::<Name>::empty())
    }

    /// Whether the mover in `s` is adjacent to its destination.
    pub open spec fn direct_path(self, s: Name) -> bool {
        let d = self.orders[s].move_dest();
        let coast = self.orders[s].move_coast();
        match self.units[s] {
            UnitView::Army(_) => self.map.army_adj.contains((s, d)),
            UnitView::Fleet(_, from) => self.coast_ok(d, coast) && self.map.fleet_adj.contains(
                ((s, from), (d, coast)),
            ),
        }
    }

    /// Whether `q` holds a fleet at sea that is ordered to convoy `s` to `d`
    /// and, as far as known, does so: with `sure`, only where the convoy is
    /// known to succeed; without, also where its outcome is open.
    pub open spec fn carries(self, status: Status, s: Name, d: Name, sure: bool) -> spec_fn(Name) -> bool {
        |q: Name| self.orders[q].is_convoy_for(s, d) && self.is_sea(q) && backs(status, q, sure)
    }

    /// The fleets that carry the move from `s` to `d`.
    pub open spec fn convoy_fleets(self, status: Status, s: Name, d: Name, sure: bool) -> Set<Name> {
        self.orders.dom().filter(self.carries(status, s, d, sure))
    }

    /// Whether the mover in `s` has a convoyed path: yes where a chain of
    /// fleets known to convoy joins it to its destination, open where only a
    /// chain of fleets not known to fail does, no otherwise. A fleet is never
    /// convoyed, and nothing is convoyed to a sea.
    pub open spec fn convoy_path(self, status: Status, s: Name) -> Option<bool> {
        let d = self.dest_of(s);
        if self.units[s] is Fleet {
            Some(false)
        } else if self.map.provinces[d].is_sea {
            Some(false)
        } else if chain_along(self.map, s, d, self.convoy_fleets(status, s, d, true)) {
            Some(true)
        } else if chain_along(self.map, s, d, self.convoy_fleets(status, s, d, false)) {
            None
        } else {
            Some(false)
        }
    }

    /// Whether the mover in `s` has a path, direct or convoyed.
    pub open spec fn path(self, status: Status, s: Name) -> Option<bool> {
        if self.direct_path(s) {
            Some(true)
        } else {
            self.convoy_path(status, s)
        }
    }

    /// Whether the mover in `s` and a mover coming the other way meet head
    /// to head: neither of the two is convoyed.
    pub open spec fn head_to_head(self, status: Status, s: Name) -> Option<bool> {
        let d = self.dest_of(s);
        if !self.moves_to(d, s) {
            Some(false)
        } else {
            let here = self.convoy_path(status, s);
            let there = self.convoy_path(status, d);
            if here == Some(true) || there == Some(true) {
                Some(false)
            } else if here is None || there is None {
                None
            } else {
                Some(true)
            }
        }
    }

    // ---------------------------------------------------------------
    // Strengths

    /// The supports for the unit in `t` to hold that count.
    pub open spec fn hold_support(self, status: Status, t: Name, sure: bool) -> spec_fn(Name) -> bool {
        |q: Name| self.orders[q].is_support_hold_of(t) && backs(status, q, sure)
    }

    /// The strength with which `t` is held.
    pub open spec fn hold_strength(self, status: Status, t: Name) -> Interval {
        if !self.units.contains_key(t) {
            exactly(0)
        } else if self.is_mover(t) {
            match known(status, t) {
                Some(true) => exactly(0),
                Some(false) => exactly(1),
                None => Interval { min: 0, max: 1 },
            }
        } else {
            Interval {
                min: 1 + self.orders.dom().filter(self.hold_support(status, t, true)).len(),
                max: 1 + self.orders.dom().filter(self.hold_support(status, t, false)).len(),
            }
        }
    }

    /// The supports for the move from `s` to `d` that count.
    pub open spec fn move_support(self, status: Status, s: Name, d: Name, sure: bool) -> spec_fn(Name) -> bool {
        |q: Name| self.orders[q].is_support_to(s, d) && backs(status, q, sure)
    }

    /// The strength with which the mover in `s` defends its place in a
    /// head-to-head battle.
    pub open spec fn defend_strength(self, status: Status, s: Name) -> Interval {
        let d = self.dest_of(s);
        let path = self.path(status, s);
        if path == Some(false) {
            exactly(0)
        } else {
            Interval {
                min: if path is None {
                    0
                } else {
                    1 + self.orders.dom().filter(self.move_support(status, s, d, true)).len()
                },
                max: 1 + self.orders.dom().filter(self.move_support(status, s, d, false)).len(),
            }
        }
    }

    /// The strength with which the mover in `s` keeps others out of its
    /// destination.
    pub open spec fn prevent_strength(self, status: Status, s: Name) -> Interval {
        let defend = self.defend_strength(status, s);
        let other = known(status, self.dest_of(s));
        match self.head_to_head(status, s) {
            Some(false) => defend,
            None => Interval { min: if other == Some(false) { defend.min } else { 0 }, max: defend.max },
            Some(true) => Interval {
                min: if other == Some(false) { defend.min } else { 0 },
                max: if other == Some(true) { 0 } else { defend.max },
            },
        }
    }

    /// The nationality that may be found in `d` once the moves are made:
    /// none where `d` is empty or its unit is known to leave.
    pub open spec fn occupant(self, status: Status, d: Name) -> Option<Name> {
        if !self.units.contains_key(d) {
            None
        } else if self.is_mover(d) && known(status, d) == Some(true) {
            None
        } else {
            Some(self.nation_at(d))
        }
    }

    /// Whether it is settled who will be found in `d`.
    pub open spec fn occupant_certain(self, status: Status, d: Name) -> bool {
        !self.is_mover(d) || known(status, d) is Some
    }

    /// The supports for the attack from `s` on `d` that count. A support
    /// against a unit of the supporter's own nationality does not.
    pub open spec fn attack_support(self, status: Status, s: Name, d: Name, sure: bool) -> spec_fn(Name) -> bool {
        |q: Name|
            self.orders[q].is_support_to(s, d) && backs(status, q, sure) && if sure {
                self.occupant(status, d) != Some(self.nation_at(q))
            } else {
                !self.occupant_certain(status, d) || self.occupant(status, d) != Some(self.nation_at(q))
            }
    }

    /// The strength with which the mover in `s` attacks its destination.
    pub open spec fn attack_strength(self, status: Status, s: Name) -> Interval {
        let d = self.dest_of(s);
        let path = self.path(status, s);
        let own = self.occupant(status, d) == Some(self.nation_at(s));
        if path == Some(false) {
            exactly(0)
        } else if own && self.occupant_certain(status, d) {
            exactly(0)
        } else {
            Interval {
                min: if path is None || own {
                    0
                } else {
                    1 + self.orders.dom().filter(self.attack_support(status, s, d, true)).len()
                },
                max: 1 + self.orders.dom().filter(self.attack_support(status, s, d, false)).len(),
            }
        }
    }

    // ---------------------------------------------------------------
    // Verdicts

    /// Whether the unit in `p` stays in place: no where a move into `p` is
    /// known to succeed, open where one may, yes otherwise.
    pub open spec fn undislodged(self, status: Status, p: Name) -> Option<bool> {
        if exists|q: Name| #[trigger] self.moves_to(q, p) && known(status, q) == Some(true) {
            Some(false)
        } else if exists|q: Name| #[trigger] self.moves_to(q, p) && known(status, q) is None {
            None
        } else {
            Some(true)
        }
    }

    /// Whether the mover in `q` could cut a support given from `p`: it
    /// moves to `p` and is of another nationality.
    pub open spec fn taps(self, q: Name, p: Name) -> bool {
        self.moves_to(q, p) && self.nation_at(q) != self.nation_at(p)
    }

    /// Whether the mover in `q` reaches the supporter: whether it has a
    /// path. The mover that comes out of `exception`, the destination of the
    /// supported move, never does.
    pub open spec fn cut_by(self, status: Status, q: Name, exception: Option<Name>) -> Option<bool> {
        if exception == Some(q) {
            Some(false)
        } else {
            self.path(status, q)
        }
    }

    /// Whether the support given from `p` is uncut: no where a mover of
    /// another nationality is known to reach `p`, open where one may, yes
    /// otherwise. An attack out of `exception` does not count.
    pub open spec fn untapped(self, status: Status, p: Name, exception: Option<Name>) -> Option<bool> {
        if exists|q: Name| #[trigger] self.taps(q, p) && self.cut_by(status, q, exception) == Some(true) {
            Some(false)
        } else if exists|q: Name| #[trigger] self.taps(q, p) && self.cut_by(status, q, exception) is None {
            None
        } else {
            Some(true)
        }
    }

    /// The defend strength that the unit in `d` opposes to an attack out of
    /// `p`, where it moves to `p` itself and the two may meet head to head.
    pub open spec fn facing(self, status: Status, p: Name) -> Option<Interval> {
        let d = self.dest_of(p);
        let defend = self.defend_strength(status, d);
        if !self.moves_to(d, p) {
            None
        } else {
            match self.head_to_head(status, p) {
                Some(false) => None,
                None => Some(Interval { min: 0, max: defend.max }),
                Some(true) => Some(defend),
            }
        }
    }

    /// Whether `q` is another mover to the destination of the mover in `p`.
    pub open spec fn rival(self, q: Name, p: Name) -> bool {
        self.moves_to(q, self.dest_of(p)) && q != p
    }

    /// Whether some opposing strength is known to stop the mover in `p`.
    pub open spec fn move_stopped(self, status: Status, p: Name) -> bool {
        let attack = self.attack_strength(status, p);
        ||| attack.max <= self.hold_strength(status, self.dest_of(p)).min
        ||| (self.facing(status, p) is Some && attack.max <= self.facing(status, p).unwrap().min)
        ||| exists|q: Name| #[trigger] self.rival(q, p) && attack.max <= self.prevent_strength(status, q).min
    }

    /// Whether the mover in `p` is known to overcome every opposing strength.
    pub open spec fn move_prevails(self, status: Status, p: Name) -> bool {
        let attack = self.attack_strength(status, p);
        &&& attack.min > self.hold_strength(status, self.dest_of(p)).max
        &&& (self.facing(status, p) is Some ==> attack.min > self.facing(status, p).unwrap().max)
        &&& forall|q: Name| #[trigger] self.rival(q, p) ==> attack.min > self.prevent_strength(status, q).max
    }

    /// The verdict on the move ordered in `p`. A move to its own province
    /// fails.
    pub open spec fn move_verdict(self, status: Status, p: Name) -> Option<bool> {
        if self.dest_of(p) == p {
            Some(false)
        } else if self.move_stopped(status, p) {
            Some(false)
        } else if self.move_prevails(status, p) {
            Some(true)
        } else {
            None
        }
    }

    /// Whether a support from `p` for the unit in `t` to hold can be given:
    /// `t` has an order that is no move, and `p` could enter `t`.
    pub open spec fn hold_supportable(self, p: Name, t: Name) -> bool {
        self.orders.contains_key(t) && !(self.orders[t] is Move) && self.can_reach(p, t)
    }

    /// Whether a support from `p` for a move from `s` to `d` can be given:
    /// `s` moves to `d`, which is another province, and `p` could enter `d`.
    pub open spec fn move_supportable(self, p: Name, s: Name, d: Name) -> bool {
        self.moves_to(s, d) && self.can_reach(p, d) && s != d
    }

    /// The verdict on the order given in `p`, from what `status` knows.
    pub open spec fn verdict(self, status: Status, p: Name) -> Option<bool> {
        match self.orders[p] {
            OrderView::Hold => self.undislodged(status, p),
            OrderView::Move { dest } => self.move_verdict(status, p),
            OrderView::SupportHold { target } => if self.hold_supportable(p, target) {
                self.untapped(status, p, None)
            } else {
                Some(false)
            },
            OrderView::SupportMove { src, dest } => if self.move_supportable(p, src, dest) {
                self.untapped(status, p, Some(dest))
            } else {
                Some(false)
            },
            OrderView::Convoy { src, dest } => if self.is_sea(p) {
                self.undislodged(status, p)
            } else {
                Some(false)
            },
            OrderView::Core => self.untapped(status, p, None),
        }
    }

    // ---------------------------------------------------------------
    // Dependencies

    /// The orders that decide whether the unit in `p` is dislodged: the
    /// moves into `p`.
    pub open spec fn holds_on(self, p: Name) -> spec_fn(Name) -> bool {
        |q: Name| self.orders[q].is_move_to(p)
    }

    /// The orders that decide whether a support given from `p` is cut: the
    /// moves into `p` by units of another nationality, and the convoys that
    /// carry such a move.
    pub open spec fn taps_on(self, p: Name) -> spec_fn(Name) -> bool {
        |q: Name|
            self.taps(q, p) || match self.orders[q] {
                OrderView::Convoy { src, dest } => dest == p && self.taps(src, p),
                _ => false,
            }
    }

    /// The orders that decide the move from `p` to `d`.
    pub open spec fn move_rests_on(self, p: Name, d: Name) -> spec_fn(Name) -> bool {
        |q: Name|
            match self.orders[q] {
                OrderView::Move { dest } => (dest.0 == d && q != p) || q == d,
                OrderView::SupportMove { src, dest } => (dest == d && self.moves_to(src, dest)) || (src == d
                    && dest == p && self.moves_to(d, p)),
                OrderView::Convoy { src, dest } => (dest == d || src == d) && self.moves_to(src, dest),
                OrderView::SupportHold { target } => target == d && !self.is_mover(d),
                _ => false,
            }
    }

    /// Nothing.
    pub open spec fn rests_on_nothing() -> spec_fn(Name) -> bool {
        |q: Name| false
    }

    /// What the order given in `p` rests on.
    pub open spec fn rests_on(self, p: Name) -> spec_fn(Name) -> bool {
        match self.orders[p] {
            OrderView::Hold => self.holds_on(p),
            OrderView::Move { dest } => if dest.0 == p {
                Self::rests_on_nothing()
            } else {
                self.move_rests_on(p, dest.0)
            },
            OrderView::SupportHold { target } => if self.hold_supportable(p, target) {
                self.taps_on(p)
            } else {
                Self::rests_on_nothing()
            },
            OrderView::SupportMove { src, dest } => if self.move_supportable(p, src, dest) {
                self.taps_on(p)
            } else {
                Self::rests_on_nothing()
            },
            OrderView::Convoy { src, dest } => if self.is_sea(p) {
                self.holds_on(p)
            } else {
                Self::rests_on_nothing()
            },
            OrderView::Core => self.taps_on(p),
        }
    }

    /// The provinces whose orders the order given in `p` depends on.
    pub open spec fn deps(self, p: Name) -> Set<Name> {
        self.orders.dom().filter(self.rests_on(p))
    }
}

} // verus!
