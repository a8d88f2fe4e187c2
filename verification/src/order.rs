//! The orders of a movement phase.

use vstd::prelude::*;
use crate::board::FleetLoc;
use crate::table::Table;
use crate::text::{same_text, Name};

verus! {

/// A hold order. Succeeds if not dislodged.
#[derive(Debug)]
pub struct Hold;

/// A move order.
///
/// The move succeeds iff its attack strength is greater than the hold
/// strength of the destination and the prevent strength of every other unit
/// moving there; in a head-to-head battle also greater than the defend
/// strength of the opposing unit.
#[derive(Debug)]
pub struct Move {
    pub dest: FleetLoc,
}

/// A support hold order. Only the province of the target is given.
#[derive(Debug)]
pub struct SupportHold {
    pub target: String,
}

/// A support move order. Only the provinces of source and destination are given.
#[derive(Debug)]
pub struct SupportMove {
    pub src: String,
    pub dest: String,
}

/// A convoy order.
#[derive(Debug)]
pub struct Convoy {
    pub src: String,
    pub dest: String,
}

/// A core order, as found in some variants. Succeeds if untapped.
#[derive(Debug)]
pub struct Core;

/// An order, by kind.
#[derive(Debug)]
pub enum Order {
    Hold(Hold),
    Move(Move),
    SupportHold(SupportHold),
    SupportMove(SupportMove),
    Convoy(Convoy),
    Core(Core),
}

/// The mathematical value of an [`Order`].
#[allow(inconsistent_fields)]
pub enum OrderView {
    Hold,
    Move { dest: (Name, Name) },
    SupportHold { target: Name },
    SupportMove { src: Name, dest: Name },
    Convoy { src: Name, dest: Name },
    Core,
}

impl OrderView {
    pub open spec fn is_move(self) -> bool {
        self is Move
    }

    /// Whether this is a move into the province `prov`.
    pub open spec fn is_move_to(self, prov: Name) -> bool {
        match self {
            OrderView::Move { dest } => dest.0 == prov,
            _ => false,
        }
    }

    /// Whether this is a support for the move from `src` to `dest`.
    pub open spec fn is_support_to(self, src: Name, dest: Name) -> bool {
        self == (OrderView::SupportMove { src, dest })
    }

    /// Whether this is a support for the unit in `target` to hold.
    pub open spec fn is_support_hold_of(self, target: Name) -> bool {
        self == (OrderView::SupportHold { target })
    }

    /// Whether this is a convoy for the move from `src` to `dest`.
    pub open spec fn is_convoy_for(self, src: Name, dest: Name) -> bool {
        self == (OrderView::Convoy { src, dest })
    }

    /// The province a move goes to.
    pub open spec fn move_dest(self) -> Name
        recommends
            self is Move,
    {
        match self {
            OrderView::Move { dest } => dest.0,
            _ => Seq::empty(),
        }
    }

    /// The coast a move goes to.
    pub open spec fn move_coast(self) -> Name
        recommends
            self is Move,
    {
        match self {
            OrderView::Move { dest } => dest.1,
            _ => Seq::empty(),
        }
    }
}

impl View for Order {
    type V = OrderView;

    open spec fn view(&self) -> OrderView {
        match self {
            Order::Hold(_) => OrderView::Hold,
            Order::Move(m) => OrderView::Move { dest: (m.dest.0@, m.dest.1@) },
            Order::SupportHold(s) => OrderView::SupportHold { target: s.target@ },
            Order::SupportMove(s) => OrderView::SupportMove { src: s.src@, dest: s.dest@ },
            Order::Convoy(c) => OrderView::Convoy { src: c.src@, dest: c.dest@ },
            Order::Core(_) => OrderView::Core,
        }
    }
}

/// The orders of one movement phase, keyed by the province of the unit
/// that was given the order.
pub type Orders = Table<Order>;

impl Move {
    /// This order as an order of any kind.
    pub open spec fn as_order(&self) -> OrderView {
        OrderView::Move { dest: (self.dest.0@, self.dest.1@) }
    }

    pub fn is_to(&self, prov: &str) -> (r: bool)
        ensures
            r == (self.dest.0@ == prov@),
    {
        same_text(self.dest.0.as_str(), prov)
    }

    pub fn is_move_to(this: &Order, prov: &str) -> (r: bool)
        ensures
            r == this@.is_move_to(prov@),
    {
        match this {
            Order::Move(m) => m.is_to(prov),
            _ => false,
        }
    }
}

impl SupportMove {
    /// This order as an order of any kind.
    pub open spec fn as_order(&self) -> OrderView {
        OrderView::SupportMove { src: self.src@, dest: self.dest@ }
    }

    pub fn is_support_to(this: &Order, src: &str, dest: &str) -> (r: bool)
        ensures
            r == this@.is_support_to(src@, dest@),
    {
        match this {
            Order::SupportMove(s) => same_text(s.src.as_str(), src) && same_text(s.dest.as_str(), dest),
            _ => false,
        }
    }
}

impl SupportHold {
    /// This order as an order of any kind.
    pub open spec fn as_order(&self) -> OrderView {
        OrderView::SupportHold { target: self.target@ }
    }

    /// Whether `this` supports the unit in `target` to hold.
    pub fn is_support_of(this: &Order, target: &str) -> (r: bool)
        ensures
            r == this@.is_support_hold_of(target@),
    {
        match this {
            Order::SupportHold(s) => same_text(s.target.as_str(), target),
            _ => false,
        }
    }
}

impl Convoy {
    /// This order as an order of any kind.
    pub open spec fn as_order(&self) -> OrderView {
        OrderView::Convoy { src: self.src@, dest: self.dest@ }
    }

    /// Whether `this` convoys the move from `src` to `dest`.
    pub fn is_convoy_for(this: &Order, src: &str, dest: &str) -> (r: bool)
        ensures
            r == this@.is_convoy_for(src@, dest@),
    {
        match this {
            Order::Convoy(c) => same_text(c.src.as_str(), src) && same_text(c.dest.as_str(), dest),
            _ => false,
        }
    }
}

impl Order {
    /// A fresh order with the same value.
    pub fn as_owned(&self) -> (r: Order)
        ensures
            r@ == self@,
    {
        match self {
            Order::Hold(_) => Order::Hold(Hold),
            Order::Move(m) => Order::Move(Move { dest: (m.dest.0.clone(), m.dest.1.clone()) }),
            Order::SupportHold(s) => Order::SupportHold(SupportHold { target: s.target.clone() }),
            Order::SupportMove(s) => Order::SupportMove(SupportMove { src: s.src.clone(), dest: s.dest.clone() }),
            Order::Convoy(c) => Order::Convoy(Convoy { src: c.src.clone(), dest: c.dest.clone() }),
            Order::Core(_) => Order::Core(Core),
        }
    }

    pub fn is_move_to(&self, province: &str) -> (r: bool)
        ensures
            r == self@.is_move_to(province@),
    {
        Move::is_move_to(self, province)
    }

    pub fn is_move(&self) -> (r: bool)
        ensures
            r == self@.is_move(),
    {
        match self {
            Order::Move(_) => true,
            _ => false,
        }
    }
}

} // verus!
