//! The board: provinces, adjacency, units and the orders given to them.

use vstd::prelude::*;
use crate::keyset::KeySet;
use crate::table::Table;
use crate::text::Name;

verus! {

/// A fleet location: province, then coast. The coast is empty where the
/// province has a single coast or none.
pub type FleetLoc = (String, String);

/// Province metadata stored in a [`GameMap`].
#[derive(Debug)]
pub struct Province {
    pub coasts: KeySet<String>,
    pub is_sea: bool,
}

/// The mathematical value of a [`Province`].
pub struct ProvinceView {
    pub coasts: Set<Name>,
    pub is_sea: bool,
}

impl View for Province {
    type V = ProvinceView;

    open spec fn view(&self) -> ProvinceView {
        ProvinceView { coasts: self.coasts@, is_sea: self.is_sea }
    }
}

/// A variant map. Adjacency is stored as ordered pairs and looked up by the
/// exact pair.
#[derive(Debug)]
pub struct GameMap {
    pub provinces: Table<Province>,
    pub fleet_adj: KeySet<(FleetLoc, FleetLoc)>,
    pub army_adj: KeySet<(String, String)>,
}

/// The mathematical value of a [`GameMap`].
pub struct MapView {
    pub provinces: Map<Name, ProvinceView>,
    pub fleet_adj: Set<((Name, Name), (Name, Name))>,
    pub army_adj: Set<(Name, Name)>,
}

impl View for GameMap {
    type V = MapView;

    open spec fn view(&self) -> MapView {
        MapView {
            provinces: self.provinces@,
            fleet_adj: self.fleet_adj@,
            army_adj: self.army_adj@,
        }
    }
}

impl GameMap {
    pub open spec fn wf(&self) -> bool {
        &&& self.provinces.wf()
        &&& self.fleet_adj.wf()
        &&& self.army_adj.wf()
    }

    /// A map without provinces.
    pub fn new() -> (r: Self)
        ensures
            r.wf(),
            r@.provinces == Map::<Name, ProvinceView>::empty(),
            r@.fleet_adj == Set::<((Name, Name), (Name, Name))>::empty(),
            r@.army_adj == Set::<(Name, Name)>::empty(),
    {
        GameMap { provinces: Table::new(), fleet_adj: KeySet::new(), army_adj: KeySet::new() }
    }
}

/// A unit on the board.
#[derive(Debug)]
pub enum Unit {
    /// An army of the given nationality.
    Army(String),
    /// A fleet of the given nationality, on the given coast.
    Fleet(String, String),
}

/// The mathematical value of a [`Unit`].
pub enum UnitView {
    Army(Name),
    Fleet(Name, Name),
}

impl UnitView {
    /// The nationality of the unit.
    pub open spec fn nation(self) -> Name {
        match self {
            UnitView::Army(n) => n,
            UnitView::Fleet(n, _) => n,
        }
    }
}

impl View for Unit {
    type V = UnitView;

    open spec fn view(&self) -> UnitView {
        match self {
            Unit::Army(n) => UnitView::Army(n@),
            Unit::Fleet(n, c) => UnitView::Fleet(n@, c@),
        }
    }
}

impl Unit {
    pub fn nationality(&self) -> (r: String)
        ensures
            r@ == self@.nation(),
    {
        match self {
            Unit::Army(s) => s.clone(),
            Unit::Fleet(s, _) => s.clone(),
        }
    }

    /// The nationality, borrowed.
    pub fn nation_ref(&self) -> (r: &String)
        ensures
            r@ == self@.nation(),
    {
        match self {
            Unit::Army(s) => s,
            Unit::Fleet(s, _) => s,
        }
    }

    /// A fresh unit with the same value.
    pub fn duplicate(&self) -> (r: Self)
        ensures
            r@ == self@,
    {
        match self {
            Unit::Army(s) => Unit::Army(s.clone()),
            Unit::Fleet(s, c) => Unit::Fleet(s.clone(), c.clone()),
        }
    }
}

/// The units present on a board.
#[derive(Debug)]
pub struct MapState {
    pub units: Table<Unit>,
    /// Supply-centre ownership. Adjudication does not read it.
    pub ownership: Table<String>,
}

/// The mathematical value of a [`MapState`].
pub struct MapStateView {
    pub units: Map<Name, UnitView>,
    pub ownership: Map<Name, Name>,
}

impl View for MapState {
    type V = MapStateView;

    open spec fn view(&self) -> MapStateView {
        MapStateView { units: self.units@, ownership: self.ownership@ }
    }
}

impl MapState {
    pub open spec fn wf(&self) -> bool {
        &&& self.units.wf()
        &&& self.ownership.wf()
    }

    /// A board without units.
    pub fn new() -> (r: Self)
        ensures
            r.wf(),
            r@.units == Map::<Name, UnitView>::empty(),
            r@.ownership == Map::<Name, Name>::empty(),
    {
        MapState { units: Table::new(), ownership: Table::new() }
    }
}

} // verus!
