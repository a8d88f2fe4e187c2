//! What follows a movement phase: the new board and the retreats, and
//! counts of units and supply centres.

use vstd::prelude::*;
use crate::base::{compute_prevent_strength, status_of, OrderStatus};
use crate::board::{GameMap, MapState, MapView, Unit, UnitView};
use crate::keyset::KeySet;
use crate::model::{known, no_coast, position, Position, Status};
use crate::order::{Order, Orders};
use crate::prefix::{first_keys, lemma_first_keys_all, lemma_first_keys_next, lemma_first_keys_none};
use crate::table::Table;
use crate::text::{same_text, Name};
use crate::independence::law_arrivals_apart;

verus! {

/// Metadata associated to a province.
#[derive(Debug)]
pub struct ProvinceMeta {
    pub name: String,
    pub is_sc: bool,
    pub home_sc: String,
}

/// Metadata associated to a power.
#[derive(Debug)]
pub struct PowerMeta {
    /// Full name; e.g. England, not ENG.
    pub name: String,
    pub tile_color: String,
    pub sc_color: String,
}

/// A dislodged unit and where it may retreat to.
#[derive(Debug)]
pub struct RetreatOptions {
    /// The retreating unit in its previous location.
    pub src: Unit,
    /// The available retreat locations.
    pub dest: KeySet<(String, String)>,
}

/// The mathematical value of [`RetreatOptions`].
pub struct RetreatView {
    pub src: UnitView,
    pub dest: Set<(Name, Name)>,
}

impl View for RetreatOptions {
    type V = RetreatView;

    open spec fn view(&self) -> RetreatView {
        RetreatView { src: self.src@, dest: self.dest@ }
    }
}

/// The unit as it stands after a move to the coast `coast`: a fleet is on
/// that coast, an army on none.
pub open spec fn moved(unit: UnitView, coast: Name) -> UnitView {
    match unit {
        UnitView::Army(nation) => UnitView::Army(nation),
        UnitView::Fleet(nation, _) => UnitView::Fleet(nation, coast),
    }
}

/// Where `unit` may go from `d`: the adjacent locations, for a fleet from its
/// coast, whose province is not among `closed`.
pub open spec fn ways_out(map: MapView, unit: UnitView, d: Name, closed: Set<Name>) -> Set<(Name, Name)> {
    match unit {
        UnitView::Army(_) => Set::new(
            |loc: (Name, Name)| loc.1 == no_coast() && map.army_adj.contains((d, loc.0)) && !closed.contains(loc.0),
        ),
        UnitView::Fleet(_, coast) => Set::new(
            |loc: (Name, Name)| map.fleet_adj.contains(((d, coast), loc)) && !closed.contains(loc.0),
        ),
    }
}

impl Position {
    /// Whether the unit in `p` moves away: it was ordered to move and the
    /// move is known to succeed.
    pub open spec fn leaves(self, status: Status, p: Name) -> bool {
        self.is_mover(p) && known(status, p) == Some(true)
    }

    /// The units that stay where they are: all but those that move away.
    pub open spec fn stayers(self, status: Status) -> Map<Name, UnitView> {
        Map::new(|p: Name| self.units.contains_key(p) && !self.leaves(status, p), |p: Name| self.units[p])
    }

    /// The board after the first `n` orders of `order` have been carried
    /// out: each unit that moves away stands in its destination, where it
    /// replaces what stood there.
    pub open spec fn arrivals(self, status: Status, order: Seq<Name>, n: nat) -> Map<Name, UnitView>
        decreases n,
    {
        if n == 0 {
            self.stayers(status)
        } else {
            let before = self.arrivals(status, order, (n - 1) as nat);
            let p = order[n - 1];
            if self.leaves(status, p) {
                before.insert(self.dest_of(p), moved(self.units[p], self.orders[p].move_coast()))
            } else {
                before
            }
        }
    }

    /// Whether no two units that move away go to the same province.
    pub open spec fn arrivals_are_apart(self, status: Status) -> bool {
        forall|p: Name, q: Name|
            #[trigger] self.leaves(status, p) && #[trigger] self.leaves(status, q) && self.dest_of(p) == self.dest_of(
                q,
            ) ==> p == q
    }

    /// Whether a unit arrives in `d`.
    pub open spec fn entered(self, status: Status, d: Name) -> bool {
        exists|p: Name| #[trigger] self.leaves(status, p) && self.dest_of(p) == d
    }

    /// The province that a unit arrives in `d` from.
    pub open spec fn entered_from(self, status: Status, d: Name) -> Name {
        choose|p: Name| #[trigger] self.leaves(status, p) && self.dest_of(p) == d
    }

    /// The board after the moves, where no two units arrive in the same
    /// province: a province that a unit arrives in holds that unit, and any
    /// other holds the unit that stays there.
    pub open spec fn board_after(self, status: Status) -> Map<Name, UnitView> {
        Map::new(
            |d: Name| self.entered(status, d) || (self.units.contains_key(d) && !self.leaves(status, d)),
            |d: Name|
                if self.entered(status, d) {
                    let p = self.entered_from(status, d);
                    moved(self.units[p], self.orders[p].move_coast())
                } else {
                    self.units[d]
                },
        )
    }

    /// Whether `d` is contested: some move into it has a prevent strength
    /// that is surely not zero.
    pub open spec fn contested(self, status: Status, d: Name) -> bool {
        exists|q: Name| #[trigger] self.moves_to(q, d) && self.prevent_strength(status, q).min != 0
    }

    /// Whether the unit in `d` is dislodged: it does not move away, and a
    /// unit moves in.
    pub open spec fn dislodged(self, status: Status, d: Name) -> bool {
        &&& self.units.contains_key(d)
        &&& !self.leaves(status, d)
        &&& exists|p: Name| #[trigger] self.leaves(status, p) && self.dest_of(p) == d
    }

    /// The provinces that no unit may retreat to, given the board `after`
    /// the moves: those that are occupied and those that are contested.
    pub open spec fn closed_to_retreat(self, status: Status, after: Map<Name, UnitView>) -> Set<Name> {
        Set::new(|to: Name| self.contested(status, to) || after.contains_key(to))
    }

    /// Where the unit dislodged from `d` may retreat to.
    pub open spec fn retreat_options(self, status: Status, after: Map<Name, UnitView>, d: Name) -> Set<(Name, Name)> {
        ways_out(self.map, self.units[d], d, self.closed_to_retreat(status, after))
    }

    /// The retreats that the moves force, by the province retreated from.
    pub open spec fn retreats(self, status: Status, after: Map<Name, UnitView>) -> Map<Name, RetreatView> {
        Map::new(
            |d: Name| self.dislodged(status, d),
            |d: Name| RetreatView { src: self.units[d], dest: self.retreat_options(status, after, d) },
        )
    }
}

/// Whether the unit in `prov` moves away.
fn leaves(orders: &Orders, order_status: &OrderStatus, prov: &str) -> (r: bool)
    requires
        orders.wf(),
        order_status.wf(),
    ensures
        r == (orders@.contains_key(prov@) && orders@[prov@] is Move && known(order_status@, prov@) == Some(true)),
{
    let moving = match orders.get(prov) {
        Some(o) => o.is_move(),
        None => false,
    };
    moving && match status_of(order_status, prov) {
        Some(true) => true,
        _ => false,
    }
}

/// The provinces that are contested.
fn contested_provinces(map: &GameMap, state: &MapState, orders: &Orders, order_status: &OrderStatus) -> (r: KeySet<
    String,
>)
    requires
        map.wf(),
        state.wf(),
        orders.wf(),
        order_status.wf(),
        position(map, state, orders).valid(),
    ensures
        r.wf(),
        forall|d: Name| r@.contains(d) <==> position(map, state, orders).contested(order_status@, d),
{
    let ghost g = position(map, state, orders);
    let ghost st = order_status@;
    let mut contested: KeySet<String> = KeySet::new();
    let mut i: usize = 0;
    while i < orders.len()
        invariant
            map.wf(),
            state.wf(),
            orders.wf(),
            order_status.wf(),
            g == position(map, state, orders),
            g.valid(),
            st == order_status@,
            i <= orders.names().len(),
            contested.wf(),
            forall|d: Name|
                contested@.contains(d) <==> exists|j: int|
                    0 <= j < i && g.moves_to(#[trigger] orders.names()[j], d) && g.prevent_strength(
                        st,
                        orders.names()[j],
                    ).min != 0,
        decreases orders.names().len() - i,
    {
        proof {
            orders.lemma_view();
        }
        let prov = orders.key_at(i);
        let ghost before = contested@;
        match orders.value_at(i) {
            Order::Move(mov) => {
                if compute_prevent_strength(map, state, orders, order_status, prov.as_str()).min != 0 {
                    contested.insert(mov.dest.0.clone());
                }
            },
            _ => {},
        }
        assert forall|d: Name|
            contested@.contains(d) <==> exists|j: int|
                0 <= j < i + 1 && g.moves_to(#[trigger] orders.names()[j], d) && g.prevent_strength(
                    st,
                    orders.names()[j],
                ).min != 0 by {
            if before.contains(d) {
                let j = choose|j: int|
                    0 <= j < i && g.moves_to(#[trigger] orders.names()[j], d) && g.prevent_strength(
                        st,
                        orders.names()[j],
                    ).min != 0;
                assert(0 <= j < i + 1);
            }
            if contested@.contains(d) && !before.contains(d) {
                assert(g.moves_to(orders.names()[i as int], d));
            }
        }
        i += 1;
    }
    proof {
        orders.lemma_view();
        assert forall|d: Name| contested@.contains(d) <==> g.contested(st, d) by {
            if g.contested(st, d) {
                let q = choose|q: Name| #[trigger] g.moves_to(q, d) && g.prevent_strength(st, q).min != 0;
                let j = choose|j: int| 0 <= j < orders.names().len() && orders.names()[j] == q;
                assert(g.moves_to(orders.names()[j], d));
            }
        }
    }
    contested
}

/// The board after the moves.
fn new_units(map: &GameMap, state: &MapState, orders: &Orders, order_status: &OrderStatus) -> (r: Table<Unit>)
    requires
        state.wf(),
        orders.wf(),
        order_status.wf(),
        forall|q: Name| #[trigger] orders@.contains_key(q) ==> state@.units.contains_key(q),
    ensures
        r.wf(),
        r@ == position(map, state, orders).arrivals(order_status@, orders.names(), orders.names().len()),
{
    let ghost g = position(map, state, orders);
    let ghost st = order_status@;
    let mut units: Table<Unit> = Table::new();
    let mut i: usize = 0;
    assert(units@ =~= g.stayers(st).restrict(first_keys(state.units.names(), 0)));
    while i < state.units.len()
        invariant
            state.wf(),
            orders.wf(),
            order_status.wf(),
            g == position(map, state, orders),
            st == order_status@,
            i <= state.units.names().len(),
            units.wf(),
            units@ == g.stayers(st).restrict(first_keys(state.units.names(), i as int)),
        decreases state.units.names().len() - i,
    {
        proof {
            state.units.lemma_view();
        }
        let prov = state.units.key_at(i);
        if !leaves(orders, order_status, prov.as_str()) {
            units.insert(prov.clone(), state.units.value_at(i).duplicate());
        }
        assert(units@ =~= g.stayers(st).restrict(first_keys(state.units.names(), i + 1))) by {
            assert(first_keys(state.units.names(), i + 1) =~= first_keys(state.units.names(), i as int).insert(
                prov@,
            ));
        }
        i += 1;
    }
    proof {
        state.units.lemma_view();
        lemma_first_keys_all(state.units.names(), state@.units.dom(), |q: Name| true);
        assert(units@ =~= g.stayers(st));
    }
    let mut i: usize = 0;
    while i < orders.len()
        invariant
            state.wf(),
            orders.wf(),
            order_status.wf(),
            g == position(map, state, orders),
            forall|q: Name| #[trigger] orders@.contains_key(q) ==> state@.units.contains_key(q),
            st == order_status@,
            i <= orders.names().len(),
            units.wf(),
            units@ == g.arrivals(st, orders.names(), i as nat),
        decreases orders.names().len() - i,
    {
        proof {
            orders.lemma_view();
        }
        let prov = orders.key_at(i);
        assert(orders@.contains_key(prov@));
        match orders.value_at(i) {
            Order::Move(mov) => {
                let succeeded = match status_of(order_status, prov.as_str()) {
                    Some(true) => true,
                    _ => false,
                };
                if succeeded {
                    let unit = match state.units.get(prov.as_str()) {
                        Some(Unit::Army(natl)) => Unit::Army(natl.clone()),
                        Some(Unit::Fleet(natl, _)) => Unit::Fleet(natl.clone(), mov.dest.1.clone()),
                        None => Unit::Army(String::new()),
                    };
                    units.insert(mov.dest.0.clone(), unit);
                }
            },
            _ => {},
        }
        i += 1;
    }
    units
}

/// Where `unit` may retreat to from `from`: the adjacent locations whose
/// province is neither contested nor occupied after the moves.
fn retreat_options(map: &GameMap, unit: &Unit, from: &str, contested: &KeySet<String>, after: &Table<Unit>) -> (r:
    KeySet<(String, String)>)
    requires
        after.wf(),
    ensures
        r.wf(),
        r@ == ways_out(map@, unit@, from@, Set::new(|to: Name| contested@.contains(to) || after@.contains_key(to))),
{
    let ghost closed = Set::new(|to: Name| contested@.contains(to) || after@.contains_key(to));
    let mut options: KeySet<(String, String)> = KeySet::new();
    match unit {
        Unit::Army(_) => {
            let ghost pairs = map.army_adj.seq();
            let mut k: usize = 0;
            while k < map.army_adj.len()
                invariant
                    after.wf(),
                    pairs == map.army_adj.seq(),
                    closed == Set::new(|to: Name| contested@.contains(to) || after@.contains_key(to)),
                    k <= pairs.len(),
                    options.wf(),
                    forall|loc: (Name, Name)|
                        options@.contains(loc) <==> loc.1 == no_coast() && !closed.contains(loc.0) && exists|j: int|
                            0 <= j < k && #[trigger] pairs[j] == (from@, loc.0),
                decreases pairs.len() - k,
            {
                let pair = map.army_adj.at(k);
                let ghost before = options@;
                if same_text(pair.0.as_str(), from) && !contested.contains(&pair.1) && !after.contains_key(
                    pair.1.as_str(),
                ) {
                    options.insert((pair.1.clone(), String::new()));
                }
                assert forall|loc: (Name, Name)|
                    options@.contains(loc) <==> loc.1 == no_coast() && !closed.contains(loc.0) && exists|j: int|
                        0 <= j < k + 1 && #[trigger] pairs[j] == (from@, loc.0) by {
                    if before.contains(loc) {
                        let j = choose|j: int| 0 <= j < k && #[trigger] pairs[j] == (from@, loc.0);
                        assert(0 <= j < k + 1);
                    }
                    if options@.contains(loc) && !before.contains(loc) {
                        assert(pairs[k as int] == (from@, loc.0));
                    }
                }
                k += 1;
            }
            assert(options@ =~= ways_out(map@, unit@, from@, closed)) by {
                assert forall|loc: (Name, Name)| options@.contains(loc) <==> ways_out(
                    map@,
                    unit@,
                    from@,
                    closed,
                ).contains(loc) by {
                    if map@.army_adj.contains((from@, loc.0)) {
                        let j = choose|j: int| 0 <= j < pairs.len() && pairs[j] == (from@, loc.0);
                        assert(pairs[j] == (from@, loc.0));
                    }
                    if options@.contains(loc) {
                        let j = choose|j: int| 0 <= j < pairs.len() && #[trigger] pairs[j] == (from@, loc.0);
                        assert(pairs.contains((from@, loc.0)));
                    }
                }
            }
        },
        Unit::Fleet(_, src_coast) => {
            let ghost pairs = map.fleet_adj.seq();
            let mut k: usize = 0;
            while k < map.fleet_adj.len()
                invariant
                    after.wf(),
                    pairs == map.fleet_adj.seq(),
                    closed == Set::new(|to: Name| contested@.contains(to) || after@.contains_key(to)),
                    k <= pairs.len(),
                    options.wf(),
                    forall|loc: (Name, Name)|
                        options@.contains(loc) <==> !closed.contains(loc.0) && exists|j: int|
                            0 <= j < k && #[trigger] pairs[j] == ((from@, src_coast@), loc),
                decreases pairs.len() - k,
            {
                let pair = map.fleet_adj.at(k);
                let ghost before = options@;
                if same_text(pair.0.0.as_str(), from) && same_text(pair.0.1.as_str(), src_coast.as_str())
                    && !contested.contains(&pair.1.0) && !after.contains_key(pair.1.0.as_str()) {
                    options.insert((pair.1.0.clone(), pair.1.1.clone()));
                }
                assert forall|loc: (Name, Name)|
                    options@.contains(loc) <==> !closed.contains(loc.0) && exists|j: int|
                        0 <= j < k + 1 && #[trigger] pairs[j] == ((from@, src_coast@), loc) by {
                    if before.contains(loc) {
                        let j = choose|j: int| 0 <= j < k && #[trigger] pairs[j] == ((from@, src_coast@), loc);
                        assert(0 <= j < k + 1);
                    }
                    if options@.contains(loc) && !before.contains(loc) {
                        assert(pairs[k as int] == ((from@, src_coast@), loc));
                    }
                }
                k += 1;
            }
            assert(options@ =~= ways_out(map@, unit@, from@, closed)) by {
                assert forall|loc: (Name, Name)| options@.contains(loc) <==> ways_out(
                    map@,
                    unit@,
                    from@,
                    closed,
                ).contains(loc) by {
                    if map@.fleet_adj.contains(((from@, src_coast@), loc)) {
                        let j = choose|j: int| 0 <= j < pairs.len() && pairs[j] == ((from@, src_coast@), loc);
                        assert(pairs[j] == ((from@, src_coast@), loc));
                    }
                    if options@.contains(loc) {
                        let j = choose|j: int|
                            0 <= j < pairs.len() && #[trigger] pairs[j] == ((from@, src_coast@), loc);
                        assert(pairs.contains(((from@, src_coast@), loc)));
                    }
                }
            }
        },
    }
    options
}

/// A copy of a table of names.
fn copy_names(table: &Table<String>) -> (r: Table<String>)
    requires
        table.wf(),
    ensures
        r.wf(),
        r@ == table@,
{
    let mut r: Table<String> = Table::new();
    let mut i: usize = 0;
    assert(r@ =~= table@.restrict(first_keys(table.names(), 0)));
    while i < table.len()
        invariant
            table.wf(),
            i <= table.names().len(),
            r.wf(),
            r@ == table@.restrict(first_keys(table.names(), i as int)),
        decreases table.names().len() - i,
    {
        proof {
            table.lemma_view();
        }
        let key = table.key_at(i);
        r.insert(key.clone(), table.value_at(i).clone());
        assert(r@ =~= table@.restrict(first_keys(table.names(), i + 1))) by {
            assert(first_keys(table.names(), i + 1) =~= first_keys(table.names(), i as int).insert(key@));
        }
        i += 1;
    }
    proof {
        table.lemma_view();
        lemma_first_keys_all(table.names(), table@.dom(), |q: Name| true);
        assert(r@ =~= table@);
    }
    r
}

/// The retreats forced by the first `n` orders of `order`.
pub open spec fn retreats_within(
    g: Position,
    status: Status,
    after: Map<Name, UnitView>,
    order: Seq<Name>,
    n: int,
) -> Map<Name, RetreatView> {
    Map::new(
        |d: Name|
            g.units.contains_key(d) && !g.leaves(status, d) && exists|j: int|
                0 <= j < n && j < order.len() && g.leaves(status, #[trigger] order[j]) && g.dest_of(order[j]) == d,
        |d: Name| RetreatView { src: g.units[d], dest: g.retreat_options(status, after, d) },
    )
}

/// Update the game board based on adjudication results.
///
/// Units whose move succeeded stand in their destination, fleets on the
/// coast they were sent to; all other units stay. A unit that stays where
/// another moves in is dislodged: it leaves the board and may retreat to an
/// adjacent location that is neither occupied on the new board nor
/// contested.
pub fn apply_adjudication(
    map: &GameMap,
    state: &MapState,
    orders: &Orders,
    order_status: &OrderStatus,
) -> (r: (MapState, Table<RetreatOptions>))
    requires
        map.wf(),
        state.wf(),
        orders.wf(),
        order_status.wf(),
        position(map, state, orders).valid(),
    ensures
        r.0.wf(),
        r.1.wf(),
        r.0@.units == position(map, state, orders).arrivals(order_status@, orders.names(), orders.names().len()),
        r.0@.ownership == state@.ownership,
        r.1@ == position(map, state, orders).retreats(order_status@, r.0@.units),
        position(map, state, orders).arrivals_are_apart(order_status@) ==> r.0@.units == position(
            map,
            state,
            orders,
        ).board_after(order_status@),
{
    let ghost g = position(map, state, orders);
    let ghost st = order_status@;
    let ghost names = orders.names();
    let contested = contested_provinces(map, state, orders, order_status);
    let units = new_units(map, state, orders, order_status);
    let ghost after = units@;
    let ghost closed = Set::new(|to: Name| contested@.contains(to) || after.contains_key(to));
    assert(closed =~= g.closed_to_retreat(st, after));
    let mut retreats: Table<RetreatOptions> = Table::new();
    let mut i: usize = 0;
    assert(retreats@ =~= retreats_within(g, st, after, names, 0));
    while i < orders.len()
        invariant
            map.wf(),
            state.wf(),
            orders.wf(),
            order_status.wf(),
            units.wf(),
            g == position(map, state, orders),
            st == order_status@,
            names == orders.names(),
            after == units@,
            Set::new(|to: Name| contested@.contains(to) || after.contains_key(to)) == g.closed_to_retreat(st, after),
            i <= names.len(),
            retreats.wf(),
            retreats@ == retreats_within(g, st, after, names, i as int),
        decreases names.len() - i,
    {
        proof {
            orders.lemma_view();
        }
        let prov = orders.key_at(i);
        let ghost before = retreats@;
        match orders.value_at(i) {
            Order::Move(mov) => {
                if leaves(orders, order_status, prov.as_str()) && !leaves(
                    orders,
                    order_status,
                    mov.dest.0.as_str(),
                ) {
                    match state.units.get(mov.dest.0.as_str()) {
                        Some(unit) => {
                            let dest = retreat_options(map, unit, mov.dest.0.as_str(), &contested, &units);
                            retreats.insert(mov.dest.0.clone(), RetreatOptions { src: unit.duplicate(), dest });
                        },
                        None => {},
                    }
                }
            },
            _ => {},
        }
        assert(retreats@ =~= retreats_within(g, st, after, names, i + 1)) by {
            let next = retreats_within(g, st, after, names, i + 1);
            assert forall|d: Name| before.contains_key(d) implies next.contains_key(d) by {
                let j = choose|j: int|
                    0 <= j < i && j < names.len() && g.leaves(st, #[trigger] names[j]) && g.dest_of(names[j]) == d;
                assert(0 <= j < i + 1);
            }
            assert forall|d: Name| next.contains_key(d) implies retreats@.contains_key(d) by {
                let j = choose|j: int|
                    0 <= j < i + 1 && j < names.len() && g.leaves(st, #[trigger] names[j]) && g.dest_of(names[j])
                        == d;
                if j < i {
                    assert(before.contains_key(d));
                }
            }
            assert forall|d: Name| retreats@.contains_key(d) && !before.contains_key(d) implies next.contains_key(
                d,
            ) by {
                assert(g.leaves(st, names[i as int]) && g.dest_of(names[i as int]) == d);
            }
        }
        i += 1;
    }
    proof {
        orders.lemma_view();
        assert(retreats@ =~= g.retreats(st, after)) by {
            assert forall|d: Name| g.dislodged(st, d) implies retreats@.contains_key(d) by {
                let p = choose|p: Name| #[trigger] g.leaves(st, p) && g.dest_of(p) == d;
                let j = choose|j: int| 0 <= j < names.len() && names[j] == p;
                assert(g.leaves(st, names[j]) && g.dest_of(names[j]) == d);
            }
        }
    }
    proof {
        if g.arrivals_are_apart(st) {
            law_arrivals_apart(g, st, names);
        }
    }
    let new_state = MapState { units, ownership: copy_names(&state.ownership) };
    (new_state, retreats)
}

/// Returns the number of units the given power has on the board.
pub fn count_units(state: &MapState, power: &str) -> (n: usize)
    requires
        state.wf(),
    ensures
        n == state@.units.dom().filter(|p: Name| state@.units[p].nation() == power@).len(),
{
    let ghost p = |p: Name| state@.units[p].nation() == power@;
    let mut n: usize = 0;
    let mut i: usize = 0;
    proof {
        lemma_first_keys_none(state.units.names(), p);
    }
    while i < state.units.len()
        invariant
            state.wf(),
            p == |p: Name| state@.units[p].nation() == power@,
            i <= state.units.names().len(),
            n == first_keys(state.units.names(), i as int).filter(p).len(),
        decreases state.units.names().len() - i,
    {
        proof {
            state.units.lemma_view();
            lemma_first_keys_next(state.units.names(), i as int, p);
        }
        if same_text(state.units.value_at(i).nation_ref().as_str(), power) {
            n += 1;
        }
        i += 1;
    }
    proof {
        state.units.lemma_view();
        lemma_first_keys_all(state.units.names(), state@.units.dom(), p);
    }
    n
}

/// Returns the supply-centre count of the given power.
pub fn count_supply(state: &MapState, power: &str) -> (n: usize)
    requires
        state.wf(),
    ensures
        n == state@.ownership.dom().filter(|p: Name| state@.ownership[p] == power@).len(),
{
    let ghost p = |p: Name| state@.ownership[p] == power@;
    let mut n: usize = 0;
    let mut i: usize = 0;
    proof {
        lemma_first_keys_none(state.ownership.names(), p);
    }
    while i < state.ownership.len()
        invariant
            state.wf(),
            p == |p: Name| state@.ownership[p] == power@,
            i <= state.ownership.names().len(),
            n == first_keys(state.ownership.names(), i as int).filter(p).len(),
        decreases state.ownership.names().len() - i,
    {
        proof {
            state.ownership.lemma_view();
            lemma_first_keys_next(state.ownership.names(), i as int, p);
        }
        if same_text(state.ownership.value_at(i).as_str(), power) {
            n += 1;
        }
        i += 1;
    }
    proof {
        state.ownership.lemma_view();
        lemma_first_keys_all(state.ownership.names(), state@.ownership.dom(), p);
    }
    n
}

} // verus!
