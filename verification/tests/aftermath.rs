use radip::base::OrderStatus;
use radip::board::{GameMap, MapState, Province, Unit};
use radip::check_position;
use radip::keyset::KeySet;
use radip::order::{Hold, Move, Order, Orders, SupportMove};
use radip::table::Table;
use radip::utils::{apply_adjudication, count_supply, count_units, RetreatOptions};

fn t(text: &str) -> String {
    text.to_string()
}

fn world() -> GameMap {
    let mut map = GameMap::new();
    for name in ["par", "bur", "mar", "gas", "pic", "bre"] {
        map.provinces.insert(t(name), Province { coasts: KeySet::new(), is_sea: false });
    }
    let mut coasts = KeySet::new();
    coasts.insert(t("nc"));
    coasts.insert(t("sc"));
    map.provinces.insert(t("spa"), Province { coasts, is_sea: false });
    for name in ["mao", "eng", "wes"] {
        map.provinces.insert(t(name), Province { coasts: KeySet::new(), is_sea: true });
    }
    let army_pairs = [
        ("par", "bur"), ("mar", "bur"), ("par", "gas"), ("mar", "gas"), ("bur", "gas"), ("par", "pic"),
        ("bur", "pic"), ("gas", "spa"), ("mar", "spa"), ("par", "bre"), ("gas", "bre"),
    ];
    for (a, b) in army_pairs {
        map.army_adj.insert((t(a), t(b)));
        map.army_adj.insert((t(b), t(a)));
    }
    let fleet_pairs = [
        (("gas", ""), ("spa", "nc")), (("mao", ""), ("spa", "nc")), (("mao", ""), ("spa", "sc")),
        (("wes", ""), ("spa", "sc")), (("mao", ""), ("gas", "")), (("mao", ""), ("bre", "")),
        (("mao", ""), ("eng", "")), (("eng", ""), ("bre", "")), (("mao", ""), ("wes", "")),
        (("gas", ""), ("bre", "")),
    ];
    for (a, b) in fleet_pairs {
        map.fleet_adj.insert(((t(a.0), t(a.1)), (t(b.0), t(b.1))));
        map.fleet_adj.insert(((t(b.0), t(b.1)), (t(a.0), t(a.1))));
    }
    map
}

fn army(state: &mut MapState, prov: &str, nation: &str) {
    state.units.insert(t(prov), Unit::Army(t(nation)));
}

fn fleet(state: &mut MapState, prov: &str, nation: &str, coast: &str) {
    state.units.insert(t(prov), Unit::Fleet(t(nation), t(coast)));
}

fn mv(orders: &mut Orders, from: &str, to: &str, coast: &str) {
    orders.insert(t(from), Order::Move(Move { dest: (t(to), t(coast)) }));
}

fn known(pairs: &[(&str, bool)]) -> OrderStatus {
    let mut status: OrderStatus = Table::new();
    for (prov, value) in pairs {
        status.insert(t(prov), *value);
    }
    status
}

fn unit_at(state: &MapState, prov: &str) -> Option<(String, Option<String>)> {
    match state.units.get(prov) {
        Some(Unit::Army(n)) => Some((n.clone(), None)),
        Some(Unit::Fleet(n, c)) => Some((n.clone(), Some(c.clone()))),
        None => None,
    }
}

fn places(options: &RetreatOptions) -> Vec<(String, String)> {
    let mut all = Vec::new();
    for i in 0..options.dest.len() {
        all.push(options.dest.at(i).clone());
    }
    all.sort();
    all
}

#[test]
fn successful_move_dislodges_and_offers_retreats() {
    let map = world();
    let mut state = MapState::new();
    army(&mut state, "par", "F");
    army(&mut state, "pic", "F");
    army(&mut state, "bur", "G");
    army(&mut state, "mar", "I");
    state.ownership.insert(t("par"), t("F"));
    let mut orders: Orders = Table::new();
    mv(&mut orders, "par", "bur", "");
    orders.insert(t("pic"), Order::SupportMove(SupportMove { src: t("par"), dest: t("bur") }));
    orders.insert(t("bur"), Order::Hold(Hold));
    mv(&mut orders, "mar", "gas", "");
    assert!(check_position(&map, &state, &orders));
    let status = known(&[("par", true), ("pic", true), ("bur", false), ("mar", true)]);
    let (after, retreats) = apply_adjudication(&map, &state, &orders, &status);
    assert_eq!(unit_at(&after, "bur"), Some((t("F"), None)));
    assert_eq!(unit_at(&after, "par"), None);
    assert_eq!(unit_at(&after, "pic"), Some((t("F"), None)));
    assert_eq!(unit_at(&after, "gas"), Some((t("I"), None)));
    assert_eq!(unit_at(&after, "mar"), None);
    assert_eq!(after.units.len(), 3);
    assert_eq!(after.ownership.get("par"), Some(&t("F")));
    assert_eq!(after.ownership.len(), 1);
    assert_eq!(retreats.len(), 1);
    let retreat = retreats.get("bur").unwrap();
    assert_eq!(retreat.src.nationality(), "G");
    assert_eq!(places(retreat), vec![(t("mar"), t("")), (t("par"), t(""))]);
}

#[test]
fn contested_province_is_no_retreat() {
    let map = world();
    let mut state = MapState::new();
    army(&mut state, "par", "F");
    army(&mut state, "pic", "F");
    army(&mut state, "bur", "G");
    army(&mut state, "mar", "I");
    army(&mut state, "bre", "E");
    let mut orders: Orders = Table::new();
    mv(&mut orders, "par", "bur", "");
    orders.insert(t("pic"), Order::SupportMove(SupportMove { src: t("par"), dest: t("bur") }));
    orders.insert(t("bur"), Order::Hold(Hold));
    mv(&mut orders, "mar", "gas", "");
    mv(&mut orders, "bre", "gas", "");
    assert!(check_position(&map, &state, &orders));
    let status = known(&[("par", true), ("pic", true), ("bur", false), ("mar", false), ("bre", false)]);
    let (after, retreats) = apply_adjudication(&map, &state, &orders, &status);
    assert_eq!(unit_at(&after, "gas"), None);
    assert_eq!(unit_at(&after, "mar"), Some((t("I"), None)));
    assert_eq!(unit_at(&after, "bre"), Some((t("E"), None)));
    let retreat = retreats.get("bur").unwrap();
    assert_eq!(places(retreat), vec![(t("par"), t(""))]);
}

#[test]
fn fleet_arrives_on_the_coast_it_was_sent_to() {
    let map = world();
    let mut state = MapState::new();
    fleet(&mut state, "gas", "F", "");
    let mut orders: Orders = Table::new();
    mv(&mut orders, "gas", "spa", "nc");
    assert!(check_position(&map, &state, &orders));
    let (after, retreats) = apply_adjudication(&map, &state, &orders, &known(&[("gas", true)]));
    assert_eq!(unit_at(&after, "spa"), Some((t("F"), Some(t("nc")))));
    assert_eq!(unit_at(&after, "gas"), None);
    assert_eq!(retreats.len(), 0);
}

#[test]
fn dislodged_fleet_retreats_from_its_coast() {
    let map = world();
    let mut state = MapState::new();
    fleet(&mut state, "spa", "I", "sc");
    army(&mut state, "gas", "F");
    army(&mut state, "mar", "F");
    fleet(&mut state, "wes", "F", "");
    let mut orders: Orders = Table::new();
    orders.insert(t("spa"), Order::Hold(Hold));
    mv(&mut orders, "gas", "spa", "");
    orders.insert(t("mar"), Order::SupportMove(SupportMove { src: t("gas"), dest: t("spa") }));
    orders.insert(t("wes"), Order::Hold(Hold));
    assert!(check_position(&map, &state, &orders));
    let status = known(&[("spa", false), ("gas", true), ("mar", true), ("wes", true)]);
    let (after, retreats) = apply_adjudication(&map, &state, &orders, &status);
    assert_eq!(unit_at(&after, "spa"), Some((t("F"), None)));
    let retreat = retreats.get("spa").unwrap();
    // from the south coast: mao is free, wes is occupied; gas is reached from the north coast only
    assert_eq!(places(retreat), vec![(t("mao"), t(""))]);
}

#[test]
fn units_without_a_successful_move_stay() {
    let map = world();
    let mut state = MapState::new();
    army(&mut state, "par", "F");
    army(&mut state, "bur", "G");
    army(&mut state, "mar", "I");
    army(&mut state, "bre", "E");
    let mut orders: Orders = Table::new();
    mv(&mut orders, "par", "bur", "");
    mv(&mut orders, "bur", "par", "");
    orders.insert(t("mar"), Order::Hold(Hold));
    assert!(check_position(&map, &state, &orders));
    let (after, retreats) = apply_adjudication(&map, &state, &orders, &known(&[("par", false)]));
    assert_eq!(unit_at(&after, "par"), Some((t("F"), None)));
    assert_eq!(unit_at(&after, "bur"), Some((t("G"), None)));
    assert_eq!(unit_at(&after, "mar"), Some((t("I"), None)));
    assert_eq!(unit_at(&after, "bre"), Some((t("E"), None)));
    assert_eq!(after.units.len(), 4);
    assert_eq!(retreats.len(), 0);
}

#[test]
fn units_that_swap_places_dislodge_nobody() {
    let map = world();
    let mut state = MapState::new();
    army(&mut state, "par", "F");
    army(&mut state, "bur", "G");
    army(&mut state, "gas", "I");
    let mut orders: Orders = Table::new();
    mv(&mut orders, "par", "bur", "");
    mv(&mut orders, "bur", "gas", "");
    mv(&mut orders, "gas", "par", "");
    assert!(check_position(&map, &state, &orders));
    let status = known(&[("par", true), ("bur", true), ("gas", true)]);
    let (after, retreats) = apply_adjudication(&map, &state, &orders, &status);
    assert_eq!(unit_at(&after, "bur"), Some((t("F"), None)));
    assert_eq!(unit_at(&after, "gas"), Some((t("G"), None)));
    assert_eq!(unit_at(&after, "par"), Some((t("I"), None)));
    assert_eq!(retreats.len(), 0);
}

#[test]
fn units_and_supply_centres_are_counted_by_power() {
    let mut state = MapState::new();
    army(&mut state, "par", "F");
    army(&mut state, "bur", "G");
    fleet(&mut state, "mao", "F", "");
    state.ownership.insert(t("par"), t("F"));
    state.ownership.insert(t("mar"), t("F"));
    state.ownership.insert(t("bre"), t("F"));
    state.ownership.insert(t("mun"), t("G"));
    assert_eq!(count_units(&state, "F"), 2);
    assert_eq!(count_units(&state, "G"), 1);
    assert_eq!(count_units(&state, "E"), 0);
    assert_eq!(count_supply(&state, "F"), 3);
    assert_eq!(count_supply(&state, "G"), 1);
    assert_eq!(count_supply(&state, "E"), 0);
}
