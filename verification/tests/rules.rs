use radip::base::{
    compute_attack_strength, compute_defend_strength, compute_hold_strength, compute_prevent_strength,
    deps_for_hold, deps_for_tap, is_convoy_path, is_direct_path, is_dislodged, is_head_to_head, is_path,
    is_path_along, is_untapped, moves_to, province_is_sea, sea_linked, status_of, unit_can_reach, untapped_but,
    OrderStatus,
};
use radip::board::{GameMap, MapState, Province, Unit};
use radip::check_position;
use radip::keyset::KeySet;
use radip::order::{Convoy, Core, Hold, Move, Order, Orders, SupportHold, SupportMove};
use radip::paradox::{dependency_graph, get_cycle_at};
use radip::restricted_status;
use radip::table::Table;

fn t(text: &str) -> String {
    text.to_string()
}

fn world() -> GameMap {
    let mut map = GameMap::new();
    for name in ["par", "bur", "mar", "gas", "pic", "lon", "wal", "bel", "nwy", "bre"] {
        map.provinces.insert(t(name), Province { coasts: KeySet::new(), is_sea: false });
    }
    let mut coasts = KeySet::new();
    coasts.insert(t("nc"));
    coasts.insert(t("sc"));
    map.provinces.insert(t("spa"), Province { coasts, is_sea: false });
    for name in ["eng", "nth", "mao", "iri"] {
        map.provinces.insert(t(name), Province { coasts: KeySet::new(), is_sea: true });
    }
    let army_pairs = [
        ("par", "bur"), ("mar", "bur"), ("par", "gas"), ("mar", "gas"), ("bur", "gas"), ("par", "pic"),
        ("bur", "pic"), ("lon", "wal"), ("pic", "bel"), ("bur", "bel"), ("gas", "spa"), ("mar", "spa"),
        ("par", "bre"), ("gas", "bre"),
    ];
    for (a, b) in army_pairs {
        map.army_adj.insert((t(a), t(b)));
        map.army_adj.insert((t(b), t(a)));
    }
    let fleet_pairs = [
        ("lon", "eng"), ("wal", "eng"), ("bre", "eng"), ("bel", "eng"), ("pic", "eng"), ("lon", "nth"),
        ("nwy", "nth"), ("bel", "nth"), ("eng", "nth"), ("lon", "wal"), ("eng", "mao"), ("bre", "mao"),
        ("gas", "mao"), ("eng", "iri"), ("mao", "iri"), ("wal", "iri"),
    ];
    for (a, b) in fleet_pairs {
        map.fleet_adj.insert(((t(a), t("")), (t(b), t(""))));
        map.fleet_adj.insert(((t(b), t("")), (t(a), t(""))));
    }
    map.fleet_adj.insert(((t("gas"), t("")), (t("spa"), t("nc"))));
    map.fleet_adj.insert(((t("mao"), t("")), (t("spa"), t("nc"))));
    map.fleet_adj.insert(((t("mao"), t("")), (t("spa"), t("sc"))));
    map.fleet_adj.insert(((t("spa"), t("nc")), (t("gas"), t(""))));
    map.fleet_adj.insert(((t("mao"), t("")), (t("spa"), t(""))));
    map
}

fn army(state: &mut MapState, prov: &str, nation: &str) {
    state.units.insert(t(prov), Unit::Army(t(nation)));
}

fn fleet(state: &mut MapState, prov: &str, nation: &str, coast: &str) {
    state.units.insert(t(prov), Unit::Fleet(t(nation), t(coast)));
}

fn mv(orders: &mut Orders, from: &str, to: &str) {
    orders.insert(t(from), Order::Move(Move { dest: (t(to), t("")) }));
}

fn mv_coast(orders: &mut Orders, from: &str, to: &str, coast: &str) {
    orders.insert(t(from), Order::Move(Move { dest: (t(to), t(coast)) }));
}

fn hold(orders: &mut Orders, at: &str) {
    orders.insert(t(at), Order::Hold(Hold));
}

fn support_move(orders: &mut Orders, at: &str, from: &str, to: &str) {
    orders.insert(t(at), Order::SupportMove(SupportMove { src: t(from), dest: t(to) }));
}

fn support_hold(orders: &mut Orders, at: &str, target: &str) {
    orders.insert(t(at), Order::SupportHold(SupportHold { target: t(target) }));
}

fn convoy(orders: &mut Orders, at: &str, from: &str, to: &str) {
    orders.insert(t(at), Order::Convoy(Convoy { src: t(from), dest: t(to) }));
}

fn known(pairs: &[(&str, bool)]) -> OrderStatus {
    let mut status: OrderStatus = Table::new();
    for (prov, value) in pairs {
        status.insert(t(prov), *value);
    }
    status
}

fn names(set: &KeySet<String>) -> Vec<String> {
    let mut all = Vec::new();
    for i in 0..set.len() {
        all.push(set.at(i).clone());
    }
    all.sort();
    all
}

#[test]
fn hold_strength_of_an_empty_province_is_zero() {
    let map = world();
    let state = MapState::new();
    let orders: Orders = Table::new();
    let b = compute_hold_strength(&map, &state, &orders, &known(&[]), "bur");
    assert_eq!((b.min, b.max), (0, 0));
}

#[test]
fn hold_strength_counts_supports_by_what_is_known() {
    let map = world();
    let mut state = MapState::new();
    army(&mut state, "bur", "G");
    army(&mut state, "par", "G");
    army(&mut state, "mar", "G");
    army(&mut state, "gas", "G");
    let mut orders: Orders = Table::new();
    hold(&mut orders, "bur");
    support_hold(&mut orders, "par", "bur");
    support_hold(&mut orders, "mar", "bur");
    support_hold(&mut orders, "gas", "bur");
    let b = compute_hold_strength(&map, &state, &orders, &known(&[("par", true), ("mar", false)]), "bur");
    assert_eq!((b.min, b.max), (2, 3));
    let b = compute_hold_strength(&map, &state, &orders, &known(&[]), "bur");
    assert_eq!((b.min, b.max), (1, 4));
    let b = compute_hold_strength(
        &map,
        &state,
        &orders,
        &known(&[("par", true), ("mar", true), ("gas", true)]),
        "bur",
    );
    assert_eq!((b.min, b.max), (4, 4));
}

#[test]
fn hold_strength_of_a_unit_without_order_is_one() {
    let map = world();
    let mut state = MapState::new();
    army(&mut state, "bur", "G");
    let orders: Orders = Table::new();
    let b = compute_hold_strength(&map, &state, &orders, &known(&[]), "bur");
    assert_eq!((b.min, b.max), (1, 1));
}

#[test]
fn hold_strength_of_a_mover_follows_its_move() {
    let map = world();
    let mut state = MapState::new();
    army(&mut state, "bur", "G");
    army(&mut state, "par", "G");
    let mut orders: Orders = Table::new();
    mv(&mut orders, "bur", "pic");
    support_hold(&mut orders, "par", "bur");
    let b = compute_hold_strength(&map, &state, &orders, &known(&[("par", true)]), "bur");
    assert_eq!((b.min, b.max), (0, 1));
    let b = compute_hold_strength(&map, &state, &orders, &known(&[("bur", true)]), "bur");
    assert_eq!((b.min, b.max), (0, 0));
    let b = compute_hold_strength(&map, &state, &orders, &known(&[("bur", false), ("par", true)]), "bur");
    assert_eq!((b.min, b.max), (1, 1));
}

#[test]
fn defend_strength_counts_supports_of_the_move() {
    let map = world();
    let mut state = MapState::new();
    army(&mut state, "par", "F");
    army(&mut state, "mar", "F");
    army(&mut state, "pic", "F");
    army(&mut state, "gas", "F");
    let mut orders: Orders = Table::new();
    mv(&mut orders, "par", "bur");
    support_move(&mut orders, "mar", "par", "bur");
    support_move(&mut orders, "pic", "par", "bur");
    support_move(&mut orders, "gas", "par", "pic");
    assert!(check_position(&map, &state, &orders));
    let b = compute_defend_strength(&map, &state, &orders, &known(&[("mar", true)]), "par");
    assert_eq!((b.min, b.max), (2, 3));
    let b = compute_defend_strength(&map, &state, &orders, &known(&[("mar", false), ("pic", false)]), "par");
    assert_eq!((b.min, b.max), (1, 1));
}

#[test]
fn strengths_of_a_move_without_path_are_zero() {
    let map = world();
    let mut state = MapState::new();
    army(&mut state, "par", "F");
    army(&mut state, "bur", "F");
    let mut orders: Orders = Table::new();
    mv(&mut orders, "par", "mar");
    support_move(&mut orders, "bur", "par", "mar");
    assert!(check_position(&map, &state, &orders));
    let status = known(&[("bur", true)]);
    let b = compute_defend_strength(&map, &state, &orders, &status, "par");
    assert_eq!((b.min, b.max), (0, 0));
    let b = compute_attack_strength(&map, &state, &orders, &status, "par");
    assert_eq!((b.min, b.max), (0, 0));
    let b = compute_prevent_strength(&map, &state, &orders, &status, "par");
    assert_eq!((b.min, b.max), (0, 0));
}

#[test]
fn strengths_of_a_move_with_open_path_may_be_zero() {
    let map = world();
    let mut state = MapState::new();
    army(&mut state, "lon", "E");
    fleet(&mut state, "nth", "E", "");
    let mut orders: Orders = Table::new();
    mv(&mut orders, "lon", "nwy");
    convoy(&mut orders, "nth", "lon", "nwy");
    assert!(check_position(&map, &state, &orders));
    let b = compute_attack_strength(&map, &state, &orders, &known(&[]), "lon");
    assert_eq!((b.min, b.max), (0, 1));
    let b = compute_defend_strength(&map, &state, &orders, &known(&[]), "lon");
    assert_eq!((b.min, b.max), (0, 1));
    let b = compute_attack_strength(&map, &state, &orders, &known(&[("nth", true)]), "lon");
    assert_eq!((b.min, b.max), (1, 1));
}

#[test]
fn attack_on_own_unit_that_stays_is_zero() {
    let map = world();
    let mut state = MapState::new();
    army(&mut state, "par", "F");
    army(&mut state, "bur", "F");
    army(&mut state, "mar", "F");
    let mut orders: Orders = Table::new();
    mv(&mut orders, "par", "bur");
    hold(&mut orders, "bur");
    support_move(&mut orders, "mar", "par", "bur");
    assert!(check_position(&map, &state, &orders));
    let b = compute_attack_strength(&map, &state, &orders, &known(&[("mar", true)]), "par");
    assert_eq!((b.min, b.max), (0, 0));
    let b = compute_defend_strength(&map, &state, &orders, &known(&[("mar", true)]), "par");
    assert_eq!((b.min, b.max), (2, 2));
}

#[test]
fn attack_on_own_unit_that_may_leave_is_open() {
    let map = world();
    let mut state = MapState::new();
    army(&mut state, "par", "F");
    army(&mut state, "bur", "F");
    let mut orders: Orders = Table::new();
    mv(&mut orders, "par", "bur");
    mv(&mut orders, "bur", "pic");
    assert!(check_position(&map, &state, &orders));
    let b = compute_attack_strength(&map, &state, &orders, &known(&[]), "par");
    assert_eq!((b.min, b.max), (0, 1));
    let b = compute_attack_strength(&map, &state, &orders, &known(&[("bur", true)]), "par");
    assert_eq!((b.min, b.max), (1, 1));
    let b = compute_attack_strength(&map, &state, &orders, &known(&[("bur", false)]), "par");
    assert_eq!((b.min, b.max), (0, 0));
}

#[test]
fn support_against_own_unit_does_not_count_for_attack() {
    let map = world();
    let mut state = MapState::new();
    army(&mut state, "par", "F");
    army(&mut state, "bur", "G");
    army(&mut state, "mar", "G");
    army(&mut state, "pic", "F");
    let mut orders: Orders = Table::new();
    mv(&mut orders, "par", "bur");
    hold(&mut orders, "bur");
    support_move(&mut orders, "mar", "par", "bur");
    support_move(&mut orders, "pic", "par", "bur");
    assert!(check_position(&map, &state, &orders));
    let status = known(&[("mar", true), ("pic", true)]);
    let b = compute_attack_strength(&map, &state, &orders, &status, "par");
    assert_eq!((b.min, b.max), (2, 2));
    let b = compute_defend_strength(&map, &state, &orders, &status, "par");
    assert_eq!((b.min, b.max), (3, 3));
    let b = compute_attack_strength(&map, &state, &orders, &known(&[]), "par");
    assert_eq!((b.min, b.max), (1, 2));
}

#[test]
fn support_against_own_unit_that_may_leave_counts_for_the_upper_bound() {
    let map = world();
    let mut state = MapState::new();
    army(&mut state, "par", "F");
    army(&mut state, "bur", "G");
    army(&mut state, "mar", "G");
    let mut orders: Orders = Table::new();
    mv(&mut orders, "par", "bur");
    mv(&mut orders, "bur", "pic");
    support_move(&mut orders, "mar", "par", "bur");
    assert!(check_position(&map, &state, &orders));
    let b = compute_attack_strength(&map, &state, &orders, &known(&[("mar", true)]), "par");
    assert_eq!((b.min, b.max), (1, 2));
    let b = compute_attack_strength(&map, &state, &orders, &known(&[("mar", true), ("bur", true)]), "par");
    assert_eq!((b.min, b.max), (2, 2));
    let b = compute_attack_strength(&map, &state, &orders, &known(&[("mar", true), ("bur", false)]), "par");
    assert_eq!((b.min, b.max), (1, 1));
}

#[test]
fn prevent_strength_in_a_head_to_head_battle() {
    let map = world();
    let mut state = MapState::new();
    army(&mut state, "par", "F");
    army(&mut state, "bur", "G");
    let mut orders: Orders = Table::new();
    mv(&mut orders, "par", "bur");
    mv(&mut orders, "bur", "par");
    assert!(check_position(&map, &state, &orders));
    let b = compute_prevent_strength(&map, &state, &orders, &known(&[]), "par");
    assert_eq!((b.min, b.max), (0, 1));
    let b = compute_prevent_strength(&map, &state, &orders, &known(&[("bur", true)]), "par");
    assert_eq!((b.min, b.max), (0, 0));
    let b = compute_prevent_strength(&map, &state, &orders, &known(&[("bur", false)]), "par");
    assert_eq!((b.min, b.max), (1, 1));
}

#[test]
fn prevent_strength_outside_a_head_to_head_battle_is_the_defend_strength() {
    let map = world();
    let mut state = MapState::new();
    army(&mut state, "par", "F");
    army(&mut state, "mar", "F");
    let mut orders: Orders = Table::new();
    mv(&mut orders, "par", "bur");
    support_move(&mut orders, "mar", "par", "bur");
    assert!(check_position(&map, &state, &orders));
    let b = compute_prevent_strength(&map, &state, &orders, &known(&[("mar", true)]), "par");
    assert_eq!((b.min, b.max), (2, 2));
}

#[test]
fn direct_path_of_an_army_is_army_adjacency() {
    let map = world();
    let mut state = MapState::new();
    army(&mut state, "par", "F");
    army(&mut state, "mar", "F");
    let mut orders: Orders = Table::new();
    mv(&mut orders, "par", "bur");
    mv(&mut orders, "mar", "par");
    assert!(is_direct_path(&map, &state, &orders, "par"));
    assert!(!is_direct_path(&map, &state, &orders, "mar"));
}

#[test]
fn direct_path_of_a_fleet_needs_a_coast_of_the_destination() {
    let map = world();
    let mut state = MapState::new();
    fleet(&mut state, "gas", "F", "");
    fleet(&mut state, "mao", "F", "");
    fleet(&mut state, "eng", "E", "");
    fleet(&mut state, "spa", "I", "nc");
    let mut orders: Orders = Table::new();
    mv_coast(&mut orders, "gas", "spa", "nc");
    assert!(is_direct_path(&map, &state, &orders, "gas"));
    mv_coast(&mut orders, "gas", "spa", "sc");
    assert!(!is_direct_path(&map, &state, &orders, "gas"));
    mv_coast(&mut orders, "mao", "spa", "");
    assert!(!is_direct_path(&map, &state, &orders, "mao"));
    mv_coast(&mut orders, "mao", "spa", "ec");
    assert!(!is_direct_path(&map, &state, &orders, "mao"));
    mv_coast(&mut orders, "eng", "mao", "");
    assert!(is_direct_path(&map, &state, &orders, "eng"));
    mv_coast(&mut orders, "eng", "mao", "nc");
    assert!(!is_direct_path(&map, &state, &orders, "eng"));
    mv_coast(&mut orders, "spa", "gas", "");
    assert!(is_direct_path(&map, &state, &orders, "spa"));
    fleet(&mut state, "spa", "I", "sc");
    assert!(!is_direct_path(&map, &state, &orders, "spa"));
}

#[test]
fn path_along_needs_at_least_one_fleet() {
    let map = world();
    let none: KeySet<String> = KeySet::new();
    assert!(!is_path_along(&map, "lon", "wal", &none));
    assert!(!is_path_along(&map, "lon", "nwy", &none));
    let mut one: KeySet<String> = KeySet::new();
    one.insert(t("nth"));
    assert!(is_path_along(&map, "lon", "nwy", &one));
    assert!(is_path_along(&map, "lon", "bel", &one));
    assert!(!is_path_along(&map, "lon", "bre", &one));
    assert!(!is_path_along(&map, "wal", "nwy", &one));
}

#[test]
fn path_along_follows_a_chain_of_fleets() {
    let map = world();
    let mut far: KeySet<String> = KeySet::new();
    far.insert(t("mao"));
    assert!(!is_path_along(&map, "nwy", "gas", &far));
    far.insert(t("nth"));
    assert!(!is_path_along(&map, "nwy", "gas", &far));
    far.insert(t("eng"));
    assert!(is_path_along(&map, "nwy", "gas", &far));
    assert!(is_path_along(&map, "nwy", "wal", &far));
    let mut round: KeySet<String> = KeySet::new();
    round.insert(t("iri"));
    round.insert(t("mao"));
    round.insert(t("nth"));
    assert!(!is_path_along(&map, "nwy", "gas", &round));
    assert!(is_path_along(&map, "wal", "gas", &round));
}

#[test]
fn a_fleet_named_like_the_source_carries_nothing() {
    let map = world();
    let mut fleets: KeySet<String> = KeySet::new();
    fleets.insert(t("eng"));
    assert!(!is_path_along(&map, "eng", "lon", &fleets));
    fleets.insert(t("nth"));
    assert!(is_path_along(&map, "eng", "lon", &fleets));
}

#[test]
fn convoy_path_is_three_valued() {
    let map = world();
    let mut state = MapState::new();
    army(&mut state, "lon", "E");
    fleet(&mut state, "nth", "E", "");
    let mut orders: Orders = Table::new();
    mv(&mut orders, "lon", "nwy");
    convoy(&mut orders, "nth", "lon", "nwy");
    assert!(check_position(&map, &state, &orders));
    assert_eq!(is_convoy_path(&map, &state, &orders, &known(&[]), "lon"), None);
    assert_eq!(is_convoy_path(&map, &state, &orders, &known(&[("nth", true)]), "lon"), Some(true));
    assert_eq!(is_convoy_path(&map, &state, &orders, &known(&[("nth", false)]), "lon"), Some(false));
    assert_eq!(is_path(&map, &state, &orders, &known(&[]), "lon"), None);
    assert_eq!(is_path(&map, &state, &orders, &known(&[("nth", true)]), "lon"), Some(true));
    assert_eq!(is_path(&map, &state, &orders, &known(&[("nth", false)]), "lon"), Some(false));
}

#[test]
fn convoy_for_another_move_carries_nothing() {
    let map = world();
    let mut state = MapState::new();
    army(&mut state, "lon", "E");
    fleet(&mut state, "nth", "E", "");
    let mut orders: Orders = Table::new();
    mv(&mut orders, "lon", "nwy");
    convoy(&mut orders, "nth", "lon", "bel");
    assert!(check_position(&map, &state, &orders));
    assert_eq!(is_convoy_path(&map, &state, &orders, &known(&[("nth", true)]), "lon"), Some(false));
}

#[test]
fn fleet_has_no_convoy_path() {
    let map = world();
    let mut state = MapState::new();
    fleet(&mut state, "lon", "E", "");
    fleet(&mut state, "nth", "E", "");
    let mut orders: Orders = Table::new();
    mv(&mut orders, "lon", "nwy");
    convoy(&mut orders, "nth", "lon", "nwy");
    assert!(check_position(&map, &state, &orders));
    assert_eq!(is_convoy_path(&map, &state, &orders, &known(&[("nth", true)]), "lon"), Some(false));
    assert_eq!(is_path(&map, &state, &orders, &known(&[("nth", true)]), "lon"), Some(false));
}

#[test]
fn nothing_is_convoyed_to_a_sea() {
    let map = world();
    let mut state = MapState::new();
    army(&mut state, "lon", "E");
    fleet(&mut state, "nth", "E", "");
    let mut orders: Orders = Table::new();
    mv(&mut orders, "lon", "eng");
    convoy(&mut orders, "nth", "lon", "eng");
    assert!(check_position(&map, &state, &orders));
    assert_eq!(is_convoy_path(&map, &state, &orders, &known(&[("nth", true)]), "lon"), Some(false));
}

#[test]
fn fleet_on_land_convoys_nothing() {
    let map = world();
    let mut state = MapState::new();
    army(&mut state, "wal", "E");
    fleet(&mut state, "lon", "E", "");
    let mut orders: Orders = Table::new();
    mv(&mut orders, "wal", "bel");
    convoy(&mut orders, "lon", "wal", "bel");
    assert!(check_position(&map, &state, &orders));
    assert_eq!(is_convoy_path(&map, &state, &orders, &known(&[]), "wal"), Some(false));
}

#[test]
fn direct_path_needs_no_convoy() {
    let map = world();
    let mut state = MapState::new();
    army(&mut state, "par", "F");
    let mut orders: Orders = Table::new();
    mv(&mut orders, "par", "bur");
    assert!(check_position(&map, &state, &orders));
    assert_eq!(is_path(&map, &state, &orders, &known(&[]), "par"), Some(true));
    assert_eq!(is_convoy_path(&map, &state, &orders, &known(&[]), "par"), Some(false));
}

#[test]
fn head_to_head_needs_two_unconvoyed_moves() {
    let map = world();
    let mut state = MapState::new();
    army(&mut state, "par", "F");
    army(&mut state, "bur", "G");
    army(&mut state, "mar", "G");
    let mut orders: Orders = Table::new();
    mv(&mut orders, "par", "bur");
    mv(&mut orders, "bur", "par");
    mv(&mut orders, "mar", "bur");
    assert!(check_position(&map, &state, &orders));
    assert_eq!(is_head_to_head(&map, &state, &orders, &known(&[]), "par"), Some(true));
    assert_eq!(is_head_to_head(&map, &state, &orders, &known(&[]), "bur"), Some(true));
    assert_eq!(is_head_to_head(&map, &state, &orders, &known(&[]), "mar"), Some(false));
}

#[test]
fn swap_by_convoy_is_no_head_to_head() {
    let map = world();
    let mut state = MapState::new();
    army(&mut state, "pic", "F");
    army(&mut state, "bel", "E");
    fleet(&mut state, "eng", "F", "");
    let mut orders: Orders = Table::new();
    mv(&mut orders, "pic", "bel");
    mv(&mut orders, "bel", "pic");
    convoy(&mut orders, "eng", "pic", "bel");
    assert!(check_position(&map, &state, &orders));
    assert_eq!(is_head_to_head(&map, &state, &orders, &known(&[]), "pic"), None);
    assert_eq!(is_head_to_head(&map, &state, &orders, &known(&[]), "bel"), None);
    assert_eq!(is_head_to_head(&map, &state, &orders, &known(&[("eng", true)]), "pic"), Some(false));
    assert_eq!(is_head_to_head(&map, &state, &orders, &known(&[("eng", true)]), "bel"), Some(false));
    assert_eq!(is_head_to_head(&map, &state, &orders, &known(&[("eng", false)]), "pic"), Some(true));
}

#[test]
fn dislodgement_follows_the_moves_into_the_province() {
    let map = world();
    let mut state = MapState::new();
    army(&mut state, "par", "F");
    army(&mut state, "mar", "F");
    army(&mut state, "bur", "G");
    let mut orders: Orders = Table::new();
    mv(&mut orders, "par", "bur");
    mv(&mut orders, "mar", "bur");
    hold(&mut orders, "bur");
    assert_eq!(is_dislodged(&map, &state, &orders, "bur", &known(&[])), None);
    assert_eq!(is_dislodged(&map, &state, &orders, "bur", &known(&[("par", false)])), None);
    assert_eq!(is_dislodged(&map, &state, &orders, "bur", &known(&[("par", false), ("mar", false)])), Some(true));
    assert_eq!(is_dislodged(&map, &state, &orders, "bur", &known(&[("mar", true)])), Some(false));
    assert_eq!(is_dislodged(&map, &state, &orders, "gas", &known(&[])), Some(true));
}

#[test]
fn support_is_cut_by_a_foreign_mover_with_a_path() {
    let map = world();
    let mut state = MapState::new();
    army(&mut state, "mar", "F");
    army(&mut state, "gas", "G");
    army(&mut state, "par", "F");
    let mut orders: Orders = Table::new();
    support_move(&mut orders, "mar", "par", "bur");
    mv(&mut orders, "gas", "mar");
    mv(&mut orders, "par", "bur");
    assert!(check_position(&map, &state, &orders));
    assert_eq!(is_untapped(&map, &state, &orders, &known(&[]), "mar", ""), Some(false));
    assert_eq!(is_untapped(&map, &state, &orders, &known(&[("gas", false)]), "mar", ""), Some(false));
    // the mover out of the excepted province never cuts
    assert_eq!(is_untapped(&map, &state, &orders, &known(&[]), "mar", "gas"), Some(true));
    assert_eq!(is_untapped(&map, &state, &orders, &known(&[("gas", false)]), "mar", "gas"), Some(true));
    assert_eq!(is_untapped(&map, &state, &orders, &known(&[("gas", true)]), "mar", "gas"), Some(true));
    assert_eq!(untapped_but(&map, &state, &orders, &known(&[]), "mar", Some("gas")), Some(true));
    assert_eq!(untapped_but(&map, &state, &orders, &known(&[]), "mar", Some("par")), Some(false));
    assert_eq!(untapped_but(&map, &state, &orders, &known(&[]), "mar", None), Some(false));
}

#[test]
fn attack_from_the_supported_destination_does_not_cut() {
    let map = world();
    let mut state = MapState::new();
    army(&mut state, "par", "F");
    army(&mut state, "mar", "F");
    army(&mut state, "bur", "G");
    army(&mut state, "gas", "G");
    let mut orders: Orders = Table::new();
    mv(&mut orders, "par", "bur");
    support_move(&mut orders, "mar", "par", "bur");
    mv(&mut orders, "bur", "mar");
    assert!(check_position(&map, &state, &orders));
    let support = orders.get("mar").unwrap();
    for status in [known(&[]), known(&[("bur", false)]), known(&[("bur", true)])] {
        assert_eq!(support.adjudicate(&map, &state, &orders, "mar", &status), Some(true));
    }
    // an attack from elsewhere cuts as ever
    mv(&mut orders, "gas", "mar");
    assert!(check_position(&map, &state, &orders));
    let support = orders.get("mar").unwrap();
    assert_eq!(support.adjudicate(&map, &state, &orders, "mar", &known(&[])), Some(false));
    // and a support to hold has no such exception
    let guard = SupportHold { target: t("par") };
    hold(&mut orders, "par");
    hold(&mut orders, "gas");
    assert!(check_position(&map, &state, &orders));
    assert_eq!(guard.adjudicate(&map, &state, &orders, "mar", &known(&[])), Some(false));
}

#[test]
fn support_is_not_cut_by_a_mover_of_the_same_nation() {
    let map = world();
    let mut state = MapState::new();
    army(&mut state, "mar", "F");
    army(&mut state, "gas", "F");
    let mut orders: Orders = Table::new();
    hold(&mut orders, "mar");
    mv(&mut orders, "gas", "mar");
    assert!(check_position(&map, &state, &orders));
    assert_eq!(is_untapped(&map, &state, &orders, &known(&[]), "mar", ""), Some(true));
}

#[test]
fn support_is_not_cut_by_a_mover_without_path() {
    let map = world();
    let mut state = MapState::new();
    army(&mut state, "mar", "F");
    army(&mut state, "pic", "G");
    army(&mut state, "lon", "E");
    fleet(&mut state, "nth", "E", "");
    army(&mut state, "bel", "F");
    let mut orders: Orders = Table::new();
    hold(&mut orders, "mar");
    mv(&mut orders, "pic", "mar");
    assert!(check_position(&map, &state, &orders));
    assert_eq!(is_untapped(&map, &state, &orders, &known(&[]), "mar", ""), Some(true));
    // a convoyed attack cuts once the convoy is known to succeed
    hold(&mut orders, "bel");
    mv(&mut orders, "lon", "bel");
    convoy(&mut orders, "nth", "lon", "bel");
    assert!(check_position(&map, &state, &orders));
    assert_eq!(is_untapped(&map, &state, &orders, &known(&[]), "bel", ""), None);
    assert_eq!(is_untapped(&map, &state, &orders, &known(&[("nth", true)]), "bel", ""), Some(false));
    assert_eq!(is_untapped(&map, &state, &orders, &known(&[("nth", false)]), "bel", ""), Some(true));
}

#[test]
fn hold_depends_on_the_moves_into_its_province() {
    let map = world();
    let mut state = MapState::new();
    army(&mut state, "par", "F");
    army(&mut state, "mar", "F");
    army(&mut state, "bur", "G");
    army(&mut state, "gas", "G");
    let mut orders: Orders = Table::new();
    mv(&mut orders, "par", "bur");
    mv(&mut orders, "mar", "bur");
    hold(&mut orders, "bur");
    mv(&mut orders, "gas", "par");
    let deps = deps_for_hold(&map, &state, &orders, "bur");
    assert_eq!(names(&deps), vec![t("mar"), t("par")]);
    let order = Order::Hold(Hold);
    assert!(check_position(&map, &state, &orders));
    assert_eq!(names(&order.deps(&map, &state, &orders, "bur")), vec![t("mar"), t("par")]);
}

#[test]
fn support_depends_on_foreign_movers_and_their_convoys() {
    let map = world();
    let mut state = MapState::new();
    army(&mut state, "bel", "F");
    army(&mut state, "pic", "F");
    army(&mut state, "bur", "G");
    army(&mut state, "lon", "E");
    fleet(&mut state, "nth", "E", "");
    fleet(&mut state, "eng", "E", "");
    army(&mut state, "wal", "E");
    let mut orders: Orders = Table::new();
    orders.insert(t("bel"), Order::Core(Core));
    mv(&mut orders, "pic", "bel");
    mv(&mut orders, "bur", "bel");
    mv(&mut orders, "lon", "bel");
    convoy(&mut orders, "nth", "lon", "bel");
    convoy(&mut orders, "eng", "wal", "bel");
    hold(&mut orders, "wal");
    assert!(check_position(&map, &state, &orders));
    let deps = deps_for_tap(&map, &state, &orders, "bel");
    assert_eq!(names(&deps), vec![t("bur"), t("lon"), t("nth")]);
    let order = Order::Core(Core);
    assert_eq!(names(&order.deps(&map, &state, &orders, "bel")), vec![t("bur"), t("lon"), t("nth")]);
}

#[test]
fn move_depends_on_what_opposes_and_what_supports_it() {
    let map = world();
    let mut state = MapState::new();
    for (prov, nation) in [("par", "F"), ("bur", "G"), ("mar", "F"), ("gas", "G"), ("pic", "E"), ("bel", "E")] {
        army(&mut state, prov, nation);
    }
    let mut orders: Orders = Table::new();
    mv(&mut orders, "par", "bur");
    mv(&mut orders, "bur", "par");
    support_move(&mut orders, "mar", "par", "bur");
    support_move(&mut orders, "gas", "bur", "par");
    mv(&mut orders, "pic", "bur");
    support_hold(&mut orders, "bel", "bur");
    assert!(check_position(&map, &state, &orders));
    let order = Move { dest: (t("bur"), t("")) };
    let deps = order.deps(&map, &state, &orders, "par");
    // bel supports a unit that moves, so the support does not matter
    assert_eq!(names(&deps), vec![t("bur"), t("gas"), t("mar"), t("pic")]);
    hold(&mut orders, "bur");
    let deps = order.deps(&map, &state, &orders, "par");
    assert_eq!(names(&deps), vec![t("bel"), t("mar"), t("pic")]);
}

#[test]
fn move_depends_on_the_convoys_of_both_sides() {
    let map = world();
    let mut state = MapState::new();
    army(&mut state, "pic", "F");
    army(&mut state, "bel", "E");
    fleet(&mut state, "eng", "F", "");
    fleet(&mut state, "nth", "E", "");
    let mut orders: Orders = Table::new();
    mv(&mut orders, "pic", "bel");
    mv(&mut orders, "bel", "pic");
    convoy(&mut orders, "eng", "pic", "bel");
    convoy(&mut orders, "nth", "bel", "pic");
    assert!(check_position(&map, &state, &orders));
    let order = Move { dest: (t("bel"), t("")) };
    assert_eq!(names(&order.deps(&map, &state, &orders, "pic")), vec![t("bel"), t("eng"), t("nth")]);
}

#[test]
fn orders_that_fail_at_once_depend_on_nothing() {
    let map = world();
    let mut state = MapState::new();
    army(&mut state, "par", "F");
    army(&mut state, "bur", "G");
    army(&mut state, "mar", "G");
    fleet(&mut state, "lon", "E", "");
    army(&mut state, "wal", "G");
    let mut orders: Orders = Table::new();
    mv(&mut orders, "par", "par");
    mv(&mut orders, "bur", "par");
    support_hold(&mut orders, "mar", "bur");
    convoy(&mut orders, "lon", "wal", "bel");
    mv(&mut orders, "wal", "lon");
    assert!(check_position(&map, &state, &orders));
    let status = known(&[]);
    for prov in ["par", "mar", "lon"] {
        let order = orders.get(prov).unwrap();
        assert_eq!(order.deps(&map, &state, &orders, prov).len(), 0);
        assert_eq!(order.adjudicate(&map, &state, &orders, prov, &status), Some(false));
    }
}

#[test]
fn support_of_a_move_that_is_not_made_fails() {
    let map = world();
    let mut state = MapState::new();
    army(&mut state, "par", "F");
    army(&mut state, "mar", "F");
    army(&mut state, "pic", "F");
    army(&mut state, "gas", "F");
    let mut orders: Orders = Table::new();
    mv(&mut orders, "par", "bur");
    support_move(&mut orders, "mar", "par", "gas");
    support_move(&mut orders, "pic", "bel", "bur");
    // gas is next to bur, but par is not ordered from gas
    support_move(&mut orders, "gas", "gas", "gas");
    assert!(check_position(&map, &state, &orders));
    let status = known(&[]);
    for prov in ["mar", "pic", "gas"] {
        let order = orders.get(prov).unwrap();
        assert_eq!(order.adjudicate(&map, &state, &orders, prov, &status), Some(false));
    }
}

#[test]
fn support_to_a_province_out_of_reach_fails() {
    let map = world();
    let mut state = MapState::new();
    army(&mut state, "par", "F");
    army(&mut state, "bre", "F");
    army(&mut state, "bur", "G");
    let mut orders: Orders = Table::new();
    mv(&mut orders, "par", "bur");
    support_move(&mut orders, "bre", "par", "bur");
    hold(&mut orders, "bur");
    assert!(check_position(&map, &state, &orders));
    let order = orders.get("bre").unwrap();
    assert_eq!(order.adjudicate(&map, &state, &orders, "bre", &known(&[])), Some(false));
    let order = SupportHold { target: t("bur") };
    assert_eq!(order.adjudicate(&map, &state, &orders, "bre", &known(&[])), Some(false));
    assert_eq!(order.adjudicate(&map, &state, &orders, "par", &known(&[])), Some(true));
}

#[test]
fn verdict_from_part_of_the_facts_stands_with_all_of_them() {
    let map = world();
    let mut state = MapState::new();
    army(&mut state, "par", "F");
    army(&mut state, "bur", "G");
    army(&mut state, "mar", "F");
    army(&mut state, "pic", "G");
    let mut orders: Orders = Table::new();
    mv(&mut orders, "par", "bur");
    hold(&mut orders, "bur");
    support_move(&mut orders, "mar", "par", "bur");
    support_hold(&mut orders, "pic", "bur");
    assert!(check_position(&map, &state, &orders));
    let order = orders.get("par").unwrap();
    let part = known(&[("pic", true)]);
    let all = known(&[("pic", true), ("mar", true), ("bur", false)]);
    assert_eq!(order.adjudicate(&map, &state, &orders, "par", &known(&[])), None);
    assert_eq!(order.adjudicate(&map, &state, &orders, "par", &part), Some(false));
    assert_eq!(order.adjudicate(&map, &state, &orders, "par", &all), Some(false));
    let attack_part = compute_attack_strength(&map, &state, &orders, &part, "par");
    let attack_all = compute_attack_strength(&map, &state, &orders, &all, "par");
    assert!(attack_part.min <= attack_all.min && attack_all.max <= attack_part.max);
    assert_eq!((attack_part.min, attack_part.max), (1, 2));
    assert_eq!((attack_all.min, attack_all.max), (2, 2));
}

#[test]
fn restricted_status_keeps_the_dependencies_only() {
    let status = known(&[("par", true), ("bur", false), ("mar", true)]);
    let mut deps: KeySet<String> = KeySet::new();
    deps.insert(t("bur"));
    deps.insert(t("gas"));
    deps.insert(t("mar"));
    let seen = restricted_status(&status, &deps);
    assert_eq!(seen.len(), 2);
    assert_eq!(status_of(&seen, "bur"), Some(false));
    assert_eq!(status_of(&seen, "mar"), Some(true));
    assert_eq!(status_of(&seen, "par"), None);
    assert_eq!(status_of(&seen, "gas"), None);
}

#[test]
fn position_is_checked_against_the_board() {
    let map = world();
    let mut state = MapState::new();
    army(&mut state, "par", "F");
    let mut orders: Orders = Table::new();
    mv(&mut orders, "par", "bur");
    assert!(check_position(&map, &state, &orders));
    mv(&mut orders, "par", "nowhere");
    assert!(!check_position(&map, &state, &orders));
    mv(&mut orders, "par", "bur");
    hold(&mut orders, "mar");
    assert!(!check_position(&map, &state, &orders));
    army(&mut state, "mar", "F");
    assert!(check_position(&map, &state, &orders));
}

#[test]
fn small_questions_about_the_board() {
    let map = world();
    let mut state = MapState::new();
    army(&mut state, "par", "F");
    fleet(&mut state, "spa", "I", "nc");
    fleet(&mut state, "mao", "I", "");
    assert!(sea_linked(&map, "lon", "nth"));
    assert!(!sea_linked(&map, "lon", "mao"));
    assert!(!sea_linked(&map, "gas", "spa"));
    assert!(province_is_sea(&map, "nth"));
    assert!(!province_is_sea(&map, "lon"));
    assert!(!province_is_sea(&map, "nowhere"));
    assert!(unit_can_reach(&map, &state, "par", "bur"));
    assert!(!unit_can_reach(&map, &state, "par", "mar"));
    assert!(unit_can_reach(&map, &state, "spa", "gas"));
    assert!(!unit_can_reach(&map, &state, "spa", "mao"));
    assert!(unit_can_reach(&map, &state, "mao", "spa"));
    let mut orders: Orders = Table::new();
    mv(&mut orders, "par", "bur");
    hold(&mut orders, "mao");
    assert!(moves_to(&orders, "par", "bur"));
    assert!(!moves_to(&orders, "par", "gas"));
    assert!(!moves_to(&orders, "mao", "bur"));
    assert!(!moves_to(&orders, "bur", "par"));
}

#[test]
fn kinds_of_orders_are_told_apart() {
    let go = Order::Move(Move { dest: (t("bur"), t("nc")) });
    let stay = Order::Hold(Hold);
    let help = Order::SupportMove(SupportMove { src: t("par"), dest: t("bur") });
    let guard = Order::SupportHold(SupportHold { target: t("bur") });
    let carry = Order::Convoy(Convoy { src: t("lon"), dest: t("bel") });
    assert!(go.is_move());
    assert!(!stay.is_move());
    assert!(!help.is_move());
    assert!(go.is_move_to("bur"));
    assert!(!go.is_move_to("par"));
    assert!(!guard.is_move_to("bur"));
    assert!(Move::is_move_to(&go, "bur"));
    assert!(!Move::is_move_to(&help, "bur"));
    assert!(Move { dest: (t("bur"), t("")) }.is_to("bur"));
    assert!(!Move { dest: (t("bur"), t("")) }.is_to("Bur"));
    assert!(SupportMove::is_support_to(&help, "par", "bur"));
    assert!(!SupportMove::is_support_to(&help, "bur", "par"));
    assert!(!SupportMove::is_support_to(&go, "par", "bur"));
    assert!(SupportHold::is_support_of(&guard, "bur"));
    assert!(!SupportHold::is_support_of(&guard, "par"));
    assert!(!SupportHold::is_support_of(&help, "bur"));
    assert!(Convoy::is_convoy_for(&carry, "lon", "bel"));
    assert!(!Convoy::is_convoy_for(&carry, "lon", "nwy"));
    assert!(!Convoy::is_convoy_for(&stay, "lon", "bel"));
    assert_eq!(Unit::Army(t("F")).nationality(), "F");
    assert_eq!(Unit::Fleet(t("E"), t("nc")).nationality(), "E");
}

#[test]
fn cycle_is_found_from_any_of_its_moves() {
    let map = world();
    let mut state = MapState::new();
    army(&mut state, "par", "F");
    army(&mut state, "bur", "G");
    army(&mut state, "gas", "I");
    army(&mut state, "mar", "I");
    let mut orders: Orders = Table::new();
    mv(&mut orders, "par", "bur");
    mv(&mut orders, "bur", "gas");
    mv(&mut orders, "gas", "par");
    mv(&mut orders, "mar", "bur");
    assert!(check_position(&map, &state, &orders));
    // mar moves to bur with the same strength as par: no sure winner
    assert!(get_cycle_at(&map, &state, &orders, &known(&[]), "par").is_none());
    let status = known(&[("mar", false)]);
    assert!(get_cycle_at(&map, &state, &orders, &status, "par").is_none());
    support_move(&mut orders, "pic", "par", "bur");
    army(&mut state, "pic", "F");
    let status = known(&[("pic", true)]);
    let cycle = get_cycle_at(&map, &state, &orders, &status, "bur").unwrap();
    assert_eq!(names(&cycle), vec![t("bur"), t("gas"), t("par")]);
    assert!(get_cycle_at(&map, &state, &orders, &status, "mar").is_none());
    assert!(get_cycle_at(&map, &state, &orders, &status, "pic").is_none());
    let status = known(&[("pic", true), ("gas", false)]);
    assert!(get_cycle_at(&map, &state, &orders, &status, "bur").is_none());
}

#[test]
fn dependency_graph_has_an_edge_for_each_dependency() {
    let map = world();
    let mut state = MapState::new();
    army(&mut state, "par", "F");
    army(&mut state, "bur", "G");
    army(&mut state, "mar", "F");
    let mut orders: Orders = Table::new();
    mv(&mut orders, "par", "bur");
    hold(&mut orders, "bur");
    support_move(&mut orders, "mar", "par", "bur");
    assert!(check_position(&map, &state, &orders));
    let graph = dependency_graph(&map, &state, &orders);
    assert_eq!(graph.len(), 3);
    assert_eq!(graph[0], vec![2]);
    assert_eq!(graph[1], vec![0]);
    assert_eq!(graph[2], Vec::<usize>::new());
}

#[test]
fn move_depends_on_supports_for_a_unit_without_order() {
    let map = world();
    let mut state = MapState::new();
    army(&mut state, "par", "F");
    army(&mut state, "bur", "G");
    army(&mut state, "mar", "G");
    let mut orders: Orders = Table::new();
    mv(&mut orders, "par", "bur");
    support_hold(&mut orders, "mar", "bur");
    assert!(check_position(&map, &state, &orders));
    let order = Move { dest: (t("bur"), t("")) };
    assert_eq!(names(&order.deps(&map, &state, &orders, "par")), vec![t("mar")]);
    // a support for a unit without order cannot be given
    let support = orders.get("mar").unwrap();
    assert_eq!(support.adjudicate(&map, &state, &orders, "mar", &known(&[])), Some(false));
    let b = compute_hold_strength(&map, &state, &orders, &known(&[]), "bur");
    assert_eq!((b.min, b.max), (1, 2));
    let b = compute_hold_strength(&map, &state, &orders, &known(&[("mar", false)]), "bur");
    assert_eq!((b.min, b.max), (1, 1));
}

#[test]
fn copy_of_an_order_is_the_same_order() {
    let go = Order::Move(Move { dest: (t("spa"), t("nc")) });
    let copy = go.as_owned();
    assert!(copy.is_move_to("spa"));
    match copy {
        Order::Move(m) => assert_eq!(m.dest, (t("spa"), t("nc"))),
        _ => panic!("not a move"),
    }
    let help = Order::SupportMove(SupportMove { src: t("par"), dest: t("bur") }).as_owned();
    assert!(SupportMove::is_support_to(&help, "par", "bur"));
    let carry = Order::Convoy(Convoy { src: t("lon"), dest: t("bel") }).as_owned();
    assert!(Convoy::is_convoy_for(&carry, "lon", "bel"));
    let guard = Order::SupportHold(SupportHold { target: t("bur") }).as_owned();
    assert!(SupportHold::is_support_of(&guard, "bur"));
    assert!(matches!(Order::Hold(Hold).as_owned(), Order::Hold(_)));
    assert!(matches!(Order::Core(Core).as_owned(), Order::Core(_)));
}

#[test]
fn cycle_needs_an_attack_strength_that_surely_wins() {
    let mut map = world();
    map.provinces.insert(t("far"), Province { coasts: KeySet::new(), is_sea: false });
    let mut orders: Orders = Table::new();
    mv(&mut orders, "par", "bur");
    mv(&mut orders, "bur", "gas");
    mv(&mut orders, "gas", "par");
    // far is next to nothing: its move to bur has no path
    mv(&mut orders, "far", "bur");
    let mut mixed = MapState::new();
    army(&mut mixed, "par", "F");
    army(&mut mixed, "bur", "G");
    army(&mut mixed, "gas", "I");
    army(&mut mixed, "far", "E");
    assert!(check_position(&map, &mixed, &orders));
    let b = compute_attack_strength(&map, &mixed, &orders, &known(&[]), "par");
    assert_eq!((b.min, b.max), (1, 1));
    let b = compute_prevent_strength(&map, &mixed, &orders, &known(&[]), "far");
    assert_eq!((b.min, b.max), (0, 0));
    let cycle = get_cycle_at(&map, &mixed, &orders, &known(&[]), "par").unwrap();
    assert_eq!(names(&cycle), vec![t("bur"), t("gas"), t("par")]);
    // among units of one nation the attack may come to nothing
    let mut one = MapState::new();
    for prov in ["par", "bur", "gas", "far"] {
        army(&mut one, prov, "F");
    }
    assert!(check_position(&map, &one, &orders));
    let b = compute_attack_strength(&map, &one, &orders, &known(&[]), "par");
    assert_eq!((b.min, b.max), (0, 1));
    assert!(get_cycle_at(&map, &one, &orders, &known(&[]), "par").is_none());
    assert!(get_cycle_at(&map, &one, &orders, &known(&[]), "bur").is_none());
}
