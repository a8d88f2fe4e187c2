use radip::adjudicate;
use radip::board::{GameMap, MapState, Province, Unit};
use radip::check_position;
use radip::keyset::KeySet;
use radip::order::{Convoy, Hold, Move, Order, Orders, SupportHold, SupportMove};
use radip::table::Table;

struct Test {
    pub name: String,
    pub units: Table<Unit>,
    pub orders: Orders,
    pub expected: Vec<(String, bool)>,
}

impl Test {
    pub fn empty(name: String) -> Self {
        Test { name, units: Table::new(), orders: Table::new(), expected: Vec::new() }
    }
}

fn parse_province(src: &str) -> (String, String) {
    let lparen = src.find("(");
    let rparen = src.find(")");
    match (lparen, rparen) {
        (None, _) | (_, None) => (src.to_lowercase(), "".to_string()),
        (Some(i), Some(j)) => (src[0..i].to_lowercase(), src[i + 1..j].to_lowercase()),
    }
}

fn link(map: &mut GameMap, a: &str, b: &str) {
    map.army_adj.insert((a.to_string(), b.to_string()));
    map.army_adj.insert((b.to_string(), a.to_string()));
}

fn sail(map: &mut GameMap, a: (&str, &str), b: (&str, &str)) {
    map.fleet_adj.insert(((a.0.to_string(), a.1.to_string()), (b.0.to_string(), b.1.to_string())));
    map.fleet_adj.insert(((b.0.to_string(), b.1.to_string()), (a.0.to_string(), a.1.to_string())));
}

/// The part of the standard map that the cases below are played on.
fn standard_map() -> GameMap {
    let mut map = GameMap::new();
    let lands = [
        "ven", "tri", "tyr", "vie", "con", "smy", "ank", "bul", "ber", "pru", "kie", "sil", "mun", "par", "bre",
        "pic", "bel", "bur", "hol", "lon", "wal", "gre", "sev", "gas", "mar",
    ];
    for name in lands {
        map.provinces.insert(name.to_string(), Province { coasts: KeySet::new(), is_sea: false });
    }
    let mut spa_coasts = KeySet::new();
    spa_coasts.insert("nc".to_string());
    spa_coasts.insert("sc".to_string());
    map.provinces.insert("spa".to_string(), Province { coasts: spa_coasts, is_sea: false });
    for name in ["adr", "ion", "bal", "bla", "aeg", "eng", "mao", "nth", "hel", "ska", "wes"] {
        map.provinces.insert(name.to_string(), Province { coasts: KeySet::new(), is_sea: true });
    }
    let army_pairs = [
        ("ven", "tri"), ("tyr", "ven"), ("tyr", "tri"), ("vie", "tyr"), ("vie", "tri"), ("con", "smy"),
        ("smy", "ank"), ("ank", "con"), ("bul", "con"), ("ber", "pru"), ("ber", "kie"), ("sil", "ber"),
        ("sil", "pru"), ("mun", "kie"), ("mun", "ber"), ("mun", "sil"), ("par", "bre"), ("par", "pic"),
        ("par", "bur"), ("pic", "bel"), ("bur", "bel"), ("bur", "pic"), ("hol", "bel"), ("hol", "kie"),
        ("lon", "wal"), ("gas", "spa"), ("gas", "mar"), ("mar", "spa"), ("gas", "par"), ("gas", "bre"),
    ];
    for (a, b) in army_pairs {
        link(&mut map, a, b);
    }
    let fleet_pairs = [
        ("ank", "con"), ("adr", "ven"), ("adr", "tri"), ("ven", "tri"), ("ion", "adr"), ("kie", "ber"),
        ("bal", "ber"), ("bal", "pru"), ("bal", "kie"), ("ber", "pru"), ("bla", "ank"), ("bla", "con"),
        ("bla", "sev"), ("aeg", "gre"), ("aeg", "con"), ("aeg", "smy"), ("eng", "lon"), ("eng", "bre"),
        ("eng", "wal"), ("eng", "bel"), ("eng", "pic"), ("mao", "bre"), ("mao", "eng"), ("mao", "gas"),
        ("nth", "lon"), ("nth", "hol"), ("nth", "bel"), ("nth", "eng"), ("hel", "nth"), ("hel", "hol"),
        ("hel", "kie"), ("ska", "nth"), ("lon", "wal"), ("wes", "mao"),
    ];
    for (a, b) in fleet_pairs {
        sail(&mut map, (a, ""), (b, ""));
    }
    sail(&mut map, ("gas", ""), ("spa", "nc"));
    sail(&mut map, ("mao", ""), ("spa", "nc"));
    sail(&mut map, ("mao", ""), ("spa", "sc"));
    sail(&mut map, ("wes", ""), ("spa", "sc"));
    sail(&mut map, ("mar", ""), ("spa", "sc"));
    // supports name no coast
    sail(&mut map, ("gas", ""), ("spa", ""));
    sail(&mut map, ("mar", ""), ("spa", ""));
    sail(&mut map, ("wes", ""), ("spa", ""));
    sail(&mut map, ("mao", ""), ("spa", ""));
    map
}

const CASES: &str = "
### 6.A.8. Support to hold yourself is not possible
Italy:
`A Ven - Tri` T
`A Tyr S Ven - Tri` T
Austria:
`F Tri S Tri H` F

### 6.B.4. Support to unreachable coast allowed
France:
`F Gas - Spa(nc)` T
`F Mar S Gas - Spa` T
Italy:
`F Wes - Spa(sc)` F

### 6.C.1. Three army circular movement
Turkey:
`F Ank - Con` T
`A Con - Smy` T
`A Smy - Ank` T

### 6.C.2. Three army circular movement with support
Turkey:
`F Ank - Con` T
`A Con - Smy` T
`A Smy - Ank` T
`A Bul S Ank - Con` T

### 6.C.3. A disrupted three army circular movement
Turkey:
`F Ank - Con` F
`A Con - Smy` F
`A Smy - Ank` F
`A Bul - Con` F

### 6.D.1. Supported hold can prevent dislodgement
Austria:
`F Adr S Tri - Ven` T
`A Tri - Ven` F
Italy:
`A Ven H` T
`A Tyr S Ven H` T

### 6.D.2. A move cuts support on hold
Austria:
`F Adr S Tri - Ven` T
`A Tri - Ven` T
`A Vie - Tyr` F
Italy:
`A Ven H` F
`A Tyr S Ven H` F

### 6.D.3. A move cuts support on move
Austria:
`F Adr S Tri - Ven` F
`A Tri - Ven` F
Italy:
`A Ven H` T
`F Ion - Adr` F

### 6.D.4. Support to hold on unit supporting a hold allowed
Germany:
`A Ber S Kie H` F
`F Kie S Ber H` T
Russia:
`F Bal S Pru - Ber` T
`A Pru - Ber` F

### 6.D.15. Defender can not cut support for attack on itself
Russia:
`F Con S Bla - Ank` T
`F Bla - Ank` T
Turkey:
`F Ank - Con` F

### 6.E.1. Dislodged unit has no effect on attackers area
Germany:
`A Ber - Pru` T
`F Kie - Ber` T
`A Sil S Ber - Pru` T
Russia:
`A Pru - Ber` F

### 6.E.2. No self dislodgement in head to head battle
Germany:
`A Ber - Kie` F
`F Kie - Ber` F
`A Mun S Ber - Kie` T

### 6.F.1. No convoy in coastal areas
Turkey:
`A Gre - Sev` F
`F Aeg C Gre - Sev` T
`F Con C Gre - Sev` F
`F Bla C Gre - Sev` T

### 6.F.2. An army being convoyed can bounce as normal
England:
`F Eng C Lon - Bre` T
`A Lon - Bre` F
France:
`A Par - Bre` F

### 6.F.3. An army being convoyed can receive support
England:
`F Eng C Lon - Bre` T
`A Lon - Bre` T
`F Mao S Lon - Bre` T
France:
`A Par - Bre` F

### 6.F.6. Dislodged convoy does not cut support
England:
`F Nth C Lon - Hol` F
`A Lon - Hol` F
Germany:
`A Hol S Bel H` T
`A Bel S Hol H` F
`F Hel S Ska - Nth` T
`F Ska - Nth` T
France:
`A Pic - Bel` F
`A Bur S Pic - Bel` T

### 6.F.14. Simple convoy paradox
England:
`F Lon S Wal - Eng` T
`F Wal - Eng` T
France:
`A Bre - Lon` F
`F Eng C Bre - Lon` F
";

#[test]
fn datc() {
    let map = standard_map();

    let mut tests = vec![];
    let mut active_test = Test::empty("".to_string());
    let mut active_nation = "".to_string();
    for line in CASES.lines() {
        let line = line.trim();
        if line.starts_with("###") {
            println!("{}", line);
            if active_test.name != "" {
                tests.push(active_test);
            }
            active_test = Test::empty(line[3..].trim().to_string());
            continue;
        }
        if line.ends_with(":") {
            active_nation = line[..line.len() - 1].trim().to_string();
            continue;
        }
        if line.starts_with("`") {
            let end = line[1..].find("`");
            if end == None {
                continue;
            }

            let order_str = &line[1..end.unwrap() + 1];

            let parts = order_str.split(" ").collect::<Vec<_>>();
            let (prov, coast) = parse_province(parts[1]);
            match parts[0] {
                "F" => {
                    active_test
                        .units
                        .insert(prov.to_string(), Unit::Fleet(active_nation.to_string(), coast.to_string()));
                }
                "A" => {
                    active_test.units.insert(prov.to_string(), Unit::Army(active_nation.to_string()));
                }
                x => {
                    panic!("unknown unit type {}", x)
                }
            }

            match parts[2] {
                "-" => {
                    let (dest_prov, dest_coast) = parse_province(parts[3]);
                    active_test.orders.insert(
                        prov.to_string(),
                        Order::Move(Move { dest: (dest_prov.to_string(), dest_coast.to_string()) }),
                    );
                }
                "S" => {
                    if parts[4] == "-" {
                        let (src_prov, _) = parse_province(parts[3]);
                        let (dest_prov, _) = parse_province(parts[5]);
                        active_test.orders.insert(
                            prov.to_string(),
                            Order::SupportMove(SupportMove {
                                src: src_prov.to_string(),
                                dest: dest_prov.to_string(),
                            }),
                        );
                    } else if parts[4] == "H" {
                        let (dest_prov, _) = parse_province(parts[3]);
                        active_test.orders.insert(
                            prov.to_string(),
                            Order::SupportHold(SupportHold { target: dest_prov.to_string() }),
                        );
                    } else {
                        panic!("unknown support order: {}", parts[4]);
                    }
                }
                "H" => {
                    active_test.orders.insert(prov.to_string(), Order::Hold(Hold));
                }
                "C" => {
                    assert!(parts[4] == "-");
                    let (src_prov, _) = parse_province(parts[3]);
                    let (dest_prov, _) = parse_province(parts[5]);
                    active_test.orders.insert(
                        prov.to_string(),
                        Order::Convoy(Convoy { src: src_prov.to_string(), dest: dest_prov.to_string() }),
                    );
                }
                _ => {
                    panic!("unknown order")
                }
            }

            match line[end.unwrap() + 2..].trim() {
                "T" => {
                    active_test.expected.push((prov.to_string(), true));
                }
                "F" => {
                    active_test.expected.push((prov.to_string(), false));
                }
                x => {
                    panic!("undefined test result: {}", x)
                }
            }
        }
    }

    tests.push(active_test);

    let mut failed = Vec::new();
    let mut incomplete = Vec::new();
    let tests_len = tests.len();
    for test in tests {
        let mut failed_test = false;
        let mut incomplete_test = false;

        println!("\x1b[0m\x1b[1mtest {}\x1b[0m", test.name);
        let state = MapState { units: test.units, ownership: Table::new() };
        assert!(check_position(&map, &state, &test.orders));
        let results = adjudicate(&map, &state, &test.orders);
        for (prov, expected) in test.expected {
            let colour = if results.get(&prov).map(|x| *x) == Some(expected) {
                "\x1b[32m"
            } else if results.get(&prov) == None {
                incomplete_test = true;
                "\x1b[33m"
            } else {
                failed_test = true;
                "\x1b[31m"
            };

            println!(
                "{}{}: {}",
                colour,
                &prov,
                match results.get(&prov) {
                    Some(true) => "T",
                    Some(false) => "F",
                    None => "X",
                }
            );
        }

        if failed_test {
            failed.push(test.name);
        } else if incomplete_test {
            incomplete.push(test.name);
        }
    }

    println!("");
    println!("\x1b[31mfailed \x1b[0m[{}/{}]: {}", failed.len(), tests_len, failed.join(", "));
    println!("\x1b[33mincomplete \x1b[0m[{}/{}]: {}", incomplete.len(), tests_len, incomplete.join(", "));
    assert_eq!(tests_len, 17);
    assert!(failed.is_empty());
    assert!(incomplete.is_empty());
}
