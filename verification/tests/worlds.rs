use waronmap::battle::{fight, run_attack};
use waronmap::buildings::{building_cost, BuildingType};
use waronmap::construction::build_building;
use waronmap::economy::{
    is_node_inside_player_city, nearest_own_city_id, rebuild_city_membership, rebuild_player_nodes,
    recompute_player_economy, update_player_gold, Caches,
};
use waronmap::errors::{Failure, Refusal};
use waronmap::geometry::{order_key, Bounds, Coord};
use waronmap::missiles::{find_missile, launch_missile, Launch, Missile, SILO_COOLDOWN_MS};
use waronmap::production::{node_army_production_rate, raise_armies};
use waronmap::repo::{Edge, EdgeList, NodeRepo, RepoNode};
use waronmap::state::{Attack, GameState, Player, Session, WorldNode};
use waronmap::ticks::{background_tick, step_world, tick_world};
use waronmap::world::sync_world_nodes;

fn place(lat: f64, lon: f64) -> Coord {
    Coord { lat: order_key(lat.to_bits()), lon: order_key(lon.to_bits()) }
}

fn degrees(key: i64) -> f64 {
    if key >= 0 {
        f64::from_bits(key as u64)
    } else {
        -f64::from_bits((-key) as u64)
    }
}

fn haversine(a: Coord, b: Coord) -> u64 {
    let (a_lat, a_lon) = (degrees(a.lat).to_radians(), degrees(a.lon).to_radians());
    let (b_lat, b_lon) = (degrees(b.lat).to_radians(), degrees(b.lon).to_radians());
    let h = ((b_lat - a_lat) / 2.0).sin().powi(2)
        + a_lat.cos() * b_lat.cos() * ((b_lon - a_lon) / 2.0).sin().powi(2);
    (6371.0 * 2.0 * h.sqrt().atan2((1.0 - h).sqrt())).to_bits()
}

/// Kilometres north of a fixed place, as a latitude.
fn north(km: f64) -> f64 {
    44.0 + km / 111.19492664455873
}

fn add_node(repo: &mut NodeRepo, id: &str, km: f64) {
    let coord = place(north(km), -72.0);
    repo.nodes_by_id.insert(
        id.to_string(),
        RepoNode { id: id.to_string(), coord, degree: 2, s2_cell_id: 0 },
    );
    repo.coords_by_id.insert(id.to_string(), coord);
}

fn add_road(repo: &mut NodeRepo, a: &str, b: &str) {
    for (from, to) in [(a, b), (b, a)] {
        let mut edges: Vec<Edge> = match repo.adjacency.get(from) {
            Some(list) => {
                list.edges.iter().map(|e| Edge { to: e.to.clone(), weight: e.weight }).collect()
            }
            None => Vec::new(),
        };
        edges.push(Edge { to: to.to_string(), weight: 1.0f64.to_bits() });
        repo.adjacency.insert(from.to_string(), EdgeList { edges });
    }
}

fn player(id: &str, gold: i64) -> Player {
    Player {
        id: id.to_string(),
        username: id.to_string(),
        password_hash: String::new(),
        created_at: 0,
        start_node_ids: Vec::new(),
        color: "#111111".to_string(),
        gold,
        gold_income_per_sec: 0,
        gold_updated_at: 0,
        damage_reduction_percent: 0,
        happiness_percent: 0,
    }
}

fn own(state: &mut GameState, id: &str, owner: &str, army: i64) {
    let owner_id = if owner.is_empty() { None } else { Some(owner.to_string()) };
    state.nodes.insert(id.to_string(), WorldNode { owner_id, army, building: None });
}

fn put(state: &mut GameState, id: &str, owner: &str, building: BuildingType) {
    state.nodes.insert(
        id.to_string(),
        WorldNode { owner_id: Some(owner.to_string()), army: 0, building: Some(building) },
    );
}

fn attack(id: &str, owner: &str, mode: &str, from: &str, to: &str, rate: i64) -> Attack {
    Attack {
        id: id.to_string(),
        owner_id: owner.to_string(),
        mode: mode.to_string(),
        from_node_id: from.to_string(),
        to_node_id: to.to_string(),
        path: Vec::new(),
        send_per_tick: rate,
        created_at: 0,
    }
}

fn army(state: &GameState, id: &str) -> i64 {
    state.nodes.get(id).unwrap().army
}

fn owner<'a>(state: &'a GameState, id: &str) -> Option<&'a str> {
    state.nodes.get(id).unwrap().owner_id.as_deref()
}

/// A road map `a` - `b` - `c` - `d`, a kilometre apart, and a world in line with it.
fn street() -> (NodeRepo, GameState, Caches) {
    let mut repo = NodeRepo::new();
    for (i, id) in ["a", "b", "c", "d"].iter().enumerate() {
        add_node(&mut repo, id, i as f64);
    }
    add_road(&mut repo, "a", "b");
    add_road(&mut repo, "b", "c");
    add_road(&mut repo, "c", "d");
    repo.graph_version = 1;
    let mut state = GameState::new(1000);
    let mut caches = Caches::new();
    assert!(sync_world_nodes(&mut state, &mut caches, &repo, 1000));
    state.players.insert("p".to_string(), player("p", 0));
    state.players.insert("q".to_string(), player("q", 0));
    (repo, state, caches)
}

#[test]
fn the_world_follows_the_road_map() {
    let (mut repo, mut state, mut caches) = street();
    assert_eq!(state.nodes.len(), 4);
    assert_eq!(army(&state, "a"), 10);
    assert_eq!(owner(&state, "a"), None);
    assert!(!sync_world_nodes(&mut state, &mut caches, &repo, 2000));
    own(&mut state, "a", "p", 77);
    own(&mut state, "b", "p", 5);
    state.building_cooldowns.insert("b".to_string(), 9);
    state.attacks.insert("x".to_string(), attack("x", "p", "attack", "a", "b", 1));
    state.attacks.insert("y".to_string(), attack("y", "p", "attack", "a", "c", 1));
    repo.nodes_by_id.remove("b");
    add_node(&mut repo, "e", 9.0);
    assert!(!sync_world_nodes(&mut state, &mut caches, &repo, 2000));
    repo.graph_version = 2;
    assert!(sync_world_nodes(&mut state, &mut caches, &repo, 3000));
    assert_eq!(state.saved_at, 3000);
    assert_eq!(state.nodes.len(), 4);
    assert!(!state.nodes.contains_key("b"));
    assert!(state.nodes.contains_key("e"));
    assert_eq!(army(&state, "a"), 77);
    assert!(!state.attacks.contains_key("x"));
    assert!(state.attacks.contains_key("y"));
    assert!(!state.building_cooldowns.contains_key("b"));
    assert!(!sync_world_nodes(&mut state, &mut caches, &repo, 4000));
    assert_eq!(state.saved_at, 3000);
}

#[test]
fn gold_is_paid_by_the_second() {
    let mut state = GameState::new(0);
    let mut rich = player("p", 100);
    rich.gold_income_per_sec = 7;
    rich.gold_updated_at = 10_000;
    state.players.insert("p".to_string(), rich);
    update_player_gold(&mut state, "p", 10_999);
    assert_eq!(state.players.get("p").unwrap().gold, 100);
    assert_eq!(state.players.get("p").unwrap().gold_updated_at, 10_000);
    update_player_gold(&mut state, "p", 13_500);
    assert_eq!(state.players.get("p").unwrap().gold, 121);
    assert_eq!(state.players.get("p").unwrap().gold_updated_at, 13_500);
    update_player_gold(&mut state, "p", 13_500 + 100_000_000);
    assert_eq!(state.players.get("p").unwrap().gold, 121 + 3600 * 7);
    update_player_gold(&mut state, "p", 0);
    assert_eq!(state.players.get("p").unwrap().gold, 121 + 3600 * 7);
    update_player_gold(&mut state, "nobody", 0);
}

#[test]
fn income_comes_from_nodes_and_buildings() {
    let (mut repo, mut state, mut caches) = street();
    for i in 0..6 {
        add_node(&mut repo, &format!("m{i}"), 0.1 * i as f64);
    }
    put(&mut state, "a", "p", BuildingType::City);
    put(&mut state, "m0", "p", BuildingType::Market);
    put(&mut state, "m1", "p", BuildingType::Market);
    put(&mut state, "m2", "p", BuildingType::Bank);
    put(&mut state, "m3", "p", BuildingType::Bank);
    put(&mut state, "m4", "p", BuildingType::Hospital);
    put(&mut state, "m5", "p", BuildingType::Bar);
    caches.city_membership_dirty = true;
    caches.player_nodes_dirty = true;
    recompute_player_economy(&mut state, &mut caches, &repo, "p", 1000, &haversine);
    let p = state.players.get("p").unwrap();
    // Seven nodes, markets of 20 and 30 and one bank of 300, half as much again.
    assert_eq!(p.gold_income_per_sec, 7 + 30 + 45 + 450);
    assert_eq!(p.damage_reduction_percent, 1);
    assert_eq!(p.happiness_percent, 1);
    // Outside any city a market earns its base and a bank nothing.
    own(&mut state, "a", "p", 0);
    caches.city_membership_dirty = true;
    recompute_player_economy(&mut state, &mut caches, &repo, "p", 1000, &haversine);
    assert_eq!(state.players.get("p").unwrap().gold_income_per_sec, 7 + 20 + 30);
}

#[test]
fn cities_reach_two_kilometres() {
    let (repo, mut state, mut caches) = street();
    put(&mut state, "a", "p", BuildingType::City);
    put(&mut state, "d", "q", BuildingType::City);
    rebuild_city_membership(&state, &mut caches, &repo, &haversine);
    rebuild_player_nodes(&state, &mut caches);
    assert!(is_node_inside_player_city(&caches, "a", "p"));
    assert!(is_node_inside_player_city(&caches, "d", "q"));
    assert!(!is_node_inside_player_city(&caches, "d", "p"));
    assert_eq!(
        nearest_own_city_id(&caches, &state, &repo, "p", "b", &haversine).as_deref(),
        Some("a")
    );
    assert_eq!(nearest_own_city_id(&caches, &state, &repo, "p", "d", &haversine), None);
    put(&mut state, "b", "p", BuildingType::City);
    rebuild_player_nodes(&state, &mut caches);
    assert_eq!(
        nearest_own_city_id(&caches, &state, &repo, "p", "c", &haversine).as_deref(),
        Some("b")
    );
}

#[test]
fn barracks_and_cities_raise_armies_faster() {
    let (mut repo, mut state, mut caches) = street();
    own(&mut state, "a", "p", 10);
    own(&mut state, "c", "p", 999_999);
    put(&mut state, "b", "p", BuildingType::Barracks);
    rebuild_city_membership(&state, &mut caches, &repo, &haversine);
    // In quarters: one and one for the barracks next door.
    assert_eq!(node_army_production_rate(&state, &caches, &repo, "a", "p"), 8);
    assert_eq!(node_army_production_rate(&state, &caches, &repo, "d", "p"), 4);
    assert_eq!(node_army_production_rate(&state, &caches, &repo, "off the map", "p"), 0);
    raise_armies(&mut state, &caches, &repo);
    assert_eq!(army(&state, "a"), 12);
    assert_eq!(army(&state, "b"), 0);
    assert_eq!(army(&state, "c"), 1_000_000);
    assert_eq!(army(&state, "d"), 10);
    // A city makes both the barracks and the node itself count half as much again.
    add_node(&mut repo, "m", 0.5);
    put(&mut state, "m", "p", BuildingType::City);
    rebuild_city_membership(&state, &mut caches, &repo, &haversine);
    assert_eq!(node_army_production_rate(&state, &caches, &repo, "a", "p"), 15);
    raise_armies(&mut state, &caches, &repo);
    assert_eq!(army(&state, "a"), 15);
}

#[test]
fn an_attack_wears_a_node_down_and_takes_it() {
    let (_, mut state, mut caches) = street();
    own(&mut state, "a", "p", 30);
    own(&mut state, "b", "q", 15);
    state.attacks.insert("x".to_string(), attack("x", "p", "attack", "a", "b", 10));
    run_attack(&mut state, &mut caches, "x");
    assert_eq!((army(&state, "a"), army(&state, "b")), (20, 5));
    assert_eq!(owner(&state, "b"), Some("q"));
    caches.player_nodes_dirty = false;
    run_attack(&mut state, &mut caches, "x");
    assert_eq!((army(&state, "a"), army(&state, "b")), (10, 5));
    assert_eq!(owner(&state, "b"), Some("p"));
    assert_eq!(state.attacks.get("x").unwrap().mode, "transfer");
    assert!(caches.player_nodes_dirty);
    run_attack(&mut state, &mut caches, "x");
    assert_eq!((army(&state, "a"), army(&state, "b")), (0, 15));
    run_attack(&mut state, &mut caches, "x");
    assert_eq!((army(&state, "a"), army(&state, "b")), (0, 15));
}

#[test]
fn hospitals_soften_attacks() {
    let (_, mut state, mut caches) = street();
    own(&mut state, "a", "p", 1000);
    own(&mut state, "b", "q", 500);
    state.attacks.insert("x".to_string(), attack("x", "p", "attack", "a", "b", 200));
    let mut q = player("q", 0);
    q.damage_reduction_percent = 25;
    state.players.insert("q".to_string(), q);
    run_attack(&mut state, &mut caches, "x");
    assert_eq!((army(&state, "a"), army(&state, "b")), (800, 350));
}

#[test]
fn a_captured_building_is_destroyed() {
    let (_, mut state, mut caches) = street();
    own(&mut state, "a", "p", 30);
    put(&mut state, "b", "q", BuildingType::Silo);
    state.building_cooldowns.insert("b".to_string(), 5);
    caches.city_membership_dirty = false;
    state.attacks.insert("x".to_string(), attack("x", "p", "attack", "a", "b", 3));
    run_attack(&mut state, &mut caches, "x");
    assert_eq!(owner(&state, "b"), Some("p"));
    assert_eq!(army(&state, "b"), 3);
    assert!(state.nodes.get("b").unwrap().building.is_none());
    assert!(!state.building_cooldowns.contains_key("b"));
    assert!(caches.city_membership_dirty);
}

#[test]
fn void_attacks_vanish() {
    let (_, mut state, mut caches) = street();
    own(&mut state, "a", "p", 30);
    own(&mut state, "b", "q", 30);
    for (id, owner_id, mode, from, to) in [
        ("gone", "p", "attack", "zzz", "b"),
        ("lost", "p", "attack", "a", "zzz"),
        ("stolen", "q", "attack", "a", "b"),
        ("foreign", "p", "transfer", "a", "b"),
    ] {
        state.attacks.insert(id.to_string(), attack(id, owner_id, mode, from, to, 1));
        run_attack(&mut state, &mut caches, id);
        assert!(!state.attacks.contains_key(id), "{id}");
    }
    run_attack(&mut state, &mut caches, "unknown");
    assert_eq!((army(&state, "a"), army(&state, "b")), (30, 30));
}

#[test]
fn an_attack_on_an_own_node_becomes_a_transfer() {
    let (_, mut state, mut caches) = street();
    own(&mut state, "a", "p", 30);
    own(&mut state, "b", "p", 30);
    state.attacks.insert("x".to_string(), attack("x", "p", "attack", "a", "b", 1));
    fight(&mut state, &mut caches);
    assert_eq!(state.attacks.get("x").unwrap().mode, "transfer");
    assert_eq!((army(&state, "a"), army(&state, "b")), (30, 30));
    fight(&mut state, &mut caches);
    assert_eq!((army(&state, "a"), army(&state, "b")), (29, 31));
}

#[test]
fn a_drained_node_stops_sending() {
    let (_, mut state, mut caches) = street();
    own(&mut state, "a", "p", 5);
    own(&mut state, "b", "p", 0);
    state.attacks.insert("x".to_string(), attack("x", "p", "transfer", "a", "b", 250));
    state.attacks.insert("y".to_string(), attack("y", "p", "transfer", "b", "c", 1));
    fight(&mut state, &mut caches);
    assert_eq!((army(&state, "a"), army(&state, "b")), (0, 5));
    assert!(!state.attacks.contains_key("x"));
    assert!(!state.attacks.contains_key("y"));
}

#[test]
fn a_full_node_takes_no_more() {
    let (_, mut state, mut caches) = street();
    own(&mut state, "a", "p", 100);
    own(&mut state, "b", "p", 999_990);
    state.attacks.insert("x".to_string(), attack("x", "p", "transfer", "a", "b", 50));
    run_attack(&mut state, &mut caches, "x");
    assert_eq!((army(&state, "a"), army(&state, "b")), (50, 1_000_000));
}

#[test]
fn ticks_are_caught_up_on_but_not_for_ever() {
    let (repo, mut state, mut caches) = street();
    own(&mut state, "a", "p", 10);
    state.last_tick_at = 100_000;
    state.last_persisted_at = 100_000;
    assert!(!tick_world(&mut state, &mut caches, &repo, 100_999, &haversine));
    assert_eq!(state.last_tick_at, 100_000);
    assert!(!tick_world(&mut state, &mut caches, &repo, 103_500, &haversine));
    assert_eq!(army(&state, "a"), 13);
    assert_eq!(state.last_tick_at, 103_500);
    assert!(tick_world(&mut state, &mut caches, &repo, 105_000, &haversine));
    assert_eq!(army(&state, "a"), 14);
    assert_eq!(state.last_persisted_at, 105_000);
    assert!(tick_world(&mut state, &mut caches, &repo, 9_000_000, &haversine));
    assert_eq!(army(&state, "a"), 74);
    state.last_tick_at = 0;
    assert!(!tick_world(&mut state, &mut caches, &repo, 9_100_000, &haversine));
    assert_eq!(army(&state, "a"), 74);
}

#[test]
fn a_step_does_everything_once() {
    let (repo, mut state, mut caches) = street();
    own(&mut state, "a", "p", 10);
    own(&mut state, "b", "q", 5);
    state.nodes.insert(
        "c".to_string(),
        WorldNode {
            owner_id: Some("q".to_string()),
            army: 4,
            building: Some(BuildingType::Barracks),
        },
    );
    state.attacks.insert("x".to_string(), attack("x", "p", "attack", "a", "b", 4));
    step_world(&mut state, &mut caches, &repo, 2000, &haversine);
    assert_eq!(army(&state, "a"), 7);
    assert_eq!(army(&state, "b"), 3);
    assert_eq!(army(&state, "c"), 0);
    assert!(state.attacks.contains_key("x"));
    assert_eq!(state.players.get("p").unwrap().gold_income_per_sec, 1);
    assert_eq!(state.players.get("q").unwrap().gold_income_per_sec, 2);
}

#[test]
fn the_sixtieth_tick_purges_sessions() {
    let (repo, mut state, mut caches) = street();
    state.sessions.insert(
        "t".to_string(),
        Session {
            token: "t".to_string(),
            player_id: "p".to_string(),
            created_at: 0,
            expires_at: 500,
        },
    );
    state.last_tick_at = 2000;
    state.last_persisted_at = 2000;
    let mut count: u64 = 58;
    let report = background_tick(&mut state, &mut caches, &repo, &mut count, 2100, &haversine);
    assert!(!report.write);
    assert_eq!(report.version, 1);
    assert_eq!(count, 59);
    assert!(state.sessions.contains_key("t"));
    let report = background_tick(&mut state, &mut caches, &repo, &mut count, 2200, &haversine);
    assert!(report.write);
    assert_eq!(count, 0);
    assert!(!state.sessions.contains_key("t"));
    assert_eq!(state.saved_at, 2200);
}

#[test]
fn buildings_are_paid_and_put_up() {
    let (repo, mut state, mut caches) = street();
    own(&mut state, "a", "p", 50);
    own(&mut state, "b", "p", 50);
    own(&mut state, "c", "q", 50);
    let mut rich = player("p", 110_300_000);
    rich.gold_updated_at = 5000;
    state.players.insert("p".to_string(), rich);
    let mut build = |player_id: &str, node: &str, kind: BuildingType| {
        build_building(&mut state, &mut caches, &repo, player_id, node, kind, 5000, &haversine)
            .map(|report| (report.gold, report.gold_income_per_sec))
    };
    let market = BuildingType::Market;
    assert_eq!(build("p", "zzz", market), Err(Refusal::NodeMissing));
    assert_eq!(build("p", "c", market), Err(Refusal::NodeNotOwned));
    assert_eq!(build("p", "a", market), Err(Refusal::OutsideCity(market)));
    assert_eq!(build("p", "a", BuildingType::City), Ok((10_300_000, 2)));
    assert_eq!(build("p", "a", market), Err(Refusal::NodeBuiltUp));
    assert_eq!(
        build("p", "b", BuildingType::Hospital),
        Err(Refusal::BuildingTooDear(BuildingType::Hospital))
    );
    assert_eq!(build("p", "b", BuildingType::Bank), Ok((300_000, 2 + 450)));
    assert_eq!(army(&state, "b"), 0);
    assert_eq!(state.version, 3);
    assert_eq!(state.saved_at, 5000);
}

#[test]
fn a_city_has_one_bank_and_a_builder_exists() {
    let (repo, mut state, mut caches) = street();
    put(&mut state, "a", "p", BuildingType::City);
    put(&mut state, "b", "p", BuildingType::Bank);
    own(&mut state, "c", "p", 5);
    own(&mut state, "d", "ghost", 5);
    let mut rich = player("p", 100_000_000);
    rich.gold_updated_at = 5000;
    state.players.insert("p".to_string(), rich);
    // `c` lies two kilometres from the city, give or take rounding; move it closer.
    let mut near = NodeRepo::new();
    for (i, id) in ["a", "b", "c", "d"].iter().enumerate() {
        add_node(&mut near, id, 0.5 * i as f64);
    }
    near.graph_version = repo.graph_version;
    assert_eq!(
        build_building(
            &mut state, &mut caches, &near, "p", "c", BuildingType::Bank, 5000, &haversine
        )
        .err(),
        Some(Refusal::CityHasBank)
    );
    assert_eq!(
        build_building(
            &mut state, &mut caches, &near, "ghost", "d", BuildingType::Silo, 5000, &haversine
        )
        .err(),
        Some(Refusal::PlayerMissing)
    );
}

#[test]
fn buildings_have_names_and_prices() {
    let want = [
        ("Barracks", 100_000),
        ("City", 100_000_000),
        ("Market", 100_000),
        ("Bank", 10_000_000),
        ("Hospital", 100_000_000),
        ("Bar", 100_000),
        ("Silo", 10_000_000),
        ("SAM", 50_000_000),
    ];
    for (label, cost) in want {
        let building = BuildingType::from_str(&label.to_uppercase()).unwrap();
        assert_eq!(building.to_label(), label);
        assert_eq!(building_cost(&building), cost);
    }
    // A name and its lower case stand for the same building, in other scripts too.
    for name in ["Market", "SiLO", "ban\u{212a}", "s\u{130}lo", "\u{39f}\u{394}\u{39f}\u{3a3}"] {
        assert_eq!(BuildingType::from_str(name), BuildingType::from_str(&name.to_lowercase()));
    }
    assert_eq!(BuildingType::from_str("ban\u{212a}"), Some(BuildingType::Bank));
    assert!(BuildingType::from_str("s\u{130}lo").is_none());
    assert!(BuildingType::from_str("castle").is_none());
    assert!(BuildingType::from_str("").is_none());
}

#[test]
fn refusals_say_why() {
    assert_eq!(
        Refusal::BuildingTooDear(BuildingType::Bank).message(),
        "Not enough gold. Bank costs 10000000 gold."
    );
    assert_eq!(
        Refusal::OutsideCity(BuildingType::Bar).message(),
        "Bar must be built inside one of your cities."
    );
    assert_eq!(
        Refusal::MissileTooDear(5).message(),
        "Not enough gold. This missile costs 5 gold."
    );
    assert_eq!(
        Failure::NoRoad { from: "1".to_string(), to: "2".to_string() }.message(),
        "No road path found between node 1 and node 2."
    );
    assert_eq!(
        Failure::IndexBroken { node: "7".to_string() }.message(),
        "S2 index references missing node 7"
    );
    assert_eq!(Failure::Refused(Refusal::SiloCooling).message(), "Silo is on cooldown.");
    assert_eq!(Failure::Hashing { reason: "no salt".to_string() }.message(), "no salt");
}

fn arsenal() -> (NodeRepo, GameState, Caches) {
    let (repo, mut state, caches) = street();
    put(&mut state, "a", "p", BuildingType::Silo);
    own(&mut state, "b", "q", 40);
    own(&mut state, "c", "", 40);
    put(&mut state, "d", "q", BuildingType::City);
    let mut rich = player("p", 2_000_000_000);
    rich.gold_updated_at = 1_000_000;
    state.players.insert("p".to_string(), rich);
    (repo, state, caches)
}

#[test]
fn a_missile_takes_what_it_reaches() {
    let (repo, mut state, mut caches) = arsenal();
    let target = place(north(1.5), -72.0);
    let r = launch_missile(
        &mut state, &mut caches, &repo, "p", "NUKE", target, None, 1_000_000, &haversine,
    )
    .ok()
    .unwrap();
    match r {
        Launch::Landed { taken } => assert_eq!(taken, vec!["b", "c"]),
        Launch::Intercepted { .. } => panic!("nobody could intercept"),
    }
    assert_eq!((owner(&state, "b"), army(&state, "b")), (Some("p"), 0));
    assert_eq!((owner(&state, "c"), army(&state, "c")), (Some("p"), 0));
    assert_eq!(owner(&state, "d"), Some("q"));
    assert_eq!(state.players.get("p").unwrap().gold, 1_900_000_000);
    assert_eq!(state.players.get("p").unwrap().gold_income_per_sec, 3);
    assert_eq!(state.building_cooldowns.get("a"), Some(&1_000_000));
    assert_eq!(state.version, 2);
    let again = launch_missile(
        &mut state, &mut caches, &repo, "p", "small", target, None,
        1_000_000 + SILO_COOLDOWN_MS - 1, &haversine,
    );
    assert_eq!(again.err(), Some(Refusal::SiloCooling));
    assert!(launch_missile(
        &mut state, &mut caches, &repo, "p", "small", target, None, 1_000_000 + SILO_COOLDOWN_MS,
        &haversine,
    )
    .is_ok());
}

#[test]
fn a_battery_intercepts_once() {
    let (repo, mut state, mut caches) = arsenal();
    put(&mut state, "d", "q", BuildingType::Sam);
    put(&mut state, "b", "p", BuildingType::Silo);
    let target = place(north(1.5), -72.0);
    let r = launch_missile(
        &mut state, &mut caches, &repo, "p", "hydrogen", target, None, 1_000_000, &haversine,
    )
    .ok()
    .unwrap();
    match r {
        Launch::Intercepted { by } => assert_eq!(by, "q"),
        Launch::Landed { .. } => panic!("the battery was ready"),
    }
    assert_eq!(owner(&state, "c"), None);
    assert_eq!(state.players.get("p").unwrap().gold, 1_000_000_000);
    assert_eq!(state.building_cooldowns.get("d"), Some(&1_000_000));
    let r = launch_missile(
        &mut state, &mut caches, &repo, "p", "small", target, None, 1_000_000, &haversine,
    )
    .ok()
    .unwrap();
    assert!(matches!(r, Launch::Landed { .. }));
}

#[test]
fn launches_are_refused_for_a_reason() {
    let (repo, mut state, mut caches) = arsenal();
    let target = place(north(1.5), -72.0);
    let mut poor = player("q", 5);
    poor.gold_updated_at = 1_000_000;
    state.players.insert("q".to_string(), poor);
    let mut fire = |who: &str, kind: &str, region: Option<Bounds>| {
        launch_missile(
            &mut state, &mut caches, &repo, who, kind, target, region, 1_000_000, &haversine,
        )
        .err()
    };
    assert_eq!(fire("p", "rock", None), Some(Refusal::UnknownMissile));
    let elsewhere = Bounds {
        west: place(0.0, -71.0).lon,
        east: place(0.0, -70.0).lon,
        south: place(40.0, 0.0).lat,
        north: place(50.0, 0.0).lat,
    };
    assert_eq!(fire("p", "small", Some(elsewhere)), Some(Refusal::TargetOutside));
    assert_eq!(fire("q", "small", None), Some(Refusal::NoSilo));
    put(&mut state, "b", "q", BuildingType::Silo);
    put(&mut state, "c", "ghost", BuildingType::Silo);
    let mut fire = |who: &str| {
        launch_missile(
            &mut state, &mut caches, &repo, who, "small", target, None, 1_000_000, &haversine,
        )
        .err()
    };
    assert_eq!(fire("q"), Some(Refusal::MissileTooDear(10_000_000)));
    assert_eq!(fire("ghost"), Some(Refusal::PlayerMissing));
}

#[test]
fn missiles_have_reach_and_price() {
    assert_eq!(find_missile("nuke"), Some(Missile::Nuke));
    assert_eq!(find_missile("Nuke"), None);
    assert_eq!(Missile::Small.radius(), 0.3f64.to_bits());
    assert_eq!(Missile::Nuke.radius(), 1.0f64.to_bits());
    assert_eq!(Missile::Hydrogen.radius(), 3.0f64.to_bits());
    assert_eq!(Missile::Hydrogen.cost(), 1_000_000_000);
}

#[test]
fn a_battery_covers_what_cannot_be_measured() {
    let lost = |_: Coord, _: Coord| f64::NAN.abs().to_bits();
    let endless = |_: Coord, _: Coord| f64::INFINITY.to_bits();
    let target = place(north(1.5), -72.0);
    let (repo, mut state, mut caches) = arsenal();
    put(&mut state, "d", "q", BuildingType::Sam);
    let r = launch_missile(
        &mut state, &mut caches, &repo, "p", "small", target, None, 1_000_000, &lost,
    );
    assert!(matches!(r, Ok(Launch::Intercepted { by }) if by == "q"));
    let (repo, mut state, mut caches) = arsenal();
    put(&mut state, "d", "q", BuildingType::Sam);
    let r = launch_missile(
        &mut state, &mut caches, &repo, "p", "small", target, None, 1_000_000, &endless,
    );
    assert!(matches!(r, Ok(Launch::Landed { taken }) if taken.is_empty()));
    // What cannot be measured is not in reach of the missile.
    let (repo, mut state, mut caches) = arsenal();
    let r = launch_missile(
        &mut state, &mut caches, &repo, "p", "small", target, None, 1_000_000, &lost,
    );
    assert!(matches!(r, Ok(Launch::Landed { taken }) if taken.is_empty()));
}

#[test]
fn lower_case_has_no_other_lower_case() {
    for c in '\0'..=char::MAX {
        let small = c.to_string().to_lowercase();
        assert_eq!(small.to_lowercase(), small, "{c:?}");
    }
    for word in ["\u{39f}\u{394}\u{39f}\u{3a3}", "\u{3a3}\u{3a3}", "A\u{3a3}", "\u{3a3} \u{3a3}'"] {
        let small = word.to_lowercase();
        assert_eq!(small.to_lowercase(), small);
        assert_eq!(BuildingType::from_str(word), BuildingType::from_str(&small));
    }
}
