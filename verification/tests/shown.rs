use waronmap::buildings::BuildingType;
use waronmap::connections::{attack_node_request, Toggle};
use waronmap::economy::Caches;
use waronmap::errors::{Failure, Refusal};
use waronmap::features::{
    all_node_features, attack_feature, city_features, owned_node_features, world_feature,
    OwnerState,
};
use waronmap::freshness::{find_map_use, MapUse};
use waronmap::geometry::{order_key, Bounds, Coord};
use waronmap::leaderboard::{is_test_or_bot_username, leaderboard_response};
use waronmap::missiles::Launch;
use waronmap::repo::{NodeRepo, RepoNode};
use waronmap::requests::{
    build_building_request, game_state_response, launch_missile_request, node_tile_response,
};
use waronmap::state::{Attack, GameState, Player, Session, WorldNode};
use waronmap::ticks::count_ticks;
use waronmap::web::Command;

fn place(lat: f64, lon: f64) -> Coord {
    Coord { lat: order_key(lat.to_bits()), lon: order_key(lon.to_bits()) }
}

fn apart(a: Coord, b: Coord) -> u64 {
    if a == b {
        0
    } else {
        100.0f64.to_bits()
    }
}

fn add_player(state: &mut GameState, id: &str, name: &str, color: &str) {
    state.players.insert(
        id.to_string(),
        Player {
            id: id.to_string(),
            username: name.to_string(),
            password_hash: "hidden".to_string(),
            created_at: 0,
            start_node_ids: Vec::new(),
            color: color.to_string(),
            gold: 1_000_000_000,
            gold_income_per_sec: 3,
            gold_updated_at: 50,
            damage_reduction_percent: 4,
            happiness_percent: 5,
        },
    );
    state.sessions.insert(
        format!("t-{id}"),
        Session {
            token: format!("t-{id}"),
            player_id: id.to_string(),
            created_at: 0,
            expires_at: 1000,
        },
    );
}

fn add_node(state: &mut GameState, repo: &mut NodeRepo, id: &str, owner: &str, army: i64) {
    let coord = place(44.0, state.nodes.len() as f64);
    repo.nodes_by_id.insert(
        id.to_string(),
        RepoNode { id: id.to_string(), coord, degree: 3, s2_cell_id: 0 },
    );
    repo.coords_by_id.insert(id.to_string(), coord);
    let owner_id = if owner.is_empty() { None } else { Some(owner.to_string()) };
    state.nodes.insert(id.to_string(), WorldNode { owner_id, army, building: None });
}

fn scene() -> (GameState, NodeRepo, Caches) {
    let mut state = GameState::new(0);
    let mut repo = NodeRepo::new();
    repo.graph_version = 1;
    add_player(&mut state, "p", "ada", "#aaaaaa");
    add_player(&mut state, "q", "bob", "#bbbbbb");
    add_node(&mut state, &mut repo, "n1", "p", 1500);
    add_node(&mut state, &mut repo, "n2", "q", 20);
    add_node(&mut state, &mut repo, "n3", "", 10);
    add_node(&mut state, &mut repo, "n4", "ghost", 10);
    add_node(&mut state, &mut repo, "n5", "p", 10);
    repo.display_names.insert("n1".to_string(), "Main St".to_string());
    let mut caches = Caches::new();
    caches.synced_graph_version = 1;
    (state, repo, caches)
}

#[test]
fn nodes_are_shown_as_a_player_sees_them() {
    let (state, repo, caches) = scene();
    let own = world_feature(&state, &caches, &repo, "n1", Some("p")).unwrap();
    assert_eq!(own.id, "n1");
    assert_eq!(own.display_name, "Main St");
    assert_eq!(own.coord, place(44.0, 0.0));
    assert_eq!(own.degree, 3);
    assert_eq!((own.army, own.army_label.as_str()), (1500, "1.5K"));
    assert_eq!(own.owner_id.as_deref(), Some("p"));
    assert_eq!(own.owner_username.as_deref(), Some("ada"));
    assert_eq!(own.owner_color.as_deref(), Some("#aaaaaa"));
    assert_eq!(own.owner_state, OwnerState::Own);
    assert_eq!(own.owner_state.word(), "self");
    assert_eq!(own.production_quarters, 4);
    assert!(!own.can_attack);
    let enemy = world_feature(&state, &caches, &repo, "n2", Some("p")).unwrap();
    assert_eq!(enemy.display_name, "Node n2");
    assert_eq!(enemy.owner_state, OwnerState::Enemy);
    assert_eq!(enemy.production_quarters, 0);
    assert!(enemy.can_attack);
    let neutral = world_feature(&state, &caches, &repo, "n3", Some("p")).unwrap();
    assert_eq!(neutral.owner_state.word(), "neutral");
    assert!(neutral.can_attack);
    let ghost = world_feature(&state, &caches, &repo, "n4", None).unwrap();
    assert_eq!(ghost.owner_state, OwnerState::Enemy);
    assert_eq!(ghost.owner_username, None);
    assert!(!ghost.can_attack);
    assert!(world_feature(&state, &caches, &repo, "n9", None).is_none());
}

#[test]
fn lists_of_nodes_keep_their_order() {
    let (mut state, repo, caches) = scene();
    let ids = |list: Vec<waronmap::features::NodeFeature>| {
        list.into_iter().map(|f| f.id).collect::<Vec<_>>()
    };
    assert_eq!(ids(owned_node_features(&state, &caches, &repo, Some("p"))), vec!["n1", "n5"]);
    assert_eq!(ids(owned_node_features(&state, &caches, &repo, None)), Vec::<String>::new());
    state.nodes.insert(
        "off".to_string(),
        WorldNode { owner_id: Some("p".to_string()), army: 1, building: None },
    );
    assert_eq!(
        ids(all_node_features(&state, &caches, &repo, None)),
        vec!["n1", "n2", "n3", "n4", "n5"]
    );
}

#[test]
fn cities_are_shown_in_their_owners_color() {
    let (mut state, repo, _) = scene();
    for (id, owner) in [("n2", "q"), ("n4", "ghost"), ("nowhere", "q")] {
        state.nodes.insert(
            id.to_string(),
            WorldNode {
                owner_id: Some(owner.to_string()),
                army: 0,
                building: Some(BuildingType::City),
            },
        );
    }
    let cities = city_features(&state, &repo);
    assert_eq!(cities.len(), 2);
    assert_eq!((cities[0].id.as_str(), cities[0].owner_color.as_str()), ("n2", "#bbbbbb"));
    assert_eq!((cities[1].id.as_str(), cities[1].owner_color.as_str()), ("n4", "#94a3b8"));
    assert_eq!(cities[1].owner_id.as_deref(), Some("ghost"));
    assert_eq!(cities[0].coord, place(44.0, 1.0));
}

fn attack(owner: &str) -> Attack {
    Attack {
        id: format!("by-{owner}"),
        owner_id: owner.to_string(),
        mode: "attack".to_string(),
        from_node_id: "n1".to_string(),
        to_node_id: "n2".to_string(),
        path: vec![place(44.0, 0.0), place(44.0, 1.0)],
        send_per_tick: 9,
        created_at: 8,
    }
}

#[test]
fn attacks_are_shown_in_their_owners_color() {
    let (state, _, _) = scene();
    let own = attack_feature(&state, &attack("p"), Some("p"));
    assert_eq!(own.owner_state, OwnerState::Own);
    assert_eq!(own.owner_color, "#aaaaaa");
    assert_eq!((own.send_per_tick, own.created_at), (9, 8));
    assert_eq!(own.path.len(), 2);
    let other = attack_feature(&state, &attack("p"), None);
    assert_eq!(other.owner_state, OwnerState::Enemy);
    let ghost = attack_feature(&state, &attack("ghost"), Some("p"));
    assert!(ghost.owner_color.starts_with('#') && ghost.owner_color.len() == 7);
}

#[test]
fn the_game_is_shown_to_players_and_guests() {
    let (mut state, repo, mut caches) = scene();
    state.attacks.insert("by-p".to_string(), attack("p"));
    let mine =
        game_state_response(&state, &mut caches, &repo, Some("t-p"), true, 10, &apart).ok().unwrap();
    let card = mine.player.unwrap();
    assert_eq!((card.id.as_str(), card.username.as_str()), ("p", "ada"));
    assert_eq!((card.gold, card.gold_income_per_sec), (1_000_000_000, 3));
    assert_eq!((card.damage_reduction_percent, card.happiness_percent), (4, 5));
    assert_eq!(mine.owned_nodes.len(), 2);
    assert_eq!(mine.nodes.len(), 5);
    assert_eq!(mine.attacks.len(), 1);
    assert!(!caches.city_membership_dirty);
    let guest =
        game_state_response(&state, &mut caches, &repo, None, false, 10, &apart).ok().unwrap();
    assert!(guest.player.is_none());
    assert_eq!(guest.owned_nodes.len(), 0);
    assert_eq!(guest.nodes.len(), 0);
    assert_eq!(guest.attacks.len(), 1);
    assert_eq!(
        game_state_response(&state, &mut caches, &repo, Some("x"), true, 10, &apart).err(),
        Some(Refusal::InvalidSession)
    );
    assert_eq!(
        game_state_response(&state, &mut caches, &repo, Some("t-p"), true, 1000, &apart).err(),
        Some(Refusal::SessionExpired)
    );
}

#[test]
fn requests_need_a_session() {
    let (mut state, mut repo, mut caches) = scene();
    assert_eq!(
        build_building_request(
            &mut state, &mut caches, &repo, "x", "n1", BuildingType::Silo, 50, &apart
        )
        .err(),
        Some(Refusal::InvalidSession)
    );
    assert_eq!(
        build_building_request(
            &mut state, &mut caches, &repo, "t-q", "n1", BuildingType::Silo, 50, &apart
        )
        .err(),
        Some(Refusal::NodeNotOwned)
    );
    let report = build_building_request(
        &mut state, &mut caches, &repo, "t-p", "n1", BuildingType::Silo, 50, &apart,
    )
    .ok()
    .unwrap();
    assert_eq!(report.gold, 990_000_000);
    assert_eq!(
        launch_missile_request(
            &mut state, &mut caches, &repo, "", "small", place(44.0, 1.0), None, 50, &apart
        )
        .err(),
        Some(Refusal::InvalidSession)
    );
    let r = launch_missile_request(
        &mut state, &mut caches, &repo, "t-p", "small", place(44.0, 1.0), None, 700, &apart,
    );
    assert_eq!(r.err(), Some(Refusal::SiloCooling));
    state.sessions.insert(
        "late".to_string(),
        Session {
            token: "late".to_string(),
            player_id: "p".to_string(),
            created_at: 0,
            expires_at: 10_000_000,
        },
    );
    let r = launch_missile_request(
        &mut state, &mut caches, &repo, "late", "small", place(44.0, 1.0), None, 900_000, &apart,
    );
    match r.ok().unwrap() {
        Launch::Landed { taken } => assert_eq!(taken, vec!["n2"]),
        Launch::Intercepted { .. } => panic!("nobody could intercept"),
    }
    let tile = |_: i64, _: i64, _: i64| Bounds { west: 0, east: 1, south: 0, north: 1 };
    let never = |_: Bounds, _: u64| false;
    let r = node_tile_response(
        &state, &mut caches, &mut repo, None, "x", 0, 0, 0, 50, &apart, &tile, &never,
    );
    assert_eq!(r.err().unwrap().message(), "Invalid session.");
    let r = node_tile_response(
        &state, &mut caches, &mut repo, None, "t-p", 0, 0, 1, 50, &apart, &tile, &never,
    );
    assert_eq!(r.err().unwrap().message(), "Invalid tile coordinates.");
    let r = node_tile_response(
        &state, &mut caches, &mut repo, None, "t-p", 0, 0, 0, 50, &apart, &tile, &never,
    );
    assert_eq!(r.ok().unwrap().len(), 0);
}

#[test]
fn bots_are_known_by_their_names() {
    for name in [
        "MyTest", "probe7", "perfect", "dummy", "QA_one", "xtrae_y", "123456", "", "aaaabbbbccccdd",
    ] {
        assert!(is_test_or_bot_username(name), "{name}");
    }
    for name in ["ada", "aqa_", "aaaabbbbccc", "abcdeabcdeabcde", "12e4", "tes t"] {
        assert!(!is_test_or_bot_username(name), "{name}");
    }
    // Twelve bytes, but only two letters.
    assert!(is_test_or_bot_username("ééééöö"));
}

#[test]
fn the_board_is_in_order() {
    let (mut state, mut repo, _) = scene();
    for i in 0..30 {
        let id = format!("x{i}");
        add_player(&mut state, &id, &format!("player {}", 50 - i), "#cccccc");
        add_node(&mut state, &mut repo, &format!("m{i}"), &id, 100);
    }
    add_player(&mut state, "bot", "tester", "#cccccc");
    add_node(&mut state, &mut repo, "big", "bot", 900_000);
    add_node(&mut state, &mut repo, "neg", "q", -50);
    let board = leaderboard_response(&state, Some("t-q"), 10).ok().unwrap();
    assert_eq!(board.standings.len(), 20);
    assert_eq!(board.standings[0].player_id, "p");
    assert_eq!((board.standings[0].nodes, board.standings[0].army), (2, 1510));
    assert_eq!(board.standings[1].username, "player 21");
    assert_eq!(board.standings[19].username, "player 39");
    // The army of `q` is 20 only: too little for the board.
    assert_eq!(board.current_rank, None);
    add_node(&mut state, &mut repo, "more", "q", 80);
    let board = leaderboard_response(&state, Some("t-q"), 10).ok().unwrap();
    // As much army as the others, but more nodes.
    assert_eq!(board.current_rank, Some(2));
    assert_eq!(board.standings[1].nodes, 3);
    assert_eq!(board.standings[1].army, 100);
    assert_eq!(leaderboard_response(&state, None, 10).ok().unwrap().current_rank, None);
    assert_eq!(
        leaderboard_response(&state, Some("x"), 10).err(),
        Some(Refusal::InvalidSession)
    );
}

#[test]
fn requests_wait_for_the_map_only_where_it_matters() {
    let (mut state, _, _) = scene();
    let use_of = |state: &GameState, command: Command| find_map_use(state, &command, 100);
    let connect = |token: &str, from: &str, to: &str| Command::Attack {
        token: token.to_string(),
        from: from.to_string(),
        to: to.to_string(),
        send_per_tick: 1,
    };
    assert_eq!(use_of(&state, connect("t-p", "n1", "n2")), MapUse::Fresh);
    assert_eq!(use_of(&state, connect("bad", "n1", "n2")), MapUse::Unneeded);
    assert_eq!(use_of(&state, connect("t-p", "n1", "n1")), MapUse::Unneeded);
    assert_eq!(use_of(&state, connect("t-p", "n1", "n9")), MapUse::Unneeded);
    assert_eq!(use_of(&state, connect("t-p", "n2", "n1")), MapUse::Unneeded);
    let preview = |token: &str| Command::Preview {
        token: token.to_string(),
        from: "n1".to_string(),
        to: "n2".to_string(),
    };
    state.attacks.insert("a".to_string(), attack("p"));
    assert_eq!(use_of(&state, connect("t-p", "n1", "n2")), MapUse::Unneeded);
    assert_eq!(use_of(&state, preview("t-p")), MapUse::Fresh);
    assert_eq!(use_of(&state, preview("bad")), MapUse::Unneeded);
    let neighbors = |from: &str, candidates: usize| Command::ShowNeighbors {
        token: "t-p".to_string(),
        from: from.to_string(),
        candidates: vec!["n2".to_string(); candidates],
    };
    assert_eq!(use_of(&state, neighbors("n1", 20_000)), MapUse::Fresh);
    assert_eq!(use_of(&state, neighbors("n1", 20_001)), MapUse::Unneeded);
    assert_eq!(use_of(&state, neighbors("n3", 0)), MapUse::Unneeded);
    let tile = |token: &str| Command::ShowTile { token: token.to_string(), z: 0, x: 0, y: 0 };
    assert_eq!(use_of(&state, tile("t-q")), MapUse::Fresh);
    assert_eq!(use_of(&state, tile("bad")), MapUse::Unneeded);
    let build = |token: &str| Command::Build {
        token: token.to_string(),
        node_id: "n1".to_string(),
        building: BuildingType::Bar,
    };
    assert_eq!(use_of(&state, build("t-p")), MapUse::Synced);
    assert_eq!(use_of(&state, build("bad")), MapUse::Unneeded);
    let launch = |token: &str| Command::Launch {
        token: token.to_string(),
        missile_type: "nuke".to_string(),
        target: place(44.0, 0.0),
    };
    assert_eq!(use_of(&state, launch("t-p")), MapUse::Synced);
    assert_eq!(use_of(&state, launch("bad")), MapUse::Unneeded);
    let register = |username: &str| Command::Register {
        username: username.to_string(),
        password: "secret".to_string(),
        start_node_id: None,
    };
    assert_eq!(use_of(&state, register(" Carol ")), MapUse::Synced);
    assert_eq!(use_of(&state, register("ab")), MapUse::Unneeded);
    state.usernames.insert("carol".to_string(), "p".to_string());
    assert_eq!(use_of(&state, register(" Carol ")), MapUse::Unneeded);
    assert_eq!(use_of(&state, Command::ShowBuildStatus), MapUse::Unneeded);
    let disconnect = Command::Disconnect {
        token: "t-p".to_string(),
        from: "n1".to_string(),
        to: "n2".to_string(),
    };
    assert_eq!(use_of(&state, disconnect), MapUse::Unneeded);
}

#[test]
fn what_needs_no_map_comes_out_alike_on_every_map() {
    let path = |points: Vec<Coord>| points;
    let sum = |a: u64, b: u64| a.saturating_add(b);
    for with_map in [true, false] {
        let (mut state, full, _) = scene();
        let mut repo = if with_map { full } else { NodeRepo::new() };
        state.attacks.insert("a".to_string(), attack("p"));
        let outcome = attack_node_request(
            &mut state, &mut repo, "t-p", "n1", "n2", 5, 100, &sum, &apart, &path,
        );
        assert!(matches!(outcome, Ok(Toggle::Removed { attack_id }) if attack_id == "a"));
        let refused = attack_node_request(
            &mut state, &mut repo, "t-p", "n2", "n1", 5, 100, &sum, &apart, &path,
        );
        assert!(matches!(refused, Err(Failure::Refused(Refusal::SourceNotOwned))));
    }
}

#[test]
fn ticks_are_counted_up_to_a_minute() {
    assert_eq!(count_ticks(5_000, 5_999), 0);
    assert_eq!(count_ticks(5_000, 6_000), 1);
    assert_eq!(count_ticks(5_000, 64_999), 59);
    assert_eq!(count_ticks(5_000, 900_000), 60);
    assert_eq!(count_ticks(5_000, 1_000), 0);
    assert_eq!(count_ticks(0, 900_000), 0);
}
