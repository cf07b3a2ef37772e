use waronmap::accounts::{
    check_credentials, choose_start_nodes, choose_start_nodes_around, enroll, login_player,
    logout_player, open_session, optional_session, register_player, require_session, seed_from,
    Enrollment, SESSION_MS,
};
use waronmap::colors::{color_for, normalize_player_color, palette_color, COLOR_COUNT};
use waronmap::economy::Caches;
use waronmap::errors::{Failure, Refusal};
use waronmap::geometry::{order_key, Coord};
use waronmap::passwords::{
    hash_password_argon2, random_id, sha256_hex, tag, to_hex, verify_password,
};
use waronmap::repo::{NodeRepo, RepoNode};
use waronmap::state::{GameState, Player, WorldNode};
use waronmap::ticks::purge_expired_sessions;

fn place(lat: f64, lon: f64) -> Coord {
    Coord { lat: order_key(lat.to_bits()), lon: order_key(lon.to_bits()) }
}

fn degrees(key: i64) -> f64 {
    if key >= 0 {
        f64::from_bits(key as u64)
    } else {
        -f64::from_bits((-key) as u64)
    }
}

fn flat(a: Coord, b: Coord) -> u64 {
    (degrees(a.lat) - degrees(b.lat)).hypot(degrees(a.lon) - degrees(b.lon)).to_bits()
}

/// A road map of `n` nodes in a row.
fn row(n: usize) -> NodeRepo {
    let mut repo = NodeRepo::new();
    repo.graph_version = 1;
    for i in 0..n {
        let id = format!("n{i}");
        let coord = place(44.0, -72.0 + i as f64);
        repo.nodes_by_id.insert(
            id.clone(),
            RepoNode { id: id.clone(), coord, degree: 2, s2_cell_id: 0 },
        );
        repo.coords_by_id.insert(id, coord);
    }
    repo
}

fn refused(failure: Option<Failure>) -> String {
    failure.unwrap().message()
}

#[test]
fn registered_player_logs_in_and_out() {
    let repo = row(30);
    let mut state = GameState::new(1000);
    let mut caches = Caches::new();
    let login = register_player(
        &mut state, &mut caches, &repo, "  Ada ", "secret", Some(" #C81C1C "), Some(" n15 "), 5000,
        &flat,
    )
    .ok()
    .unwrap();
    assert!(login.player_id.starts_with("player_"));
    assert_eq!(login.player_id.len(), "player_".len() + 24);
    assert!(login.token.starts_with("session_"));
    let player = state.players.get(&login.player_id).unwrap();
    assert_eq!(player.username, "ada");
    assert_eq!(player.color, "#c81c1c");
    assert_eq!(player.gold, 0);
    assert_eq!(player.gold_income_per_sec, 10);
    assert_eq!(player.created_at, 5000);
    assert!(player.password_hash.starts_with("$argon2"));
    assert_ne!(player.password_hash, "secret");
    assert_eq!(player.start_node_ids.len(), 10);
    assert_eq!(player.start_node_ids[0], "n15");
    for id in &player.start_node_ids {
        let node = state.nodes.get(id).unwrap();
        assert_eq!(node.owner_id.as_deref(), Some(login.player_id.as_str()));
        assert_eq!(node.army, 10);
    }
    assert_eq!(state.saved_at, 5000);
    let session = require_session(&state, &login.token, 5000 + SESSION_MS - 1).ok().unwrap();
    assert_eq!(session.player_id, login.player_id);
    assert_eq!(
        require_session(&state, &login.token, 5000 + SESSION_MS).err(),
        Some(Refusal::SessionExpired)
    );

    let again = login_player(&mut state, "ADA", "secret", 6000).ok().unwrap();
    assert_eq!(again.player_id, login.player_id);
    assert_ne!(again.token, login.token);
    assert!(require_session(&state, &again.token, 6000).is_ok());
    assert_eq!(
        refused(login_player(&mut state, "ada", "wrong", 6000).err()),
        "Invalid username or password."
    );
    assert_eq!(
        refused(login_player(&mut state, "nobody", "secret", 6000).err()),
        "Invalid username or password."
    );

    logout_player(&mut state, &again.token, 7000);
    assert_eq!(require_session(&state, &again.token, 7000).err(), Some(Refusal::InvalidSession));
    assert!(require_session(&state, &login.token, 7000).is_ok());
    logout_player(&mut state, "never there", 7001);
    assert_eq!(state.saved_at, 7001);
}

#[test]
fn registration_is_refused_for_a_reason() {
    let repo = row(30);
    let mut state = GameState::new(1000);
    let mut caches = Caches::new();
    let mut attempt = |name: &str, password: &str, start: Option<&str>| {
        register_player(&mut state, &mut caches, &repo, name, password, None, start, 5000, &flat)
            .err()
            .map(|f| f.message())
    };
    assert_eq!(
        attempt(" ab ", "secret", None).unwrap(),
        "Username must be at least 3 characters."
    );
    assert_eq!(
        attempt("abc", "abc", None).unwrap(),
        "Password must be at least 4 characters."
    );
    assert_eq!(
        attempt("abc", "secret", Some("n99")).unwrap(),
        "Selected starting node does not exist."
    );
    assert_eq!(attempt("abc", "secret", Some("n3")), None);
    assert_eq!(attempt("ABC", "secret", None).unwrap(), "Username already exists.");
    assert_eq!(
        attempt("def", "secret", Some("n3")).unwrap(),
        "That node is already owned. Choose a neutral node."
    );
    assert_eq!(attempt("éé", "secret", Some("n29")), None);
    assert_eq!(attempt("ghi", "äö", Some("")), None);
    assert_eq!(
        attempt("jkl", "secret", None).unwrap(),
        "Not enough generated nodes yet. Wait for more node batches to complete."
    );
}

#[test]
fn a_node_has_to_be_in_the_world_to_start_at() {
    let repo = row(12);
    let state = GameState::new(0);
    assert_eq!(
        choose_start_nodes_around(&state, &repo, "n1", &flat).err(),
        Some(Refusal::StartNodeNotInWorld)
    );
    assert_eq!(choose_start_nodes(&state, &repo, 5, &flat).err(), Some(Refusal::NotEnoughNodes));
}

#[test]
fn start_nodes_are_the_nearest_neutral_ones() {
    let repo = row(40);
    let mut state = GameState::new(0);
    for i in 0..40 {
        let owner = if i == 21 { Some("p".to_string()) } else { None };
        state.nodes.insert(
            format!("n{i}"),
            WorldNode { owner_id: owner, army: 10, building: None },
        );
    }
    let chosen = choose_start_nodes_around(&state, &repo, "n20", &flat).ok().unwrap();
    assert_eq!(
        chosen,
        vec!["n20", "n19", "n18", "n22", "n17", "n23", "n16", "n24", "n15", "n25"]
    );
    // 39 nodes are neutral; the seed counts among them.
    let seeded = choose_start_nodes(&state, &repo, 39 * 7 + 38, &flat).ok().unwrap();
    assert_eq!(seeded[0], "n39");
    assert_eq!(seeded[9], "n30");
}

#[test]
fn without_a_measure_start_nodes_are_the_first_ones() {
    let repo = row(12);
    let mut state = GameState::new(0);
    for i in 0..12 {
        state.nodes.insert(
            format!("n{i}"),
            WorldNode { owner_id: None, army: 10, building: None },
        );
    }
    let lost = place(44.0, -72.0);
    let partly = |_: Coord, b: Coord| {
        let km: f64 = if b == lost { f64::NAN } else { 7.0 };
        km.abs().to_bits()
    };
    let chosen = choose_start_nodes_around(&state, &repo, "n5", &partly).ok().unwrap();
    let first: Vec<String> = (0..10).map(|i| format!("n{i}")).collect();
    assert_eq!(chosen, first);
}

#[test]
fn few_nodes_around_are_taken_all() {
    let repo = row(4);
    let mut state = GameState::new(0);
    let mut caches = Caches::new();
    let login = register_player(
        &mut state, &mut caches, &repo, "abc", "secret", None, Some("n0"), 0, &flat,
    )
    .ok()
    .unwrap();
    assert_eq!(state.players.get(&login.player_id).unwrap().start_node_ids.len(), 4);
}

#[test]
fn former_hashes_are_replaced_at_login() {
    let mut state = GameState::new(0);
    let former = sha256_hex("secret");
    assert_eq!(former, "2bb80d537b1da3e38bd30361aa855686bde0eacd7162fef6a25fe97bf527a25b");
    state.players.insert(
        "p1".to_string(),
        Player {
            id: "p1".to_string(),
            username: "ada".to_string(),
            password_hash: former,
            created_at: 0,
            start_node_ids: Vec::new(),
            color: "#000000".to_string(),
            gold: 0,
            gold_income_per_sec: 0,
            gold_updated_at: 0,
            damage_reduction_percent: 0,
            happiness_percent: 0,
        },
    );
    state.usernames.insert("ada".to_string(), "p1".to_string());
    assert_eq!(
        refused(login_player(&mut state, "ada", "Secret", 10).err()),
        "Invalid username or password."
    );
    assert_eq!(state.sessions.len(), 0);
    let login = login_player(&mut state, "ada", "secret", 10).ok().unwrap();
    let hash = state.players.get("p1").unwrap().password_hash.clone();
    assert!(hash.starts_with("$argon2"));
    assert!(login_player(&mut state, "ada", "secret", 11).is_ok());
    assert_eq!(state.players.get("p1").unwrap().password_hash, hash);
    assert!(require_session(&state, &login.token, 12).is_ok());
}

#[test]
fn passwords_are_told_apart() {
    let hash = hash_password_argon2("open sesame").ok().unwrap();
    assert_eq!(verify_password("open sesame", &hash), (true, false));
    assert_eq!(verify_password("open", &hash), (false, false));
    assert_eq!(verify_password("open sesame", "$argon2 broken"), (false, false));
    assert!(hash.contains(",p=1$"));
    let tail = hash.split("p=1$").nth(1).unwrap();
    for lanes in ["0", "2", "16777215", "16777216", "536870912", "4294967295", "99999999999999"] {
        let other = format!("$argon2id$v=19$m=19456,t=2,p={lanes}${tail}");
        assert_eq!(verify_password("open sesame", &other), (false, false));
    }
    let same = format!("$argon2id$v=19$m=19456,t=2,p=1${tail}");
    assert_eq!(verify_password("open sesame", &same), (true, false));
    assert_ne!(hash, hash_password_argon2("open sesame").ok().unwrap());
    assert_eq!(verify_password("", &sha256_hex("")), (true, true));
    assert_eq!(verify_password("x", "too short"), (false, true));
    assert_eq!(
        sha256_hex(""),
        "e3b0c44298fc1c149afbf4c8996fb92427ae41e4649b934ca495991b7852b855"
    );
}

#[test]
fn random_names_carry_their_bytes() {
    assert_eq!(to_hex(&[0, 15, 160, 255]), "000fa0ff");
    assert_eq!(tag("player", &[1; 12]), "player_010101010101010101010101");
    let a = random_id("attack");
    let b = random_id("attack");
    assert!(a.starts_with("attack_") && a.len() == 31);
    assert!(a[7..].chars().all(|c| c.is_ascii_hexdigit()));
    assert_ne!(a, b);
}

#[test]
fn sessions_need_a_player() {
    let mut state = GameState::new(0);
    open_session(&mut state, "t", "ghost", &None, 100);
    assert_eq!(require_session(&state, "t", 100).err(), Some(Refusal::InvalidSession));
    assert!(optional_session(&state, None, 100).ok().unwrap().is_none());
    assert_eq!(optional_session(&state, Some("t"), 100).err(), Some(Refusal::InvalidSession));
}

#[test]
fn purging_keeps_good_sessions() {
    let mut state = GameState::new(0);
    open_session(&mut state, "old", "p", &None, 0);
    open_session(&mut state, "new", "p", &None, 10);
    assert!(!purge_expired_sessions(&mut state, SESSION_MS - 1));
    assert!(purge_expired_sessions(&mut state, SESSION_MS));
    assert!(!state.sessions.contains_key("old"));
    assert!(state.sessions.contains_key("new"));
}

#[test]
fn enrolling_gives_what_was_asked_for() {
    let repo = row(12);
    let mut state = GameState::new(0);
    let mut caches = Caches::new();
    for i in 0..12 {
        state.nodes.insert(
            format!("n{i}"),
            WorldNode { owner_id: None, army: 3, building: None },
        );
    }
    let who = Enrollment {
        player_id: "p1".to_string(),
        token: "t1".to_string(),
        username: "ada".to_string(),
        password_hash: sha256_hex("secret"),
        color: "#123456".to_string(),
        start_nodes: vec!["n2".to_string(), "n5".to_string()],
    };
    assert_eq!(check_credentials(&state, "ada", "secret"), None);
    enroll(&mut state, &mut caches, &repo, &who, 50, &flat);
    assert_eq!(check_credentials(&state, "ada", "secret"), Some(Refusal::UsernameTaken));
    assert_eq!(state.usernames.get("ada").map(|s| s.as_str()), Some("p1"));
    assert_eq!(state.players.get("p1").unwrap().gold_income_per_sec, 2);
    assert_eq!(state.nodes.get("n5").unwrap().army, 10);
    assert_eq!(state.nodes.get("n6").unwrap().army, 3);
    assert_eq!(state.sessions.get("t1").unwrap().expires_at, 50 + SESSION_MS);
    assert!(login_player(&mut state, "ada", "secret", 60).is_ok());
}

#[test]
fn colors_come_from_the_palette_or_the_player() {
    assert_eq!(palette_color(0), "#c81c1c");
    assert_eq!(palette_color(COLOR_COUNT - 1), "#c81c39");
    assert_eq!(color_for(37), palette_color(1));
    assert_eq!(normalize_player_color(Some(" #AbC123 ")), "#abc123");
    for bad in [None, Some("red"), Some("#12345"), Some("#12345g"), Some("#1234567")] {
        let color = normalize_player_color(bad);
        assert!((0..COLOR_COUNT).any(|i| palette_color(i) == color), "{color}");
    }
}

#[test]
fn seeds_are_the_first_eight_bytes() {
    assert_eq!(seed_from(&[0, 0, 0, 0, 0, 0, 1, 2, 9, 9, 9, 9]), 258);
    assert_eq!(seed_from(&[1, 0, 0, 0, 0, 0, 0, 0, 5, 5, 5, 5]), 1 << 56);
    assert_eq!(seed_from(&[255; 12]), u64::MAX);
}
