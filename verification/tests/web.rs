use waronmap::body::{get_degrees, get_id, get_ids, get_integer, get_text, parse_body_json};
use waronmap::buildings::BuildingType;
use waronmap::errors::Refusal;
use waronmap::geometry::order_key;
use waronmap::live::{authenticate, respond, Action, Event, Phase};
use waronmap::state::{GameState, Player, Session};
use waronmap::web::{
    cache_control, content_type, extract_bearer_token, find_extension, find_route, is_current,
    make_command, parse_url, read_command, static_file, wants_body, Command, Rejection, Route, Verb,
};

fn pairs(list: &[(&str, &str)]) -> Vec<(String, String)> {
    list.iter().map(|(a, b)| (a.to_string(), b.to_string())).collect()
}

#[test]
fn urls_are_taken_apart() {
    let url = parse_url("/api/node-tile?z=3&x=a%20b+c&y=&z=4?5");
    assert_eq!(url.path, "/api/node-tile");
    assert_eq!(url.query, pairs(&[("z", "3"), ("x", "a b c"), ("y", ""), ("z", "4?5")]));
    let url = parse_url("/plain");
    assert_eq!((url.path.as_str(), url.query.len()), ("/plain", 0));
    let url = parse_url("?a=b");
    assert_eq!((url.path.as_str(), url.query.len()), ("", 1));
}

#[test]
fn routes_are_known_by_verb_and_path() {
    for (verb, path, route) in [
        (Verb::Post, "/api/register", Route::Register),
        (Verb::Post, "/api/login", Route::Login),
        (Verb::Get, "/api/game-state", Route::GameState),
        (Verb::Get, "/api/leaderboard", Route::Leaderboard),
        (Verb::Get, "/api/node-tile", Route::NodeTile),
        (Verb::Post, "/api/logout", Route::Logout),
        (Verb::Post, "/api/attack", Route::Attack),
        (Verb::Post, "/api/build", Route::Build),
        (Verb::Post, "/api/launch-missile", Route::LaunchMissile),
        (Verb::Post, "/api/connection-rate", Route::ConnectionRate),
        (Verb::Post, "/api/connection-remove", Route::ConnectionRemove),
        (Verb::Post, "/api/connectable-nodes", Route::ConnectableNodes),
        (Verb::Post, "/api/connection-preview", Route::ConnectionPreview),
        (Verb::Get, "/api/build-status", Route::BuildStatus),
        (Verb::Get, "/api/register", Route::File),
        (Verb::Post, "/api/game-state", Route::File),
        (Verb::Other, "/api/login", Route::File),
        (Verb::Get, "/", Route::File),
    ] {
        assert_eq!(find_route(verb, path), route, "{path}");
    }
}

#[test]
fn tokens_come_from_the_headers() {
    let token = |list: &[(&str, &str)]| extract_bearer_token(&pairs(list));
    assert_eq!(token(&[("aUTHorization", "Bearer  abc ")]).as_deref(), Some("abc"));
    assert_eq!(token(&[("Accept", "x"), ("Authorization", "Bearer t")]).as_deref(), Some("t"));
    assert_eq!(token(&[("Authorization", "bearer t")]), None);
    assert_eq!(token(&[("Authorization", "Basic t"), ("Authorization", "Bearer t")]), None);
    assert_eq!(token(&[]), None);
}

#[test]
fn bodies_are_read_as_json() {
    assert_eq!(parse_body_json(&b"".to_vec()).ok().unwrap().len(), 0);
    assert_eq!(parse_body_json(&b"[1,2]".to_vec()).ok().unwrap().len(), 0);
    assert_eq!(parse_body_json(&b"{oops".to_vec()).err(), Some(Refusal::InvalidJson));
    assert_eq!(parse_body_json(&vec![b' '; 2_000_001]).err(), Some(Refusal::BodyTooLarge));
    assert_eq!(parse_body_json(&vec![b' '; 2_000_000]).err(), Some(Refusal::InvalidJson));
    let text = r#"{"s":"x","n":12,"f":-1.5,"b":true,"z":null,"l":["a",7,2.5,null,[1],"b"],"s2":"ä"}"#;
    let fields = parse_body_json(&text.as_bytes().to_vec()).ok().unwrap();
    assert_eq!(get_text(&fields, "s").as_deref(), Some("x"));
    assert_eq!(get_text(&fields, "s2").as_deref(), Some("ä"));
    assert_eq!(get_text(&fields, "n"), None);
    assert_eq!(get_id(&fields, "n").as_deref(), Some("12"));
    assert_eq!(get_id(&fields, "f").as_deref(), Some("-1.5"));
    assert_eq!(get_id(&fields, "s").as_deref(), Some("x"));
    assert_eq!(get_id(&fields, "b"), None);
    assert_eq!(get_integer(&fields, "n"), Some(12));
    assert_eq!(get_integer(&fields, "f"), None);
    assert_eq!(get_integer(&fields, "missing"), None);
    assert_eq!(get_degrees(&fields, "f"), Some(order_key((-1.5f64).to_bits())));
    assert_eq!(get_degrees(&fields, "n"), Some(order_key(12f64.to_bits())));
    assert_eq!(get_degrees(&fields, "s"), None);
    assert_eq!(get_ids(&fields, "l"), vec!["a", "7", "2.5", "b"]);
    assert_eq!(get_ids(&fields, "s"), Vec::<String>::new());
}

fn command(route: Route, bearer: Option<&str>, body: &str) -> Result<Command, Rejection> {
    read_command(
        route,
        &Vec::new(),
        &bearer.map(|b| b.to_string()),
        &body.as_bytes().to_vec(),
    )
}

#[test]
fn accounts_are_asked_for() {
    match command(Route::Register, None, r#"{"username":"a","password":"b","startNodeId":"7"}"#) {
        Ok(Command::Register { username, password, start_node_id }) => {
            assert_eq!((username.as_str(), password.as_str()), ("a", "b"));
            assert_eq!(start_node_id.as_deref(), Some("7"));
        }
        _ => panic!("a registration"),
    }
    match command(Route::Login, None, r#"{"username":5}"#) {
        Ok(Command::Login { username, password }) => {
            assert_eq!((username.as_str(), password.as_str()), ("", ""));
        }
        _ => panic!("a login"),
    }
    assert_eq!(
        command(Route::Login, None, "nonsense").err(),
        Some(Rejection::Refused(Refusal::InvalidJson))
    );
    match command(Route::Logout, Some("t"), "nonsense") {
        Ok(Command::Logout { token }) => assert_eq!(token, "t"),
        _ => panic!("a logout"),
    }
    match command(Route::Logout, None, r#"{"token":"u"}"#) {
        Ok(Command::Logout { token }) => assert_eq!(token, "u"),
        _ => panic!("a logout"),
    }
    assert_eq!(
        command(Route::Logout, None, "nonsense").err(),
        Some(Rejection::Refused(Refusal::InvalidSession))
    );
}

#[test]
fn the_map_is_asked_for() {
    let bearer = Some("t".to_string());
    let ask = |route: Route, query: &[(&str, &str)], bearer: &Option<String>| {
        make_command(route, &pairs(query), bearer, &Vec::new())
    };
    match ask(Route::GameState, &[("view", "summary")], &None) {
        Ok(Command::ShowGame { session, include_nodes }) => {
            assert_eq!((session, include_nodes), (None, false));
        }
        _ => panic!("the game"),
    }
    match ask(Route::GameState, &[("view", "summary"), ("view", "all")], &bearer) {
        Ok(Command::ShowGame { session, include_nodes }) => {
            assert_eq!((session.as_deref(), include_nodes), (Some("t"), true));
        }
        _ => panic!("the game"),
    }
    assert!(matches!(ask(Route::Leaderboard, &[], &None), Ok(Command::ShowLeaderboard { .. })));
    match ask(Route::NodeTile, &[("z", "3"), ("x", "+4"), ("y", "-5")], &bearer) {
        Ok(Command::ShowTile { token, z, x, y }) => {
            assert_eq!((token.as_str(), z, x, y), ("t", 3, 4, -5));
        }
        _ => panic!("a tile"),
    }
    assert_eq!(
        ask(Route::NodeTile, &[("z", "3"), ("x", "4")], &bearer).err(),
        Some(Rejection::Refused(Refusal::TileMissing))
    );
    assert_eq!(
        ask(Route::NodeTile, &[("z", "3"), ("x", "4"), ("y", "5.0")], &bearer).err(),
        Some(Rejection::Refused(Refusal::TileMissing))
    );
    assert_eq!(
        ask(Route::NodeTile, &[], &None).err(),
        Some(Rejection::Refused(Refusal::InvalidSession))
    );
    assert!(matches!(ask(Route::BuildStatus, &[], &None), Ok(Command::ShowBuildStatus)));
    assert!(matches!(ask(Route::File, &[], &None), Ok(Command::SendFile)));
}

#[test]
fn connections_are_asked_for() {
    let full = r#"{"token":"t","fromNodeId":1,"toNodeId":"2","sendPerTick":40,"nodeIds":[3,"4",null]}"#;
    match command(Route::Attack, None, full) {
        Ok(Command::Attack { token, from, to, send_per_tick }) => {
            assert_eq!((token.as_str(), from.as_str(), to.as_str()), ("t", "1", "2"));
            assert_eq!(send_per_tick, 40);
        }
        _ => panic!("an attack"),
    }
    match command(Route::ConnectionRate, None, r#"{"token":"t","fromNodeId":1,"toNodeId":2}"#) {
        Ok(Command::SetRate { send_per_tick, .. }) => assert_eq!(send_per_tick, 1),
        _ => panic!("a rate"),
    }
    assert!(matches!(command(Route::ConnectionRemove, None, full), Ok(Command::Disconnect { .. })));
    assert!(matches!(command(Route::ConnectionPreview, None, full), Ok(Command::Preview { .. })));
    match command(Route::ConnectableNodes, None, full) {
        Ok(Command::ShowNeighbors { candidates, from, .. }) => {
            assert_eq!(candidates, vec!["3", "4"]);
            assert_eq!(from, "1");
        }
        _ => panic!("neighbours"),
    }
    for (body, refusal) in [
        (r#"{"fromNodeId":1,"toNodeId":2}"#, Refusal::InvalidSession),
        (r#"{"token":1,"fromNodeId":1,"toNodeId":2}"#, Refusal::InvalidSession),
        (r#"{"token":"t","toNodeId":2}"#, Refusal::InvalidNodes),
        (r#"{"token":"t","fromNodeId":1,"toNodeId":null}"#, Refusal::InvalidNodes),
    ] {
        let want = Some(Rejection::Refused(refusal));
        assert_eq!(command(Route::Attack, None, body).err(), want);
        assert_eq!(command(Route::ConnectionRate, None, body).err(), want);
        assert_eq!(command(Route::ConnectionRemove, None, body).err(), want);
        assert_eq!(command(Route::ConnectionPreview, None, body).err(), want);
    }
    assert!(command(Route::ConnectableNodes, None, r#"{"token":"t","fromNodeId":1}"#).is_ok());
}

#[test]
fn building_is_disabled() {
    let body = r#"{"token":"t","nodeId":1,"building":"city"}"#;
    let rejection = command(Route::Build, None, body).err().unwrap();
    assert_eq!(rejection, Rejection::BuildingsDisabled);
    assert_eq!(rejection.status(), 403);
    assert_eq!(rejection.message(), "building system disabled");
    assert_eq!(
        command(Route::LaunchMissile, None, "nonsense").err(),
        Some(Rejection::BuildingsDisabled)
    );
    assert!(!wants_body(Route::Build, false));
    assert!(wants_body(Route::Login, true));
    assert!(!wants_body(Route::Logout, true));
    assert!(wants_body(Route::Logout, false));
    let refused = Rejection::Refused(Refusal::InvalidSession);
    assert_eq!((refused.status(), refused.message().as_str()), (400, "Invalid session."));
    assert_eq!(BuildingType::from_str("CITY"), Some(BuildingType::City));
}

#[test]
fn few_files_are_served() {
    assert_eq!(static_file("/"), Some("openfreemap_viewer.html"));
    assert_eq!(static_file("/openfreemap_viewer.html"), Some("openfreemap_viewer.html"));
    assert_eq!(static_file("/sw.js"), Some("sw.js"));
    assert_eq!(static_file("/vendor/maplibre-gl.js"), Some("vendor/maplibre-gl.js"));
    assert_eq!(static_file("/vendor/maplibre-gl.css"), Some("vendor/maplibre-gl.css"));
    assert_eq!(static_file("/../state.json"), None);
    assert_eq!(cache_control("/sw.js"), "public, max-age=60");
    assert_eq!(cache_control("/x/build_status.json"), "no-store");
    assert_eq!(cache_control("/preview_intersections.geojson"), "no-store");
    assert_eq!(cache_control("/query_tiles_status"), "no-store");
}

#[test]
fn media_types_follow_the_extension() {
    for (file, media) in [
        ("a.html", "text/html; charset=utf-8"),
        ("a/b.c.js", "application/javascript; charset=utf-8"),
        ("x.json", "application/json; charset=utf-8"),
        ("x.css", "text/css; charset=utf-8"),
        ("x.geojson", "application/geo+json; charset=utf-8"),
        ("x.svg", "image/svg+xml"),
        ("x.png", "image/png"),
        ("x.jpg", "image/jpeg"),
        ("x.jpeg", "image/jpeg"),
        ("x.pbf", "application/octet-stream"),
        ("x.HTML", "application/octet-stream"),
        ("noext", "application/octet-stream"),
    ] {
        assert_eq!(content_type(file), media, "{file}");
    }
}

#[test]
fn extensions_are_those_of_paths() {
    for path in [
        "", ".", "..", "a", "a.b", "a.b.c", ".a", ".a.b", "a.", "a..b", "d.e/f", "d.e/", "d.e/.",
        "d.e/..", "/", "//", "x/.html", "x.html//", "a/./b.js/././", "..a", "...",
    ] {
        let want = std::path::Path::new(path).extension().and_then(|e| e.to_str()).unwrap_or("");
        assert_eq!(find_extension(path), want, "{path}");
    }
}

#[test]
fn what_was_read_is_kept_until_the_file_changes() {
    assert!(is_current(Some(5), 5));
    assert!(!is_current(Some(5), 6));
    assert!(!is_current(None, 0));
}

fn listening() -> GameState {
    let mut state = GameState::new(0);
    state.players.insert(
        "p".to_string(),
        Player {
            id: "p".to_string(),
            username: "ada".to_string(),
            password_hash: String::new(),
            created_at: 0,
            start_node_ids: Vec::new(),
            color: String::new(),
            gold: 0,
            gold_income_per_sec: 0,
            gold_updated_at: 0,
            damage_reduction_percent: 0,
            happiness_percent: 0,
        },
    );
    state.sessions.insert(
        "t".to_string(),
        Session {
            token: "t".to_string(),
            player_id: "p".to_string(),
            created_at: 0,
            expires_at: 100,
        },
    );
    state
}

#[test]
fn only_known_players_listen() {
    let state = listening();
    let hello = |text: &str, now: i64| {
        respond(Phase::Waiting, Event::Text(text.to_string()), &state, now)
    };
    match hello(r#"{"type":"auth","token":"t"}"#, 99) {
        (Phase::Listening, Action::Accept { player_id }) => assert_eq!(player_id, "p"),
        _ => panic!("a known player"),
    }
    for text in [
        r#"{"type":"auth","token":"u"}"#,
        r#"{"type":"auth","token":7}"#,
        r#"{"type":"hello","token":"t"}"#,
        r#"{"token":"t"}"#,
        "not json",
        "",
    ] {
        assert!(matches!(hello(text, 99), (Phase::Over, Action::Reject)), "{text}");
    }
    assert!(matches!(
        hello(r#"{"type":"auth","token":"t"}"#, 100),
        (Phase::Over, Action::Reject)
    ));
    assert_eq!(authenticate(&Vec::new(), &state, 0), None);
}

#[test]
fn a_connection_goes_through_its_phases() {
    let state = listening();
    let step = |phase: Phase, event: Event| respond(phase, event, &state, 0);
    assert!(matches!(step(Phase::Waiting, Event::OtherMessage), (Phase::Waiting, Action::Wait)));
    assert!(matches!(
        step(Phase::Waiting, Event::Update("u".to_string())),
        (Phase::Waiting, Action::Wait)
    ));
    for event in [Event::Broken, Event::Ended, Event::TimedOut] {
        assert!(matches!(step(Phase::Waiting, event), (Phase::Over, Action::Reject)));
    }
    match step(Phase::Listening, Event::Update("u".to_string())) {
        (Phase::Listening, Action::Send { text }) => assert_eq!(text, "u"),
        _ => panic!("an update"),
    }
    assert!(matches!(step(Phase::Listening, Event::PingDue), (Phase::Listening, Action::Ping)));
    assert!(matches!(
        step(Phase::Listening, Event::Text("x".to_string())),
        (Phase::Listening, Action::Wait)
    ));
    for event in [Event::UpdatesLost, Event::SendFailed] {
        assert!(matches!(step(Phase::Listening, event), (Phase::Over, Action::HangUp)));
    }
    assert!(matches!(step(Phase::Over, Event::PingDue), (Phase::Over, Action::HangUp)));
}
