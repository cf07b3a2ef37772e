use waronmap::connections::{
    attack_node_request, connect, connectable_nodes_request, connection_preview_request,
    connection_rate_request, connection_remove_request, resolve_connection,
    simplify_connection_path, Connection, Toggle,
};
use waronmap::economy::Caches;
use waronmap::errors::Refusal;
use waronmap::features::OwnerState;
use waronmap::geometry::{order_key, Coord};
use waronmap::heap::OpenList;
use waronmap::repo::{Edge, EdgeList, NodeRepo, RepoNode};
use waronmap::roads::{find_road_path, immediate_neighbor_targets};
use waronmap::state::{GameState, Player, Session, WorldNode};

fn place(lat: f64, lon: f64) -> Coord {
    Coord { lat: order_key(lat.to_bits()), lon: order_key(lon.to_bits()) }
}

fn degrees(key: i64) -> f64 {
    if key >= 0 {
        f64::from_bits(key as u64)
    } else {
        -f64::from_bits((-key) as u64)
    }
}

fn flat(a: Coord, b: Coord) -> u64 {
    (degrees(a.lat) - degrees(b.lat)).hypot(degrees(a.lon) - degrees(b.lon)).to_bits()
}

fn sum(a: u64, b: u64) -> u64 {
    (f64::from_bits(a) + f64::from_bits(b)).to_bits()
}

fn ends_only(path: Vec<Coord>) -> Vec<Coord> {
    vec![path[0], path[path.len() - 1]]
}

fn add_point(repo: &mut NodeRepo, id: &str, lat: f64, lon: f64, node: bool) {
    let coord = place(lat, lon);
    if node {
        repo.nodes_by_id.insert(
            id.to_string(),
            RepoNode { id: id.to_string(), coord, degree: 3, s2_cell_id: 0 },
        );
    }
    repo.coords_by_id.insert(id.to_string(), coord);
}

fn add_road(repo: &mut NodeRepo, a: &str, b: &str) {
    let weight = flat(*repo.coords_by_id.get(a).unwrap(), *repo.coords_by_id.get(b).unwrap());
    for (from, to) in [(a, b), (b, a)] {
        let mut edges: Vec<Edge> = match repo.adjacency.get(from) {
            Some(list) => {
                list.edges.iter().map(|e| Edge { to: e.to.clone(), weight: e.weight }).collect()
            }
            None => Vec::new(),
        };
        edges.push(Edge { to: to.to_string(), weight });
        repo.adjacency.insert(from.to_string(), EdgeList { edges });
    }
}

/// Nodes in capitals, bends of roads in small letters:
/// A - x - B - C, A - y - z - B the long way round, and D alone.
fn town() -> NodeRepo {
    let mut repo = NodeRepo::new();
    repo.graph_version = 4;
    add_point(&mut repo, "A", 0.0, 0.0, true);
    add_point(&mut repo, "B", 0.0, 2.0, true);
    add_point(&mut repo, "C", 0.0, 3.0, true);
    add_point(&mut repo, "D", 9.0, 9.0, true);
    add_point(&mut repo, "x", 0.0, 1.0, false);
    add_point(&mut repo, "y", 5.0, 0.0, false);
    add_point(&mut repo, "z", 5.0, 2.0, false);
    for (a, b) in [("A", "y"), ("y", "z"), ("z", "B"), ("A", "x"), ("x", "B"), ("B", "C")] {
        add_road(&mut repo, a, b);
    }
    repo
}

fn world() -> GameState {
    let mut state = GameState::new(0);
    for (id, owner) in [("A", "p"), ("B", "q"), ("C", "p"), ("D", "p")] {
        state.nodes.insert(
            id.to_string(),
            WorldNode { owner_id: Some(owner.to_string()), army: 10, building: None },
        );
    }
    for id in ["p", "q"] {
        state.players.insert(
            id.to_string(),
            Player {
                id: id.to_string(),
                username: id.to_string(),
                password_hash: String::new(),
                created_at: 0,
                start_node_ids: Vec::new(),
                color: "#111111".to_string(),
                gold: 0,
                gold_income_per_sec: 0,
                gold_updated_at: 0,
                damage_reduction_percent: 0,
                happiness_percent: 0,
            },
        );
        state.sessions.insert(
            format!("t{id}"),
            Session {
                token: format!("t{id}"),
                player_id: id.to_string(),
                created_at: 0,
                expires_at: 1_000_000,
            },
        );
    }
    state
}

fn points(names: &[&str], repo: &NodeRepo) -> Vec<Coord> {
    names.iter().map(|n| *repo.coords_by_id.get(n).unwrap()).collect()
}

#[test]
fn neighbours_are_reached_without_passing_a_node() {
    let mut repo = town();
    assert_eq!(immediate_neighbor_targets(&mut repo, "A", &sum).ok().unwrap(), vec!["B"]);
    assert_eq!(immediate_neighbor_targets(&mut repo, "B", &sum).ok().unwrap(), vec!["C", "A"]);
    assert_eq!(
        immediate_neighbor_targets(&mut repo, "D", &sum).ok().unwrap(),
        Vec::<String>::new()
    );
    assert_eq!(
        immediate_neighbor_targets(&mut repo, "x", &sum).err(),
        Some(Refusal::InvalidNodes)
    );
    // What was worked out is kept, with the shortest way.
    assert_eq!(
        repo.immediate_neighbor_cache.get("4:A").map(|l| l.ids.clone()),
        Some(vec!["B".to_string()])
    );
    let want = points(&["A", "x", "B"], &repo);
    assert_eq!(repo.route_cache.get("4:A:B").unwrap().points, want);
    assert_eq!(immediate_neighbor_targets(&mut repo, "A", &sum).ok().unwrap(), vec!["B"]);
}

#[test]
fn the_shortest_way_is_found() {
    let mut repo = town();
    let path = find_road_path(&mut repo, "A", "C", &sum, &flat).ok().unwrap();
    assert_eq!(path, points(&["A", "x", "B", "C"], &repo));
    assert!(repo.route_cache.contains_key("4:A:C"));
    assert_eq!(find_road_path(&mut repo, "A", "C", &sum, &flat).ok().unwrap(), path);
    assert_eq!(
        find_road_path(&mut repo, "A", "A", &sum, &flat).ok().unwrap(),
        points(&["A"], &repo)
    );
    assert_eq!(
        find_road_path(&mut repo, "A", "D", &sum, &flat).err().unwrap().message(),
        "No road path found between node A and node D."
    );
    assert_eq!(
        find_road_path(&mut repo, "A", "nowhere", &sum, &flat).err().unwrap().message(),
        "Missing road coordinates for one of the nodes."
    );
}

#[test]
fn a_detour_beats_a_short_cut_that_is_none() {
    let mut repo = NodeRepo::new();
    for (id, lat, lon) in [("A", 0, 0), ("near", 9, 0), ("far", 0, 5), ("G", 10, 0)] {
        repo.coords_by_id.insert(id.to_string(), Coord { lat, lon });
    }
    let roads = [("A", "near", 30), ("near", "G", 1), ("A", "far", 5), ("far", "G", 15)];
    for from in ["A", "near", "far"] {
        let edges = roads
            .iter()
            .filter(|(a, _, _)| *a == from)
            .map(|(_, b, weight)| Edge { to: b.to_string(), weight: *weight })
            .collect();
        repo.adjacency.insert(from.to_string(), EdgeList { edges });
    }
    let blocks = |a: Coord, b: Coord| a.lat.abs_diff(b.lat) + a.lon.abs_diff(b.lon);
    let exact = |a: u64, b: u64| a.saturating_add(b);
    let path = find_road_path(&mut repo, "A", "G", &exact, &blocks).ok().unwrap();
    assert_eq!(path, points(&["A", "far", "G"], &repo));
}

#[test]
fn ways_agree_with_an_exhaustive_search() {
    // A grid of points with pseudo-random roads; all are nodes.
    let mut repo = NodeRepo::new();
    repo.graph_version = 1;
    let n = 6usize;
    for i in 0..n * n {
        add_point(&mut repo, &format!("{i}"), (i / n) as f64, (i % n) as f64, true);
    }
    let mut seed: u64 = 7;
    let mut dist = vec![vec![f64::INFINITY; n * n]; n * n];
    for i in 0..n * n {
        dist[i][i] = 0.0;
        for j in [i + 1, i + n, i + n + 1] {
            seed = seed.wrapping_mul(6364136223846793005).wrapping_add(1442695040888963407);
            if j < n * n && (j % n >= i % n) && (seed >> 33) % 3 != 0 {
                add_road(&mut repo, &format!("{i}"), &format!("{j}"));
                let w = f64::from_bits(flat(
                    *repo.coords_by_id.get(&format!("{i}")).unwrap(),
                    *repo.coords_by_id.get(&format!("{j}")).unwrap(),
                ));
                dist[i][j] = w;
                dist[j][i] = w;
            }
        }
    }
    for k in 0..n * n {
        for i in 0..n * n {
            for j in 0..n * n {
                let d = dist[i][k] + dist[k][j];
                if d < dist[i][j] {
                    dist[i][j] = d;
                }
            }
        }
    }
    for i in 0..n * n {
        for j in 0..n * n {
            let r = find_road_path(&mut repo, &format!("{i}"), &format!("{j}"), &sum, &flat);
            match r {
                Ok(path) => {
                    let mut length = 0.0;
                    for pair in path.windows(2) {
                        length += f64::from_bits(flat(pair[0], pair[1]));
                    }
                    assert!((length - dist[i][j]).abs() < 1e-9, "{i} {j}");
                }
                Err(_) => assert!(dist[i][j].is_infinite(), "{i} {j}"),
            }
        }
    }
}

#[test]
fn the_open_list_gives_the_least_first() {
    let mut list = OpenList::new();
    assert!(list.pop().is_none());
    let mut want: Vec<(u64, usize)> = Vec::new();
    let mut seed: u64 = 3;
    for i in 0..200usize {
        seed = seed.wrapping_mul(6364136223846793005).wrapping_add(1442695040888963407);
        want.push((seed >> 58, i));
        list.push(seed >> 58, i);
    }
    want.sort();
    let mut got: Vec<(u64, usize)> = Vec::new();
    while let Some(entry) = list.pop() {
        got.push(entry);
    }
    let scores = |l: &Vec<(u64, usize)>| l.iter().map(|e| e.0).collect::<Vec<_>>();
    assert_eq!(scores(&got), scores(&want));
    got.sort();
    assert_eq!(got, want);
}

#[test]
fn connections_follow_the_road() {
    let state = world();
    let mut repo = town();
    let thin = |path: Vec<Coord>| path;
    let c = connection_preview_request(&state, &mut repo, "tp", "A", "B", 0, &sum, &flat, &thin)
        .ok()
        .unwrap();
    assert!(!c.transfer);
    assert_eq!(c.mode(), "attack");
    assert_eq!(c.owner_state(), OwnerState::Enemy);
    assert_eq!(c.owner_state().word(), "enemy");
    assert_eq!(c.path, points(&["A", "x", "B"], &repo));
    let c = resolve_connection(&state, &mut repo, "q", "B", "C", &sum, &flat, &thin).ok().unwrap();
    assert_eq!(c.mode(), "attack");
    let mut preview = |token: &str, from: &str, to: &str| {
        connection_preview_request(&state, &mut repo, token, from, to, 0, &sum, &flat, &thin)
            .err()
            .map(|f| f.message())
            .unwrap_or_default()
    };
    assert_eq!(preview("none", "A", "B"), "Invalid session.");
    assert_eq!(preview("tp", "A", "A"), "Select a different target node.");
    assert_eq!(preview("tp", "A", "zzz"), "Invalid nodes.");
    assert_eq!(preview("tp", "B", "C"), "You can only connect from your own node.");
    assert_eq!(
        preview("tp", "A", "C"),
        "Connectable nodes must be directly next to your node on a single road."
    );
}

#[test]
fn a_connection_needs_two_points() {
    let state = world();
    let mut repo = town();
    let thin = |path: Vec<Coord>| path;
    assert!(immediate_neighbor_targets(&mut repo, "A", &sum).is_ok());
    repo.route_cache.insert(
        "4:A:B".to_string(),
        waronmap::repo::Path { points: Vec::new() },
    );
    assert_eq!(
        resolve_connection(&state, &mut repo, "p", "A", "B", &sum, &flat, &thin)
            .err()
            .unwrap()
            .message(),
        "No road path found between those nodes."
    );
}

#[test]
fn paths_are_thinned_but_never_too_far() {
    let path = vec![place(0.0, 0.0), place(0.0, 1.0), place(0.0, 2.0)];
    assert_eq!(simplify_connection_path(&path, &ends_only), vec![path[0], path[2]]);
    let nothing = |_: Vec<Coord>| Vec::new();
    assert_eq!(simplify_connection_path(&path, &nothing), path);
    let two = vec![path[0], path[1]];
    assert_eq!(simplify_connection_path(&two, &nothing), two);
}

#[test]
fn asking_twice_takes_a_connection_away() {
    let mut state = world();
    let mut repo = town();
    let ask = |state: &mut GameState, repo: &mut NodeRepo, rate: i64| {
        attack_node_request(state, repo, "tp", "A", "B", rate, 70, &sum, &flat, &ends_only)
    };
    let made = ask(&mut state, &mut repo, 900).ok().unwrap();
    let id = match made {
        Toggle::Made { attack_id, send_per_tick } => {
            assert_eq!(send_per_tick, 250);
            attack_id
        }
        Toggle::Removed { .. } => panic!("there was nothing to take away"),
    };
    assert!(id.starts_with("attack_"));
    let attack = state.attacks.get(&id).unwrap();
    assert_eq!(attack.owner_id, "p");
    assert_eq!(attack.mode, "attack");
    assert_eq!(attack.send_per_tick, 250);
    assert_eq!(attack.created_at, 70);
    assert_eq!(attack.path, points(&["A", "B"], &repo));
    assert_eq!(state.saved_at, 70);
    match ask(&mut state, &mut repo, 1).ok().unwrap() {
        Toggle::Removed { attack_id } => assert_eq!(attack_id, id),
        Toggle::Made { .. } => panic!("it was there already"),
    }
    assert_eq!(state.attacks.len(), 0);
    assert_eq!(
        attack_node_request(
            &mut state, &mut repo, "tp", "A", "D", 1, 70, &sum, &flat, &ends_only
        )
        .err()
        .unwrap()
        .message(),
        "Connectable nodes must be directly next to your node on a single road."
    );
    assert_eq!(
        attack_node_request(
            &mut state, &mut repo, "tp", "A", "B", 1, 2_000_000, &sum, &flat, &ends_only
        )
        .err()
        .unwrap()
        .message(),
        "Session expired. Please log in again."
    );
}

#[test]
fn rates_are_set_and_connections_removed() {
    let mut state = world();
    let connection = Connection { transfer: true, path: vec![place(0.0, 0.0), place(0.0, 1.0)] };
    assert_eq!(connect(&mut state, "x", "p", "A", "B", &connection, 0, 5), 1);
    assert_eq!(state.attacks.get("x").unwrap().mode, "transfer");
    assert_eq!(connection_rate_request(&mut state, "tp", "A", "B", 33, 6), Ok(33));
    assert_eq!(state.attacks.get("x").unwrap().send_per_tick, 33);
    assert_eq!(state.saved_at, 6);
    assert_eq!(
        connection_rate_request(&mut state, "tp", "B", "A", 33, 6),
        Err(Refusal::ConnectionMissing)
    );
    assert_eq!(
        connection_rate_request(&mut state, "tq", "A", "B", 33, 6),
        Err(Refusal::ConnectionMissing)
    );
    assert_eq!(
        connection_rate_request(&mut state, "", "A", "B", 33, 6),
        Err(Refusal::InvalidSession)
    );
    connect(&mut state, "y", "p", "A", "B", &connection, 7, 5);
    connect(&mut state, "z", "q", "A", "B", &connection, 7, 5);
    assert_eq!(connection_remove_request(&mut state, "tp", "A", "B", 8), Ok(2));
    assert_eq!(state.attacks.len(), 1);
    assert!(state.attacks.contains_key("z"));
    assert_eq!(
        connection_remove_request(&mut state, "tp", "A", "B", 9),
        Err(Refusal::ConnectionMissing)
    );
    assert_eq!(state.saved_at, 8);
    assert_eq!(
        connection_remove_request(&mut state, "gone", "A", "B", 9),
        Err(Refusal::InvalidSession)
    );
}

#[test]
fn connectable_nodes_are_shown() {
    let state = world();
    let mut repo = town();
    let mut caches = Caches::new();
    let mut ask = |token: &str, from: &str, candidates: Vec<String>| {
        connectable_nodes_request(
            &state, &mut caches, &mut repo, token, from, &candidates, 0, &sum, &flat,
        )
        .map(|list| list.iter().map(|f| f.id.clone()).collect::<Vec<_>>())
    };
    assert_eq!(ask("tq", "B", Vec::new()), Ok(vec!["C".to_string(), "A".to_string()]));
    assert_eq!(
        ask("tq", "B", vec!["A".to_string(), "D".to_string()]),
        Ok(vec!["A".to_string()])
    );
    assert_eq!(ask("", "B", Vec::new()), Err(Refusal::InvalidSession));
    assert_eq!(
        ask("tq", "B", vec!["A".to_string(); 20_001]),
        Err(Refusal::TooManyCandidates)
    );
    assert_eq!(ask("tq", "B", vec!["A".to_string(); 20_000]), Ok(vec!["A".to_string()]));
    assert_eq!(ask("tq", "zzz", Vec::new()), Err(Refusal::InvalidNodes));
    assert_eq!(ask("tq", "A", Vec::new()), Err(Refusal::SourceNotOwned));
}
