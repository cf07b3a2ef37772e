use s2::cell::Cell;
use s2::cellid::CellID;
use s2::latlng::LatLng;
use s2::rect::Rect;
use waronmap::cells::{build_s2_index, cell_ranges, sort_entries};
use waronmap::errors::Refusal;
use waronmap::geometry::{order_key, Bounds, Coord};
use waronmap::repo::{NodeRepo, RepoNode};
use waronmap::tiles::{node_ids_for_tile, s2_cover_for_bounds};

fn key(x: f64) -> i64 {
    order_key(x.to_bits())
}

fn degrees(key: i64) -> f64 {
    if key >= 0 {
        f64::from_bits(key as u64)
    } else {
        -f64::from_bits((-key) as u64)
    }
}

fn cell_of(lat: f64, lon: f64) -> u64 {
    CellID::from(LatLng::from_degrees(lat, lon)).0
}

fn lon_of(x: i64, zoom: i64) -> f64 {
    (x as f64 / 2f64.powi(zoom as i32)) * 360.0 - 180.0
}

fn lat_of(y: i64, zoom: i64) -> f64 {
    let n = std::f64::consts::PI
        - (2.0 * std::f64::consts::PI * y as f64) / 2f64.powi(zoom as i32);
    (0.5 * (n.exp() - (-n).exp())).atan().to_degrees()
}

fn tile_bounds(z: i64, x: i64, y: i64) -> Bounds {
    Bounds {
        west: key(lon_of(x, z)),
        east: key(lon_of(x + 1, z)),
        north: key(lat_of(y, z)),
        south: key(lat_of(y + 1, z)),
    }
}

fn meets(bounds: Bounds, cell: u64) -> bool {
    let rect = Rect::from_degrees(
        degrees(bounds.south),
        degrees(bounds.west),
        degrees(bounds.north),
        degrees(bounds.east),
    );
    Cell::from(CellID(cell)).rect_bound().intersects(&rect)
}

fn scattered(n: usize) -> (NodeRepo, Vec<(String, f64, f64)>) {
    let mut repo = NodeRepo::new();
    repo.graph_version = 2;
    repo.s2_index_level = 12;
    let mut nodes = Vec::new();
    let mut seed: u64 = 11;
    for i in 0..n {
        seed = seed.wrapping_mul(6364136223846793005).wrapping_add(1442695040888963407);
        let lat = 43.0 + ((seed >> 20) % 100_000) as f64 / 50_000.0;
        seed = seed.wrapping_mul(6364136223846793005).wrapping_add(1442695040888963407);
        let lon = -73.0 + ((seed >> 20) % 100_000) as f64 / 50_000.0;
        let id = format!("n{i}");
        let coord = Coord { lat: key(lat), lon: key(lon) };
        repo.nodes_by_id.insert(
            id.clone(),
            RepoNode { id: id.clone(), coord, degree: 1, s2_cell_id: cell_of(lat, lon) },
        );
        nodes.push((id, lat, lon));
    }
    build_s2_index(&mut repo);
    (repo, nodes)
}

#[test]
fn the_cover_is_that_of_the_grid() {
    let area = tile_bounds(9, 153, 187);
    for level in [0u64, 3, 7, 9] {
        let got = s2_cover_for_bounds(area, level, &meets);
        let mut want: Vec<u64> = Vec::new();
        let mut open: Vec<CellID> = (0..6).rev().map(CellID::from_face).collect();
        while let Some(cell) = open.pop() {
            if !meets(area, cell.0) {
                continue;
            }
            if cell.level() == level {
                want.push(cell.0);
            } else {
                open.extend(cell.children().iter().rev());
            }
        }
        assert_eq!(got, want);
        assert!(!got.is_empty());
    }
}

#[test]
fn the_index_finds_the_nodes_of_a_cell() {
    let (repo, nodes) = scattered(300);
    assert_eq!(repo.s2_sorted_nodes.len(), 300);
    assert!(repo.s2_sorted_nodes.windows(2).all(|w| w[0] <= w[1]));
    for (id, lat, lon) in &nodes {
        let parent = CellID(cell_of(*lat, *lon)).parent(12).0;
        let (first, last) = repo.s2_cell_ranges[&parent];
        assert!(repo.s2_sorted_nodes[first..=last].iter().any(|e| &e.1 == id));
        for entry in &repo.s2_sorted_nodes[first..=last] {
            assert_eq!(CellID(entry.0).parent(12).0, parent);
        }
    }
    let list = vec![(5u64, "b".to_string()), (5, "a".to_string()), (1, "z".to_string())];
    let sorted = sort_entries(&list);
    assert_eq!(sorted[0].1, "z");
    assert_eq!(sorted[1].1, "a");
    let leaf = CellID(cell_of(44.0, -72.0));
    let one = cell_ranges(&vec![(leaf.0, "x".to_string())], 30);
    assert_eq!(one[&leaf.0], (0, 0));
}

#[test]
fn a_tile_shows_exactly_its_nodes() {
    let (mut repo, nodes) = scattered(400);
    let region = Some(Bounds {
        west: key(-73.0),
        east: key(-71.0),
        south: key(43.0),
        north: key(45.0),
    });
    let mut seen = 0;
    for (z, x, y) in [(8, 76, 92), (8, 76, 93), (8, 77, 93), (0, 0, 0), (9, 153, 187), (22, 0, 0)] {
        let got = node_ids_for_tile(&mut repo, region, z, x, y, &tile_bounds, &meets)
            .ok()
            .unwrap();
        let area = tile_bounds(z, x, y);
        let mut want: Vec<String> = nodes
            .iter()
            .filter(|(_, lat, lon)| {
                *lon >= degrees(area.west)
                    && *lon < degrees(area.east)
                    && *lat >= degrees(area.south)
                    && *lat <= degrees(area.north)
            })
            .map(|n| n.0.clone())
            .collect();
        let mut sorted = got.clone();
        sorted.sort();
        want.sort();
        assert_eq!(sorted, want, "{z} {x} {y}");
        seen += got.len();
        let again = node_ids_for_tile(&mut repo, region, z, x, y, &tile_bounds, &meets);
        assert_eq!(again.ok().unwrap(), got);
    }
    assert!(seen > 400);
    assert!(repo.tile_node_id_cache.contains_key("2:0:0:0"));
    // A zoom out of bounds is brought into them.
    let far = node_ids_for_tile(&mut repo, None, -3, 0, 0, &tile_bounds, &meets).ok().unwrap();
    assert_eq!(far.len(), 400);
}

#[test]
fn tiles_off_the_map_are_refused() {
    let (mut repo, _) = scattered(5);
    for (z, x, y) in [(3, 8, 0), (3, 0, 8), (3, -1, 0), (3, 0, -1), (0, 1, 0)] {
        let r = node_ids_for_tile(&mut repo, None, z, x, y, &tile_bounds, &meets);
        assert_eq!(r.err().unwrap().message(), Refusal::InvalidTile.message());
    }
    assert!(node_ids_for_tile(&mut repo, None, 99, 4_194_303, 0, &tile_bounds, &meets).is_ok());
}

#[test]
fn a_broken_index_is_reported() {
    let (mut repo, _) = scattered(1);
    repo.nodes_by_id.remove("n0");
    let region = Some(Bounds {
        west: key(-73.0),
        east: key(-71.0),
        south: key(43.0),
        north: key(45.0),
    });
    let r = node_ids_for_tile(&mut repo, region, 0, 0, 0, &tile_bounds, &meets);
    assert_eq!(r.err().unwrap().message(), "S2 index references missing node n0");
}
