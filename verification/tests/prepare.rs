use s2::cellid::CellID;
use s2::latlng::LatLng;
use waronmap::clock;
use waronmap::geometry::{order_key, Coord};
use waronmap::json::Scalar;
use waronmap::loading::{Element, RoadFile};
use waronmap::prepare::{
    build_metadata, build_tile_index, check_prepared, count_cache_files, count_csv_rows,
    count_edges, generated_status, merged_metadata, now_ms, prepared_status, read_intersections,
    sort_by_cell, total_points,
};
use waronmap::repo::RepoNode;
use waronmap::table::Table;

fn degrees(key: i64) -> f64 {
    if key >= 0 {
        f64::from_bits(key as u64)
    } else {
        -f64::from_bits((-key) as u64)
    }
}

fn cell_at(at: Coord) -> u64 {
    CellID::from(LatLng::from_degrees(degrees(at.lat), degrees(at.lon))).0
}

fn number(text: String) -> Option<i64> {
    text.parse::<f64>().ok().filter(|x| x.is_finite()).map(|x| order_key(x.to_bits()))
}

fn lines(n: usize) -> Vec<String> {
    let mut out = vec!["id,latitude,longitude,degree".to_string()];
    let mut seed: u64 = 5;
    for i in 0..n {
        seed = seed.wrapping_mul(6364136223846793005).wrapping_add(1442695040888963407);
        let lat = 43.0 + ((seed >> 20) % 1000) as f64 / 1000.0;
        let lon = -72.0 - ((seed >> 40) % 1000) as f64 / 1000.0;
        out.push(format!("{i},{lat:.7},{lon:.7},{}", i % 5));
    }
    out
}

fn object(fields: &[(&str, &str)]) -> Table<String> {
    let mut out: Table<String> = Table::new();
    for (name, text) in fields {
        out.insert(name.to_string(), text.to_string());
    }
    out
}

fn listed(object: &Table<String>) -> Vec<(String, String)> {
    let mut out: Vec<(String, String)> = (0..object.len())
        .map(|i| (object.key_at(i).clone(), object.value_at(i).clone()))
        .collect();
    out.sort();
    out
}

fn get<'a>(object: &'a Table<String>, name: &str) -> &'a str {
    object.get(name).map(|s| s.as_str()).unwrap_or("missing")
}

#[test]
fn intersections_are_sorted_along_the_curve() {
    let mut rows = lines(200);
    rows.push("bad,x,1,1".to_string());
    rows.push(" ,43.0,-72.0,1".to_string());
    let nodes = read_intersections(&rows, &cell_at, &number);
    assert_eq!(nodes.len(), 200);
    assert_eq!(nodes[3].degree, 3);
    let sorted = sort_by_cell(&nodes);
    let mut want: Vec<(u64, usize)> =
        nodes.iter().enumerate().map(|(i, n)| (n.s2_cell_id, i)).collect();
    want.sort();
    for (node, (cell, i)) in sorted.iter().zip(&want) {
        assert_eq!(node.s2_cell_id, *cell);
        assert_eq!(node.id, nodes[*i].id);
        assert_eq!(*cell, cell_at(node.coord));
    }
}

#[test]
fn the_tile_index_agrees_with_the_grid() {
    let nodes = sort_by_cell(&read_intersections(&lines(200), &cell_at, &number));
    let index = build_tile_index(&nodes);
    let mut next = 0;
    for entry in &index {
        assert_eq!(entry.start_index, next);
        next = entry.end_index + 1;
        let cell = CellID(nodes[entry.start_index].s2_cell_id).parent(12);
        assert_eq!(entry.cell, cell.0);
        assert_eq!(entry.cell_token, cell.to_token());
        assert_eq!(entry.range_min, cell.range_min().to_token());
        assert_eq!(entry.range_max, cell.range_max().to_token());
        for node in &nodes[entry.start_index..=entry.end_index] {
            assert_eq!(CellID(node.s2_cell_id).parent(12), cell);
        }
    }
    assert_eq!(next, 200);
    assert!(index.len() > 10);
    assert!(index.windows(2).all(|w| w[0].cell < w[1].cell));
    assert!(build_tile_index(&Vec::new()).is_empty());
}

#[test]
fn unsorted_nodes_are_indexed_by_first_and_last() {
    let here = Coord { lat: order_key(43.5f64.to_bits()), lon: order_key((-72.5f64).to_bits()) };
    let there = Coord { lat: order_key(10.0f64.to_bits()), lon: order_key(10.0f64.to_bits()) };
    let node = |id: &str, at: Coord| RepoNode {
        id: id.to_string(),
        coord: at,
        degree: 1,
        s2_cell_id: cell_at(at),
    };
    let index = build_tile_index(&vec![node("a", here), node("b", there), node("c", here)]);
    assert_eq!(index.len(), 2);
    let (low, high) = (&index[0], &index[1]);
    assert_eq!((low.start_index, low.end_index), (1, 1));
    assert_eq!((high.start_index, high.end_index), (0, 2));
}

fn way(kind: &str, points: usize) -> Element {
    Element {
        kind: kind.to_string(),
        id: None,
        at: None,
        nodes: (0..points).map(|i| Scalar::Number(i.to_string())).collect(),
    }
}

#[test]
fn roads_rows_and_files_are_counted() {
    let files = vec![
        RoadFile { elements: vec![way("way", 4), way("node", 9), way("way", 0)] },
        RoadFile { elements: vec![way("way", 1), way("way", 2)] },
    ];
    assert_eq!(count_edges(&files), 4);
    assert_eq!(count_edges(&Vec::new()), 0);
    let names: Vec<String> =
        ["a.json", "b.geojson", "json", ".json", "c.json"].iter().map(|s| s.to_string()).collect();
    assert_eq!(count_cache_files(&names), 2);
    assert_eq!(count_csv_rows(0), 0);
    assert_eq!(count_csv_rows(1), 0);
    assert_eq!(count_csv_rows(8), 7);
    assert_eq!(total_points(Some(3), Some(9)), 3);
    assert_eq!(total_points(None, Some(9)), 9);
    assert_eq!(total_points(None, None), 0);
}

#[test]
fn metadata_tells_of_the_region() {
    let region = object(&[("id", "\"nne\""), ("states", "[\"maine\"]"), ("other", "1")]);
    let metadata = build_metadata(&region, 12, 3, 7);
    assert_eq!(
        listed(&metadata),
        listed(&object(&[
            ("format", "\"intersection_cache_v2\""),
            ("total_points", "12"),
            ("region_id", "\"nne\""),
            ("region_name", "\"Unknown Region\""),
            ("states", "[\"maine\"]"),
            ("query_tiles", "1"),
            ("intersections_csv", "\"intersections.csv\""),
            ("indexing_method", "\"s2_hilbert\""),
            ("s2_index_level", "12"),
            ("s2_cell_count", "3"),
            ("edge_count", "7"),
        ]))
    );
    let merged = merged_metadata(
        &object(&[("format", "\"v1\""), ("batch_step_deg", "0.2"), ("query_tiles", "99")]),
        &object(&[]),
        5,
        6,
    );
    assert_eq!(
        listed(&merged),
        listed(&object(&[
            ("format", "\"v1\""),
            ("batch_step_deg", "0.2"),
            ("total_points", "5"),
            ("region_id", "\"unknown_region\""),
            ("region_name", "\"Unknown Region\""),
            ("states", "[]"),
            ("query_tiles", "6"),
            ("intersections_csv", "\"intersections.csv\""),
        ]))
    );
    assert_eq!(get(&merged_metadata(&object(&[]), &region, 0, 0), "format"), "\"intersection_cache_v2\"");
}

#[test]
fn progress_is_reported() {
    let region = object(&[("name", "\"North\"")]);
    let status = generated_status(&region, 12, 2, 34);
    assert_eq!(get(&status, "phase"), "\"complete\"");
    assert_eq!(get(&status, "region_id"), "\"unknown\"");
    assert_eq!(get(&status, "region_name"), "\"North\"");
    assert_eq!(get(&status, "cached_tiles"), "2");
    assert_eq!(get(&status, "edge_count"), "34");
    assert_eq!(get(&status, "progress_nodes_total"), "12");
    assert_eq!(
        get(&status, "message"),
        "\"Re-sorted 12 intersections using S2 Hilbert curve.\""
    );
    assert_eq!(status.len(), 15);

    let metadata = object(&[("region_id", "\"r\"")]);
    let nothing = object(&[]);
    let plain = prepared_status(&metadata, &nothing, &nothing, 9, 1, None);
    assert_eq!(get(&plain, "region_id"), "\"r\"");
    assert_eq!(get(&plain, "edge_count"), "0");
    assert_eq!(get(&plain, "indexing_method"), "\"web_mercator_tile_grid\"");
    assert_eq!(get(&plain, "message"), "\"Prepared node dataset cached with 9 nodes.\"");
    assert_eq!(get(&plain, "s2_index_level"), "missing");
    let before = object(&[("indexing_method", "\"s2_hilbert\""), ("s2_index_level", "12")]);
    let sorted = prepared_status(&metadata, &nothing, &before, 9, 1, Some(4));
    assert_eq!(
        get(&sorted, "message"),
        "\"Prepared S2/Hilbert-sorted node dataset with 9 nodes.\""
    );
    assert_eq!(get(&sorted, "s2_index_level"), "12");
    assert_eq!(get(&sorted, "edge_count"), "4");
    let odd = object(&[("indexing_method", "7")]);
    let status = prepared_status(&metadata, &odd, &before, 9, 1, Some(4));
    assert_eq!(get(&status, "indexing_method"), "missing");
    assert_eq!(get(&status, "message"), "\"Prepared node dataset cached with 9 nodes.\"");
}

#[test]
fn something_has_to_be_there() {
    assert_eq!(check_prepared(false, true, false, "/data"), Ok(()));
    assert_eq!(
        check_prepared(false, false, false, "/data").err().unwrap(),
        "Prepared region data missing in /data. This Rust-only runtime expects cached prepared data there."
    );
}

#[test]
fn the_clock_shows_this_century() {
    let a = clock::now_ms();
    let b = now_ms();
    assert!(a > 1_600_000_000_000);
    assert!(b >= a as u128 && b - (a as u128) < 60_000);
    assert!(clock::since_epoch_ms().is_some());
    let start = std::time::UNIX_EPOCH;
    let later = start + std::time::Duration::from_micros(1_500_900);
    assert_eq!(clock::millis_of(later.duration_since(start)), Some(1500));
    assert_eq!(clock::millis_of(start.duration_since(later)), None);
    assert_eq!(clock::read_clock(Some(5)), 5);
    assert_eq!(clock::read_clock(None), 0);
    assert_eq!(clock::read_clock(Some(1u128 << 64)), 0);
}
