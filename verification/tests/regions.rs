use s2::cellid::CellID;
use s2::latlng::LatLng;
use waronmap::boundary::{
    assemble_features, boundary_signature, fallback_boundary_features, is_recent,
    point_in_geometry, point_in_ring, point_inside_active_region, refresh_boundary, ring_from_value,
    select_states, state_names, update_bbox_from_coordinates, BoundaryRepo, Feature, Overview,
    QueryBound, Region,
};
use waronmap::components::label_components;
use waronmap::errors::Refusal;
use waronmap::geometry::{order_key, rank, Bounds, Coord, MINUS_ZERO};
use waronmap::json::{pair_from_value, value_to_string, Coordinates, Scalar};
use waronmap::loading::{read_intersection, Element, PreviewNode, RoadFile};
use waronmap::refresh::{
    cache_item, cache_signature, clear_repo, keep_if_unchanged, rebuild_node_repo, NodeSource,
};
use waronmap::repo::NodeRepo;
use waronmap::table::Table;

fn key(x: f64) -> i64 {
    order_key(x.to_bits())
}

fn place(lat: f64, lon: f64) -> Coord {
    Coord { lat: key(lat), lon: key(lon) }
}

fn degrees(key: i64) -> f64 {
    if key >= 0 {
        f64::from_bits(key as u64)
    } else {
        -f64::from_bits((-key) as u64)
    }
}

fn flat(a: Coord, b: Coord) -> u64 {
    (degrees(a.lat) - degrees(b.lat)).hypot(degrees(a.lon) - degrees(b.lon)).to_bits()
}

/// Whether a point lies west of where an edge crosses its parallel.
fn east(at: Coord, a: Coord, b: Coord) -> bool {
    let (xi, yi) = (degrees(a.lon), degrees(a.lat));
    let (xj, yj) = (degrees(b.lon), degrees(b.lat));
    degrees(at.lon) < xi + (degrees(at.lat) - yi) * (xj - xi) / (yj - yi)
}

fn cell_at(at: Coord) -> u64 {
    CellID::from(LatLng::from_degrees(degrees(at.lat), degrees(at.lon))).0
}

fn number(text: String) -> Option<i64> {
    text.parse::<f64>().ok().filter(|x| x.is_finite()).map(key)
}

fn pair(lon: f64, lat: f64) -> Coordinates {
    Coordinates::List(vec![Coordinates::Number(key(lon)), Coordinates::Number(key(lat))])
}

fn square(west: f64, south: f64, east: f64, north: f64) -> Coordinates {
    Coordinates::List(vec![
        pair(west, south),
        pair(east, south),
        pair(east, north),
        pair(west, north),
        pair(west, south),
    ])
}

fn bounds(west: f64, south: f64, east: f64, north: f64) -> Bounds {
    Bounds { west: key(west), east: key(east), south: key(south), north: key(north) }
}

fn text(t: &str) -> Option<Scalar> {
    Some(Scalar::Text(t.to_string()))
}

#[test]
fn keys_order_as_the_numbers_do() {
    let numbers = [-1e300, -72.5, -1.0, -1e-300, 0.0, 1e-300, 0.5, 44.25, 1e300];
    for a in numbers {
        for b in numbers {
            assert_eq!(key(a) < key(b), a < b);
        }
        assert_eq!(degrees(key(a)), a);
    }
    // Minus zero keeps its sign, and lies where zero lies.
    assert_eq!(key(-0.0), MINUS_ZERO);
    assert_ne!(key(-0.0), key(0.0));
    assert_eq!((rank(key(-0.0)), rank(key(0.0)), rank(key(-1.5))), (0, 0, key(-1.5)));
    let equator = Bounds { west: key(0.0), east: key(1.0), south: key(-0.0), north: key(0.0) };
    assert!(equator.contains(Coord { lat: key(0.0), lon: key(-0.0) }));
    assert!(equator.contains(Coord { lat: key(-0.0), lon: key(1.0) }));
    assert!(!equator.contains(Coord { lat: key(-5e-324), lon: key(0.0) }));
}

#[test]
fn boxes_grow_around_points() {
    assert_eq!(update_bbox_from_coordinates(&Coordinates::Other, None), None);
    let shape = Coordinates::List(vec![square(-2.0, 1.0, 3.0, 4.0), Coordinates::Other]);
    let hull = update_bbox_from_coordinates(&shape, None);
    assert_eq!(hull, Some(bounds(-2.0, 1.0, 3.0, 4.0)));
    assert_eq!(
        update_bbox_from_coordinates(&pair(9.0, -5.0), hull),
        Some(bounds(-2.0, -5.0, 9.0, 4.0))
    );
    assert!(hull.unwrap().contains(place(1.0, -2.0)));
    assert!(!hull.unwrap().contains(place(0.9, -2.0)));
}

#[test]
fn values_are_read_loosely() {
    assert_eq!(pair_from_value(&pair(1.0, 2.0)), Some(place(2.0, 1.0)));
    assert_eq!(pair_from_value(&Coordinates::Number(3)), None);
    assert_eq!(pair_from_value(&Coordinates::List(vec![Coordinates::Number(3)])), None);
    assert_eq!(value_to_string(&Scalar::Number("17".to_string())).as_deref(), Some("17"));
    assert_eq!(value_to_string(&Scalar::Other), None);
    let ring = Coordinates::List(vec![pair(1.0, 2.0), Coordinates::Other, pair(3.0, 4.0)]);
    assert_eq!(ring_from_value(&ring), vec![place(2.0, 1.0), place(4.0, 3.0)]);
    assert_eq!(ring_from_value(&Coordinates::Other), Vec::<Coord>::new());
}

#[test]
fn points_lie_in_polygons_but_not_in_holes() {
    let ring = ring_from_value(&square(0.0, 0.0, 10.0, 10.0));
    assert!(point_in_ring(place(5.0, 5.0), &ring, &east));
    assert!(!point_in_ring(place(5.0, 11.0), &ring, &east));
    assert!(!point_in_ring(place(5.0, 5.0), &Vec::new(), &east));
    let holed = Coordinates::List(vec![
        square(0.0, 0.0, 10.0, 10.0),
        square(4.0, 4.0, 6.0, 6.0),
    ]);
    assert!(point_in_geometry(place(1.0, 1.0), "Polygon", &holed, &east));
    assert!(!point_in_geometry(place(5.0, 5.0), "Polygon", &holed, &east));
    assert!(!point_in_geometry(place(1.0, 1.0), "Point", &holed, &east));
    let both = Coordinates::List(vec![
        holed,
        Coordinates::List(vec![square(20.0, 0.0, 30.0, 10.0)]),
    ]);
    assert!(point_in_geometry(place(5.0, 25.0), "MultiPolygon", &both, &east));
    assert!(point_in_geometry(place(1.0, 9.0), "MultiPolygon", &both, &east));
    assert!(!point_in_geometry(place(5.0, 5.0), "MultiPolygon", &both, &east));
    assert!(!point_in_geometry(place(5.0, 15.0), "MultiPolygon", &both, &east));
}

fn region(states: Vec<Option<String>>, query: bool) -> Region {
    let mut query_bounds = Vec::new();
    if query {
        query_bounds.push(QueryBound {
            west: Some(key(50.0)),
            south: Some(key(0.0)),
            east: Some(key(60.0)),
            north: Some(key(10.0)),
            id: None,
            name: None,
        });
        query_bounds.push(QueryBound {
            west: None,
            south: Some(key(0.0)),
            east: Some(key(60.0)),
            north: Some(key(10.0)),
            id: text("broken"),
            name: None,
        });
    }
    Region {
        states,
        overview_features: vec![
            Overview {
                name: None,
                id: Some(Scalar::Number("7".to_string())),
                coordinates: Some(Coordinates::List(vec![square(0.0, 0.0, 1.0, 1.0)])),
            },
            Overview { name: text("no shape"), id: None, coordinates: None },
            Overview {
                name: Some(Scalar::Other),
                id: text("ignored"),
                coordinates: Some(Coordinates::List(vec![square(2.0, 0.0, 3.0, 1.0)])),
            },
        ],
        query_bounds,
    }
}

fn shape(name: Option<&str>, west: f64) -> Feature {
    Feature {
        name: name.map(|n| n.to_string()),
        geometry_type: "Polygon".to_string(),
        coordinates: Coordinates::List(vec![square(west, 0.0, west + 5.0, 5.0)]),
    }
}

#[test]
fn states_are_chosen_by_name() {
    let states = vec![Some(" Vermont ".to_string()), None, Some("MAINE".to_string())];
    let names = state_names(&states);
    assert_eq!(names, vec!["maine", "vermont"]);
    assert_eq!(boundary_signature(5, -1, &names), "5|-1|maine|vermont");
    let shapes = vec![shape(Some("Maine "), 10.0), shape(Some("Ohio"), 20.0), shape(None, 30.0)];
    let chosen = select_states(shapes, &names);
    assert_eq!(chosen.len(), 1);
    assert_eq!(chosen[0].name.as_deref(), Some("Maine "));
}

#[test]
fn a_region_without_states_falls_back() {
    let fallback = fallback_boundary_features(region(Vec::new(), false).overview_features);
    let names: Vec<&str> = fallback.iter().map(|f| f.name.as_deref().unwrap()).collect();
    assert_eq!(names, vec!["7", "region"]);
    let all = assemble_features(region(Vec::new(), true), vec![shape(Some("Ohio"), 20.0)], &Vec::new());
    let names: Vec<&str> = all.iter().map(|f| f.name.as_deref().unwrap()).collect();
    assert_eq!(names, vec!["7", "region", "query_bound"]);
}

#[test]
fn a_boundary_is_refreshed_when_it_changed() {
    let mut boundary = BoundaryRepo::new();
    let names = vec!["maine".to_string()];
    refresh_boundary(
        &mut boundary, region(Vec::new(), true), vec![shape(Some("Maine"), 10.0)], &names,
        "one".to_string(), 100, false,
    );
    assert_eq!(boundary.features.len(), 2);
    assert_eq!(boundary.overall_bbox, Some(bounds(10.0, 0.0, 60.0, 10.0)));
    assert_eq!(boundary.refreshed_at, 100);
    assert!(point_inside_active_region(&boundary, place(1.0, 11.0), &east));
    assert!(point_inside_active_region(&boundary, place(9.0, 55.0), &east));
    assert!(!point_inside_active_region(&boundary, place(9.0, 11.0), &east));
    refresh_boundary(
        &mut boundary, region(Vec::new(), false), Vec::new(), &names, "one".to_string(), 200, false,
    );
    assert_eq!(boundary.features.len(), 2);
    assert_eq!(boundary.refreshed_at, 200);
    refresh_boundary(
        &mut boundary, region(Vec::new(), false), Vec::new(), &names, "one".to_string(), 300, true,
    );
    assert_eq!(boundary.overall_bbox, Some(bounds(0.0, 0.0, 3.0, 1.0)));
    let mut none = region(Vec::new(), false);
    none.overview_features = Vec::new();
    refresh_boundary(&mut boundary, none, Vec::new(), &names, "two".to_string(), 400, false);
    assert_eq!(boundary.overall_bbox, None);
    assert_eq!(boundary.signature, "two");
}

#[test]
fn files_are_looked_at_every_ten_seconds() {
    assert!(is_recent(1000, 10_999, false));
    assert!(!is_recent(1000, 11_000, false));
    assert!(!is_recent(1000, 1001, true));
}

#[test]
fn rows_of_intersections_are_read() {
    let row = read_intersection(" 12 , 44.5 ,-72.25, 3 ,more", &number);
    assert_eq!(row.id, "12");
    assert_eq!(row.at, Some(place(44.5, -72.25)));
    assert_eq!(row.degree, 3);
    let row = read_intersection("12,44.5,x", &number);
    assert_eq!(row.at, None);
    assert_eq!(row.degree, 0);
    let row = read_intersection("12,NaN,1", &number);
    assert_eq!(row.at, None);
    assert_eq!(read_intersection("", &number).id, "");
}

fn everywhere() -> BoundaryRepo {
    let mut boundary = BoundaryRepo::new();
    let mut area = region(Vec::new(), false);
    area.overview_features = vec![Overview {
        name: text("all"),
        id: None,
        coordinates: Some(Coordinates::List(vec![square(0.0, 0.0, 50.0, 50.0)])),
    }];
    refresh_boundary(&mut boundary, area, Vec::new(), &Vec::new(), "all".to_string(), 1, true);
    boundary
}

fn point(id: &str, lat: f64, lon: f64) -> Element {
    Element {
        kind: "node".to_string(),
        id: Some(Scalar::Number(id.to_string())),
        at: Some(place(lat, lon)),
        nodes: Vec::new(),
    }
}

fn way(ids: &[&str]) -> Element {
    Element {
        kind: "way".to_string(),
        id: None,
        at: None,
        nodes: ids.iter().map(|i| Scalar::Number(i.to_string())).collect(),
    }
}

#[test]
fn a_road_map_is_made_from_files() {
    let boundary = everywhere();
    let mut repo = NodeRepo::new();
    let lines: Vec<String> = [
        "id,latitude,longitude,degree",
        "1,10.0,10.0,3",
        "2,10.0,12.0,4",
        "3,60.0,10.0,1",
        ",10.0,10.0,1",
        "4,20.0,20.0",
    ]
    .iter()
    .map(|l| l.to_string())
    .collect();
    let files = vec![RoadFile {
        elements: vec![
            way(&["1", "9", "2", "8", "7"]),
            point("9", 10.0, 11.0),
            point("8", 70.0, 11.0),
            way(&["4"]),
        ],
    }];
    let mut names: Table<String> = Table::new();
    names.insert("1".to_string(), "Corner".to_string());
    let made = rebuild_node_repo(
        &mut repo, &boundary, &NodeSource::Csv(lines), &files, names, 77, "sig".to_string(), 500,
        &east, &cell_at, &number, &flat,
    );
    assert_eq!(made, Ok(()));
    assert_eq!(repo.nodes_by_id.len(), 3);
    assert_eq!(repo.nodes_by_id.get("2").unwrap().degree, 4);
    assert_eq!(repo.nodes_by_id.get("4").unwrap().degree, 0);
    assert_eq!(repo.nodes_by_id.get("1").unwrap().s2_cell_id, cell_at(place(10.0, 10.0)));
    assert_eq!(repo.coords_by_id.len(), 4);
    let edges = &repo.adjacency.get("9").unwrap().edges;
    assert_eq!(edges.len(), 2);
    assert_eq!(edges[0].to, "1");
    assert_eq!(edges[0].weight, 1.0f64.to_bits());
    assert!(repo.adjacency.get("8").is_none());
    assert_eq!(repo.graph_version, 1);
    assert_eq!(repo.refreshed_at, 500);
    let one = repo.connected_components.get("1").copied();
    assert_eq!(repo.connected_components.get("2").copied(), one);
    assert_ne!(repo.connected_components.get("4").copied(), one);
    assert!(repo.connected_components.get("9").is_none());
    assert_eq!(repo.s2_sorted_nodes.len(), 3);
    assert!(repo.s2_sorted_nodes.windows(2).all(|w| w[0] <= w[1]));
    assert_eq!(repo.display_names.get("1").map(|s| s.as_str()), Some("Corner"));

    assert!(!keep_if_unchanged(&mut repo, 78, "sig", &boundary, 600, false));
    assert!(!keep_if_unchanged(&mut repo, 77, "sig", &boundary, 600, true));
    assert!(keep_if_unchanged(&mut repo, 77, "sig", &boundary, 600, false));
    assert_eq!(repo.refreshed_at, 600);

    let missing = rebuild_node_repo(
        &mut repo, &boundary, &NodeSource::Missing, &files, Table::new(), 77, "sig".to_string(),
        700, &east, &cell_at, &number, &flat,
    );
    assert_eq!(missing, Err(Refusal::NoNodeSource));
    assert_eq!(repo.nodes_by_id.len(), 0);
    assert_eq!(repo.graph_version, 1);
    assert_eq!(repo.s2_index_level, 12);
}

#[test]
fn previews_take_the_place_of_rows() {
    let boundary = everywhere();
    let mut repo = NodeRepo::new();
    let entries = vec![
        PreviewNode { id: Some(Scalar::Number("5".to_string())), coordinates: pair(3.0, 4.0), degree: 2 },
        PreviewNode { id: None, coordinates: pair(3.0, 4.0), degree: 2 },
        PreviewNode { id: text("far"), coordinates: pair(3.0, 80.0), degree: 2 },
        PreviewNode { id: text("shapeless"), coordinates: Coordinates::Other, degree: 2 },
    ];
    let made = rebuild_node_repo(
        &mut repo, &boundary, &NodeSource::Preview(entries), &Vec::new(), Table::new(), 1,
        String::new(), 2, &east, &cell_at, &number, &flat,
    );
    assert_eq!(made, Ok(()));
    assert_eq!(repo.nodes_by_id.len(), 1);
    assert_eq!(repo.nodes_by_id.get("5").unwrap().coord, place(4.0, 3.0));
    label_components(&mut repo);
    assert_eq!(repo.connected_components.get("5"), Some(&1));
    clear_repo(&mut repo);
    assert_eq!(repo.coords_by_id.len(), 0);
}

#[test]
fn road_files_are_told_apart() {
    let a = cache_item("b.json", 12, 1700000000000);
    assert_eq!(a, "b.json:12:1700000000000");
    let b = cache_item("a.json", 5, 0);
    assert_eq!(cache_signature(&vec![a, b]), "a.json:5:0|b.json:12:1700000000000");
    assert_eq!(cache_signature(&Vec::new()), "");
}
