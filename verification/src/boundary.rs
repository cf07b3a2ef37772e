//! The region that is played on.
use vstd::prelude::*;
use vstd::string::StringExecFns;

use crate::geometry::{rank, rank_of, within, Bounds, Coord};
use crate::json::{pair_from_value, pair_of, points_of, points_of_all, scalar_text, value_to_string, Coordinates, Scalar};
use crate::sorting::{sort_texts, sorted_texts};
use crate::state::{text_in, texts};
use crate::text::{join, joined, lowercase, lowered, same_text, signed_decimal, signed_digits, trim, trimmed};

verus! {

/// How long a region or a road map is taken to be up to date, in milliseconds.
pub const REPO_REFRESH_MS: i64 = 10_000;

/// The box around `bounds` and a point.
pub open spec fn grown(bounds: Option<Bounds>, at: Coord) -> Option<Bounds> {
    match bounds {
        None => Some(Bounds { west: at.lon, east: at.lon, south: at.lat, north: at.lat }),
        Some(b) => Some(
            Bounds {
                west: if rank_of(at.lon) < rank_of(b.west) {
                    at.lon
                } else {
                    b.west
                },
                east: if rank_of(at.lon) > rank_of(b.east) {
                    at.lon
                } else {
                    b.east
                },
                south: if rank_of(at.lat) < rank_of(b.south) {
                    at.lat
                } else {
                    b.south
                },
                north: if rank_of(at.lat) > rank_of(b.north) {
                    at.lat
                } else {
                    b.north
                },
            },
        ),
    }
}

/// The box around `bounds` and points.
pub open spec fn hull(bounds: Option<Bounds>, points: Seq<Coord>) -> Option<Bounds>
    decreases points.len(),
{
    if points.len() == 0 {
        bounds
    } else {
        grown(hull(bounds, points.drop_last()), points.last())
    }
}

/// The box around points holds each of them, and there is one unless there is no
/// point.
pub proof fn law_hull_holds_points(points: Seq<Coord>, i: int)
    requires
        0 <= i < points.len(),
    ensures
        hull(None, points) is Some,
        within(hull(None, points)->0, points[i]),
    decreases points.len(),
{
    if i < points.len() - 1 {
        law_hull_holds_points(points.drop_last(), i);
    }
}

proof fn lemma_hull_adds(bounds: Option<Bounds>, a: Seq<Coord>, b: Seq<Coord>)
    ensures
        hull(bounds, a + b) == hull(hull(bounds, a), b),
    decreases b.len(),
{
    if b.len() == 0 {
        assert(a + b =~= a);
    } else {
        assert((a + b).drop_last() =~= a + b.drop_last());
        lemma_hull_adds(bounds, a, b.drop_last());
    }
}

fn grow(bounds: &Option<Bounds>, at: Coord) -> (r: Option<Bounds>)
    ensures
        r == grown(*bounds, at),
{
    match bounds {
        None => Some(Bounds { west: at.lon, east: at.lon, south: at.lat, north: at.lat }),
        Some(b) => Some(
            Bounds {
                west: if rank(at.lon) < rank(b.west) {
                    at.lon
                } else {
                    b.west
                },
                east: if rank(at.lon) > rank(b.east) {
                    at.lon
                } else {
                    b.east
                },
                south: if rank(at.lat) < rank(b.south) {
                    at.lat
                } else {
                    b.south
                },
                north: if rank(at.lat) > rank(b.north) {
                    at.lat
                } else {
                    b.north
                },
            },
        ),
    }
}

/// The box around `bounds` and all points of a shape.
pub fn update_bbox_from_coordinates(value: &Coordinates, bounds: Option<Bounds>) -> (r: Option<
    Bounds,
>)
    ensures
        r == hull(bounds, points_of(*value)),
    decreases *value,
{
    if let Some(point) = pair_from_value(value) {
        proof {
            reveal_with_fuel(hull, 2);
            assert(points_of(*value).drop_last() =~= Seq::<Coord>::empty());
        }
        return grow(&bounds, point);
    }
    match value {
        Coordinates::List(items) => update_bbox_from_list(items, bounds),
        _ => bounds,
    }
}

/// The box around `bounds` and all points of the shapes of a list.
fn update_bbox_from_list(items: &Vec<Coordinates>, bounds: Option<Bounds>) -> (r: Option<Bounds>)
    ensures
        r == hull(bounds, points_of_all(items@, items@.len() as int)),
    decreases items@,
{
    let mut out: Option<Bounds> = bounds;
    let mut i: usize = 0;
    while i < items.len()
        invariant
            i <= items.len(),
            out == hull(bounds, points_of_all(items@, i as int)),
        decreases items.len() - i,
    {
        proof {
            lemma_hull_adds(bounds, points_of_all(items@, i as int), points_of(items@[i as int]));
        }
        out = update_bbox_from_coordinates(&items[i], out);
        i += 1;
    }
    out
}

/// What `c` answers of a point and an edge.
pub open spec fn crossing_of<C: Fn(Coord, Coord, Coord) -> bool>(
    c: C,
    at: Coord,
    a: Coord,
    b: Coord,
) -> bool {
    choose|r: bool| call_ensures(c, (at, a, b), r)
}

/// `c` is total, and answers the same on the same point and edge.
pub open spec fn tells_crossing<C: Fn(Coord, Coord, Coord) -> bool>(c: C) -> bool {
    &&& forall|at: Coord, a: Coord, b: Coord| call_requires(c, (at, a, b))
    &&& forall|at: Coord, a: Coord, b: Coord, r: bool| #[trigger]
        call_ensures(c, (at, a, b), r) ==> r == crossing_of(c, at, a, b)
}

/// Of a point and an edge that passes its latitude: the edge is to the east.
pub open spec fn crossing<C: Fn(Coord, Coord, Coord) -> bool>(c: C) -> spec_fn(
    Coord,
    Coord,
    Coord,
) -> bool {
    |at: Coord, a: Coord, b: Coord| crossing_of(c, at, a, b)
}

/// A line to the east from `at` crosses the edge between `a` and `b`.
pub open spec fn crosses_edge(
    at: Coord,
    a: Coord,
    b: Coord,
    east: spec_fn(Coord, Coord, Coord) -> bool,
) -> bool {
    (rank_of(a.lat) > rank_of(at.lat)) != (rank_of(b.lat) > rank_of(at.lat)) && east(at, a, b)
}

/// Point `i` of a ring is joined to the one before it, the first to the last.
pub open spec fn before_in_ring(ring: Seq<Coord>, i: int) -> Coord {
    if i == 0 {
        ring.last()
    } else {
        ring[i - 1]
    }
}

/// How many of the first `n` edges of a ring a line to the east crosses.
pub open spec fn crossings(
    ring: Seq<Coord>,
    at: Coord,
    n: int,
    east: spec_fn(Coord, Coord, Coord) -> bool,
) -> nat
    decreases n,
{
    if n <= 0 {
        0
    } else {
        crossings(ring, at, n - 1, east) + (if crosses_edge(
            at,
            ring[n - 1],
            before_in_ring(ring, n - 1),
            east,
        ) {
            1nat
        } else {
            0nat
        })
    }
}

/// A point is inside a ring if a line to the east crosses it an odd number of times.
pub open spec fn in_ring(
    at: Coord,
    ring: Seq<Coord>,
    east: spec_fn(Coord, Coord, Coord) -> bool,
) -> bool {
    crossings(ring, at, ring.len() as int, east) % 2 == 1
}

pub fn point_in_ring<C: Fn(Coord, Coord, Coord) -> bool>(
    at: Coord,
    ring: &Vec<Coord>,
    east: &C,
) -> (r: bool)
    requires
        tells_crossing(*east),
    ensures
        r == in_ring(at, ring@, crossing(*east)),
{
    let mut inside = false;
    let mut i: usize = 0;
    while i < ring.len()
        invariant
            tells_crossing(*east),
            i <= ring.len(),
            inside == (crossings(ring@, at, i as int, crossing(*east)) % 2 == 1),
        decreases ring.len() - i,
    {
        let a: Coord = ring[i];
        let b: Coord = if i == 0 {
            ring[ring.len() - 1]
        } else {
            ring[i - 1]
        };
        if (rank(a.lat) > rank(at.lat)) != (rank(b.lat) > rank(at.lat)) {
            if east(at, a, b) {
                inside = !inside;
            }
        }
        i += 1;
    }
    inside
}

/// The points of the first `n` items of a list, without those that are none.
pub open spec fn pairs_of(items: Seq<Coordinates>, n: int) -> Seq<Coord>
    decreases n,
{
    if n <= 0 {
        Seq::empty()
    } else {
        match pair_of(items[n - 1]) {
            Some(point) => pairs_of(items, n - 1).push(point),
            None => pairs_of(items, n - 1),
        }
    }
}

/// The ring that a list of points stands for.
pub open spec fn ring_of(value: Coordinates) -> Seq<Coord> {
    match value {
        Coordinates::List(items) => pairs_of(items@, items@.len() as int),
        _ => Seq::empty(),
    }
}

pub fn ring_from_value(value: &Coordinates) -> (r: Vec<Coord>)
    ensures
        r@ == ring_of(*value),
{
    let mut out: Vec<Coord> = Vec::new();
    if let Coordinates::List(items) = value {
        let mut i: usize = 0;
        while i < items.len()
            invariant
                i <= items.len(),
                out@ == pairs_of(items@, i as int),
            decreases items.len() - i,
        {
            if let Some(point) = pair_from_value(&items[i]) {
                out.push(point);
            }
            i += 1;
        }
    }
    out
}

/// A point is in a polygon if it is inside the first ring and in none of the others.
pub open spec fn in_polygon(
    at: Coord,
    value: Coordinates,
    east: spec_fn(Coord, Coord, Coord) -> bool,
) -> bool {
    match value {
        Coordinates::List(rings) => {
            &&& rings@.len() > 0
            &&& in_ring(at, ring_of(rings@[0]), east)
            &&& forall|i: int|
                0 < i < rings@.len() ==> !in_ring(at, ring_of(#[trigger] rings@[i]), east)
        },
        _ => false,
    }
}

pub fn point_in_polygon_geometry<C: Fn(Coord, Coord, Coord) -> bool>(
    at: Coord,
    value: &Coordinates,
    east: &C,
) -> (r: bool)
    requires
        tells_crossing(*east),
    ensures
        r == in_polygon(at, *value, crossing(*east)),
{
    match value {
        Coordinates::List(rings) => {
            if rings.len() == 0 {
                return false;
            }
            let outer = ring_from_value(&rings[0]);
            if !point_in_ring(at, &outer, east) {
                return false;
            }
            let mut i: usize = 1;
            while i < rings.len()
                invariant
                    tells_crossing(*east),
                    1 <= i <= rings.len(),
                    *value == Coordinates::List(*rings),
                    in_ring(at, ring_of(rings@[0]), crossing(*east)),
                    forall|k: int|
                        0 < k < i ==> !in_ring(
                            at,
                            ring_of(#[trigger] rings@[k]),
                            crossing(*east),
                        ),
                decreases rings.len() - i,
            {
                let hole = ring_from_value(&rings[i]);
                if point_in_ring(at, &hole, east) {
                    return false;
                }
                i += 1;
            }
            true
        },
        _ => false,
    }
}

/// A point is in one of several polygons.
pub open spec fn in_some_polygon(
    at: Coord,
    polygons: Seq<Coordinates>,
    east: spec_fn(Coord, Coord, Coord) -> bool,
) -> bool {
    exists|i: int| 0 <= i < polygons.len() && in_polygon(at, #[trigger] polygons[i], east)
}

/// A point is in a shape of the named kind. Only polygons have an inside.
pub open spec fn in_geometry(
    at: Coord,
    kind: Seq<char>,
    value: Coordinates,
    east: spec_fn(Coord, Coord, Coord) -> bool,
) -> bool {
    if kind == "Polygon"@ {
        in_polygon(at, value, east)
    } else if kind == "MultiPolygon"@ {
        match value {
            Coordinates::List(polygons) => in_some_polygon(at, polygons@, east),
            _ => false,
        }
    } else {
        false
    }
}

pub fn point_in_geometry<C: Fn(Coord, Coord, Coord) -> bool>(
    at: Coord,
    kind: &str,
    value: &Coordinates,
    east: &C,
) -> (r: bool)
    requires
        tells_crossing(*east),
    ensures
        r == in_geometry(at, kind@, *value, crossing(*east)),
{
    if same_text(kind, "Polygon") {
        return point_in_polygon_geometry(at, value, east);
    }
    if same_text(kind, "MultiPolygon") {
        if let Coordinates::List(polygons) = value {
            let mut i: usize = 0;
            while i < polygons.len()
                invariant
                    tells_crossing(*east),
                    i <= polygons.len(),
                    *value == Coordinates::List(*polygons),
                    kind@ == "MultiPolygon"@,
                    kind@ != "Polygon"@,
                    forall|k: int|
                        0 <= k < i ==> !in_polygon(at, #[trigger] polygons@[k], crossing(*east)),
                decreases polygons.len() - i,
            {
                if point_in_polygon_geometry(at, &polygons[i], east) {
                    proof {
                        assert(in_polygon(at, polygons@[i as int], crossing(*east)));
                        assert(in_some_polygon(at, polygons@, crossing(*east)));
                    }
                    return true;
                }
                i += 1;
            }
        }
    }
    false
}

/// A part of the region, with the box around it.
pub struct BoundaryFeature {
    pub geometry_type: String,
    pub coordinates: Coordinates,
    pub bbox: Option<Bounds>,
}

pub struct BoundaryRepo {
    pub refreshed_at: i64,
    pub signature: String,
    pub features: Vec<BoundaryFeature>,
    /// The box around all parts.
    pub overall_bbox: Option<Bounds>,
}

impl BoundaryRepo {
    pub fn new() -> (r: Self)
        ensures
            r.refreshed_at == 0,
            r.signature@ == Seq::<char>::empty(),
            r.features@ == Seq::<BoundaryFeature>::empty(),
            r.overall_bbox is None,
    {
        let signature = String::new();
        BoundaryRepo { refreshed_at: 0, signature, features: Vec::new(), overall_bbox: None }
    }
}

/// A point lies in a part of the region.
pub open spec fn in_feature(
    at: Coord,
    feature: BoundaryFeature,
    east: spec_fn(Coord, Coord, Coord) -> bool,
) -> bool {
    &&& feature.bbox is Some
    &&& within(feature.bbox->0, at)
    &&& in_geometry(at, feature.geometry_type@, feature.coordinates, east)
}

/// A point lies in some part of the region.
pub open spec fn in_region(
    at: Coord,
    features: Seq<BoundaryFeature>,
    east: spec_fn(Coord, Coord, Coord) -> bool,
) -> bool {
    exists|i: int| 0 <= i < features.len() && in_feature(at, #[trigger] features[i], east)
}

pub fn point_inside_active_region<C: Fn(Coord, Coord, Coord) -> bool>(
    boundary: &BoundaryRepo,
    at: Coord,
    east: &C,
) -> (r: bool)
    requires
        tells_crossing(*east),
    ensures
        r == in_region(at, boundary.features@, crossing(*east)),
{
    let mut i: usize = 0;
    while i < boundary.features.len()
        invariant
            tells_crossing(*east),
            i <= boundary.features.len(),
            forall|k: int|
                0 <= k < i ==> !in_feature(at, #[trigger] boundary.features@[k], crossing(*east)),
        decreases boundary.features.len() - i,
    {
        let feature = &boundary.features[i];
        if let Some(bounds) = &feature.bbox {
            if bounds.contains(at) && point_in_geometry(
                at,
                feature.geometry_type.as_str(),
                &feature.coordinates,
                east,
            ) {
                return true;
            }
        }
        i += 1;
    }
    false
}

/// A shape with a name, as region files hold them.
pub struct Feature {
    pub name: Option<String>,
    pub geometry_type: String,
    pub coordinates: Coordinates,
}

/// A coarse shape of the region.
pub struct Overview {
    pub name: Option<Scalar>,
    pub id: Option<Scalar>,
    pub coordinates: Option<Coordinates>,
}

/// A box that was asked for when the road map was fetched.
pub struct QueryBound {
    pub west: Option<i64>,
    pub south: Option<i64>,
    pub east: Option<i64>,
    pub north: Option<i64>,
    pub id: Option<Scalar>,
    pub name: Option<Scalar>,
}

/// What the manifest says of the region.
pub struct Region {
    pub states: Vec<Option<String>>,
    pub overview_features: Vec<Overview>,
    pub query_bounds: Vec<QueryBound>,
}

/// The name of a coarse shape: its name or else its id, as far as it is a text or
/// a number.
pub open spec fn overview_name(name: Option<Scalar>, id: Option<Scalar>) -> Seq<char> {
    let chosen = if name is Some {
        name
    } else {
        id
    };
    match chosen {
        Some(value) => match scalar_text(value) {
            Some(text) => text,
            None => "region"@,
        },
        None => "region"@,
    }
}

/// `feature` is the coarse shape `overview` as a polygon.
pub open spec fn from_overview(feature: Feature, overview: Overview) -> bool {
    &&& text_in(feature.name) == Some(overview_name(overview.name, overview.id))
    &&& feature.geometry_type@ == "Polygon"@
    &&& overview.coordinates == Some(feature.coordinates)
}

/// The coarse shapes that have coordinates.
pub open spec fn drawn(overviews: Seq<Overview>) -> Seq<Overview> {
    overviews.filter(|o: Overview| o.coordinates is Some)
}

/// The coarse shapes of the region as polygons, in order.
pub fn fallback_boundary_features(overviews: Vec<Overview>) -> (r: Vec<Feature>)
    ensures
        r@.len() == drawn(overviews@).len(),
        forall|i: int|
            0 <= i < r@.len() ==> from_overview(#[trigger] r@[i], drawn(overviews@)[i]),
{
    let ghost all = overviews@;
    let ghost has = |o: Overview| o.coordinates is Some;
    let mut reversed: Vec<Overview> = Vec::new();
    let mut overviews = overviews;
    let n: usize = overviews.len();
    while overviews.len() > 0
        invariant
            n == all.len(),
            overviews.len() + reversed.len() == n,
            forall|k: int| 0 <= k < overviews.len() ==> overviews@[k] == all[k],
            forall|k: int| 0 <= k < reversed.len() ==> reversed@[k] == all[n - 1 - k],
        decreases overviews.len(),
    {
        if let Some(o) = overviews.pop() {
            reversed.push(o);
        }
    }
    let mut out: Vec<Feature> = Vec::new();
    let mut i: usize = 0;
    proof {
        assert(all.take(0).filter(has) =~= Seq::<Overview>::empty());
    }
    while i < n
        invariant
            n == all.len(),
            i <= n,
            has == (|o: Overview| o.coordinates is Some),
            reversed.len() == n - i,
            forall|k: int| 0 <= k < reversed.len() ==> reversed@[k] == all[n - 1 - k],
            out.len() == all.take(i as int).filter(has).len(),
            forall|k: int|
                0 <= k < out.len() ==> from_overview(
                    #[trigger] out@[k],
                    all.take(i as int).filter(has)[k],
                ),
        decreases n - i,
    {
        proof {
            reveal(Seq::filter);
            assert(all.take(i + 1).drop_last() =~= all.take(i as int));
            assert(all.take(i + 1).last() == all[i as int]);
        }
        if let Some(o) = reversed.pop() {
            let ghost whole = o;
            let Overview { name, id, coordinates } = o;
            if let Some(shape) = coordinates {
                let chosen = match &name {
                    Some(value) => value_to_string(value),
                    None => match &id {
                        Some(value) => value_to_string(value),
                        None => None,
                    },
                };
                let called: String = match chosen {
                    Some(text) => text,
                    None => "region".to_owned(),
                };
                let feature = Feature {
                    name: Some(called),
                    geometry_type: "Polygon".to_owned(),
                    coordinates: shape,
                };
                proof {
                    assert(from_overview(feature, whole));
                }
                out.push(feature);
            }
        }
        i += 1;
    }
    proof {
        assert(all.take(n as int) =~= all);
    }
    out
}

/// The names of the states of a region, in lower case, in the order of the
/// manifest. What is no text is left out.
pub open spec fn listed_names(states: Seq<Option<String>>) -> Seq<Seq<char>>
    decreases states.len(),
{
    if states.len() == 0 {
        Seq::empty()
    } else {
        match states.last() {
            Some(name) => listed_names(states.drop_last()).push(lowered(trimmed(name@))),
            None => listed_names(states.drop_last()),
        }
    }
}

fn clean_name(name: &str) -> (r: String)
    ensures
        r@ == lowered(trimmed(name@)),
{
    let bare = trim(name);
    lowercase(bare.as_str())
}

/// The names of the states of a region, in lower case, sorted.
pub fn state_names(states: &Vec<Option<String>>) -> (r: Vec<String>)
    ensures
        sorted_texts(listed_names(states@), texts(r@)),
{
    let mut names: Vec<String> = Vec::new();
    let mut i: usize = 0;
    proof {
        assert(texts(names@) =~= listed_names(states@.take(0)));
    }
    while i < states.len()
        invariant
            i <= states.len(),
            texts(names@) == listed_names(states@.take(i as int)),
        decreases states.len() - i,
    {
        proof {
            assert(states@.take(i + 1).drop_last() =~= states@.take(i as int));
            assert(states@.take(i + 1).last() == states@[i as int]);
        }
        if let Some(name) = &states[i] {
            let ghost before = names@;
            let clean = clean_name(name.as_str());
            names.push(clean);
            proof {
                assert(texts(names@) =~= texts(before).push(clean@));
            }
        }
        i += 1;
    }
    proof {
        assert(states@.take(i as int) =~= states@);
    }
    sort_texts(&names)
}

/// By what a region is told from an earlier one: when its files were changed, and
/// its states.
pub open spec fn signature_of(manifest: int, boundaries: int, names: Seq<Seq<char>>) -> Seq<char> {
    signed_digits(manifest) + "|"@ + signed_digits(boundaries) + "|"@ + joined(names, "|"@)
}

pub fn boundary_signature(
    manifest_mtime_ms: i64,
    boundaries_mtime_ms: i64,
    names: &Vec<String>,
) -> (r: String)
    ensures
        r@ == signature_of(manifest_mtime_ms as int, boundaries_mtime_ms as int, texts(names@)),
{
    let mut out = signed_decimal(manifest_mtime_ms);
    out.append("|");
    let part = signed_decimal(boundaries_mtime_ms);
    out.append(part.as_str());
    out.append("|");
    let tail = join(names, "|");
    out.append(tail.as_str());
    out
}

/// Whether something refreshed at `then` need not be looked at again at `now`.
pub open spec fn recent(then: int, now: int, force: bool) -> bool {
    !force && now - then < REPO_REFRESH_MS
}

pub fn is_recent(refreshed_at: i64, now: i64, force: bool) -> (r: bool)
    ensures
        r == recent(refreshed_at as int, now as int, force),
{
    !force && (now as i128 - refreshed_at as i128) < REPO_REFRESH_MS as i128
}

/// A shape whose name is that of a state in `names`.
pub open spec fn is_listed(feature: Feature, names: Seq<Seq<char>>) -> bool {
    match feature.name {
        Some(name) => names.contains(lowered(trimmed(name@))),
        None => false,
    }
}

fn name_listed(feature: &Feature, names: &Vec<String>) -> (r: bool)
    ensures
        r == is_listed(*feature, texts(names@)),
{
    match &feature.name {
        None => false,
        Some(name) => {
            let clean = clean_name(name.as_str());
            let mut i: usize = 0;
            while i < names.len()
                invariant
                    i <= names.len(),
                    clean@ == lowered(trimmed(name@)),
                    feature.name == Some(*name),
                    forall|k: int| 0 <= k < i ==> texts(names@)[k] != clean@,
                decreases names.len() - i,
            {
                if same_text(names[i].as_str(), clean.as_str()) {
                    proof {
                        assert(texts(names@)[i as int] == clean@);
                    }
                    return true;
                }
                i += 1;
            }
            false
        },
    }
}

/// The shapes of the listed states, in order.
pub fn select_states(features: Vec<Feature>, names: &Vec<String>) -> (r: Vec<Feature>)
    ensures
        r@ == features@.filter(|f: Feature| is_listed(f, texts(names@))),
{
    let ghost all = features@;
    let ghost keep = |f: Feature| is_listed(f, texts(names@));
    let mut features = features;
    let mut reversed: Vec<Feature> = Vec::new();
    let n: usize = features.len();
    while features.len() > 0
        invariant
            n == all.len(),
            features.len() + reversed.len() == n,
            forall|k: int| 0 <= k < features.len() ==> features@[k] == all[k],
            forall|k: int| 0 <= k < reversed.len() ==> reversed@[k] == all[n - 1 - k],
        decreases features.len(),
    {
        if let Some(f) = features.pop() {
            reversed.push(f);
        }
    }
    let mut out: Vec<Feature> = Vec::new();
    let mut i: usize = 0;
    proof {
        assert(all.take(0).filter(keep) =~= Seq::<Feature>::empty());
    }
    while i < n
        invariant
            n == all.len(),
            i <= n,
            keep == (|f: Feature| is_listed(f, texts(names@))),
            reversed.len() == n - i,
            forall|k: int| 0 <= k < reversed.len() ==> reversed@[k] == all[n - 1 - k],
            out@ == all.take(i as int).filter(keep),
        decreases n - i,
    {
        proof {
            reveal(Seq::filter);
            assert(all.take(i + 1).drop_last() =~= all.take(i as int));
            assert(all.take(i + 1).last() == all[i as int]);
        }
        if let Some(f) = reversed.pop() {
            if name_listed(&f, names) {
                out.push(f);
            }
        }
        i += 1;
    }
    proof {
        assert(all.take(n as int) =~= all);
    }
    out
}

/// A box with all its sides.
pub open spec fn is_whole(bound: QueryBound) -> bool {
    bound.west is Some && bound.south is Some && bound.east is Some && bound.north is Some
}

/// The boxes with all their sides.
pub open spec fn whole_boxes(bounds: Seq<QueryBound>) -> Seq<QueryBound> {
    bounds.filter(|b: QueryBound| is_whole(b))
}

/// The name of a box: its id, or else its name, as far as it is a text or a number.
pub open spec fn box_name(id: Option<Scalar>, name: Option<Scalar>) -> Seq<char> {
    match id {
        Some(value) if scalar_text(value) is Some => scalar_text(value)->0,
        _ => match name {
            Some(value) if scalar_text(value) is Some => scalar_text(value)->0,
            _ => "query_bound"@,
        },
    }
}

/// The corners of a box, from the south-west around and back.
pub open spec fn corners(bound: QueryBound) -> Seq<Coord> {
    let w = bound.west->0;
    let e = bound.east->0;
    let s = bound.south->0;
    let n = bound.north->0;
    seq![
        Coord { lat: s, lon: w },
        Coord { lat: s, lon: e },
        Coord { lat: n, lon: e },
        Coord { lat: n, lon: w },
        Coord { lat: s, lon: w },
    ]
}

/// `feature` is the box as a polygon of one ring.
pub open spec fn from_query(feature: Feature, bound: QueryBound) -> bool {
    &&& text_in(feature.name) == Some(box_name(bound.id, bound.name))
    &&& feature.geometry_type@ == "Polygon"@
    &&& match feature.coordinates {
        Coordinates::List(rings) => rings@.len() == 1 && ring_of(rings@[0]) == corners(bound)
            && points_of(feature.coordinates) == corners(bound),
        _ => false,
    }
}

fn point(lon: i64, lat: i64) -> (r: Coordinates)
    ensures
        pair_of(r) == Some(Coord { lat, lon }),
{
    let mut items: Vec<Coordinates> = Vec::new();
    items.push(Coordinates::Number(lon));
    items.push(Coordinates::Number(lat));
    Coordinates::List(items)
}

fn box_shape(west: i64, south: i64, east: i64, north: i64) -> (r: Coordinates)
    ensures
        ({
            let want = seq![
                Coord { lat: south, lon: west },
                Coord { lat: south, lon: east },
                Coord { lat: north, lon: east },
                Coord { lat: north, lon: west },
                Coord { lat: south, lon: west },
            ];
            match r {
                Coordinates::List(rings) => rings@.len() == 1 && ring_of(rings@[0]) == want
                    && points_of(r) == want,
                _ => false,
            }
        }),
{
    let mut ring: Vec<Coordinates> = Vec::new();
    ring.push(point(west, south));
    ring.push(point(east, south));
    ring.push(point(east, north));
    ring.push(point(west, north));
    ring.push(point(west, south));
    let ghost items = ring@;
    let mut rings: Vec<Coordinates> = Vec::new();
    rings.push(Coordinates::List(ring));
    let ghost list = rings@;
    proof {
        reveal_with_fuel(pairs_of, 6);
        reveal_with_fuel(points_of_all, 6);
        assert(ring_of(list[0]) =~= seq![
            Coord { lat: south, lon: west },
            Coord { lat: south, lon: east },
            Coord { lat: north, lon: east },
            Coord { lat: north, lon: west },
            Coord { lat: south, lon: west },
        ]);
        assert(pair_of(list[0]) is None);
        assert(points_of_all(items, 5) =~= ring_of(list[0]));
        assert(points_of(list[0]) =~= ring_of(list[0]));
        assert(points_of_all(list, 1) =~= ring_of(list[0]));
    }
    Coordinates::List(rings)
}

/// The boxes that were asked for, as polygons.
pub fn query_features(bounds: &Vec<QueryBound>) -> (r: Vec<Feature>)
    ensures
        r@.len() == whole_boxes(bounds@).len(),
        forall|i: int|
            0 <= i < r@.len() ==> from_query(#[trigger] r@[i], whole_boxes(bounds@)[i]),
{
    let ghost all = bounds@;
    let ghost keep = |b: QueryBound| is_whole(b);
    let mut out: Vec<Feature> = Vec::new();
    let mut i: usize = 0;
    proof {
        assert(all.take(0).filter(keep) =~= Seq::<QueryBound>::empty());
    }
    while i < bounds.len()
        invariant
            all == bounds@,
            i <= bounds.len(),
            keep == (|b: QueryBound| is_whole(b)),
            out.len() == all.take(i as int).filter(keep).len(),
            forall|k: int|
                0 <= k < out.len() ==> from_query(
                    #[trigger] out@[k],
                    all.take(i as int).filter(keep)[k],
                ),
        decreases bounds.len() - i,
    {
        proof {
            reveal(Seq::filter);
            assert(all.take(i + 1).drop_last() =~= all.take(i as int));
            assert(all.take(i + 1).last() == all[i as int]);
        }
        let bound = &bounds[i];
        match (bound.west, bound.south, bound.east, bound.north) {
            (Some(west), Some(south), Some(east), Some(north)) => {
                let by_id = match &bound.id {
                    Some(value) => value_to_string(value),
                    None => None,
                };
                let called: String = match by_id {
                    Some(text) => text,
                    None => {
                        let by_name = match &bound.name {
                            Some(value) => value_to_string(value),
                            None => None,
                        };
                        match by_name {
                            Some(text) => text,
                            None => "query_bound".to_owned(),
                        }
                    },
                };
                let feature = Feature {
                    name: Some(called),
                    geometry_type: "Polygon".to_owned(),
                    coordinates: box_shape(west, south, east, north),
                };
                proof {
                    assert(from_query(feature, *bound));
                }
                out.push(feature);
            },
            _ => {},
        }
        i += 1;
    }
    proof {
        assert(all.take(i as int) =~= all);
    }
    out
}

/// `features` are the shapes of the region: those of its states, or, if there is
/// none, the coarse ones; and after them the boxes that were asked for.
pub open spec fn assembled(
    features: Seq<Feature>,
    region: Region,
    shapes: Seq<Feature>,
    names: Seq<Seq<char>>,
) -> bool {
    let picked = shapes.filter(|f: Feature| is_listed(f, names));
    let coarse = drawn(region.overview_features@);
    let boxes = whole_boxes(region.query_bounds@);
    let base = if picked.len() > 0 {
        picked.len() as int
    } else {
        coarse.len() as int
    };
    &&& features.len() == base + boxes.len()
    &&& picked.len() > 0 ==> features.take(base) == picked
    &&& picked.len() == 0 ==> forall|i: int|
        0 <= i < base ==> from_overview(#[trigger] features[i], coarse[i])
    &&& forall|i: int|
        base <= i < features.len() ==> from_query(#[trigger] features[i], boxes[i - base])
}

/// Puts together the shapes of the region.
pub fn assemble_features(region: Region, shapes: Vec<Feature>, names: &Vec<String>) -> (r: Vec<
    Feature,
>)
    ensures
        assembled(r@, region, shapes@, texts(names@)),
{
    let ghost whole = region;
    let Region { states, overview_features, query_bounds } = region;
    let mut out = select_states(shapes, names);
    let ghost picked = out@;
    if out.len() == 0 {
        out = fallback_boundary_features(overview_features);
    }
    let ghost base = out@;
    let mut boxes = query_features(&query_bounds);
    let ghost tail = boxes@;
    out.append(&mut boxes);
    proof {
        assert(out@ =~= base + tail);
        if picked.len() > 0 {
            assert(out@.take(base.len() as int) =~= picked);
        } else {
            assert forall|i: int| 0 <= i < base.len() implies from_overview(
                #[trigger] out@[i],
                drawn(whole.overview_features@)[i],
            ) by {
                assert(out@[i] == base[i]);
            }
        }
        assert forall|i: int| base.len() <= i < out@.len() implies from_query(
            #[trigger] out@[i],
            whole_boxes(whole.query_bounds@)[i - base.len()],
        ) by {
            assert(out@[i] == tail[i - base.len()]);
        }
    }
    out
}

/// All points of the first `n` shapes.
pub open spec fn feature_points(features: Seq<Feature>, n: int) -> Seq<Coord>
    decreases n,
{
    if n <= 0 {
        Seq::empty()
    } else {
        feature_points(features, n - 1) + points_of(features[n - 1].coordinates)
    }
}

/// `part` is the shape `feature` with the box around it.
pub open spec fn is_part(part: BoundaryFeature, feature: Feature) -> bool {
    &&& part.geometry_type == feature.geometry_type
    &&& part.coordinates == feature.coordinates
    &&& part.bbox == hull(None, points_of(feature.coordinates))
}

/// The region that is made of `features`.
pub open spec fn is_region(boundary: BoundaryRepo, features: Seq<Feature>) -> bool {
    &&& boundary.features@.len() == features.len()
    &&& forall|i: int|
        0 <= i < features.len() ==> is_part(#[trigger] boundary.features@[i], features[i])
    &&& boundary.overall_bbox == hull(None, feature_points(features, features.len() as int))
}

/// Takes over the shapes of the region.
pub fn adopt_features(
    boundary: &mut BoundaryRepo,
    features: Vec<Feature>,
    signature: String,
    now: i64,
)
    ensures
        is_region(*final(boundary), features@),
        final(boundary).signature@ == signature@,
        final(boundary).refreshed_at == now,
{
    let ghost all = features@;
    let mut features = features;
    let mut reversed: Vec<Feature> = Vec::new();
    let n: usize = features.len();
    while features.len() > 0
        invariant
            n == all.len(),
            features.len() + reversed.len() == n,
            forall|k: int| 0 <= k < features.len() ==> features@[k] == all[k],
            forall|k: int| 0 <= k < reversed.len() ==> reversed@[k] == all[n - 1 - k],
        decreases features.len(),
    {
        if let Some(f) = features.pop() {
            reversed.push(f);
        }
    }
    let mut parts: Vec<BoundaryFeature> = Vec::new();
    let mut overall: Option<Bounds> = None;
    let mut i: usize = 0;
    while i < n
        invariant
            n == all.len(),
            i <= n,
            reversed.len() == n - i,
            forall|k: int| 0 <= k < reversed.len() ==> reversed@[k] == all[n - 1 - k],
            parts.len() == i,
            forall|k: int| 0 <= k < i ==> is_part(#[trigger] parts@[k], all[k]),
            overall == hull(None, feature_points(all, i as int)),
        decreases n - i,
    {
        if let Some(f) = reversed.pop() {
            let Feature { name, geometry_type, coordinates } = f;
            let bbox = update_bbox_from_coordinates(&coordinates, None);
            proof {
                lemma_hull_adds(
                    None,
                    feature_points(all, i as int),
                    points_of(all[i as int].coordinates),
                );
            }
            overall = update_bbox_from_coordinates(&coordinates, overall);
            parts.push(BoundaryFeature { geometry_type, coordinates, bbox });
        }
        i += 1;
    }
    boundary.features = parts;
    boundary.overall_bbox = overall;
    boundary.signature = signature;
    boundary.refreshed_at = now;
}

/// What becomes of the region when it is brought up to date.
pub open spec fn region_refreshed(
    boundary: BoundaryRepo,
    after: BoundaryRepo,
    region: Region,
    shapes: Seq<Feature>,
    names: Seq<Seq<char>>,
    signature: Seq<char>,
    now: i64,
    force: bool,
) -> bool {
    if !force && boundary.signature@ == signature {
        after == (BoundaryRepo { refreshed_at: now, ..boundary })
    } else {
        &&& after.signature@ == signature
        &&& after.refreshed_at == now
        &&& exists|features: Seq<Feature>| #[trigger]
            assembled(features, region, shapes, names) && is_region(after, features)
    }
}

/// Brings the region up to date from the manifest and the shapes of states. With
/// the signature unchanged, only notes that it was looked at.
pub fn refresh_boundary(
    boundary: &mut BoundaryRepo,
    region: Region,
    shapes: Vec<Feature>,
    names: &Vec<String>,
    signature: String,
    now: i64,
    force: bool,
)
    ensures
        region_refreshed(
            *old(boundary),
            *final(boundary),
            region,
            shapes@,
            texts(names@),
            signature@,
            now,
            force,
        ),
{
    if !force && same_text(boundary.signature.as_str(), signature.as_str()) {
        boundary.refreshed_at = now;
        return;
    }
    let features = assemble_features(region, shapes, names);
    let ghost list = features@;
    adopt_features(boundary, features, signature, now);
    proof {
        assert(assembled(list, region, shapes@, texts(names@)) && is_region(*boundary, list));
    }
}

/// `big` holds all that `small` holds.
pub open spec fn covers(big: Option<Bounds>, small: Option<Bounds>) -> bool {
    small is Some ==> {
        &&& big is Some
        &&& rank_of(big->0.west) <= rank_of(small->0.west)
        &&& rank_of(big->0.east) >= rank_of(small->0.east)
        &&& rank_of(big->0.south) <= rank_of(small->0.south)
        &&& rank_of(big->0.north) >= rank_of(small->0.north)
    }
}

proof fn lemma_hull_covers(bounds: Option<Bounds>, points: Seq<Coord>)
    ensures
        covers(hull(bounds, points), bounds),
        covers(hull(bounds, points), hull(None, points)),
    decreases points.len(),
{
    if points.len() > 0 {
        lemma_hull_covers(bounds, points.drop_last());
    }
}

proof fn lemma_overall_covers(features: Seq<Feature>, n: int, i: int)
    requires
        0 <= i < n <= features.len(),
    ensures
        covers(
            hull(None, feature_points(features, n)),
            hull(None, points_of(features[i].coordinates)),
        ),
    decreases n,
{
    let front = feature_points(features, n - 1);
    let last = points_of(features[n - 1].coordinates);
    lemma_hull_adds(None, front, last);
    lemma_hull_covers(hull(None, front), last);
    if i < n - 1 {
        lemma_overall_covers(features, n - 1, i);
    }
}

/// What lies in the region lies in the box around it.
pub proof fn law_region_lies_in_its_box(
    boundary: BoundaryRepo,
    features: Seq<Feature>,
    at: Coord,
    east: spec_fn(Coord, Coord, Coord) -> bool,
)
    requires
        is_region(boundary, features),
        in_region(at, boundary.features@, east),
    ensures
        boundary.overall_bbox is Some,
        within(boundary.overall_bbox->0, at),
{
    let i = choose|i: int|
        0 <= i < boundary.features@.len() && in_feature(at, #[trigger] boundary.features@[i], east);
    assert(is_part(boundary.features@[i], features[i]));
    lemma_overall_covers(features, features.len() as int, i);
}

} // verus!
