//! What holds of a road map that was filled from files.
use vstd::prelude::*;

use crate::geometry::Coord;
use crate::json::{pair_of, Scalar};
use crate::loading::{
    text_or_empty, with_edge, with_file, with_files, with_nodes, with_points, with_road, with_way,
    with_ways, Element, RoadFile,
};
use crate::production::roads_from;
use crate::refresh::{
    emptied, filled, is_cache_signature, item_of, kept_as_it_is, lemma_edge, remade, source_nodes,
    NodeSource,
};
use crate::repo::{EdgeView, RepoNodeView, RepoView};
use crate::sorting::{law_there_is_one_sorted_list, sorted_texts};
use crate::text::{digits, joined, parsed_i64, pieces, trimmed};
use crate::text_laws::{lemma_after_a_mark, lemma_digits_read, lemma_only_digits};
use crate::walks::{has_road, reachable};

verus! {

/// A value that is written as `name`, as text or as a number.
pub open spec fn reads_as(value: Scalar, name: Seq<char>) -> bool {
    match value {
        Scalar::Text(text) => text@ == name,
        Scalar::Number(text) => text@ == name,
        Scalar::Other => false,
    }
}

/// Piece `k` of a way joins `x` to `y`, in either direction, over the distance between
/// their places.
pub open spec fn joins(
    nodes: Seq<Scalar>,
    k: int,
    places: Map<Seq<char>, Coord>,
    distance: spec_fn(Coord, Coord) -> u64,
    x: Seq<char>,
    y: Seq<char>,
    w: u64,
) -> bool {
    &&& 0 <= k
    &&& k + 1 < nodes.len()
    &&& x.len() > 0 && y.len() > 0
    &&& places.contains_key(x) && places.contains_key(y)
    &&& {
        ||| reads_as(nodes[k], x) && reads_as(nodes[k + 1], y) && w == distance(
            places[x],
            places[y],
        )
        ||| reads_as(nodes[k], y) && reads_as(nodes[k + 1], x) && w == distance(
            places[y],
            places[x],
        )
    }
}

/// Piece `k` of the way that is element `e` of a road file joins `x` to `y`.
pub open spec fn way_joins(
    elements: Seq<Element>,
    e: int,
    k: int,
    places: Map<Seq<char>, Coord>,
    distance: spec_fn(Coord, Coord) -> u64,
    x: Seq<char>,
    y: Seq<char>,
    w: u64,
) -> bool {
    &&& 0 <= e < elements.len()
    &&& elements[e].kind@ == "way"@
    &&& joins(elements[e].nodes@, k, places, distance, x, y, w)
}

/// Element `e` of road file `f` puts the point `name` at `at`.
pub open spec fn puts(
    files: Seq<RoadFile>,
    f: int,
    e: int,
    region: spec_fn(Coord) -> bool,
    name: Seq<char>,
    at: Coord,
) -> bool {
    &&& 0 <= f < files.len()
    &&& 0 <= e < files[f].elements@.len()
    &&& files[f].elements@[e].kind@ == "node"@
    &&& files[f].elements@[e].at == Some(at)
    &&& files[f].elements@[e].id is Some
    &&& reads_as(files[f].elements@[e].id->0, name)
    &&& region(at)
}

/// Entry `i` of a source stands for `node`: it names a node in the region, with its
/// degree. The first row of an intersections file is its heading.
pub open spec fn names_node(
    source: NodeSource,
    i: int,
    number: spec_fn(Seq<char>) -> Option<i64>,
    region: spec_fn(Coord) -> bool,
    cell: spec_fn(Coord) -> u64,
    node: RepoNodeView,
) -> bool {
    &&& node.id.len() > 0
    &&& region(node.coord)
    &&& node.cell == cell(node.coord)
    &&& match source {
        NodeSource::Preview(entries) => {
            &&& 0 <= i < entries@.len()
            &&& entries@[i].id is Some
            &&& reads_as(entries@[i].id->0, node.id)
            &&& pair_of(entries@[i].coordinates) == Some(node.coord)
            &&& entries@[i].degree == node.degree
        },
        NodeSource::Csv(lines) => {
            let row = pieces(lines@[i]@, ',');
            &&& 1 <= i < lines@.len()
            &&& row.len() >= 3
            &&& node.id == trimmed(row[0])
            &&& number(trimmed(row[1])) == Some(node.coord.lat)
            &&& number(trimmed(row[2])) == Some(node.coord.lon)
            &&& if row.len() >= 4 && parsed_i64(trimmed(row[3])) is Some {
                parsed_i64(trimmed(row[3])) == Some(node.degree)
            } else {
                node.degree == 0
            }
        },
        NodeSource::Missing => false,
    }
}

proof fn lemma_reads_as(value: Scalar, name: Seq<char>)
    ensures
        name.len() > 0 ==> (reads_as(value, name) <==> text_or_empty(Some(value)) == name),
{
}

/// What roads there are once two points were joined.
proof fn lemma_joined(
    repo: RepoView,
    a: Seq<char>,
    b: Seq<char>,
    distance: spec_fn(Coord, Coord) -> u64,
)
    ensures
        with_road(repo, a, b, distance).coords == repo.coords,
        forall|x: Seq<char>, y: Seq<char>, w: u64| #[trigger]
            has_road(with_road(repo, a, b, distance), x, y, w) <==> has_road(repo, x, y, w) || (
            a.len() > 0 && b.len() > 0 && repo.coords.contains_key(a) && repo.coords.contains_key(b)
                && w == distance(repo.coords[a], repo.coords[b]) && ((x == a && y == b) || (x == b
                && y == a))),
{
    let next = with_road(repo, a, b, distance);
    if a.len() > 0 && b.len() > 0 && repo.coords.contains_key(a) && repo.coords.contains_key(b) {
        let weight = distance(repo.coords[a], repo.coords[b]);
        let mid = RepoView {
            adjacency: with_edge(repo.adjacency, a, EdgeView { to: b, weight }),
            ..repo
        };
        lemma_edge(repo, mid, a, EdgeView { to: b, weight });
        lemma_edge(mid, next, b, EdgeView { to: a, weight });
    }
}

proof fn lemma_way_roads(
    repo: RepoView,
    nodes: Seq<Scalar>,
    n: int,
    distance: spec_fn(Coord, Coord) -> u64,
)
    requires
        n < nodes.len() || n <= 0,
    ensures
        with_way(repo, nodes, n, distance).coords == repo.coords,
        forall|x: Seq<char>, y: Seq<char>, w: u64| #[trigger]
            has_road(with_way(repo, nodes, n, distance), x, y, w) <==> has_road(repo, x, y, w)
                || exists|k: int| k < n && #[trigger]
                joins(nodes, k, repo.coords, distance, x, y, w),
    decreases n,
{
    if n > 0 {
        lemma_way_roads(repo, nodes, n - 1, distance);
        let prior = with_way(repo, nodes, n - 1, distance);
        let a = text_or_empty(Some(nodes[n - 1]));
        let b = text_or_empty(Some(nodes[n]));
        lemma_joined(prior, a, b, distance);
        let next = with_way(repo, nodes, n, distance);
        assert forall|x: Seq<char>, y: Seq<char>, w: u64| #[trigger]
            has_road(next, x, y, w) <==> has_road(repo, x, y, w) || exists|k: int|
            k < n && #[trigger] joins(nodes, k, repo.coords, distance, x, y, w) by {
            lemma_reads_as(nodes[n - 1], x);
            lemma_reads_as(nodes[n - 1], y);
            lemma_reads_as(nodes[n], x);
            lemma_reads_as(nodes[n], y);
            if has_road(next, x, y, w) && !has_road(prior, x, y, w) {
                assert(joins(nodes, n - 1, repo.coords, distance, x, y, w));
            }
            if exists|k: int| k < n && #[trigger] joins(nodes, k, repo.coords, distance, x, y, w) {
                let k = choose|k: int|
                    k < n && #[trigger] joins(nodes, k, repo.coords, distance, x, y, w);
                if k < n - 1 {
                    assert(has_road(prior, x, y, w));
                }
            }
        }
    }
}

proof fn lemma_ways_roads(
    repo: RepoView,
    elements: Seq<Element>,
    n: int,
    distance: spec_fn(Coord, Coord) -> u64,
)
    requires
        0 <= n <= elements.len(),
    ensures
        with_ways(repo, elements, n, distance).coords == repo.coords,
        forall|x: Seq<char>, y: Seq<char>, w: u64| #[trigger]
            has_road(with_ways(repo, elements, n, distance), x, y, w) <==> has_road(repo, x, y, w)
                || exists|e: int, k: int| e < n && #[trigger]
                way_joins(elements, e, k, repo.coords, distance, x, y, w),
    decreases n,
{
    if n > 0 {
        lemma_ways_roads(repo, elements, n - 1, distance);
        let prior = with_ways(repo, elements, n - 1, distance);
        let next = with_ways(repo, elements, n, distance);
        let nodes = elements[n - 1].nodes@;
        lemma_way_roads(prior, nodes, nodes.len() - 1, distance);
        assert forall|x: Seq<char>, y: Seq<char>, w: u64| #[trigger]
            has_road(next, x, y, w) <==> has_road(repo, x, y, w) || exists|e: int, k: int|
            e < n && #[trigger] way_joins(elements, e, k, repo.coords, distance, x, y, w) by {
            if has_road(next, x, y, w) && !has_road(prior, x, y, w) {
                let k = choose|k: int|
                    k < nodes.len() - 1 && #[trigger]
                    joins(nodes, k, repo.coords, distance, x, y, w);
                assert(way_joins(elements, n - 1, k, repo.coords, distance, x, y, w));
            }
            if exists|e: int, k: int|
                e < n && #[trigger] way_joins(elements, e, k, repo.coords, distance, x, y, w) {
                let (e, k) = choose|e: int, k: int|
                    e < n && #[trigger] way_joins(elements, e, k, repo.coords, distance, x, y, w);
                if e < n - 1 {
                    assert(has_road(prior, x, y, w));
                } else {
                    assert(joins(nodes, k, repo.coords, distance, x, y, w));
                }
            }
        }
    }
}

proof fn lemma_points_roads(
    repo: RepoView,
    elements: Seq<Element>,
    n: int,
    region: spec_fn(Coord) -> bool,
)
    ensures
        with_points(repo, elements, n, region).adjacency == repo.adjacency,
        with_points(repo, elements, n, region).nodes == repo.nodes,
    decreases n,
{
    if n > 0 {
        lemma_points_roads(repo, elements, n - 1, region);
    }
}

proof fn lemma_file_roads(
    repo: RepoView,
    elements: Seq<Element>,
    region: spec_fn(Coord) -> bool,
    distance: spec_fn(Coord, Coord) -> u64,
)
    ensures
        ({
            let next = with_file(repo, elements, region, distance);
            &&& next.coords == with_points(repo, elements, elements.len() as int, region).coords
            &&& forall|x: Seq<char>, y: Seq<char>, w: u64| #[trigger]
                has_road(next, x, y, w) <==> has_road(repo, x, y, w) || exists|e: int, k: int|
                #[trigger] way_joins(elements, e, k, next.coords, distance, x, y, w)
        }),
{
    let points = with_points(repo, elements, elements.len() as int, region);
    let next = with_file(repo, elements, region, distance);
    lemma_points_roads(repo, elements, elements.len() as int, region);
    lemma_ways_roads(points, elements, elements.len() as int, distance);
    assert forall|x: Seq<char>, y: Seq<char>, w: u64| #[trigger]
        has_road(next, x, y, w) <==> has_road(repo, x, y, w) || exists|e: int, k: int|
        #[trigger] way_joins(elements, e, k, next.coords, distance, x, y, w) by {
        assert(has_road(points, x, y, w) == has_road(repo, x, y, w));
        if exists|e: int, k: int| #[trigger]
            way_joins(elements, e, k, next.coords, distance, x, y, w) {
            let (e, k) = choose|e: int, k: int| #[trigger]
                way_joins(elements, e, k, next.coords, distance, x, y, w);
            assert(e < elements.len() && way_joins(
                elements,
                e,
                k,
                points.coords,
                distance,
                x,
                y,
                w,
            ));
        }
    }
}

/// Reading the first files depends on them alone.
proof fn lemma_files_alike(
    repo: RepoView,
    files: Seq<RoadFile>,
    others: Seq<RoadFile>,
    n: int,
    region: spec_fn(Coord) -> bool,
    distance: spec_fn(Coord, Coord) -> u64,
)
    requires
        forall|f: int| 0 <= f < n ==> files[f] == others[f],
    ensures
        with_files(repo, files, n, region, distance) == with_files(
            repo,
            others,
            n,
            region,
            distance,
        ),
    decreases n,
{
    if n > 0 {
        lemma_files_alike(repo, files, others, n - 1, region, distance);
        assert(files[n - 1] == others[n - 1]);
    }
}

/// Piece `k` of the way that is element `e` of road file `f` joins `x` to `y`, with the
/// places that are known once that file's points were read.
pub open spec fn file_joins(
    files: Seq<RoadFile>,
    f: int,
    e: int,
    k: int,
    places: spec_fn(int) -> Map<Seq<char>, Coord>,
    distance: spec_fn(Coord, Coord) -> u64,
    x: Seq<char>,
    y: Seq<char>,
    w: u64,
) -> bool {
    &&& 0 <= f < files.len()
    &&& way_joins(files[f].elements@, e, k, places(f), distance, x, y, w)
}

proof fn lemma_files_roads(
    repo: RepoView,
    files: Seq<RoadFile>,
    n: int,
    region: spec_fn(Coord) -> bool,
    distance: spec_fn(Coord, Coord) -> u64,
    places: spec_fn(int) -> Map<Seq<char>, Coord>,
)
    requires
        0 <= n <= files.len(),
        forall|f: int|
            0 <= f < files.len() ==> #[trigger] places(f) == with_files(
                repo,
                files,
                f + 1,
                region,
                distance,
            ).coords,
    ensures
        forall|x: Seq<char>, y: Seq<char>, w: u64| #[trigger]
            has_road(with_files(repo, files, n, region, distance), x, y, w) <==> has_road(
                repo,
                x,
                y,
                w,
            ) || exists|f: int, e: int, k: int|
                f < n && #[trigger] file_joins(files, f, e, k, places, distance, x, y, w),
    decreases n,
{
    if n > 0 {
        lemma_files_roads(repo, files, n - 1, region, distance, places);
        let prior = with_files(repo, files, n - 1, region, distance);
        let next = with_files(repo, files, n, region, distance);
        let elements = files[n - 1].elements@;
        lemma_file_roads(prior, elements, region, distance);
        assert(places(n - 1) == next.coords);
        assert forall|x: Seq<char>, y: Seq<char>, w: u64| #[trigger]
            has_road(next, x, y, w) <==> has_road(repo, x, y, w) || exists|f: int, e: int, k: int|
            f < n && #[trigger] file_joins(files, f, e, k, places, distance, x, y, w) by {
            if has_road(next, x, y, w) && !has_road(prior, x, y, w) {
                let (e, k) = choose|e: int, k: int| #[trigger]
                    way_joins(elements, e, k, next.coords, distance, x, y, w);
                assert(file_joins(files, n - 1, e, k, places, distance, x, y, w));
            }
            if exists|f: int, e: int, k: int|
                f < n && #[trigger] file_joins(files, f, e, k, places, distance, x, y, w) {
                let (f, e, k) = choose|f: int, e: int, k: int|
                    f < n && #[trigger] file_joins(files, f, e, k, places, distance, x, y, w);
                if f < n - 1 {
                    assert(has_road(prior, x, y, w));
                } else {
                    assert(way_joins(elements, e, k, next.coords, distance, x, y, w));
                }
            }
        }
    }
}

proof fn lemma_nodes_roads(repo: RepoView, list: Seq<Option<RepoNodeView>>, n: int)
    ensures
        with_nodes(repo, list, n).adjacency == repo.adjacency,
    decreases n,
{
    if n > 0 {
        lemma_nodes_roads(repo, list, n - 1);
    }
}

/// The places of a road map that was filled from the first files, up to file `f`.
pub open spec fn places_after(
    repo: RepoView,
    source: NodeSource,
    files: Seq<RoadFile>,
    number: spec_fn(Seq<char>) -> Option<i64>,
    region: spec_fn(Coord) -> bool,
    cell: spec_fn(Coord) -> u64,
    distance: spec_fn(Coord, Coord) -> u64,
) -> spec_fn(int) -> Map<Seq<char>, Coord> {
    |f: int| filled(repo, source, files.take(f + 1), number, region, cell, distance).coords
}

/// Whatever the road files hold, for every way in them and every two points that follow
/// one another in it: if both have a name and a place, the road map has a road between
/// them, as long as the distance between the two places. It has no other road. The places
/// are those that are known once the points of the way's own file were read.
pub proof fn law_roads_are_the_pieces_of_ways(
    repo: RepoView,
    source: NodeSource,
    files: Seq<RoadFile>,
    number: spec_fn(Seq<char>) -> Option<i64>,
    region: spec_fn(Coord) -> bool,
    cell: spec_fn(Coord) -> u64,
    distance: spec_fn(Coord, Coord) -> u64,
)
    ensures
        ({
            let full = filled(repo, source, files, number, region, cell, distance);
            let places = places_after(repo, source, files, number, region, cell, distance);
            &&& forall|f: int, e: int, k: int, x: Seq<char>, y: Seq<char>, w: u64| #[trigger]
                file_joins(files, f, e, k, places, distance, x, y, w) ==> has_road(full, x, y, w)
            &&& forall|x: Seq<char>, y: Seq<char>, w: u64| #[trigger]
                has_road(full, x, y, w) ==> exists|f: int, e: int, k: int| #[trigger]
                    file_joins(files, f, e, k, places, distance, x, y, w)
            &&& files.len() > 0 ==> places(files.len() - 1) == full.coords
        }),
{
    let full = filled(repo, source, files, number, region, cell, distance);
    let places = places_after(repo, source, files, number, region, cell, distance);
    let list = source_nodes(source, number, region, cell);
    let start = with_nodes(emptied(repo), list, list.len() as int);
    lemma_nodes_roads(emptied(repo), list, list.len() as int);
    assert forall|f: int| 0 <= f < files.len() implies #[trigger] places(f) == with_files(
        start,
        files,
        f + 1,
        region,
        distance,
    ).coords by {
        lemma_files_alike(start, files, files.take(f + 1), f + 1, region, distance);
    }
    lemma_files_roads(start, files, files.len() as int, region, distance, places);
    assert forall|x: Seq<char>, y: Seq<char>, w: u64| !#[trigger] has_road(start, x, y, w) by {
        assert(roads_from(start, x) =~= Seq::empty());
    }
    assert forall|f: int, e: int, k: int, x: Seq<char>, y: Seq<char>, w: u64| #[trigger]
        file_joins(files, f, e, k, places, distance, x, y, w) implies has_road(full, x, y, w) by {
        assert(0 <= f < files.len());
    }
    assert forall|x: Seq<char>, y: Seq<char>, w: u64| #[trigger]
        has_road(full, x, y, w) implies exists|f: int, e: int, k: int| #[trigger]
        file_joins(files, f, e, k, places, distance, x, y, w) by {
        let (f, e, k) = choose|f: int, e: int, k: int|
            f < files.len() && #[trigger] file_joins(files, f, e, k, places, distance, x, y, w);
        assert(file_joins(files, f, e, k, places, distance, x, y, w));
    }
}

/// A node of a source is the one that its entry names.
pub proof fn lemma_names_node(
    source: NodeSource,
    i: int,
    number: spec_fn(Seq<char>) -> Option<i64>,
    region: spec_fn(Coord) -> bool,
    cell: spec_fn(Coord) -> u64,
    node: RepoNodeView,
)
    ensures
        names_node(source, i, number, region, cell, node) <==> (0 <= i < source_nodes(
            source,
            number,
            region,
            cell,
        ).len() && source_nodes(source, number, region, cell)[i] == Some(node)),
{
    let list = source_nodes(source, number, region, cell);
    match source {
        NodeSource::Preview(entries) => {
            if 0 <= i < entries@.len() {
                if entries@[i].id is Some {
                    lemma_reads_as(entries@[i].id->0, node.id);
                    lemma_reads_as(entries@[i].id->0, text_or_empty(entries@[i].id));
                }
            }
        },
        NodeSource::Csv(lines) => {},
        NodeSource::Missing => {},
    }
}

/// The node that bears a name is the last of that name in the list.
proof fn lemma_last_node(repo: RepoView, list: Seq<Option<RepoNodeView>>, n: int, id: Seq<char>)
    requires
        0 <= n <= list.len(),
    ensures
        ({
            let next = with_nodes(repo, list, n);
            &&& (forall|i: int|
                0 <= i < n ==> (#[trigger] list[i] is Some ==> list[i]->0.id != id)) ==> {
                &&& next.nodes.contains_key(id) == repo.nodes.contains_key(id)
                &&& next.nodes[id] == repo.nodes[id]
                &&& next.coords.contains_key(id) == repo.coords.contains_key(id)
                &&& next.coords[id] == repo.coords[id]
            }
            &&& forall|i: int|
                0 <= i < n && #[trigger] list[i] is Some && list[i]->0.id == id && (forall|j: int|
                    i < j < n ==> (#[trigger] list[j] is Some ==> list[j]->0.id != id))
                    ==> next.nodes.contains_key(id) && next.nodes[id] == list[i]->0
                    && next.coords.contains_key(id) && next.coords[id] == list[i]->0.coord
        }),
    decreases n,
{
    if n > 0 {
        lemma_last_node(repo, list, n - 1, id);
    }
}

/// Entry `i` of a source is the last that names the node `node`.
pub open spec fn names_last(
    source: NodeSource,
    i: int,
    number: spec_fn(Seq<char>) -> Option<i64>,
    region: spec_fn(Coord) -> bool,
    cell: spec_fn(Coord) -> u64,
    node: RepoNodeView,
) -> bool {
    &&& names_node(source, i, number, region, cell, node)
    &&& forall|j: int, other: RepoNodeView|
        j > i && #[trigger] names_node(source, j, number, region, cell, other) ==> other.id
            != node.id
}

proof fn lemma_files_nodes(
    repo: RepoView,
    files: Seq<RoadFile>,
    n: int,
    region: spec_fn(Coord) -> bool,
    distance: spec_fn(Coord, Coord) -> u64,
)
    ensures
        with_files(repo, files, n, region, distance).nodes == repo.nodes,
    decreases n,
{
    if n > 0 {
        lemma_files_nodes(repo, files, n - 1, region, distance);
        let prior = with_files(repo, files, n - 1, region, distance);
        let elements = files[n - 1].elements@;
        lemma_points_roads(prior, elements, elements.len() as int, region);
        lemma_ways_nodes(
            with_points(prior, elements, elements.len() as int, region),
            elements,
            elements.len() as int,
            distance,
        );
    }
}

proof fn lemma_ways_nodes(
    repo: RepoView,
    elements: Seq<Element>,
    n: int,
    distance: spec_fn(Coord, Coord) -> u64,
)
    ensures
        with_ways(repo, elements, n, distance).nodes == repo.nodes,
    decreases n,
{
    if n > 0 {
        lemma_ways_nodes(repo, elements, n - 1, distance);
        let prior = with_ways(repo, elements, n - 1, distance);
        let nodes = elements[n - 1].nodes@;
        lemma_way_nodes(prior, nodes, nodes.len() - 1, distance);
    }
}

proof fn lemma_way_nodes(
    repo: RepoView,
    nodes: Seq<Scalar>,
    n: int,
    distance: spec_fn(Coord, Coord) -> u64,
)
    ensures
        with_way(repo, nodes, n, distance).nodes == repo.nodes,
    decreases n,
{
    if n > 0 {
        lemma_way_nodes(repo, nodes, n - 1, distance);
    }
}

/// The nodes of a road map are those that its source names in the region, whatever the road
/// files hold. Where a name occurs more than once, the last entry says what the node is.
pub proof fn law_nodes_are_those_of_the_source(
    repo: RepoView,
    source: NodeSource,
    files: Seq<RoadFile>,
    number: spec_fn(Seq<char>) -> Option<i64>,
    region: spec_fn(Coord) -> bool,
    cell: spec_fn(Coord) -> u64,
    distance: spec_fn(Coord, Coord) -> u64,
)
    ensures
        ({
            let full = filled(repo, source, files, number, region, cell, distance);
            &&& forall|i: int, node: RepoNodeView| #[trigger]
                names_node(source, i, number, region, cell, node) ==> full.nodes.contains_key(
                    node.id,
                )
            &&& forall|i: int, node: RepoNodeView| #[trigger]
                names_last(source, i, number, region, cell, node) ==> full.nodes[node.id] == node
            &&& forall|id: Seq<char>| #[trigger]
                full.nodes.contains_key(id) ==> exists|i: int, node: RepoNodeView|
                    node.id == id && #[trigger] names_node(source, i, number, region, cell, node)
        }),
{
    let full = filled(repo, source, files, number, region, cell, distance);
    let list = source_nodes(source, number, region, cell);
    let n = list.len() as int;
    let start = with_nodes(emptied(repo), list, n);
    lemma_files_nodes(start, files, files.len() as int, region, distance);
    assert forall|i: int, node: RepoNodeView| #[trigger]
        names_node(source, i, number, region, cell, node) implies full.nodes.contains_key(
        node.id,
    ) by {
        lemma_names_node(source, i, number, region, cell, node);
        let last = lemma_find_last(list, node.id, i);
        lemma_last_node(emptied(repo), list, n, node.id);
        assert(list[last] is Some);
    }
    assert forall|i: int, node: RepoNodeView| #[trigger]
        names_last(source, i, number, region, cell, node) implies full.nodes[node.id] == node by {
        lemma_names_node(source, i, number, region, cell, node);
        lemma_last_node(emptied(repo), list, n, node.id);
        assert forall|j: int| i < j < n && #[trigger] list[j] is Some implies list[j]->0.id
            != node.id by {
            lemma_names_node(source, j, number, region, cell, list[j]->0);
            assert(names_node(source, j, number, region, cell, list[j]->0));
        }
        assert(list[i] is Some);
    }
    assert forall|id: Seq<char>| #[trigger]
        full.nodes.contains_key(id) implies exists|i: int, node: RepoNodeView|
        node.id == id && #[trigger] names_node(source, i, number, region, cell, node) by {
        lemma_last_node(emptied(repo), list, n, id);
        let i = choose|i: int| 0 <= i < n && #[trigger] list[i] is Some && list[i]->0.id == id;
        lemma_names_node(source, i, number, region, cell, list[i]->0);
        assert(names_node(source, i, number, region, cell, list[i]->0));
    }
}

/// Finds the last node of a name in a list.
proof fn lemma_find_last(list: Seq<Option<RepoNodeView>>, id: Seq<char>, i: int) -> (last: int)
    requires
        0 <= i < list.len(),
        list[i] is Some,
        list[i]->0.id == id,
    ensures
        i <= last < list.len(),
        list[last] is Some,
        list[last]->0.id == id,
        forall|j: int|
            last < j < list.len() ==> (#[trigger] list[j] is Some ==> list[j]->0.id != id),
    decreases list.len() - i,
{
    if exists|j: int| i < j < list.len() && #[trigger] list[j] is Some && list[j]->0.id == id {
        let j = choose|j: int|
            i < j < list.len() && #[trigger] list[j] is Some && list[j]->0.id == id;
        lemma_find_last(list, id, j)
    } else {
        i
    }
}

/// Of a file's points, the last of a name says where it is.
proof fn lemma_points_places(
    repo: RepoView,
    files: Seq<RoadFile>,
    f: int,
    n: int,
    region: spec_fn(Coord) -> bool,
    name: Seq<char>,
)
    requires
        0 <= f < files.len(),
        0 <= n <= files[f].elements@.len(),
    ensures
        ({
            let next = with_points(repo, files[f].elements@, n, region);
            &&& (forall|e: int, at: Coord|
                e < n ==> !#[trigger] puts(files, f, e, region, name, at)) ==> {
                &&& next.coords.contains_key(name) == repo.coords.contains_key(name)
                &&& next.coords[name] == repo.coords[name]
            }
            &&& forall|e: int, at: Coord|
                e < n && #[trigger] puts(files, f, e, region, name, at)
                    ==> next.coords.contains_key(name)
            &&& forall|e: int, at: Coord|
                e < n && #[trigger] puts(files, f, e, region, name, at) && (forall|
                    j: int,
                    other: Coord,
                |
                    e < j < n ==> !#[trigger] puts(files, f, j, region, name, other))
                    ==> next.coords[name] == at
        }),
    decreases n,
{
    if n > 0 {
        lemma_points_places(repo, files, f, n - 1, region, name);
        let element = files[f].elements@[n - 1];
        let prior = with_points(repo, files[f].elements@, n - 1, region);
        let next = with_points(repo, files[f].elements@, n, region);
        if element.at is Some {
            let at = element.at->0;
            if puts(files, f, n - 1, region, name, at) {
                assert(next.coords == prior.coords.insert(name, at));
            } else {
                assert(next.coords.contains_key(name) == prior.coords.contains_key(name));
                assert(next.coords[name] == prior.coords[name]);
            }
        } else {
            assert(next == prior);
        }
    }
}

/// The point that element `e` of file `f` puts down is not put anywhere later.
pub open spec fn puts_last(
    files: Seq<RoadFile>,
    f: int,
    e: int,
    region: spec_fn(Coord) -> bool,
    name: Seq<char>,
    at: Coord,
) -> bool {
    &&& puts(files, f, e, region, name, at)
    &&& forall|g: int, j: int, other: Coord|
        g > f || (g == f && j > e) ==> !#[trigger] puts(files, g, j, region, name, other)
}

proof fn lemma_files_places(
    repo: RepoView,
    files: Seq<RoadFile>,
    n: int,
    region: spec_fn(Coord) -> bool,
    distance: spec_fn(Coord, Coord) -> u64,
    name: Seq<char>,
)
    requires
        0 <= n <= files.len(),
    ensures
        ({
            let next = with_files(repo, files, n, region, distance);
            &&& (forall|f: int, e: int, at: Coord|
                f < n ==> !#[trigger] puts(files, f, e, region, name, at)) ==> {
                &&& next.coords.contains_key(name) == repo.coords.contains_key(name)
                &&& next.coords[name] == repo.coords[name]
            }
            &&& repo.coords.contains_key(name) ==> next.coords.contains_key(name)
            &&& forall|f: int, e: int, at: Coord|
                f < n && #[trigger] puts(files, f, e, region, name, at)
                    ==> next.coords.contains_key(name)
            &&& forall|f: int, e: int, at: Coord|
                f < n && #[trigger] puts(files, f, e, region, name, at) && (forall|
                    g: int,
                    j: int,
                    other: Coord,
                |
                    g < n && (g > f || (g == f && j > e)) ==> !#[trigger] puts(
                        files,
                        g,
                        j,
                        region,
                        name,
                        other,
                    )) ==> next.coords[name] == at
        }),
    decreases n,
{
    if n > 0 {
        lemma_files_places(repo, files, n - 1, region, distance, name);
        let prior = with_files(repo, files, n - 1, region, distance);
        let next = with_files(repo, files, n, region, distance);
        let elements = files[n - 1].elements@;
        let points = with_points(prior, elements, elements.len() as int, region);
        lemma_points_places(prior, files, n - 1, elements.len() as int, region, name);
        lemma_file_roads(prior, elements, region, distance);
        assert(next.coords == points.coords);
        if exists|e: int, at: Coord| #[trigger] puts(files, n - 1, e, region, name, at) {
            let (e, at) = choose|e: int, at: Coord| #[trigger]
                puts(files, n - 1, e, region, name, at);
            assert(next.coords.contains_key(name));
            assert forall|f: int, d: int, there: Coord|
                f < n && #[trigger] puts(files, f, d, region, name, there) && (forall|
                    g: int,
                    j: int,
                    other: Coord,
                |
                    g < n && (g > f || (g == f && j > d)) ==> !#[trigger] puts(
                        files,
                        g,
                        j,
                        region,
                        name,
                        other,
                    )) implies next.coords[name] == there by {
                if f < n - 1 {
                    assert(puts(files, n - 1, e, region, name, at));
                }
            }
        }
    }
}

/// Every place of a road map is that of a node of the source or of a point that a road file
/// puts down in the region. Where a point is put down more than once, its last place
/// stands; where no road file puts it down, it lies where the source says.
pub proof fn law_places_are_those_of_nodes_and_points(
    repo: RepoView,
    source: NodeSource,
    files: Seq<RoadFile>,
    number: spec_fn(Seq<char>) -> Option<i64>,
    region: spec_fn(Coord) -> bool,
    cell: spec_fn(Coord) -> u64,
    distance: spec_fn(Coord, Coord) -> u64,
    name: Seq<char>,
)
    ensures
        ({
            let full = filled(repo, source, files, number, region, cell, distance);
            let put = exists|f: int, e: int, at: Coord| #[trigger]
                puts(files, f, e, region, name, at);
            &&& full.coords.contains_key(name) <==> put || full.nodes.contains_key(name)
            &&& !put && full.nodes.contains_key(name) ==> full.coords[name]
                == full.nodes[name].coord
            &&& forall|f: int, e: int, at: Coord| #[trigger]
                puts_last(files, f, e, region, name, at) ==> full.coords[name] == at
        }),
{
    let full = filled(repo, source, files, number, region, cell, distance);
    let list = source_nodes(source, number, region, cell);
    let n = list.len() as int;
    let start = with_nodes(emptied(repo), list, n);
    lemma_files_nodes(start, files, files.len() as int, region, distance);
    lemma_files_places(start, files, files.len() as int, region, distance, name);
    lemma_last_node(emptied(repo), list, n, name);
    if exists|i: int| 0 <= i < n && #[trigger] list[i] is Some && list[i]->0.id == name {
        let i = choose|i: int| 0 <= i < n && #[trigger] list[i] is Some && list[i]->0.id == name;
        let last = lemma_find_last(list, name, i);
        assert(list[last] is Some);
    } else {
        assert(!start.nodes.contains_key(name));
        assert(!start.coords.contains_key(name));
    }
    if full.coords.contains_key(name) && !full.nodes.contains_key(name) {
        let (f, e, at) = choose|f: int, e: int, at: Coord|
            f < files.len() && #[trigger] puts(files, f, e, region, name, at);
        assert(puts(files, f, e, region, name, at));
    }
    assert forall|f: int, e: int, at: Coord| #[trigger]
        puts(files, f, e, region, name, at) implies full.coords.contains_key(name) by {
        assert(f < files.len());
    }
    assert forall|f: int, e: int, at: Coord| #[trigger]
        puts_last(files, f, e, region, name, at) implies full.coords[name] == at by {
        assert(f < files.len() && puts(files, f, e, region, name, at));
    }
}

/// Where points are depends on what the elements say of points.
proof fn lemma_points_alike(
    repo: RepoView,
    elements: Seq<Element>,
    others: Seq<Element>,
    n: int,
    region: spec_fn(Coord) -> bool,
)
    requires
        forall|e: int|
            0 <= e < n ==> (#[trigger] elements[e]).kind@ == others[e].kind@ && elements[e].id
                == others[e].id && elements[e].at == others[e].at,
    ensures
        with_points(repo, elements, n, region) == with_points(repo, others, n, region),
    decreases n,
{
    if n > 0 {
        lemma_points_alike(repo, elements, others, n - 1, region);
        assert(elements[n - 1].kind@ == others[n - 1].kind@);
    }
}

proof fn lemma_ways_alike(
    repo: RepoView,
    elements: Seq<Element>,
    others: Seq<Element>,
    n: int,
    distance: spec_fn(Coord, Coord) -> u64,
)
    requires
        forall|e: int| 0 <= e < n ==> elements[e] == others[e],
    ensures
        with_ways(repo, elements, n, distance) == with_ways(repo, others, n, distance),
    decreases n,
{
    if n > 0 {
        lemma_ways_alike(repo, elements, others, n - 1, distance);
        assert(elements[n - 1] == others[n - 1]);
    }
}

proof fn lemma_way_alike(
    repo: RepoView,
    nodes: Seq<Scalar>,
    others: Seq<Scalar>,
    n: int,
    distance: spec_fn(Coord, Coord) -> u64,
)
    requires
        forall|k: int| 0 <= k <= n ==> nodes[k] == others[k],
    ensures
        with_way(repo, nodes, n, distance) == with_way(repo, others, n, distance),
    decreases n,
{
    if n > 0 {
        lemma_way_alike(repo, nodes, others, n - 1, distance);
        assert(nodes[n - 1] == others[n - 1]);
        assert(nodes[n] == others[n]);
    }
}

/// The last element of the last road file is a way, with one more point in `more` than
/// in `files`. In all else the files are the same.
pub open spec fn way_goes_on(files: Seq<RoadFile>, more: Seq<RoadFile>, z: Scalar) -> bool {
    let last = files.last().elements@;
    let longer = more.last().elements@;
    &&& files.len() == more.len() && files.len() > 0
    &&& files.drop_last() == more.drop_last()
    &&& last.len() == longer.len() && last.len() > 0
    &&& last.drop_last() == longer.drop_last()
    &&& last.last().kind@ == "way"@ && longer.last().kind@ == "way"@
    &&& last.last().id == longer.last().id && last.last().at == longer.last().at
    &&& longer.last().nodes@ == last.last().nodes@.push(z)
}

/// A way that goes on to one more point brings exactly one road more, there and back, after
/// those that were there: if the point and the one before it have a name and a place.
/// Otherwise it brings none. Nothing else changes.
pub proof fn law_one_more_point_is_one_more_road(
    repo: RepoView,
    source: NodeSource,
    files: Seq<RoadFile>,
    more: Seq<RoadFile>,
    z: Scalar,
    number: spec_fn(Seq<char>) -> Option<i64>,
    region: spec_fn(Coord) -> bool,
    cell: spec_fn(Coord) -> u64,
    distance: spec_fn(Coord, Coord) -> u64,
    a: Seq<char>,
    b: Seq<char>,
)
    requires
        way_goes_on(files, more, z),
        files.last().elements@.last().nodes@.len() > 0,
        reads_as(files.last().elements@.last().nodes@.last(), a),
        reads_as(z, b),
    ensures
        ({
            let full = filled(repo, source, files, number, region, cell, distance);
            let longer = filled(repo, source, more, number, region, cell, distance);
            let weight = distance(full.coords[a], full.coords[b]);
            let forth = EdgeView { to: b, weight };
            let back = EdgeView { to: a, weight };
            &&& longer == (RepoView { adjacency: longer.adjacency, ..full })
            &&& !(a.len() > 0 && b.len() > 0 && full.coords.contains_key(a)
                && full.coords.contains_key(b)) ==> longer == full
            &&& a.len() > 0 && b.len() > 0 && full.coords.contains_key(a)
                && full.coords.contains_key(b) ==> {
                &&& a != b ==> roads_from(longer, a) == roads_from(full, a).push(forth)
                &&& a != b ==> roads_from(longer, b) == roads_from(full, b).push(back)
                &&& a == b ==> roads_from(longer, a) == roads_from(full, a).push(forth).push(back)
                &&& forall|c: Seq<char>|
                    c != a && c != b ==> #[trigger] roads_from(longer, c) == roads_from(full, c)
            }
        }),
{
    let full = filled(repo, source, files, number, region, cell, distance);
    let longer = filled(repo, source, more, number, region, cell, distance);
    let list = source_nodes(source, number, region, cell);
    let start = with_nodes(emptied(repo), list, list.len() as int);
    let n = files.len() as int;
    assert forall|f: int| 0 <= f < n - 1 implies files[f] == more[f] by {
        assert(files.drop_last()[f] == more.drop_last()[f]);
    }
    lemma_files_alike(start, files, more, n - 1, region, distance);
    let prior = with_files(start, files, n - 1, region, distance);
    let elements = files.last().elements@;
    let others = more.last().elements@;
    let m = elements.len() as int;
    assert forall|e: int| 0 <= e < m - 1 implies elements[e] == others[e] by {
        assert(elements.drop_last()[e] == others.drop_last()[e]);
    }
    lemma_points_alike(prior, elements, others, m, region);
    let points = with_points(prior, elements, m, region);
    lemma_ways_alike(points, elements, others, m - 1, distance);
    let before = with_ways(points, elements, m - 1, distance);
    let nodes = elements.last().nodes@;
    let count = nodes.len() as int;
    lemma_way_alike(before, nodes, nodes.push(z), count - 1, distance);
    lemma_way_roads(before, nodes, count - 1, distance);
    assert(full == with_way(before, nodes, count - 1, distance));
    assert(longer == with_way(before, nodes.push(z), count, distance));
    assert(text_or_empty(Some(nodes.push(z)[count - 1])) == a);
    assert(text_or_empty(Some(nodes.push(z)[count])) == b);
    assert(longer == with_road(full, a, b, distance));
}

/// A way of fewer than two points brings no road, nor does an element of another kind, and
/// a road file without elements changes nothing.
pub proof fn law_what_brings_no_road(
    repo: RepoView,
    source: NodeSource,
    files: Seq<RoadFile>,
    file: RoadFile,
    number: spec_fn(Seq<char>) -> Option<i64>,
    region: spec_fn(Coord) -> bool,
    cell: spec_fn(Coord) -> u64,
    distance: spec_fn(Coord, Coord) -> u64,
)
    requires
        forall|e: int|
            0 <= e < file.elements@.len() ==> (#[trigger] file.elements@[e]).kind@ != "way"@
                || file.elements@[e].nodes@.len() < 2,
    ensures
        ({
            let full = filled(repo, source, files, number, region, cell, distance);
            let next = filled(repo, source, files.push(file), number, region, cell, distance);
            &&& next.adjacency == full.adjacency
            &&& next.nodes == full.nodes
            &&& file.elements@.len() == 0 ==> next == full
        }),
{
    let list = source_nodes(source, number, region, cell);
    let start = with_nodes(emptied(repo), list, list.len() as int);
    let n = files.len() as int;
    let full = with_files(start, files, n, region, distance);
    lemma_files_alike(start, files, files.push(file), n, region, distance);
    let elements = file.elements@;
    let m = elements.len() as int;
    lemma_points_roads(full, elements, m, region);
    lemma_no_ways(with_points(full, elements, m, region), elements, m, distance);
}

proof fn lemma_no_ways(
    repo: RepoView,
    elements: Seq<Element>,
    n: int,
    distance: spec_fn(Coord, Coord) -> u64,
)
    requires
        0 <= n <= elements.len(),
        forall|e: int|
            0 <= e < elements.len() ==> (#[trigger] elements[e]).kind@ != "way"@
                || elements[e].nodes@.len() < 2,
    ensures
        with_ways(repo, elements, n, distance) == repo,
    decreases n,
{
    if n > 0 {
        lemma_no_ways(repo, elements, n - 1, distance);
        assert(elements[n - 1].kind@ != "way"@ || elements[n - 1].nodes@.len() < 2);
    }
}

/// A road map is kept exactly if it need not be made anew and neither its source, nor the road
/// files, nor the region have changed. Then only the time is noted at which it was
/// looked at; else nothing changes yet.
pub proof fn law_when_a_map_is_kept(
    repo: RepoView,
    next: RepoView,
    source_mtime: int,
    cache_signature: Seq<char>,
    boundary_signature: Seq<char>,
    now: int,
    force: bool,
    kept: bool,
)
    requires
        kept_as_it_is(
            repo,
            next,
            source_mtime,
            cache_signature,
            boundary_signature,
            now,
            force,
            kept,
        ),
    ensures
        kept <==> !force && repo.source_mtime == source_mtime && repo.cache_signature
            == cache_signature && repo.boundary_signature == boundary_signature,
        kept ==> next == (RepoView { refreshed_at: now, ..repo }),
        !kept ==> next == repo,
{
}

/// A road map that was made anew has the nodes, roads and places that it was filled with, is one
/// version further, and notes what it was made from. Two of its nodes are in one component
/// exactly if roads lead from one to the other. It is kept when it is looked at again.
pub proof fn law_a_map_made_anew(
    repo: RepoView,
    next: RepoView,
    full: RepoView,
    names: Map<Seq<char>, Seq<char>>,
    source_mtime: int,
    cache_signature: Seq<char>,
    boundary_signature: Seq<char>,
    now: int,
    a: Seq<char>,
    b: Seq<char>,
    later: int,
    after: RepoView,
    kept: bool,
)
    requires
        remade(
            repo,
            next,
            full,
            names,
            source_mtime,
            cache_signature,
            boundary_signature,
            now,
        ),
    ensures
        next.nodes == full.nodes && next.node_keys == full.node_keys,
        next.adjacency == full.adjacency && next.coords == full.coords,
        next.graph_version == repo.graph_version + 1,
        next.display_names == names,
        next.refreshed_at == now,
        next.nodes.contains_key(a) <==> next.components.contains_key(a),
        next.nodes.contains_key(a) && next.nodes.contains_key(b) ==> (next.components[a]
            == next.components[b] <==> reachable(full, a, b)),
        kept_as_it_is(
            next,
            after,
            source_mtime,
            cache_signature,
            boundary_signature,
            later,
            false,
            kept,
        ) ==> kept && after.graph_version == next.graph_version,
{
    if next.nodes.contains_key(a) && next.nodes.contains_key(b) {
        assert(next.components.contains_key(a) && next.components.contains_key(b));
        assert(next.components[a] == next.components[b] <==> reachable(full, a, b));
    }
}

/// An emptied road map holds nothing, and is indexed at level 12 when it is filled.
pub proof fn law_an_emptied_map(repo: RepoView, k: Seq<char>)
    ensures
        ({
            let empty = emptied(repo);
            &&& !empty.nodes.contains_key(k) && !empty.adjacency.contains_key(k)
                && !empty.coords.contains_key(k) && !empty.components.contains_key(k)
            &&& empty.node_keys.len() == 0 && empty.coord_keys.len() == 0
            &&& !empty.neighbor_cache.contains_key(k) && !empty.route_cache.contains_key(k)
                && !empty.tile_cache.contains_key(k) && !empty.display_names.contains_key(k)
            &&& empty.sorted.len() == 0 && empty.level == 12
            &&& empty.graph_version == repo.graph_version
        }),
{
}

/// A road file is told from another by its name, its size and the time at which it was changed:
/// if any of them differs, so does what is noted of it.
pub proof fn law_files_are_told_apart(
    name: Seq<char>,
    size: nat,
    mtime: nat,
    other: Seq<char>,
    other_size: nat,
    other_mtime: nat,
)
    requires
        item_of(name, size, mtime) == item_of(other, other_size, other_mtime),
    ensures
        name == other,
        size == other_size,
        mtime == other_mtime,
{
    reveal_strlit(":");
    assert(":"@ =~= seq![':']);
    let mark = seq![':'];
    lemma_only_digits(size as int, ':');
    lemma_only_digits(mtime as int, ':');
    lemma_only_digits(other_size as int, ':');
    lemma_only_digits(other_mtime as int, ':');
    assert(item_of(name, size, mtime) =~= (name + mark + digits(size)) + mark + digits(mtime));
    assert(item_of(other, other_size, other_mtime) =~= (other + mark + digits(other_size)) + mark
        + digits(other_mtime));
    lemma_after_a_mark(
        name + mark + digits(size),
        digits(mtime),
        other + mark + digits(other_size),
        digits(other_mtime),
        ':',
    );
    lemma_after_a_mark(name, digits(size), other, digits(other_size), ':');
    lemma_digits_read(size);
    lemma_digits_read(mtime);
    lemma_digits_read(other_size);
    lemma_digits_read(other_mtime);
}

/// What is noted of the road files does not depend on the order in which they are found.
pub proof fn law_signatures_ignore_order(
    items: Seq<Seq<char>>,
    others: Seq<Seq<char>>,
    a: Seq<char>,
    b: Seq<char>,
)
    requires
        items.to_multiset() == others.to_multiset(),
        is_cache_signature(items, a),
        is_cache_signature(others, b),
    ensures
        a == b,
{
    let x = choose|sorted: Seq<Seq<char>>| #[trigger]
        sorted_texts(items, sorted) && a == joined(sorted, "|"@);
    let y = choose|sorted: Seq<Seq<char>>| #[trigger]
        sorted_texts(others, sorted) && b == joined(sorted, "|"@);
    assert(sorted_texts(items, y));
    law_there_is_one_sorted_list(items, x, y);
}

} // verus!
