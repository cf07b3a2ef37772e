//! What holds of a region that is prepared.
use vstd::prelude::*;

use crate::geometry::Coord;
use crate::loading::{csv_nodes, Element, RoadFile};
use crate::map_laws::{lemma_names_node, names_node};
use crate::prepare::{
    along_curve, along_curve_by, anywhere, cell_order, done, generated, metadata_merged,
    metadata_of, noted, points_in_all, prepared, roads_in, roads_in_files, rows_below, those,
};
use crate::refresh::NodeSource;
use crate::repo::RepoNodeView;
use crate::sorting::precedes;
use crate::text::digits;

verus! {

/// The nodes of an intersections file are those that its rows name, each with its place and its
/// degree, and in the order of the rows.
pub proof fn law_intersections_are_the_rows(
    lines: Vec<String>,
    number: spec_fn(Seq<char>) -> Option<i64>,
    cell: spec_fn(Coord) -> u64,
    node: RepoNodeView,
)
    ensures
        those(csv_nodes(lines@, number, anywhere(), cell)).contains(node) <==> exists|i: int|
            #[trigger] names_node(NodeSource::Csv(lines), i, number, anywhere(), cell, node),
{
    let list = csv_nodes(lines@, number, anywhere(), cell);
    let source = NodeSource::Csv(lines);
    lemma_those(list, node);
    if exists|i: int| 0 <= i < list.len() && #[trigger] list[i] == Some(node) {
        let i = choose|i: int| 0 <= i < list.len() && #[trigger] list[i] == Some(node);
        lemma_names_node(source, i, number, anywhere(), cell, node);
        assert(names_node(source, i, number, anywhere(), cell, node));
    }
    if exists|i: int| #[trigger] names_node(source, i, number, anywhere(), cell, node) {
        let i = choose|i: int| #[trigger]
            names_node(source, i, number, anywhere(), cell, node);
        lemma_names_node(source, i, number, anywhere(), cell, node);
        assert(list[i] == Some(node));
    }
}

proof fn lemma_those(list: Seq<Option<RepoNodeView>>, node: RepoNodeView)
    ensures
        those(list).contains(node) <==> exists|i: int|
            0 <= i < list.len() && #[trigger] list[i] == Some(node),
    decreases list.len(),
{
    if list.len() > 0 {
        let front = list.drop_last();
        let n = list.len() - 1;
        lemma_those(front, node);
        if exists|i: int| 0 <= i < list.len() && #[trigger] list[i] == Some(node) {
            let i = choose|i: int| 0 <= i < list.len() && #[trigger] list[i] == Some(node);
            if i < n {
                assert(front[i] == Some(node));
                let j = those(front).index_of(node);
                assert(those(list)[j] == node);
            } else {
                assert(those(list)[those(front).len() as int] == node);
            }
        }
        if those(list).contains(node) {
            let j = those(list).index_of(node);
            if j < those(front).len() {
                assert(those(front)[j] == node);
                let i = choose|i: int| 0 <= i < front.len() && #[trigger] front[i] == Some(node);
                assert(list[i] == Some(node));
            } else {
                assert(list[n] == Some(node));
            }
        }
    }
}

/// One more that is there comes at the end; one that is not changes nothing.
pub proof fn law_those_that_are_there(
    list: Seq<Option<RepoNodeView>>,
    next: Option<RepoNodeView>,
)
    ensures
        those(Seq::empty()).len() == 0,
        next is Some ==> those(list.push(next)) == those(list).push(next->0),
        next is None ==> those(list.push(next)) == those(list),
{
    assert(list.push(next).drop_last() =~= list);
}

/// Nodes of one cell stay in the order in which they were.
pub proof fn law_nodes_of_a_cell_stay_in_order(
    nodes: Seq<RepoNodeView>,
    sorted: Seq<RepoNodeView>,
    i: int,
    j: int,
)
    requires
        along_curve(nodes, sorted),
        0 <= i < j < sorted.len(),
        sorted[i].cell == sorted[j].cell,
    ensures
        exists|a: int, b: int|
            0 <= a < b < nodes.len() && #[trigger] nodes[a] == sorted[i] && #[trigger] nodes[b]
                == sorted[j],
{
    let places = choose|places: Seq<usize>| #[trigger] along_curve_by(nodes, sorted, places);
    assert(precedes(cell_order(nodes), places[i], places[j]));
    assert(sorted[i] == nodes[places[i] as int] && sorted[j] == nodes[places[j] as int]);
}

/// A way of so many points counts for one road less; other elements count for none.
pub proof fn law_roads_are_counted(elements: Seq<Element>, next: Element)
    ensures
        ({
            let points = next.nodes@.len();
            let more = roads_in(elements.push(next)) - roads_in(elements);
            &&& roads_in(Seq::empty()) == 0
            &&& next.kind@ == "way"@ && points > 0 ==> more == points - 1
            &&& next.kind@ == "way"@ && points == 0 ==> more == 0
            &&& next.kind@ != "way"@ ==> more == 0
        }),
{
    assert(elements.push(next).drop_last() =~= elements);
}

/// The roads of files are those of each of them.
pub proof fn law_roads_of_files_are_counted(files: Seq<RoadFile>, next: RoadFile)
    ensures
        roads_in_files(Seq::empty()) == 0,
        roads_in_files(files.push(next)) == roads_in_files(files) + roads_in(next.elements@),
{
    assert(files.push(next).drop_last() =~= files);
}

/// A file of some lines has one row less, and an empty one none. What was noted of the number
/// of points goes before what is counted.
pub proof fn law_counts_of_points(lines: int, noted: Option<u64>, rows: Option<u64>)
    ensures
        lines >= 1 ==> rows_below(lines) + 1 == lines,
        lines <= 0 ==> rows_below(lines) == 0,
        noted is Some ==> points_in_all(noted, rows) == noted->0,
        noted is None && rows is Some ==> points_in_all(noted, rows) == rows->0,
        noted is None && rows is None ==> points_in_all(noted, rows) == 0,
{
}

/// The report on a region says how many points, cells and roads it has and how it is indexed;
/// it names the region and its states as they are known.
pub proof fn law_what_the_report_says(
    region: Map<Seq<char>, Seq<char>>,
    points: nat,
    cells: nat,
    edges: nat,
)
    ensures
        ({
            let report = metadata_of(region, points, cells, edges);
            &&& noted(report, "format"@) == Some("\"intersection_cache_v2\""@)
            &&& noted(report, "total_points"@) == Some(digits(points))
            &&& noted(report, "s2_cell_count"@) == Some(digits(cells))
            &&& noted(report, "edge_count"@) == Some(digits(edges))
            &&& noted(report, "s2_index_level"@) == Some(digits(12))
            &&& noted(report, "query_tiles"@) == Some("1"@)
            &&& noted(report, "intersections_csv"@) == Some("\"intersections.csv\""@)
            &&& noted(report, "indexing_method"@) == Some("\"s2_hilbert\""@)
            &&& region.contains_key("id"@) ==> noted(report, "region_id"@) == Some(region["id"@])
            &&& !region.contains_key("id"@) ==> noted(report, "region_id"@) == Some(
                "\"unknown_region\""@,
            )
            &&& region.contains_key("name"@) ==> noted(report, "region_name"@) == Some(
                region["name"@],
            )
            &&& !region.contains_key("name"@) ==> noted(report, "region_name"@) == Some(
                "\"Unknown Region\""@,
            )
            &&& region.contains_key("states"@) ==> noted(report, "states"@) == Some(
                region["states"@],
            )
            &&& !region.contains_key("states"@) ==> noted(report, "states"@) == Some("[]"@)
        }),
{
    reveal_strlit("format");
    reveal_strlit("total_points");
    reveal_strlit("region_id");
    reveal_strlit("region_name");
    reveal_strlit("states");
    reveal_strlit("query_tiles");
    reveal_strlit("intersections_csv");
    reveal_strlit("indexing_method");
    reveal_strlit("s2_index_level");
    reveal_strlit("s2_cell_count");
    reveal_strlit("edge_count");
    assert("format"@.len() == 6);
    assert("total_points"@.len() == 12);
    assert("region_id"@.len() == 9);
    assert("region_name"@.len() == 11);
    assert("states"@.len() == 6);
    assert("query_tiles"@.len() == 11);
    assert("intersections_csv"@.len() == 17);
    assert("indexing_method"@.len() == 15);
    assert("s2_index_level"@.len() == 14);
    assert("s2_cell_count"@.len() == 13);
    assert("edge_count"@.len() == 10);
    assert("format"@[0] != "states"@[0]);
    assert("region_name"@[0] != "query_tiles"@[0]);
}

/// A report that is brought up to date says anew how many points and tiles there are and what
/// the region is called. What else it said, it still says.
pub proof fn law_what_a_renewed_report_says(
    existing: Map<Seq<char>, Seq<char>>,
    region: Map<Seq<char>, Seq<char>>,
    points: nat,
    tiles: nat,
    field: Seq<char>,
)
    ensures
        ({
            let report = metadata_merged(existing, region, points, tiles);
            &&& noted(report, "total_points"@) == Some(digits(points))
            &&& noted(report, "query_tiles"@) == Some(digits(tiles))
            &&& existing.contains_key("format"@) ==> noted(report, "format"@) == Some(
                existing["format"@],
            )
            &&& !existing.contains_key("format"@) ==> noted(report, "format"@) == Some(
                "\"intersection_cache_v2\""@,
            )
            &&& region.contains_key("id"@) ==> noted(report, "region_id"@) == Some(region["id"@])
            &&& region.contains_key("name"@) ==> noted(report, "region_name"@) == Some(
                region["name"@],
            )
            &&& region.contains_key("states"@) ==> noted(report, "states"@) == Some(
                region["states"@],
            )
            &&& field != "format"@ && field != "total_points"@ && field != "region_id"@ && field
                != "region_name"@ && field != "states"@ && field != "query_tiles"@ && field
                != "intersections_csv"@ ==> noted(report, field) == noted(existing, field)
        }),
{
    reveal_strlit("format");
    reveal_strlit("total_points");
    reveal_strlit("region_id");
    reveal_strlit("region_name");
    reveal_strlit("states");
    reveal_strlit("query_tiles");
    reveal_strlit("intersections_csv");
    assert("format"@.len() == 6);
    assert("total_points"@.len() == 12);
    assert("region_id"@.len() == 9);
    assert("region_name"@.len() == 11);
    assert("states"@.len() == 6);
    assert("query_tiles"@.len() == 11);
    assert("intersections_csv"@.len() == 17);
    assert("format"@[0] != "states"@[0]);
    assert("region_name"@[0] != "query_tiles"@[0]);
}

/// The progress of a region that is done says so: all its nodes are there, and so many roads
/// and tiles.
pub proof fn law_what_the_progress_says(
    source: Map<Seq<char>, Seq<char>>,
    id: Seq<char>,
    name: Seq<char>,
    points: nat,
    tiles: nat,
    edges: nat,
)
    ensures
        ({
            let report = done(source, id, name, points, tiles, edges);
            &&& noted(report, "phase"@) == Some("\"complete\""@)
            &&& noted(report, "current"@) == Some(digits(points))
            &&& noted(report, "total"@) == Some(digits(points))
            &&& noted(report, "node_count"@) == Some(digits(points))
            &&& noted(report, "edge_count"@) == Some(digits(edges))
            &&& noted(report, "cached_tiles"@) == Some(digits(tiles))
            &&& noted(report, "progress_kind"@) == Some("\"nodes\""@)
            &&& noted(report, "progress_nodes_current"@) == Some(digits(points))
            &&& noted(report, "progress_nodes_total"@) == Some(digits(points))
            &&& source.contains_key(id) ==> noted(report, "region_id"@) == Some(source[id])
            &&& !source.contains_key(id) ==> noted(report, "region_id"@) == Some("\"unknown\""@)
            &&& source.contains_key(name) ==> noted(report, "region_name"@) == Some(source[name])
            &&& !source.contains_key(name) ==> noted(report, "region_name"@) == Some(
                "\"Unknown Region\""@,
            )
            &&& source.contains_key("states"@) ==> noted(report, "states"@) == Some(
                source["states"@],
            )
            &&& !source.contains_key("states"@) ==> noted(report, "states"@) == Some("[]"@)
            &&& noted(report, "message"@) is None && noted(report, "indexing_method"@) is None
                && noted(report, "s2_index_level"@) is None
        }),
{
    reveal_strlit("phase");
    reveal_strlit("region_id");
    reveal_strlit("region_name");
    reveal_strlit("states");
    reveal_strlit("current");
    reveal_strlit("total");
    reveal_strlit("cached_tiles");
    reveal_strlit("node_count");
    reveal_strlit("edge_count");
    reveal_strlit("progress_kind");
    reveal_strlit("progress_nodes_current");
    reveal_strlit("progress_nodes_total");
    reveal_strlit("indexing_method");
    reveal_strlit("s2_index_level");
    reveal_strlit("message");
    assert("phase"@.len() == 5);
    assert("region_id"@.len() == 9);
    assert("region_name"@.len() == 11);
    assert("states"@.len() == 6);
    assert("current"@.len() == 7);
    assert("total"@.len() == 5);
    assert("cached_tiles"@.len() == 12);
    assert("node_count"@.len() == 10);
    assert("edge_count"@.len() == 10);
    assert("progress_kind"@.len() == 13);
    assert("progress_nodes_current"@.len() == 22);
    assert("progress_nodes_total"@.len() == 20);
    assert("indexing_method"@.len() == 15);
    assert("s2_index_level"@.len() == 14);
    assert("message"@.len() == 7);
    assert("phase"@[0] != "total"@[0]);
    assert("node_count"@[0] != "edge_count"@[0]);
    assert("current"@[0] != "message"@[0]);
}

/// The progress of a region whose intersections were sorted, or that was prepared, says besides
/// how its nodes are indexed, in a message too. Of a prepared region that is what was noted
/// of its progress before, or else in the report on it.
pub proof fn law_what_else_the_progress_says(
    region: Map<Seq<char>, Seq<char>>,
    status: Map<Seq<char>, Seq<char>>,
    metadata: Map<Seq<char>, Seq<char>>,
    points: nat,
    tiles: nat,
    edges: nat,
    field: Seq<char>,
)
    ensures
        ({
            let sorted = generated(region, points, tiles, edges);
            let ready = prepared(region, status, metadata, points, tiles, edges);
            let other = field != "message"@ && field != "indexing_method"@ && field
                != "s2_index_level"@;
            &&& noted(sorted, "indexing_method"@) == Some("\"s2_hilbert\""@)
            &&& noted(sorted, "s2_index_level"@) == Some(digits(12))
            &&& noted(sorted, "message"@) == Some(
                "\""@ + ("Re-sorted "@ + digits(points)
                    + " intersections using S2 Hilbert curve."@) + "\""@,
            )
            &&& other ==> noted(sorted, field) == noted(
                done(region, "id"@, "name"@, points, tiles, edges),
                field,
            )
            &&& other ==> noted(ready, field) == noted(
                done(region, "region_id"@, "region_name"@, points, tiles, edges),
                field,
            )
            &&& status.contains_key("s2_index_level"@) ==> noted(ready, "s2_index_level"@) == Some(
                status["s2_index_level"@],
            )
            &&& !status.contains_key("s2_index_level"@) && metadata.contains_key(
                "s2_index_level"@,
            ) ==> noted(ready, "s2_index_level"@) == Some(metadata["s2_index_level"@])
            &&& status.contains_key("indexing_method"@) && status["indexing_method"@]
                == "\"s2_hilbert\""@ ==> {
                &&& noted(ready, "indexing_method"@) == Some("\"s2_hilbert\""@)
                &&& noted(ready, "message"@) == Some(
                    "\""@ + ("Prepared S2/Hilbert-sorted node dataset with "@ + digits(points)
                        + " nodes."@) + "\""@,
                )
            }
            &&& !status.contains_key("indexing_method"@) && !metadata.contains_key(
                "indexing_method"@,
            ) ==> {
                &&& noted(ready, "indexing_method"@) == Some("\"web_mercator_tile_grid\""@)
                &&& noted(ready, "message"@) == Some(
                    "\""@ + ("Prepared node dataset cached with "@ + digits(points) + " nodes."@)
                        + "\""@,
                )
            }
        }),
{
    reveal_strlit("message");
    reveal_strlit("indexing_method");
    reveal_strlit("s2_index_level");
    assert("message"@.len() == 7);
    assert("indexing_method"@.len() == 15);
    assert("s2_index_level"@.len() == 14);

    law_what_the_progress_says(region, "id"@, "name"@, points, tiles, edges);
    law_what_the_progress_says(region, "region_id"@, "region_name"@, points, tiles, edges);
    reveal_strlit("\"");
    reveal_strlit("\"s2_hilbert\"");
    reveal_strlit("\"web_mercator_tile_grid\"");
    assert("\"s2_hilbert\""@.len() == 12 && "\"web_mercator_tile_grid\""@.len() == 24);
    assert("\"s2_hilbert\""@.take(1) =~= "\""@);
    assert("\"web_mercator_tile_grid\""@.take(1) =~= "\""@);
}

} // verus!
