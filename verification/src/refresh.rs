//! Bringing the road map up to date.
use std::collections::HashMap;
use vstd::prelude::*;
use vstd::string::StringExecFns;

use crate::boundary::{tells_crossing, BoundaryRepo};
use crate::cells::{build_s2_index, cell_indexed, indexes, S2_INDEX_LEVEL};
use crate::components::{label_components, right_components};
use crate::errors::Refusal;
use crate::geometry::{measures, metric, Coord};
use crate::loading::{
    celling, csv_nodes, load_preview, load_repo_nodes_from_csv, load_roads, preview_nodes, reading,
    reads_numbers, region_of, roads_sound, tells_cells, text_or_empty, with_edge, 
    with_files, with_node, with_nodes, with_place, with_points, with_road, with_way,
    with_ways, Element, PreviewNode, RoadFile,
};
use crate::production::roads_from;
use crate::repo::{EdgeView, NodeRepo, RepoNodeView, RepoView};
use crate::roads::{kept_neighbors_right, kept_routes_right, law_nothing_kept_is_right};
use crate::sorting::{sort_texts, sorted_texts};
use crate::state::texts;
use crate::table::Table;
use crate::text::{decimal, digits, join, joined, same_text};
use crate::walks::{has_road, mapped};

verus! {

/// Where the nodes come from.
pub enum NodeSource {
    Preview(Vec<PreviewNode>),
    Csv(Vec<String>),
    Missing,
}

impl NodeRepo {
    /// A road map that was never filled.
    pub fn new() -> (r: Self)
        ensures
            r@ == (RepoView {
                refreshed_at: 0,
                source_mtime: 0,
                cache_signature: Seq::empty(),
                boundary_signature: Seq::empty(),
                graph_version: 0,
                nodes: Map::empty(),
                node_keys: Seq::empty(),
                adjacency: Map::empty(),
                coords: Map::empty(),
                coord_keys: Seq::empty(),
                components: Map::empty(),
                neighbor_cache: Map::empty(),
                route_cache: Map::empty(),
                tile_cache: Map::empty(),
                sorted: Seq::empty(),
                ranges: Map::empty(),
                level: 0,
                display_names: Map::empty(),
            }),
    {
        broadcast use vstd::std_specs::hash::group_hash_axioms;

        let r = NodeRepo {
            refreshed_at: 0,
            preview_mtime_ms: 0,
            cache_signature: String::new(),
            boundary_signature: String::new(),
            graph_version: 0,
            nodes_by_id: Table::new(),
            adjacency: Table::new(),
            coords_by_id: Table::new(),
            connected_components: Table::new(),
            immediate_neighbor_cache: Table::new(),
            route_cache: Table::new(),
            tile_node_id_cache: Table::new(),
            s2_sorted_nodes: Vec::new(),
            s2_cell_ranges: HashMap::new(),
            s2_index_level: 0,
            display_names: Table::new(),
        };
        proof {
            assert(r@.sorted =~= Seq::<(u64, Seq<char>)>::empty());
        }
        r
    }
}

/// The road map emptied, ready to be filled.
pub open spec fn emptied(repo: RepoView) -> RepoView {
    RepoView {
        nodes: Map::empty(),
        node_keys: Seq::empty(),
        adjacency: Map::empty(),
        coords: Map::empty(),
        coord_keys: Seq::empty(),
        components: Map::empty(),
        neighbor_cache: Map::empty(),
        route_cache: Map::empty(),
        tile_cache: Map::empty(),
        sorted: Seq::empty(),
        ranges: Map::empty(),
        level: S2_INDEX_LEVEL,
        display_names: Map::empty(),
        ..repo
    }
}

/// Empties the road map.
pub fn clear_repo(repo: &mut NodeRepo)
    ensures
        final(repo)@ == emptied(old(repo)@),
{
    broadcast use vstd::std_specs::hash::group_hash_axioms;

    repo.nodes_by_id = Table::new();
    repo.adjacency = Table::new();
    repo.coords_by_id = Table::new();
    repo.connected_components = Table::new();
    repo.immediate_neighbor_cache = Table::new();
    repo.route_cache = Table::new();
    repo.tile_node_id_cache = Table::new();
    repo.s2_sorted_nodes = Vec::new();
    repo.s2_cell_ranges = HashMap::new();
    repo.s2_index_level = S2_INDEX_LEVEL;
    repo.display_names = Table::new();
    proof {
        assert(repo@.sorted =~= Seq::<(u64, Seq<char>)>::empty());
    }
}

/// By what a road file is told from an earlier one: its name, its size, and when it was
/// changed.
pub open spec fn item_of(name: Seq<char>, size: nat, mtime: nat) -> Seq<char> {
    name + ":"@ + digits(size) + ":"@ + digits(mtime)
}

/// By what a road file is told from an earlier one.
pub fn cache_item(name: &str, size: u64, mtime_ms: u128) -> (r: String)
    ensures
        r@ == item_of(name@, size as nat, mtime_ms as nat),
{
    let mut out = name.to_owned();
    out.append(":");
    out.append(decimal(size as u128).as_str());
    out.append(":");
    out.append(decimal(mtime_ms).as_str());
    out
}

/// By what the road files are told from earlier ones: their names, sizes and
/// times, in order.
pub open spec fn is_cache_signature(items: Seq<Seq<char>>, signature: Seq<char>) -> bool {
    exists|sorted: Seq<Seq<char>>| #[trigger]
        sorted_texts(items, sorted) && signature == joined(sorted, "|"@)
}

/// Makes a signature of the road files.
pub fn cache_signature(items: &Vec<String>) -> (r: String)
    ensures
        is_cache_signature(texts(items@), r@),
{
    let sorted = sort_texts(items);
    let r = join(&sorted, "|");
    proof {
        assert(sorted_texts(texts(items@), texts(sorted@)) && r@ == joined(
            texts(sorted@),
            "|"@,
        ));
    }
    r
}

/// Nothing that the road map is made from has changed.
pub open spec fn unchanged(
    repo: RepoView,
    source_mtime: int,
    cache_signature: Seq<char>,
    boundary_signature: Seq<char>,
) -> bool {
    &&& repo.source_mtime == source_mtime
    &&& repo.cache_signature == cache_signature
    &&& repo.boundary_signature == boundary_signature
}

/// What becomes of a road map that is looked at, and whether it is kept.
pub open spec fn kept_as_it_is(
    repo: RepoView,
    next: RepoView,
    source_mtime: int,
    cache_signature: Seq<char>,
    boundary_signature: Seq<char>,
    now: int,
    force: bool,
    kept: bool,
) -> bool {
    &&& kept == (!force && unchanged(repo, source_mtime, cache_signature, boundary_signature))
    &&& next == (if kept {
        RepoView { refreshed_at: now, ..repo }
    } else {
        repo
    })
}

/// When nothing has changed, notes that the road map was looked at. Whether that
/// is so.
pub fn keep_if_unchanged(
    repo: &mut NodeRepo,
    source_mtime_ms: i64,
    cache_signature: &str,
    boundary: &BoundaryRepo,
    now: i64,
    force: bool,
) -> (kept: bool)
    ensures
        kept_as_it_is(
            old(repo)@,
            final(repo)@,
            source_mtime_ms as int,
            cache_signature@,
            boundary.signature@,
            now as int,
            force,
            kept,
        ),
{
    if !force && repo.preview_mtime_ms == source_mtime_ms && same_text(
        repo.cache_signature.as_str(),
        cache_signature,
    ) && same_text(repo.boundary_signature.as_str(), boundary.signature.as_str()) {
        repo.refreshed_at = now;
        true
    } else {
        false
    }
}

/// The nodes that a source holds.
pub open spec fn source_nodes(
    source: NodeSource,
    number: spec_fn(Seq<char>) -> Option<i64>,
    region: spec_fn(Coord) -> bool,
    cell: spec_fn(Coord) -> u64,
) -> Seq<Option<RepoNodeView>> {
    match source {
        NodeSource::Preview(entries) => preview_nodes(entries@, region, cell),
        NodeSource::Csv(lines) => csv_nodes(lines@, number, region, cell),
        NodeSource::Missing => Seq::empty(),
    }
}

/// The road map with its nodes and roads.
pub open spec fn filled(
    repo: RepoView,
    source: NodeSource,
    files: Seq<RoadFile>,
    number: spec_fn(Seq<char>) -> Option<i64>,
    region: spec_fn(Coord) -> bool,
    cell: spec_fn(Coord) -> u64,
    distance: spec_fn(Coord, Coord) -> u64,
) -> RepoView {
    let list = source_nodes(source, number, region, cell);
    with_files(
        with_nodes(emptied(repo), list, list.len() as int),
        files,
        files.len() as int,
        region,
        distance,
    )
}

/// How many elements the first `n` road files hold.
pub open spec fn element_count(files: Seq<RoadFile>, n: int) -> nat
    decreases n,
{
    if n <= 0 {
        0
    } else {
        element_count(files, n - 1) + files[n - 1].elements@.len()
    }
}

/// How many entries a source holds.
pub open spec fn entry_count(source: NodeSource) -> nat {
    match source {
        NodeSource::Preview(entries) => entries@.len(),
        NodeSource::Csv(lines) => lines@.len(),
        NodeSource::Missing => 0,
    }
}

/// Every node has a place.
spec fn nodes_mapped(repo: RepoView) -> bool {
    forall|k: Seq<char>| #[trigger] repo.nodes.contains_key(k) ==> repo.coords.contains_key(k)
}

/// The road map is in order, with at most `n` places.
spec fn in_shape(repo: RepoView, n: nat) -> bool {
    nodes_mapped(repo) && roads_sound(repo) && repo.coord_keys.len() <= n
}

proof fn lemma_place_shape(repo: RepoView, id: Seq<char>, at: Coord, n: nat)
    requires
        in_shape(repo, n),
    ensures
        in_shape(with_place(repo, id, at), n + 1),
{
    let next = with_place(repo, id, at);
    assert forall|a: Seq<char>, b: Seq<char>, w: u64| #[trigger]
        has_road(next, a, b, w) implies next.coords.contains_key(a) && next.coords.contains_key(b)
        && has_road(next, b, a, w) by {
        assert(has_road(repo, a, b, w));
        assert(has_road(repo, b, a, w));
    }
}

proof fn lemma_nodes_shape(repo: RepoView, list: Seq<Option<RepoNodeView>>, n: int)
    requires
        in_shape(repo, 0),
        0 <= n <= list.len(),
    ensures
        in_shape(with_nodes(repo, list, n), n as nat),
        with_nodes(repo, list, n).adjacency == repo.adjacency,
    decreases n,
{
    if n > 0 {
        lemma_nodes_shape(repo, list, n - 1);
        let prior = with_nodes(repo, list, n - 1);
        if let Some(node) = list[n - 1] {
            let next = with_node(prior, node);
            assert forall|k: Seq<char>| #[trigger] next.nodes.contains_key(k) implies next.coords.contains_key(
                k,
            ) by {
                if k != node.id {
                    assert(prior.nodes.contains_key(k));
                }
            }
            assert forall|a: Seq<char>, b: Seq<char>, w: u64| #[trigger]
                has_road(next, a, b, w) implies next.coords.contains_key(a)
                && next.coords.contains_key(b) && has_road(next, b, a, w) by {
                assert(has_road(prior, a, b, w));
                assert(has_road(prior, b, a, w));
            }
        }
    }
}

proof fn lemma_points_shape(
    repo: RepoView,
    elements: Seq<Element>,
    n: int,
    region: spec_fn(Coord) -> bool,
    size: nat,
)
    requires
        in_shape(repo, size),
        0 <= n <= elements.len(),
    ensures
        in_shape(with_points(repo, elements, n, region), size + n as nat),
        with_points(repo, elements, n, region).nodes == repo.nodes,
        with_points(repo, elements, n, region).node_keys == repo.node_keys,
    decreases n,
{
    if n > 0 {
        lemma_points_shape(repo, elements, n - 1, region, size);
        let prior = with_points(repo, elements, n - 1, region);
        let element = elements[n - 1];
        if let (Some(at), Some(id)) = (element.at, element.id) {
            if let Some(name) = crate::json::scalar_text(id) {
                lemma_place_shape(prior, name, at, (size + n - 1) as nat);
            }
        }
    }
}

/// What roads there are once one is added.
pub proof fn lemma_edge(repo: RepoView, next: RepoView, a: Seq<char>, edge: EdgeView)
    requires
        next.adjacency == with_edge(repo.adjacency, a, edge),
    ensures
        forall|x: Seq<char>, y: Seq<char>, w: u64| #[trigger]
            has_road(next, x, y, w) <==> has_road(repo, x, y, w) || (x == a && y == edge.to && w
                == edge.weight),
{
    assert forall|x: Seq<char>, y: Seq<char>, w: u64| #[trigger]
        has_road(next, x, y, w) <==> has_road(repo, x, y, w) || (x == a && y == edge.to && w
            == edge.weight) by {
        let e = EdgeView { to: y, weight: w };
        if x == a {
            let old_list = roads_from(repo, a);
            let new_list = roads_from(next, a);
            assert(new_list =~= old_list.push(edge));
            if old_list.contains(e) {
                let i = old_list.index_of(e);
                assert(new_list[i] == e);
            }
            if e == edge {
                assert(new_list[old_list.len() as int] == e);
            }
            if new_list.contains(e) {
                let i = new_list.index_of(e);
                if i < old_list.len() {
                    assert(old_list[i] == e);
                }
            }
        } else {
            assert(roads_from(next, x) == roads_from(repo, x));
        }
    }
}

proof fn lemma_road_shape(
    repo: RepoView,
    a: Seq<char>,
    b: Seq<char>,
    distance: spec_fn(Coord, Coord) -> u64,
    size: nat,
)
    requires
        in_shape(repo, size),
    ensures
        in_shape(with_road(repo, a, b, distance), size),
        with_road(repo, a, b, distance).nodes == repo.nodes,
        with_road(repo, a, b, distance).node_keys == repo.node_keys,
{
    let next = with_road(repo, a, b, distance);
    if a.len() > 0 && b.len() > 0 && repo.coords.contains_key(a) && repo.coords.contains_key(b) {
        let weight = distance(repo.coords[a], repo.coords[b]);
        let mid = RepoView {
            adjacency: with_edge(repo.adjacency, a, EdgeView { to: b, weight }),
            ..repo
        };
        lemma_edge(repo, mid, a, EdgeView { to: b, weight });
        lemma_edge(mid, next, b, EdgeView { to: a, weight });
        assert forall|x: Seq<char>, y: Seq<char>, w: u64| #[trigger]
            has_road(next, x, y, w) implies next.coords.contains_key(x) && next.coords.contains_key(
            y,
        ) && has_road(next, y, x, w) by {
            assert(has_road(mid, x, y, w) || (x == b && y == a && w == weight));
            assert(has_road(mid, a, b, weight));
            if has_road(repo, x, y, w) {
                assert(has_road(repo, y, x, w));
                assert(has_road(mid, y, x, w));
            }
        }
    }
}

proof fn lemma_way_shape(
    repo: RepoView,
    nodes: Seq<crate::json::Scalar>,
    n: int,
    distance: spec_fn(Coord, Coord) -> u64,
    size: nat,
)
    requires
        in_shape(repo, size),
    ensures
        in_shape(with_way(repo, nodes, n, distance), size),
        with_way(repo, nodes, n, distance).nodes == repo.nodes,
        with_way(repo, nodes, n, distance).node_keys == repo.node_keys,
    decreases n,
{
    if n > 0 {
        lemma_way_shape(repo, nodes, n - 1, distance, size);
        lemma_road_shape(
            with_way(repo, nodes, n - 1, distance),
            text_or_empty(Some(nodes[n - 1])),
            text_or_empty(Some(nodes[n])),
            distance,
            size,
        );
    }
}

proof fn lemma_ways_shape(
    repo: RepoView,
    elements: Seq<Element>,
    n: int,
    distance: spec_fn(Coord, Coord) -> u64,
    size: nat,
)
    requires
        in_shape(repo, size),
    ensures
        in_shape(with_ways(repo, elements, n, distance), size),
        with_ways(repo, elements, n, distance).nodes == repo.nodes,
        with_ways(repo, elements, n, distance).node_keys == repo.node_keys,
    decreases n,
{
    if n > 0 {
        lemma_ways_shape(repo, elements, n - 1, distance, size);
        let prior = with_ways(repo, elements, n - 1, distance);
        let nodes = elements[n - 1].nodes@;
        lemma_way_shape(prior, nodes, nodes.len() - 1, distance, size);
    }
}

proof fn lemma_files_shape(
    repo: RepoView,
    files: Seq<RoadFile>,
    n: int,
    region: spec_fn(Coord) -> bool,
    distance: spec_fn(Coord, Coord) -> u64,
    size: nat,
)
    requires
        in_shape(repo, size),
        0 <= n <= files.len(),
    ensures
        in_shape(with_files(repo, files, n, region, distance), size + element_count(files, n)),
        with_files(repo, files, n, region, distance).nodes == repo.nodes,
        with_files(repo, files, n, region, distance).node_keys == repo.node_keys,
    decreases n,
{
    if n > 0 {
        lemma_files_shape(repo, files, n - 1, region, distance, size);
        let prior = with_files(repo, files, n - 1, region, distance);
        let elements = files[n - 1].elements@;
        let count = size + element_count(files, n - 1);
        lemma_points_shape(prior, elements, elements.len() as int, region, count);
        lemma_ways_shape(
            with_points(prior, elements, elements.len() as int, region),
            elements,
            elements.len() as int,
            distance,
            count + elements.len(),
        );
    }
}

/// A road map that was filled has a place for every node and every end of a road,
/// and all its roads lead both ways.
pub proof fn law_filled_map_is_sound(
    repo: RepoView,
    source: NodeSource,
    files: Seq<RoadFile>,
    number: spec_fn(Seq<char>) -> Option<i64>,
    region: spec_fn(Coord) -> bool,
    cell: spec_fn(Coord) -> u64,
    distance: spec_fn(Coord, Coord) -> u64,
)
    ensures
        mapped(filled(repo, source, files, number, region, cell, distance)),
        roads_sound(filled(repo, source, files, number, region, cell, distance)),
        filled(repo, source, files, number, region, cell, distance).coord_keys.len()
            <= entry_count(source) + element_count(files, files.len() as int),
{
    let list = source_nodes(source, number, region, cell);
    lemma_nodes_shape(emptied(repo), list, list.len() as int);
    lemma_files_shape(
        with_nodes(emptied(repo), list, list.len() as int),
        files,
        files.len() as int,
        region,
        distance,
        list.len(),
    );
    let full = filled(repo, source, files, number, region, cell, distance);
    assert forall|a: Seq<char>, b: Seq<char>, w: u64| #[trigger]
        has_road(full, a, b, w) implies full.coords.contains_key(b) by {
        assert(roads_sound(full));
    }
}

/// The road map after it was made anew.
pub open spec fn remade(
    repo: RepoView,
    next: RepoView,
    full: RepoView,
    names: Map<Seq<char>, Seq<char>>,
    source_mtime: int,
    cache_signature: Seq<char>,
    boundary_signature: Seq<char>,
    now: int,
) -> bool {
    let indexed = RepoView { sorted: next.sorted, ranges: next.ranges, ..full };
    &&& cell_indexed(full, indexed)
    &&& right_components(full, next.components)
    &&& next == (RepoView {
        components: next.components,
        display_names: names,
        source_mtime,
        cache_signature,
        boundary_signature,
        graph_version: repo.graph_version + 1,
        refreshed_at: now,
        ..indexed
    })
}

/// Makes the road map anew. Without a source of nodes it is left empty.
pub fn rebuild_node_repo<
    C: Fn(Coord, Coord, Coord) -> bool,
    K: Fn(Coord) -> u64,
    N: Fn(String) -> Option<i64>,
    F: Fn(Coord, Coord) -> u64,
>(
    repo: &mut NodeRepo,
    boundary: &BoundaryRepo,
    source: &NodeSource,
    files: &Vec<RoadFile>,
    names: Table<String>,
    source_mtime_ms: i64,
    cache_signature: String,
    now: i64,
    east: &C,
    cell_at: &K,
    number: &N,
    distance: &F,
) -> (r: Result<(), Refusal>)
    requires
        tells_crossing(*east),
        tells_cells(*cell_at),
        reads_numbers(*number),
        measures(*distance),
        old(repo)@.graph_version < i64::MAX,
        entry_count(*source) + element_count(files@, files@.len() as int) < i64::MAX,
    ensures
        if *source is Missing {
            r == Err::<(), Refusal>(Refusal::NoNodeSource) && final(repo)@ == emptied(old(repo)@)
        } else {
            r is Ok && remade(
                old(repo)@,
                final(repo)@,
                filled(
                    old(repo)@,
                    *source,
                    files@,
                    reading(*number),
                    region_of(*boundary, *east),
                    celling(*cell_at),
                    metric(*distance),
                ),
                names@,
                source_mtime_ms as int,
                cache_signature@,
                boundary.signature@,
                now as int,
            ) && mapped(final(repo)@)
        },
{
    let ghost before = repo@;
    clear_repo(repo);
    match source {
        NodeSource::Preview(entries) => {
            load_preview(repo, entries, boundary, east, cell_at);
        },
        NodeSource::Csv(lines) => {
            load_repo_nodes_from_csv(repo, lines, boundary, east, cell_at, number);
        },
        NodeSource::Missing => {
            return Err(Refusal::NoNodeSource);
        },
    }
    load_roads(repo, files, boundary, east, distance);
    let ghost full = repo@;
    proof {
        law_filled_map_is_sound(
            before,
            *source,
            files@,
            reading(*number),
            region_of(*boundary, *east),
            celling(*cell_at),
            metric(*distance),
        );
        assert(full == filled(
            before,
            *source,
            files@,
            reading(*number),
            region_of(*boundary, *east),
            celling(*cell_at),
            metric(*distance),
        ));
    }
    proof {
        lemma_fields(
            before,
            *source,
            files@,
            reading(*number),
            region_of(*boundary, *east),
            celling(*cell_at),
            metric(*distance),
        );
    }
    label_components(repo);
    build_s2_index(repo);
    repo.display_names = names;
    repo.preview_mtime_ms = source_mtime_ms;
    repo.cache_signature = cache_signature;
    repo.boundary_signature = boundary.signature.clone();
    repo.graph_version = repo.graph_version + 1;
    repo.refreshed_at = now;
    proof {
        assert forall|a: Seq<char>, b: Seq<char>, w: u64| #[trigger]
            has_road(repo@, a, b, w) implies repo@.coords.contains_key(b) by {
            assert(has_road(full, a, b, w));
        }
    }
    Ok(())
}

/// Besides nodes, roads and places, a road map is as it was.
spec fn keeps_rest(repo: RepoView, next: RepoView) -> bool {
    &&& next.graph_version == repo.graph_version
    &&& next.level == repo.level
    &&& next.neighbor_cache == repo.neighbor_cache
    &&& next.route_cache == repo.route_cache
    &&& next.tile_cache == repo.tile_cache
}

/// Filling a road map leaves alone what it is told by, and what is kept of it.
proof fn lemma_fields(
    repo: RepoView,
    source: NodeSource,
    files: Seq<RoadFile>,
    number: spec_fn(Seq<char>) -> Option<i64>,
    region: spec_fn(Coord) -> bool,
    cell: spec_fn(Coord) -> u64,
    distance: spec_fn(Coord, Coord) -> u64,
)
    ensures
        ({
            let full = filled(repo, source, files, number, region, cell, distance);
            keeps_rest(emptied(repo), full)
        }),
{
    let list = source_nodes(source, number, region, cell);
    lemma_nodes_fields(emptied(repo), list, list.len() as int);
    lemma_files_fields(
        with_nodes(emptied(repo), list, list.len() as int),
        files,
        files.len() as int,
        region,
        distance,
    );
}

proof fn lemma_nodes_fields(repo: RepoView, list: Seq<Option<RepoNodeView>>, n: int)
    ensures
        keeps_rest(repo, with_nodes(repo, list, n)),
    decreases n,
{
    if n > 0 {
        lemma_nodes_fields(repo, list, n - 1);
    }
}

proof fn lemma_files_fields(
    repo: RepoView,
    files: Seq<RoadFile>,
    n: int,
    region: spec_fn(Coord) -> bool,
    distance: spec_fn(Coord, Coord) -> u64,
)
    ensures
        keeps_rest(repo, with_files(repo, files, n, region, distance)),
    decreases n,
{
    if n > 0 {
        lemma_files_fields(repo, files, n - 1, region, distance);
        let prior = with_files(repo, files, n - 1, region, distance);
        let elements = files[n - 1].elements@;
        lemma_points_fields(prior, elements, elements.len() as int, region);
        lemma_ways_fields(
            with_points(prior, elements, elements.len() as int, region),
            elements,
            elements.len() as int,
            distance,
        );
    }
}

proof fn lemma_points_fields(
    repo: RepoView,
    elements: Seq<Element>,
    n: int,
    region: spec_fn(Coord) -> bool,
)
    ensures
        keeps_rest(repo, with_points(repo, elements, n, region)),
    decreases n,
{
    if n > 0 {
        lemma_points_fields(repo, elements, n - 1, region);
    }
}

proof fn lemma_ways_fields(
    repo: RepoView,
    elements: Seq<Element>,
    n: int,
    distance: spec_fn(Coord, Coord) -> u64,
)
    ensures
        keeps_rest(repo, with_ways(repo, elements, n, distance)),
    decreases n,
{
    if n > 0 {
        lemma_ways_fields(repo, elements, n - 1, distance);
        let nodes = elements[n - 1].nodes@;
        lemma_way_fields(
            with_ways(repo, elements, n - 1, distance),
            nodes,
            nodes.len() - 1,
            distance,
        );
    }
}

proof fn lemma_way_fields(
    repo: RepoView,
    nodes: Seq<crate::json::Scalar>,
    n: int,
    distance: spec_fn(Coord, Coord) -> u64,
)
    ensures
        keeps_rest(repo, with_way(repo, nodes, n, distance)),
    decreases n,
{
    if n > 0 {
        lemma_way_fields(repo, nodes, n - 1, distance);
    }
}

/// A road map that was made anew starts without any neighbours, ways or tiles kept from
/// an earlier one, so nothing that is kept of it is wrong.
pub proof fn law_new_map_starts_clean(
    repo: RepoView,
    next: RepoView,
    source: NodeSource,
    files: Seq<RoadFile>,
    number: spec_fn(Seq<char>) -> Option<i64>,
    region: spec_fn(Coord) -> bool,
    cell: spec_fn(Coord) -> u64,
    distance: spec_fn(Coord, Coord) -> u64,
    names: Map<Seq<char>, Seq<char>>,
    source_mtime: int,
    cache_signature: Seq<char>,
    boundary_signature: Seq<char>,
    now: int,
    plus: spec_fn(u64, u64) -> u64,
)
    requires
        remade(
            repo,
            next,
            filled(repo, source, files, number, region, cell, distance),
            names,
            source_mtime,
            cache_signature,
            boundary_signature,
            now,
        ),
    ensures
        next.tile_cache == Map::<Seq<char>, Seq<Seq<char>>>::empty(),
        kept_neighbors_right(next, plus),
        kept_routes_right(next),
        indexes(next.ranges, next.sorted, next.level as nat),
{
    lemma_fields(repo, source, files, number, region, cell, distance);
    law_nothing_kept_is_right(next, plus);
}

} // verus!
