//! What holds of tiles and of the index of nodes by cell.
use vstd::arithmetic::power2::pow2;
use vstd::prelude::*;

use crate::cells::{cell_around, cell_indexed, spans};
use crate::errors::{Failure, FailureView, Refusal};
use crate::geometry::{rank_of, within, Bounds, Coord};
use crate::repo::RepoView;
use crate::state::{texts, walks};
use crate::text::signed_digits;
use crate::text_laws::{
    law_numbers_are_read_as_written, lemma_before_a_mark, lemma_only_digits,
};
use crate::tiles::{common, in_tile, overlap, tile_key, tile_outcome};

verus! {

/// What lies in the common part of two boxes lies in both, and the other way round.
pub proof fn law_what_is_common(a: Bounds, b: Bounds, at: Coord)
    ensures
        within(common(a, b), at) <==> within(a, at) && within(b, at),
        within(a, at) && within(b, at) ==> overlap(a, b),
{
}

/// Two boxes overlap exactly if the corner of their common part lies in both.
pub proof fn law_when_boxes_overlap(a: Bounds, b: Bounds)
    requires
        rank_of(a.west) <= rank_of(a.east) && rank_of(a.south) <= rank_of(a.north),
        rank_of(b.west) <= rank_of(b.east) && rank_of(b.south) <= rank_of(b.north),
    ensures
        overlap(a, b) <==> {
            let corner = Coord { lat: common(a, b).south, lon: common(a, b).west };
            within(a, corner) && within(b, corner)
        },
        overlap(a, b) == overlap(b, a),
{
}

/// A place lies in a tile if it lies in its box but not on its eastern edge, which belongs to
/// the next tile.
pub proof fn law_edges_of_tiles(bounds: Bounds, at: Coord)
    ensures
        in_tile(bounds, at) <==> within(bounds, at) && rank_of(at.lon) != rank_of(bounds.east),
{
}

/// There are as many tiles along a side as two to the power of the zoom. Of any other tile
/// nothing is shown. What is kept of a tile is shown as it is; a tile off the region
/// shows nothing; else what was worked out is shown and kept.
pub proof fn law_when_a_tile_is_shown(
    repo: RepoView,
    next: RepoView,
    region: Option<Bounds>,
    zoom: int,
    x: int,
    y: int,
    bounds: Bounds,
    meets: spec_fn(Bounds) -> spec_fn(u64) -> bool,
    r: Result<Vec<String>, Failure>,
)
    requires
        tile_outcome(repo, next, region, zoom, x, y, bounds, meets, r),
    ensures
        ({
            let on_map = 0 <= x < pow2(zoom as nat) && 0 <= y < pow2(zoom as nat);
            let key = tile_key(repo.graph_version, zoom, x, y);
            let kept = repo.tile_cache.contains_key(key);
            let off = region is Some && !overlap(bounds, region->0);
            &&& !on_map ==> r is Err && r->Err_0@ == FailureView::Refused(Refusal::InvalidTile)
                && next == repo
            &&& on_map && kept ==> r is Ok && texts(r->Ok_0@) == repo.tile_cache[key] && next
                == repo
            &&& on_map && !kept && off ==> r is Ok && r->Ok_0@.len() == 0 && next == repo
            &&& on_map && !kept && !off && r is Ok ==> next.tile_cache.contains_key(key)
                && next.tile_cache[key] == texts(r->Ok_0@)
            &&& next == (RepoView { tile_cache: next.tile_cache, ..repo })
            &&& r is Err && on_map ==> (r->Err_0@ matches FailureView::IndexBroken { node }
                && !repo.nodes.contains_key(node))
        }),
{
    if r is Ok {
        assert(texts(r->Ok_0@).len() == r->Ok_0@.len());
    }
    let ids = crate::tiles::cell_ids(
        crate::tiles::tile_cells(bounds, region, repo.level as nat, meets),
        repo,
    );
    crate::missiles::lemma_first_key_found(ids, |id: Seq<char>| !repo.nodes.contains_key(id));
}

/// A tile that was worked out is shown the same when it is asked for again.
pub proof fn law_a_tile_is_shown_again(
    repo: RepoView,
    next: RepoView,
    after: RepoView,
    region: Option<Bounds>,
    zoom: int,
    x: int,
    y: int,
    bounds: Bounds,
    meets: spec_fn(Bounds) -> spec_fn(u64) -> bool,
    r: Result<Vec<String>, Failure>,
    again: Result<Vec<String>, Failure>,
)
    requires
        tile_outcome(repo, next, region, zoom, x, y, bounds, meets, r),
        tile_outcome(next, after, region, zoom, x, y, bounds, meets, again),
        r is Ok,
    ensures
        again is Ok,
        texts(again->Ok_0@) == texts(r->Ok_0@),
        after == next,
{
}

/// Each tile is kept apart from all others, and apart from the tiles of other road maps.
pub proof fn law_tiles_are_kept_apart(
    version: i64,
    zoom: i64,
    x: i64,
    y: i64,
    other_version: i64,
    other_zoom: i64,
    other_x: i64,
    other_y: i64,
)
    requires
        tile_key(version as int, zoom as int, x as int, y as int) == tile_key(
            other_version as int,
            other_zoom as int,
            other_x as int,
            other_y as int,
        ),
    ensures
        version == other_version,
        zoom == other_zoom,
        x == other_x,
        y == other_y,
{
    reveal_strlit(":");
    assert(":"@ =~= seq![':']);
    let mark = seq![':'];
    let a = (
        signed_digits(version as int),
        signed_digits(zoom as int),
        signed_digits(x as int),
        signed_digits(y as int),
    );
    let b = (
        signed_digits(other_version as int),
        signed_digits(other_zoom as int),
        signed_digits(other_x as int),
        signed_digits(other_y as int),
    );
    lemma_only_digits(version as int, ':');
    lemma_only_digits(zoom as int, ':');
    lemma_only_digits(x as int, ':');
    lemma_only_digits(other_version as int, ':');
    lemma_only_digits(other_zoom as int, ':');
    lemma_only_digits(other_x as int, ':');
    let tail = a.1 + mark + (a.2 + mark + a.3);
    let other = b.1 + mark + (b.2 + mark + b.3);
    assert(tile_key(version as int, zoom as int, x as int, y as int) =~= a.0 + mark + tail);
    assert(tile_key(
        other_version as int,
        other_zoom as int,
        other_x as int,
        other_y as int,
    ) =~= b.0 + mark + other);
    lemma_before_a_mark(a.0, tail, b.0, other, ':');
    lemma_before_a_mark(a.1, a.2 + mark + a.3, b.1, b.2 + mark + b.3, ':');
    lemma_before_a_mark(a.2, a.3, b.2, b.3, ':');
    law_numbers_are_read_as_written(version);
    law_numbers_are_read_as_written(zoom);
    law_numbers_are_read_as_written(x);
    law_numbers_are_read_as_written(y);
    law_numbers_are_read_as_written(other_version);
    law_numbers_are_read_as_written(other_zoom);
    law_numbers_are_read_as_written(other_x);
    law_numbers_are_read_as_written(other_y);
}

/// An entry of the index is that of some node.
pub open spec fn stands_for_node(repo: RepoView, entry: (u64, Seq<char>)) -> bool {
    exists|k: Seq<char>| #[trigger]
        repo.nodes.contains_key(k) && entry == (repo.nodes[k].cell, repo.nodes[k].id)
}

/// Every node of an indexed road map stands in the index, in the range of the cell around it,
/// and nothing stands there but nodes.
pub proof fn law_every_node_is_indexed(repo: RepoView, next: RepoView, node: Seq<char>)
    requires
        cell_indexed(repo, next),
        walks(repo.node_keys, repo.nodes),
        repo.nodes.contains_key(node),
        1 <= repo.level <= 30,
    ensures
        exists|i: int, cell: u64|
            0 <= i < next.sorted.len() && #[trigger] next.sorted[i] == (
                repo.nodes[node].cell,
                repo.nodes[node].id,
            ) && cell == cell_around(repo.nodes[node].cell, repo.level as nat)
                && #[trigger] next.ranges.contains_key(cell) && next.ranges[cell].0 <= i
                <= next.ranges[cell].1,
        forall|i: int|
            0 <= i < next.sorted.len() ==> stands_for_node(repo, #[trigger] next.sorted[i]),
        next.sorted.len() == repo.node_keys.len(),
{
    broadcast use vstd::seq_lib::group_to_multiset_ensures;

    let list = crate::cells::node_entries(repo.node_keys, repo.nodes);
    let sorted = next.sorted;
    let entry = (repo.nodes[node].cell, repo.nodes[node].id);
    let at = repo.node_keys.index_of(node);
    assert(list[at] == entry);
    assert(list.contains(entry));
    assert(sorted.to_multiset().count(entry) == list.to_multiset().count(entry));
    assert(sorted.contains(entry));
    let i = sorted.index_of(entry);
    let level = repo.level as nat;
    let cell = choose|cell: u64|
        cell == cell_around(sorted[i].0, level) && #[trigger] next.ranges.contains_key(cell);
    assert(spans(next.ranges[cell], cell, sorted, level));
    assert(sorted[i] == entry);
    assert forall|i: int| 0 <= i < sorted.len() implies stands_for_node(
        repo,
        #[trigger] sorted[i],
    ) by {
        assert(sorted.contains(sorted[i]));
        assert(sorted.to_multiset().count(sorted[i]) == list.to_multiset().count(sorted[i]));
        assert(list.contains(sorted[i]));
        let j = list.index_of(sorted[i]);
        assert(repo.node_keys.contains(repo.node_keys[j]));
        assert(repo.nodes.contains_key(repo.node_keys[j]));
    }
    assert(sorted.to_multiset().len() == sorted.len() && list.to_multiset().len() == list.len());
}

} // verus!
