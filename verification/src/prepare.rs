//! Preparing the data of a region: intersections in the order of the curve, the index
//! of their cells, and the reports on what there is.
use s2::cellid::CellID;
use std::time::{Duration, SystemTimeError};
use vstd::arithmetic::power2::pow2;
use vstd::prelude::*;
use vstd::string::StringExecFns;

use crate::cells::{
    at_level, cell_around, cell_ranges, half_extent, indexes, law_cells_around_keep_order,
    parent_cell, spans, S2_INDEX_LEVEL,
};
use crate::clock::{measured_ms, since_epoch_ms};
use crate::loading::{
    celling, csv_nodes, lemma_bytes, read_intersection, reading, reads_numbers, tells_cells,
    Element, RoadFile,
};
use crate::geometry::Coord;
use crate::passwords::hex_digit;
use crate::repo::{cell_entries, RepoNode, RepoNodeView};
use crate::sorting::{lemma_all_there, lemma_picked, precedes, sort_places, sorted_places};
use crate::state::{text_in, texts};
use crate::table::Table;
use crate::text::{begins_with, decimal, digits, same_text, starts_with};
use crate::web::{extension_of, find_extension};

verus! {

/// The sixteen hexadecimal digits of a number.
pub open spec fn hex_digits(n: u64) -> Seq<char> {
    Seq::new(
        16,
        |i: int| hex_digit(n as int / vstd::arithmetic::power::pow(16, (15 - i) as nat) % 16),
    )
}

/// A text without the zeros at its end.
pub open spec fn without_zeros(s: Seq<char>) -> Seq<char>
    decreases s.len(),
{
    if s.len() > 0 && s.last() == '0' {
        without_zeros(s.drop_last())
    } else {
        s
    }
}

/// The name of a cell: its digits without the zeros at the end.
pub open spec fn token_of(cell: u64) -> Seq<char> {
    if cell == 0 {
        "X"@
    } else {
        without_zeros(hex_digits(cell))
    }
}

/// `CellID::to_token`: the name of a cell.
#[verifier::external_body]
pub(crate) fn cell_token(cell: u64) -> (r: String)
    ensures
        r@ == token_of(cell),
{
    CellID(cell).to_token()
}

/// `CellID::range_min`: the first of the smallest cells inside a cell, for whichever
/// level it is at.
#[verifier::external_body]
pub(crate) fn first_leaf(cell: u64) -> (r: u64)
    requires
        exists|level: nat| at_level(cell, level),
    ensures
        forall|level: nat| #[trigger] at_level(cell, level) ==> r == cell - (half_extent(level) - 1),
{
    CellID(cell).range_min().0
}

/// `CellID::range_max`: the last of the smallest cells inside a cell, for whichever
/// level it is at.
#[verifier::external_body]
pub(crate) fn last_leaf(cell: u64) -> (r: u64)
    requires
        exists|level: nat| at_level(cell, level),
    ensures
        forall|level: nat| #[trigger] at_level(cell, level) ==> r == cell + (half_extent(level) - 1),
{
    CellID(cell).range_max().0
}

/// The views of some nodes.
pub open spec fn node_views(nodes: Seq<RepoNode>) -> Seq<RepoNodeView> {
    Seq::new(nodes.len(), |i: int| nodes[i]@)
}

/// Those nodes that are there.
pub open spec fn those(list: Seq<Option<RepoNodeView>>) -> Seq<RepoNodeView>
    decreases list.len(),
{
    if list.len() == 0 {
        Seq::empty()
    } else {
        match list.last() {
            Some(node) => those(list.drop_last()).push(node),
            None => those(list.drop_last()),
        }
    }
}

/// Every place on earth.
pub open spec fn anywhere() -> spec_fn(Coord) -> bool {
    |at: Coord| true
}

/// Reads the rows of an intersections file below its heading; rows without a name or
/// a place are left out.
pub fn read_intersections<K: Fn(Coord) -> u64, N: Fn(String) -> Option<i64>>(
    lines: &Vec<String>,
    cell_at: &K,
    number: &N,
) -> (r: Vec<RepoNode>)
    requires
        tells_cells(*cell_at),
        reads_numbers(*number),
    ensures
        node_views(r@) == those(
            csv_nodes(lines@, reading(*number), anywhere(), celling(*cell_at)),
        ),
{
    let ghost all = csv_nodes(lines@, reading(*number), anywhere(), celling(*cell_at));
    let mut out: Vec<RepoNode> = Vec::new();
    let mut i: usize = 0;
    proof {
        assert(node_views(out@) =~= those(all.take(0)));
    }
    while i < lines.len()
        invariant
            tells_cells(*cell_at),
            reads_numbers(*number),
            all == csv_nodes(lines@, reading(*number), anywhere(), celling(*cell_at)),
            i <= lines.len(),
            node_views(out@) == those(all.take(i as int)),
        decreases lines.len() - i,
    {
        proof {
            assert(all.take(i + 1).drop_last() =~= all.take(i as int));
            assert(all.take(i + 1).last() == all[i as int]);
        }
        if i > 0 {
            let row = read_intersection(lines[i].as_str(), number);
            let named: bool = row.id.as_str().as_bytes().len() > 0;
            proof {
                lemma_bytes(row.id@);
            }
            if let Some(coord) = row.at {
                if named {
                    let ghost before = out@;
                    let node = RepoNode {
                        id: row.id.clone(),
                        coord,
                        degree: row.degree,
                        s2_cell_id: cell_at(coord),
                    };
                    out.push(node);
                    proof {
                        assert(node_views(out@) =~= node_views(before).push(node@));
                    }
                }
            }
        }
        i += 1;
    }
    proof {
        assert(all.take(i as int) =~= all);
    }
    out
}

/// How nodes rank by their cells.
pub open spec fn cell_order(nodes: Seq<RepoNodeView>) -> spec_fn(usize, usize) -> bool {
    |a: usize, b: usize| nodes[a as int].cell <= nodes[b as int].cell
}

/// `sorted` holds `nodes` in the order `places` of their cells.
pub open spec fn along_curve_by(
    nodes: Seq<RepoNodeView>,
    sorted: Seq<RepoNodeView>,
    places: Seq<usize>,
) -> bool {
    &&& sorted_places(cell_order(nodes), places, nodes.len() as int)
    &&& sorted.len() == nodes.len()
    &&& forall|i: int| 0 <= i < sorted.len() ==> #[trigger] sorted[i] == nodes[places[i] as int]
}

/// `sorted` holds `nodes` in the order of their cells along the curve; those in one
/// cell stay as they were.
pub open spec fn along_curve(nodes: Seq<RepoNodeView>, sorted: Seq<RepoNodeView>) -> bool {
    exists|places: Seq<usize>| #[trigger] along_curve_by(nodes, sorted, places)
}

/// Sorting along the curve loses no node and makes up none.
pub proof fn law_sorting_keeps_nodes(nodes: Seq<RepoNodeView>, sorted: Seq<RepoNodeView>)
    requires
        along_curve(nodes, sorted),
        nodes.len() <= usize::MAX,
    ensures
        sorted.to_multiset() == nodes.to_multiset(),
        forall|i: int, j: int|
            0 <= i <= j < sorted.len() ==> (#[trigger] sorted[i]).cell <= (
            #[trigger] sorted[j]).cell,
{
    let places = choose|places: Seq<usize>| #[trigger] along_curve_by(nodes, sorted, places);
    lemma_picked(nodes, places, sorted);
    assert forall|i: int, j: int| 0 <= i <= j < sorted.len() implies (#[trigger] sorted[i]).cell
        <= (#[trigger] sorted[j]).cell by {
        if i < j {
            assert(precedes(cell_order(nodes), places[i], places[j]));
        }
    }
}

/// Puts nodes in the order of their cells along the curve.
pub fn sort_by_cell(nodes: &Vec<RepoNode>) -> (r: Vec<RepoNode>)
    ensures
        along_curve(node_views(nodes@), node_views(r@)),
{
    let n: usize = nodes.len();
    let ghost list = node_views(nodes@);
    let ghost le = cell_order(list);
    let first = |a: usize, b: usize| -> (r: bool)
        requires
            a < n && b < n && n == nodes.len(),
        ensures
            r == (nodes@[a as int].s2_cell_id <= nodes@[b as int].s2_cell_id),
        { nodes[a].s2_cell_id <= nodes[b].s2_cell_id };
    let order = sort_places(n, &first, Ghost(le));
    let mut out: Vec<RepoNode> = Vec::new();
    let mut i: usize = 0;
    while i < n
        invariant
            n == nodes.len(),
            list == node_views(nodes@),
            sorted_places(le, order@, n as int),
            i <= n,
            out.len() == i,
            forall|k: int| 0 <= k < i ==> (#[trigger] out@[k])@ == list[order@[k] as int],
        decreases n - i,
    {
        proof {
            assert(order@[i as int] < n);
        }
        out.push(nodes[order[i]].clone());
        i += 1;
    }
    proof {
        let sorted = node_views(out@);
        assert forall|k: int| 0 <= k < sorted.len() implies #[trigger] sorted[k]
            == list[order@[k] as int] by {
            assert(out@[k]@ == list[order@[k] as int]);
        }
        assert(along_curve_by(list, sorted, order@));
    }
    out
}

/// A cell that holds nodes: its name, the names of the first and the last of the
/// smallest cells in it, and the places of its first and its last node.
pub struct TileEntry {
    pub cell: u64,
    pub cell_token: String,
    pub range_min: String,
    pub range_max: String,
    pub start_index: usize,
    pub end_index: usize,
}

/// The cells and names of some nodes.
pub open spec fn entries_of(nodes: Seq<RepoNodeView>) -> Seq<(u64, Seq<char>)> {
    Seq::new(nodes.len(), |i: int| (nodes[i].cell, nodes[i].id))
}

/// `entry` tells of a cell that holds nodes.
pub open spec fn tells_of_cell(entry: TileEntry, nodes: Seq<RepoNodeView>) -> bool {
    let level = S2_INDEX_LEVEL as nat;
    let reach = half_extent(level) - 1;
    &&& spans((entry.start_index, entry.end_index), entry.cell, entries_of(nodes), level)
    &&& entry.cell_token@ == token_of(entry.cell)
    &&& entry.range_min@ == token_of((entry.cell - reach) as u64)
    &&& entry.range_max@ == token_of((entry.cell + reach) as u64)
    &&& 0 <= entry.cell - reach
    &&& entry.cell + reach <= u64::MAX
}

/// Whether a list tells of a cell.
pub open spec fn has_cell(entries: Seq<TileEntry>, cell: int) -> bool {
    exists|k: int| 0 <= k < entries.len() && (#[trigger] entries[k]).cell == cell
}

/// `entries` tells of each cell that holds nodes, along the curve.
pub open spec fn is_tile_index(entries: Seq<TileEntry>, nodes: Seq<RepoNodeView>) -> bool {
    &&& forall|k: int| 0 <= k < entries.len() ==> tells_of_cell(#[trigger] entries[k], nodes)
    &&& forall|k: int, m: int|
        0 <= k < m < entries.len() ==> (#[trigger] entries[k]).cell < (#[trigger] entries[m]).cell
    &&& forall|i: int|
        0 <= i < nodes.len() ==> has_cell(
            entries,
            cell_around((#[trigger] nodes[i]).cell, S2_INDEX_LEVEL as nat) as int,
        )
}

/// The cell around another is at its level.
proof fn lemma_around_is_at_level(cell: u64, around: u64, level: nat)
    requires
        level <= 30,
        around == cell_around(cell, level),
    ensures
        at_level(around, level),
        0 <= around - (half_extent(level) - 1),
        around + (half_extent(level) - 1) <= u64::MAX,
{
    let h = half_extent(level);
    vstd::arithmetic::power2::lemma_pow2_pos((60 - 2 * level) as nat);
    let q = cell as nat / (2 * h);
    assert(around == q * (2 * h) + h);
    assert(around == (2 * q + 1) * h) by (nonlinear_arith)
        requires
            around == q * (2 * h) + h,
    ;
    vstd::arithmetic::div_mod::lemma_mod_multiples_basic((2 * q + 1) as int, h as int);
    vstd::arithmetic::div_mod::lemma_div_by_multiple((2 * q + 1) as int, h as int);
    assert(around as nat % h == 0);
    assert(around as nat / h == 2 * q + 1);
    assert(around + (h - 1) <= u64::MAX) by {
        lemma_top(around, h, q, level);
    }
}

/// The last of the smallest cells inside a cell is still a machine integer.
proof fn lemma_top(around: u64, h: nat, q: nat, level: nat)
    requires
        level <= 30,
        h == half_extent(level),
        around == q * (2 * h) + h,
    ensures
        around + (h - 1) <= u64::MAX,
{
    let e = (60 - 2 * level) as nat;
    vstd::arithmetic::power2::lemma_pow2_pos(e);
    vstd::arithmetic::power2::lemma_pow2_pos((63 - e) as nat);
    vstd::arithmetic::power2::lemma_pow2_adds(e + 1, (63 - e) as nat);
    vstd::arithmetic::power2::lemma_pow2_adds(e, 1);
    vstd::arithmetic::power2::lemma2_to64();
    let d = 2 * h;
    let m = pow2((63 - e) as nat);
    assert(pow2(e + 1) == d);
    assert(d * m == pow2(64));
    assert(q < m) by (nonlinear_arith)
        requires
            around == q * d + h,
            around < d * m,
            h > 0,
            d > 0,
    ;
    assert((q + 1) * d <= m * d) by (nonlinear_arith)
        requires
            q + 1 <= m,
            d > 0,
    ;
    assert((q + 1) * d == q * d + d) by (nonlinear_arith);
    assert(m * d == d * m) by (nonlinear_arith);
    assert(around + (h - 1) == q * d + d - 1);
}

fn list_cells(nodes: &Vec<RepoNode>) -> (r: Vec<(u64, String)>)
    ensures
        cell_entries(r@) == entries_of(node_views(nodes@)),
{
    let mut out: Vec<(u64, String)> = Vec::new();
    let mut i: usize = 0;
    while i < nodes.len()
        invariant
            i <= nodes.len(),
            out.len() == i,
            forall|k: int|
                0 <= k < i ==> (#[trigger] out@[k]).0 == nodes@[k].s2_cell_id && out@[k].1@
                    == nodes@[k].id@,
        decreases nodes.len() - i,
    {
        out.push((nodes[i].s2_cell_id, nodes[i].id.clone()));
        i += 1;
    }
    proof {
        assert(cell_entries(out@) =~= entries_of(node_views(nodes@)));
    }
    out
}

/// A cell with the places of its first and its last node.
struct Span {
    cell: u64,
    first: usize,
    last: usize,
}

/// `spans` tells of every cell that holds nodes once.
spec fn found_spans(found: Seq<Span>, entries: Seq<(u64, Seq<char>)>, upto: int) -> bool {
    let level = S2_INDEX_LEVEL as nat;
    &&& forall|k: int|
        0 <= k < found.len() ==> spans(
            ((#[trigger] found[k]).first, found[k].last),
            found[k].cell,
            entries,
            level,
        ) && found[k].first < upto
    &&& forall|k: int, m: int|
        0 <= k < m < found.len() ==> (#[trigger] found[k]).cell != (#[trigger] found[m]).cell
    &&& forall|i: int|
        0 <= i < upto ==> exists|k: int|
            0 <= k < found.len() && (#[trigger] found[k]).cell == cell_around(
                (#[trigger] entries[i]).0,
                level,
            )
}

fn find_spans(entries: &Vec<(u64, String)>) -> (r: Vec<Span>)
    ensures
        found_spans(r@, cell_entries(entries@), entries@.len() as int),
{
    broadcast use vstd::std_specs::hash::group_hash_axioms;

    let ghost all = cell_entries(entries@);
    let ghost level = S2_INDEX_LEVEL as nat;
    let ranges = cell_ranges(entries, S2_INDEX_LEVEL);
    let mut out: Vec<Span> = Vec::new();
    let mut i: usize = 0;
    while i < entries.len()
        invariant
            all == cell_entries(entries@),
            level == S2_INDEX_LEVEL,
            indexes(ranges@, all, level),
            i <= entries.len(),
            found_spans(out@, all, i as int),
        decreases entries.len() - i,
    {
        broadcast use vstd::std_specs::hash::group_hash_axioms;

        let cell: u64 = parent_cell(entries[i].0, S2_INDEX_LEVEL);
        let ghost before = out@;
        proof {
            assert(all[i as int].0 == entries@[i as int].0);
            let c = choose|c: u64|
                c == cell_around(all[i as int].0, level) && #[trigger] ranges@.contains_key(c);
            assert(c == cell);
            assert(spans(ranges@[cell], cell, all, level));
        }
        if let Some(range) = ranges.get(&cell) {
            let (first, last): (usize, usize) = *range;
            if first == i {
                out.push(Span { cell, first, last });
                proof {
                    assert forall|k: int| 0 <= k < before.len() implies (
                    #[trigger] before[k]).cell != cell by {
                        if before[k].cell == cell {
                            assert(spans(
                                (before[k].first, before[k].last),
                                cell,
                                all,
                                level,
                            ));
                            assert(cell_around(all[before[k].first as int].0, level) == cell);
                        }
                    }
                    assert forall|j: int| 0 <= j < i + 1 implies exists|k: int|
                        0 <= k < out@.len() && (#[trigger] out@[k]).cell == cell_around(
                            (#[trigger] all[j]).0,
                            level,
                        ) by {
                        if j < i {
                            let k = choose|k: int|
                                0 <= k < before.len() && (#[trigger] before[k]).cell
                                    == cell_around(all[j].0, level);
                            assert(out@[k].cell == cell_around(all[j].0, level));
                        } else {
                            assert(out@[before.len() as int].cell == cell_around(
                                all[j].0,
                                level,
                            ));
                        }
                    }
                }
            } else {
                proof {
                    assert(cell_around(all[i as int].0, level) == cell);
                    assert(first <= i);
                    assert(cell_around(all[first as int].0, level) == cell);
                    let k = choose|k: int|
                        0 <= k < before.len() && (#[trigger] before[k]).cell == cell_around(
                            all[first as int].0,
                            level,
                        );
                    assert(out@[k].cell == cell_around(all[i as int].0, level));
                    assert forall|j: int| 0 <= j < i + 1 implies exists|k: int|
                        0 <= k < out@.len() && (#[trigger] out@[k]).cell == cell_around(
                            (#[trigger] all[j]).0,
                            level,
                        ) by {
                        if j == i {
                            assert(out@[k].cell == cell_around(all[j].0, level));
                        } else {
                            let m = choose|m: int|
                                0 <= m < before.len() && (#[trigger] before[m]).cell
                                    == cell_around(all[j].0, level);
                            assert(out@[m].cell == cell_around(all[j].0, level));
                        }
                    }
                }
            }
        }
        i += 1;
    }
    out
}

/// The index of the cells that hold nodes.
pub fn build_tile_index(nodes: &Vec<RepoNode>) -> (r: Vec<TileEntry>)
    ensures
        is_tile_index(r@, node_views(nodes@)),
{
    let ghost list = node_views(nodes@);
    let ghost level = S2_INDEX_LEVEL as nat;
    let entries = list_cells(nodes);
    let ghost all = entries_of(list);
    let found = find_spans(&entries);
    let n: usize = found.len();
    let ghost le = |a: usize, b: usize| found@[a as int].cell <= found@[b as int].cell;
    let first = |a: usize, b: usize| -> (r: bool)
        requires
            a < n && b < n && n == found.len(),
        ensures
            r == (found@[a as int].cell <= found@[b as int].cell),
        { found[a].cell <= found[b].cell };
    let order = sort_places(n, &first, Ghost(le));
    let mut out: Vec<TileEntry> = Vec::new();
    let mut i: usize = 0;
    while i < n
        invariant
            list == node_views(nodes@),
            all == entries_of(list),
            level == S2_INDEX_LEVEL,
            all.len() == list.len(),
            found_spans(found@, all, all.len() as int),
            n == found.len(),
            sorted_places(le, order@, n as int),
            i <= n,
            out.len() == i,
            forall|k: int|
                0 <= k < i ==> tells_of_cell(#[trigger] out@[k], list) && out@[k].cell
                    == found@[order@[k] as int].cell,
        decreases n - i,
    {
        proof {
            assert(order@[i as int] < n);
        }
        let span = &found[order[i]];
        proof {
            assert(spans((span.first, span.last), span.cell, all, level));
            lemma_around_is_at_level(all[span.first as int].0, span.cell, level);
        }
        let low: u64 = first_leaf(span.cell);
        let high: u64 = last_leaf(span.cell);
        out.push(
            TileEntry {
                cell: span.cell,
                cell_token: cell_token(span.cell),
                range_min: cell_token(low),
                range_max: cell_token(high),
                start_index: span.first,
                end_index: span.last,
            },
        );
        i += 1;
    }
    proof {
        assert forall|k: int, m: int| 0 <= k < m < out.len() implies (#[trigger] out@[k]).cell < (
        #[trigger] out@[m]).cell by {
            assert(precedes(le, order@[k], order@[m]));
            let (a, b) = (order@[k] as int, order@[m] as int);
            if a < b {
                assert(found@[a].cell != found@[b].cell);
            } else {
                assert(found@[b].cell != found@[a].cell);
            }
        }
        lemma_all_there(order@, n as int);
        assert forall|j: int| 0 <= j < list.len() implies has_cell(
            out@,
            cell_around((#[trigger] list[j]).cell, level) as int,
        ) by {
            assert(all[j].0 == list[j].cell);
            let k = choose|k: int|
                0 <= k < found@.len() && (#[trigger] found@[k]).cell == cell_around(
                    all[j].0,
                    level,
                );
            assert(order@.contains(k as usize));
            let m = order@.index_of(k as usize);
            assert(out@[m].cell == found@[k].cell);
        }
    }
    out
}

/// In nodes along the curve, all nodes between the first and the last of a cell lie in
/// that cell.
pub proof fn law_tile_entries_are_exact(
    entries: Seq<TileEntry>,
    nodes: Seq<RepoNodeView>,
    k: int,
    i: int,
)
    requires
        is_tile_index(entries, nodes),
        forall|a: int, b: int|
            0 <= a <= b < nodes.len() ==> (#[trigger] nodes[a]).cell <= (#[trigger] nodes[b]).cell,
        0 <= k < entries.len(),
        0 <= i < nodes.len(),
    ensures
        entries[k].start_index <= i <= entries[k].end_index <==> cell_around(
            nodes[i].cell,
            S2_INDEX_LEVEL as nat,
        ) == entries[k].cell,
{
    let level = S2_INDEX_LEVEL as nat;
    let entry = entries[k];
    assert(tells_of_cell(entry, nodes));
    let all = entries_of(nodes);
    assert(all[i].0 == nodes[i].cell);
    if entry.start_index <= i <= entry.end_index {
        let (first, last) = (entry.start_index as int, entry.end_index as int);
        assert(all[first].0 == nodes[first].cell);
        assert(all[last].0 == nodes[last].cell);
        law_cells_around_keep_order(nodes[first].cell, nodes[i].cell, level);
        law_cells_around_keep_order(nodes[i].cell, nodes[last].cell, level);
    }
}

/// A way of so many points has one road less.
pub open spec fn roads_of(points: int) -> int {
    if points > 0 {
        points - 1
    } else {
        0
    }
}

/// The roads of the ways among some elements.
pub open spec fn roads_in(elements: Seq<Element>) -> int
    decreases elements.len(),
{
    if elements.len() == 0 {
        0
    } else {
        roads_in(elements.drop_last()) + if elements.last().kind@ == "way"@ {
            roads_of(elements.last().nodes@.len() as int)
        } else {
            0
        }
    }
}

/// The roads in some files.
pub open spec fn roads_in_files(files: Seq<RoadFile>) -> int
    decreases files.len(),
{
    if files.len() == 0 {
        0
    } else {
        roads_in_files(files.drop_last()) + roads_in(files.last().elements@)
    }
}

/// Counts are not negative, and those of fewer files not larger.
proof fn lemma_roads(files: Seq<RoadFile>, i: int)
    requires
        0 <= i <= files.len(),
    ensures
        0 <= roads_in_files(files.take(i)) <= roads_in_files(files),
    decreases files.len(),
{
    if files.len() > 0 {
        lemma_roads_in(files.last().elements@, 0);
        if i < files.len() {
            assert(files.drop_last().take(i) =~= files.take(i));
            lemma_roads(files.drop_last(), i);
        } else {
            assert(files.take(i) =~= files);
            lemma_roads(files.drop_last(), 0);
            assert(files.drop_last().take(0) =~= Seq::<RoadFile>::empty());
        }
    } else {
        assert(files.take(i) =~= files);
    }
}

proof fn lemma_roads_in(elements: Seq<Element>, i: int)
    requires
        0 <= i <= elements.len(),
    ensures
        0 <= roads_in(elements.take(i)) <= roads_in(elements),
    decreases elements.len(),
{
    if elements.len() > 0 {
        if i < elements.len() {
            assert(elements.drop_last().take(i) =~= elements.take(i));
            lemma_roads_in(elements.drop_last(), i);
        } else {
            assert(elements.take(i) =~= elements);
            lemma_roads_in(elements.drop_last(), 0);
            assert(elements.drop_last().take(0) =~= Seq::<Element>::empty());
        }
    } else {
        assert(elements.take(i) =~= elements);
    }
}

fn count_roads(elements: &Vec<Element>) -> (r: usize)
    requires
        roads_in(elements@) <= usize::MAX,
    ensures
        r == roads_in(elements@),
{
    let mut count: usize = 0;
    let mut i: usize = 0;
    while i < elements.len()
        invariant
            roads_in(elements@) <= usize::MAX,
            i <= elements.len(),
            count == roads_in(elements@.take(i as int)),
        decreases elements.len() - i,
    {
        proof {
            assert(elements@.take(i + 1).drop_last() =~= elements@.take(i as int));
            assert(elements@.take(i + 1).last() == elements@[i as int]);
            lemma_roads_in(elements@, i + 1);
        }
        let element = &elements[i];
        if same_text(element.kind.as_str(), "way") {
            let points: usize = element.nodes.len();
            if points > 0 {
                count = count + (points - 1);
            }
        }
        i += 1;
    }
    proof {
        assert(elements@.take(i as int) =~= elements@);
    }
    count
}

/// How many roads the files of a region hold.
pub fn count_edges(files: &Vec<RoadFile>) -> (r: usize)
    requires
        roads_in_files(files@) <= usize::MAX,
    ensures
        r == roads_in_files(files@),
{
    let mut count: usize = 0;
    let mut i: usize = 0;
    while i < files.len()
        invariant
            roads_in_files(files@) <= usize::MAX,
            i <= files.len(),
            count == roads_in_files(files@.take(i as int)),
        decreases files.len() - i,
    {
        proof {
            assert(files@.take(i + 1).drop_last() =~= files@.take(i as int));
            assert(files@.take(i + 1).last() == files@[i as int]);
            lemma_roads(files@, i + 1);
            lemma_roads(files@, i as int);
            lemma_roads_in(files@[i as int].elements@, 0);
        }
        count = count + count_roads(&files[i].elements);
        i += 1;
    }
    proof {
        assert(files@.take(i as int) =~= files@);
    }
    count
}

/// Whether a file holds roads, by its name.
pub open spec fn is_cache_file(name: Seq<char>) -> bool {
    extension_of(name) == "json"@
}

/// Whether a file holds roads, by its name.
pub fn holds_roads(name: &str) -> (r: bool)
    ensures
        r == is_cache_file(name@),
{
    same_text(find_extension(name).as_str(), "json")
}

/// How many of some files hold roads.
pub fn count_cache_files(names: &Vec<String>) -> (r: usize)
    ensures
        r == texts(names@).filter(|name: Seq<char>| is_cache_file(name)).len(),
{
    let ghost all = texts(names@);
    let ghost pred = |name: Seq<char>| is_cache_file(name);
    let mut count: usize = 0;
    let mut i: usize = 0;
    proof {
        reveal(Seq::filter);
        assert(all.take(0).filter(pred).len() == 0);
    }
    while i < names.len()
        invariant
            all == texts(names@),
            pred == (|name: Seq<char>| is_cache_file(name)),
            i <= names.len(),
            count <= i,
            count == all.take(i as int).filter(pred).len(),
        decreases names.len() - i,
    {
        proof {
            reveal(Seq::filter);
            assert(all.take(i + 1).drop_last() =~= all.take(i as int));
            assert(all.take(i + 1).last() == all[i as int]);
        }
        if holds_roads(names[i].as_str()) {
            count += 1;
        }
        i += 1;
    }
    proof {
        assert(all.take(i as int) =~= all);
    }
    count
}

/// How many rows a file of so many lines has below its heading.
pub open spec fn rows_below(lines: int) -> int {
    if lines > 0 {
        lines - 1
    } else {
        0
    }
}

/// How many rows a file of so many lines has below its heading.
pub fn count_csv_rows(lines: u64) -> (r: u64)
    ensures
        r == rows_below(lines as int),
{
    if lines > 0 {
        lines - 1
    } else {
        0
    }
}

/// How many points a region has: as noted before, else by the rows of its file.
pub open spec fn points_in_all(noted: Option<u64>, rows: Option<u64>) -> u64 {
    match noted {
        Some(n) => n,
        None => match rows {
            Some(n) => n,
            None => 0,
        },
    }
}

/// How many points a region has: as noted before, else by the rows of its file.
pub fn total_points(noted: Option<u64>, rows: Option<u64>) -> (r: u64)
    ensures
        r == points_in_all(noted, rows),
{
    match noted {
        Some(n) => n,
        None => match rows {
            Some(n) => n,
            None => 0,
        },
    }
}

/// A text as JSON; it needs no escapes.
pub open spec fn quoted(text: Seq<char>) -> Seq<char> {
    "\""@ + text + "\""@
}

fn quote(text: &str) -> (r: String)
    ensures
        r@ == quoted(text@),
{
    let mut out = "\"".to_owned();
    out.append(text);
    out.append("\"");
    out
}

/// The fields of a JSON object, each as it is written.
pub open spec fn noted(object: Map<Seq<char>, Seq<char>>, name: Seq<char>) -> Option<Seq<char>> {
    if object.contains_key(name) {
        Some(object[name])
    } else {
        None
    }
}

/// A field as it is written, or what stands in for it.
pub open spec fn noted_or(
    object: Map<Seq<char>, Seq<char>>,
    name: Seq<char>,
    other: Seq<char>,
) -> Seq<char> {
    match noted(object, name) {
        Some(text) => text,
        None => other,
    }
}

fn get_or(object: &Table<String>, name: &str, other: &str) -> (r: String)
    ensures
        r@ == noted_or(object@, name@, other@),
{
    match object.get(name) {
        Some(text) => text.clone(),
        None => other.to_owned(),
    }
}

fn put(object: &mut Table<String>, name: &str, text: String)
    ensures
        final(object)@ == old(object)@.insert(name@, text@),
{
    object.insert(name.to_owned(), text);
}

/// What is noted of a region in every report: its name, and the states it covers.
pub open spec fn with_region(
    object: Map<Seq<char>, Seq<char>>,
    region: Map<Seq<char>, Seq<char>>,
) -> Map<Seq<char>, Seq<char>> {
    object.insert("region_id"@, noted_or(region, "id"@, "\"unknown_region\""@)).insert(
        "region_name"@,
        noted_or(region, "name"@, "\"Unknown Region\""@),
    ).insert("states"@, noted_or(region, "states"@, "[]"@))
}

fn put_region(object: &mut Table<String>, region: &Table<String>)
    ensures
        final(object)@ == with_region(old(object)@, region@),
{
    put(object, "region_id", get_or(region, "id", "\"unknown_region\""));
    put(object, "region_name", get_or(region, "name", "\"Unknown Region\""));
    put(object, "states", get_or(region, "states", "[]"));
}

/// The report on a region whose intersections were sorted.
pub open spec fn metadata_of(
    region: Map<Seq<char>, Seq<char>>,
    points: nat,
    cells: nat,
    edges: nat,
) -> Map<Seq<char>, Seq<char>> {
    with_region(
        Map::<Seq<char>, Seq<char>>::empty().insert(
            "format"@,
            "\"intersection_cache_v2\""@,
        ).insert("total_points"@, digits(points)),
        region,
    ).insert("query_tiles"@, "1"@).insert("intersections_csv"@, "\"intersections.csv\""@).insert(
        "indexing_method"@,
        "\"s2_hilbert\""@,
    ).insert("s2_index_level"@, digits(S2_INDEX_LEVEL as nat)).insert(
        "s2_cell_count"@,
        digits(cells),
    ).insert("edge_count"@, digits(edges))
}

pub fn build_metadata(
    region: &Table<String>,
    total_points: u64,
    cell_count: usize,
    edge_count: usize,
) -> (r: Table<String>)
    ensures
        r@ == metadata_of(
            region@,
            total_points as nat,
            cell_count as nat,
            edge_count as nat,
        ),
{
    let mut out: Table<String> = Table::new();
    put(&mut out, "format", "\"intersection_cache_v2\"".to_owned());
    put(&mut out, "total_points", decimal(total_points as u128));
    put_region(&mut out, region);
    put(&mut out, "query_tiles", "1".to_owned());
    put(&mut out, "intersections_csv", "\"intersections.csv\"".to_owned());
    put(&mut out, "indexing_method", "\"s2_hilbert\"".to_owned());
    put(&mut out, "s2_index_level", decimal(S2_INDEX_LEVEL as u128));
    put(&mut out, "s2_cell_count", decimal(cell_count as u128));
    put(&mut out, "edge_count", decimal(edge_count as u128));
    out
}

/// The report on a region brought up to date: what else it held stays.
pub open spec fn metadata_merged(
    existing: Map<Seq<char>, Seq<char>>,
    region: Map<Seq<char>, Seq<char>>,
    points: nat,
    tiles: nat,
) -> Map<Seq<char>, Seq<char>> {
    with_region(
        existing.insert(
            "format"@,
            noted_or(existing, "format"@, "\"intersection_cache_v2\""@),
        ).insert("total_points"@, digits(points)),
        region,
    ).insert("query_tiles"@, digits(tiles)).insert("intersections_csv"@, "\"intersections.csv\""@)
}

fn copy_object(object: &Table<String>) -> (r: Table<String>)
    ensures
        r@ == object@,
{
    let ghost keys = object.keys();
    let n: usize = object.len();
    let mut out: Table<String> = Table::new();
    let mut i: usize = 0;
    while i < n
        invariant
            object.coherent(),
            keys == object.keys(),
            n == keys.len(),
            i <= n,
            forall|k: Seq<char>| #[trigger] out@.contains_key(k) ==> object@.contains_key(k)
                && out@[k] == object@[k],
            forall|j: int| 0 <= j < i ==> out@.contains_key(#[trigger] keys[j]),
        decreases n - i,
    {
        out.insert(object.key_at(i).clone(), object.value_at(i).clone());
        i += 1;
    }
    proof {
        assert forall|k: Seq<char>| object@.contains_key(k) implies out@.contains_key(k) by {
            let j = keys.index_of(k);
            assert(out@.contains_key(keys[j]));
        }
        assert(out@ =~= object@);
    }
    out
}

pub fn merged_metadata(
    existing: &Table<String>,
    region: &Table<String>,
    total_points: u64,
    query_tile_count: usize,
) -> (r: Table<String>)
    ensures
        r@ == metadata_merged(
            existing@,
            region@,
            total_points as nat,
            query_tile_count as nat,
        ),
{
    let mut out = copy_object(existing);
    put(&mut out, "format", get_or(existing, "format", "\"intersection_cache_v2\""));
    put(&mut out, "total_points", decimal(total_points as u128));
    put_region(&mut out, region);
    put(&mut out, "query_tiles", decimal(query_tile_count as u128));
    put(&mut out, "intersections_csv", "\"intersections.csv\"".to_owned());
    out
}

/// What every report on the progress says of a region that is done. The region is
/// named as `source` has it.
pub open spec fn done(
    source: Map<Seq<char>, Seq<char>>,
    id: Seq<char>,
    name: Seq<char>,
    points: nat,
    tiles: nat,
    edges: nat,
) -> Map<Seq<char>, Seq<char>> {
    Map::<Seq<char>, Seq<char>>::empty().insert("phase"@, "\"complete\""@).insert(
        "region_id"@,
        noted_or(source, id, "\"unknown\""@),
    ).insert("region_name"@, noted_or(source, name, "\"Unknown Region\""@)).insert(
        "states"@,
        noted_or(source, "states"@, "[]"@),
    ).insert("current"@, digits(points)).insert("total"@, digits(points)).insert(
        "cached_tiles"@,
        digits(tiles),
    ).insert("node_count"@, digits(points)).insert("edge_count"@, digits(edges)).insert(
        "progress_kind"@,
        "\"nodes\""@,
    ).insert("progress_nodes_current"@, digits(points)).insert(
        "progress_nodes_total"@,
        digits(points),
    )
}

fn report_done(
    source: &Table<String>,
    id: &str,
    name: &str,
    points: u64,
    cached_tiles: usize,
    edges: u64,
) -> (r: Table<String>)
    ensures
        r@ == done(source@, id@, name@, points as nat, cached_tiles as nat, edges as nat),
{
    let mut out: Table<String> = Table::new();
    put(&mut out, "phase", "\"complete\"".to_owned());
    put(&mut out, "region_id", get_or(source, id, "\"unknown\""));
    put(&mut out, "region_name", get_or(source, name, "\"Unknown Region\""));
    put(&mut out, "states", get_or(source, "states", "[]"));
    put(&mut out, "current", decimal(points as u128));
    put(&mut out, "total", decimal(points as u128));
    put(&mut out, "cached_tiles", decimal(cached_tiles as u128));
    put(&mut out, "node_count", decimal(points as u128));
    put(&mut out, "edge_count", decimal(edges as u128));
    put(&mut out, "progress_kind", "\"nodes\"".to_owned());
    put(&mut out, "progress_nodes_current", decimal(points as u128));
    put(&mut out, "progress_nodes_total", decimal(points as u128));
    out
}

fn message_about(before: &str, count: u64, after: &str) -> (r: String)
    ensures
        r@ == quoted(before@ + digits(count as nat) + after@),
{
    let mut text = before.to_owned();
    text.append(decimal(count as u128).as_str());
    text.append(after);
    quote(text.as_str())
}

/// The progress of a region whose intersections were sorted.
pub open spec fn generated(
    region: Map<Seq<char>, Seq<char>>,
    points: nat,
    tiles: nat,
    edges: nat,
) -> Map<Seq<char>, Seq<char>> {
    done(region, "id"@, "name"@, points, tiles, edges).insert(
        "indexing_method"@,
        "\"s2_hilbert\""@,
    ).insert("s2_index_level"@, digits(S2_INDEX_LEVEL as nat)).insert(
        "message"@,
        quoted("Re-sorted "@ + digits(points) + " intersections using S2 Hilbert curve."@),
    )
}

pub fn generated_status(
    region: &Table<String>,
    points: u64,
    cached_tiles: usize,
    edges: u64,
) -> (r: Table<String>)
    ensures
        r@ == generated(region@, points as nat, cached_tiles as nat, edges as nat),
{
    let mut out = report_done(region, "id", "name", points, cached_tiles, edges);
    put(&mut out, "indexing_method", "\"s2_hilbert\"".to_owned());
    put(&mut out, "s2_index_level", decimal(S2_INDEX_LEVEL as u128));
    put(
        &mut out,
        "message",
        message_about("Re-sorted ", points, " intersections using S2 Hilbert curve."),
    );
    out
}

/// A field that was noted before: in the report on the progress, or else in that on
/// the region.
pub open spec fn noted_before(
    status: Map<Seq<char>, Seq<char>>,
    metadata: Map<Seq<char>, Seq<char>>,
    name: Seq<char>,
) -> Option<Seq<char>> {
    match noted(status, name) {
        Some(text) => Some(text),
        None => noted(metadata, name),
    }
}

/// What is said of a region that was prepared: how its nodes are indexed decides.
pub open spec fn prepared_message(method: Seq<char>, points: nat) -> Seq<char> {
    if method == "\"s2_hilbert\""@ {
        quoted("Prepared S2/Hilbert-sorted node dataset with "@ + digits(points) + " nodes."@)
    } else {
        quoted("Prepared node dataset cached with "@ + digits(points) + " nodes."@)
    }
}

/// The progress of a region that was prepared. How its nodes are indexed is noted
/// where it is a text.
pub open spec fn prepared(
    metadata: Map<Seq<char>, Seq<char>>,
    status_before: Map<Seq<char>, Seq<char>>,
    metadata_before: Map<Seq<char>, Seq<char>>,
    points: nat,
    tiles: nat,
    edges: nat,
) -> Map<Seq<char>, Seq<char>> {
    let method = match noted_before(status_before, metadata_before, "indexing_method"@) {
        Some(text) => text,
        None => "\"web_mercator_tile_grid\""@,
    };
    let base = done(metadata, "region_id"@, "region_name"@, points, tiles, edges).insert(
        "message"@,
        prepared_message(method, points),
    );
    let with_method = if begins_with(method, "\""@) {
        base.insert("indexing_method"@, method)
    } else {
        base
    };
    match noted_before(status_before, metadata_before, "s2_index_level"@) {
        Some(level) => with_method.insert("s2_index_level"@, level),
        None => with_method,
    }
}

fn get_before(status: &Table<String>, metadata: &Table<String>, name: &str) -> (r: Option<String>)
    ensures
        text_in(r) == noted_before(status@, metadata@, name@),
{
    match status.get(name) {
        Some(text) => Some(text.clone()),
        None => match metadata.get(name) {
            Some(text) => Some(text.clone()),
            None => None,
        },
    }
}

pub fn prepared_status(
    metadata: &Table<String>,
    status_before: &Table<String>,
    metadata_before: &Table<String>,
    points: u64,
    cached_tiles: usize,
    edges: Option<u64>,
) -> (r: Table<String>)
    ensures
        r@ == prepared(
            metadata@,
            status_before@,
            metadata_before@,
            points as nat,
            cached_tiles as nat,
            match edges {
                Some(n) => n as nat,
                None => 0,
            },
        ),
{
    let edge_count: u64 = match edges {
        Some(n) => n,
        None => 0,
    };
    let mut out = report_done(
        metadata,
        "region_id",
        "region_name",
        points,
        cached_tiles,
        edge_count,
    );
    let method: String = match get_before(status_before, metadata_before, "indexing_method") {
        Some(text) => text,
        None => "\"web_mercator_tile_grid\"".to_owned(),
    };
    let message: String = if same_text(method.as_str(), "\"s2_hilbert\"") {
        message_about("Prepared S2/Hilbert-sorted node dataset with ", points, " nodes.")
    } else {
        message_about("Prepared node dataset cached with ", points, " nodes.")
    };
    put(&mut out, "message", message);
    if starts_with(method.as_str(), "\"") {
        put(&mut out, "indexing_method", method);
    }
    if let Some(level) = get_before(status_before, metadata_before, "s2_index_level") {
        put(&mut out, "s2_index_level", level);
    }
    out
}

/// Why a region cannot be prepared, if so: there is nothing to start from.
pub open spec fn nothing_prepared(
    has_metadata: bool,
    has_intersections: bool,
    has_preview: bool,
) -> bool {
    !has_metadata && !has_intersections && !has_preview
}

/// Checks that there is something to start from.
pub fn check_prepared(
    has_metadata: bool,
    has_intersections: bool,
    has_preview: bool,
    folder: &str,
) -> (r: Result<(), String>)
    ensures
        if nothing_prepared(has_metadata, has_intersections, has_preview) {
            r is Err && r->Err_0@ == "Prepared region data missing in "@ + folder@
                + ". This Rust-only runtime expects cached prepared data there."@
        } else {
            r is Ok
        },
{
    if !has_metadata && !has_intersections && !has_preview {
        let mut message = "Prepared region data missing in ".to_owned();
        message.append(folder);
        message.append(". This Rust-only runtime expects cached prepared data there.");
        return Err(message);
    }
    Ok(())
}

/// Milliseconds since the epoch; none before it.
pub open spec fn full_reading(since_epoch: Option<u128>) -> u128 {
    match since_epoch {
        Some(ms) => ms,
        None => 0,
    }
}

/// The time of day in milliseconds, in full.
pub fn now_ms() -> (r: u128)
    ensures
        exists|measured: Result<Duration, SystemTimeError>|
            r == full_reading(#[trigger] measured_ms(measured)),
{
    let since_epoch = since_epoch_ms();
    let r: u128 = match since_epoch {
        Some(ms) => ms,
        None => 0,
    };
    proof {
        assert(r == full_reading(since_epoch));
    }
    r
}

} // verus!
