//! Cells of the S2 grid: the index of nodes by cell, and covers of areas.
use s2::cellid::CellID;
use std::collections::HashMap;
use vstd::arithmetic::power2::{lemma_pow2_adds, lemma_pow2_pos, pow2};
use vstd::prelude::*;

use crate::repo::{cell_entries, NodeRepo, RepoNodeView, RepoView};
use crate::sorting::{precedes, sort_places};
use crate::text::{comes_first, lemma_text_order, lemma_text_transitive, text_le};

verus! {

/// The level of the smallest cells.
pub const S2_LEAF_LEVEL: u64 = 30;

/// The level at which nodes are indexed.
pub const S2_INDEX_LEVEL: u64 = 12;

/// Half the extent of a cell at `level` along the curve: its lowest set bit.
pub open spec fn half_extent(level: nat) -> nat {
    pow2((60 - 2 * level) as nat)
}

/// `cell` is one of the cells at `level`.
pub open spec fn at_level(cell: u64, level: nat) -> bool {
    &&& level <= 30
    &&& cell as nat % half_extent(level) == 0
    &&& (cell as nat / half_extent(level)) % 2 == 1
}

/// The cell at `level` around `cell`.
pub open spec fn cell_around(cell: u64, level: nat) -> nat {
    cell as nat / (2 * half_extent(level)) * (2 * half_extent(level)) + half_extent(level)
}

/// The four cells inside `cell`, which is at `level`.
pub open spec fn cells_inside(cell: u64, level: nat) -> Seq<int> {
    let quarter = half_extent(level) as int / 4;
    let start = cell as int - half_extent(level);
    seq![start + quarter, start + 3 * quarter, start + 5 * quarter, start + 7 * quarter]
}

/// `CellID::parent`: the cell at `level` that contains this one.
#[verifier::external_body]
pub(crate) fn parent_cell(cell: u64, level: u64) -> (r: u64)
    requires
        level <= 30,
    ensures
        r == cell_around(cell, level as nat),
{
    CellID(cell).parent(level).0
}

/// `CellID::children`: the four cells inside a cell, for whichever level it is
/// at. A cell at the lowest level has none.
#[verifier::external_body]
pub(crate) fn child_cells(cell: u64) -> (r: [u64; 4])
    requires
        exists|level: nat| level < 30 && at_level(cell, level),
        cell < 0xc000_0000_0000_0000,
    ensures
        forall|level: nat, i: int|
            level < 30 && at_level(cell, level) && 0 <= i < 4 ==> #[trigger] r@[i]
                == #[trigger] cells_inside(cell, level)[i],
{
    CellID(cell).children().map(|child| child.0)
}

/// `CellID::from_face`: the cell that a face of the cube is.
#[verifier::external_body]
pub(crate) fn face_cell(face: u64) -> (r: u64)
    requires
        face < 6,
    ensures
        r == face * 0x2000_0000_0000_0000 + 0x1000_0000_0000_0000,
{
    CellID::from_face(face).0
}

/// Cells along the curve have the cells around them in the same order.
pub proof fn law_cells_around_keep_order(a: u64, b: u64, level: nat)
    requires
        a <= b,
    ensures
        cell_around(a, level) <= cell_around(b, level),
{
    let d = 2 * half_extent(level);
    lemma_pow2_pos((60 - 2 * level) as nat);
    vstd::arithmetic::div_mod::lemma_div_is_ordered(a as int, b as int, d as int);
    vstd::arithmetic::mul::lemma_mul_inequality(
        (a as nat / d) as int,
        (b as nat / d) as int,
        d as int,
    );
}

/// The order of the index: by cell, then by name.
pub open spec fn entry_le(a: (u64, Seq<char>), b: (u64, Seq<char>)) -> bool {
    a.0 < b.0 || (a.0 == b.0 && text_le(a.1, b.1))
}

/// The nodes of the road map with their cells.
pub open spec fn node_entries(keys: Seq<Seq<char>>, nodes: Map<Seq<char>, RepoNodeView>) -> Seq<
    (u64, Seq<char>),
> {
    Seq::new(keys.len(), |i: int| (nodes[keys[i]].cell, nodes[keys[i]].id))
}

/// `sorted` holds the entries of `list`, in order.
pub open spec fn sorted_entries(
    list: Seq<(u64, Seq<char>)>,
    sorted: Seq<(u64, Seq<char>)>,
) -> bool {
    &&& sorted.to_multiset() == list.to_multiset()
    &&& forall|i: int, j: int|
        0 <= i <= j < sorted.len() ==> entry_le(#[trigger] sorted[i], #[trigger] sorted[j])
}

/// `range` holds the first and the last entry inside `cell`.
pub open spec fn spans(
    range: (usize, usize),
    cell: u64,
    sorted: Seq<(u64, Seq<char>)>,
    level: nat,
) -> bool {
    &&& range.0 <= range.1 < sorted.len()
    &&& cell_around(sorted[range.0 as int].0, level) == cell
    &&& cell_around(sorted[range.1 as int].0, level) == cell
    &&& forall|i: int|
        0 <= i < sorted.len() && cell_around((#[trigger] sorted[i]).0, level) == cell ==> range.0
            <= i <= range.1
}

/// `ranges` leads each cell that holds entries to the first and the last of them.
pub open spec fn indexes(
    ranges: Map<u64, (usize, usize)>,
    sorted: Seq<(u64, Seq<char>)>,
    level: nat,
) -> bool {
    &&& forall|cell: u64| #[trigger]
        ranges.contains_key(cell) ==> spans(ranges[cell], cell, sorted, level)
    &&& forall|i: int|
        0 <= i < sorted.len() ==> exists|cell: u64|
            cell == cell_around((#[trigger] sorted[i]).0, level) && #[trigger] ranges.contains_key(
                cell,
            )
}

/// In a sorted index, everything between the first and the last entry of a cell
/// lies in that cell.
pub proof fn law_cell_ranges_are_exact(
    ranges: Map<u64, (usize, usize)>,
    list: Seq<(u64, Seq<char>)>,
    sorted: Seq<(u64, Seq<char>)>,
    level: nat,
    cell: u64,
    i: int,
)
    requires
        indexes(ranges, sorted, level),
        sorted_entries(list, sorted),
        ranges.contains_key(cell),
        ranges[cell].0 <= i <= ranges[cell].1,
    ensures
        0 <= i < sorted.len(),
        cell_around(sorted[i].0, level) == cell,
{
    let (first, last) = ranges[cell];
    assert(entry_le(sorted[first as int], sorted[i]));
    assert(entry_le(sorted[i], sorted[last as int]));
    law_cells_around_keep_order(sorted[first as int].0, sorted[i].0, level);
    law_cells_around_keep_order(sorted[i].0, sorted[last as int].0, level);
}

/// The level at which a road map is indexed.
pub open spec fn index_level(level: u64) -> u64 {
    if level < 1 {
        1
    } else if level > 30 {
        30
    } else {
        level
    }
}

fn list_entries(repo: &NodeRepo) -> (r: Vec<(u64, String)>)
    ensures
        cell_entries(r@) == node_entries(repo@.node_keys, repo@.nodes),
{
    let n: usize = repo.nodes_by_id.len();
    let mut out: Vec<(u64, String)> = Vec::new();
    let mut i: usize = 0;
    while i < n
        invariant
            n == repo.nodes_by_id.keys().len(),
            i <= n,
            out.len() == i,
            forall|k: int|
                0 <= k < i ==> (#[trigger] cell_entries(out@)[k]) == node_entries(
                    repo@.node_keys,
                    repo@.nodes,
                )[k],
        decreases n - i,
    {
        let node = repo.nodes_by_id.value_at(i);
        let ghost before = out@;
        out.push((node.s2_cell_id, node.id.clone()));
        proof {
            assert forall|k: int| 0 <= k < i + 1 implies (#[trigger] cell_entries(out@)[k])
                == node_entries(repo@.node_keys, repo@.nodes)[k] by {
                if k < i {
                    assert(cell_entries(before)[k] == node_entries(
                        repo@.node_keys,
                        repo@.nodes,
                    )[k]);
                }
            }
        }
        i += 1;
    }
    proof {
        assert(cell_entries(out@) =~= node_entries(repo@.node_keys, repo@.nodes));
    }
    out
}

proof fn lemma_entry_order(a: (u64, Seq<char>), b: (u64, Seq<char>), c: (u64, Seq<char>))
    ensures
        entry_le(a, b) || entry_le(b, a),
        entry_le(a, b) && entry_le(b, c) ==> entry_le(a, c),
{
    lemma_text_order(a.1, b.1);
    if text_le(a.1, b.1) && text_le(b.1, c.1) {
        lemma_text_transitive(a.1, b.1, c.1);
    }
}

/// The entries of a list, in order.
pub fn sort_entries(list: &Vec<(u64, String)>) -> (r: Vec<(u64, String)>)
    ensures
        sorted_entries(cell_entries(list@), cell_entries(r@)),
{
    let n: usize = list.len();
    let ghost all = cell_entries(list@);
    let ghost le = |a: usize, b: usize| entry_le(all[a as int], all[b as int]);
    let first = |a: usize, b: usize| -> (r: bool)
        requires
            a < n && b < n && n == list.len(),
        ensures
            r == entry_le(
                (list@[a as int].0, list@[a as int].1@),
                (list@[b as int].0, list@[b as int].1@),
            ),
        {
            list[a].0 < list[b].0 || (list[a].0 == list[b].0 && comes_first(
                list[a].1.as_str(),
                list[b].1.as_str(),
            ))
        };
    proof {
        assert forall|a: usize, b: usize| a < n && b < n implies #[trigger] le(a, b) || le(
            b,
            a,
        ) by {
            lemma_entry_order(all[a as int], all[b as int], all[a as int]);
        }
        assert forall|a: usize, b: usize, c: usize|
            a < n && b < n && c < n && #[trigger] le(a, b) && #[trigger] le(b, c) implies le(
            a,
            c,
        ) by {
            lemma_entry_order(all[a as int], all[b as int], all[c as int]);
        }
    }
    let order = sort_places(n, &first, Ghost(le));
    let mut out: Vec<(u64, String)> = Vec::new();
    let mut i: usize = 0;
    while i < n
        invariant
            n == list.len(),
            order.len() == n,
            all == cell_entries(list@),
            forall|k: int| 0 <= k < n ==> (#[trigger] order@[k]) < n,
            i <= n,
            out.len() == i,
            forall|k: int|
                0 <= k < i ==> (#[trigger] cell_entries(out@)[k]) == all[order@[k] as int],
        decreases n - i,
    {
        let at: usize = order[i];
        let ghost before = out@;
        out.push((list[at].0, list[at].1.clone()));
        proof {
            assert forall|k: int| 0 <= k < i + 1 implies (#[trigger] cell_entries(out@)[k])
                == all[order@[k] as int] by {
                if k < i {
                    assert(cell_entries(before)[k] == all[order@[k] as int]);
                }
            }
        }
        i += 1;
    }
    proof {
        crate::sorting::lemma_picked(all, order@, cell_entries(out@));
        assert forall|k: int, m: int| 0 <= k <= m < out.len() implies entry_le(
            #[trigger] cell_entries(out@)[k],
            #[trigger] cell_entries(out@)[m],
        ) by {
            if k < m {
                assert(precedes(le, order@[k], order@[m]));
                assert(le(order@[k], order@[m]));
            } else {
                let e = cell_entries(out@)[k];
                lemma_entry_order(e, e, e);
            }
        }
    }
    out
}

/// The first and the last entry of each cell that holds any.
pub fn cell_ranges(sorted: &Vec<(u64, String)>, level: u64) -> (r: HashMap<u64, (usize, usize)>)
    requires
        level <= 30,
    ensures
        indexes(r@, cell_entries(sorted@), level as nat),
{
    broadcast use vstd::std_specs::hash::group_hash_axioms;

    let ghost all = cell_entries(sorted@);
    let mut ranges: HashMap<u64, (usize, usize)> = HashMap::new();
    let mut i: usize = 0;
    while i < sorted.len()
        invariant
            all == cell_entries(sorted@),
            level <= 30,
            i <= sorted.len(),
            indexes(ranges@, all.take(i as int), level as nat),
        decreases sorted.len() - i,
    {
        let cell: u64 = parent_cell(sorted[i].0, level);
        let ghost before = ranges@;
        let ghost prior = all.take(i as int);
        let start: usize = match ranges.get(&cell) {
            Some(range) => range.0,
            None => i,
        };
        ranges.insert(cell, (start, i));
        proof {
            let next = all.take(i + 1);
            assert(next[i as int] == all[i as int]);
            assert(cell_around(all[i as int].0, level as nat) == cell);
            assert forall|k: int| 0 <= k < i implies #[trigger] next[k] == prior[k] by {}
            assert forall|c: u64| #[trigger] ranges@.contains_key(c) implies spans(
                ranges@[c],
                c,
                next,
                level as nat,
            ) by {
                if c == cell {
                    if before.contains_key(c) {
                        assert(spans(before[c], c, prior, level as nat));
                        assert forall|k: int|
                            0 <= k < next.len() && cell_around((#[trigger] next[k]).0, level as nat)
                                == c implies start <= k <= i by {
                            if k < i {
                                assert(cell_around(prior[k].0, level as nat) == c);
                            }
                        }
                    } else {
                        assert forall|k: int|
                            0 <= k < next.len() && cell_around((#[trigger] next[k]).0, level as nat)
                                == c implies start <= k <= i by {
                            if k < i {
                                let q = prior[k];
                                let w = choose|w: u64|
                                    w == cell_around(prior[k].0, level as nat)
                                        && #[trigger] before.contains_key(w);
                                assert(w == c);
                            }
                        }
                    }
                } else {
                    assert(before.contains_key(c));
                    assert(spans(before[c], c, prior, level as nat));
                    assert forall|k: int|
                        0 <= k < next.len() && cell_around((#[trigger] next[k]).0, level as nat)
                            == c implies before[c].0 <= k <= before[c].1 by {
                        assert(k < i);
                        assert(cell_around(prior[k].0, level as nat) == c);
                    }
                }
            }
            assert forall|k: int| 0 <= k < next.len() implies exists|c: u64|
                c == cell_around((#[trigger] next[k]).0, level as nat)
                    && #[trigger] ranges@.contains_key(c) by {
                if k < i {
                    let q = prior[k];
                    let w = choose|w: u64|
                        w == cell_around(prior[k].0, level as nat)
                            && #[trigger] before.contains_key(w);
                    assert(ranges@.contains_key(w));
                } else {
                    assert(ranges@.contains_key(cell));
                }
            }
        }
        i += 1;
    }
    proof {
        assert(all.take(i as int) =~= all);
    }
    ranges
}

/// The road map with its nodes indexed by cell.
pub open spec fn cell_indexed(repo: RepoView, next: RepoView) -> bool {
    &&& next == (RepoView { sorted: next.sorted, ranges: next.ranges, ..repo })
    &&& sorted_entries(node_entries(repo.node_keys, repo.nodes), next.sorted)
    &&& indexes(next.ranges, next.sorted, index_level(repo.level) as nat)
}

/// Indexes the nodes of the road map by cell.
pub fn build_s2_index(repo: &mut NodeRepo)
    ensures
        cell_indexed(old(repo)@, final(repo)@),
{
    let level: u64 = if repo.s2_index_level < 1 {
        1
    } else if repo.s2_index_level > 30 {
        30
    } else {
        repo.s2_index_level
    };
    let list = list_entries(repo);
    let sorted = sort_entries(&list);
    let ranges = cell_ranges(&sorted, level);
    repo.s2_sorted_nodes = sorted;
    repo.s2_cell_ranges = ranges;
}

} // verus!
