//! Map tiles: which nodes a tile shows.
use vstd::arithmetic::power2::pow2;
use vstd::prelude::*;
use vstd::string::StringExecFns;

use crate::cells::{
    at_level, cell_around, cells_inside, child_cells, face_cell, half_extent, indexes,
    law_cell_ranges_are_exact, node_entries, sorted_entries, spans,
};
use crate::errors::{Failure, FailureView, Refusal};
use crate::geometry::{rank, rank_of, Bounds, Coord};
use crate::missiles::{first_key, lemma_first_key_found};
use crate::numeric::{clamp_i64, clamped};
use crate::repo::{NodeRepo, RepoView};
use crate::state::{copy_texts, texts, IdList};
use crate::text::{signed_decimal, signed_digits};
use crate::world::{lemma_filter_source, lemma_filter_unique};

verus! {

/// What `m` answers of a box and a cell.
pub open spec fn meets_of<M: Fn(Bounds, u64) -> bool>(m: M, bounds: Bounds, cell: u64) -> bool {
    choose|r: bool| call_ensures(m, (bounds, cell), r)
}

/// `m` is total, and answers the same on the same box and cell.
pub open spec fn tells_meeting<M: Fn(Bounds, u64) -> bool>(m: M) -> bool {
    &&& forall|bounds: Bounds, cell: u64| call_requires(m, (bounds, cell))
    &&& forall|bounds: Bounds, cell: u64, r: bool| #[trigger]
        call_ensures(m, (bounds, cell), r) ==> r == meets_of(m, bounds, cell)
}

/// Which cells meet a box.
pub open spec fn meeting<M: Fn(Bounds, u64) -> bool>(m: M, bounds: Bounds) -> spec_fn(
    u64,
) -> bool {
    |cell: u64| meets_of(m, bounds, cell)
}

/// What `f` gives as the box of a tile.
pub open spec fn box_of<B: Fn(i64, i64, i64) -> Bounds>(f: B, zoom: i64, x: i64, y: i64) -> Bounds {
    choose|r: Bounds| call_ensures(f, (zoom, x, y), r)
}

/// `f` is total, and gives the same box for the same tile.
pub open spec fn places_tiles<B: Fn(i64, i64, i64) -> Bounds>(f: B) -> bool {
    &&& forall|zoom: i64, x: i64, y: i64| call_requires(f, (zoom, x, y))
    &&& forall|zoom: i64, x: i64, y: i64, r: Bounds| #[trigger]
        call_ensures(f, (zoom, x, y), r) ==> r == box_of(f, zoom, x, y)
}

/// The cells at `level` inside `cell`, which is at level `at`, that meet an area;
/// a cell that does not meet it is not looked into.
pub open spec fn cover(cell: u64, at: nat, level: nat, meets: spec_fn(u64) -> bool) -> Seq<u64>
    decreases level - at,
{
    if !meets(cell) {
        Seq::empty()
    } else if at >= level {
        seq![cell]
    } else {
        let inside = cells_inside(cell, at);
        cover(inside[0] as u64, at + 1, level, meets) + cover(
            inside[1] as u64,
            at + 1,
            level,
            meets,
        ) + cover(inside[2] as u64, at + 1, level, meets) + cover(
            inside[3] as u64,
            at + 1,
            level,
            meets,
        )
    }
}

/// The cell of a face of the cube.
pub open spec fn face(f: int) -> u64 {
    (f * 0x2000_0000_0000_0000 + 0x1000_0000_0000_0000) as u64
}

/// The cells at `level` on the first `n` faces that meet an area.
pub open spec fn cover_of_faces(n: nat, level: nat, meets: spec_fn(u64) -> bool) -> Seq<u64>
    decreases n,
{
    if n == 0 {
        Seq::empty()
    } else {
        cover_of_faces((n - 1) as nat, level, meets) + cover(face(n - 1), 0, level, meets)
    }
}

/// The cells inside a cell are at the next level, on the cube.
proof fn lemma_inside(cell: u64, at: nat)
    requires
        at < 30,
        at_level(cell, at),
        cell < 0xc000_0000_0000_0000,
    ensures
        forall|i: int| #![trigger cells_inside(cell, at)[i]]
            0 <= i < 4 ==> 0 <= cells_inside(cell, at)[i] < 0xc000_0000_0000_0000 && at_level(
                cells_inside(cell, at)[i] as u64,
                at + 1,
            ),
{
    let h = half_extent(at) as int;
    let q = half_extent(at + 1) as int;
    vstd::arithmetic::power2::lemma_pow2_pos((60 - 2 * (at + 1)) as nat);
    vstd::arithmetic::power2::lemma_pow2_adds((60 - 2 * (at + 1)) as nat, 2);
    vstd::arithmetic::power2::lemma2_to64();
    assert(h == 4 * q);
    let c = cell as int;
    vstd::arithmetic::div_mod::lemma_fundamental_div_mod(c, h);
    let m = (c / h) / 2;
    assert(c == h * (2 * m + 1));
    assert(c - h == q * (8 * m)) by (nonlinear_arith)
        requires
            c == h * (2 * m + 1),
            h == 4 * q,
    ;
    assert forall|i: int| #![trigger cells_inside(cell, at)[i]] 0 <= i < 4 implies 0
        <= cells_inside(cell, at)[i] < 0xc000_0000_0000_0000 && at_level(
        cells_inside(cell, at)[i] as u64,
        at + 1,
    ) by {
        let kid = cells_inside(cell, at)[i];
        let odd = 8 * m + 2 * i + 1;
        assert(kid == c - h + (2 * i + 1) * q) by {
            assert(h / 4 == q);
            assert((2 * i + 1) * q == 2 * (i * q) + q) by (nonlinear_arith);
            if i == 0 {
                assert(i * q == 0) by (nonlinear_arith)
                    requires
                        i == 0,
                ;
            } else if i == 1 {
                assert(i * q == q) by (nonlinear_arith)
                    requires
                        i == 1,
                ;
            } else if i == 2 {
                assert(i * q == 2 * q) by (nonlinear_arith)
                    requires
                        i == 2,
                ;
            } else {
                assert(i * q == 3 * q) by (nonlinear_arith)
                    requires
                        i == 3,
                ;
            }
        }
        assert(kid == q * odd) by (nonlinear_arith)
            requires
                kid == c - h + (2 * i + 1) * q,
                c - h == q * (8 * m),
                odd == 8 * m + 2 * i + 1,
        ;
        lemma_face_end(c, h, at);
        assert(kid < c + h) by (nonlinear_arith)
            requires
                kid == c - h + (2 * i + 1) * q,
                h == 4 * q,
                q > 0,
                i < 4,
        ;
        assert(kid >= 0) by (nonlinear_arith)
            requires
                kid == q * odd,
                q > 0,
                odd >= 0,
        ;
        assert(kid == odd * q) by (nonlinear_arith)
            requires
                kid == q * odd,
        ;
        vstd::arithmetic::div_mod::lemma_mod_multiples_basic(odd, q);
        vstd::arithmetic::div_mod::lemma_div_by_multiple(odd, q);
    }
}

/// A cell that begins on the cube ends on it.
proof fn lemma_face_end(c: int, h: int, at: nat)
    requires
        at < 30,
        h == half_extent(at),
        c == h * (2 * ((c / h) / 2) + 1),
        0 <= c < 0xc000_0000_0000_0000,
    ensures
        c + h <= 0xc000_0000_0000_0000,
{
    let m = (c / h) / 2;
    let k = pow2((2 * at) as nat) as int;
    vstd::arithmetic::power2::lemma_pow2_pos((2 * at) as nat);
    vstd::arithmetic::power2::lemma_pow2_pos((60 - 2 * at) as nat);
    vstd::arithmetic::power2::lemma_pow2_adds((60 - 2 * at) as nat, (2 * at) as nat);
    vstd::arithmetic::power2::lemma2_to64_rest();
    assert(h * k == 0x1000_0000_0000_0000);
    assert(0xc000_0000_0000_0000 == 2 * h * (6 * k)) by (nonlinear_arith)
        requires
            h * k == 0x1000_0000_0000_0000,
    ;
    assert(c + h == 2 * h * (m + 1)) by (nonlinear_arith)
        requires
            c == h * (2 * m + 1),
    ;
    assert(m < 6 * k) by (nonlinear_arith)
        requires
            c == h * (2 * m + 1),
            c < 0xc000_0000_0000_0000,
            0xc000_0000_0000_0000 == 2 * h * (6 * k),
            h > 0,
    ;
    assert(2 * h * (m + 1) <= 2 * h * (6 * k)) by (nonlinear_arith)
        requires
            m + 1 <= 6 * k,
            h > 0,
    ;
}

fn cover_cell<M: Fn(Bounds, u64) -> bool>(
    cell: u64,
    at: u64,
    level: u64,
    bounds: Bounds,
    meets: &M,
    out: &mut Vec<u64>,
)
    requires
        tells_meeting(*meets),
        at <= level <= 30,
        at_level(cell, at as nat),
        cell < 0xc000_0000_0000_0000,
    ensures
        final(out)@ == old(out)@ + cover(cell, at as nat, level as nat, meeting(*meets, bounds)),
    decreases level - at,
{
    let ghost p = meeting(*meets, bounds);
    let ghost before = out@;
    if !meets(bounds, cell) {
        proof {
            assert(out@ =~= before + Seq::<u64>::empty());
        }
        return;
    }
    if at == level {
        out.push(cell);
        proof {
            assert(out@ =~= before + seq![cell]);
        }
        return;
    }
    proof {
        lemma_inside(cell, at as nat);
    }
    let kids = child_cells(cell);
    let ghost inside = cells_inside(cell, at as nat);
    proof {
        assert(kids@[0] == inside[0]);
        assert(kids@[1] == inside[1]);
        assert(kids@[2] == inside[2]);
        assert(kids@[3] == inside[3]);
    }
    cover_cell(kids[0], at + 1, level, bounds, meets, out);
    cover_cell(kids[1], at + 1, level, bounds, meets, out);
    cover_cell(kids[2], at + 1, level, bounds, meets, out);
    cover_cell(kids[3], at + 1, level, bounds, meets, out);
    proof {
        assert(out@ =~= before + cover(cell, at as nat, level as nat, p));
    }
}

/// The cells at `level` that meet a box.
pub fn s2_cover_for_bounds<M: Fn(Bounds, u64) -> bool>(
    bounds: Bounds,
    level: u64,
    meets: &M,
) -> (r: Vec<u64>)
    requires
        tells_meeting(*meets),
        level <= 30,
    ensures
        r@ == cover_of_faces(6, level as nat, meeting(*meets, bounds)),
{
    let mut out: Vec<u64> = Vec::new();
    let mut f: u64 = 0;
    while f < 6
        invariant
            tells_meeting(*meets),
            level <= 30,
            f <= 6,
            out@ == cover_of_faces(f as nat, level as nat, meeting(*meets, bounds)),
        decreases 6 - f,
    {
        let cell: u64 = face_cell(f);
        proof {
            vstd::arithmetic::power2::lemma2_to64_rest();
            assert(half_extent(0) == 0x1000_0000_0000_0000);
            assert(at_level(cell, 0));
        }
        cover_cell(cell, 0, level, bounds, meets, &mut out);
        f += 1;
    }
    out
}

/// The entries of a range, as far as the index goes.
pub open spec fn range_ids(sorted: Seq<(u64, Seq<char>)>, range: (usize, usize)) -> Seq<Seq<char>> {
    let end = if range.1 < sorted.len() {
        range.1 + 1
    } else {
        sorted.len() as int
    };
    if range.0 < end {
        Seq::new((end - range.0) as nat, |i: int| sorted[range.0 + i].1)
    } else {
        Seq::empty()
    }
}

/// The entries of all `cells`, in order.
pub open spec fn cell_ids(cells: Seq<u64>, repo: RepoView) -> Seq<Seq<char>>
    decreases cells.len(),
{
    if cells.len() == 0 {
        Seq::empty()
    } else {
        let earlier = cell_ids(cells.drop_last(), repo);
        if repo.ranges.contains_key(cells.last()) {
            earlier + range_ids(repo.sorted, repo.ranges[cells.last()])
        } else {
            earlier
        }
    }
}

/// A place belongs to the tile to the east of a meridian, and to both tiles on a
/// parallel.
pub open spec fn in_tile(bounds: Bounds, at: Coord) -> bool {
    &&& rank_of(bounds.west) <= rank_of(at.lon) < rank_of(bounds.east)
    &&& rank_of(bounds.south) <= rank_of(at.lat) <= rank_of(bounds.north)
}

/// Whether two boxes have a point in common.
pub open spec fn overlap(a: Bounds, b: Bounds) -> bool {
    &&& rank_of(a.west) <= rank_of(b.east) && rank_of(a.east) >= rank_of(b.west)
    &&& rank_of(a.south) <= rank_of(b.north) && rank_of(a.north) >= rank_of(b.south)
}

/// The part of `a` inside `b`.
pub open spec fn common(a: Bounds, b: Bounds) -> Bounds {
    Bounds {
        west: if rank_of(a.west) > rank_of(b.west) {
            a.west
        } else {
            b.west
        },
        east: if rank_of(a.east) < rank_of(b.east) {
            a.east
        } else {
            b.east
        },
        south: if rank_of(a.south) > rank_of(b.south) {
            a.south
        } else {
            b.south
        },
        north: if rank_of(a.north) < rank_of(b.north) {
            a.north
        } else {
            b.north
        },
    }
}

/// A tile of the map at this zoom.
pub open spec fn tile_exists(zoom: int, x: int, y: int) -> bool {
    0 <= x < pow2(zoom as nat) && 0 <= y < pow2(zoom as nat)
}

/// Under which the nodes of a tile are kept.
pub open spec fn tile_key(version: int, zoom: int, x: int, y: int) -> Seq<char> {
    signed_digits(version) + ":"@ + signed_digits(zoom) + ":"@ + signed_digits(x) + ":"@
        + signed_digits(y)
}

/// The cells that are looked at for a tile: none of them lies off the region.
pub open spec fn tile_cells(
    bounds: Bounds,
    region: Option<Bounds>,
    level: nat,
    meets: spec_fn(Bounds) -> spec_fn(u64) -> bool,
) -> Seq<u64> {
    match region {
        Some(r) => cover_of_faces(6, level, meets(common(bounds, r))),
        None => cover_of_faces(6, level, meets(bounds)),
    }
}

/// What asking for the nodes of a tile gives.
pub open spec fn tile_outcome(
    repo: RepoView,
    next: RepoView,
    region: Option<Bounds>,
    zoom: int,
    x: int,
    y: int,
    bounds: Bounds,
    meets: spec_fn(Bounds) -> spec_fn(u64) -> bool,
    r: Result<Vec<String>, Failure>,
) -> bool {
    let key = tile_key(repo.graph_version, zoom, x, y);
    let ids = cell_ids(tile_cells(bounds, region, repo.level as nat, meets), repo);
    let missing = first_key(ids, |id: Seq<char>| !repo.nodes.contains_key(id));
    if !tile_exists(zoom, x, y) {
        r is Err && r->Err_0@ == FailureView::Refused(Refusal::InvalidTile) && next == repo
    } else if repo.tile_cache.contains_key(key) {
        r is Ok && texts(r->Ok_0@) == repo.tile_cache[key] && next == repo
    } else if region is Some && !overlap(bounds, region->0) {
        r is Ok && texts(r->Ok_0@) == Seq::<Seq<char>>::empty() && next == repo
    } else if missing is Some {
        r is Err && r->Err_0@ == (FailureView::IndexBroken { node: missing->0 }) && next == repo
    } else {
        &&& r is Ok
        &&& texts(r->Ok_0@) == ids.filter(|id: Seq<char>| in_tile(bounds, repo.nodes[id].coord))
        &&& next == (RepoView {
            tile_cache: repo.tile_cache.insert(key, texts(r->Ok_0@)),
            ..repo
        })
    }
}

/// The ids of all entries of `cells`.
fn collect_ids(cells: &Vec<u64>, repo: &NodeRepo) -> (r: Vec<String>)
    ensures
        texts(r@) == cell_ids(cells@, repo@),
{
    broadcast use vstd::std_specs::hash::group_hash_axioms;

    let mut out: Vec<String> = Vec::new();
    let mut i: usize = 0;
    proof {
        assert(texts(out@) =~= cell_ids(cells@.take(0), repo@));
    }
    while i < cells.len()
        invariant
            i <= cells.len(),
            texts(out@) == cell_ids(cells@.take(i as int), repo@),
        decreases cells.len() - i,
    {
        let ghost before = texts(out@);
        proof {
            assert(cells@.take(i + 1).drop_last() =~= cells@.take(i as int));
            assert(cells@.take(i + 1).last() == cells@[i as int]);
        }
        if let Some(range) = repo.s2_cell_ranges.get(&cells[i]) {
            let n: usize = repo.s2_sorted_nodes.len();
            let start: usize = range.0;
            let end: usize = if range.1 < n {
                range.1 + 1
            } else {
                n
            };
            let ghost whole = range_ids(repo@.sorted, *range);
            let mut k: usize = start;
            proof {
                assert(texts(out@) =~= before + whole.take(0));
            }
            while k < end
                invariant
                    start <= k,
                    k <= end || k == start,
                    end <= n,
                    n == repo.s2_sorted_nodes.len(),
                    whole == range_ids(repo@.sorted, *range),
                    start == range.0,
                    end == (if range.1 < n {
                        range.1 + 1
                    } else {
                        n as int
                    }),
                    texts(out@) == before + whole.take(k - start),
                decreases end - k,
            {
                let ghost prior = out@;
                out.push(repo.s2_sorted_nodes[k].1.clone());
                proof {
                    assert(texts(out@) =~= texts(prior).push(repo@.sorted[k as int].1));
                    assert(whole.take(k - start + 1) =~= whole.take(k - start).push(
                        repo@.sorted[k as int].1,
                    ));
                    assert(texts(out@) =~= before + whole.take(k - start + 1));
                }
                k += 1;
            }
            proof {
                assert(whole.take(k - start) =~= whole);
            }
        }
        i += 1;
    }
    proof {
        assert(cells@.take(i as int) =~= cells@);
    }
    out
}

/// Keeps the ids whose nodes lie in a tile.
fn keep_in_tile(ids: &Vec<String>, repo: &NodeRepo, bounds: Bounds) -> (r: Result<Vec<String>, Failure>)
    ensures
        ({
            let missing = first_key(texts(ids@), |id: Seq<char>| !repo@.nodes.contains_key(id));
            match missing {
                Some(id) => r is Err && r->Err_0@ == (FailureView::IndexBroken { node: id }),
                None => r is Ok && texts(r->Ok_0@) == texts(ids@).filter(
                    |id: Seq<char>| in_tile(bounds, repo@.nodes[id].coord),
                ),
            }
        }),
{
    let ghost all = texts(ids@);
    let ghost gone = |id: Seq<char>| !repo@.nodes.contains_key(id);
    let ghost stays = |id: Seq<char>| in_tile(bounds, repo@.nodes[id].coord);
    let mut out: Vec<String> = Vec::new();
    let mut i: usize = 0;
    proof {
        assert(texts(out@) =~= all.take(0).filter(stays));
    }
    while i < ids.len()
        invariant
            all == texts(ids@),
            gone == (|id: Seq<char>| !repo@.nodes.contains_key(id)),
            stays == (|id: Seq<char>| in_tile(bounds, repo@.nodes[id].coord)),
            i <= ids.len(),
            texts(out@) == all.take(i as int).filter(stays),
            forall|k: int| 0 <= k < i ==> !gone(#[trigger] all[k]),
        decreases ids.len() - i,
    {
        proof {
            reveal(Seq::filter);
            assert(all.take(i + 1).drop_last() =~= all.take(i as int));
            assert(all.take(i + 1).last() == all[i as int]);
        }
        let id = &ids[i];
        match repo.nodes_by_id.get(id.as_str()) {
            Some(node) => {
                let at: Coord = node.coord;
                let lon: i64 = rank(at.lon);
                let lat: i64 = rank(at.lat);
                if rank(bounds.west) <= lon && lon < rank(bounds.east) && rank(bounds.south) <= lat
                    && lat <= rank(bounds.north) {
                    let ghost prior = out@;
                    out.push(id.clone());
                    proof {
                        assert(texts(out@) =~= texts(prior).push(id@));
                    }
                }
            },
            None => {
                proof {
                    crate::missiles::lemma_first_key(all, gone, i as int);
                }
                return Err(Failure::IndexBroken { node: id.clone() });
            },
        }
        i += 1;
    }
    proof {
        assert(all.take(i as int) =~= all);
        crate::missiles::lemma_first_key(all, gone, i as int);
    }
    Ok(out)
}

fn make_tile_key(version: i64, zoom: i64, x: i64, y: i64) -> (r: String)
    ensures
        r@ == tile_key(version as int, zoom as int, x as int, y as int),
{
    let mut key = signed_decimal(version);
    key.append(":");
    let part = signed_decimal(zoom);
    key.append(part.as_str());
    key.append(":");
    let part = signed_decimal(x);
    key.append(part.as_str());
    key.append(":");
    let part = signed_decimal(y);
    key.append(part.as_str());
    key
}

/// Tiles along one side of the map.
fn tiles_per_side(zoom: i64) -> (r: i64)
    requires
        0 <= zoom <= 22,
    ensures
        r == pow2(zoom as nat),
{
    proof {
        vstd::arithmetic::power2::lemma2_to64();
        vstd::bits::lemma_u64_shl_is_mul(1, zoom as u64);
        if zoom < 22 {
            vstd::arithmetic::power2::lemma_pow2_strictly_increases(zoom as nat, 22);
        }
    }
    (1u64 << zoom as u64) as i64
}

/// The ids of the nodes that a tile shows.
pub fn node_ids_for_tile<
    B: Fn(i64, i64, i64) -> Bounds,
    M: Fn(Bounds, u64) -> bool,
>(
    repo: &mut NodeRepo,
    region: Option<Bounds>,
    z: i64,
    x: i64,
    y: i64,
    tile_bounds: &B,
    meets: &M,
) -> (r: Result<Vec<String>, Failure>)
    requires
        places_tiles(*tile_bounds),
        tells_meeting(*meets),
        old(repo)@.level <= 30,
    ensures
        ({
            let zoom = clamped(z as int, 0, 22);
            tile_outcome(
                old(repo)@,
                final(repo)@,
                region,
                zoom,
                x as int,
                y as int,
                box_of(*tile_bounds, zoom as i64, x, y),
                |b: Bounds| meeting(*meets, b),
                r,
            )
        }),
{
    let zoom: i64 = clamp_i64(z, 0, 22);
    let side: i64 = tiles_per_side(zoom);
    if x < 0 || y < 0 || x >= side || y >= side {
        return Err(Failure::Refused(Refusal::InvalidTile));
    }
    let key = make_tile_key(repo.graph_version, zoom, x, y);
    if let Some(kept) = repo.tile_node_id_cache.get(key.as_str()) {
        return Ok(copy_texts(&kept.ids));
    }
    let bounds: Bounds = tile_bounds(zoom, x, y);
    let looked_at: Bounds = match region {
        Some(r) => {
            if !(rank(bounds.west) <= rank(r.east) && rank(bounds.east) >= rank(r.west) && rank(
                bounds.south,
            ) <= rank(r.north) && rank(bounds.north) >= rank(r.south)) {
                let none: Vec<String> = Vec::new();
                proof {
                    assert(texts(none@) =~= Seq::<Seq<char>>::empty());
                }
                return Ok(none);
            }
            Bounds {
                west: if rank(bounds.west) > rank(r.west) {
                    bounds.west
                } else {
                    r.west
                },
                east: if rank(bounds.east) < rank(r.east) {
                    bounds.east
                } else {
                    r.east
                },
                south: if rank(bounds.south) > rank(r.south) {
                    bounds.south
                } else {
                    r.south
                },
                north: if rank(bounds.north) < rank(r.north) {
                    bounds.north
                } else {
                    r.north
                },
            }
        },
        None => bounds,
    };
    let cells = s2_cover_for_bounds(looked_at, repo.s2_index_level, meets);
    let ids = collect_ids(&cells, repo);
    match keep_in_tile(&ids, repo, bounds) {
        Ok(shown) => {
            repo.tile_node_id_cache.insert(key, IdList { ids: copy_texts(&shown) });
            Ok(shown)
        },
        Err(failure) => Err(failure),
    }
}

/// One of the four cells inside a cell is around the same smaller cell.
proof fn lemma_next_around(c: u64, at: nat) -> (r: int)
    requires
        at < 30,
        c < 0xc000_0000_0000_0000,
    ensures
        0 <= r < 4,
        cells_inside(cell_around(c, at) as u64, at)[r] == cell_around(c, at + 1),
        cell_around(c, at) <= u64::MAX,
        cell_around(c, at + 1) <= u64::MAX,
{
    let h = half_extent(at) as int;
    let q = half_extent(at + 1) as int;
    vstd::arithmetic::power2::lemma_pow2_pos((60 - 2 * (at + 1)) as nat);
    vstd::arithmetic::power2::lemma_pow2_adds((60 - 2 * (at + 1)) as nat, 2);
    vstd::arithmetic::power2::lemma2_to64();
    assert(h == 4 * q);
    let n = c as int;
    let d = 2 * q;
    let a = n / d;
    vstd::arithmetic::div_mod::lemma_fundamental_div_mod(n, d);
    vstd::arithmetic::div_mod::lemma_div_denominator(n, d, 4);
    assert(d * 4 == 2 * h);
    let b = n / (2 * h);
    assert(b == a / 4);
    let r = a % 4;
    assert(a == 4 * b + r);
    assert(cell_around(c, at) == b * (2 * h) + h);
    assert(cell_around(c, at + 1) == a * d + q);
    assert(a * d == b * (2 * h) + r * d) by (nonlinear_arith)
        requires
            a == 4 * b + r,
            d * 4 == 2 * h,
    ;
    assert(a * d <= n) by (nonlinear_arith)
        requires
            n == d * a + n % d,
            n % d >= 0,
    ;
    assert(b * (2 * h) <= a * d) by (nonlinear_arith)
        requires
            a * d == b * (2 * h) + r * d,
            r >= 0,
            d >= 0,
    ;
    lemma_small_extent(at);
    let quarter = h / 4;
    assert(quarter == q);
    let start = b * (2 * h);
    assert(r * d == 2 * (r * q)) by (nonlinear_arith)
        requires
            d == 2 * q,
    ;
    assert(cell_around(c, at) as u64 as int - h == start);
    if r == 0 {
        assert(r * q == 0) by (nonlinear_arith)
            requires
                r == 0,
        ;
    } else if r == 1 {
        assert(r * q == q) by (nonlinear_arith)
            requires
                r == 1,
        ;
    } else if r == 2 {
        assert(r * q == 2 * q) by (nonlinear_arith)
            requires
                r == 2,
        ;
    } else {
        assert(r * q == 3 * q) by (nonlinear_arith)
            requires
                r == 3,
        ;
    }
    r
}

/// No cell is larger than a face.
proof fn lemma_small_extent(at: nat)
    requires
        at <= 30,
    ensures
        0 < half_extent(at) <= 0x1000_0000_0000_0000,
{
    vstd::arithmetic::power2::lemma_pow2_pos((60 - 2 * at) as nat);
    vstd::arithmetic::power2::lemma2_to64_rest();
    if at > 0 {
        vstd::arithmetic::power2::lemma_pow2_strictly_increases((60 - 2 * at) as nat, 60);
    }
}

/// Every cell around a smaller one that is looked at meets an area, from the face down
/// to `level`.
pub open spec fn meets_all_around(c: u64, level: nat, meets: spec_fn(u64) -> bool) -> bool {
    forall|l: nat| l <= level ==> meets(#[trigger] cell_around(c, l) as u64)
}

proof fn lemma_cover_holds(c: u64, at: nat, level: nat, meets: spec_fn(u64) -> bool)
    requires
        at <= level <= 30,
        c < 0xc000_0000_0000_0000,
        meets_all_around(c, level, meets),
    ensures
        cover(cell_around(c, at) as u64, at, level, meets).contains(cell_around(c, level) as u64),
    decreases level - at,
{
    let cell = cell_around(c, at) as u64;
    let goal = cell_around(c, level) as u64;
    assert(meets(cell_around(c, at) as u64));
    if at == level {
        assert(cover(cell, at, level, meets)[0] == goal);
    } else {
        let r = lemma_next_around(c, at);
        lemma_cover_holds(c, at + 1, level, meets);
        let inside = cells_inside(cell, at);
        let c0 = cover(inside[0] as u64, at + 1, level, meets);
        let c1 = cover(inside[1] as u64, at + 1, level, meets);
        let c2 = cover(inside[2] as u64, at + 1, level, meets);
        let c3 = cover(inside[3] as u64, at + 1, level, meets);
        let all = c0 + c1 + c2 + c3;
        assert(cover(cell, at, level, meets) == all);
        if r == 0 {
            let k = c0.index_of(goal);
            assert(all[k] == goal);
        } else if r == 1 {
            let k = c1.index_of(goal);
            assert(all[c0.len() + k] == goal);
        } else if r == 2 {
            let k = c2.index_of(goal);
            assert(all[c0.len() + c1.len() + k] == goal);
        } else {
            let k = c3.index_of(goal);
            assert(all[c0.len() + c1.len() + c2.len() + k] == goal);
        }
    }
}

/// A cell is in the cover of an area when it and all cells around it meet the area.
pub proof fn law_cover_holds_meeting_cells(c: u64, level: nat, meets: spec_fn(u64) -> bool)
    requires
        level <= 30,
        c < 0xc000_0000_0000_0000,
        meets_all_around(c, level, meets),
    ensures
        cover_of_faces(6, level, meets).contains(cell_around(c, level) as u64),
{
    let f = c as int / 0x2000_0000_0000_0000;
    vstd::arithmetic::power2::lemma2_to64_rest();
    assert(half_extent(0) == 0x1000_0000_0000_0000);
    assert(cell_around(c, 0) == face(f));
    lemma_cover_holds(c, 0, level, meets);
    lemma_faces_hold(6, f, level, meets, cell_around(c, level) as u64);
}

proof fn lemma_faces_hold(n: nat, f: int, level: nat, meets: spec_fn(u64) -> bool, cell: u64)
    requires
        0 <= f < n,
        cover(face(f), 0, level, meets).contains(cell),
    ensures
        cover_of_faces(n, level, meets).contains(cell),
    decreases n,
{
    let earlier = cover_of_faces((n - 1) as nat, level, meets);
    let last = cover(face(n - 1), 0, level, meets);
    let all = earlier + last;
    if f == n - 1 {
        let k = last.index_of(cell);
        assert(all[earlier.len() + k] == cell);
    } else {
        lemma_faces_hold((n - 1) as nat, f, level, meets, cell);
        let k = earlier.index_of(cell);
        assert(all[k] == cell);
    }
}

/// The entries of one of some cells are among the entries of all.
proof fn lemma_cell_ids_hold(cells: Seq<u64>, repo: RepoView, k: int, i: int)
    requires
        0 <= k < cells.len(),
        repo.ranges.contains_key(cells[k]),
        repo.ranges[cells[k]].0 <= i <= repo.ranges[cells[k]].1 < repo.sorted.len(),
    ensures
        cell_ids(cells, repo).contains(repo.sorted[i].1),
    decreases cells.len(),
{
    let earlier = cell_ids(cells.drop_last(), repo);
    let all = cell_ids(cells, repo);
    if k == cells.len() - 1 {
        let range = repo.ranges[cells[k]];
        let part = range_ids(repo.sorted, range);
        assert(part[i - range.0] == repo.sorted[i].1);
        assert(all[earlier.len() + (i - range.0)] == repo.sorted[i].1);
    } else {
        lemma_cell_ids_hold(cells.drop_last(), repo, k, i);
        let j = earlier.index_of(repo.sorted[i].1);
        assert(all[j] == repo.sorted[i].1);
    }
}

/// A tile that is worked out shows every node that lies in its box, as far as the cells
/// around the node meet the box that is looked at; and nothing else.
pub proof fn law_tile_shows_its_nodes(
    repo: RepoView,
    next: RepoView,
    region: Option<Bounds>,
    zoom: int,
    x: int,
    y: int,
    bounds: Bounds,
    meets: spec_fn(Bounds) -> spec_fn(u64) -> bool,
    r: Result<Vec<String>, Failure>,
    i: int,
)
    requires
        tile_outcome(repo, next, region, zoom, x, y, bounds, meets, r),
        tile_exists(zoom, x, y),
        !repo.tile_cache.contains_key(tile_key(repo.graph_version, zoom, x, y)),
        region is Some ==> overlap(bounds, region->0),
        indexes(repo.ranges, repo.sorted, repo.level as nat),
        repo.level <= 30,
        r is Ok,
        0 <= i < repo.sorted.len(),
        repo.sorted[i].0 < 0xc000_0000_0000_0000,
        in_tile(bounds, repo.nodes[repo.sorted[i].1].coord),
        meets_all_around(
            repo.sorted[i].0,
            repo.level as nat,
            meets(
                match region {
                    Some(area) => common(bounds, area),
                    None => bounds,
                },
            ),
        ),
    ensures
        texts(r->Ok_0@).contains(repo.sorted[i].1),
        forall|k: int|
            0 <= k < r->Ok_0@.len() ==> in_tile(
                bounds,
                repo.nodes[#[trigger] texts(r->Ok_0@)[k]].coord,
            ) && repo.nodes.contains_key(texts(r->Ok_0@)[k]),
{
    broadcast use vstd::seq_lib::group_filter_ensures;

    let level = repo.level as nat;
    let area = match region {
        Some(area) => common(bounds, area),
        None => bounds,
    };
    let (cell, id) = repo.sorted[i];
    law_cover_holds_meeting_cells(cell, level, meets(area));
    let cells = tile_cells(bounds, region, level, meets);
    let around = choose|c: u64|
        c == cell_around(repo.sorted[i].0, level) && #[trigger] repo.ranges.contains_key(c);
    assert(spans(repo.ranges[around], around, repo.sorted, level));
    let k = cells.index_of(around);
    lemma_cell_ids_hold(cells, repo, k, i);
    let ids = cell_ids(cells, repo);
    let inside = |id: Seq<char>| in_tile(bounds, repo.nodes[id].coord);
    assert(ids.filter(inside).contains(id));
    let missing = |id: Seq<char>| !repo.nodes.contains_key(id);
    lemma_first_key_found(ids, missing);
    assert forall|k: int| 0 <= k < r->Ok_0@.len() implies in_tile(
        bounds,
        repo.nodes[#[trigger] texts(r->Ok_0@)[k]].coord,
    ) && repo.nodes.contains_key(texts(r->Ok_0@)[k]) by {
        lemma_filter_source(ids, inside, k);
    }
}

/// Cells that lie between two places of the curve, each once.
spec fn spread(cells: Seq<u64>, low: int, high: int) -> bool {
    &&& cells.no_duplicates()
    &&& forall|i: int| 0 <= i < cells.len() ==> low <= #[trigger] cells[i] < high
}

proof fn lemma_spread_on(a: Seq<u64>, b: Seq<u64>, low: int, mid: int, high: int)
    requires
        spread(a, low, mid),
        spread(b, mid, high),
        low <= mid <= high,
    ensures
        spread(a + b, low, high),
{
    let all = a + b;
    assert forall|i: int| 0 <= i < all.len() implies low <= #[trigger] all[i] < high by {
        if i < a.len() {
            assert(all[i] == a[i]);
        } else {
            assert(all[i] == b[i - a.len()]);
        }
    }
    assert forall|i: int, j: int| 0 <= i < j < all.len() implies all[i] != all[j] by {
        if j < a.len() {
            assert(a[i] != a[j]);
        } else if i >= a.len() {
            assert(b[i - a.len()] != b[j - a.len()]);
        } else {
            assert(all[i] == a[i] && all[j] == b[j - a.len()]);
        }
    }
}

/// A cover holds cells inside its cell, each once.
proof fn lemma_cover_is_spread(cell: u64, at: nat, level: nat, meets: spec_fn(u64) -> bool)
    requires
        at <= level <= 30,
        at_level(cell, at),
        cell < 0xc000_0000_0000_0000,
    ensures
        spread(cover(cell, at, level, meets), cell - half_extent(at), cell + half_extent(at)),
    decreases level - at,
{
    vstd::arithmetic::power2::lemma_pow2_pos((60 - 2 * at) as nat);
    if meets(cell) && at < level {
        let h = half_extent(at) as int;
        let q = half_extent(at + 1) as int;
        vstd::arithmetic::power2::lemma_pow2_adds((60 - 2 * (at + 1)) as nat, 2);
        vstd::arithmetic::power2::lemma2_to64();
        assert(h == 4 * q);
        lemma_inside(cell, at);
        let inside = cells_inside(cell, at);
        let low = cell - h;
        assert(inside[0] == low + q);
        assert(inside[1] == low + 3 * q);
        assert(inside[2] == low + 5 * q);
        assert(inside[3] == low + 7 * q);
        let a = cover(inside[0] as u64, at + 1, level, meets);
        let b = cover(inside[1] as u64, at + 1, level, meets);
        let c = cover(inside[2] as u64, at + 1, level, meets);
        let d = cover(inside[3] as u64, at + 1, level, meets);
        lemma_cover_is_spread(inside[0] as u64, at + 1, level, meets);
        lemma_cover_is_spread(inside[1] as u64, at + 1, level, meets);
        lemma_cover_is_spread(inside[2] as u64, at + 1, level, meets);
        lemma_cover_is_spread(inside[3] as u64, at + 1, level, meets);
        lemma_spread_on(a, b, low, low + 2 * q, low + 4 * q);
        lemma_spread_on(a + b, c, low, low + 4 * q, low + 6 * q);
        lemma_spread_on(a + b + c, d, low, low + 6 * q, low + 8 * q);
    }
}

/// The cells on the faces of the cube that meet an area come each once.
proof fn lemma_faces_are_spread(n: nat, level: nat, meets: spec_fn(u64) -> bool)
    requires
        n <= 6,
        level <= 30,
    ensures
        spread(cover_of_faces(n, level, meets), 0, n as int * 0x2000_0000_0000_0000),
    decreases n,
{
    if n > 0 {
        let m = (n - 1) as nat;
        lemma_faces_are_spread(m, level, meets);
        vstd::arithmetic::power2::lemma2_to64_rest();
        assert(half_extent(0) == 0x1000_0000_0000_0000);
        let cell = face(n - 1);
        assert(cell == m * 0x2000_0000_0000_0000 + 0x1000_0000_0000_0000);
        assert(at_level(cell, 0));
        lemma_cover_is_spread(cell, 0, level, meets);
        lemma_spread_on(
            cover_of_faces(m, level, meets),
            cover(cell, 0, level, meets),
            0,
            m as int * 0x2000_0000_0000_0000,
            n as int * 0x2000_0000_0000_0000,
        );
    }
}

/// No two entries of an index of the nodes name the same node.
proof fn lemma_entries_differ(repo: RepoView, i: int, j: int)
    requires
        sorted_entries(node_entries(repo.node_keys, repo.nodes), repo.sorted),
        repo.node_keys.no_duplicates(),
        forall|k: Seq<char>| #[trigger] repo.node_keys.contains(k) ==> repo.nodes[k].id == k,
        0 <= i < repo.sorted.len(),
        0 <= j < repo.sorted.len(),
        i != j,
    ensures
        repo.sorted[i].1 != repo.sorted[j].1,
{
    let list = node_entries(repo.node_keys, repo.nodes);
    let sorted = repo.sorted;
    broadcast use vstd::seq_lib::group_to_multiset_ensures;

    assert forall|a: int, b: int| 0 <= a < list.len() && 0 <= b < list.len() && a != b implies list[a].1
        != list[b].1 by {
        assert(repo.node_keys.contains(repo.node_keys[a]));
        assert(repo.node_keys.contains(repo.node_keys[b]));
    }
    list.lemma_multiset_has_no_duplicates();
    assert(sorted.no_duplicates()) by {
        assert forall|x: (u64, Seq<char>)| sorted.to_multiset().contains(x) implies #[trigger] sorted.to_multiset().count(
            x,
        ) == 1 by {
            assert(list.to_multiset().contains(x));
        }
        sorted.lemma_multiset_has_no_duplicates_conv();
    }
    assert(list.to_multiset().contains(sorted[i])) by {
        assert(sorted.contains(sorted[i]));
    }
    assert(list.to_multiset().contains(sorted[j])) by {
        assert(sorted.contains(sorted[j]));
    }
    let a = list.index_of(sorted[i]);
    let b = list.index_of(sorted[j]);
    assert(list[a] == sorted[i] && list[b] == sorted[j]);
}

/// Where an entry of some cells stands in the index.
spec fn stands_in(cells: Seq<u64>, repo: RepoView, i: int) -> bool {
    0 <= i < repo.sorted.len() && exists|k: int|
        0 <= k < cells.len() && cell_around(repo.sorted[i].0, repo.level as nat)
            == #[trigger] cells[k]
}

/// The id is that of an entry of some cells.
spec fn comes_from(cells: Seq<u64>, repo: RepoView, id: Seq<char>) -> bool {
    exists|i: int| #[trigger] stands_in(cells, repo, i) && repo.sorted[i].1 == id
}

/// The entries of distinct cells come each once.
proof fn lemma_cell_ids_differ(cells: Seq<u64>, repo: RepoView)
    requires
        cells.no_duplicates(),
        indexes(repo.ranges, repo.sorted, repo.level as nat),
        sorted_entries(node_entries(repo.node_keys, repo.nodes), repo.sorted),
        repo.node_keys.no_duplicates(),
        forall|k: Seq<char>| #[trigger] repo.node_keys.contains(k) ==> repo.nodes[k].id == k,
    ensures
        cell_ids(cells, repo).no_duplicates(),
        forall|m: int|
            0 <= m < cell_ids(cells, repo).len() ==> comes_from(
                cells,
                repo,
                #[trigger] cell_ids(cells, repo)[m],
            ),
    decreases cells.len(),
{
    if cells.len() > 0 {
        let front = cells.drop_last();
        let last = cells.last();
        lemma_cell_ids_differ(front, repo);
        let earlier = cell_ids(front, repo);
        let all = cell_ids(cells, repo);
        let level = repo.level as nat;
        let list = node_entries(repo.node_keys, repo.nodes);
        assert forall|m: int| 0 <= m < earlier.len() implies comes_from(
            cells,
            repo,
            #[trigger] earlier[m],
        ) by {
            assert(comes_from(front, repo, earlier[m]));
            let i = choose|i: int| #[trigger]
                stands_in(front, repo, i) && repo.sorted[i].1 == earlier[m];
            let k = choose|k: int|
                0 <= k < front.len() && cell_around(repo.sorted[i].0, level) == #[trigger] front[k];
            assert(cells[k] == front[k]);
            assert(stands_in(cells, repo, i));
        }
        if repo.ranges.contains_key(last) {
            let range = repo.ranges[last];
            let part = range_ids(repo.sorted, range);
            assert(spans(range, last, repo.sorted, level));
            assert forall|m: int| 0 <= m < part.len() implies stands_in(cells, repo, range.0 + m)
                && repo.sorted[range.0 + m].1 == #[trigger] part[m] && cell_around(
                repo.sorted[range.0 + m].0,
                level,
            ) == last by {
                law_cell_ranges_are_exact(
                    repo.ranges,
                    list,
                    repo.sorted,
                    level,
                    last,
                    range.0 + m,
                );
                assert(cells[cells.len() - 1] == last);
            }
            assert forall|a: int, b: int| 0 <= a < part.len() && 0 <= b < part.len() && a
                != b implies part[a] != part[b] by {
                lemma_entries_differ(repo, range.0 + a, range.0 + b);
            }
            assert forall|a: int, b: int| 0 <= a < earlier.len() && 0 <= b < part.len() implies earlier[a]
                != part[b] by {
                assert(comes_from(front, repo, earlier[a]));
                let i = choose|i: int| #[trigger]
                    stands_in(front, repo, i) && repo.sorted[i].1 == earlier[a];
                let k = choose|k: int|
                    0 <= k < front.len() && cell_around(repo.sorted[i].0, level)
                        == #[trigger] front[k];
                assert(cells[k] == front[k]);
                assert(part[b] == repo.sorted[range.0 + b].1);
                assert(cells[cells.len() - 1] != cells[k]);
                lemma_entries_differ(repo, i, range.0 + b);
            }
            assert forall|m: int| 0 <= m < all.len() implies comes_from(
                cells,
                repo,
                #[trigger] all[m],
            ) by {
                if m < earlier.len() {
                    assert(all[m] == earlier[m]);
                } else {
                    assert(all[m] == part[m - earlier.len()]);
                    assert(stands_in(cells, repo, range.0 + (m - earlier.len())));
                }
            }
            assert forall|a: int, b: int| 0 <= a < b < all.len() implies all[a] != all[b] by {
                if b < earlier.len() {
                    assert(earlier[a] != earlier[b]);
                } else if a >= earlier.len() {
                    assert(part[a - earlier.len()] != part[b - earlier.len()]);
                } else {
                    assert(earlier[a] != part[b - earlier.len()]);
                }
            }
        } else {
            assert(all == earlier);
            assert forall|m: int| 0 <= m < all.len() implies comes_from(
                cells,
                repo,
                #[trigger] all[m],
            ) by {
                assert(all[m] == earlier[m]);
            }
        }
    }
}

/// A tile that is worked out names no node twice.
pub proof fn law_tile_names_no_node_twice(
    repo: RepoView,
    next: RepoView,
    region: Option<Bounds>,
    zoom: int,
    x: int,
    y: int,
    bounds: Bounds,
    meets: spec_fn(Bounds) -> spec_fn(u64) -> bool,
    r: Result<Vec<String>, Failure>,
)
    requires
        tile_outcome(repo, next, region, zoom, x, y, bounds, meets, r),
        !repo.tile_cache.contains_key(tile_key(repo.graph_version, zoom, x, y)),
        indexes(repo.ranges, repo.sorted, repo.level as nat),
        sorted_entries(node_entries(repo.node_keys, repo.nodes), repo.sorted),
        repo.node_keys.no_duplicates(),
        forall|k: Seq<char>| #[trigger] repo.node_keys.contains(k) ==> repo.nodes[k].id == k,
        repo.level <= 30,
        r is Ok,
    ensures
        texts(r->Ok_0@).no_duplicates(),
{
    let level = repo.level as nat;
    let area = match region {
        Some(area) => common(bounds, area),
        None => bounds,
    };
    lemma_faces_are_spread(6, level, meets(area));
    let cells = tile_cells(bounds, region, level, meets);
    lemma_cell_ids_differ(cells, repo);
    lemma_filter_unique(
        cell_ids(cells, repo),
        |id: Seq<char>| in_tile(bounds, repo.nodes[id].coord),
    );
}

} // verus!
