//! Walks along roads and their lengths.
use vstd::prelude::*;

use crate::geometry::Coord;
use crate::production::roads_from;
use crate::repo::{EdgeView, RepoView};

verus! {

/// What `f` makes of two lengths.
pub open spec fn sum_of<S: Fn(u64, u64) -> u64>(f: S, a: u64, b: u64) -> u64 {
    choose|s: u64| call_ensures(f, (a, b), s)
}

/// `f` is total, and answers the same on the same lengths.
pub open spec fn adds<S: Fn(u64, u64) -> u64>(f: S) -> bool {
    &&& forall|a: u64, b: u64| call_requires(f, (a, b))
    &&& forall|a: u64, b: u64, s: u64| #[trigger]
        call_ensures(f, (a, b), s) ==> s == sum_of(f, a, b)
}

/// `f` as a mathematical function.
pub open spec fn plus<S: Fn(u64, u64) -> u64>(f: S) -> spec_fn(u64, u64) -> u64 {
    |a: u64, b: u64| sum_of(f, a, b)
}

/// The sum of two lengths.
pub fn add_lengths<S: Fn(u64, u64) -> u64>(f: &S, a: u64, b: u64) -> (s: u64)
    requires
        adds(*f),
    ensures
        s == plus(*f)(a, b),
{
    f(a, b)
}

/// Going on never makes a walk shorter, and going on from a shorter walk leads
/// to a walk that is not longer.
pub open spec fn grows(plus: spec_fn(u64, u64) -> u64) -> bool {
    &&& forall|a: u64, w: u64| #[trigger] plus(a, w) >= a
    &&& forall|a: u64, b: u64, w: u64|
        a <= b ==> #[trigger] plus(a, w) <= #[trigger] plus(b, w)
}

/// A road of length `weight` leads from `a` to `b`.
pub open spec fn has_road(repo: RepoView, a: Seq<char>, b: Seq<char>, weight: u64) -> bool {
    roads_from(repo, a).contains(EdgeView { to: b, weight })
}

/// Points with the lengths of the roads between them.
#[verifier::ext_equal]
pub struct Walk {
    pub points: Seq<Seq<char>>,
    pub weights: Seq<u64>,
}

/// Each point is joined to the next by a road.
pub open spec fn is_walk(repo: RepoView, walk: Walk) -> bool {
    &&& walk.points.len() == walk.weights.len() + 1
    &&& forall|i: int|
        0 <= i < walk.weights.len() ==> #[trigger] has_road(
            repo,
            walk.points[i],
            walk.points[i + 1],
            walk.weights[i],
        )
}

/// The length of a walk whose roads have the lengths `weights`.
pub open spec fn length_of(weights: Seq<u64>, plus: spec_fn(u64, u64) -> u64) -> u64
    decreases weights.len(),
{
    if weights.len() == 0 {
        0
    } else {
        plus(length_of(weights.drop_last(), plus), weights.last())
    }
}

/// A walk from `from` to `to`.
pub open spec fn leads(repo: RepoView, walk: Walk, from: Seq<char>, to: Seq<char>) -> bool {
    is_walk(repo, walk) && walk.points[0] == from && walk.points.last() == to
}

/// A walk from `from` to `to` that passes no node on its way.
pub open spec fn connects(repo: RepoView, walk: Walk, from: Seq<char>, to: Seq<char>) -> bool {
    &&& leads(repo, walk, from, to)
    &&& forall|i: int|
        0 < i < walk.weights.len() ==> !repo.nodes.contains_key(#[trigger] walk.points[i])
}

/// A connection that no other one undercuts.
pub open spec fn shortest_connection(
    repo: RepoView,
    walk: Walk,
    from: Seq<char>,
    to: Seq<char>,
    plus: spec_fn(u64, u64) -> u64,
) -> bool {
    &&& connects(repo, walk, from, to)
    &&& forall|other: Walk| #[trigger]
        connects(repo, other, from, to) ==> length_of(walk.weights, plus) <= length_of(
            other.weights,
            plus,
        )
}

/// `to` is another node that a road reaches from `from` without passing a node.
pub open spec fn adjacent(repo: RepoView, from: Seq<char>, to: Seq<char>) -> bool {
    &&& to != from
    &&& repo.nodes.contains_key(to)
    &&& exists|walk: Walk| #[trigger] connects(repo, walk, from, to)
}

/// Some walk leads from `from` to `to`.
pub open spec fn reachable(repo: RepoView, from: Seq<char>, to: Seq<char>) -> bool {
    exists|walk: Walk| #[trigger] leads(repo, walk, from, to)
}

/// The places of the points of a walk.
pub open spec fn places(repo: RepoView, points: Seq<Seq<char>>) -> Seq<Coord> {
    Seq::new(points.len(), |i: int| repo.coords[points[i]])
}

/// Every node and every end of a road has a place on the map.
pub open spec fn mapped(repo: RepoView) -> bool {
    &&& forall|k: Seq<char>| #[trigger] repo.nodes.contains_key(k) ==> repo.coords.contains_key(k)
    &&& forall|a: Seq<char>, b: Seq<char>, w: u64| #[trigger]
        has_road(repo, a, b, w) ==> repo.coords.contains_key(b)
}

/// How far a point is from the goal as the crow flies; nothing for a point
/// without a place.
pub open spec fn crow(
    repo: RepoView,
    goal: Seq<char>,
    distance: spec_fn(Coord, Coord) -> u64,
) -> spec_fn(Seq<char>) -> u64 {
    |x: Seq<char>|
        if repo.coords.contains_key(x) {
            distance(repo.coords[x], repo.coords[goal])
        } else {
            0
        }
}

/// A walk from `from` to `to` that passes no point twice.
pub open spec fn simple_walk(repo: RepoView, walk: Walk, from: Seq<char>, to: Seq<char>) -> bool {
    leads(repo, walk, from, to) && walk.points.no_duplicates()
}

/// Some walk from `from` to `x` that passes no point twice has this length.
pub open spec fn has_length(
    repo: RepoView,
    from: Seq<char>,
    x: Seq<char>,
    length: u64,
    plus: spec_fn(u64, u64) -> u64,
) -> bool {
    exists|walk: Walk| #[trigger]
        simple_walk(repo, walk, from, x) && length_of(walk.weights, plus) == length
}

/// The distances as the crow flies are a sure guide on the way from `from`. Of two walks
/// to a point the shorter one stays the shorter when what lies ahead is added, and no
/// road gains more than its length. Both are asked only of lengths that occur: those of
/// walks from `from` that pass no point twice.
pub open spec fn sure_guide(
    repo: RepoView,
    plus: spec_fn(u64, u64) -> u64,
    ahead: spec_fn(Seq<char>) -> u64,
    from: Seq<char>,
) -> bool {
    &&& forall|x: Seq<char>, g: u64, h: u64| #[trigger]
        has_length(repo, from, x, g, plus) && #[trigger] has_length(repo, from, x, h, plus) && g < h
            ==> plus(g, ahead(x)) < plus(h, ahead(x))
    &&& forall|x: Seq<char>, y: Seq<char>, w: u64, g: u64| #[trigger]
        has_length(repo, from, x, g, plus) && #[trigger] has_road(repo, x, y, w) ==> plus(
            g,
            ahead(x),
        ) <= plus(plus(g, w), ahead(y))
}

/// Lengths are added exactly, as far as they fit.
pub open spec fn adds_exactly(plus: spec_fn(u64, u64) -> u64) -> bool {
    forall|a: u64, b: u64| #[trigger]
        plus(a, b) == (if a + b <= u64::MAX {
            a + b
        } else {
            u64::MAX as int
        })
}

/// Where lengths are added exactly, as far as they fit, the distances as the crow flies
/// are a sure guide if no road is shorter than what it gains.
pub proof fn law_exact_sums_guide_surely(
    repo: RepoView,
    plus: spec_fn(u64, u64) -> u64,
    ahead: spec_fn(Seq<char>) -> u64,
    from: Seq<char>,
)
    requires
        adds_exactly(plus),
        forall|x: Seq<char>, y: Seq<char>, w: u64| #[trigger]
            has_road(repo, x, y, w) ==> ahead(x) <= w + ahead(y),
        forall|x: Seq<char>, g: u64| #[trigger]
            has_length(repo, from, x, g, plus) ==> g + ahead(x) <= u64::MAX,
    ensures
        grows(plus),
        sure_guide(repo, plus, ahead, from),
{
}

/// The first `k` roads of a walk.
pub open spec fn first_roads(walk: Walk, k: int) -> Walk {
    Walk { points: walk.points.take(k + 1), weights: walk.weights.take(k) }
}

/// A walk that goes on by one road.
pub open spec fn longer_by(walk: Walk, to: Seq<char>, weight: u64) -> Walk {
    Walk { points: walk.points.push(to), weights: walk.weights.push(weight) }
}

pub proof fn lemma_first_roads(
    repo: RepoView,
    walk: Walk,
    from: Seq<char>,
    to: Seq<char>,
    k: int,
)
    requires
        leads(repo, walk, from, to),
        0 <= k <= walk.weights.len(),
    ensures
        leads(repo, first_roads(walk, k), from, walk.points[k]),
        walk.points.no_duplicates() ==> simple_walk(
            repo,
            first_roads(walk, k),
            from,
            walk.points[k],
        ),
{
    let part = first_roads(walk, k);
    assert forall|i: int| 0 <= i < part.weights.len() implies #[trigger] has_road(
        repo,
        part.points[i],
        part.points[i + 1],
        part.weights[i],
    ) by {
        assert(has_road(repo, walk.points[i], walk.points[i + 1], walk.weights[i]));
    }
}

/// A part of a walk is no longer than the whole.
pub proof fn lemma_part_is_shorter(weights: Seq<u64>, plus: spec_fn(u64, u64) -> u64, k: int)
    requires
        grows(plus),
        0 <= k <= weights.len(),
    ensures
        length_of(weights.take(k), plus) <= length_of(weights, plus),
    decreases weights.len(),
{
    if k < weights.len() {
        let front = weights.drop_last();
        lemma_part_is_shorter(front, plus, k);
        assert(front.take(k) =~= weights.take(k));
        assert(plus(length_of(front, plus), weights.last()) >= length_of(front, plus));
    } else {
        assert(weights.take(k) =~= weights);
    }
}

pub proof fn lemma_longer_by(
    repo: RepoView,
    walk: Walk,
    from: Seq<char>,
    mid: Seq<char>,
    to: Seq<char>,
    weight: u64,
    plus: spec_fn(u64, u64) -> u64,
)
    requires
        leads(repo, walk, from, mid),
        has_road(repo, mid, to, weight),
    ensures
        leads(repo, longer_by(walk, to, weight), from, to),
        length_of(longer_by(walk, to, weight).weights, plus) == plus(
            length_of(walk.weights, plus),
            weight,
        ),
        walk.points.no_duplicates() && !walk.points.contains(to) ==> simple_walk(
            repo,
            longer_by(walk, to, weight),
            from,
            to,
        ),
{
    let more = longer_by(walk, to, weight);
    assert(more.weights.drop_last() =~= walk.weights);
    assert forall|i: int| 0 <= i < more.weights.len() implies #[trigger] has_road(
        repo,
        more.points[i],
        more.points[i + 1],
        more.weights[i],
    ) by {
        if i < walk.weights.len() {
            assert(has_road(repo, walk.points[i], walk.points[i + 1], walk.weights[i]));
        }
    }
}

/// Where a walk leads, one that passes no point twice leads too, and is no longer.
pub proof fn lemma_cut_short(
    repo: RepoView,
    walk: Walk,
    from: Seq<char>,
    to: Seq<char>,
    plus: spec_fn(u64, u64) -> u64,
) -> (short: Walk)
    requires
        grows(plus),
        leads(repo, walk, from, to),
    ensures
        simple_walk(repo, short, from, to),
        length_of(short.weights, plus) <= length_of(walk.weights, plus),
    decreases walk.weights.len(),
{
    let n = walk.weights.len() as int;
    if n == 0 {
        walk
    } else {
        let front = first_roads(walk, n - 1);
        let mid = walk.points[n - 1];
        let w = walk.weights.last();
        lemma_first_roads(repo, walk, from, to, n - 1);
        assert(front.weights =~= walk.weights.drop_last());
        let part = lemma_cut_short(repo, front, from, mid, plus);
        let before = length_of(front.weights, plus);
        assert(plus(length_of(part.weights, plus), w) <= plus(before, w));
        assert(plus(before, w) >= before);
        let last = n - 1;
        assert(has_road(repo, walk.points[last], walk.points[last + 1], walk.weights[last]));
        if part.points.contains(to) {
            let k = part.points.index_of(to);
            lemma_first_roads(repo, part, from, mid, k);
            lemma_part_is_shorter(part.weights, plus, k);
            first_roads(part, k)
        } else {
            lemma_longer_by(repo, part, from, mid, to, w, plus);
            longer_by(part, to, w)
        }
    }
}

/// A walk that no other one between its ends undercuts.
pub open spec fn shortest_walk(
    repo: RepoView,
    walk: Walk,
    from: Seq<char>,
    to: Seq<char>,
    plus: spec_fn(u64, u64) -> u64,
) -> bool {
    &&& leads(repo, walk, from, to)
    &&& forall|other: Walk| #[trigger]
        leads(repo, other, from, to) ==> length_of(walk.weights, plus) <= length_of(
            other.weights,
            plus,
        )
}

} // verus!
