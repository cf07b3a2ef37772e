//! The nodes next to a node: a search by length that stops at nodes.
use vstd::multiset::Multiset;
use vstd::prelude::*;

use super::{
    exact, found_in, keeps_settled, lemma_better, lemma_chain_length, lemma_found_bounded,
    lemma_road_ends, lemma_total_drops, places_of, total, universe, went_on, Found, Trail,
};
use crate::geometry::Coord;
use crate::heap::OpenList;
use crate::production::roads_from;
use crate::repo::{EdgeList, EdgeView, NodeRepo, RepoView};
use crate::state::texts;
use crate::text::same_text;
use crate::walks::{
    add_lengths, adds, adjacent, connects, grows, has_road, length_of, mapped, places, plus,
    shortest_connection, Walk,
};

verus! {

/// A search that goes on from a point: the first, or one that is no node.
spec fn passes(found: Found, repo: RepoView, u: int) -> bool {
    u == 0 || !repo.nodes.contains_key(found.names()[u])
}

/// The road to `b` of length `w` from a point reached at length `at` has been
/// looked at.
spec fn looked_at(
    found: Found,
    start: Seq<char>,
    plus: spec_fn(u64, u64) -> u64,
    at: u64,
    b: Seq<char>,
    w: u64,
) -> bool {
    b != start ==> found.place@.contains_key(b) && found.best@[found.place@[b] as int] <= plus(at, w)
}

/// All roads from `u` have been looked at.
spec fn expanded(
    found: Found,
    repo: RepoView,
    start: Seq<char>,
    plus: spec_fn(u64, u64) -> u64,
    u: int,
) -> bool {
    forall|b: Seq<char>, w: u64| #[trigger]
        has_road(repo, found.names()[u], b, w) ==> looked_at(
            found,
            start,
            plus,
            found.best@[u],
            b,
            w,
        )
}

/// The state of a search by length. Points that are settled are reached at their
/// least length, which is at most `floor`; the others wait in the open list. The
/// roads from `busy` are just being looked at.
spec fn searching(
    found: Found,
    open: Multiset<(u64, usize)>,
    repo: RepoView,
    start: Seq<char>,
    plus: spec_fn(u64, u64) -> u64,
    trail: Trail,
    settled: Set<int>,
    floor: u64,
    busy: int,
) -> bool {
    let n = found.ids.len() as int;
    &&& found.tree(repo, start, plus, trail)
    &&& forall|v: int|
        0 <= v < n && !#[trigger] settled.contains(v) ==> open.contains(
            (found.best@[v], v as usize),
        )
    &&& forall|e: (u64, usize)| #[trigger]
        open.contains(e) ==> e.1 < n && e.0 >= found.best@[e.1 as int] && e.0 >= floor
    &&& forall|v: int| #[trigger]
        settled.contains(v) ==> 0 <= v < n && found.best@[v] <= floor
    &&& forall|v: int|
        0 < v < n ==> {
            let u = #[trigger] found.from@[v] as int;
            &&& settled.contains(u)
            &&& passes(found, repo, u)
            &&& found.best@[v] == plus(found.best@[u], trail.weights[v])
        }
    &&& forall|u: int| #[trigger]
        settled.contains(u) && u != busy && passes(found, repo, u) ==> expanded(
            found,
            repo,
            start,
            plus,
            u,
        )
}

/// Looking at a road that leads on keeps the search in order.
proof fn lemma_relax(
    before: Found,
    after: Found,
    open: Multiset<(u64, usize)>,
    repo: RepoView,
    start: Seq<char>,
    plus: spec_fn(u64, u64) -> u64,
    trail: Trail,
    settled: Set<int>,
    u: int,
    v: int,
    to: Seq<char>,
    weight: u64,
) -> (next: Trail)
    requires
        grows(plus),
        searching(before, open, repo, start, plus, trail, settled, before.best@[u], u),
        settled.contains(u),
        passes(before, repo, u),
        has_road(repo, before.names()[u], to, weight),
        after.wf(),
        if before.place@.contains_key(to) {
            let score = plus(before.best@[u], weight);
            &&& v == before.place@[to]
            &&& score < before.best@[v]
            &&& after.ids == before.ids
            &&& after.place@ == before.place@
            &&& after.best@ == before.best@.update(v, score)
            &&& after.from@ == before.from@.update(v, u as usize)
        } else {
            let score = plus(before.best@[u], weight);
            &&& v == before.ids.len()
            &&& v <= usize::MAX
            &&& after.names() == before.names().push(to)
            &&& after.place@ == before.place@.insert(to, v as usize)
            &&& after.best@ == before.best@.push(score)
            &&& after.from@ == before.from@.push(u as usize)
        },
    ensures
        searching(
            after,
            open.insert((after.best@[v], v as usize)),
            repo,
            start,
            plus,
            next,
            settled,
            before.best@[u],
            u,
        ),
        !settled.contains(v),
        forall|x: int| #[trigger]
            settled.contains(x) ==> after.best@[x] == before.best@[x] && after.names()[x]
                == before.names()[x],
        after.best@[u] == before.best@[u],
        after.best@[v] == plus(before.best@[u], weight),
{
    let n = before.ids.len() as int;
    let score = plus(before.best@[u], weight);
    assert(score >= before.best@[u]);
    assert(before.names().len() == n);
    assert(after.names().len() == after.ids.len());
    if before.place@.contains_key(to) {
        assert(before.names()[v] == to);
    }
    assert(after.names()[v] == to);
    let next = Found::lemma_improved(before, after, repo, start, plus, trail, v, u, weight);
    assert(!settled.contains(v));
    let grown = open.insert((score, v as usize));
    assert forall|x: int| #[trigger] settled.contains(x) implies after.best@[x] == before.best@[x]
        && after.names()[x] == before.names()[x] by {}
    assert forall|x: int| 0 <= x < after.ids.len() && !#[trigger] settled.contains(x) implies grown.contains(
        (after.best@[x], x as usize),
    ) by {
        if x != v {
            assert(open.contains((before.best@[x], x as usize)));
        }
    }
    assert forall|e: (u64, usize)| #[trigger] grown.contains(e) implies e.1 < after.ids.len()
        && e.0 >= after.best@[e.1 as int] && e.0 >= before.best@[u] by {
        if e != (score, v as usize) {
            assert(open.contains(e));
        }
    }
    assert forall|x: int| 0 < x < after.ids.len() implies {
        let y = #[trigger] after.from@[x] as int;
        &&& settled.contains(y)
        &&& passes(after, repo, y)
        &&& after.best@[x] == plus(after.best@[y], next.weights[x])
    } by {
        if x != v {
            assert(before.from@[x] == after.from@[x]);
            assert(settled.contains(before.from@[x] as int));
        }
    }
    assert forall|x: int| #[trigger]
        settled.contains(x) && x != u && passes(after, repo, x) implies expanded(
        after,
        repo,
        start,
        plus,
        x,
    ) by {
        assert(passes(before, repo, x));
        assert(expanded(before, repo, start, plus, x));
        assert forall|b: Seq<char>, w: u64| #[trigger]
            has_road(repo, after.names()[x], b, w) implies looked_at(
            after,
            start,
            plus,
            after.best@[x],
            b,
            w,
        ) by {
            assert(has_road(repo, before.names()[x], b, w));
            assert(looked_at(before, start, plus, before.best@[x], b, w));
            if b != start {
                lemma_better(before, after, v, to, score, b);
            }
        }
    }
    next
}

/// At the end of a search every point on a connection has been reached, at no
/// greater length than the connection takes to it.
proof fn lemma_reached(
    found: Found,
    repo: RepoView,
    start: Seq<char>,
    plus: spec_fn(u64, u64) -> u64,
    trail: Trail,
    settled: Set<int>,
    floor: u64,
    walk: Walk,
    to: Seq<char>,
    k: int,
)
    requires
        grows(plus),
        searching(
            found,
            Multiset::empty(),
            repo,
            start,
            plus,
            trail,
            settled,
            floor,
            -1,
        ),
        repo.nodes.contains_key(start),
        connects(repo, walk, start, to),
        to != start,
        0 <= k <= walk.weights.len(),
    ensures
        found.place@.contains_key(walk.points[k]),
        found.best@[found.place@[walk.points[k]] as int] <= length_of(walk.weights.take(k), plus),
    decreases k,
{
    if k == 0 {
        assert(found.place@.contains_key(found.names()[0]));
        assert(walk.weights.take(0).len() == 0);
    } else {
        let j = k - 1;
        lemma_reached(found, repo, start, plus, trail, settled, floor, walk, to, j);
        let u = found.place@[walk.points[j]] as int;
        assert(found.names()[u] == walk.points[j]);
        if !settled.contains(u) {
            assert(Multiset::<(u64, usize)>::empty().contains((found.best@[u], u as usize)));
            assert(false);
        }
        if j == 0 {
            assert(found.place@.contains_key(found.names()[0]));
            assert(u == 0);
        } else {
            assert(!repo.nodes.contains_key(walk.points[j]));
        }
        assert(passes(found, repo, u));
        assert(expanded(found, repo, start, plus, u));
        assert(has_road(repo, walk.points[j], walk.points[j + 1], walk.weights[j]));
        let b = walk.points[k];
        if k < walk.weights.len() {
            assert(!repo.nodes.contains_key(walk.points[k]));
        }
        assert(b != start);
        assert(looked_at(found, start, plus, found.best@[u], b, walk.weights[j]));
        assert(walk.weights.take(k).drop_last() =~= walk.weights.take(j));
        assert(walk.weights.take(k).last() == walk.weights[j]);
        assert(plus(found.best@[u], walk.weights[j]) <= plus(
            length_of(walk.weights.take(j), plus),
            walk.weights[j],
        ));
    }
}

/// The walk along a chain of settled points is a connection, as long as the
/// search says.
proof fn lemma_chain_connects(
    found: Found,
    open: Multiset<(u64, usize)>,
    repo: RepoView,
    start: Seq<char>,
    plus: spec_fn(u64, u64) -> u64,
    trail: Trail,
    settled: Set<int>,
    floor: u64,
    busy: int,
    chain: Seq<usize>,
)
    requires
        searching(found, open, repo, start, plus, trail, settled, floor, busy),
        found.traced(chain),
    ensures
        connects(
            repo,
            found.walk_of(chain, trail),
            start,
            found.names()[chain.last() as int],
        ),
        length_of(found.walk_of(chain, trail).weights, plus) == found.best@[chain.last() as int],
{
    let walk = found.walk_of(chain, trail);
    found.lemma_walk_of(chain, repo, start, plus, trail);
    assert forall|i: int| 0 < i < walk.weights.len() implies !repo.nodes.contains_key(
        #[trigger] walk.points[i],
    ) by {
        assert(found.follows(chain[i], chain[i + 1]));
        assert(found.from@[chain[i + 1] as int] == chain[i]);
        assert(found.follows(chain[i - 1], chain[(i - 1) + 1]));
        assert(passes(found, repo, chain[i] as int));
    }
    lemma_chain_length(found, plus, trail, chain, chain.len() - 1);
    assert(walk.weights.take(chain.len() - 1) =~= walk.weights);
}

/// The nodes next to a node, and the way to each.
pub struct Neighbors {
    pub targets: Vec<String>,
    pub routes: Vec<Vec<Coord>>,
}

/// Routes as the places they pass.
pub open spec fn route_views(routes: Seq<Vec<Coord>>) -> Seq<Seq<Coord>> {
    Seq::new(routes.len(), |i: int| routes[i]@)
}

/// `targets` are the nodes next to `start`, from near to far, and `routes` the
/// places along the shortest connection `walks` to each.
pub open spec fn neighbors_by(
    repo: RepoView,
    start: Seq<char>,
    plus: spec_fn(u64, u64) -> u64,
    targets: Seq<Seq<char>>,
    routes: Seq<Seq<Coord>>,
    walks: Seq<Walk>,
) -> bool {
    &&& targets.no_duplicates()
    &&& forall|t: Seq<char>| #[trigger] targets.contains(t) <==> adjacent(repo, start, t)
    &&& routes.len() == targets.len()
    &&& walks.len() == targets.len()
    &&& forall|i: int|
        0 <= i < targets.len() ==> shortest_connection(
            repo,
            #[trigger] walks[i],
            start,
            targets[i],
            plus,
        ) && routes[i] == places(repo, walks[i].points)
    &&& forall|i: int, j: int|
        0 <= i <= j < walks.len() ==> length_of((#[trigger] walks[i]).weights, plus) <= length_of(
            (#[trigger] walks[j]).weights,
            plus,
        )
}

/// What a search has noted of the nodes it came upon: `points` are their places
/// in its tables.
spec fn noted(
    found: Found,
    repo: RepoView,
    start: Seq<char>,
    plus: spec_fn(u64, u64) -> u64,
    settled: Set<int>,
    floor: u64,
    points: Seq<int>,
    targets: Seq<Seq<char>>,
    routes: Seq<Seq<Coord>>,
    walks: Seq<Walk>,
) -> bool {
    &&& points.len() == targets.len()
    &&& routes.len() == targets.len()
    &&& walks.len() == targets.len()
    &&& points.no_duplicates()
    &&& forall|i: int|
        0 <= i < points.len() ==> {
            let v = #[trigger] points[i];
            &&& v != 0
            &&& settled.contains(v)
            &&& repo.nodes.contains_key(found.names()[v])
            &&& targets[i] == found.names()[v]
            &&& connects(repo, walks[i], start, targets[i])
            &&& length_of(walks[i].weights, plus) == found.best@[v]
            &&& routes[i] == places(repo, walks[i].points)
        }
    &&& forall|v: int| #[trigger]
        settled.contains(v) && v != 0 && repo.nodes.contains_key(found.names()[v])
            ==> points.contains(v)
    &&& forall|i: int, j: int|
        0 <= i <= j < points.len() ==> found.best@[#[trigger] points[i]]
            <= found.best@[#[trigger] points[j]]
}

/// When nothing is open any more, what was noted are the neighbours.
proof fn lemma_all_noted(
    found: Found,
    repo: RepoView,
    start: Seq<char>,
    plus: spec_fn(u64, u64) -> u64,
    trail: Trail,
    settled: Set<int>,
    floor: u64,
    points: Seq<int>,
    targets: Seq<Seq<char>>,
    routes: Seq<Seq<Coord>>,
    walks: Seq<Walk>,
)
    requires
        grows(plus),
        searching(
            found,
            Multiset::empty(),
            repo,
            start,
            plus,
            trail,
            settled,
            floor,
            -1,
        ),
        repo.nodes.contains_key(start),
        noted(found, repo, start, plus, settled, floor, points, targets, routes, walks),
    ensures
        neighbors_by(repo, start, plus, targets, routes, walks),
{
    assert forall|i: int, j: int|
        0 <= i < targets.len() && 0 <= j < targets.len() && i != j implies targets[i]
        != targets[j] by {
        assert(points[i] != points[j]);
        assert(found.place@.contains_key(found.names()[points[i]]));
        assert(found.place@.contains_key(found.names()[points[j]]));
    }
    assert forall|t: Seq<char>| #[trigger] targets.contains(t) implies adjacent(
        repo,
        start,
        t,
    ) by {
        let i = targets.index_of(t);
        let v = points[i];
        assert(connects(repo, walks[i], start, t));
        assert(found.place@.contains_key(found.names()[0]));
        assert(found.place@.contains_key(found.names()[v]));
    }
    assert forall|t: Seq<char>| adjacent(repo, start, t) implies #[trigger] targets.contains(t) by {
        let walk = choose|walk: Walk| #[trigger] connects(repo, walk, start, t);
        let k = walk.weights.len() as int;
        lemma_reached(found, repo, start, plus, trail, settled, floor, walk, t, k);
        assert(walk.points.last() == walk.points[k]);
        let v = found.place@[t] as int;
        assert(found.names()[v] == t);
        if !settled.contains(v) {
            assert(Multiset::<(u64, usize)>::empty().contains((found.best@[v], v as usize)));
            assert(false);
        }
        let i = points.index_of(v);
        assert(points[i] == v);
        assert(targets[i] == t);
    }
    assert forall|i: int| 0 <= i < targets.len() implies shortest_connection(
        repo,
        #[trigger] walks[i],
        start,
        targets[i],
        plus,
    ) && routes[i] == places(repo, walks[i].points) by {
        let v = points[i];
        assert forall|other: Walk| #[trigger]
            connects(repo, other, start, targets[i]) implies length_of(walks[i].weights, plus)
            <= length_of(other.weights, plus) by {
            assert(targets.contains(targets[i]));
            let k = other.weights.len() as int;
            lemma_reached(found, repo, start, plus, trail, settled, floor, other, targets[i], k);
            assert(other.points.last() == other.points[k]);
            assert(other.weights.take(k) =~= other.weights);
            assert(found.place@.contains_key(found.names()[v]));
        }
    }
    assert forall|i: int, j: int| 0 <= i <= j < walks.len() implies length_of(
        (#[trigger] walks[i]).weights,
        plus,
    ) <= length_of((#[trigger] walks[j]).weights, plus) by {
        assert(found.best@[points[i]] <= found.best@[points[j]]);
    }
}

/// Looks at all roads from point `u`.
fn expand<S: Fn(u64, u64) -> u64>(
    found: &mut Found,
    open: &mut OpenList,
    list: &EdgeList,
    u: usize,
    start: &str,
    sum: &S,
    repo: Ghost<RepoView>,
    trail: Ghost<Trail>,
    settled: Ghost<Set<int>>,
    all: Ghost<Set<Seq<char>>>,
) -> (next: Ghost<Trail>)
    requires
        adds(*sum),
        grows(plus(*sum)),
        searching(
            *old(found),
            old(open)@,
            repo@,
            start@,
            plus(*sum),
            trail@,
            settled@,
            old(found).best@[u as int],
            u as int,
        ),
        settled@.contains(u as int),
        passes(*old(found), repo@, u as int),
        list@ == roads_from(repo@, old(found).names()[u as int]),
        found_in(*old(found), all@),
        forall|a: Seq<char>, b: Seq<char>, w: u64| #[trigger]
            has_road(repo@, a, b, w) ==> all@.contains(b),
    ensures
        searching(
            *final(found),
            final(open)@,
            repo@,
            start@,
            plus(*sum),
            next@,
            settled@,
            old(found).best@[u as int],
            -1,
        ),
        found_in(*final(found), all@),
        keeps_settled(*old(found), *final(found), settled@),
        went_on(*old(found), old(open)@, *final(found), final(open)@),
{
    let ghost first = *found;
    let ghost first_open = open@;
    let ghost p = plus(*sum);
    let ghost floor = found.best@[u as int];
    let ghost mut current = trail@;
    let score: u64 = found.best[u];
    let ghost edges = list@;
    let mut i: usize = 0;
    while i < list.edges.len()
        invariant
            adds(*sum),
            p == plus(*sum),
            grows(p),
            edges == list@,
            edges == roads_from(repo@, first.names()[u as int]),
            i <= list.edges.len(),
            settled@.contains(u as int),
            score == floor,
            found.best@[u as int] == floor,
            first.best@[u as int] == floor,
            searching(
                *found,
                open@,
                repo@,
                start@,
                p,
                current,
                settled@,
                floor,
                u as int,
            ),
            passes(*found, repo@, u as int),
            found_in(*found, all@),
            forall|a: Seq<char>, b: Seq<char>, w: u64| #[trigger]
                has_road(repo@, a, b, w) ==> all@.contains(b),
            keeps_settled(first, *found, settled@),
            went_on(first, first_open, *found, open@),
            forall|k: int|
                0 <= k < i ==> looked_at(
                    *found,
                    start@,
                    p,
                    floor,
                    (#[trigger] edges[k]).to,
                    edges[k].weight,
                ),
        decreases list.edges.len() - i,
    {
        let edge = &list.edges[i];
        let ghost before = *found;
        let ghost before_open = open@;
        proof {
            assert(edges[i as int] == edge@);
            assert(found.names()[u as int] == first.names()[u as int]);
            assert(has_road(repo@, found.names()[u as int], edge@.to, edge@.weight));
        }
        if !same_text(edge.to.as_str(), start) {
            let tentative: u64 = add_lengths(sum, score, edge.weight);
            if let Some(v) = found.improve(&edge.to, tentative, u) {
                open.push(tentative, v);
                proof {
                    current = lemma_relax(
                        before,
                        *found,
                        before_open,
                        repo@,
                        start@,
                        p,
                        current,
                        settled@,
                        u as int,
                        v as int,
                        edge@.to,
                        edge@.weight,
                    );
                    if before.place@.contains_key(edge@.to) {
                        lemma_total_drops(before.best@, v as int, tentative);
                        assert(found.names() == before.names());
                    }
                    assert(found_in(*found, all@)) by {
                        assert forall|x: int| 0 <= x < found.ids.len() implies all@.contains(
                            #[trigger] found.names()[x],
                        ) by {
                            if x < before.ids.len() {
                                assert(all@.contains(before.names()[x]));
                            }
                        }
                    }
                    assert forall|k: int| 0 <= k < i implies looked_at(
                        *found,
                        start@,
                        p,
                        floor,
                        (#[trigger] edges[k]).to,
                        edges[k].weight,
                    ) by {
                        assert(looked_at(before, start@, p, floor, edges[k].to, edges[k].weight));
                        if edges[k].to != start@ {
                            lemma_better(
                                before,
                                *found,
                                v as int,
                                edge@.to,
                                tentative,
                                edges[k].to,
                            );
                        }
                    }
                    assert(keeps_settled(first, *found, settled@));
                }
            }
        }
        i += 1;
    }
    proof {
        assert(expanded(*found, repo@, start@, p, u as int)) by {
            assert forall|b: Seq<char>, w: u64| #[trigger]
                has_road(repo@, found.names()[u as int], b, w) implies looked_at(
                *found,
                start@,
                p,
                found.best@[u as int],
                b,
                w,
            ) by {
                let k = edges.index_of(EdgeView { to: b, weight: w });
                assert(edges[k] == (EdgeView { to: b, weight: w }));
            }
        }
    }
    Ghost(current)
}

/// An entry that is out of date may go.
proof fn lemma_stale(
    found: Found,
    open: Multiset<(u64, usize)>,
    repo: RepoView,
    start: Seq<char>,
    plus: spec_fn(u64, u64) -> u64,
    trail: Trail,
    settled: Set<int>,
    floor: u64,
    entry: (u64, usize),
)
    requires
        searching(found, open, repo, start, plus, trail, settled, floor, -1),
        open.contains(entry),
        entry.0 > found.best@[entry.1 as int] || settled.contains(entry.1 as int),
    ensures
        searching(found, open.remove(entry), repo, start, plus, trail, settled, floor, -1),
{
    let rest = open.remove(entry);
    assert forall|v: int| 0 <= v < found.ids.len() && !#[trigger] settled.contains(v) implies rest.contains(
        (found.best@[v], v as usize),
    ) by {
        assert(open.contains((found.best@[v], v as usize)));
    }
    assert forall|e: (u64, usize)| #[trigger] rest.contains(e) implies e.1 < found.ids.len()
        && e.0 >= found.best@[e.1 as int] && e.0 >= floor by {
        assert(open.contains(e));
    }
}

/// The lowest entry, when it is up to date, is settled.
proof fn lemma_settle(
    found: Found,
    open: Multiset<(u64, usize)>,
    repo: RepoView,
    start: Seq<char>,
    plus: spec_fn(u64, u64) -> u64,
    trail: Trail,
    settled: Set<int>,
    floor: u64,
    entry: (u64, usize),
)
    requires
        searching(found, open, repo, start, plus, trail, settled, floor, -1),
        open.contains(entry),
        forall|e: (u64, usize)| #[trigger] open.contains(e) ==> entry.0 <= e.0,
        entry.0 <= found.best@[entry.1 as int],
        !settled.contains(entry.1 as int),
    ensures
        entry.0 == found.best@[entry.1 as int],
        floor <= entry.0,
        searching(
            found,
            open.remove(entry),
            repo,
            start,
            plus,
            trail,
            settled.insert(entry.1 as int),
            entry.0,
            entry.1 as int,
        ),
{
    let rest = open.remove(entry);
    let u = entry.1 as int;
    let more = settled.insert(u);
    assert forall|v: int| 0 <= v < found.ids.len() && !#[trigger] more.contains(v) implies rest.contains(
        (found.best@[v], v as usize),
    ) by {
        assert(!settled.contains(v));
        assert(open.contains((found.best@[v], v as usize)));
    }
    assert forall|e: (u64, usize)| #[trigger] rest.contains(e) implies e.1 < found.ids.len()
        && e.0 >= found.best@[e.1 as int] && e.0 >= entry.0 by {
        assert(open.contains(e));
    }
    assert forall|v: int| #[trigger] more.contains(v) implies 0 <= v < found.ids.len()
        && found.best@[v] <= entry.0 by {
        if v != u {
            assert(settled.contains(v));
        }
    }
    assert forall|x: int| #[trigger]
        more.contains(x) && x != u && passes(found, repo, x) implies expanded(
        found,
        repo,
        start,
        plus,
        x,
    ) by {
        assert(settled.contains(x));
    }
}

/// One more node is noted.
proof fn lemma_note(
    found: Found,
    repo: RepoView,
    start: Seq<char>,
    plus: spec_fn(u64, u64) -> u64,
    settled: Set<int>,
    floor: u64,
    score: u64,
    points: Seq<int>,
    targets: Seq<Seq<char>>,
    routes: Seq<Seq<Coord>>,
    walks: Seq<Walk>,
    u: int,
    walk: Walk,
    route: Seq<Coord>,
)
    requires
        noted(found, repo, start, plus, settled, floor, points, targets, routes, walks),
        forall|v: int| #[trigger] settled.contains(v) ==> found.best@[v] <= score,
        !settled.contains(u),
        u != 0,
        repo.nodes.contains_key(found.names()[u]),
        found.best@[u] == score,
        connects(repo, walk, start, found.names()[u]),
        length_of(walk.weights, plus) == found.best@[u],
        route == places(repo, walk.points),
    ensures
        noted(
            found,
            repo,
            start,
            plus,
            settled.insert(u),
            score,
            points.push(u),
            targets.push(found.names()[u]),
            routes.push(route),
            walks.push(walk),
        ),
{
    let more = points.push(u);
    assert forall|i: int, j: int|
        0 <= i < more.len() && 0 <= j < more.len() && i != j implies more[i] != more[j] by {
        if i < points.len() {
            assert(settled.contains(points[i]));
        }
        if j < points.len() {
            assert(settled.contains(points[j]));
        }
    }
    assert forall|i: int| 0 <= i < more.len() implies {
        let v = #[trigger] more[i];
        &&& v != 0
        &&& settled.insert(u).contains(v)
        &&& repo.nodes.contains_key(found.names()[v])
        &&& targets.push(found.names()[u])[i] == found.names()[v]
        &&& connects(repo, walks.push(walk)[i], start, targets.push(found.names()[u])[i])
        &&& length_of(walks.push(walk)[i].weights, plus) == found.best@[v]
        &&& routes.push(route)[i] == places(repo, walks.push(walk)[i].points)
    } by {
        if i < points.len() {
            let v = points[i];
            assert(settled.contains(v));
        }
    }
    assert forall|v: int| #[trigger]
        settled.insert(u).contains(v) && v != 0 && repo.nodes.contains_key(
            found.names()[v],
        ) implies more.contains(v) by {
        if v == u {
            assert(more[points.len() as int] == u);
        } else {
            assert(settled.contains(v));
            let w = points.index_of(v);
            assert(more[w] == v);
        }
    }
    assert forall|i: int, j: int| 0 <= i <= j < more.len() implies found.best@[#[trigger] more[i]]
        <= found.best@[#[trigger] more[j]] by {
        if j < points.len() {
            assert(found.best@[points[i]] <= found.best@[points[j]]);
        } else if i < points.len() {
            assert(settled.contains(points[i]));
        }
    }
}

/// What was noted stays true when the search goes on.
proof fn lemma_note_kept(
    before: Found,
    after: Found,
    repo: RepoView,
    start: Seq<char>,
    plus: spec_fn(u64, u64) -> u64,
    settled: Set<int>,
    floor: u64,
    points: Seq<int>,
    targets: Seq<Seq<char>>,
    routes: Seq<Seq<Coord>>,
    walks: Seq<Walk>,
)
    requires
        noted(before, repo, start, plus, settled, floor, points, targets, routes, walks),
        keeps_settled(before, after, settled),
    ensures
        noted(after, repo, start, plus, settled, floor, points, targets, routes, walks),
{
    assert forall|i: int| 0 <= i < points.len() implies {
        let v = #[trigger] points[i];
        &&& v != 0
        &&& settled.contains(v)
        &&& repo.nodes.contains_key(after.names()[v])
        &&& targets[i] == after.names()[v]
        &&& connects(repo, walks[i], start, targets[i])
        &&& length_of(walks[i].weights, plus) == after.best@[v]
        &&& routes[i] == places(repo, walks[i].points)
    } by {
        assert(settled.contains(points[i]));
    }
    assert forall|i: int, j: int| 0 <= i <= j < points.len() implies after.best@[#[trigger] points[i]]
        <= after.best@[#[trigger] points[j]] by {
        assert(settled.contains(points[i]));
        assert(settled.contains(points[j]));
    }
}

/// Finds the nodes that roads reach from `start` without passing a node.
pub fn explore<S: Fn(u64, u64) -> u64>(repo: &NodeRepo, start: &str, sum: &S) -> (r: Neighbors)
    requires
        adds(*sum),
        grows(plus(*sum)),
        mapped(repo@),
        repo@.nodes.contains_key(start@),
    ensures
        exists|walks: Seq<Walk>| #[trigger]
            neighbors_by(
                repo@,
                start@,
                plus(*sum),
                texts(r.targets@),
                route_views(r.routes@),
                walks,
            ),
{
    let ghost p = plus(*sum);
    let ghost keys = repo.adjacency.keys();
    let ghost all = universe(keys, repo@, start@);
    repo.adjacency.recall_coherent();
    let mut found = Found::start(start);
    let mut open = OpenList::new();
    open.push(0, 0);
    let mut targets: Vec<String> = Vec::new();
    let mut routes: Vec<Vec<Coord>> = Vec::new();
    let mut seen: Vec<bool> = Vec::new();
    seen.push(false);
    let ghost mut trail = Trail { weights: seq![0u64], stamps: seq![0nat], clock: 1 };
    let ghost mut settled: Set<int> = Set::empty();
    let ghost mut floor: u64 = 0;
    let ghost mut points: Seq<int> = Seq::empty();
    let ghost mut walks: Seq<Walk> = Seq::empty();
    proof {
        lemma_road_ends(keys, repo@);
        assert forall|a: Seq<char>, b: Seq<char>, w: u64| #[trigger]
            has_road(repo@, a, b, w) implies all.contains(b) by {
            assert(repo@.adjacency.contains_key(a));
            assert(keys.contains(a));
        }
        assert(found.tree(repo@, start@, p, trail));
        assert(searching(found, open@, repo@, start@, p, trail, settled, floor, -1));
        assert(texts(targets@) =~= Seq::<Seq<char>>::empty());
        assert(route_views(routes@) =~= Seq::<Seq<Coord>>::empty());
    }
    loop
        invariant
            adds(*sum),
            p == plus(*sum),
            grows(p),
            mapped(repo@),
            repo@.nodes.contains_key(start@),
            all.finite(),
            forall|a: Seq<char>, b: Seq<char>, w: u64| #[trigger]
                has_road(repo@, a, b, w) ==> all.contains(b),
            searching(found, open@, repo@, start@, p, trail, settled, floor, -1),
            found_in(found, all),
            noted(
                found,
                repo@,
                start@,
                p,
                settled,
                floor,
                points,
                texts(targets@),
                route_views(routes@),
                walks,
            ),
            seen.len() == found.ids.len(),
            forall|v: int| 0 <= v < seen.len() ==> (#[trigger] seen@[v] <==> settled.contains(v)),
        ensures
            open@ == Multiset::<(u64, usize)>::empty(),
        decreases all.len() - found.ids.len(), total(found.best@), open@.len(),
    {
        let ghost before = found;
        let ghost before_open = open@;
        proof {
            lemma_found_bounded(found, all);
        }
        let entry: (u64, usize) = match open.pop() {
            Some(e) => e,
            None => {
                break;
            },
        };
        let score: u64 = entry.0;
        let u: usize = entry.1;
        if score > found.best[u] || seen[u] {
            proof {
                lemma_stale(
                    found,
                    before_open,
                    repo@,
                    start@,
                    p,
                    trail,
                    settled,
                    floor,
                    entry,
                );
            }
            continue;
        }
        proof {
            lemma_settle(found, before_open, repo@, start@, p, trail, settled, floor, entry);
        }
        seen.set(u, true);
        if u != 0 && repo.nodes_by_id.contains_key(found.ids[u].as_str()) {
            let chain = found.trace(u, Ghost(repo@), Ghost(start@), Ghost(p), Ghost(trail));
            let route = places_of(&found, &chain, repo, Ghost(start@), Ghost(p), Ghost(trail));
            let ghost walk = found.walk_of(chain@, trail);
            let ghost old_targets = targets@;
            let ghost old_routes = routes@;
            proof {
                lemma_chain_connects(
                    found,
                    open@,
                    repo@,
                    start@,
                    p,
                    trail,
                    settled.insert(u as int),
                    score,
                    u as int,
                    chain@,
                );
            }
            targets.push(found.ids[u].clone());
            routes.push(route);
            proof {
                assert(texts(targets@) =~= texts(old_targets).push(found.names()[u as int]));
                assert(route_views(routes@) =~= route_views(old_routes).push(route@));
                lemma_note(
                    found,
                    repo@,
                    start@,
                    p,
                    settled,
                    floor,
                    score,
                    points,
                    texts(old_targets),
                    route_views(old_routes),
                    walks,
                    u as int,
                    walk,
                    route@,
                );
                points = points.push(u as int);
                walks = walks.push(walk);
                settled = settled.insert(u as int);
                floor = score;
                assert(searching(found, open@, repo@, start@, p, trail, settled, floor, -1));
            }
            continue;
        }
        proof {
            settled = settled.insert(u as int);
            floor = score;
            assert(passes(found, repo@, u as int));
        }
        match repo.adjacency.get(found.ids[u].as_str()) {
            Some(list) => {
                let next = expand(
                    &mut found,
                    &mut open,
                    list,
                    u,
                    start,
                    sum,
                    Ghost(repo@),
                    Ghost(trail),
                    Ghost(settled),
                    Ghost(all),
                );
                proof {
                    trail = next@;
                }
                while seen.len() < found.ids.len()
                    invariant
                        seen.len() <= found.ids.len(),
                        before.ids.len() <= seen.len(),
                        forall|v: int|
                            0 <= v < seen.len() ==> (#[trigger] seen@[v] <==> settled.contains(v)),
                        forall|v: int| #[trigger] settled.contains(v) ==> v < before.ids.len(),
                    decreases found.ids.len() - seen.len(),
                {
                    seen.push(false);
                }
            },
            None => {
                proof {
                    assert(expanded(found, repo@, start@, p, u as int));
                    assert(keeps_settled(before, found, settled));
                }
            },
        }
        proof {
            lemma_note_kept(
                before,
                found,
                repo@,
                start@,
                p,
                settled,
                floor,
                points,
                texts(targets@),
                route_views(routes@),
                walks,
            );
            lemma_found_bounded(found, all);
        }
    }
    proof {
        lemma_all_noted(
            found,
            repo@,
            start@,
            p,
            trail,
            settled,
            floor,
            points,
            texts(targets@),
            route_views(routes@),
            walks,
        );
    }
    let r = Neighbors { targets, routes };
    proof {
        assert(neighbors_by(
            repo@,
            start@,
            plus(*sum),
            texts(r.targets@),
            route_views(r.routes@),
            walks,
        ));
    }
    r
}

} // verus!
