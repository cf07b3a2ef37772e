//! A way from one point to another: a search towards a goal.
use vstd::multiset::Multiset;
use vstd::prelude::*;

use super::{
    exact, found_in, keeps_settled, lemma_better, lemma_chain_length, lemma_found_bounded,
    lemma_road_ends, lemma_total_drops, lemma_walk_to, places_of, total, universe, went_on, Found, Trail,
};
use crate::geometry::{measure, measures, metric, Coord};
use crate::heap::OpenList;
use crate::production::roads_from;
use crate::repo::{EdgeView, NodeRepo, RepoView};
use crate::text::same_text;
use crate::walks::{
    add_lengths, adds, crow, grows, has_length, has_road, leads, lemma_cut_short,
    lemma_first_roads, lemma_longer_by, length_of, longer_by, mapped, places, plus, reachable,
    shortest_walk, simple_walk, sure_guide, Walk,
};

verus! {

/// What a search for a goal expects of the whole way through point `v`.
spec fn expected(
    found: Found,
    plus: spec_fn(u64, u64) -> u64,
    ahead: spec_fn(Seq<char>) -> u64,
    v: int,
) -> u64 {
    plus(found.best@[v], ahead(found.names()[v]))
}

/// The road to `b` from point `u` has been looked at; with a sure guide, `b` is
/// reached at no greater length than over this road.
spec fn tried(
    found: Found,
    plus: spec_fn(u64, u64) -> u64,
    sure: bool,
    at: u64,
    b: Seq<char>,
    w: u64,
) -> bool {
    &&& found.place@.contains_key(b)
    &&& sure ==> found.best@[found.place@[b] as int] <= plus(at, w)
}

/// All roads from `u` have been looked at.
spec fn left(
    found: Found,
    repo: RepoView,
    plus: spec_fn(u64, u64) -> u64,
    sure: bool,
    u: int,
) -> bool {
    forall|b: Seq<char>, w: u64| #[trigger]
        has_road(repo, found.names()[u], b, w) ==> tried(
            found,
            plus,
            sure,
            found.best@[u],
            b,
            w,
        )
}

/// The state of a search for a goal. Points that are not visited wait in the open
/// list by what is expected of them. With a sure guide nothing that waits is
/// expected to be shorter than `floor`, and what is visited is final.
spec fn hunting(
    found: Found,
    open: Multiset<(u64, usize)>,
    repo: RepoView,
    start: Seq<char>,
    plus: spec_fn(u64, u64) -> u64,
    ahead: spec_fn(Seq<char>) -> u64,
    trail: Trail,
    visited: Set<int>,
    floor: u64,
    busy: int,
    sure: bool,
) -> bool {
    let n = found.ids.len() as int;
    &&& found.tree(repo, start, plus, trail)
    &&& visited.contains(0)
    &&& forall|v: int|
        0 <= v < n && !#[trigger] visited.contains(v) ==> open.contains(
            (expected(found, plus, ahead, v), v as usize),
        )
    &&& forall|e: (u64, usize)| #[trigger]
        open.contains(e) ==> e.1 < n && e.0 >= expected(found, plus, ahead, e.1 as int) && (sure
            ==> e.0 >= floor)
    &&& forall|v: int| #[trigger]
        visited.contains(v) ==> 0 <= v < n && (sure ==> expected(found, plus, ahead, v) <= floor)
    &&& forall|v: int| #[trigger]
        visited.contains(v) && v != busy ==> left(found, repo, plus, sure, v)
    &&& sure ==> forall|v: int|
        0 < v < n ==> {
            let u = #[trigger] found.from@[v] as int;
            visited.contains(u) && found.best@[v] == plus(found.best@[u], trail.weights[v])
        }
}

/// With a sure guide every point is reached exactly over the road that leads to it.
proof fn lemma_exact(
    found: Found,
    open: Multiset<(u64, usize)>,
    repo: RepoView,
    start: Seq<char>,
    plus: spec_fn(u64, u64) -> u64,
    ahead: spec_fn(Seq<char>) -> u64,
    trail: Trail,
    visited: Set<int>,
    floor: u64,
    busy: int,
)
    requires
        hunting(found, open, repo, start, plus, ahead, trail, visited, floor, busy, true),
    ensures
        exact(found, plus, trail),
{
    assert forall|v: int| 0 < v < found.ids.len() implies found.best@[v] == plus(
        found.best@[#[trigger] found.from@[v] as int],
        trail.weights[v],
    ) by {
        assert(visited.contains(found.from@[v] as int));
    }
}

/// Looking at a road that leads on keeps the search for a goal in order.
proof fn lemma_try(
    before: Found,
    after: Found,
    open: Multiset<(u64, usize)>,
    repo: RepoView,
    start: Seq<char>,
    plus: spec_fn(u64, u64) -> u64,
    ahead: spec_fn(Seq<char>) -> u64,
    trail: Trail,
    visited: Set<int>,
    floor: u64,
    sure: bool,
    u: int,
    v: int,
    to: Seq<char>,
    weight: u64,
) -> (next: Trail)
    requires
        grows(plus),
        sure ==> sure_guide(repo, plus, ahead, start),
        sure ==> floor == expected(before, plus, ahead, u),
        hunting(before, open, repo, start, plus, ahead, trail, visited, floor, u, sure),
        visited.contains(u),
        has_road(repo, before.names()[u], to, weight),
        after.wf(),
        if before.place@.contains_key(to) {
            let score = plus(before.best@[u], weight);
            &&& v == before.place@[to]
            &&& score < before.best@[v]
            &&& after.ids == before.ids
            &&& after.place@ == before.place@
            &&& after.best@ == before.best@.update(v, score)
            &&& after.from@ == before.from@.update(v, u as usize)
        } else {
            let score = plus(before.best@[u], weight);
            &&& v == before.ids.len()
            &&& v <= usize::MAX
            &&& after.names() == before.names().push(to)
            &&& after.place@ == before.place@.insert(to, v as usize)
            &&& after.best@ == before.best@.push(score)
            &&& after.from@ == before.from@.push(u as usize)
        },
    ensures
        hunting(
            after,
            open.insert((expected(after, plus, ahead, v), v as usize)),
            repo,
            start,
            plus,
            ahead,
            next,
            visited,
            floor,
            u,
            sure,
        ),
        after.names()[v] == to,
        after.names()[u] == before.names()[u],
        after.best@[u] == before.best@[u],
        after.best@[v] == plus(before.best@[u], weight),
        sure ==> keeps_settled(before, after, visited),
{
    let n = before.ids.len() as int;
    let score = plus(before.best@[u], weight);
    assert(score >= before.best@[u]);
    assert(before.names().len() == n);
    assert(after.names().len() == after.ids.len());
    if before.place@.contains_key(to) {
        assert(before.names()[v] == to);
    }
    assert(after.names()[v] == to);
    let next = Found::lemma_improved(before, after, repo, start, plus, trail, v, u, weight);
    assert(forall|x: int| 0 <= x < n ==> #[trigger] after.names()[x] == before.names()[x]);
    let new = (expected(after, plus, ahead, v), v as usize);
    let grown = open.insert(new);
    if sure {
        lemma_exact(before, open, repo, start, plus, ahead, trail, visited, floor, u);
        let walk = lemma_walk_to(before, repo, start, plus, trail, u);
        assert(has_road(repo, before.names()[u], to, weight));
        assert(plus(before.best@[u], ahead(before.names()[u])) <= plus(
            plus(before.best@[u], weight),
            ahead(to),
        ));
        assert(new.0 >= floor);
        if visited.contains(v) {
            assert(expected(before, plus, ahead, v) <= floor);
            lemma_walk_to(before, repo, start, plus, trail, v);
            assert(!walk.points.contains(before.names()[v]));
            lemma_longer_by(repo, walk, start, before.names()[u], to, weight, plus);
            assert(simple_walk(repo, longer_by(walk, to, weight), start, to));
            assert(has_length(repo, start, to, score, plus));
            assert(plus(score, ahead(to)) < plus(before.best@[v], ahead(to)));
            assert(false);
        }
    }
    assert forall|x: int| 0 <= x < after.ids.len() && !#[trigger] visited.contains(x) implies grown.contains(
        (expected(after, plus, ahead, x), x as usize),
    ) by {
        if x != v {
            assert(open.contains((expected(before, plus, ahead, x), x as usize)));
        }
    }
    assert forall|e: (u64, usize)| #[trigger] grown.contains(e) implies e.1 < after.ids.len()
        && e.0 >= expected(after, plus, ahead, e.1 as int) && (sure ==> e.0 >= floor) by {
        if e != new {
            assert(open.contains(e));
            if e.1 == v {
                assert(plus(before.best@[v], ahead(to)) >= plus(score, ahead(to)));
            }
        }
    }
    assert forall|x: int| #[trigger] visited.contains(x) implies 0 <= x < after.ids.len() && (sure
        ==> expected(after, plus, ahead, x) <= floor) by {}
    assert forall|x: int| #[trigger] visited.contains(x) && x != u implies left(
        after,
        repo,
        plus,
        sure,
        x,
    ) by {
        assert(left(before, repo, plus, sure, x));
        assert forall|b: Seq<char>, w: u64| #[trigger]
            has_road(repo, after.names()[x], b, w) implies tried(
            after,
            plus,
            sure,
            after.best@[x],
            b,
            w,
        ) by {
            assert(has_road(repo, before.names()[x], b, w));
            assert(tried(before, plus, sure, before.best@[x], b, w));
            lemma_better(before, after, v, to, score, b);
        }
    }
    if sure {
        assert forall|x: int| 0 < x < after.ids.len() implies {
            let y = #[trigger] after.from@[x] as int;
            visited.contains(y) && after.best@[x] == plus(after.best@[y], next.weights[x])
        } by {
            if x != v {
                assert(before.from@[x] == after.from@[x]);
                assert(visited.contains(before.from@[x] as int));
            }
        }
    }
    next
}

/// Looks at all roads from point `u` on the way to a goal.
fn advance<S: Fn(u64, u64) -> u64, F: Fn(Coord, Coord) -> u64>(
    found: &mut Found,
    open: &mut OpenList,
    repo: &NodeRepo,
    u: usize,
    goal_at: Coord,
    sum: &S,
    distance: &F,
    start: Ghost<Seq<char>>,
    goal: Ghost<Seq<char>>,
    trail: Ghost<Trail>,
    visited: Ghost<Set<int>>,
    floor: Ghost<u64>,
    all: Ghost<Set<Seq<char>>>,
) -> (next: Ghost<Trail>)
    requires
        adds(*sum),
        grows(plus(*sum)),
        measures(*distance),
        repo@.coords[goal@] == goal_at,
        ({
            let ahead = crow(repo@, goal@, metric(*distance));
            let sure = sure_guide(repo@, plus(*sum), ahead, start@);
            &&& hunting(
                *old(found),
                old(open)@,
                repo@,
                start@,
                plus(*sum),
                ahead,
                trail@,
                visited@,
                floor@,
                u as int,
                sure,
            )
            &&& sure ==> floor@ == expected(*old(found), plus(*sum), ahead, u as int)
        }),
        visited@.contains(u as int),
        found_in(*old(found), all@),
        forall|a: Seq<char>, b: Seq<char>, w: u64| #[trigger]
            has_road(repo@, a, b, w) ==> all@.contains(b),
    ensures
        ({
            let ahead = crow(repo@, goal@, metric(*distance));
            let sure = sure_guide(repo@, plus(*sum), ahead, start@);
            hunting(
                *final(found),
                final(open)@,
                repo@,
                start@,
                plus(*sum),
                ahead,
                next@,
                visited@,
                floor@,
                -1,
                sure,
            )
        }),
        found_in(*final(found), all@),
        went_on(*old(found), old(open)@, *final(found), final(open)@),
        forall|v: int|
            0 <= v < old(found).ids.len() ==> #[trigger] final(found).names()[v] == old(
                found,
            ).names()[v],
        final(found).ids.len() >= old(found).ids.len(),
{
    let ghost first = *found;
    let ghost first_open = open@;
    let ghost p = plus(*sum);
    let ghost ahead = crow(repo@, goal@, metric(*distance));
    let ghost sure = sure_guide(repo@, p, ahead, start@);
    let ghost mut current = trail@;
    let score: u64 = found.best[u];
    let ghost edges = roads_from(repo@, found.names()[u as int]);
    let list = match repo.adjacency.get(found.ids[u].as_str()) {
        Some(l) => l,
        None => {
            proof {
                assert(left(*found, repo@, p, sure, u as int));
            }
            return Ghost(current);
        },
    };
    let mut i: usize = 0;
    while i < list.edges.len()
        invariant
            adds(*sum),
            p == plus(*sum),
            grows(p),
            measures(*distance),
            repo@.coords[goal@] == goal_at,
            ahead == crow(repo@, goal@, metric(*distance)),
            sure == sure_guide(repo@, p, ahead, start@),
            edges == list@,
            edges == roads_from(repo@, first.names()[u as int]),
            i <= list.edges.len(),
            visited@.contains(u as int),
            score == found.best@[u as int],
            score == first.best@[u as int],
            hunting(
                *found,
                open@,
                repo@,
                start@,
                p,
                ahead,
                current,
                visited@,
                floor@,
                u as int,
                sure,
            ),
            sure ==> floor@ == expected(*found, p, ahead, u as int),
            found_in(*found, all@),
            forall|a: Seq<char>, b: Seq<char>, w: u64| #[trigger]
                has_road(repo@, a, b, w) ==> all@.contains(b),
            went_on(first, first_open, *found, open@),
            found.ids.len() >= first.ids.len(),
            forall|v: int|
                0 <= v < first.ids.len() ==> #[trigger] found.names()[v] == first.names()[v],
            u < first.ids.len(),
            forall|k: int|
                0 <= k < i ==> tried(
                    *found,
                    p,
                    sure,
                    score,
                    (#[trigger] edges[k]).to,
                    edges[k].weight,
                ),
        decreases list.edges.len() - i,
    {
        let edge = &list.edges[i];
        let ghost before = *found;
        let ghost before_open = open@;
        proof {
            assert(edges[i as int] == edge@);
            assert(found.names()[u as int] == first.names()[u as int]);
            assert(has_road(repo@, found.names()[u as int], edge@.to, edge@.weight));
        }
        let tentative: u64 = add_lengths(sum, score, edge.weight);
        if let Some(v) = found.improve(&edge.to, tentative, u) {
            let rest: u64 = match repo.coords_by_id.get(edge.to.as_str()) {
                Some(coord) => measure(distance, *coord, goal_at),
                None => 0,
            };
            let whole: u64 = add_lengths(sum, tentative, rest);
            open.push(whole, v);
            proof {
                assert(rest == ahead(edge@.to));
                current = lemma_try(
                    before,
                    *found,
                    before_open,
                    repo@,
                    start@,
                    p,
                    ahead,
                    current,
                    visited@,
                    floor@,
                    sure,
                    u as int,
                    v as int,
                    edge@.to,
                    edge@.weight,
                );
                if before.place@.contains_key(edge@.to) {
                    lemma_total_drops(before.best@, v as int, tentative);
                    assert(found.names() == before.names());
                }
                assert(found_in(*found, all@)) by {
                    assert forall|x: int| 0 <= x < found.ids.len() implies all@.contains(
                        #[trigger] found.names()[x],
                    ) by {
                        if x < before.ids.len() {
                            assert(all@.contains(before.names()[x]));
                        }
                    }
                }
                assert forall|k: int| 0 <= k < i implies tried(
                    *found,
                    p,
                    sure,
                    score,
                    (#[trigger] edges[k]).to,
                    edges[k].weight,
                ) by {
                    assert(tried(before, p, sure, score, edges[k].to, edges[k].weight));
                    lemma_better(before, *found, v as int, edge@.to, tentative, edges[k].to);
                }
                assert forall|x: int| 0 <= x < first.ids.len() implies #[trigger] found.names()[x]
                    == first.names()[x] by {
                    assert(before.names()[x] == first.names()[x]);
                }
            }
        }
        i += 1;
    }
    proof {
        assert(left(*found, repo@, p, sure, u as int)) by {
            assert forall|b: Seq<char>, w: u64| #[trigger]
                has_road(repo@, found.names()[u as int], b, w) implies tried(
                *found,
                p,
                sure,
                found.best@[u as int],
                b,
                w,
            ) by {
                assert(found.names()[u as int] == first.names()[u as int]);
                let k = edges.index_of(EdgeView { to: b, weight: w });
                assert(edges[k] == (EdgeView { to: b, weight: w }));
            }
        }
    }
    Ghost(current)
}

/// At the end of a search every point that a walk reaches has been visited.
proof fn lemma_all_visited(
    found: Found,
    repo: RepoView,
    start: Seq<char>,
    plus: spec_fn(u64, u64) -> u64,
    ahead: spec_fn(Seq<char>) -> u64,
    trail: Trail,
    visited: Set<int>,
    floor: u64,
    sure: bool,
    walk: Walk,
    to: Seq<char>,
    k: int,
)
    requires
        hunting(
            found,
            Multiset::empty(),
            repo,
            start,
            plus,
            ahead,
            trail,
            visited,
            floor,
            -1,
            sure,
        ),
        leads(repo, walk, start, to),
        0 <= k <= walk.weights.len(),
    ensures
        found.place@.contains_key(walk.points[k]),
        visited.contains(found.place@[walk.points[k]] as int),
    decreases k,
{
    if k == 0 {
        assert(found.place@.contains_key(found.names()[0]));
    } else {
        let j = k - 1;
        lemma_all_visited(
            found,
            repo,
            start,
            plus,
            ahead,
            trail,
            visited,
            floor,
            sure,
            walk,
            to,
            j,
        );
        let u = found.place@[walk.points[j]] as int;
        assert(found.names()[u] == walk.points[j]);
        assert(left(found, repo, plus, sure, u));
        assert(has_road(repo, walk.points[j], walk.points[j + 1], walk.weights[j]));
        assert(tried(found, plus, sure, found.best@[u], walk.points[k], walk.weights[j]));
        let v = found.place@[walk.points[k]] as int;
        if !visited.contains(v) {
            assert(Multiset::<(u64, usize)>::empty().contains(
                (expected(found, plus, ahead, v), v as usize),
            ));
            assert(false);
        }
    }
}

/// Point `k` of a walk is visited, at no greater length than the walk takes to
/// it, or else the open list expects no more of its lowest entry than of the walk.
spec fn on_the_way(
    found: Found,
    plus: spec_fn(u64, u64) -> u64,
    ahead: spec_fn(Seq<char>) -> u64,
    visited: Set<int>,
    lowest: u64,
    walk: Walk,
    k: int,
) -> bool {
    let sofar = length_of(walk.weights.take(k), plus);
    let v = found.place@[walk.points[k]] as int;
    ||| found.place@.contains_key(walk.points[k]) && visited.contains(v) && found.best@[v] <= sofar
    ||| lowest <= plus(sofar, ahead(walk.points[k]))
}

proof fn lemma_on_the_way(
    found: Found,
    open: Multiset<(u64, usize)>,
    repo: RepoView,
    start: Seq<char>,
    plus: spec_fn(u64, u64) -> u64,
    ahead: spec_fn(Seq<char>) -> u64,
    trail: Trail,
    visited: Set<int>,
    floor: u64,
    lowest: u64,
    walk: Walk,
    to: Seq<char>,
    k: int,
)
    requires
        grows(plus),
        sure_guide(repo, plus, ahead, start),
        hunting(found, open, repo, start, plus, ahead, trail, visited, floor, -1, true),
        forall|e: (u64, usize)| #[trigger] open.contains(e) ==> lowest <= e.0,
        simple_walk(repo, walk, start, to),
        0 <= k <= walk.weights.len(),
    ensures
        on_the_way(found, plus, ahead, visited, lowest, walk, k),
    decreases k,
{
    if k == 0 {
        assert(found.place@.contains_key(found.names()[0]));
        assert(walk.weights.take(0).len() == 0);
    } else {
        let j = k - 1;
        lemma_on_the_way(
            found,
            open,
            repo,
            start,
            plus,
            ahead,
            trail,
            visited,
            floor,
            lowest,
            walk,
            to,
            j,
        );
        let w = walk.weights[j];
        let prior = length_of(walk.weights.take(j), plus);
        let sofar = length_of(walk.weights.take(k), plus);
        assert(walk.weights.take(k).drop_last() =~= walk.weights.take(j));
        assert(walk.weights.take(k).last() == w);
        assert(sofar == plus(prior, w));
        assert(has_road(repo, walk.points[j], walk.points[j + 1], walk.weights[j]));
        let u = found.place@[walk.points[j]] as int;
        if found.place@.contains_key(walk.points[j]) && visited.contains(u) && found.best@[u]
            <= prior {
            assert(found.names()[u] == walk.points[j]);
            assert(left(found, repo, plus, true, u));
            assert(tried(found, plus, true, found.best@[u], walk.points[k], w));
            assert(plus(found.best@[u], w) <= plus(prior, w));
            let v = found.place@[walk.points[k]] as int;
            assert(found.names()[v] == walk.points[k]);
            if !visited.contains(v) {
                assert(open.contains((expected(found, plus, ahead, v), v as usize)));
                assert(plus(found.best@[v], ahead(walk.points[k])) <= plus(
                    sofar,
                    ahead(walk.points[k]),
                ));
            }
        } else {
            lemma_first_roads(repo, walk, start, to, j);
            assert(has_length(repo, start, walk.points[j], prior, plus));
            assert(plus(prior, ahead(walk.points[j])) <= plus(
                plus(prior, w),
                ahead(walk.points[k]),
            ));
        }
    }
}

/// With a sure guide, the goal is reached at the least length when its entry is
/// the lowest.
proof fn lemma_goal_is_near(
    found: Found,
    open: Multiset<(u64, usize)>,
    repo: RepoView,
    start: Seq<char>,
    plus: spec_fn(u64, u64) -> u64,
    ahead: spec_fn(Seq<char>) -> u64,
    trail: Trail,
    visited: Set<int>,
    floor: u64,
    entry: (u64, usize),
    chain: Seq<usize>,
)
    requires
        grows(plus),
        sure_guide(repo, plus, ahead, start),
        hunting(found, open, repo, start, plus, ahead, trail, visited, floor, -1, true),
        open.contains(entry),
        forall|e: (u64, usize)| #[trigger] open.contains(e) ==> entry.0 <= e.0,
        !visited.contains(entry.1 as int),
        found.traced(chain),
        chain.last() == entry.1,
    ensures
        shortest_walk(
            repo,
            found.walk_of(chain, trail),
            start,
            found.names()[entry.1 as int],
            plus,
        ),
{
    let g = entry.1 as int;
    let goal = found.names()[g];
    let walk = found.walk_of(chain, trail);
    found.lemma_walk_of(chain, repo, start, plus, trail);
    lemma_exact(found, open, repo, start, plus, ahead, trail, visited, floor, -1);
    lemma_walk_to(found, repo, start, plus, trail, g);
    lemma_chain_length(found, plus, trail, chain, chain.len() - 1);
    assert(walk.weights.take(chain.len() - 1) =~= walk.weights);
    assert forall|other: Walk| #[trigger] leads(repo, other, start, goal) implies length_of(
        walk.weights,
        plus,
    ) <= length_of(other.weights, plus) by {
        let short = lemma_cut_short(repo, other, start, goal, plus);
        let k = short.weights.len() as int;
        lemma_on_the_way(
            found,
            open,
            repo,
            start,
            plus,
            ahead,
            trail,
            visited,
            floor,
            entry.0,
            short,
            goal,
            k,
        );
        assert(short.points[k] == goal);
        assert(short.weights.take(k) =~= short.weights);
        assert(found.place@.contains_key(found.names()[g]));
        let all = length_of(short.weights, plus);
        assert(has_length(repo, start, goal, all, plus));
        assert(expected(found, plus, ahead, g) <= entry.0);
        if all < found.best@[g] {
            assert(plus(all, ahead(goal)) < plus(found.best@[g], ahead(goal)));
            assert(false);
        }
    }
}

/// A way from `from` to `to`, as the places it passes. Where the distances as the crow
/// flies are a sure guide on the way from `from`, no other way is shorter.
pub open spec fn road_path(
    repo: RepoView,
    from: Seq<char>,
    to: Seq<char>,
    plus: spec_fn(u64, u64) -> u64,
    distance: spec_fn(Coord, Coord) -> u64,
    path: Seq<Coord>,
    walk: Walk,
) -> bool {
    &&& leads(repo, walk, from, to)
    &&& path == places(repo, walk.points)
    &&& sure_guide(repo, plus, crow(repo, to, distance), from) ==> shortest_walk(
        repo,
        walk,
        from,
        to,
        plus,
    )
}

/// Some way from `from` to `to` passes these places.
pub open spec fn is_road_path(
    repo: RepoView,
    from: Seq<char>,
    to: Seq<char>,
    plus: spec_fn(u64, u64) -> u64,
    distance: spec_fn(Coord, Coord) -> u64,
    path: Seq<Coord>,
) -> bool {
    exists|walk: Walk| #[trigger] road_path(repo, from, to, plus, distance, path, walk)
}

/// Looks for a way along roads from `start` to `goal`.
pub fn find_path<S: Fn(u64, u64) -> u64, F: Fn(Coord, Coord) -> u64>(
    repo: &NodeRepo,
    start: &str,
    goal: &str,
    sum: &S,
    distance: &F,
) -> (r: Option<Vec<Coord>>)
    requires
        adds(*sum),
        grows(plus(*sum)),
        measures(*distance),
        mapped(repo@),
        repo@.coords.contains_key(start@),
        repo@.coords.contains_key(goal@),
    ensures
        match r {
            Some(path) => is_road_path(
                repo@,
                start@,
                goal@,
                plus(*sum),
                metric(*distance),
                path@,
            ),
            None => !reachable(repo@, start@, goal@),
        },
{
    let ghost p = plus(*sum);
    let ghost ahead = crow(repo@, goal@, metric(*distance));
    let ghost sure = sure_guide(repo@, p, ahead, start@);
    let ghost keys = repo.adjacency.keys();
    let ghost all = universe(keys, repo@, start@);
    repo.adjacency.recall_coherent();
    let goal_at: Coord = match repo.coords_by_id.get(goal) {
        Some(c) => *c,
        None => {
            return None;
        },
    };
    let mut found = Found::start(start);
    let mut open = OpenList::new();
    let ghost mut trail = Trail { weights: seq![0u64], stamps: seq![0nat], clock: 1 };
    let ghost mut visited: Set<int> = Set::<int>::empty().insert(0);
    let ghost mut floor: u64 = expected(found, p, ahead, 0);
    proof {
        lemma_road_ends(keys, repo@);
        assert forall|a: Seq<char>, b: Seq<char>, w: u64| #[trigger]
            has_road(repo@, a, b, w) implies all.contains(b) by {
            assert(repo@.adjacency.contains_key(a));
            assert(keys.contains(a));
        }
        assert(found.tree(repo@, start@, p, trail));
    }
    if same_text(start, goal) {
        let chain = found.trace(0, Ghost(repo@), Ghost(start@), Ghost(p), Ghost(trail));
        let path = places_of(&found, &chain, repo, Ghost(start@), Ghost(p), Ghost(trail));
        proof {
            lemma_here(found, repo@, start@, p, metric(*distance), trail, chain@, path@);
            assert(road_path(
                repo@,
                start@,
                goal@,
                plus(*sum),
                metric(*distance),
                path@,
                found.walk_of(chain@, trail),
            ));
        }
        return Some(path);
    }
    proof {
        assert(hunting(
            found,
            open@,
            repo@,
            start@,
            p,
            ahead,
            trail,
            visited,
            floor,
            0,
            sure,
        ));
    }
    let next = advance(
        &mut found,
        &mut open,
        repo,
        0,
        goal_at,
        sum,
        distance,
        Ghost(start@),
        Ghost(goal@),
        Ghost(trail),
        Ghost(visited),
        Ghost(floor),
        Ghost(all),
    );
    proof {
        trail = next@;
    }
    let mut seen: Vec<bool> = Vec::new();
    seen.push(true);
    while seen.len() < found.ids.len()
        invariant
            0 < seen.len() <= found.ids.len(),
            visited == Set::<int>::empty().insert(0),
            forall|v: int| 0 <= v < seen.len() ==> (#[trigger] seen@[v] <==> visited.contains(v)),
        decreases found.ids.len() - seen.len(),
    {
        seen.push(false);
    }
    loop
        invariant
            adds(*sum),
            p == plus(*sum),
            grows(p),
            measures(*distance),
            mapped(repo@),
            repo@.coords.contains_key(start@),
            repo@.coords.contains_key(goal@),
            repo@.coords[goal@] == goal_at,
            ahead == crow(repo@, goal@, metric(*distance)),
            sure == sure_guide(repo@, p, ahead, start@),
            all.finite(),
            forall|a: Seq<char>, b: Seq<char>, w: u64| #[trigger]
                has_road(repo@, a, b, w) ==> all.contains(b),
            hunting(
                found,
                open@,
                repo@,
                start@,
                p,
                ahead,
                trail,
                visited,
                floor,
                -1,
                sure,
            ),
            forall|v: int| #[trigger] visited.contains(v) ==> found.names()[v] != goal@,
            found_in(found, all),
            seen.len() == found.ids.len(),
            forall|v: int| 0 <= v < seen.len() ==> (#[trigger] seen@[v] <==> visited.contains(v)),
        ensures
            open@ == Multiset::<(u64, usize)>::empty(),
        decreases all.len() - found.ids.len(), total(found.best@), open@.len(),
    {
        let ghost before = found;
        let ghost before_open = open@;
        proof {
            lemma_found_bounded(found, all);
        }
        let entry: (u64, usize) = match open.pop() {
            Some(e) => e,
            None => {
                break;
            },
        };
        let u: usize = entry.1;
        if same_text(found.ids[u].as_str(), goal) {
            let chain = found.trace(u, Ghost(repo@), Ghost(start@), Ghost(p), Ghost(trail));
            let path = places_of(&found, &chain, repo, Ghost(start@), Ghost(p), Ghost(trail));
            proof {
                let walk = found.walk_of(chain@, trail);
                found.lemma_walk_of(chain@, repo@, start@, p, trail);
                assert(found.names()[u as int] == goal@);
                if sure {
                    lemma_goal_is_near(
                        found,
                        before_open,
                        repo@,
                        start@,
                        p,
                        ahead,
                        trail,
                        visited,
                        floor,
                        entry,
                        chain@,
                    );
                }
                assert(road_path(
                    repo@,
                    start@,
                    goal@,
                    plus(*sum),
                    metric(*distance),
                    path@,
                    walk,
                ));
            }
            proof {
                assert(is_road_path(
                    repo@,
                    start@,
                    goal@,
                    plus(*sum),
                    metric(*distance),
                    path@,
                ));
            }
            return Some(path);
        }
        if seen[u] {
            proof {
                lemma_visit(
                    found,
                    before_open,
                    repo@,
                    start@,
                    p,
                    ahead,
                    trail,
                    visited,
                    floor,
                    sure,
                    entry,
                );
            }
            continue;
        }
        proof {
            lemma_visit(
                found,
                before_open,
                repo@,
                start@,
                p,
                ahead,
                trail,
                visited,
                floor,
                sure,
                entry,
            );
            visited = visited.insert(u as int);
            floor = entry.0;
        }
        seen.set(u, true);
        let next = advance(
            &mut found,
            &mut open,
            repo,
            u,
            goal_at,
            sum,
            distance,
            Ghost(start@),
            Ghost(goal@),
            Ghost(trail),
            Ghost(visited),
            Ghost(floor),
            Ghost(all),
        );
        proof {
            trail = next@;
            lemma_found_bounded(found, all);
            assert forall|v: int| #[trigger] visited.contains(v) implies found.names()[v]
                != goal@ by {
                assert(0 <= v < before.ids.len());
            }
        }
        while seen.len() < found.ids.len()
            invariant
                seen.len() <= found.ids.len(),
                before.ids.len() <= seen.len(),
                forall|v: int|
                    0 <= v < seen.len() ==> (#[trigger] seen@[v] <==> visited.contains(v)),
                forall|v: int| #[trigger] visited.contains(v) ==> v < before.ids.len(),
            decreases found.ids.len() - seen.len(),
        {
            seen.push(false);
        }
    }
    proof {
        if reachable(repo@, start@, goal@) {
            let walk = choose|walk: Walk| #[trigger] leads(repo@, walk, start@, goal@);
            let k = walk.weights.len() as int;
            lemma_all_visited(
                found,
                repo@,
                start@,
                p,
                ahead,
                trail,
                visited,
                floor,
                sure,
                walk,
                goal@,
                k,
            );
            assert(walk.points[k] == goal@);
            let v = found.place@[goal@] as int;
            assert(found.names()[v] == goal@);
        }
    }
    None
}

/// From a point to itself no road is needed.
proof fn lemma_here(
    found: Found,
    repo: RepoView,
    start: Seq<char>,
    plus: spec_fn(u64, u64) -> u64,
    distance: spec_fn(Coord, Coord) -> u64,
    trail: Trail,
    chain: Seq<usize>,
    path: Seq<Coord>,
)
    requires
        found.tree(repo, start, plus, trail),
        found.ids.len() == 1,
        found.traced(chain),
        chain.last() == 0,
        path == places(repo, found.walk_of(chain, trail).points),
    ensures
        road_path(repo, start, start, plus, distance, path, found.walk_of(chain, trail)),
{
    let walk = found.walk_of(chain, trail);
    found.lemma_walk_of(chain, repo, start, plus, trail);
    if chain.len() > 1 {
        let i: int = 0;
        assert(found.follows(chain[i], chain[i + 1]));
        assert(false);
    }
    assert(walk.weights.len() == 0);
    assert(length_of(walk.weights, plus) == 0);
}

/// The lowest entry leaves the open list: a point visited before stays so,
/// another one is visited.
proof fn lemma_visit(
    found: Found,
    open: Multiset<(u64, usize)>,
    repo: RepoView,
    start: Seq<char>,
    plus: spec_fn(u64, u64) -> u64,
    ahead: spec_fn(Seq<char>) -> u64,
    trail: Trail,
    visited: Set<int>,
    floor: u64,
    sure: bool,
    entry: (u64, usize),
)
    requires
        hunting(found, open, repo, start, plus, ahead, trail, visited, floor, -1, sure),
        open.contains(entry),
        forall|e: (u64, usize)| #[trigger] open.contains(e) ==> entry.0 <= e.0,
    ensures
        visited.contains(entry.1 as int) ==> hunting(
            found,
            open.remove(entry),
            repo,
            start,
            plus,
            ahead,
            trail,
            visited,
            floor,
            -1,
            sure,
        ),
        !visited.contains(entry.1 as int) ==> hunting(
            found,
            open.remove(entry),
            repo,
            start,
            plus,
            ahead,
            trail,
            visited.insert(entry.1 as int),
            entry.0,
            entry.1 as int,
            sure,
        ) && entry.0 == expected(found, plus, ahead, entry.1 as int),
{
    let rest = open.remove(entry);
    let u = entry.1 as int;
    let more = visited.insert(u);
    if !visited.contains(u) {
        assert(open.contains((expected(found, plus, ahead, u), u as usize)));
    }
    assert forall|v: int| 0 <= v < found.ids.len() && v != u && !#[trigger] visited.contains(v) implies rest.contains(
        (expected(found, plus, ahead, v), v as usize),
    ) by {
        assert(open.contains((expected(found, plus, ahead, v), v as usize)));
    }
    assert forall|v: int| 0 <= v < found.ids.len() && !#[trigger] more.contains(v) implies rest.contains(
        (expected(found, plus, ahead, v), v as usize),
    ) by {
        assert(!visited.contains(v));
    }
    assert forall|e: (u64, usize)| #[trigger] rest.contains(e) implies e.1 < found.ids.len()
        && e.0 >= expected(found, plus, ahead, e.1 as int) && (sure ==> e.0 >= floor) && e.0
        >= entry.0 by {
        assert(open.contains(e));
    }
    assert forall|v: int| #[trigger] more.contains(v) implies 0 <= v < found.ids.len() && (sure
        ==> expected(found, plus, ahead, v) <= entry.0) by {
        if v != u {
            assert(visited.contains(v));
        }
    }
    assert forall|v: int| #[trigger] more.contains(v) && v != u implies left(
        found,
        repo,
        plus,
        sure,
        v,
    ) by {
        assert(visited.contains(v));
    }
    if sure {
        assert forall|v: int| 0 < v < found.ids.len() implies {
            let w = #[trigger] found.from@[v] as int;
            more.contains(w) && found.best@[v] == plus(found.best@[w], trail.weights[v])
        } by {
            assert(visited.contains(found.from@[v] as int));
        }
    }
}

} // verus!
