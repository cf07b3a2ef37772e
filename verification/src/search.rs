//! Searches along roads: what they keep of the points they found.
use vstd::hash_map::StringHashMap;
use vstd::multiset::Multiset;
use vstd::prelude::*;

use crate::geometry::Coord;
use crate::production::roads_from;
use crate::repo::{EdgeView, NodeRepo, RepoView};
use crate::state::texts;
use crate::walks::{grows, has_length, has_road, leads, length_of, mapped, places, simple_walk, Walk};

pub mod neighbors;
pub mod pathfinding;

verus! {

/// The points that a search has found, with the least length at which it reached
/// each and the point before it on that way. The search starts at point 0.
struct Found {
    ids: Vec<String>,
    place: StringHashMap<usize>,
    best: Vec<u64>,
    from: Vec<usize>,
}

/// What is known of a search besides its tables: the road that leads to each
/// point, and when each point was last improved.
#[verifier::ext_equal]
struct Trail {
    weights: Seq<u64>,
    stamps: Seq<nat>,
    clock: nat,
}

spec fn earlier(a: u64, a_stamp: nat, b: u64, b_stamp: nat) -> bool {
    a < b || (a == b && a_stamp < b_stamp)
}

impl Found {
    spec fn names(self) -> Seq<Seq<char>> {
        texts(self.ids@)
    }

    spec fn wf(self) -> bool {
        &&& self.ids.len() > 0
        &&& self.best.len() == self.ids.len()
        &&& self.from.len() == self.ids.len()
        &&& forall|v: int|
            0 <= v < self.ids.len() ==> #[trigger] self.place@.contains_key(self.names()[v])
                && self.place@[self.names()[v]] == v
        &&& forall|k: Seq<char>| #[trigger]
            self.place@.contains_key(k) ==> self.place@[k] < self.ids.len()
                && self.names()[self.place@[k] as int] == k
        &&& forall|v: int| 0 <= v < self.ids.len() ==> (#[trigger] self.from@[v]) < self.ids.len()
    }

    /// Every point but the first is reached by a road from the point before it,
    /// and following these points backwards comes to an end.
    spec fn tree(
        self,
        repo: RepoView,
        start: Seq<char>,
        plus: spec_fn(u64, u64) -> u64,
        trail: Trail,
    ) -> bool {
        let n = self.ids.len() as int;
        &&& self.wf()
        &&& self.names()[0] == start
        &&& self.best@[0] == 0
        &&& self.from@[0] == 0
        &&& trail.weights.len() == n
        &&& trail.stamps.len() == n
        &&& forall|v: int| 0 <= v < n ==> (#[trigger] trail.stamps[v]) < trail.clock
        &&& forall|v: int|
            0 < v < n ==> {
                let u = #[trigger] self.from@[v] as int;
                &&& has_road(repo, self.names()[u], self.names()[v], trail.weights[v])
                &&& self.best@[v] >= plus(self.best@[u], trail.weights[v])
                &&& earlier(self.best@[u], trail.stamps[u], self.best@[v], trail.stamps[v])
            }
    }

    fn start(id: &str) -> (r: Self)
        ensures
            r.wf(),
            r.names() == seq![id@],
            r.best@ == seq![0u64],
            r.from@ == seq![0usize],
    {
        let mut ids: Vec<String> = Vec::new();
        ids.push(id.to_owned());
        let mut place: StringHashMap<usize> = StringHashMap::new();
        place.insert(id.to_owned(), 0);
        let mut best: Vec<u64> = Vec::new();
        best.push(0);
        let mut from: Vec<usize> = Vec::new();
        from.push(0);
        let r = Found { ids, place, best, from };
        proof {
            assert(r.names() =~= seq![id@]);
        }
        r
    }

    /// Notes that `to` is reached from `origin` at length `score`, unless a way that
    /// is as short is known. The place of `to` if this was news.
    fn improve(&mut self, to: &String, score: u64, origin: usize) -> (r: Option<usize>)
        requires
            old(self).wf(),
            origin < old(self).ids.len(),
        ensures
            final(self).wf(),
            match r {
                None => *final(self) == *old(self) && old(self).place@.contains_key(to@)
                    && old(self).best@[old(self).place@[to@] as int] <= score,
                Some(v) => if old(self).place@.contains_key(to@) {
                    &&& v == old(self).place@[to@]
                    &&& score < old(self).best@[v as int]
                    &&& final(self).ids == old(self).ids
                    &&& final(self).place@ == old(self).place@
                    &&& final(self).best@ == old(self).best@.update(v as int, score)
                    &&& final(self).from@ == old(self).from@.update(v as int, origin)
                } else {
                    &&& v == old(self).ids.len()
                    &&& final(self).names() == old(self).names().push(to@)
                    &&& final(self).place@ == old(self).place@.insert(to@, v)
                    &&& final(self).best@ == old(self).best@.push(score)
                    &&& final(self).from@ == old(self).from@.push(origin)
                },
            },
    {
        let ghost before = *self;
        match self.place.get(to.as_str()) {
            Some(at) => {
                let v: usize = *at;
                if self.best[v] <= score {
                    return None;
                }
                self.best.set(v, score);
                self.from.set(v, origin);
                proof {
                    assert(self.names() == before.names());
                    assert forall|x: int| 0 <= x < self.ids.len() implies (#[trigger] self.from@[x])
                        < self.ids.len() by {
                        assert(before.from@[x] < before.ids.len());
                    }
                }
                Some(v)
            },
            None => {
                let v: usize = self.ids.len();
                self.place.insert(to.clone(), v);
                self.ids.push(to.clone());
                self.best.push(score);
                self.from.push(origin);
                proof {
                    assert(self.names() =~= before.names().push(to@));
                    assert forall|x: int| 0 <= x < self.ids.len() implies #[trigger] self.place@.contains_key(
                        self.names()[x],
                    ) && self.place@[self.names()[x]] == x by {
                        if x < v {
                            assert(before.place@.contains_key(before.names()[x]));
                        }
                    }
                    assert forall|k: Seq<char>| #[trigger] self.place@.contains_key(k) implies self.place@[k]
                        < self.ids.len() && self.names()[self.place@[k] as int] == k by {
                        if k != to@ {
                            assert(before.place@.contains_key(k));
                        }
                    }
                    assert forall|x: int| 0 <= x < self.ids.len() implies (#[trigger] self.from@[x])
                        < self.ids.len() by {
                        if x < v {
                            assert(before.from@[x] < before.ids.len());
                        }
                    }
                }
                Some(v)
            },
        }
    }

    /// The points from the first to `target`, each found from the one before.
    fn trace(
        &self,
        target: usize,
        repo: Ghost<RepoView>,
        start: Ghost<Seq<char>>,
        plus: Ghost<spec_fn(u64, u64) -> u64>,
        trail: Ghost<Trail>,
    ) -> (r: Vec<usize>)
        requires
            self.tree(repo@, start@, plus@, trail@),
            target < self.ids.len(),
        ensures
            self.traced(r@),
            r@.last() == target,
    {
        let mut back: Vec<usize> = Vec::new();
        back.push(target);
        let mut at: usize = target;
        while at != 0
            invariant
                self.tree(repo@, start@, plus@, trail@),
                back.len() > 0,
                back@[0] == target,
                at == back@.last(),
                forall|i: int| 0 <= i < back.len() ==> (#[trigger] back@[i]) < self.ids.len(),
                forall|i: int|
                    0 <= i < back.len() - 1 ==> #[trigger] self.follows(back@[i + 1], back@[i]),
            decreases self.best@[at as int], trail@.stamps[at as int],
        {
            let before: usize = self.from[at];
            proof {
                assert(0 < at < self.ids.len());
                assert(earlier(
                    self.best@[before as int],
                    trail@.stamps[before as int],
                    self.best@[at as int],
                    trail@.stamps[at as int],
                ));
            }
            let ghost prior = back@;
            back.push(before);
            proof {
                assert forall|i: int| 0 <= i < back.len() - 1 implies #[trigger] self.follows(
                    back@[i + 1],
                    back@[i],
                ) by {
                    if i + 1 < prior.len() {
                        assert(self.follows(prior[i + 1], prior[i]));
                    }
                }
            }
            at = before;
        }
        let mut out: Vec<usize> = Vec::new();
        let n: usize = back.len();
        let mut i: usize = 0;
        while i < n
            invariant
                n == back.len(),
                i <= n,
                out.len() == i,
                forall|j: int| 0 <= j < i ==> (#[trigger] out@[j]) == back@[n - 1 - j],
            decreases n - i,
        {
            out.push(back[n - 1 - i]);
            i += 1;
        }
        proof {
            assert forall|i: int| 0 <= i < out.len() - 1 implies #[trigger] self.follows(
                out@[i],
                out@[i + 1],
            ) by {
                let k = n - 2 - i;
                assert(self.follows(back@[k + 1], back@[k]));
                assert(out@[i] == back@[n - 1 - i]);
                assert(out@[i + 1] == back@[n - 1 - (i + 1)]);
            }
        }
        out
    }

    /// `b` was found from `a`.
    spec fn follows(self, a: usize, b: usize) -> bool {
        b != 0 && a == self.from@[b as int]
    }

    /// A chain of points, each found from the one before, that begins at the first.
    spec fn traced(self, chain: Seq<usize>) -> bool {
        &&& chain.len() > 0
        &&& chain[0] == 0
        &&& forall|i: int| 0 <= i < chain.len() ==> (#[trigger] chain[i]) < self.ids.len()
        &&& forall|i: int|
            0 <= i < chain.len() - 1 ==> #[trigger] self.follows(chain[i], chain[i + 1])
    }

    /// The walk that a chain of points stands for.
    spec fn walk_of(self, chain: Seq<usize>, trail: Trail) -> Walk {
        Walk {
            points: Seq::new(chain.len(), |i: int| self.names()[chain[i] as int]),
            weights: Seq::new(
                (chain.len() - 1) as nat,
                |i: int| trail.weights[chain[i + 1] as int],
            ),
        }
    }

    proof fn lemma_walk_of(
        self,
        chain: Seq<usize>,
        repo: RepoView,
        start: Seq<char>,
        plus: spec_fn(u64, u64) -> u64,
        trail: Trail,
    )
        requires
            self.tree(repo, start, plus, trail),
            self.traced(chain),
        ensures
            leads(repo, self.walk_of(chain, trail), start, self.names()[chain.last() as int]),
    {
        let walk = self.walk_of(chain, trail);
        assert forall|i: int| 0 <= i < walk.weights.len() implies #[trigger] has_road(
            repo,
            walk.points[i],
            walk.points[i + 1],
            walk.weights[i],
        ) by {
            assert(self.follows(chain[i], chain[i + 1]));
            assert(self.from@[chain[i + 1] as int] == chain[i]);
        }
    }

    /// The tree stays a tree when a point is improved.
    proof fn lemma_improved(
        before: Found,
        after: Found,
        repo: RepoView,
        start: Seq<char>,
        plus: spec_fn(u64, u64) -> u64,
        trail: Trail,
        v: int,
        u: int,
        weight: u64,
    ) -> (next: Trail)
        requires
            grows(plus),
            before.tree(repo, start, plus, trail),
            after.wf(),
            0 <= u < before.ids.len(),
            0 <= v <= before.ids.len(),
            v < before.ids.len() ==> {
                &&& plus(before.best@[u], weight) < before.best@[v]
                &&& after.names() == before.names()
                &&& after.best@ == before.best@.update(v, plus(before.best@[u], weight))
                &&& after.from@ == before.from@.update(v, u as usize)
            },
            v == before.ids.len() ==> {
                &&& after.names() == before.names().push(after.names()[v])
                &&& after.best@ == before.best@.push(plus(before.best@[u], weight))
                &&& after.from@ == before.from@.push(u as usize)
            },
            has_road(repo, before.names()[u], after.names()[v], weight),
        ensures
            after.tree(repo, start, plus, next),
            v != 0,
            v != u,
            next.weights == (if v < before.ids.len() {
                trail.weights.update(v, weight)
            } else {
                trail.weights.push(weight)
            }),
    {
        let score = plus(before.best@[u], weight);
        assert(score >= before.best@[u]);
        let n = before.ids.len() as int;
        assert(before.names().len() == n);
        assert(after.names().len() == after.ids.len());
        let next = if v < n {
            Trail {
                weights: trail.weights.update(v, weight),
                stamps: trail.stamps.update(v, trail.clock),
                clock: trail.clock + 1,
            }
        } else {
            Trail {
                weights: trail.weights.push(weight),
                stamps: trail.stamps.push(trail.clock),
                clock: trail.clock + 1,
            }
        };
        assert forall|x: int| 0 <= x < after.ids.len() implies (#[trigger] next.stamps[x])
            < next.clock by {
            if x < n {
                assert(trail.stamps[x] < trail.clock);
            }
        }
        assert forall|x: int| 0 < x < after.ids.len() implies {
            let y = #[trigger] after.from@[x] as int;
            &&& has_road(repo, after.names()[y], after.names()[x], next.weights[x])
            &&& after.best@[x] >= plus(after.best@[y], next.weights[x])
            &&& earlier(after.best@[y], next.stamps[y], after.best@[x], next.stamps[x])
        } by {
            let y = after.from@[x] as int;
            assert(trail.stamps[u] < trail.clock);
            if x != v {
                assert(before.from@[x] == after.from@[x]);
                assert(before.from@[x] < before.ids.len());
                if y == v {
                    assert(plus(before.best@[v], trail.weights[x]) >= plus(
                        score,
                        trail.weights[x],
                    ));
                }
            }
        }
        next
    }
}

/// The sum of all lengths.
spec fn total(s: Seq<u64>) -> nat
    decreases s.len(),
{
    if s.len() == 0 {
        0
    } else {
        total(s.drop_last()) + s.last() as nat
    }
}

proof fn lemma_total_drops(s: Seq<u64>, i: int, x: u64)
    requires
        0 <= i < s.len(),
        x < s[i],
    ensures
        total(s.update(i, x)) < total(s),
    decreases s.len(),
{
    let t = s.update(i, x);
    if i == s.len() - 1 {
        assert(t.drop_last() =~= s.drop_last());
    } else {
        assert(t.drop_last() =~= s.drop_last().update(i, x));
        lemma_total_drops(s.drop_last(), i, x);
    }
}

/// Every point that some road leads to.
spec fn road_ends(keys: Seq<Seq<char>>, repo: RepoView) -> Set<Seq<char>>
    decreases keys.len(),
{
    if keys.len() == 0 {
        Set::empty()
    } else {
        road_ends(keys.drop_last(), repo).union(
            roads_from(repo, keys.last()).map_values(|e: EdgeView| e.to).to_set(),
        )
    }
}

proof fn lemma_road_ends(keys: Seq<Seq<char>>, repo: RepoView)
    ensures
        road_ends(keys, repo).finite(),
        forall|a: Seq<char>, b: Seq<char>, w: u64|
            keys.contains(a) && #[trigger] has_road(repo, a, b, w) ==> road_ends(
                keys,
                repo,
            ).contains(b),
    decreases keys.len(),
{
    if keys.len() > 0 {
        let front = keys.drop_last();
        lemma_road_ends(front, repo);
        let ends = roads_from(repo, keys.last()).map_values(|e: EdgeView| e.to);
        vstd::seq_lib::seq_to_set_is_finite(ends);
        assert forall|a: Seq<char>, b: Seq<char>, w: u64|
            keys.contains(a) && #[trigger] has_road(repo, a, b, w) implies road_ends(
            keys,
            repo,
        ).contains(b) by {
            let i = keys.index_of(a);
            if i < front.len() {
                assert(front[i] == a);
            } else {
                let j = roads_from(repo, a).index_of(EdgeView { to: b, weight: w });
                assert(ends[j] == b);
                assert(ends.contains(b));
            }
        }
    }
}

/// Everything that a search from `start` may find.
spec fn universe(keys: Seq<Seq<char>>, repo: RepoView, start: Seq<char>) -> Set<Seq<char>> {
    road_ends(keys, repo).insert(start)
}

/// A search has not found more than there is.
proof fn lemma_found_size(found: Seq<Seq<char>>, all: Set<Seq<char>>)
    requires
        all.finite(),
        found.no_duplicates(),
        forall|i: int| 0 <= i < found.len() ==> all.contains(#[trigger] found[i]),
    ensures
        found.len() <= all.len(),
{
    found.unique_seq_to_set();
    assert(found.to_set().subset_of(all)) by {
        assert forall|k: Seq<char>| found.to_set().contains(k) implies all.contains(k) by {
            let i = found.index_of(k);
            assert(all.contains(found[i]));
        }
    }
    vstd::set_lib::lemma_len_subset(found.to_set(), all);
}

/// A known point stays known, at no greater length.
proof fn lemma_better(
    before: Found,
    after: Found,
    v: int,
    to: Seq<char>,
    score: u64,
    b: Seq<char>,
)
    requires
        before.wf(),
        after.wf(),
        before.place@.contains_key(b),
        if before.place@.contains_key(to) {
            &&& v == before.place@[to]
            &&& score < before.best@[v]
            &&& after.place@ == before.place@
            &&& after.best@ == before.best@.update(v, score)
        } else {
            &&& v == before.ids.len()
            &&& v <= usize::MAX
            &&& after.place@ == before.place@.insert(to, v as usize)
            &&& after.best@ == before.best@.push(score)
        },
    ensures
        after.place@.contains_key(b),
        after.best@[after.place@[b] as int] <= before.best@[before.place@[b] as int],
{
}

/// Every point is reached exactly over the road that leads to it.
spec fn exact(found: Found, plus: spec_fn(u64, u64) -> u64, trail: Trail) -> bool {
    &&& found.best@[0] == 0
    &&& forall|v: int|
        0 < v < found.ids.len() ==> found.best@[v] == plus(
            found.best@[#[trigger] found.from@[v] as int],
            trail.weights[v],
        )
}

proof fn lemma_chain_length(
    found: Found,
    plus: spec_fn(u64, u64) -> u64,
    trail: Trail,
    chain: Seq<usize>,
    k: int,
)
    requires
        exact(found, plus, trail),
        found.traced(chain),
        0 <= k < chain.len(),
    ensures
        length_of(found.walk_of(chain, trail).weights.take(k), plus)
            == found.best@[chain[k] as int],
    decreases k,
{
    let weights = found.walk_of(chain, trail).weights;
    if k > 0 {
        let j = k - 1;
        lemma_chain_length(found, plus, trail, chain, j);
        assert(found.follows(chain[j], chain[j + 1]));
        assert(found.from@[chain[k] as int] == chain[j]);
        assert(weights.take(k).drop_last() =~= weights.take(j));
        assert(weights.take(k).last() == weights[j]);
    } else {
        assert(weights.take(0).len() == 0);
    }
}

/// The chain of points from the first to `v`. It passes no point twice, and none is
/// reached at a greater length than `v`.
proof fn lemma_chain_to(
    found: Found,
    repo: RepoView,
    start: Seq<char>,
    plus: spec_fn(u64, u64) -> u64,
    trail: Trail,
    v: int,
) -> (chain: Seq<usize>)
    requires
        found.tree(repo, start, plus, trail),
        0 <= v < found.ids.len(),
    ensures
        found.traced(chain),
        chain.last() == v,
        chain.no_duplicates(),
        forall|i: int|
            0 <= i < chain.len() - 1 ==> earlier(
                found.best@[(#[trigger] chain[i]) as int],
                trail.stamps[chain[i] as int],
                found.best@[v],
                trail.stamps[v],
            ),
    decreases found.best@[v], trail.stamps[v],
{
    if v == 0 {
        seq![0usize]
    } else {
        let u = found.from@[v] as int;
        let front = lemma_chain_to(found, repo, start, plus, trail, u);
        let chain = front.push(v as usize);
        assert forall|i: int| 0 <= i < chain.len() - 1 implies #[trigger] found.follows(
            chain[i],
            chain[i + 1],
        ) by {
            if i + 1 < front.len() {
                assert(found.follows(front[i], front[i + 1]));
            }
        }
        assert forall|i: int| 0 <= i < chain.len() - 1 implies earlier(
            found.best@[(#[trigger] chain[i]) as int],
            trail.stamps[chain[i] as int],
            found.best@[v],
            trail.stamps[v],
        ) by {
            assert(chain[i] == front[i]);
        }
        chain
    }
}

/// The walk to `v` that a search has found: it passes no point twice, and all its points
/// are reached at no greater length than `v`.
proof fn lemma_walk_to(
    found: Found,
    repo: RepoView,
    start: Seq<char>,
    plus: spec_fn(u64, u64) -> u64,
    trail: Trail,
    v: int,
) -> (walk: Walk)
    requires
        found.tree(repo, start, plus, trail),
        exact(found, plus, trail),
        0 <= v < found.ids.len(),
    ensures
        simple_walk(repo, walk, start, found.names()[v]),
        length_of(walk.weights, plus) == found.best@[v],
        has_length(repo, start, found.names()[v], found.best@[v], plus),
        forall|x: int|
            0 <= x < found.ids.len() && walk.points.contains(#[trigger] found.names()[x])
                ==> found.best@[x] <= found.best@[v],
{
    let chain = lemma_chain_to(found, repo, start, plus, trail, v);
    let walk = found.walk_of(chain, trail);
    found.lemma_walk_of(chain, repo, start, plus, trail);
    lemma_chain_length(found, plus, trail, chain, chain.len() - 1);
    assert(walk.weights.take(chain.len() - 1) =~= walk.weights);
    assert forall|i: int, j: int|
        0 <= i < walk.points.len() && 0 <= j < walk.points.len() && i != j implies walk.points[i]
        != walk.points[j] by {
        assert(chain[i] != chain[j]);
        assert(found.place@.contains_key(found.names()[chain[i] as int]));
        assert(found.place@.contains_key(found.names()[chain[j] as int]));
    }
    assert(simple_walk(repo, walk, start, found.names()[v]));
    assert forall|x: int|
        0 <= x < found.ids.len() && walk.points.contains(#[trigger] found.names()[x]) implies found.best@[x]
        <= found.best@[v] by {
        let i = walk.points.index_of(found.names()[x]);
        assert(found.place@.contains_key(found.names()[x]));
        assert(found.place@.contains_key(found.names()[chain[i] as int]));
        assert(chain[i] == x);
    }
    walk
}

/// A search went on: it found a point, or a shorter way, or nothing changed.
spec fn went_on(
    before: Found,
    open_before: Multiset<(u64, usize)>,
    after: Found,
    open_after: Multiset<(u64, usize)>,
) -> bool {
    ||| after.ids.len() > before.ids.len()
    ||| after.ids.len() == before.ids.len() && total(after.best@) < total(before.best@)
    ||| after == before && open_after == open_before
}

/// All that a search has found is in `all`.
spec fn found_in(found: Found, all: Set<Seq<char>>) -> bool {
    forall|v: int| 0 <= v < found.ids.len() ==> all.contains(#[trigger] found.names()[v])
}

/// What is settled stays as it is.
spec fn keeps_settled(before: Found, after: Found, settled: Set<int>) -> bool {
    forall|x: int| #[trigger]
        settled.contains(x) ==> after.best@[x] == before.best@[x] && after.names()[x]
            == before.names()[x]
}

/// The places of the points of a chain.
fn places_of(
    found: &Found,
    chain: &Vec<usize>,
    repo: &NodeRepo,
    start: Ghost<Seq<char>>,
    plus: Ghost<spec_fn(u64, u64) -> u64>,
    trail: Ghost<Trail>,
) -> (r: Vec<Coord>)
    requires
        mapped(repo@),
        repo@.coords.contains_key(start@),
        found.tree(repo@, start@, plus@, trail@),
        found.traced(chain@),
    ensures
        r@ == places(repo@, found.walk_of(chain@, trail@).points),
{
    let ghost points = found.walk_of(chain@, trail@).points;
    let mut out: Vec<Coord> = Vec::new();
    let mut i: usize = 0;
    while i < chain.len()
        invariant
            mapped(repo@),
            repo@.coords.contains_key(start@),
            found.tree(repo@, start@, plus@, trail@),
            found.traced(chain@),
            points == found.walk_of(chain@, trail@).points,
            i <= chain.len(),
            out@ == places(repo@, points).take(i as int),
        decreases chain.len() - i,
    {
        let v: usize = chain[i];
        proof {
            assert(v < found.ids.len());
            if v > 0 {
                let u = found.from@[v as int] as int;
                assert(has_road(
                    repo@,
                    found.names()[u],
                    found.names()[v as int],
                    trail@.weights[v as int],
                ));
            }
            assert(repo@.coords.contains_key(found.names()[v as int]));
        }
        if let Some(coord) = repo.coords_by_id.get(found.ids[v].as_str()) {
            out.push(*coord);
        }
        proof {
            assert(places(repo@, points).take(i + 1) =~= places(repo@, points).take(
                i as int,
            ).push(places(repo@, points)[i as int]));
        }
        i += 1;
    }
    proof {
        assert(places(repo@, points).take(i as int) =~= places(repo@, points));
    }
    out
}

proof fn lemma_found_bounded(found: Found, all: Set<Seq<char>>)
    requires
        found.wf(),
        all.finite(),
        found_in(found, all),
    ensures
        found.ids.len() <= all.len(),
{
    assert forall|i: int, j: int|
        0 <= i < found.names().len() && 0 <= j < found.names().len() && i != j implies found.names()[i]
        != found.names()[j] by {
        assert(found.place@.contains_key(found.names()[i]));
        assert(found.place@.contains_key(found.names()[j]));
    }
    lemma_found_size(found.names(), all);
}

} // verus!
