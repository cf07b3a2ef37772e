//! Which nodes are joined by roads.
use vstd::hash_set::StringHashSet;
use vstd::prelude::*;

use crate::loading::roads_sound;
use crate::production::roads_from;
use crate::repo::{EdgeView, NodeRepo, RepoView};
use crate::state::texts;
use crate::table::Table;
use crate::walks::{has_road, leads, mapped, reachable, Walk};

verus! {

/// A point reaches itself.
pub proof fn lemma_reaches_itself(repo: RepoView, a: Seq<char>)
    ensures
        reachable(repo, a, a),
{
    let walk = Walk { points: seq![a], weights: Seq::empty() };
    assert(leads(repo, walk, a, a));
}

/// A road adds to what is reached.
pub proof fn lemma_reaches_on(repo: RepoView, a: Seq<char>, b: Seq<char>, c: Seq<char>, w: u64)
    requires
        reachable(repo, a, b),
        has_road(repo, b, c, w),
    ensures
        reachable(repo, a, c),
{
    let walk = choose|walk: Walk| #[trigger] leads(repo, walk, a, b);
    let next = Walk { points: walk.points.push(c), weights: walk.weights.push(w) };
    assert forall|i: int| 0 <= i < next.weights.len() implies #[trigger] has_road(
        repo,
        next.points[i],
        next.points[i + 1],
        next.weights[i],
    ) by {
        if i < walk.weights.len() {
            assert(has_road(repo, walk.points[i], walk.points[i + 1], walk.weights[i]));
        }
    }
    assert(leads(repo, next, a, c));
}

/// What is reached from what is reached, is reached.
pub proof fn lemma_reaches_through(repo: RepoView, a: Seq<char>, b: Seq<char>, c: Seq<char>)
    requires
        reachable(repo, a, b),
        reachable(repo, b, c),
    ensures
        reachable(repo, a, c),
{
    let walk = choose|walk: Walk| #[trigger] leads(repo, walk, b, c);
    lemma_reaches_along(repo, a, b, c, walk, walk.weights.len() as int);
}

proof fn lemma_reaches_along(
    repo: RepoView,
    a: Seq<char>,
    b: Seq<char>,
    c: Seq<char>,
    walk: Walk,
    k: int,
)
    requires
        reachable(repo, a, b),
        leads(repo, walk, b, c),
        0 <= k <= walk.weights.len(),
    ensures
        reachable(repo, a, walk.points[k]),
    decreases k,
{
    if k > 0 {
        let j = k - 1;
        lemma_reaches_along(repo, a, b, c, walk, j);
        assert(has_road(repo, walk.points[j], walk.points[j + 1], walk.weights[j]));
        lemma_reaches_on(repo, a, walk.points[j], walk.points[k], walk.weights[j]);
    }
}

/// Where roads lead back, so do walks.
pub proof fn lemma_reaches_back(repo: RepoView, a: Seq<char>, b: Seq<char>)
    requires
        roads_sound(repo),
        reachable(repo, a, b),
    ensures
        reachable(repo, b, a),
{
    let walk = choose|walk: Walk| #[trigger] leads(repo, walk, a, b);
    lemma_reaches_back_along(repo, a, b, walk, 0);
}

proof fn lemma_reaches_back_along(
    repo: RepoView,
    a: Seq<char>,
    b: Seq<char>,
    walk: Walk,
    k: int,
)
    requires
        roads_sound(repo),
        leads(repo, walk, a, b),
        0 <= k <= walk.weights.len(),
    ensures
        reachable(repo, b, walk.points[k]),
    decreases walk.weights.len() - k,
{
    if k == walk.weights.len() {
        lemma_reaches_itself(repo, b);
    } else {
        lemma_reaches_back_along(repo, a, b, walk, k + 1);
        assert(has_road(repo, walk.points[k], walk.points[k + 1], walk.weights[k]));
        lemma_reaches_on(repo, b, walk.points[k + 1], walk.points[k], walk.weights[k]);
    }
}

/// No road leads out of `set`.
spec fn closed_set(repo: RepoView, set: Set<Seq<char>>) -> bool {
    forall|a: Seq<char>, b: Seq<char>, w: u64|
        set.contains(a) && #[trigger] has_road(repo, a, b, w) ==> set.contains(b)
}

/// No walk leads out of a set that no road leads out of.
proof fn lemma_closed(repo: RepoView, set: Set<Seq<char>>, a: Seq<char>, b: Seq<char>)
    requires
        closed_set(repo, set),
        set.contains(a),
        reachable(repo, a, b),
    ensures
        set.contains(b),
{
    let walk = choose|walk: Walk| #[trigger] leads(repo, walk, a, b);
    lemma_closed_along(repo, set, a, b, walk, walk.weights.len() as int);
}

proof fn lemma_closed_along(
    repo: RepoView,
    set: Set<Seq<char>>,
    a: Seq<char>,
    b: Seq<char>,
    walk: Walk,
    k: int,
)
    requires
        closed_set(repo, set),
        set.contains(a),
        leads(repo, walk, a, b),
        0 <= k <= walk.weights.len(),
    ensures
        set.contains(walk.points[k]),
    decreases k,
{
    if k > 0 {
        let j = k - 1;
        lemma_closed_along(repo, set, a, b, walk, j);
        assert(has_road(repo, walk.points[j], walk.points[j + 1], walk.weights[j]));
    }
}

/// Nodes have the same number exactly when roads join them.
pub open spec fn right_components(repo: RepoView, components: Map<Seq<char>, i64>) -> bool {
    &&& forall|k: Seq<char>| #[trigger]
        components.contains_key(k) <==> repo.nodes.contains_key(k)
    &&& forall|a: Seq<char>, b: Seq<char>|
        #![trigger components[a], components[b]]
        components.contains_key(a) && components.contains_key(b) ==> (components[a]
            == components[b] <==> reachable(repo, a, b))
}

/// Points visited so far bear the number of their component.
spec fn labelled(
    repo: RepoView,
    visited: Set<Seq<char>>,
    labels: Map<Seq<char>, i64>,
    last: i64,
) -> bool {
    &&& closed_set(repo, visited)
    &&& forall|k: Seq<char>| #[trigger]
        visited.contains(k) ==> labels.contains_key(k) && 1 <= labels[k] <= last
    &&& forall|a: Seq<char>, b: Seq<char>|
        #![trigger labels[a], labels[b]]
        visited.contains(a) && visited.contains(b) ==> (labels[a] == labels[b] <==> reachable(
            repo,
            a,
            b,
        ))
}

/// The numbers of nodes among the labels.
spec fn kept_labels(
    repo: RepoView,
    visited: Set<Seq<char>>,
    labels: Map<Seq<char>, i64>,
    components: Map<Seq<char>, i64>,
) -> bool {
    &&& forall|k: Seq<char>| #[trigger]
        components.contains_key(k) <==> visited.contains(k) && repo.nodes.contains_key(k)
    &&& forall|k: Seq<char>| #[trigger] components.contains_key(k) ==> components[k] == labels[k]
}

/// The labels with `number` for everything that is new in `after`.
spec fn relabelled(
    labels: Map<Seq<char>, i64>,
    before: Set<Seq<char>>,
    after: Set<Seq<char>>,
    number: i64,
) -> Map<Seq<char>, i64> {
    Map::new(
        |k: Seq<char>| after.contains(k),
        |k: Seq<char>|
            if before.contains(k) {
                labels[k]
            } else {
                number
            },
    )
}

/// What one round of visits has found: all of it is reached from `root`, and
/// roads out of it lead to visited points or to ones that wait.
spec fn visiting(
    repo: RepoView,
    root: Seq<char>,
    before: Set<Seq<char>>,
    visited: Set<Seq<char>>,
    stack: Seq<Seq<char>>,
) -> bool {
    &&& before.subset_of(visited)
    &&& forall|k: Seq<char>| #[trigger]
        visited.contains(k) && !before.contains(k) ==> reachable(repo, root, k)
    &&& forall|i: int| 0 <= i < stack.len() ==> reachable(repo, root, #[trigger] stack[i])
    &&& visited.contains(root) || stack.contains(root)
    &&& forall|a: Seq<char>, b: Seq<char>, w: u64|
        visited.contains(a) && !before.contains(a) && #[trigger] has_road(repo, a, b, w)
            ==> visited.contains(b) || stack.contains(b)
}

/// A finished round adds exactly one component.
proof fn lemma_round(
    repo: RepoView,
    root: Seq<char>,
    before: Set<Seq<char>>,
    visited: Set<Seq<char>>,
    labels: Map<Seq<char>, i64>,
    last: i64,
)
    requires
        roads_sound(repo),
        labelled(repo, before, labels, last),
        !before.contains(root),
        visiting(repo, root, before, visited, Seq::empty()),
        0 <= last < i64::MAX,
    ensures
        labelled(
            repo,
            visited,
            relabelled(labels, before, visited, (last + 1) as i64),
            (last + 1) as i64,
        ),
{
    let next = relabelled(labels, before, visited, (last + 1) as i64);
    assert forall|a: Seq<char>, b: Seq<char>, w: u64|
        visited.contains(a) && #[trigger] has_road(repo, a, b, w) implies visited.contains(b) by {
        if before.contains(a) {
            assert(before.contains(b));
        }
    }
    assert forall|a: Seq<char>, b: Seq<char>|
        #![trigger next[a], next[b]]
        visited.contains(a) && visited.contains(b) implies (next[a] == next[b] <==> reachable(
        repo,
        a,
        b,
    )) by {
        if before.contains(a) && before.contains(b) {
            assert(labels[a] == labels[b] <==> reachable(repo, a, b));
        } else if !before.contains(a) && !before.contains(b) {
            lemma_reaches_back(repo, root, a);
            lemma_reaches_through(repo, a, root, b);
        } else if before.contains(a) {
            assert(labels[a] <= last);
            if reachable(repo, a, b) {
                lemma_closed(repo, before, a, b);
            }
        } else {
            assert(labels[b] <= last);
            if reachable(repo, a, b) {
                lemma_reaches_back(repo, a, b);
                lemma_closed(repo, before, b, a);
            }
        }
    }
}

/// Pushes the points at the ends of the roads from `current` that are not visited.
fn push_neighbors(
    repo: &NodeRepo,
    current: &String,
    visited: &StringHashSet,
    stack: &mut Vec<String>,
    root: Ghost<Seq<char>>,
)
    requires
        reachable(repo@, root@, current@),
        forall|i: int|
            0 <= i < old(stack).len() ==> reachable(repo@, root@, #[trigger] texts(old(stack)@)[i]),
    ensures
        forall|i: int|
            0 <= i < final(stack).len() ==> reachable(
                repo@,
                root@,
                #[trigger] texts(final(stack)@)[i],
            ),
        forall|k: Seq<char>| #[trigger]
            texts(old(stack)@).contains(k) ==> texts(final(stack)@).contains(k),
        forall|b: Seq<char>, w: u64| #[trigger]
            has_road(repo@, current@, b, w) ==> visited@.contains(b) || texts(
                final(stack)@,
            ).contains(b),
{
    let list = match repo.adjacency.get(current.as_str()) {
        Some(l) => l,
        None => {
            return;
        },
    };
    let ghost edges = list@;
    let ghost first = texts(stack@);
    let mut i: usize = 0;
    while i < list.edges.len()
        invariant
            edges == list@,
            edges == roads_from(repo@, current@),
            i <= list.edges.len(),
            reachable(repo@, root@, current@),
            forall|k: int|
                0 <= k < stack.len() ==> reachable(repo@, root@, #[trigger] texts(stack@)[k]),
            forall|k: Seq<char>| #[trigger] first.contains(k) ==> texts(stack@).contains(k),
            forall|k: int|
                0 <= k < i ==> visited@.contains((#[trigger] edges[k]).to) || texts(
                    stack@,
                ).contains(edges[k].to),
        decreases list.edges.len() - i,
    {
        let edge = &list.edges[i];
        proof {
            assert(edges[i as int] == edge@);
            assert(has_road(repo@, current@, edge@.to, edge@.weight));
        }
        if !visited.contains(edge.to.as_str()) {
            let ghost before = stack@;
            stack.push(edge.to.clone());
            proof {
                assert(texts(stack@) =~= texts(before).push(edge@.to));
                lemma_reaches_on(repo@, root@, current@, edge@.to, edge@.weight);
                assert forall|k: Seq<char>| #[trigger] texts(before).contains(k) implies texts(
                    stack@,
                ).contains(k) by {
                    let w = texts(before).index_of(k);
                    assert(texts(stack@)[w] == k);
                }
                assert(texts(stack@)[before.len() as int] == edge@.to);
                assert forall|k: int| 0 <= k < stack.len() implies reachable(
                    repo@,
                    root@,
                    #[trigger] texts(stack@)[k],
                ) by {
                    if k < before.len() {
                        assert(reachable(repo@, root@, texts(before)[k]));
                    }
                }
            }
        }
        i += 1;
    }
    proof {
        assert forall|b: Seq<char>, w: u64| #[trigger]
            has_road(repo@, current@, b, w) implies visited@.contains(b) || texts(
            stack@,
        ).contains(b) by {
            let k = edges.index_of(EdgeView { to: b, weight: w });
            assert(edges[k].to == b);
        }
    }
}

/// Gives every node the number of the component it lies in.
pub fn label_components(repo: &mut NodeRepo)
    requires
        mapped(old(repo)@),
        roads_sound(old(repo)@),
        old(repo)@.coord_keys.len() < i64::MAX,
    ensures
        final(repo)@ == (RepoView { components: final(repo)@.components, ..old(repo)@ }),
        right_components(old(repo)@, final(repo)@.components),
{
    let ghost map = repo@;
    let ghost keys = repo.coords_by_id.keys();
    let ghost all = keys.to_set();
    let n: usize = repo.coords_by_id.len();
    let mut visited = StringHashSet::new();
    let mut components: Table<i64> = Table::new();
    let mut last: i64 = 0;
    let ghost mut labels: Map<Seq<char>, i64> = Map::empty();
    proof {
        vstd::seq_lib::seq_to_set_is_finite(keys);
    }
    let mut i: usize = 0;
    while i < n
        invariant
            map == repo@,
            mapped(map),
            roads_sound(map),
            keys == repo.coords_by_id.keys(),
            repo.coords_by_id.coherent(),
            all == keys.to_set(),
            all.finite(),
            n == keys.len(),
            n < i64::MAX,
            i <= n,
            0 <= last <= i,
            visited@.subset_of(all),
            labelled(map, visited@, labels, last),
            kept_labels(map, visited@, labels, components@),
            forall|j: int| 0 <= j < i ==> visited@.contains(#[trigger] keys[j]),
        decreases n - i,
    {
        let root = repo.coords_by_id.key_at(i);
        if !visited.contains(root.as_str()) {
            let ghost before = visited@;
            let ghost first = components@;
            let number: i64 = last + 1;
            let mut stack: Vec<String> = Vec::new();
            stack.push(root.clone());
            proof {
                lemma_reaches_itself(map, root@);
                assert(texts(stack@)[0] == root@);
                assert(keys.contains(root@));
                vstd::set_lib::lemma_len_subset(visited@, all);
            }
            loop
                invariant
                    map == repo@,
                    mapped(map),
                    roads_sound(map),
                    keys == repo.coords_by_id.keys(),
                    repo.coords_by_id.coherent(),
                    all == keys.to_set(),
                    all.finite(),
                    all.contains(root@),
                    number == last + 1,
                    0 <= last,
                    !before.contains(root@),
                    before.subset_of(all),
                    visited@.subset_of(all),
                    visited@.finite(),
                    visiting(map, root@, before, visited@, texts(stack@)),
                    labelled(map, before, labels, last),
                    kept_labels(map, before, labels, first),
                    kept_labels(
                        map,
                        visited@,
                        relabelled(labels, before, visited@, number),
                        components@,
                    ),
                ensures
                    texts(stack@) == Seq::<Seq<char>>::empty(),
                decreases all.len() - visited@.len(), stack.len(),
            {
                let ghost waiting = texts(stack@);
                let ghost seen = visited@;
                let current: String = match stack.pop() {
                    Some(c) => c,
                    None => {
                        proof {
                            assert(texts(stack@) =~= Seq::<Seq<char>>::empty());
                        }
                        break;
                    },
                };
                proof {
                    let top = waiting.len() - 1;
                    assert(waiting[top] == current@);
                    assert(texts(stack@) =~= waiting.drop_last());
                    assert forall|k: Seq<char>| #[trigger] waiting.contains(k) implies k == current@
                        || texts(stack@).contains(k) by {
                        let w = waiting.index_of(k);
                        if w < top {
                            assert(texts(stack@)[w] == k);
                        }
                    }
                    assert forall|k: int| 0 <= k < stack.len() implies reachable(
                        map,
                        root@,
                        #[trigger] texts(stack@)[k],
                    ) by {
                        assert(waiting[k] == texts(stack@)[k]);
                    }
                    assert(reachable(map, root@, waiting[top]));
                    lemma_on_map(map, keys, root@, current@);
                }
                if visited.contains(current.as_str()) {
                    continue;
                }
                visited.insert(current.clone());
                if repo.nodes_by_id.contains_key(current.as_str()) {
                    components.insert(current.clone(), number);
                }
                push_neighbors(repo, &current, &visited, &mut stack, Ghost(root@));
                proof {
                    vstd::set_lib::lemma_len_subset(visited@, all);
                    assert(visited@ =~= seen.insert(current@));
                }
            }
            proof {
                lemma_round(map, root@, before, visited@, labels, last);
                labels = relabelled(labels, before, visited@, number);
                assert(visited@.contains(root@));
            }
            last = number;
        }
        proof {
            assert(visited@.contains(keys[i as int]));
        }
        i += 1;
    }
    repo.connected_components = components;
    proof {
        assert forall|k: Seq<char>| #[trigger]
            components@.contains_key(k) <==> map.nodes.contains_key(k) by {
            if map.nodes.contains_key(k) {
                assert(map.coords.contains_key(k));
                let j = keys.index_of(k);
                assert(keys[j] == k);
            }
        }
    }
}

/// What is reached from a place on the map is on the map.
proof fn lemma_on_map(repo: RepoView, keys: Seq<Seq<char>>, a: Seq<char>, b: Seq<char>)
    requires
        roads_sound(repo),
        keys.contains(a),
        forall|k: Seq<char>| #[trigger] repo.coords.contains_key(k) <==> keys.contains(k),
        reachable(repo, a, b),
    ensures
        keys.to_set().contains(b),
{
    let set = repo.coords.dom();
    assert(closed_set(repo, set)) by {
        assert forall|x: Seq<char>, y: Seq<char>, w: u64|
            set.contains(x) && #[trigger] has_road(repo, x, y, w) implies set.contains(y) by {
            assert(repo.coords.contains_key(y));
        }
    }
    assert(repo.coords.contains_key(a));
    lemma_closed(repo, set, a, b);
    assert(repo.coords.contains_key(b));
}

} // verus!
