//! Neighbours and routes, kept from one request to the next.
use vstd::prelude::*;
use vstd::string::StringExecFns;

use crate::errors::{Failure, FailureView, Refusal};
use crate::geometry::{measures, metric, Coord};
use crate::repo::{NodeRepo, Path, RepoView};
use crate::search::neighbors::{explore, neighbors_by, route_views};
use crate::search::pathfinding::{find_path, is_road_path, road_path};
use crate::state::{copy_path, copy_texts, texts, IdList};
use crate::text::{signed_decimal, signed_digits};
use crate::walks::{
    adds, adds_exactly, adjacent, connects, crow, grows, has_length, has_road, is_walk,
    law_exact_sums_guide_surely, leads, length_of, mapped, places, plus, reachable,
    shortest_connection, shortest_walk, Walk,
};

verus! {

/// Under which neighbours are kept: the version of the road map and the node.
pub open spec fn neighbor_key(version: int, node: Seq<char>) -> Seq<char> {
    signed_digits(version) + ":"@ + node
}

/// Under which a route is kept.
pub open spec fn route_key(version: int, from: Seq<char>, to: Seq<char>) -> Seq<char> {
    neighbor_key(version, from) + ":"@ + to
}

fn make_neighbor_key(version: i64, node: &str) -> (r: String)
    ensures
        r@ == neighbor_key(version as int, node@),
{
    let mut key = signed_decimal(version);
    key.append(":");
    key.append(node);
    key
}

fn make_route_key(version: i64, from: &str, to: &str) -> (r: String)
    ensures
        r@ == route_key(version as int, from@, to@),
{
    let mut key = make_neighbor_key(version, from);
    key.append(":");
    key.append(to);
    key
}

/// The kept routes with those to `targets` added.
pub open spec fn routes_kept(
    kept: Map<Seq<char>, Seq<Coord>>,
    version: int,
    from: Seq<char>,
    targets: Seq<Seq<char>>,
    routes: Seq<Seq<Coord>>,
) -> Map<Seq<char>, Seq<Coord>>
    decreases targets.len(),
{
    if targets.len() == 0 {
        kept
    } else {
        routes_kept(kept, version, from, targets.drop_last(), routes.drop_last()).insert(
            route_key(version, from, targets.last()),
            routes.last(),
        )
    }
}

/// Two nodes' routes from the same node are kept apart.
pub proof fn lemma_route_keys_differ(version: int, from: Seq<char>, a: Seq<char>, b: Seq<char>)
    requires
        route_key(version, from, a) == route_key(version, from, b),
    ensures
        a == b,
{
    let head = neighbor_key(version, from) + ":"@;
    assert(route_key(version, from, a).skip(head.len() as int) =~= a);
    assert(route_key(version, from, b).skip(head.len() as int) =~= b);
}

/// The way to each of the neighbours is found among the kept routes.
pub proof fn law_neighbor_routes_kept(
    kept: Map<Seq<char>, Seq<Coord>>,
    version: int,
    from: Seq<char>,
    targets: Seq<Seq<char>>,
    routes: Seq<Seq<Coord>>,
    i: int,
)
    requires
        targets.no_duplicates(),
        targets.len() == routes.len(),
        0 <= i < targets.len(),
    ensures
        ({
            let after = routes_kept(kept, version, from, targets, routes);
            let key = route_key(version, from, targets[i]);
            after.contains_key(key) && after[key] == routes[i]
        }),
    decreases targets.len(),
{
    if i < targets.len() - 1 {
        law_neighbor_routes_kept(kept, version, from, targets.drop_last(), routes.drop_last(), i);
        if route_key(version, from, targets[i]) == route_key(version, from, targets.last()) {
            lemma_route_keys_differ(version, from, targets[i], targets.last());
        }
    }
}

/// The road map after the neighbours of `from` were worked out.
pub open spec fn neighbors_kept(
    repo: RepoView,
    from: Seq<char>,
    targets: Seq<Seq<char>>,
    routes: Seq<Seq<Coord>>,
) -> RepoView {
    RepoView {
        neighbor_cache: repo.neighbor_cache.insert(
            neighbor_key(repo.graph_version, from),
            targets,
        ),
        route_cache: routes_kept(repo.route_cache, repo.graph_version, from, targets, routes),
        ..repo
    }
}

/// `targets` are the neighbours of `from`, and they are now kept with their routes.
pub open spec fn neighbors_worked_out(
    repo: RepoView,
    next: RepoView,
    from: Seq<char>,
    targets: Seq<Seq<char>>,
    routes: Seq<Seq<Coord>>,
    walks: Seq<Walk>,
    plus: spec_fn(u64, u64) -> u64,
) -> bool {
    &&& neighbors_by(repo, from, plus, targets, routes, walks)
    &&& next == neighbors_kept(repo, from, targets, routes)
}

/// `targets` are the neighbours of `from`, worked out anew.
pub open spec fn fresh_neighbors(
    repo: RepoView,
    next: RepoView,
    from: Seq<char>,
    targets: Seq<Seq<char>>,
    plus: spec_fn(u64, u64) -> u64,
) -> bool {
    exists|routes: Seq<Seq<Coord>>, walks: Seq<Walk>| #[trigger]
        neighbors_worked_out(repo, next, from, targets, routes, walks, plus)
}

/// What asking for the neighbours of a node gives.
pub open spec fn neighbors_outcome(
    repo: RepoView,
    next: RepoView,
    from: Seq<char>,
    r: Result<Vec<String>, Refusal>,
    plus: spec_fn(u64, u64) -> u64,
) -> bool {
    let key = neighbor_key(repo.graph_version, from);
    if !repo.nodes.contains_key(from) {
        r == Err::<Vec<String>, Refusal>(Refusal::InvalidNodes) && next == repo
    } else if repo.neighbor_cache.contains_key(key) {
        r is Ok && texts(r->Ok_0@) == repo.neighbor_cache[key] && next == repo
    } else {
        r is Ok && fresh_neighbors(repo, next, from, texts(r->Ok_0@), plus)
    }
}

/// The nodes that a road reaches from `from_node_id` without passing a node.
pub fn immediate_neighbor_targets<S: Fn(u64, u64) -> u64>(
    repo: &mut NodeRepo,
    from_node_id: &str,
    sum: &S,
) -> (r: Result<Vec<String>, Refusal>)
    requires
        adds(*sum),
        grows(plus(*sum)),
        mapped(old(repo)@),
    ensures
        neighbors_outcome(old(repo)@, final(repo)@, from_node_id@, r, plus(*sum)),
        mapped(final(repo)@),
{
    let ghost before = repo@;
    if !repo.nodes_by_id.contains_key(from_node_id) {
        return Err(Refusal::InvalidNodes);
    }
    let version: i64 = repo.graph_version;
    let key = make_neighbor_key(version, from_node_id);
    if let Some(kept) = repo.immediate_neighbor_cache.get(key.as_str()) {
        return Ok(copy_texts(&kept.ids));
    }
    let found = explore(repo, from_node_id, sum);
    let ghost targets = texts(found.targets@);
    let ghost routes = route_views(found.routes@);
    let n: usize = found.targets.len();
    proof {
        let walks = choose|walks: Seq<Walk>| #[trigger]
            neighbors_by(before, from_node_id@, plus(*sum), targets, routes, walks);
        assert(routes.len() == targets.len());
    }
    let mut i: usize = 0;
    while i < n
        invariant
            version == before.graph_version,
            targets == texts(found.targets@),
            routes == route_views(found.routes@),
            n == targets.len(),
            routes.len() == n,
            i <= n,
            repo@ == (RepoView {
                route_cache: routes_kept(
                    before.route_cache,
                    before.graph_version,
                    from_node_id@,
                    targets.take(i as int),
                    routes.take(i as int),
                ),
                ..before
            }),
        decreases n - i,
    {
        let route_key = make_route_key(version, from_node_id, found.targets[i].as_str());
        repo.route_cache.insert(route_key, Path { points: copy_path(&found.routes[i]) });
        proof {
            assert(targets.take(i + 1).drop_last() =~= targets.take(i as int));
            assert(routes.take(i + 1).drop_last() =~= routes.take(i as int));
            assert(targets.take(i + 1).last() == targets[i as int]);
            assert(routes.take(i + 1).last() == routes[i as int]);
        }
        i += 1;
    }
    repo.immediate_neighbor_cache.insert(key, IdList { ids: copy_texts(&found.targets) });
    proof {
        assert(targets.take(n as int) =~= targets);
        assert(routes.take(n as int) =~= routes);
        let walks = choose|walks: Seq<Walk>| #[trigger]
            neighbors_by(before, from_node_id@, plus(*sum), targets, routes, walks);
        assert(neighbors_worked_out(
            before,
            repo@,
            from_node_id@,
            targets,
            routes,
            walks,
            plus(*sum),
        ));
        lemma_mapped_kept(before, repo@);
        assert(fresh_neighbors(before, repo@, from_node_id@, targets, plus(*sum)));
    }
    Ok(found.targets)
}

/// Where nodes, roads and places stay, the map stays complete.
pub proof fn lemma_mapped_kept(a: RepoView, b: RepoView)
    requires
        mapped(a),
        a.nodes == b.nodes,
        a.coords == b.coords,
        a.adjacency == b.adjacency,
    ensures
        mapped(b),
{
    assert forall|x: Seq<char>, y: Seq<char>, w: u64| #[trigger]
        has_road(b, x, y, w) implies b.coords.contains_key(y) by {
        assert(has_road(a, x, y, w));
    }
}

/// What asking for a route gives.
pub open spec fn route_outcome(
    repo: RepoView,
    next: RepoView,
    from: Seq<char>,
    to: Seq<char>,
    r: Result<Vec<Coord>, Failure>,
    plus: spec_fn(u64, u64) -> u64,
    distance: spec_fn(Coord, Coord) -> u64,
) -> bool {
    let key = route_key(repo.graph_version, from, to);
    if repo.route_cache.contains_key(key) {
        r is Ok && r->Ok_0@ == repo.route_cache[key] && next == repo
    } else if !repo.coords.contains_key(from) || !repo.coords.contains_key(to) {
        r is Err && r->Err_0@ == FailureView::Refused(Refusal::NoRoadCoordinates) && next == repo
    } else if reachable(repo, from, to) {
        r is Ok && is_road_path(repo, from, to, plus, distance, r->Ok_0@) && next == (RepoView {
            route_cache: repo.route_cache.insert(key, r->Ok_0@),
            ..repo
        })
    } else {
        r is Err && r->Err_0@ == (FailureView::NoRoad { from, to }) && next == repo
    }
}

/// A way along roads from one node to another.
pub fn find_road_path<S: Fn(u64, u64) -> u64, F: Fn(Coord, Coord) -> u64>(
    repo: &mut NodeRepo,
    from_node_id: &str,
    to_node_id: &str,
    sum: &S,
    distance: &F,
) -> (r: Result<Vec<Coord>, Failure>)
    requires
        adds(*sum),
        grows(plus(*sum)),
        measures(*distance),
        mapped(old(repo)@),
    ensures
        route_outcome(
            old(repo)@,
            final(repo)@,
            from_node_id@,
            to_node_id@,
            r,
            plus(*sum),
            metric(*distance),
        ),
        mapped(final(repo)@),
{
    let ghost before = repo@;
    let key = make_route_key(repo.graph_version, from_node_id, to_node_id);
    if let Some(path) = repo.route_cache.get(key.as_str()) {
        return Ok(copy_path(&path.points));
    }
    if !repo.coords_by_id.contains_key(from_node_id) || !repo.coords_by_id.contains_key(
        to_node_id,
    ) {
        return Err(Failure::Refused(Refusal::NoRoadCoordinates));
    }
    match find_path(repo, from_node_id, to_node_id, sum, distance) {
        Some(path) => {
            repo.route_cache.insert(key, Path { points: copy_path(&path) });
            proof {
                lemma_mapped_kept(before, repo@);
                let walk = choose|walk: Walk| #[trigger]
                    road_path(
                        before,
                        from_node_id@,
                        to_node_id@,
                        plus(*sum),
                        metric(*distance),
                        path@,
                        walk,
                    );
                assert(leads(before, walk, from_node_id@, to_node_id@));
            }
            Ok(path)
        },
        None => Err(
            Failure::NoRoad { from: from_node_id.to_owned(), to: to_node_id.to_owned() },
        ),
    }
}

/// Two road maps with the same nodes, roads and places.
pub open spec fn same_roads(a: RepoView, b: RepoView) -> bool {
    &&& a.nodes == b.nodes
    &&& a.adjacency == b.adjacency
    &&& a.coords == b.coords
}

proof fn lemma_same_walks(a: RepoView, b: RepoView)
    requires
        same_roads(a, b),
    ensures
        forall|walk: Walk| #[trigger] is_walk(a, walk) == is_walk(b, walk),
        forall|walk: Walk, from: Seq<char>, to: Seq<char>| #[trigger]
            leads(a, walk, from, to) == leads(b, walk, from, to),
        forall|walk: Walk, from: Seq<char>, to: Seq<char>| #[trigger]
            connects(a, walk, from, to) == connects(b, walk, from, to),
{
    assert forall|walk: Walk| #[trigger] is_walk(a, walk) == is_walk(b, walk) by {
        if is_walk(a, walk) {
            assert forall|i: int| 0 <= i < walk.weights.len() implies #[trigger] has_road(
                b,
                walk.points[i],
                walk.points[i + 1],
                walk.weights[i],
            ) by {
                assert(has_road(a, walk.points[i], walk.points[i + 1], walk.weights[i]));
            }
        }
        if is_walk(b, walk) {
            assert forall|i: int| 0 <= i < walk.weights.len() implies #[trigger] has_road(
                a,
                walk.points[i],
                walk.points[i + 1],
                walk.weights[i],
            ) by {
                assert(has_road(b, walk.points[i], walk.points[i + 1], walk.weights[i]));
            }
        }
    }
}

proof fn lemma_same_neighbors(
    a: RepoView,
    b: RepoView,
    from: Seq<char>,
    plus: spec_fn(u64, u64) -> u64,
    targets: Seq<Seq<char>>,
    routes: Seq<Seq<Coord>>,
    walks: Seq<Walk>,
)
    requires
        same_roads(a, b),
        neighbors_by(a, from, plus, targets, routes, walks),
    ensures
        neighbors_by(b, from, plus, targets, routes, walks),
{
    lemma_same_walks(a, b);
    assert forall|t: Seq<char>| #[trigger] targets.contains(t) <==> adjacent(b, from, t) by {
        assert(targets.contains(t) <==> adjacent(a, from, t));
        if adjacent(a, from, t) {
            let walk = choose|walk: Walk| #[trigger] connects(a, walk, from, t);
            assert(connects(b, walk, from, t));
        }
        if adjacent(b, from, t) {
            let walk = choose|walk: Walk| #[trigger] connects(b, walk, from, t);
            assert(connects(a, walk, from, t));
        }
    }
    assert forall|i: int| 0 <= i < targets.len() implies shortest_connection(
        b,
        #[trigger] walks[i],
        from,
        targets[i],
        plus,
    ) && routes[i] == places(b, walks[i].points) by {
        assert(shortest_connection(a, walks[i], from, targets[i], plus));
        assert(places(a, walks[i].points) =~= places(b, walks[i].points));
        assert forall|other: Walk| #[trigger] connects(b, other, from, targets[i]) implies length_of(
            walks[i].weights,
            plus,
        ) <= length_of(other.weights, plus) by {
            assert(connects(a, other, from, targets[i]));
        }
    }
}

/// `targets` are the neighbours of a node, from near to far.
pub open spec fn lists_neighbors(
    repo: RepoView,
    from: Seq<char>,
    targets: Seq<Seq<char>>,
    plus: spec_fn(u64, u64) -> u64,
) -> bool {
    exists|routes: Seq<Seq<Coord>>, walks: Seq<Walk>| #[trigger]
        neighbors_by(repo, from, plus, targets, routes, walks)
}

/// What is kept as the neighbours of a node are its neighbours.
pub open spec fn kept_neighbors_right(repo: RepoView, plus: spec_fn(u64, u64) -> u64) -> bool {
    forall|node: Seq<char>|
        repo.neighbor_cache.contains_key(#[trigger] neighbor_key(repo.graph_version, node))
            ==> lists_neighbors(
            repo,
            node,
            repo.neighbor_cache[neighbor_key(repo.graph_version, node)],
            plus,
        )
}

/// The neighbours of two nodes are kept apart.
proof fn lemma_neighbor_keys_differ(version: int, a: Seq<char>, b: Seq<char>)
    requires
        neighbor_key(version, a) == neighbor_key(version, b),
    ensures
        a == b,
{
    let head = signed_digits(version) + ":"@;
    assert(neighbor_key(version, a).skip(head.len() as int) =~= a);
    assert(neighbor_key(version, b).skip(head.len() as int) =~= b);
}

/// The neighbours that are handed out, kept or not, are exactly the other nodes that
/// a road reaches without passing a node, from near to far; and what is kept stays
/// right.
pub proof fn law_neighbors_are_adjacent(
    repo: RepoView,
    next: RepoView,
    from: Seq<char>,
    r: Result<Vec<String>, Refusal>,
    plus: spec_fn(u64, u64) -> u64,
    node: Seq<char>,
)
    requires
        kept_neighbors_right(repo, plus),
        neighbors_outcome(repo, next, from, r, plus),
    ensures
        kept_neighbors_right(next, plus),
        same_roads(repo, next),
        r is Ok ==> lists_neighbors(repo, from, texts(r->Ok_0@), plus) && (texts(
            r->Ok_0@,
        ).contains(node) <==> adjacent(repo, from, node)),
{
    let key = neighbor_key(repo.graph_version, from);
    if repo.nodes.contains_key(from) && !repo.neighbor_cache.contains_key(key) {
        let targets = texts(r->Ok_0@);
        let (routes, walks) = choose|routes: Seq<Seq<Coord>>, walks: Seq<Walk>| #[trigger]
            neighbors_worked_out(repo, next, from, targets, routes, walks, plus);
        assert(neighbors_by(repo, from, plus, targets, routes, walks));
        assert forall|other: Seq<char>|
            next.neighbor_cache.contains_key(
                #[trigger] neighbor_key(next.graph_version, other),
            ) implies lists_neighbors(
            next,
            other,
            next.neighbor_cache[neighbor_key(next.graph_version, other)],
            plus,
        ) by {
            if neighbor_key(next.graph_version, other) == key {
                lemma_neighbor_keys_differ(repo.graph_version, other, from);
                lemma_same_neighbors(repo, next, from, plus, targets, routes, walks);
            } else {
                let kept = repo.neighbor_cache[neighbor_key(repo.graph_version, other)];
                assert(lists_neighbors(repo, other, kept, plus));
                let (rs, ws) = choose|rs: Seq<Seq<Coord>>, ws: Seq<Walk>| #[trigger]
                    neighbors_by(repo, other, plus, kept, rs, ws);
                lemma_same_neighbors(repo, next, other, plus, kept, rs, ws);
            }
        }
    }
}

/// Where neighbours and roads stay, what is kept stays right.
pub proof fn lemma_neighbors_stay_right(
    repo: RepoView,
    next: RepoView,
    plus: spec_fn(u64, u64) -> u64,
)
    requires
        kept_neighbors_right(repo, plus),
        same_roads(repo, next),
        next.neighbor_cache == repo.neighbor_cache,
        next.graph_version == repo.graph_version,
    ensures
        kept_neighbors_right(next, plus),
{
    assert forall|other: Seq<char>|
        next.neighbor_cache.contains_key(
            #[trigger] neighbor_key(next.graph_version, other),
        ) implies lists_neighbors(
        next,
        other,
        next.neighbor_cache[neighbor_key(next.graph_version, other)],
        plus,
    ) by {
        let kept = repo.neighbor_cache[neighbor_key(repo.graph_version, other)];
        assert(lists_neighbors(repo, other, kept, plus));
        let (rs, ws) = choose|rs: Seq<Seq<Coord>>, ws: Seq<Walk>| #[trigger]
            neighbors_by(repo, other, plus, kept, rs, ws);
        lemma_same_neighbors(repo, next, other, plus, kept, rs, ws);
    }
}

/// `path` runs along roads from one node to another.
pub open spec fn follows_roads(
    repo: RepoView,
    from: Seq<char>,
    to: Seq<char>,
    path: Seq<Coord>,
) -> bool {
    exists|walk: Walk| #[trigger]
        leads(repo, walk, from, to) && path == places(repo, walk.points)
}

/// An id without colons. The roads of other ids could be mistaken for each other.
pub open spec fn plain(id: Seq<char>) -> bool {
    !id.contains(':')
}

/// What is kept as the way between two nodes runs along roads between them.
pub open spec fn kept_routes_right(repo: RepoView) -> bool {
    forall|from: Seq<char>, to: Seq<char>|
        plain(from) && plain(to) && repo.route_cache.contains_key(
            #[trigger] route_key(repo.graph_version, from, to),
        ) ==> follows_roads(
            repo,
            from,
            to,
            repo.route_cache[route_key(repo.graph_version, from, to)],
        )
}

/// The ways between plain ids are kept apart from all others.
proof fn lemma_plain_keys(
    version: int,
    from: Seq<char>,
    to: Seq<char>,
    f: Seq<char>,
    t: Seq<char>,
)
    requires
        plain(from),
        plain(to),
        route_key(version, from, to) == route_key(version, f, t),
    ensures
        from == f,
        to == t,
{
    reveal_strlit(":");
    let head = signed_digits(version) + ":"@;
    let key = route_key(version, from, to);
    let tail = from + ":"@ + to;
    let other = f + ":"@ + t;
    assert(key =~= head + tail);
    assert(route_key(version, f, t) =~= head + other);
    assert(tail =~= key.skip(head.len() as int));
    assert(other =~= key.skip(head.len() as int));
    assert(other[f.len() as int] == ':');
    assert(tail[f.len() as int] == ':');
    assert(f.len() == from.len()) by {
        if f.len() < from.len() {
            assert(from[f.len() as int] == ':');
            assert(from.contains(':'));
        }
        if f.len() > from.len() {
            assert(to[f.len() - from.len() - 1] == ':');
            assert(to.contains(':'));
        }
    }
    assert(from =~= tail.take(from.len() as int));
    assert(f =~= other.take(f.len() as int));
    assert(to =~= tail.skip(from.len() as int + 1));
    assert(t =~= other.skip(f.len() as int + 1));
}

/// One more way that runs along roads leaves those that are kept right.
proof fn lemma_route_kept(
    repo: RepoView,
    next: RepoView,
    from: Seq<char>,
    to: Seq<char>,
    path: Seq<Coord>,
)
    requires
        kept_routes_right(repo),
        same_roads(repo, next),
        next.graph_version == repo.graph_version,
        follows_roads(repo, from, to, path),
        next.route_cache == repo.route_cache.insert(
            route_key(repo.graph_version, from, to),
            path,
        ),
    ensures
        kept_routes_right(next),
{
    let version = repo.graph_version;
    assert forall|f: Seq<char>, t: Seq<char>|
        plain(f) && plain(t) && next.route_cache.contains_key(
            #[trigger] route_key(version, f, t),
        ) implies follows_roads(next, f, t, next.route_cache[route_key(version, f, t)]) by {
        let kept = next.route_cache[route_key(version, f, t)];
        if route_key(version, f, t) == route_key(version, from, to) {
            lemma_plain_keys(version, f, t, from, to);
        } else {
            assert(repo.route_cache.contains_key(route_key(version, f, t)));
        }
        assert(follows_roads(repo, f, t, kept));
        let walk = choose|walk: Walk| #[trigger]
            leads(repo, walk, f, t) && kept == places(repo, walk.points);
        lemma_same_walks(repo, next);
        assert(leads(next, walk, f, t));
        assert(places(repo, walk.points) =~= places(next, walk.points));
    }
}

/// The ways to neighbours that are kept with them run along roads.
pub proof fn law_neighbor_routes_follow_roads(
    repo: RepoView,
    next: RepoView,
    from: Seq<char>,
    r: Result<Vec<String>, Refusal>,
    plus: spec_fn(u64, u64) -> u64,
)
    requires
        kept_routes_right(repo),
        neighbors_outcome(repo, next, from, r, plus),
    ensures
        kept_routes_right(next),
{
    let key = neighbor_key(repo.graph_version, from);
    if repo.nodes.contains_key(from) && !repo.neighbor_cache.contains_key(key) {
        let targets = texts(r->Ok_0@);
        let (routes, walks) = choose|routes: Seq<Seq<Coord>>, walks: Seq<Walk>| #[trigger]
            neighbors_worked_out(repo, next, from, targets, routes, walks, plus);
        assert forall|i: int| 0 <= i < targets.len() implies follows_roads(
            repo,
            from,
            #[trigger] targets[i],
            routes[i],
        ) by {
            assert(shortest_connection(repo, walks[i], from, targets[i], plus));
            assert(leads(repo, walks[i], from, targets[i]));
        }
        lemma_routes_kept_right(repo, next, from, targets, routes);
    }
}

proof fn lemma_routes_kept_right(
    repo: RepoView,
    next: RepoView,
    from: Seq<char>,
    targets: Seq<Seq<char>>,
    routes: Seq<Seq<Coord>>,
)
    requires
        kept_routes_right(repo),
        same_roads(repo, next),
        next.graph_version == repo.graph_version,
        targets.len() == routes.len(),
        forall|i: int|
            0 <= i < targets.len() ==> follows_roads(
                repo,
                from,
                #[trigger] targets[i],
                routes[i],
            ),
        next.route_cache == routes_kept(
            repo.route_cache,
            repo.graph_version,
            from,
            targets,
            routes,
        ),
    ensures
        kept_routes_right(next),
    decreases targets.len(),
{
    if targets.len() == 0 {
        assert forall|f: Seq<char>, t: Seq<char>|
            plain(f) && plain(t) && next.route_cache.contains_key(
                #[trigger] route_key(next.graph_version, f, t),
            ) implies follows_roads(
            next,
            f,
            t,
            next.route_cache[route_key(next.graph_version, f, t)],
        ) by {
            let kept = repo.route_cache[route_key(repo.graph_version, f, t)];
            assert(follows_roads(repo, f, t, kept));
            let walk = choose|walk: Walk| #[trigger]
                leads(repo, walk, f, t) && kept == places(repo, walk.points);
            lemma_same_walks(repo, next);
            assert(leads(next, walk, f, t));
            assert(places(repo, walk.points) =~= places(next, walk.points));
        }
    } else {
        let mid = RepoView {
            route_cache: routes_kept(
                repo.route_cache,
                repo.graph_version,
                from,
                targets.drop_last(),
                routes.drop_last(),
            ),
            ..next
        };
        assert forall|i: int| 0 <= i < targets.drop_last().len() implies follows_roads(
            repo,
            from,
            #[trigger] targets.drop_last()[i],
            routes.drop_last()[i],
        ) by {
            assert(follows_roads(repo, from, targets[i], routes[i]));
        }
        lemma_routes_kept_right(repo, mid, from, targets.drop_last(), routes.drop_last());
        let last = targets.len() - 1;
        assert(follows_roads(repo, from, targets[last], routes[last]));
        let walk = choose|walk: Walk| #[trigger]
            leads(repo, walk, from, targets[last]) && routes[last] == places(repo, walk.points);
        lemma_same_walks(repo, mid);
        assert(leads(mid, walk, from, targets[last]));
        assert(places(repo, walk.points) =~= places(mid, walk.points));
        lemma_route_kept(mid, next, from, targets[last], routes[last]);
    }
}

/// The way that is handed out between two plain ids, kept or not, runs along roads
/// from one to the other; and what is kept stays right.
pub proof fn law_routes_follow_roads(
    repo: RepoView,
    next: RepoView,
    from: Seq<char>,
    to: Seq<char>,
    r: Result<Vec<Coord>, Failure>,
    plus: spec_fn(u64, u64) -> u64,
    distance: spec_fn(Coord, Coord) -> u64,
)
    requires
        kept_routes_right(repo),
        plain(from),
        plain(to),
        route_outcome(repo, next, from, to, r, plus, distance),
    ensures
        kept_routes_right(next),
        same_roads(repo, next),
        r is Ok ==> follows_roads(repo, from, to, r->Ok_0@),
{
    let key = route_key(repo.graph_version, from, to);
    if repo.route_cache.contains_key(key) {
    } else if r is Ok {
        let walk = choose|walk: Walk| #[trigger]
            road_path(repo, from, to, plus, distance, r->Ok_0@, walk);
        assert(leads(repo, walk, from, to));
        assert(follows_roads(repo, from, to, r->Ok_0@));
        lemma_route_kept(repo, next, from, to, r->Ok_0@);
    }
}

/// Of a road map for which nothing is kept yet, nothing that is kept is wrong.
pub proof fn law_nothing_kept_is_right(repo: RepoView, plus: spec_fn(u64, u64) -> u64)
    requires
        repo.neighbor_cache == Map::<Seq<char>, Seq<Seq<char>>>::empty(),
        repo.route_cache == Map::<Seq<char>, Seq<Coord>>::empty(),
    ensures
        kept_neighbors_right(repo, plus),
        kept_routes_right(repo),
{
}

/// Where each road is as long as the distance between its ends, no detour is shorter than
/// the direct distance, and lengths are added exactly and fit, a way that is worked out is
/// a shortest one.
pub proof fn law_found_way_is_shortest(
    repo: RepoView,
    next: RepoView,
    from: Seq<char>,
    to: Seq<char>,
    r: Result<Vec<Coord>, Failure>,
    plus: spec_fn(u64, u64) -> u64,
    distance: spec_fn(Coord, Coord) -> u64,
)
    requires
        route_outcome(repo, next, from, to, r, plus, distance),
        r is Ok,
        !repo.route_cache.contains_key(route_key(repo.graph_version, from, to)),
        mapped(repo),
        adds_exactly(plus),
        forall|a: Seq<char>, b: Seq<char>, w: u64| #[trigger]
            has_road(repo, a, b, w) && repo.coords.contains_key(a) ==> w == distance(
                repo.coords[a],
                repo.coords[b],
            ),
        forall|a: Coord, b: Coord, c: Coord| #[trigger]
            distance(a, c) <= #[trigger] distance(a, b) + distance(b, c),
        forall|x: Seq<char>, g: u64| #[trigger]
            has_length(repo, from, x, g, plus) ==> g + crow(repo, to, distance)(x) <= u64::MAX,
    ensures
        exists|walk: Walk| #[trigger]
            shortest_walk(repo, walk, from, to, plus) && r->Ok_0@ == places(repo, walk.points),
{
    let ahead = crow(repo, to, distance);
    assert forall|x: Seq<char>, y: Seq<char>, w: u64| #[trigger]
        has_road(repo, x, y, w) implies ahead(x) <= w + ahead(y) by {
        if repo.coords.contains_key(x) {
            assert(distance(repo.coords[x], repo.coords[to]) <= distance(
                repo.coords[x],
                repo.coords[y],
            ) + distance(repo.coords[y], repo.coords[to]));
        }
    }
    law_exact_sums_guide_surely(repo, plus, ahead, from);
    let walk = choose|walk: Walk| #[trigger]
        road_path(repo, from, to, plus, distance, r->Ok_0@, walk);
    assert(shortest_walk(repo, walk, from, to, plus));
}

/// A node is next to every other node to which a road leads from it, and to those behind points
/// that are no nodes. What is next to it is another node, at the end of a road that comes
/// from it or from such a point.
pub proof fn law_what_is_next_to_a_node(
    repo: RepoView,
    from: Seq<char>,
    mid: Seq<char>,
    to: Seq<char>,
    w: u64,
    v: u64,
)
    ensures
        to != from && repo.nodes.contains_key(to) && has_road(repo, from, to, w) ==> adjacent(
            repo,
            from,
            to,
        ),
        to != from && repo.nodes.contains_key(to) && !repo.nodes.contains_key(mid) && has_road(
            repo,
            from,
            mid,
            w,
        ) && has_road(repo, mid, to, v) ==> adjacent(repo, from, to),
        !adjacent(repo, from, from),
        adjacent(repo, from, to) ==> repo.nodes.contains_key(to) && exists|p: Seq<char>, u: u64|
            (p == from || !repo.nodes.contains_key(p)) && #[trigger] has_road(repo, p, to, u),
{
    if to != from && repo.nodes.contains_key(to) && has_road(repo, from, to, w) {
        let walk = Walk { points: seq![from, to], weights: seq![w] };
        assert(has_road(repo, walk.points[0], walk.points[1], walk.weights[0]));
        assert(connects(repo, walk, from, to));
    }
    if to != from && repo.nodes.contains_key(to) && !repo.nodes.contains_key(mid) && has_road(
        repo,
        from,
        mid,
        w,
    ) && has_road(repo, mid, to, v) {
        let walk = Walk { points: seq![from, mid, to], weights: seq![w, v] };
        assert(has_road(repo, walk.points[0], walk.points[1], walk.weights[0]));
        assert(has_road(repo, walk.points[1], walk.points[2], walk.weights[1]));
        assert(connects(repo, walk, from, to));
    }
    if adjacent(repo, from, to) {
        let walk = choose|walk: Walk| #[trigger] connects(repo, walk, from, to);
        let n = walk.weights.len() as int;
        assert(n > 0);
        assert(has_road(repo, walk.points[n - 1], walk.points[n - 1 + 1], walk.weights[n - 1]));
        assert(walk.points[n] == to);
    }
}

/// Where nothing is kept, a way is found exactly if both ends have a place and roads lead from
/// one to the other. It begins and ends at these places. Nothing but the way is kept.
pub proof fn law_when_there_is_a_way(
    repo: RepoView,
    next: RepoView,
    from: Seq<char>,
    to: Seq<char>,
    r: Result<Vec<Coord>, Failure>,
    plus: spec_fn(u64, u64) -> u64,
    distance: spec_fn(Coord, Coord) -> u64,
)
    requires
        route_outcome(repo, next, from, to, r, plus, distance),
        !repo.route_cache.contains_key(route_key(repo.graph_version, from, to)),
    ensures
        ({
            let placed = repo.coords.contains_key(from) && repo.coords.contains_key(to);
            &&& r is Ok <==> placed && reachable(repo, from, to)
            &&& !placed ==> r is Err && r->Err_0@ == FailureView::Refused(
                Refusal::NoRoadCoordinates,
            )
            &&& placed && !reachable(repo, from, to) ==> r is Err && r->Err_0@ == (
            FailureView::NoRoad { from, to })
            &&& r is Err ==> next == repo
            &&& r is Ok ==> r->Ok_0@.len() > 0 && r->Ok_0@[0] == repo.coords[from]
                && r->Ok_0@.last() == repo.coords[to]
            &&& r is Ok ==> next == (RepoView { route_cache: next.route_cache, ..repo })
            &&& r is Ok ==> next.route_cache == repo.route_cache.insert(
                route_key(repo.graph_version, from, to),
                r->Ok_0@,
            )
        }),
{
    if r is Ok {
        let walk = choose|walk: Walk| #[trigger]
            road_path(repo, from, to, plus, distance, r->Ok_0@, walk);
        assert(leads(repo, walk, from, to));
    }
}

/// What is kept is handed out again as it is, and the road map stays: under its version and
/// the ids of its ends.
pub proof fn law_kept_ways_are_handed_out(
    repo: RepoView,
    next: RepoView,
    from: Seq<char>,
    to: Seq<char>,
    r: Result<Vec<Coord>, Failure>,
    plus: spec_fn(u64, u64) -> u64,
    distance: spec_fn(Coord, Coord) -> u64,
    again: Result<Vec<Coord>, Failure>,
    after: RepoView,
)
    requires
        route_outcome(repo, next, from, to, r, plus, distance),
        route_outcome(next, after, from, to, again, plus, distance),
        r is Ok,
    ensures
        again is Ok,
        again->Ok_0@ == r->Ok_0@,
        after == next,
{
}

} // verus!
