//! What holds of connections before they are made.
use vstd::prelude::*;

use crate::connections::{
    asked_for, neighbors_request_outcome, neighbors_shown, preview_outcome, resolved, simplified,
    Connection,
};
use crate::economy::CachesView;
use crate::errors::{Failure, FailureView, Refusal};
use crate::features::{feature_views, node_view, nodes_seen, visible, NodeFeature};
use crate::geometry::Coord;
use crate::repo::RepoView;
use crate::requests::stands_for;
use crate::state::{texts, StateView};
use crate::world::lemma_filter_source;

verus! {

/// A path of two points or fewer stays as it is. A longer one is thinned out, unless fewer than
/// two points would be left: then it stays too.
pub proof fn law_what_is_left_of_a_path(
    path: Seq<Coord>,
    thin: spec_fn(Seq<Coord>) -> Seq<Coord>,
)
    ensures
        path.len() <= 2 ==> simplified(path, thin) == path,
        path.len() > 2 && thin(path).len() >= 2 ==> simplified(path, thin) == thin(path),
        path.len() > 2 && thin(path).len() < 2 ==> simplified(path, thin) == path,
        path.len() >= 2 <==> simplified(path, thin).len() >= 2,
{
}

/// Two nodes can be connected only if they are two, both are in the world and the first belongs
/// to the player. The connection is a transfer exactly if the second does too, and its
/// path has two points or more.
pub proof fn law_what_can_be_connected(
    state: StateView,
    repo: RepoView,
    next: RepoView,
    player: Seq<char>,
    from: Seq<char>,
    to: Seq<char>,
    r: Result<Connection, Failure>,
    plus: spec_fn(u64, u64) -> u64,
    distance: spec_fn(Coord, Coord) -> u64,
    thin: spec_fn(Seq<Coord>) -> Seq<Coord>,
)
    requires
        resolved(state, repo, next, player, from, to, r, plus, distance, thin),
    ensures
        ({
            let missing = !state.nodes.contains_key(from) || !state.nodes.contains_key(to);
            let foreign = state.nodes[from].owner != Some(player);
            &&& from == to ==> r is Err && r->Err_0@ == FailureView::Refused(Refusal::SameNode)
            &&& from != to && missing ==> r is Err && r->Err_0@ == FailureView::Refused(
                Refusal::InvalidNodes,
            )
            &&& from != to && !missing && foreign ==> r is Err && r->Err_0@ == FailureView::Refused(
                Refusal::SourceNotOwned,
            )
            &&& from == to || missing || foreign ==> next == repo
            &&& r is Ok ==> from != to && !missing && !foreign
            &&& r is Ok ==> (r->Ok_0.transfer <==> state.nodes[to].owner == Some(player))
            &&& r is Ok ==> r->Ok_0.path@.len() >= 2
        }),
{
}

/// What connecting two nodes would give is told to the player whom the token stands for, and
/// is what connecting them gives. Without a good token nothing is told or changed.
pub proof fn law_who_is_told_of_connections(
    state: StateView,
    repo: RepoView,
    next: RepoView,
    token: Seq<char>,
    from: Seq<char>,
    to: Seq<char>,
    r: Result<Connection, Failure>,
    now: int,
    plus: spec_fn(u64, u64) -> u64,
    distance: spec_fn(Coord, Coord) -> u64,
    thin: spec_fn(Seq<Coord>) -> Seq<Coord>,
    player: Seq<char>,
)
    requires
        preview_outcome(state, repo, next, token, from, to, r, now, plus, distance, thin),
    ensures
        stands_for(state, token, now, player) ==> resolved(
            state,
            repo,
            next,
            player,
            from,
            to,
            r,
            plus,
            distance,
            thin,
        ),
        (forall|p: Seq<char>| !#[trigger] stands_for(state, token, now, p)) ==> r is Err && next
            == repo,
{
    if crate::accounts::session_refusal(state, token, now) is None {
        assert(stands_for(state, token, now, state.sessions[token].player_id));
    }
}

/// Neighbours are shown of nodes that the player owns, and where no more than twenty thousand
/// candidates are named. Otherwise nothing is worked out or kept.
pub proof fn law_whose_neighbors_are_shown(
    state: StateView,
    caches: CachesView,
    after: CachesView,
    repo: RepoView,
    next: RepoView,
    token: Seq<char>,
    from: Seq<char>,
    candidates: Seq<Seq<char>>,
    r: Result<Vec<NodeFeature>, Refusal>,
    now: int,
    plus: spec_fn(u64, u64) -> u64,
    distance: spec_fn(Coord, Coord) -> u64,
    player: Seq<char>,
)
    requires
        neighbors_request_outcome(
            state,
            caches,
            after,
            repo,
            next,
            token,
            from,
            candidates,
            r,
            now,
            plus,
            distance,
        ),
    ensures
        (forall|p: Seq<char>| !#[trigger] stands_for(state, token, now, p)) ==> r is Err && after
            == caches && next == repo,
        stands_for(state, token, now, player) && candidates.len() > 20_000 ==> r == Err::<
            Vec<NodeFeature>,
            Refusal,
        >(Refusal::TooManyCandidates),
        stands_for(state, token, now, player) && candidates.len() <= 20_000
            && !state.nodes.contains_key(from) ==> r == Err::<Vec<NodeFeature>, Refusal>(
            Refusal::InvalidNodes,
        ),
        stands_for(state, token, now, player) && candidates.len() <= 20_000
            && state.nodes.contains_key(from) && state.nodes[from].owner != Some(player) ==> r
            == Err::<Vec<NodeFeature>, Refusal>(Refusal::SourceNotOwned),
        stands_for(state, token, now, player) && (candidates.len() > 20_000
            || !state.nodes.contains_key(from) || state.nodes[from].owner != Some(player)) ==> after
            == caches && next == repo,
        r is Ok ==> candidates.len() <= 20_000 && state.nodes.contains_key(from)
            && state.nodes[from].owner == Some(state.sessions[token].player_id),
{
    if crate::accounts::session_refusal(state, token, now) is None {
        assert(stands_for(state, token, now, state.sessions[token].player_id));
    }
}

/// The neighbours that are shown are those that looking them up gave, in order: without the node
/// itself, only candidates where any are named, and only what is on the road map and in
/// the world. None of these is left out.
pub proof fn law_which_neighbors_are_shown(
    state: StateView,
    caches: CachesView,
    after: CachesView,
    next: RepoView,
    player: Seq<char>,
    from: Seq<char>,
    candidates: Seq<Seq<char>>,
    targets: Result<Vec<String>, Refusal>,
    r: Result<Vec<NodeFeature>, Refusal>,
    distance: spec_fn(Coord, Coord) -> u64,
    node: Seq<char>,
)
    requires
        neighbors_shown(
            state,
            caches,
            after,
            next,
            player,
            from,
            candidates,
            targets,
            r,
            distance,
        ),
        targets is Ok,
    ensures
        r is Ok,
        (exists|i: int| 0 <= i < r->Ok_0@.len() && (#[trigger] r->Ok_0@[i])@.id == node) <==> texts(
            targets->Ok_0@,
        ).contains(node) && node != from && (candidates.len() == 0 || candidates.contains(node))
            && next.nodes.contains_key(node) && state.nodes.contains_key(node),
        forall|i: int|
            0 <= i < r->Ok_0@.len() ==> (#[trigger] r->Ok_0@[i])@ == node_view(
                state,
                after,
                next,
                r->Ok_0@[i]@.id,
                Some(player),
            ),
{
    let all = texts(targets->Ok_0@);
    let wanted = asked_for(from, candidates);
    let ids = all.filter(wanted);
    let seen = |id: Seq<char>| visible(state, next, id);
    let shown = ids.filter(seen);
    let views = feature_views(r->Ok_0@);
    assert(views == nodes_seen(state, after, next, ids, Some(player)));
    assert(views.len() == r->Ok_0@.len());
    assert forall|i: int| 0 <= i < r->Ok_0@.len() implies (#[trigger] r->Ok_0@[i])@ == node_view(
        state,
        after,
        next,
        r->Ok_0@[i]@.id,
        Some(player),
    ) && r->Ok_0@[i]@.id == shown[i] by {
        assert(views[i] == r->Ok_0@[i]@);
    }
    if exists|i: int| 0 <= i < r->Ok_0@.len() && (#[trigger] r->Ok_0@[i])@.id == node {
        let i = choose|i: int| 0 <= i < r->Ok_0@.len() && (#[trigger] r->Ok_0@[i])@.id == node;
        assert(shown[i] == node);
        ids.lemma_filter_pred(seen, i);
        lemma_filter_source(ids, seen, i);
        let j = ids.index_of(node);
        all.lemma_filter_pred(wanted, j);
        lemma_filter_source(all, wanted, j);
    }
    if all.contains(node) && wanted(node) && seen(node) {
        let i = all.index_of(node);
        all.lemma_filter_contains(wanted, i);
        let j = ids.index_of(node);
        ids.lemma_filter_contains(seen, j);
        let k = shown.index_of(node);
        assert(r->Ok_0@[k]@.id == node);
    }
}

} // verus!
