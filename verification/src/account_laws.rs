//! What holds of players who register, log in and log out.
use vstd::prelude::*;

use crate::accounts::{
    are_nearest, is_neutral, law_newcomer_takes_neutral_nodes, lemma_neutrals, logged_out,
    login_outcome, nearest_by, nearer, neutrals, normalized, random_start, register_outcome,
    session_refusal, start_refusal, wanted_start, well_chosen, EnrollmentView, Login,
};
use crate::colors::{asked_color, palette};
use crate::economy::{list_of, tally_of, CachesView};
use crate::errors::{Failure, FailureView, Refusal};
use crate::geometry::Coord;
use crate::passwords::{accepts, is_argon2, utf8};
use crate::repo::RepoView;
use crate::sorting::{lemma_all_there, precedes};
use crate::state::{texts, walks, NodeView, PlayerView, SessionView, StateView};
use crate::text::{lowered, trimmed};
use crate::world::{lemma_filter_unique, synced};

verus! {

/// A session is good exactly if it is there, its player is, and it expires later.
pub proof fn law_when_a_session_is_good(state: StateView, token: Seq<char>, now: int)
    ensures
        session_refusal(state, token, now) is None <==> state.sessions.contains_key(token)
            && state.players.contains_key(state.sessions[token].player_id)
            && state.sessions[token].expires_at > now,
        session_refusal(state, token, now) == Some(Refusal::SessionExpired)
            <==> state.sessions.contains_key(token) && state.players.contains_key(
            state.sessions[token].player_id,
        ) && state.sessions[token].expires_at <= now,
        session_refusal(state, token, now) is Some ==> session_refusal(state, token, now) == Some(
            Refusal::SessionExpired,
        ) || session_refusal(state, token, now) == Some(Refusal::InvalidSession),
{
}

/// Who may start where: at a node of the road map that is in the world and that nobody owns.
pub proof fn law_where_a_player_may_start(state: StateView, repo: RepoView, node: Seq<char>)
    ensures
        start_refusal(state, repo, node) is None <==> repo.nodes.contains_key(node)
            && state.nodes.contains_key(node) && state.nodes[node].owner is None,
        !repo.nodes.contains_key(node) ==> start_refusal(state, repo, node) == Some(
            Refusal::NoStartNode,
        ),
        repo.nodes.contains_key(node) && !state.nodes.contains_key(node) ==> start_refusal(
            state,
            repo,
            node,
        ) == Some(Refusal::StartNodeNotInWorld),
        repo.nodes.contains_key(node) && state.nodes.contains_key(node)
            && state.nodes[node].owner is Some ==> start_refusal(state, repo, node) == Some(
            Refusal::StartNodeOwned,
        ),
{
}

/// The nodes that a player may be given are those of the road map that are in the world and
/// that nobody owns, each once.
pub proof fn law_which_nodes_are_free(state: StateView, repo: RepoView, node: Seq<char>)
    requires
        walks(repo.node_keys, repo.nodes),
    ensures
        neutrals(state, repo).contains(node) <==> repo.nodes.contains_key(node)
            && state.nodes.contains_key(node) && state.nodes[node].owner is None,
        neutrals(state, repo).no_duplicates(),
{
    let pred = |id: Seq<char>| is_neutral(state, id);
    let keys = repo.node_keys;
    lemma_neutrals(state, repo);
    lemma_filter_unique(keys, pred);
    if neutrals(state, repo).contains(node) {
        let i = neutrals(state, repo).index_of(node);
        assert(is_neutral(state, neutrals(state, repo)[i]));
    }
    if repo.nodes.contains_key(node) && is_neutral(state, node) {
        let i = keys.index_of(node);
        assert(pred(keys[i]));
        keys.lemma_filter_contains(pred, i);
    }
}

/// The nodes that are chosen are ten, or all if there are fewer, each once and each on the
/// list. Where all distances are numbers they go from near to far.
pub proof fn law_ten_nodes_are_chosen(
    list: Seq<Seq<char>>,
    repo: RepoView,
    from: Coord,
    distance: spec_fn(Coord, Coord) -> u64,
    chosen: Seq<Seq<char>>,
)
    requires
        are_nearest(list, repo, from, distance, chosen),
        list.no_duplicates(),
        list.len() <= usize::MAX,
    ensures
        list.len() >= 10 ==> chosen.len() == 10,
        list.len() < 10 ==> chosen.len() == list.len(),
        chosen.no_duplicates(),
        forall|i: int| 0 <= i < chosen.len() ==> list.contains(#[trigger] chosen[i]),
        (forall|i: int|
            0 <= i < list.len() ==> distance(from, repo.nodes[#[trigger] list[i]].coord)
                <= 0x7ff0_0000_0000_0000) ==> forall|i: int, j: int|
            #![trigger chosen[i], chosen[j]]
            0 <= i <= j < chosen.len() ==> distance(from, repo.nodes[chosen[i]].coord) <= distance(
                from,
                repo.nodes[chosen[j]].coord,
            ),
{
    let order = choose|order: Seq<usize>| #[trigger]
        nearest_by(list, repo, from, distance, chosen, order);
    let le = nearer(list, repo, from, distance);
    lemma_all_there(order, list.len() as int);
    assert forall|i: int, j: int|
        0 <= i < chosen.len() && 0 <= j < chosen.len() && i != j implies chosen[i] != chosen[j] by {
        assert(order[i] != order[j]);
        assert(chosen[i] == list[order[i] as int] && chosen[j] == list[order[j] as int]);
    }
    assert forall|i: int| 0 <= i < chosen.len() implies list.contains(#[trigger] chosen[i]) by {
        assert(chosen[i] == list[order[i] as int]);
    }
    if forall|i: int|
        0 <= i < list.len() ==> distance(from, repo.nodes[#[trigger] list[i]].coord)
            <= 0x7ff0_0000_0000_0000 {
        assert(crate::accounts::all_measured(list, repo, from, distance));
        assert forall|i: int, j: int|
            #![trigger chosen[i], chosen[j]]
            0 <= i <= j < chosen.len() implies distance(from, repo.nodes[chosen[i]].coord)
            <= distance(from, repo.nodes[chosen[j]].coord) by {
            assert(chosen[i] == list[order[i] as int] && chosen[j] == list[order[j] as int]);
            if i < j {
                assert(precedes(le, order[i], order[j]));
                assert(le(order[i], order[j]));
            }
        }
    }
}

/// Start nodes can be had at random exactly if ten are free; they are then chosen around a
/// free one.
pub proof fn law_ten_free_nodes_are_needed(
    state: StateView,
    repo: RepoView,
    seed: u64,
    distance: spec_fn(Coord, Coord) -> u64,
    r: Result<Vec<String>, Refusal>,
)
    requires
        random_start(state, repo, seed, distance, r),
    ensures
        neutrals(state, repo).len() >= 10 <==> r is Ok,
        r is Err ==> r->Err_0 == Refusal::NotEnoughNodes,
        r is Ok ==> exists|i: int|
            0 <= i < neutrals(state, repo).len() && are_nearest(
                neutrals(state, repo),
                repo,
                repo.nodes[#[trigger] neutrals(state, repo)[i]].coord,
                distance,
                texts(r->Ok_0@),
            ),
{
    let free = neutrals(state, repo);
    if free.len() >= 10 {
        let i = seed as int % free.len() as int;
        assert(0 <= i < free.len());
        assert(are_nearest(free, repo, repo.nodes[free[i]].coord, distance, texts(r->Ok_0@)));
    }
}

/// Who is not registered: whose name, without white space around it and in lower case, has
/// fewer than three bytes or is taken, whose password has fewer than four, or who can
/// get no start nodes. Nothing comes of it but that the world may follow the road map.
pub proof fn law_who_may_register(
    state: StateView,
    caches: CachesView,
    next: StateView,
    next_caches: CachesView,
    r: Result<Login, Failure>,
    repo: RepoView,
    username: Seq<char>,
    password: Seq<char>,
    color: Option<&str>,
    start_node_id: Option<&str>,
    now: int,
    distance: spec_fn(Coord, Coord) -> u64,
)
    requires
        register_outcome(
            state,
            caches,
            next,
            next_caches,
            r,
            repo,
            username,
            password,
            color,
            start_node_id,
            now,
            distance,
        ),
    ensures
        ({
            let name = lowered(trimmed(username));
            let found = synced(state, caches, repo, now);
            let short = utf8(name).len() < 3;
            let weak = utf8(password).len() < 4;
            let taken = state.usernames.contains_key(name);
            let wanted = start_node_id is Some && trimmed(start_node_id->0@).len() > 0;
            let node = trimmed(start_node_id->0@);
            let crowded = !wanted && neutrals(found, repo).len() < 10;
            let barred = wanted && start_refusal(found, repo, node) is Some;
            &&& short ==> r is Err && r->Err_0@ == FailureView::Refused(Refusal::UsernameTooShort)
            &&& !short && weak ==> r is Err && r->Err_0@ == FailureView::Refused(
                Refusal::PasswordTooShort,
            )
            &&& !short && !weak && taken ==> r is Err && r->Err_0@ == FailureView::Refused(
                Refusal::UsernameTaken,
            )
            &&& short || weak || taken ==> next == state && next_caches == caches
            &&& !short && !weak && !taken && crowded ==> r is Err && r->Err_0@
                == FailureView::Refused(Refusal::NotEnoughNodes) && next == found
            &&& !short && !weak && !taken && barred ==> r is Err && r->Err_0@
                == FailureView::Refused(start_refusal(found, repo, node)->0) && next == found
            &&& !short && !weak && !taken && !crowded && !barred ==> (r is Ok <==> utf8(
                password,
            ).len() <= 0xffff_ffff)
            &&& r is Ok ==> !short && !weak && !taken && !crowded && !barred
        }),
{
}

/// Whoever registers owns the start nodes, with ten army on each and no building, is known by
/// the name, has no gold yet, an income from the nodes, the color that was asked for,
/// a password hash that accepts the password, and a session for a week.
pub proof fn law_what_a_new_player_has(
    state: StateView,
    caches: CachesView,
    next: StateView,
    next_caches: CachesView,
    r: Result<Login, Failure>,
    repo: RepoView,
    username: Seq<char>,
    password: Seq<char>,
    color: Option<&str>,
    start_node_id: Option<&str>,
    now: int,
    distance: spec_fn(Coord, Coord) -> u64,
)
    requires
        register_outcome(
            state,
            caches,
            next,
            next_caches,
            r,
            repo,
            username,
            password,
            color,
            start_node_id,
            now,
            distance,
        ),
        r is Ok,
    ensures
        ({
            let found = synced(state, caches, repo, now);
            let name = lowered(trimmed(username));
            let id = r->Ok_0.player_id@;
            let token = r->Ok_0.token@;
            let who = next.players[id];
            let list = list_of(next_caches, id);
            &&& next.players.contains_key(id)
            &&& next.usernames == found.usernames.insert(name, id)
            &&& who.id == id && who.username == name
            &&& who.created_at == now && who.gold_updated_at == now && who.gold == 0
            &&& accepts(password, who.password_hash) && is_argon2(who.password_hash)
            &&& asked_color(color) is Some ==> who.color == asked_color(color)->0
            &&& asked_color(color) is None ==> palette().contains(who.color)
            &&& who.income == list.len() + tally_of(
                list,
                next_caches,
                next,
                repo,
                id,
                distance,
            ).income
            &&& next.sessions.contains_key(token) && next.sessions[token] == (SessionView {
                token,
                player_id: id,
                created_at: now,
                expires_at: now + 604_800_000,
            })
            &&& forall|t: Seq<char>|
                t != token ==> (#[trigger] next.sessions.contains_key(t)
                    <==> found.sessions.contains_key(t) && found.sessions[t].expires_at > now)
            &&& forall|t: Seq<char>|
                t != token && #[trigger] next.sessions.contains_key(t) ==> next.sessions[t]
                    == found.sessions[t]
            &&& well_chosen(
                found,
                repo,
                if start_node_id is Some && trimmed(start_node_id->0@).len() > 0 {
                    Some(trimmed(start_node_id->0@))
                } else {
                    None
                },
                distance,
                who.start_node_ids,
            )
        }),
{
    let found = synced(state, caches, repo, now);
    let id = r->Ok_0.player_id@;
    let who = EnrollmentView {
        player_id: id,
        token: r->Ok_0.token@,
        username: normalized(username),
        password_hash: next.players[id].password_hash,
        color: next.players[id].color,
        start_nodes: next.players[id].start_node_ids,
    };
    crate::economy::lemma_tally_ignores_players(
        list_of(next_caches, id),
        next_caches,
        crate::accounts::joined(found, who, now),
        next,
        repo,
        id,
        distance,
    );
}

/// Registering takes free nodes and nothing else from anybody.
pub proof fn law_what_registering_leaves_alone(
    state: StateView,
    caches: CachesView,
    next: StateView,
    next_caches: CachesView,
    r: Result<Login, Failure>,
    repo: RepoView,
    username: Seq<char>,
    password: Seq<char>,
    color: Option<&str>,
    start_node_id: Option<&str>,
    now: int,
    distance: spec_fn(Coord, Coord) -> u64,
    node: Seq<char>,
)
    requires
        register_outcome(
            state,
            caches,
            next,
            next_caches,
            r,
            repo,
            username,
            password,
            color,
            start_node_id,
            now,
            distance,
        ),
        r is Ok,
        walks(repo.node_keys, repo.nodes),
    ensures
        ({
            let found = synced(state, caches, repo, now);
            let id = r->Ok_0.player_id@;
            let start = next.players[id].start_node_ids;
            &&& next.nodes.dom() == found.nodes.dom()
            &&& found.nodes.contains_key(node) && start.contains(node) ==> next.nodes[node] == (
            NodeView { owner: Some(id), army: 10, building: None })
                && found.nodes[node].owner is None
            &&& found.nodes.contains_key(node) && !start.contains(node) ==> next.nodes[node]
                == found.nodes[node]
            &&& next.players.dom() == found.players.dom().insert(id)
            &&& forall|other: Seq<char>|
                other != id && #[trigger] found.players.contains_key(other) ==> next.players[other]
                    == found.players[other]
            &&& next == (StateView {
                players: next.players,
                player_keys: next.player_keys,
                usernames: next.usernames,
                sessions: next.sessions,
                nodes: next.nodes,
                saved_at: now,
                last_persisted_at: now,
                ..found
            })
            &&& !found.players.contains_key(id) ==> next.player_keys == found.player_keys.push(id)
        }),
{
    let found = synced(state, caches, repo, now);
    let id = r->Ok_0.player_id@;
    let who = EnrollmentView {
        player_id: id,
        token: r->Ok_0.token@,
        username: normalized(username),
        password_hash: next.players[id].password_hash,
        color: next.players[id].color,
        start_nodes: next.players[id].start_node_ids,
    };
    if found.nodes.contains_key(node) {
        law_newcomer_takes_neutral_nodes(
            found,
            crate::world::caches_synced(caches, repo),
            repo,
            who,
            wanted_start(start_node_id),
            now,
            distance,
            node,
        );
    }
    assert(next.nodes.dom() =~= found.nodes.dom());
    assert(next.players.dom() =~= found.players.dom().insert(id));
}

/// Name and password let in exactly whoever is known by the name, without white space around
/// it and in lower case, and has a password hash that accepts the password. Nobody else
/// changes anything.
pub proof fn law_who_may_log_in(
    state: StateView,
    next: StateView,
    r: Result<Login, Failure>,
    username: Seq<char>,
    password: Seq<char>,
    now: int,
)
    requires
        login_outcome(state, next, r, username, password, now),
    ensures
        ({
            let name = lowered(trimmed(username));
            let id = state.usernames[name];
            let hash = state.players[id].password_hash;
            let good = state.usernames.contains_key(name) && state.players.contains_key(id)
                && accepts(password, hash);
            &&& !good ==> r is Err && r->Err_0@ == FailureView::Refused(Refusal::BadLogin) && next
                == state
            &&& good && (is_argon2(hash) || utf8(password).len() <= 0xffff_ffff) ==> r is Ok
            &&& r is Ok ==> good && r->Ok_0.player_id@ == id
        }),
{
}

/// Logging in opens a session for a week and drops those that have expired. A password hash of
/// the former kind gives way to one that accepts the same password. Nothing else changes.
pub proof fn law_what_logging_in_does(
    state: StateView,
    next: StateView,
    r: Result<Login, Failure>,
    username: Seq<char>,
    password: Seq<char>,
    now: int,
)
    requires
        login_outcome(state, next, r, username, password, now),
        r is Ok,
    ensures
        ({
            let id = state.usernames[lowered(trimmed(username))];
            let token = r->Ok_0.token@;
            &&& next.sessions.contains_key(token) && next.sessions[token] == (SessionView {
                token,
                player_id: id,
                created_at: now,
                expires_at: now + 604_800_000,
            })
            &&& forall|t: Seq<char>|
                t != token ==> (#[trigger] next.sessions.contains_key(t)
                    <==> state.sessions.contains_key(t) && state.sessions[t].expires_at > now)
            &&& forall|t: Seq<char>|
                t != token && #[trigger] next.sessions.contains_key(t) ==> next.sessions[t]
                    == state.sessions[t]
            &&& next.players.dom() == state.players.dom()
            &&& forall|p: Seq<char>|
                p != id && #[trigger] state.players.contains_key(p) ==> next.players[p]
                    == state.players[p]
            &&& next.players[id] == (PlayerView {
                password_hash: next.players[id].password_hash,
                ..state.players[id]
            })
            &&& is_argon2(state.players[id].password_hash) ==> next.players[id]
                == state.players[id]
            &&& accepts(password, next.players[id].password_hash)
            &&& is_argon2(next.players[id].password_hash)
            &&& next == (StateView {
                players: next.players,
                sessions: next.sessions,
                saved_at: now,
                last_persisted_at: now,
                ..state
            })
        }),
{
    assert(next.players.dom() =~= state.players.dom());
}

/// Logging out takes the session away and changes nothing else.
pub proof fn law_what_logging_out_does(state: StateView, token: Seq<char>, now: int)
    ensures
        ({
            let next = logged_out(state, token, now);
            &&& !next.sessions.contains_key(token)
            &&& forall|t: Seq<char>|
                t != token ==> (#[trigger] next.sessions.contains_key(t)
                    <==> state.sessions.contains_key(t))
            &&& forall|t: Seq<char>| #[trigger]
                next.sessions.contains_key(t) ==> next.sessions[t] == state.sessions[t]
            &&& next == (StateView {
                sessions: next.sessions,
                saved_at: now,
                last_persisted_at: now,
                ..state
            })
        }),
{
}

} // verus!
