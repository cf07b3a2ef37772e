//! Players who register, log in and log out.
use vstd::arithmetic::power2::{lemma2_to64, lemma_pow2_adds, lemma_pow2_strictly_increases, pow2};
use vstd::prelude::*;

use crate::colors::{asked_color, normalize_player_color, palette};
use crate::economy::{
    caches_ensured, economy_recomputed, recompute_player_economy, Caches, CachesView, MAX_NODES,
};
use crate::errors::{Failure, FailureView, Refusal};
use crate::geometry::{measure, measures, metric, Coord, INFINITE_KM};
use crate::loading::key_added;
use crate::passwords::{
    accepts, hash_password_argon2, is_argon2, is_random_id, random_bytes, random_id, utf8,
    verify_password, MAX_PASSWORD,
};
use crate::repo::{NodeRepo, RepoView};
use crate::sorting::{precedes, sort_places, sorted_places};
use crate::state::{
    copy_texts, text_in, texts, GameState, NodeView, Player, PlayerView, Session, SessionView,
    StateView, WorldNode,
};
use crate::text::{lowercase, lowered, same_text, trim, trimmed};
use crate::ticks::{purge_expired_sessions, purged};
use crate::world::{caches_synced, saved, sync_world_nodes, synced};

verus! {

/// How long a session lasts: seven days.
pub const SESSION_MS: i64 = 604_800_000;

/// How many nodes a player starts with.
pub const START_NODES: usize = 10;

/// Why a session is not accepted, if so.
pub open spec fn session_refusal(state: StateView, token: Seq<char>, now: int) -> Option<Refusal> {
    if !state.sessions.contains_key(token) || !state.players.contains_key(
        state.sessions[token].player_id,
    ) {
        Some(Refusal::InvalidSession)
    } else if state.sessions[token].expires_at <= now {
        Some(Refusal::SessionExpired)
    } else {
        None
    }
}

/// The session with this token, if it is good.
pub fn require_session(state: &GameState, token: &str, now: i64) -> (r: Result<Session, Refusal>)
    ensures
        match session_refusal(state@, token@, now as int) {
            Some(refusal) => r == Err::<Session, Refusal>(refusal),
            None => r is Ok && r->Ok_0@ == state@.sessions[token@],
        },
{
    match state.sessions.get(token) {
        None => Err(Refusal::InvalidSession),
        Some(session) => {
            if !state.players.contains_key(session.player_id.as_str()) {
                return Err(Refusal::InvalidSession);
            }
            if session.expires_at <= now {
                return Err(Refusal::SessionExpired);
            }
            Ok(session.clone())
        },
    }
}

/// Whether whoever asks may: guests may.
pub open spec fn guest_refusal(state: StateView, token: Option<&str>, now: int) -> Option<Refusal> {
    match token {
        Some(t) => session_refusal(state, t@, now),
        None => None,
    }
}

/// Who asks: a player or a guest.
pub open spec fn asking(state: StateView, token: Option<&str>) -> Option<Seq<char>> {
    match token {
        Some(t) => Some(state.sessions[t@].player_id),
        None => None,
    }
}

/// The session of whoever asks; none for a guest.
pub fn optional_session(state: &GameState, token: Option<&str>, now: i64) -> (r: Result<
    Option<Session>,
    Refusal,
>)
    ensures
        match guest_refusal(state@, token, now as int) {
            Some(refusal) => r == Err::<Option<Session>, Refusal>(refusal),
            None => {
                &&& r is Ok
                &&& match (token, r->Ok_0) {
                    (Some(t), Some(session)) => session@ == state@.sessions[t@],
                    (None, None) => true,
                    _ => false,
                }
            },
        },
{
    match token {
        Some(t) => match require_session(state, t, now) {
            Ok(session) => Ok(Some(session)),
            Err(refusal) => Err(refusal),
        },
        None => Ok(None),
    }
}

/// A user name as it is kept.
pub open spec fn normalized(username: Seq<char>) -> Seq<char> {
    lowered(trimmed(username))
}

/// Brings a user name into the form in which it is kept.
pub fn normalize_username(username: &str) -> (r: String)
    ensures
        r@ == normalized(username@),
{
    let bare = trim(username);
    lowercase(bare.as_str())
}

/// Why nobody may register with this name and password, if so.
pub open spec fn credentials_refusal(
    state: StateView,
    name: Seq<char>,
    password: Seq<char>,
) -> Option<Refusal> {
    if utf8(name).len() < 3 {
        Some(Refusal::UsernameTooShort)
    } else if utf8(password).len() < 4 {
        Some(Refusal::PasswordTooShort)
    } else if state.usernames.contains_key(name) {
        Some(Refusal::UsernameTaken)
    } else {
        None
    }
}

/// Checks name and password of somebody who wants to register.
pub fn check_credentials(state: &GameState, name: &str, password: &str) -> (r: Option<Refusal>)
    ensures
        r == credentials_refusal(state@, name@, password@),
{
    if name.as_bytes().len() < 3 {
        return Some(Refusal::UsernameTooShort);
    }
    if password.as_bytes().len() < 4 {
        return Some(Refusal::PasswordTooShort);
    }
    if state.usernames.contains_key(name) {
        return Some(Refusal::UsernameTaken);
    }
    None
}

/// A node of the road map that nobody owns.
pub open spec fn is_neutral(state: StateView, id: Seq<char>) -> bool {
    state.nodes.contains_key(id) && state.nodes[id].owner is None
}

/// The nodes of the road map that nobody owns, in order.
pub open spec fn neutrals(state: StateView, repo: RepoView) -> Seq<Seq<char>> {
    repo.node_keys.filter(|id: Seq<char>| is_neutral(state, id))
}

fn list_neutrals(state: &GameState, repo: &NodeRepo) -> (r: Vec<String>)
    ensures
        texts(r@) == neutrals(state@, repo@),
        repo.nodes_by_id.coherent(),
{
    let ghost keys = repo.nodes_by_id.keys();
    let ghost pred = |id: Seq<char>| is_neutral(state@, id);
    let n: usize = repo.nodes_by_id.len();
    let mut out: Vec<String> = Vec::new();
    let mut i: usize = 0;
    proof {
        assert(texts(out@) =~= keys.take(0).filter(pred));
    }
    while i < n
        invariant
            keys == repo.nodes_by_id.keys(),
            repo.nodes_by_id.coherent(),
            n == keys.len(),
            pred == (|id: Seq<char>| is_neutral(state@, id)),
            i <= n,
            texts(out@) == keys.take(i as int).filter(pred),
        decreases n - i,
    {
        proof {
            reveal(Seq::filter);
            assert(keys.take(i + 1).drop_last() =~= keys.take(i as int));
            assert(keys.take(i + 1).last() == keys[i as int]);
        }
        let id = repo.nodes_by_id.key_at(i);
        if let Some(node) = state.nodes.get(id.as_str()) {
            if node.owner_id.is_none() {
                let ghost before = out@;
                out.push(id.clone());
                proof {
                    assert(texts(out@) =~= texts(before).push(id@));
                }
            }
        }
        i += 1;
    }
    proof {
        assert(keys.take(n as int) =~= keys);
    }
    out
}

/// The distances of all nodes of a list from a place are numbers.
pub open spec fn all_measured(
    list: Seq<Seq<char>>,
    repo: RepoView,
    from: Coord,
    distance: spec_fn(Coord, Coord) -> u64,
) -> bool {
    forall|i: int|
        0 <= i < list.len() ==> distance(from, repo.nodes[#[trigger] list[i]].coord) <= INFINITE_KM
}

/// How the nodes of a list rank by their distance from a place. What is no number has no
/// rank, and where one distance is none, all nodes rank alike.
pub open spec fn nearer(
    list: Seq<Seq<char>>,
    repo: RepoView,
    from: Coord,
    distance: spec_fn(Coord, Coord) -> u64,
) -> spec_fn(usize, usize) -> bool {
    |a: usize, b: usize|
        !all_measured(list, repo, from, distance) || distance(
            from,
            repo.nodes[list[a as int]].coord,
        ) <= distance(from, repo.nodes[list[b as int]].coord)
}

/// `chosen` are the ten nodes of a list that are nearest to a place, from near to
/// far, or all of them if there are fewer. `order` holds the places of all nodes in
/// the list, by distance.
pub open spec fn nearest_by(
    list: Seq<Seq<char>>,
    repo: RepoView,
    from: Coord,
    distance: spec_fn(Coord, Coord) -> u64,
    chosen: Seq<Seq<char>>,
    order: Seq<usize>,
) -> bool {
    &&& sorted_places(nearer(list, repo, from, distance), order, list.len() as int)
    &&& chosen.len() == (if list.len() < 10 {
        list.len() as int
    } else {
        10
    })
    &&& forall|i: int| 0 <= i < chosen.len() ==> #[trigger] chosen[i] == list[order[i] as int]
}

/// `chosen` are the nodes of a list nearest to a place.
pub open spec fn are_nearest(
    list: Seq<Seq<char>>,
    repo: RepoView,
    from: Coord,
    distance: spec_fn(Coord, Coord) -> u64,
    chosen: Seq<Seq<char>>,
) -> bool {
    exists|order: Seq<usize>| #[trigger] nearest_by(list, repo, from, distance, chosen, order)
}

/// Where all distances are numbers, no node that was not chosen is nearer than one that
/// was.
pub proof fn law_chosen_nodes_are_nearest(
    list: Seq<Seq<char>>,
    repo: RepoView,
    from: Coord,
    distance: spec_fn(Coord, Coord) -> u64,
    chosen: Seq<Seq<char>>,
    i: int,
    other: Seq<char>,
)
    requires
        are_nearest(list, repo, from, distance, chosen),
        all_measured(list, repo, from, distance),
        list.len() <= usize::MAX,
        0 <= i < chosen.len(),
        list.contains(other),
        !chosen.contains(other),
    ensures
        distance(from, repo.nodes[chosen[i]].coord) <= distance(from, repo.nodes[other].coord),
        list.contains(chosen[i]),
{
    let order = choose|order: Seq<usize>| #[trigger]
        nearest_by(list, repo, from, distance, chosen, order);
    let le = nearer(list, repo, from, distance);
    let at = list.index_of(other);
    crate::sorting::lemma_all_there(order, list.len() as int);
    assert(order.contains(at as usize));
    let j = order.index_of(at as usize);
    if j < chosen.len() {
        assert(chosen[j] == list[order[j] as int]);
        assert(chosen.contains(chosen[j]));
        assert(false);
    }
    assert(chosen[i] == list[order[i] as int]);
    assert(precedes(le, order[i], order[j]));
    assert(le(order[i], order[j]));
}

fn distances_from<F: Fn(Coord, Coord) -> u64>(
    list: &Vec<String>,
    repo: &NodeRepo,
    from: Coord,
    distance: &F,
) -> (r: Vec<u64>)
    requires
        measures(*distance),
        forall|i: int| 0 <= i < list.len() ==> repo@.nodes.contains_key(#[trigger] texts(list@)[i]),
    ensures
        r.len() == list.len(),
        forall|i: int|
            0 <= i < r.len() ==> (#[trigger] r@[i]) == metric(*distance)(
                from,
                repo@.nodes[texts(list@)[i]].coord,
            ),
{
    let mut out: Vec<u64> = Vec::new();
    let mut i: usize = 0;
    while i < list.len()
        invariant
            measures(*distance),
            forall|k: int|
                0 <= k < list.len() ==> repo@.nodes.contains_key(#[trigger] texts(list@)[k]),
            i <= list.len(),
            out.len() == i,
            forall|k: int|
                0 <= k < i ==> (#[trigger] out@[k]) == metric(*distance)(
                    from,
                    repo@.nodes[texts(list@)[k]].coord,
                ),
        decreases list.len() - i,
    {
        proof {
            assert(repo@.nodes.contains_key(texts(list@)[i as int]));
        }
        let d: u64 = match repo.nodes_by_id.get(list[i].as_str()) {
            Some(node) => measure(distance, from, node.coord),
            None => 0,
        };
        out.push(d);
        i += 1;
    }
    out
}

/// Whether all distances are numbers.
fn all_numbers(scores: &Vec<u64>) -> (r: bool)
    ensures
        r == (forall|i: int| 0 <= i < scores.len() ==> #[trigger] scores@[i] <= INFINITE_KM),
{
    let mut i: usize = 0;
    while i < scores.len()
        invariant
            i <= scores.len(),
            forall|k: int| 0 <= k < i ==> #[trigger] scores@[k] <= INFINITE_KM,
        decreases scores.len() - i,
    {
        if scores[i] > INFINITE_KM {
            return false;
        }
        i += 1;
    }
    true
}

/// The nodes of a list nearest to a place.
fn choose_nearest<F: Fn(Coord, Coord) -> u64>(
    list: &Vec<String>,
    repo: &NodeRepo,
    from: Coord,
    distance: &F,
) -> (r: Vec<String>)
    requires
        measures(*distance),
        forall|i: int| 0 <= i < list.len() ==> repo@.nodes.contains_key(#[trigger] texts(list@)[i]),
    ensures
        are_nearest(texts(list@), repo@, from, metric(*distance), texts(r@)),
{
    let ghost all = texts(list@);
    let ghost d = metric(*distance);
    let ghost le = nearer(all, repo@, from, d);
    let scores = distances_from(list, repo, from, distance);
    let n: usize = list.len();
    let measured: bool = all_numbers(&scores);
    proof {
        assert(measured == all_measured(all, repo@, from, d)) by {
            if measured {
                assert forall|i: int| 0 <= i < all.len() implies d(
                    from,
                    repo@.nodes[#[trigger] all[i]].coord,
                ) <= INFINITE_KM by {
                    assert(scores@[i] <= INFINITE_KM);
                }
            } else {
                let i = choose|i: int|
                    0 <= i < scores.len() && #[trigger] scores@[i] > INFINITE_KM;
                assert(d(from, repo@.nodes[all[i]].coord) > INFINITE_KM);
            }
        }
    }
    let first = |a: usize, b: usize| -> (r: bool)
        requires
            a < n && b < n && n == scores.len(),
        ensures
            r == (!measured || scores@[a as int] <= scores@[b as int]),
        { !measured || scores[a] <= scores[b] };
    let order = sort_places(n, &first, Ghost(le));
    let count: usize = if n < START_NODES {
        n
    } else {
        START_NODES
    };
    let mut out: Vec<String> = Vec::new();
    let mut i: usize = 0;
    while i < count
        invariant
            all == texts(list@),
            n == list.len(),
            sorted_places(le, order@, n as int),
            count <= n,
            i <= count,
            out.len() == i,
            forall|k: int| 0 <= k < i ==> (#[trigger] out@[k])@ == all[order@[k] as int],
        decreases count - i,
    {
        proof {
            assert(order@[i as int] < n);
        }
        out.push(list[order[i]].clone());
        i += 1;
    }
    proof {
        assert forall|k: int| 0 <= k < out.len() implies #[trigger] texts(out@)[k]
            == all[order@[k] as int] by {
            assert(out@[k]@ == all[order@[k] as int]);
        }
        assert(nearest_by(all, repo@, from, d, texts(out@), order@));
    }
    out
}

/// `neutrals` holds nodes of the road map that nobody owns.
pub proof fn lemma_neutrals(state: StateView, repo: RepoView)
    requires
        crate::state::walks(repo.node_keys, repo.nodes),
    ensures
        forall|i: int|
            0 <= i < neutrals(state, repo).len() ==> repo.nodes.contains_key(
                #[trigger] neutrals(state, repo)[i],
            ) && is_neutral(state, neutrals(state, repo)[i]),
{
    let pred = |id: Seq<char>| is_neutral(state, id);
    assert forall|i: int| 0 <= i < neutrals(state, repo).len() implies repo.nodes.contains_key(
        #[trigger] neutrals(state, repo)[i],
    ) && is_neutral(state, neutrals(state, repo)[i]) by {
        crate::world::lemma_filter_source(repo.node_keys, pred, i);
    }
}

/// What choosing start nodes at random gives, from a world in line with the road
/// map: the nodes nearest to some neutral node.
pub open spec fn random_start(
    state: StateView,
    repo: RepoView,
    seed: u64,
    distance: spec_fn(Coord, Coord) -> u64,
    r: Result<Vec<String>, Refusal>,
) -> bool {
    let free = neutrals(state, repo);
    if free.len() < START_NODES {
        r == Err::<Vec<String>, Refusal>(Refusal::NotEnoughNodes)
    } else {
        r is Ok && are_nearest(
            free,
            repo,
            repo.nodes[free[seed as int % free.len() as int]].coord,
            distance,
            texts(r->Ok_0@),
        )
    }
}

/// Chooses start nodes around a node that `seed` picks.
pub fn choose_start_nodes<F: Fn(Coord, Coord) -> u64>(
    state: &GameState,
    repo: &NodeRepo,
    seed: u64,
    distance: &F,
) -> (r: Result<Vec<String>, Refusal>)
    requires
        measures(*distance),
    ensures
        random_start(state@, repo@, seed, metric(*distance), r),
        r is Ok ==> all_nodes(state@, texts(r->Ok_0@)),
{
    let free = list_neutrals(state, repo);
    let n: usize = free.len();
    proof {
        lemma_neutrals(state@, repo@);
        assert(texts(free@).len() == free@.len());
    }
    if n < START_NODES {
        return Err(Refusal::NotEnoughNodes);
    }
    let at: usize = (seed % n as u64) as usize;
    proof {
        assert(repo@.nodes.contains_key(texts(free@)[at as int]));
    }
    match repo.nodes_by_id.get(free[at].as_str()) {
        Some(node) => {
            let chosen = choose_nearest(&free, repo, node.coord, distance);
            proof {
                lemma_chosen(
                    texts(free@),
                    state@,
                    repo@,
                    node.coord,
                    metric(*distance),
                    texts(chosen@),
                );
            }
            Ok(chosen)
        },
        None => Err(Refusal::NotEnoughNodes),
    }
}

/// All of these are nodes of the world.
pub open spec fn all_nodes(state: StateView, ids: Seq<Seq<char>>) -> bool {
    forall|i: int| 0 <= i < ids.len() ==> state.nodes.contains_key(#[trigger] ids[i])
}

proof fn lemma_chosen(
    list: Seq<Seq<char>>,
    state: StateView,
    repo: RepoView,
    from: Coord,
    distance: spec_fn(Coord, Coord) -> u64,
    chosen: Seq<Seq<char>>,
)
    requires
        are_nearest(list, repo, from, distance, chosen),
        forall|i: int| 0 <= i < list.len() ==> is_neutral(state, #[trigger] list[i]),
    ensures
        all_nodes(state, chosen),
{
    let order = choose|order: Seq<usize>| #[trigger]
        nearest_by(list, repo, from, distance, chosen, order);
    assert forall|i: int| 0 <= i < chosen.len() implies state.nodes.contains_key(
        #[trigger] chosen[i],
    ) by {
        assert(chosen[i] == list[order[i] as int]);
        assert(order[i] < list.len());
    }
}

/// Why a player may not start at a node, if so.
pub open spec fn start_refusal(state: StateView, repo: RepoView, node: Seq<char>) -> Option<
    Refusal,
> {
    if !repo.nodes.contains_key(node) {
        Some(Refusal::NoStartNode)
    } else if !state.nodes.contains_key(node) {
        Some(Refusal::StartNodeNotInWorld)
    } else if state.nodes[node].owner is Some {
        Some(Refusal::StartNodeOwned)
    } else {
        None
    }
}

/// Chooses start nodes around the one that the player picked.
pub fn choose_start_nodes_around<F: Fn(Coord, Coord) -> u64>(
    state: &GameState,
    repo: &NodeRepo,
    start_node_id: &str,
    distance: &F,
) -> (r: Result<Vec<String>, Refusal>)
    requires
        measures(*distance),
    ensures
        match start_refusal(state@, repo@, start_node_id@) {
            Some(refusal) => r == Err::<Vec<String>, Refusal>(refusal),
            None => r is Ok && are_nearest(
                neutrals(state@, repo@),
                repo@,
                repo@.nodes[start_node_id@].coord,
                metric(*distance),
                texts(r->Ok_0@),
            ),
        },
        r is Ok ==> all_nodes(state@, texts(r->Ok_0@)),
{
    let from: Coord = match repo.nodes_by_id.get(start_node_id) {
        Some(node) => node.coord,
        None => {
            return Err(Refusal::NoStartNode);
        },
    };
    match state.nodes.get(start_node_id) {
        Some(node) => {
            if node.owner_id.is_some() {
                return Err(Refusal::StartNodeOwned);
            }
        },
        None => {
            return Err(Refusal::StartNodeNotInWorld);
        },
    }
    let free = list_neutrals(state, repo);
    proof {
        lemma_neutrals(state@, repo@);
        assert(texts(free@).len() == free@.len());
    }
    let chosen = choose_nearest(&free, repo, from, distance);
    proof {
        lemma_chosen(texts(free@), state@, repo@, from, metric(*distance), texts(chosen@));
    }
    Ok(chosen)
}

/// What a new player comes with.
pub struct Enrollment {
    pub player_id: String,
    pub token: String,
    pub username: String,
    pub password_hash: String,
    pub color: String,
    pub start_nodes: Vec<String>,
}

#[verifier::ext_equal]
pub struct EnrollmentView {
    pub player_id: Seq<char>,
    pub token: Seq<char>,
    pub username: Seq<char>,
    pub password_hash: Seq<char>,
    pub color: Seq<char>,
    pub start_nodes: Seq<Seq<char>>,
}

impl View for Enrollment {
    type V = EnrollmentView;

    open spec fn view(&self) -> EnrollmentView {
        EnrollmentView {
            player_id: self.player_id@,
            token: self.token@,
            username: self.username@,
            password_hash: self.password_hash@,
            color: self.color@,
            start_nodes: texts(self.start_nodes@),
        }
    }
}

/// A node that a player starts with.
pub open spec fn start_node(player: Seq<char>) -> NodeView {
    NodeView { owner: Some(player), army: 10, building: None }
}

/// The world after a player took some of its nodes.
pub open spec fn claimed(state: StateView, ids: Seq<Seq<char>>, player: Seq<char>) -> StateView {
    StateView {
        nodes: Map::new(
            |k: Seq<char>| state.nodes.contains_key(k),
            |k: Seq<char>|
                if ids.contains(k) {
                    start_node(player)
                } else {
                    state.nodes[k]
                },
        ),
        ..state
    }
}

/// The indexes after nodes changed hands.
pub open spec fn owners_changed(caches: CachesView) -> CachesView {
    CachesView { player_nodes_dirty: true, ..caches }
}

fn claim_nodes(
    state: &mut GameState,
    caches: &mut Caches,
    ids: &Vec<String>,
    player_id: &str,
)
    requires
        all_nodes(old(state)@, texts(ids@)),
    ensures
        final(state)@ == claimed(old(state)@, texts(ids@), player_id@),
        final(caches)@ == owners_changed(old(caches)@),
{
    let ghost before = state@;
    let ghost all = texts(ids@);
    let mut i: usize = 0;
    proof {
        assert(state@ =~= claimed(before, all.take(0), player_id@));
    }
    while i < ids.len()
        invariant
            all == texts(ids@),
            all_nodes(before, all),
            i <= ids.len(),
            state@ == claimed(before, all.take(i as int), player_id@),
        decreases ids.len() - i,
    {
        proof {
            assert(before.nodes.contains_key(all[i as int]));
        }
        state.nodes.insert(
            ids[i].clone(),
            WorldNode { owner_id: Some(player_id.to_owned()), army: 10, building: None },
        );
        proof {
            assert(all.take(i + 1) =~= all.take(i as int).push(all[i as int]));
            assert forall|k: Seq<char>| #[trigger]
                all.take(i + 1).contains(k) == (k == all[i as int] || all.take(
                    i as int,
                ).contains(k)) by {
                let short = all.take(i as int);
                let long = short.push(all[i as int]);
                if short.contains(k) {
                    assert(long[short.index_of(k)] == k);
                }
                if k == all[i as int] {
                    assert(long[i as int] == k);
                }
                if long.contains(k) {
                    let j = long.index_of(k);
                    if j < i {
                        assert(short[j] == k);
                    }
                }
            }
            assert(state@ =~= claimed(before, all.take(i + 1), player_id@));
        }
        i += 1;
    }
    proof {
        assert(all.take(i as int) =~= all);
    }
    caches.player_nodes_dirty = true;
}

/// A new player, before any income.
pub open spec fn newcomer(who: EnrollmentView, now: int) -> PlayerView {
    PlayerView {
        id: who.player_id,
        username: who.username,
        password_hash: who.password_hash,
        created_at: now,
        start_node_ids: who.start_nodes,
        color: who.color,
        gold: 0,
        income: 0,
        gold_updated_at: now,
        damage_reduction: 0,
        happiness: 0,
    }
}

/// The state with a new player who has taken the start nodes.
pub open spec fn joined(state: StateView, who: EnrollmentView, now: int) -> StateView {
    let world = claimed(state, who.start_nodes, who.player_id);
    StateView {
        players: world.players.insert(who.player_id, newcomer(who, now)),
        player_keys: key_added(world.player_keys, world.players, who.player_id),
        ..world
    }
}

/// The state with one session more.
pub open spec fn with_session(
    state: StateView,
    token: Seq<char>,
    player: Seq<char>,
    now: int,
) -> StateView {
    StateView {
        sessions: state.sessions.insert(
            token,
            SessionView { token, player_id: player, created_at: now, expires_at: now + SESSION_MS },
        ),
        ..state
    }
}

/// The indexes after somebody registered.
pub open spec fn caches_enrolled(
    state: StateView,
    caches: CachesView,
    repo: RepoView,
    who: EnrollmentView,
    now: int,
    distance: spec_fn(Coord, Coord) -> u64,
) -> CachesView {
    caches_ensured(owners_changed(caches), joined(state, who, now), repo, distance)
}

/// The state after somebody registered: the player owns the start nodes, has an
/// income from them, a name and a session.
pub open spec fn enrolled(
    state: StateView,
    caches: CachesView,
    repo: RepoView,
    who: EnrollmentView,
    now: int,
    distance: spec_fn(Coord, Coord) -> u64,
) -> StateView {
    let paid = economy_recomputed(
        joined(state, who, now),
        caches_enrolled(state, caches, repo, who, now, distance),
        repo,
        who.player_id,
        now,
        distance,
    );
    let named = StateView {
        usernames: paid.usernames.insert(who.username, who.player_id),
        ..paid
    };
    saved(purged(with_session(named, who.token, who.player_id, now), now), now)
}

fn add_session(state: &mut GameState, token: &str, player_id: &str, now: i64)
    requires
        now + SESSION_MS <= i64::MAX,
    ensures
        final(state)@ == with_session(old(state)@, token@, player_id@, now as int),
{
    state.sessions.insert(
        token.to_owned(),
        Session {
            token: token.to_owned(),
            player_id: player_id.to_owned(),
            created_at: now,
            expires_at: now + SESSION_MS,
        },
    );
}

/// Takes a new player in.
pub fn enroll<F: Fn(Coord, Coord) -> u64>(
    state: &mut GameState,
    caches: &mut Caches,
    repo: &NodeRepo,
    who: &Enrollment,
    now: i64,
    distance: &F,
)
    requires
        measures(*distance),
        old(caches)@.bounded(),
        old(state)@.node_keys.len() <= MAX_NODES,
        all_nodes(old(state)@, who@.start_nodes),
        now + SESSION_MS <= i64::MAX,
    ensures
        final(state)@ == enrolled(
            old(state)@,
            old(caches)@,
            repo@,
            who@,
            now as int,
            metric(*distance),
        ),
        final(caches)@ == caches_enrolled(
            old(state)@,
            old(caches)@,
            repo@,
            who@,
            now as int,
            metric(*distance),
        ),
        final(caches)@.bounded(),
{
    let ghost before = state@;
    claim_nodes(state, caches, &who.start_nodes, who.player_id.as_str());
    let player = Player {
        id: who.player_id.clone(),
        username: who.username.clone(),
        password_hash: who.password_hash.clone(),
        created_at: now,
        start_node_ids: copy_texts(&who.start_nodes),
        color: who.color.clone(),
        gold: 0,
        gold_income_per_sec: 0,
        gold_updated_at: now,
        damage_reduction_percent: 0,
        happiness_percent: 0,
    };
    state.players.insert(who.player_id.clone(), player);
    proof {
        assert(state@ == joined(before, who@, now as int));
    }
    recompute_player_economy(state, caches, repo, who.player_id.as_str(), now, distance);
    state.usernames.insert(who.username.clone(), who.player_id.clone());
    add_session(state, who.token.as_str(), who.player_id.as_str(), now);
    purge_expired_sessions(state, now);
    state.mark_saved(now);
}

/// Who logged in, and the token to show from now on.
pub struct Login {
    pub player_id: String,
    pub token: String,
}

/// The node where a player asked to start, if one was named.
pub open spec fn wanted_start(start_node_id: Option<&str>) -> Option<Seq<char>> {
    match start_node_id {
        Some(id) => if trimmed(id@).len() > 0 {
            Some(trimmed(id@))
        } else {
            None
        },
        None => None,
    }
}

/// Why the start nodes cannot be had, if so.
pub open spec fn nodes_refusal(
    state: StateView,
    repo: RepoView,
    wanted: Option<Seq<char>>,
) -> Option<Refusal> {
    match wanted {
        Some(id) => start_refusal(state, repo, id),
        None => if neutrals(state, repo).len() < START_NODES {
            Some(Refusal::NotEnoughNodes)
        } else {
            None
        },
    }
}

/// `chosen` are the neutral nodes nearest to the wanted one or, where none was
/// named, to some neutral node.
pub open spec fn well_chosen(
    state: StateView,
    repo: RepoView,
    wanted: Option<Seq<char>>,
    distance: spec_fn(Coord, Coord) -> u64,
    chosen: Seq<Seq<char>>,
) -> bool {
    let free = neutrals(state, repo);
    match wanted {
        Some(id) => are_nearest(free, repo, repo.nodes[id].coord, distance, chosen),
        None => exists|i: int|
            0 <= i < free.len() && are_nearest(
                free,
                repo,
                repo.nodes[#[trigger] free[i]].coord,
                distance,
                chosen,
            ),
    }
}

/// What became of the state when only the password could not be hashed: some player
/// has taken start nodes and is otherwise unknown.
pub open spec fn half_enrolled(
    state: StateView,
    repo: RepoView,
    wanted: Option<Seq<char>>,
    distance: spec_fn(Coord, Coord) -> u64,
    after: StateView,
) -> bool {
    exists|chosen: Seq<Seq<char>>, player: Seq<char>|
        is_random_id(player, "player"@) && well_chosen(state, repo, wanted, distance, chosen)
            && after == #[trigger] claimed(state, chosen, player)
}

/// The number that bytes spell, the first byte weighing most.
pub open spec fn big_endian(bytes: Seq<u8>) -> nat
    decreases bytes.len(),
{
    if bytes.len() == 0 {
        0
    } else {
        big_endian(bytes.drop_last()) * 256 + bytes.last() as nat
    }
}

proof fn lemma_big_endian_bound(bytes: Seq<u8>)
    ensures
        big_endian(bytes) < pow2(8 * bytes.len()),
    decreases bytes.len(),
{
    if bytes.len() == 0 {
        lemma2_to64();
    } else {
        let n = (8 * (bytes.len() - 1)) as nat;
        lemma_big_endian_bound(bytes.drop_last());
        lemma2_to64();
        lemma_pow2_adds(n, 8);
    }
}

/// The seed that random bytes give: the number that the first eight of them spell.
pub fn seed_from(bytes: &[u8; 12]) -> (seed: u64)
    ensures
        seed == big_endian(bytes@.take(8)),
{
    let mut seed: u64 = 0;
    let mut i: usize = 0;
    while i < 8
        invariant
            i <= 8,
            seed == big_endian(bytes@.take(i as int)),
        decreases 8 - i,
    {
        proof {
            let next = bytes@.take(i + 1);
            assert(next.drop_last() =~= bytes@.take(i as int));
            assert(next.last() == bytes@[i as int]);
            lemma_big_endian_bound(next);
            lemma2_to64();
            if i < 7 {
                lemma_pow2_strictly_increases(8 * next.len(), 64);
            }
        }
        seed = seed * 256 + bytes[i] as u64;
        i += 1;
    }
    seed
}

/// A seed from random bytes. Which bytes come is left to chance.
fn random_seed() -> (seed: u64)
    ensures
        exists|bytes: [u8; 12]| seed == big_endian(#[trigger] bytes@.take(8)),
{
    let bytes = random_bytes();
    seed_from(&bytes)
}

/// Chooses the start nodes of a new player.
fn pick_start_nodes<F: Fn(Coord, Coord) -> u64>(
    state: &GameState,
    repo: &NodeRepo,
    start_node_id: Option<&str>,
    distance: &F,
) -> (r: Result<Vec<String>, Refusal>)
    requires
        measures(*distance),
    ensures
        match nodes_refusal(state@, repo@, wanted_start(start_node_id)) {
            Some(refusal) => r == Err::<Vec<String>, Refusal>(refusal),
            None => r is Ok && well_chosen(
                state@,
                repo@,
                wanted_start(start_node_id),
                metric(*distance),
                texts(r->Ok_0@),
            ) && all_nodes(state@, texts(r->Ok_0@)),
        },
{
    if let Some(id) = start_node_id {
        let bare = trim(id);
        let empty: bool = same_text(bare.as_str(), "");
        proof {
            reveal_strlit("");
            assert(empty == (bare@.len() == 0)) by {
                if bare@.len() == 0 {
                    assert(bare@ =~= ""@);
                }
            }
        }
        if !empty {
            return choose_start_nodes_around(state, repo, bare.as_str(), distance);
        }
    }
    let seed: u64 = random_seed();
    let r = choose_start_nodes(state, repo, seed, distance);
    proof {
        let free = neutrals(state@, repo@);
        if free.len() >= START_NODES {
            let at = seed as int % free.len() as int;
            assert(0 <= at < free.len());
            assert(are_nearest(
                free,
                repo@,
                repo@.nodes[free[at]].coord,
                metric(*distance),
                texts(r->Ok_0@),
            ));
        }
    }
    r
}

/// How registering ends.
pub open spec fn register_outcome(
    state: StateView,
    caches: CachesView,
    next: StateView,
    next_caches: CachesView,
    r: Result<Login, Failure>,
    repo: RepoView,
    username: Seq<char>,
    password: Seq<char>,
    color: Option<&str>,
    start_node_id: Option<&str>,
    now: int,
    distance: spec_fn(Coord, Coord) -> u64,
) -> bool {
    let name = normalized(username);
    let found = synced(state, caches, repo, now);
    let indexes = caches_synced(caches, repo);
    let wanted = wanted_start(start_node_id);
    match credentials_refusal(state, name, password) {
        Some(refusal) => {
            &&& r is Err && r->Err_0@ == FailureView::Refused(refusal)
            &&& next == state && next_caches == caches
        },
        None => match nodes_refusal(found, repo, wanted) {
            Some(refusal) => {
                &&& r is Err && r->Err_0@ == FailureView::Refused(refusal)
                &&& next == found && next_caches == indexes
            },
            None => match r {
                Err(failure) => {
                    &&& failure is Hashing && utf8(password).len() > MAX_PASSWORD
                    &&& half_enrolled(found, repo, wanted, distance, next)
                    &&& next_caches == owners_changed(indexes)
                },
                Ok(login) => {
                    let player = next.players[login.player_id@];
                    let who = EnrollmentView {
                        player_id: login.player_id@,
                        token: login.token@,
                        username: name,
                        password_hash: player.password_hash,
                        color: player.color,
                        start_nodes: player.start_node_ids,
                    };
                    &&& is_random_id(who.player_id, "player"@)
                    &&& is_random_id(who.token, "session"@)
                    &&& utf8(password).len() <= MAX_PASSWORD
                    &&& is_argon2(who.password_hash) && accepts(
                        password,
                        who.password_hash,
                    )
                    &&& match asked_color(color) {
                        Some(asked) => who.color == asked,
                        None => palette().contains(who.color),
                    }
                    &&& well_chosen(found, repo, wanted, distance, who.start_nodes)
                    &&& next == enrolled(
                        found,
                        indexes,
                        repo,
                        who,
                        now,
                        distance,
                    )
                    &&& next_caches == caches_enrolled(
                        found,
                        indexes,
                        repo,
                        who,
                        now,
                        distance,
                    )
                },
            },
        },
    }
}

/// Registers a player. Where the password cannot be hashed, the start nodes are
/// taken all the same.
pub fn register_player<F: Fn(Coord, Coord) -> u64>(
    state: &mut GameState,
    caches: &mut Caches,
    repo: &NodeRepo,
    username: &str,
    password: &str,
    color: Option<&str>,
    start_node_id: Option<&str>,
    now: i64,
    distance: &F,
) -> (r: Result<Login, Failure>)
    requires
        measures(*distance),
        old(caches)@.bounded(),
        old(state)@.node_keys.len() <= MAX_NODES,
        repo@.node_keys.len() <= MAX_NODES,
        now + SESSION_MS <= i64::MAX,
    ensures
        register_outcome(
            old(state)@,
            old(caches)@,
            final(state)@,
            final(caches)@,
            r,
            repo@,
            username@,
            password@,
            color,
            start_node_id,
            now as int,
            metric(*distance),
        ),
        final(caches)@.bounded(),
{
    let name = normalize_username(username);
    if let Some(refusal) = check_credentials(state, name.as_str(), password) {
        return Err(Failure::Refused(refusal));
    }
    sync_world_nodes(state, caches, repo, now);
    let player_id = random_id("player");
    let token = random_id("session");
    let start_nodes = match pick_start_nodes(state, repo, start_node_id, distance) {
        Ok(ids) => ids,
        Err(refusal) => {
            return Err(Failure::Refused(refusal));
        },
    };
    match hash_password_argon2(password) {
        Err(failure) => {
            claim_nodes(state, caches, &start_nodes, player_id.as_str());
            Err(failure)
        },
        Ok(password_hash) => {
            let color = normalize_player_color(color);
            let who = Enrollment {
                player_id,
                token,
                username: name,
                password_hash,
                color,
                start_nodes,
            };
            enroll(state, caches, repo, &who, now, distance);
            Ok(Login { player_id: who.player_id, token: who.token })
        },
    }
}

/// Whether name and password belong to a player.
pub open spec fn may_log_in(state: StateView, name: Seq<char>, password: Seq<char>) -> bool {
    &&& state.usernames.contains_key(name)
    &&& state.players.contains_key(state.usernames[name])
    &&& accepts(password, state.players[state.usernames[name]].password_hash)
}

/// The state with a new password hash for a player, if there is one to put in.
pub open spec fn rehashed(
    state: StateView,
    player: Seq<char>,
    hash: Option<Seq<char>>,
) -> StateView {
    match hash {
        Some(hash) if state.players.contains_key(player) => StateView {
            players: state.players.insert(
                player,
                PlayerView { password_hash: hash, ..state.players[player] },
            ),
            ..state
        },
        _ => state,
    }
}

/// The state after a player logged in.
pub open spec fn logged_in(
    state: StateView,
    token: Seq<char>,
    player: Seq<char>,
    hash: Option<Seq<char>>,
    now: int,
) -> StateView {
    saved(purged(rehashed(with_session(state, token, player, now), player, hash), now), now)
}

/// Opens a session for a player, and puts a new password hash in the place of the
/// old one where there is one.
pub fn open_session(
    state: &mut GameState,
    token: &str,
    player_id: &str,
    hash: &Option<String>,
    now: i64,
)
    requires
        now + SESSION_MS <= i64::MAX,
    ensures
        final(state)@ == logged_in(old(state)@, token@, player_id@, text_in(*hash), now as int),
{
    let ghost before = state@;
    add_session(state, token, player_id, now);
    if let Some(hash) = hash {
        if let Some(i) = state.players.position(player_id) {
            let mut player = state.players.value_at(i).clone();
            player.password_hash = hash.clone();
            state.players.set_at(i, player);
        }
    }
    proof {
        assert(state@ == rehashed(
            with_session(before, token@, player_id@, now as int),
            player_id@,
            text_in(*hash),
        ));
    }
    purge_expired_sessions(state, now);
    state.mark_saved(now);
}

/// What became of the state when the password could not be hashed anew: the session
/// is there all the same.
pub open spec fn has_new_session(
    state: StateView,
    player: Seq<char>,
    now: int,
    after: StateView,
) -> bool {
    exists|token: Seq<char>|
        is_random_id(token, "session"@) && after == #[trigger] with_session(
            state,
            token,
            player,
            now,
        )
}

/// How logging in ends.
pub open spec fn login_outcome(
    state: StateView,
    next: StateView,
    r: Result<Login, Failure>,
    username: Seq<char>,
    password: Seq<char>,
    now: int,
) -> bool {
    let name = normalized(username);
    let id = state.usernames[name];
    let former = state.players[id].password_hash;
    if !may_log_in(state, name, password) {
        &&& r is Err && r->Err_0@ == FailureView::Refused(Refusal::BadLogin)
        &&& next == state
    } else {
        match r {
            Err(failure) => {
                &&& failure is Hashing && utf8(password).len() > MAX_PASSWORD
                &&& !is_argon2(former)
                &&& has_new_session(state, id, now, next)
            },
            Ok(login) => {
                let present = next.players[id].password_hash;
                &&& login.player_id@ == id
                &&& is_random_id(login.token@, "session"@)
                &&& if is_argon2(former) {
                    next == logged_in(
                        state,
                        login.token@,
                        id,
                        None,
                        now,
                    )
                } else {
                    &&& utf8(password).len() <= MAX_PASSWORD
                    &&& is_argon2(present) && accepts(password, present)
                    &&& next == logged_in(
                        state,
                        login.token@,
                        id,
                        Some(present),
                        now,
                    )
                }
            },
        }
    }
}

/// Logs a player in. A password hash of the former kind is replaced.
pub fn login_player(state: &mut GameState, username: &str, password: &str, now: i64) -> (r: Result<
    Login,
    Failure,
>)
    requires
        now + SESSION_MS <= i64::MAX,
    ensures
        login_outcome(old(state)@, final(state)@, r, username@, password@, now as int),
{
    let name = normalize_username(username);
    let player_id: String = match state.usernames.get(name.as_str()) {
        Some(id) => id.clone(),
        None => {
            return Err(Failure::Refused(Refusal::BadLogin));
        },
    };
    let (verified, old_hash): (bool, bool) = match state.players.get(player_id.as_str()) {
        Some(player) => verify_password(password, player.password_hash.as_str()),
        None => (false, false),
    };
    if !verified {
        return Err(Failure::Refused(Refusal::BadLogin));
    }
    let token = random_id("session");
    let mut hash: Option<String> = None;
    if old_hash {
        match hash_password_argon2(password) {
            Ok(new_hash) => {
                hash = Some(new_hash);
            },
            Err(failure) => {
                add_session(state, token.as_str(), player_id.as_str(), now);
                return Err(failure);
            },
        }
    }
    open_session(state, token.as_str(), player_id.as_str(), &hash, now);
    Ok(Login { player_id, token })
}

/// The state after somebody logged out.
pub open spec fn logged_out(state: StateView, token: Seq<char>, now: int) -> StateView {
    saved(StateView { sessions: state.sessions.remove(token), ..state }, now)
}

/// Ends a session; it is no matter if there is none.
pub fn logout_player(state: &mut GameState, token: &str, now: i64)
    ensures
        final(state)@ == logged_out(old(state)@, token@, now as int),
{
    state.sessions.remove(token);
    state.mark_saved(now);
}

/// Whoever has registered can log in with the same name and password, and the name
/// is taken from then on.
pub proof fn law_registered_player_may_log_in(
    state: StateView,
    caches: CachesView,
    repo: RepoView,
    who: EnrollmentView,
    password: Seq<char>,
    now: int,
    distance: spec_fn(Coord, Coord) -> u64,
)
    requires
        accepts(password, who.password_hash),
    ensures
        may_log_in(enrolled(state, caches, repo, who, now, distance), who.username, password),
        enrolled(state, caches, repo, who, now, distance).usernames.contains_key(who.username),
{
}

/// The session that comes from registering is good for seven days, and no longer.
pub proof fn law_new_session_lasts_a_week(
    state: StateView,
    caches: CachesView,
    repo: RepoView,
    who: EnrollmentView,
    now: int,
    distance: spec_fn(Coord, Coord) -> u64,
    later: int,
)
    requires
        now <= later,
    ensures
        session_refusal(
            enrolled(state, caches, repo, who, now, distance),
            who.token,
            later,
        ) == (if later < now + SESSION_MS {
            None
        } else {
            Some(Refusal::SessionExpired)
        }),
{
}

/// The session that comes from logging in is good for seven days, and the password
/// stays good where the new hash accepts it.
pub proof fn law_login_lasts_a_week(
    state: StateView,
    name: Seq<char>,
    password: Seq<char>,
    token: Seq<char>,
    hash: Option<Seq<char>>,
    now: int,
    later: int,
)
    requires
        may_log_in(state, name, password),
        hash is Some ==> accepts(password, hash->Some_0),
        now <= later < now + SESSION_MS,
    ensures
        session_refusal(
            logged_in(state, token, state.usernames[name], hash, now),
            token,
            later,
        ) is None,
        may_log_in(logged_in(state, token, state.usernames[name], hash, now), name, password),
{
}

/// A token is of no use after its owner logged out; other tokens are as good as
/// before.
pub proof fn law_logout_ends_session(
    state: StateView,
    token: Seq<char>,
    other: Seq<char>,
    now: int,
    later: int,
)
    ensures
        session_refusal(logged_out(state, token, now), token, later) == Some(
            Refusal::InvalidSession,
        ),
        other != token ==> session_refusal(logged_out(state, token, now), other, later)
            == session_refusal(state, other, later),
{
}

/// Every name belongs to a player of that name.
pub open spec fn names_sound(state: StateView) -> bool {
    forall|name: Seq<char>| #[trigger]
        state.usernames.contains_key(name) ==> state.players.contains_key(state.usernames[name])
            && state.players[state.usernames[name]].username == name
}

/// Names stay with their players when somebody registers under a name that is not
/// taken, with an id that nobody has.
pub proof fn law_names_stay_sound(
    state: StateView,
    caches: CachesView,
    repo: RepoView,
    who: EnrollmentView,
    now: int,
    distance: spec_fn(Coord, Coord) -> u64,
)
    requires
        names_sound(state),
        !state.usernames.contains_key(who.username),
        !state.players.contains_key(who.player_id),
    ensures
        names_sound(enrolled(state, caches, repo, who, now, distance)),
{
    let after = enrolled(state, caches, repo, who, now, distance);
    assert forall|name: Seq<char>| #[trigger] after.usernames.contains_key(name) implies {
        &&& after.players.contains_key(after.usernames[name])
        &&& after.players[after.usernames[name]].username == name
    } by {
        if name != who.username {
            assert(state.usernames.contains_key(name));
        }
    }
}

/// Nobody loses a node to a player who registers: the start nodes were neutral, and
/// all other nodes stay as they are.
pub proof fn law_newcomer_takes_neutral_nodes(
    state: StateView,
    caches: CachesView,
    repo: RepoView,
    who: EnrollmentView,
    wanted: Option<Seq<char>>,
    now: int,
    distance: spec_fn(Coord, Coord) -> u64,
    node: Seq<char>,
)
    requires
        crate::state::walks(repo.node_keys, repo.nodes),
        well_chosen(state, repo, wanted, distance, who.start_nodes),
        state.nodes.contains_key(node),
    ensures
        ({
            let after = enrolled(state, caches, repo, who, now, distance);
            &&& after.nodes.contains_key(node)
            &&& after.nodes[node] == (if who.start_nodes.contains(node) {
                start_node(who.player_id)
            } else {
                state.nodes[node]
            })
            &&& who.start_nodes.contains(node) ==> state.nodes[node].owner is None
        }),
{
    let free = neutrals(state, repo);
    lemma_neutrals(state, repo);
    if who.start_nodes.contains(node) {
        let from = match wanted {
            Some(id) => repo.nodes[id].coord,
            None => {
                let i = choose|i: int|
                    0 <= i < free.len() && are_nearest(
                        free,
                        repo,
                        repo.nodes[#[trigger] free[i]].coord,
                        distance,
                        who.start_nodes,
                    );
                repo.nodes[free[i]].coord
            },
        };
        let order = choose|order: Seq<usize>| #[trigger]
            nearest_by(free, repo, from, distance, who.start_nodes, order);
        let i = who.start_nodes.index_of(node);
        assert(who.start_nodes[i] == free[order[i] as int]);
        assert(is_neutral(state, free[order[i] as int]));
    }
}

} // verus!
