//! Connections between neighbouring nodes: attacks and transfers.
use vstd::prelude::*;

use crate::accounts::{require_session, session_refusal};
use crate::battle::attack_removed;
use crate::economy::{ensure_city_membership, membership_ensured, Caches, CachesView};
use crate::errors::{Failure, FailureView, Refusal};
use crate::features::{feature_views, node_features, nodes_seen, OwnerState, NodeFeature};
use crate::geometry::{measures, metric, Coord};
use crate::loading::key_added;
use crate::missiles::{first_key, lemma_first_key, lemma_first_key_found};
use crate::numeric::{clamped, sanitize_send_per_tick};
use crate::passwords::{is_random_id, random_id};
use crate::repo::{NodeRepo, RepoView};
use crate::roads::{
    find_road_path, immediate_neighbor_targets, kept_neighbors_right, law_neighbors_are_adjacent,
    lemma_neighbors_stay_right, neighbors_outcome, route_outcome,
};
use crate::state::{copy_path, texts, walks, Attack, AttackView, GameState, StateView};
use crate::table::other_than;
use crate::text::same_text;
use crate::walks::{adds, adjacent, grows, mapped, plus};
use crate::world::{lemma_filter_all, lemma_filter_source, saved};

verus! {

/// Most nodes that may be asked for at once.
pub const MAX_CANDIDATES: usize = 20_000;

/// What `f` makes of a path.
pub open spec fn drawing_of<P: Fn(Vec<Coord>) -> Vec<Coord>>(f: P, path: Seq<Coord>) -> Seq<
    Coord,
> {
    choose|s: Seq<Coord>| draws_as(f, path, s)
}

/// `f` can make `s` of `path`.
pub open spec fn draws_as<P: Fn(Vec<Coord>) -> Vec<Coord>>(
    f: P,
    path: Seq<Coord>,
    s: Seq<Coord>,
) -> bool {
    exists|p: Vec<Coord>, r: Vec<Coord>|
        p@ == path && r@ == s && #[trigger] call_ensures(f, (p,), r)
}

/// `f` is total, and makes the same of the same path.
pub open spec fn draws<P: Fn(Vec<Coord>) -> Vec<Coord>>(f: P) -> bool {
    &&& forall|p: Vec<Coord>| call_requires(f, (p,))
    &&& forall|p: Vec<Coord>, r: Vec<Coord>| #[trigger]
        call_ensures(f, (p,), r) ==> r@ == drawing_of(f, p@)
}

/// `f` as a mathematical function.
pub open spec fn drawing<P: Fn(Vec<Coord>) -> Vec<Coord>>(f: P) -> spec_fn(Seq<Coord>) -> Seq<
    Coord,
> {
    |path: Seq<Coord>| drawing_of(f, path)
}

/// A path with fewer points, as `thin` makes it: short paths stay, and so do those of
/// which too little would be left.
pub open spec fn simplified(path: Seq<Coord>, thin: spec_fn(Seq<Coord>) -> Seq<Coord>) -> Seq<
    Coord,
> {
    if path.len() <= 2 || thin(path).len() < 2 {
        path
    } else {
        thin(path)
    }
}

/// A path with fewer points.
pub fn simplify_connection_path<P: Fn(Vec<Coord>) -> Vec<Coord>>(
    path: &Vec<Coord>,
    thin: &P,
) -> (r: Vec<Coord>)
    requires
        draws(*thin),
    ensures
        r@ == simplified(path@, drawing(*thin)),
{
    if path.len() <= 2 {
        return copy_path(path);
    }
    let thinner: Vec<Coord> = thin(copy_path(path));
    if thinner.len() >= 2 {
        thinner
    } else {
        copy_path(path)
    }
}

/// A connection that may be made.
pub struct Connection {
    /// Whether army goes to a node of the same player.
    pub transfer: bool,
    pub path: Vec<Coord>,
}

/// The word for what a connection does.
pub open spec fn mode_word(transfer: bool) -> Seq<char> {
    if transfer {
        "transfer"@
    } else {
        "attack"@
    }
}

/// Whose the node at the end of a connection is.
pub open spec fn target_owner(transfer: bool) -> OwnerState {
    if transfer {
        OwnerState::Own
    } else {
        OwnerState::Enemy
    }
}

impl Connection {
    pub fn mode(&self) -> (r: &'static str)
        ensures
            r@ == mode_word(self.transfer),
    {
        if self.transfer {
            "transfer"
        } else {
            "attack"
        }
    }

    pub fn owner_state(&self) -> (r: OwnerState)
        ensures
            r == target_owner(self.transfer),
    {
        if self.transfer {
            OwnerState::Own
        } else {
            OwnerState::Enemy
        }
    }
}

/// Why two nodes may not be connected whatever the roads, if so.
pub open spec fn connect_refusal(
    state: StateView,
    player: Seq<char>,
    from: Seq<char>,
    to: Seq<char>,
) -> Option<Refusal> {
    if from == to {
        Some(Refusal::SameNode)
    } else if !state.nodes.contains_key(from) || !state.nodes.contains_key(to) {
        Some(Refusal::InvalidNodes)
    } else if state.nodes[from].owner != Some(player) {
        Some(Refusal::SourceNotOwned)
    } else {
        None
    }
}

/// Checks the ends of a connection that a player asks for.
pub fn check_ends(state: &GameState, player_id: &str, from_node_id: &str, to_node_id: &str) -> (r:
    Option<Refusal>)
    ensures
        r == connect_refusal(state@, player_id@, from_node_id@, to_node_id@),
{
    if same_text(from_node_id, to_node_id) {
        return Some(Refusal::SameNode);
    }
    match (state.nodes.get(from_node_id), state.nodes.get(to_node_id)) {
        (Some(source), Some(_)) => if source.owned_by(player_id) {
            None
        } else {
            Some(Refusal::SourceNotOwned)
        },
        _ => Some(Refusal::InvalidNodes),
    }
}

/// `r` is what comes of a path along roads.
pub open spec fn connection_along(
    path: Result<Vec<Coord>, Failure>,
    transfer: bool,
    thin: spec_fn(Seq<Coord>) -> Seq<Coord>,
    r: Result<Connection, Failure>,
) -> bool {
    match path {
        Err(failure) => r is Err && r->Err_0@ == failure@,
        Ok(points) => if simplified(points@, thin).len() < 2 {
            r is Err && r->Err_0@ == FailureView::Refused(Refusal::NoRoadBetween)
        } else {
            r is Ok && r->Ok_0.transfer == transfer && r->Ok_0.path@ == simplified(points@, thin)
        },
    }
}

/// What connecting two nodes gives, where `targets` are the neighbours of the first,
/// `mid` is the road map after they were looked up, and `path` is the way.
pub open spec fn resolved_by(
    state: StateView,
    repo: RepoView,
    next: RepoView,
    player: Seq<char>,
    from: Seq<char>,
    to: Seq<char>,
    r: Result<Connection, Failure>,
    plus: spec_fn(u64, u64) -> u64,
    distance: spec_fn(Coord, Coord) -> u64,
    thin: spec_fn(Seq<Coord>) -> Seq<Coord>,
    mid: RepoView,
    targets: Result<Vec<String>, Refusal>,
    path: Result<Vec<Coord>, Failure>,
) -> bool {
    &&& neighbors_outcome(repo, mid, from, targets, plus)
    &&& match targets {
        Err(refusal) => {
            &&& r is Err && r->Err_0@ == FailureView::Refused(refusal)
            &&& next == mid
        },
        Ok(ids) => if !texts(ids@).contains(to) {
            &&& r is Err && r->Err_0@ == FailureView::Refused(Refusal::NotAdjacent)
            &&& next == mid
        } else {
            &&& route_outcome(mid, next, from, to, path, plus, distance)
            &&& connection_along(path, state.nodes[to].owner == Some(player), thin, r)
        },
    }
}

/// What connecting two nodes gives: the second has to be a neighbour of the first,
/// and the connection follows the road.
pub open spec fn resolved(
    state: StateView,
    repo: RepoView,
    next: RepoView,
    player: Seq<char>,
    from: Seq<char>,
    to: Seq<char>,
    r: Result<Connection, Failure>,
    plus: spec_fn(u64, u64) -> u64,
    distance: spec_fn(Coord, Coord) -> u64,
    thin: spec_fn(Seq<Coord>) -> Seq<Coord>,
) -> bool {
    match connect_refusal(state, player, from, to) {
        Some(refusal) => {
            &&& r is Err && r->Err_0@ == FailureView::Refused(refusal)
            &&& next == repo
        },
        None => exists|
            mid: RepoView,
            targets: Result<Vec<String>, Refusal>,
            path: Result<Vec<Coord>, Failure>,
        | #[trigger]
            resolved_by(
                state,
                repo,
                next,
                player,
                from,
                to,
                r,
                plus,
                distance,
                thin,
                mid,
                targets,
                path,
            ),
    }
}

fn has_text(list: &Vec<String>, text: &str) -> (r: bool)
    ensures
        r == texts(list@).contains(text@),
{
    let ghost all = texts(list@);
    let mut i: usize = 0;
    while i < list.len()
        invariant
            all == texts(list@),
            i <= list.len(),
            forall|k: int| 0 <= k < i ==> all[k] != text@,
        decreases list.len() - i,
    {
        if same_text(list[i].as_str(), text) {
            proof {
                assert(all[i as int] == text@);
            }
            return true;
        }
        i += 1;
    }
    false
}

/// Works out the connection between two nodes.
pub fn resolve_connection<
    S: Fn(u64, u64) -> u64,
    F: Fn(Coord, Coord) -> u64,
    P: Fn(Vec<Coord>) -> Vec<Coord>,
>(
    state: &GameState,
    repo: &mut NodeRepo,
    player_id: &str,
    from_node_id: &str,
    to_node_id: &str,
    sum: &S,
    distance: &F,
    thin: &P,
) -> (r: Result<Connection, Failure>)
    requires
        adds(*sum),
        grows(plus(*sum)),
        measures(*distance),
        draws(*thin),
        mapped(old(repo)@),
    ensures
        resolved(
            state@,
            old(repo)@,
            final(repo)@,
            player_id@,
            from_node_id@,
            to_node_id@,
            r,
            plus(*sum),
            metric(*distance),
            drawing(*thin),
        ),
        mapped(final(repo)@),
{
    let ghost before = repo@;
    let ghost p = plus(*sum);
    let ghost d = metric(*distance);
    let ghost t = drawing(*thin);
    if let Some(refusal) = check_ends(state, player_id, from_node_id, to_node_id) {
        return Err(Failure::Refused(refusal));
    }
    let targets = immediate_neighbor_targets(repo, from_node_id, sum);
    let ghost mid = repo@;
    let ghost none: Result<Vec<Coord>, Failure> = arbitrary();
    let adjacent: bool = match &targets {
        Ok(ids) => has_text(ids, to_node_id),
        Err(refusal) => {
            let r: Result<Connection, Failure> = Err(Failure::Refused(*refusal));
            proof {
                assert(resolved_by(
                    state@,
                    before,
                    repo@,
                    player_id@,
                    from_node_id@,
                    to_node_id@,
                    r,
                    p,
                    d,
                    t,
                    mid,
                    targets,
                    none,
                ));
            }
            return r;
        },
    };
    if !adjacent {
        let r: Result<Connection, Failure> = Err(Failure::Refused(Refusal::NotAdjacent));
        proof {
            assert(resolved_by(
                state@,
                before,
                repo@,
                player_id@,
                from_node_id@,
                to_node_id@,
                r,
                p,
                d,
                t,
                mid,
                targets,
                none,
            ));
        }
        return r;
    }
    let transfer: bool = match state.nodes.get(to_node_id) {
        Some(target) => target.owned_by(player_id),
        None => false,
    };
    let found = find_road_path(repo, from_node_id, to_node_id, sum, distance);
    let ghost way = found;
    let r: Result<Connection, Failure> = match found {
        Err(failure) => Err(failure),
        Ok(points) => {
            let path = simplify_connection_path(&points, thin);
            if path.len() < 2 {
                Err(Failure::Refused(Refusal::NoRoadBetween))
            } else {
                Ok(Connection { transfer, path })
            }
        },
    };
    proof {
        assert(resolved_by(
            state@,
            before,
            repo@,
            player_id@,
            from_node_id@,
            to_node_id@,
            r,
            p,
            d,
            t,
            mid,
            targets,
            way,
        ));
    }
    r
}

/// Whether an attack is the connection of a player between two nodes.
pub open spec fn is_connection(
    attack: AttackView,
    player: Seq<char>,
    from: Seq<char>,
    to: Seq<char>,
) -> bool {
    attack.owner == player && attack.from == from && attack.to == to
}

/// Whether a key leads to the connection of a player between two nodes.
pub open spec fn leads_to_connection(
    state: StateView,
    player: Seq<char>,
    from: Seq<char>,
    to: Seq<char>,
) -> spec_fn(Seq<char>) -> bool {
    |k: Seq<char>| is_connection(state.attacks[k], player, from, to)
}

/// The first connection of a player between two nodes, if there is one.
pub open spec fn connection_of(
    state: StateView,
    player: Seq<char>,
    from: Seq<char>,
    to: Seq<char>,
) -> Option<Seq<char>> {
    first_key(state.attack_keys, leads_to_connection(state, player, from, to))
}

fn is_connection_of(attack: &Attack, player_id: &str, from: &str, to: &str) -> (r: bool)
    ensures
        r == is_connection(attack@, player_id@, from@, to@),
{
    same_text(attack.owner_id.as_str(), player_id) && same_text(attack.from_node_id.as_str(), from)
        && same_text(attack.to_node_id.as_str(), to)
}

/// Finds the first connection of a player between two nodes.
pub fn find_connection(state: &GameState, player_id: &str, from: &str, to: &str) -> (r: Option<usize>)
    ensures
        match r {
            Some(i) => i < state@.attack_keys.len() && connection_of(
                state@,
                player_id@,
                from@,
                to@,
            ) == Some(state@.attack_keys[i as int]),
            None => connection_of(state@, player_id@, from@, to@) is None,
        },
{
    let ghost keys = state.attacks.keys();
    let ghost pred = leads_to_connection(state@, player_id@, from@, to@);
    let n: usize = state.attacks.len();
    let mut i: usize = 0;
    while i < n
        invariant
            keys == state@.attack_keys,
            keys == state.attacks.keys(),
            state.attacks.coherent(),
            pred == leads_to_connection(state@, player_id@, from@, to@),
            n == keys.len(),
            i <= n,
            forall|k: int| 0 <= k < i ==> !pred(#[trigger] keys[k]),
        decreases n - i,
    {
        if is_connection_of(state.attacks.value_at(i), player_id, from, to) {
            proof {
                lemma_first_key(keys, pred, i as int);
            }
            return Some(i);
        }
        i += 1;
    }
    proof {
        lemma_first_key(keys, pred, n as int);
    }
    None
}

/// The state with one attack more.
pub open spec fn with_attack(state: StateView, attack: AttackView) -> StateView {
    StateView {
        attacks: state.attacks.insert(attack.id, attack),
        attack_keys: key_added(state.attack_keys, state.attacks, attack.id),
        ..state
    }
}

/// What a connection asks for: who makes it, between which nodes, and how much goes
/// through it per tick.
#[verifier::ext_equal]
pub struct Order {
    pub player: Seq<char>,
    pub from: Seq<char>,
    pub to: Seq<char>,
    pub rate: int,
}

/// A new attack or transfer.
pub open spec fn new_attack(
    id: Seq<char>,
    order: Order,
    transfer: bool,
    path: Seq<Coord>,
    now: int,
) -> AttackView {
    AttackView {
        id,
        owner: order.player,
        mode: mode_word(transfer),
        from: order.from,
        to: order.to,
        path,
        send_per_tick: clamped(order.rate, 1, 250),
        created_at: now,
    }
}

/// Makes a connection that was worked out. The rate is brought into its bounds and
/// returned.
pub fn connect(
    state: &mut GameState,
    attack_id: &str,
    player_id: &str,
    from_node_id: &str,
    to_node_id: &str,
    connection: &Connection,
    send_per_tick: i64,
    now: i64,
) -> (rate: i64)
    ensures
        ({
            let order = Order {
                player: player_id@,
                from: from_node_id@,
                to: to_node_id@,
                rate: send_per_tick as int,
            };
            final(state)@ == saved(
                with_attack(
                    old(state)@,
                    new_attack(
                        attack_id@,
                        order,
                        connection.transfer,
                        connection.path@,
                        now as int,
                    ),
                ),
                now as int,
            )
        }),
        rate == clamped(send_per_tick as int, 1, 250),
{
    let rate: i64 = sanitize_send_per_tick(send_per_tick);
    let attack = Attack {
        id: attack_id.to_owned(),
        owner_id: player_id.to_owned(),
        mode: connection.mode().to_owned(),
        from_node_id: from_node_id.to_owned(),
        to_node_id: to_node_id.to_owned(),
        path: copy_path(&connection.path),
        send_per_tick: rate,
        created_at: now,
    };
    state.attacks.insert(attack_id.to_owned(), attack);
    state.mark_saved(now);
    rate
}

/// What came of a request to connect two nodes: a connection that was there is taken
/// away, else one is made.
pub enum Toggle {
    Removed { attack_id: String },
    Made { attack_id: String, send_per_tick: i64 },
}

/// What became of the state, and what is answered, when a connection was worked out
/// with the result `found`.
pub open spec fn connected(
    state: StateView,
    after: StateView,
    order: Order,
    found: Result<Connection, Failure>,
    r: Result<Toggle, Failure>,
    now: int,
) -> bool {
    match found {
        Err(failure) => r is Err && r->Err_0@ == failure@ && after == state,
        Ok(connection) => match r {
            Ok(Toggle::Made { attack_id, send_per_tick }) => {
                &&& is_random_id(attack_id@, "attack"@)
                &&& send_per_tick == clamped(order.rate, 1, 250)
                &&& after == saved(
                    with_attack(
                        state,
                        new_attack(
                            attack_id@,
                            order,
                            connection.transfer,
                            connection.path@,
                            now,
                        ),
                    ),
                    now,
                )
            },
            _ => false,
        },
    }
}

/// What becomes of the state and the road map when a player asks for a connection.
pub open spec fn toggled(
    state: StateView,
    after: StateView,
    repo: RepoView,
    next: RepoView,
    order: Order,
    r: Result<Toggle, Failure>,
    plus: spec_fn(u64, u64) -> u64,
    distance: spec_fn(Coord, Coord) -> u64,
    thin: spec_fn(Seq<Coord>) -> Seq<Coord>,
    now: int,
) -> bool {
    match connection_of(state, order.player, order.from, order.to) {
        Some(id) => {
            &&& r is Ok && r->Ok_0 is Removed && r->Ok_0->Removed_attack_id@ == id
            &&& after == saved(attack_removed(state, id), now)
            &&& next == repo
        },
        None => exists|found: Result<Connection, Failure>|
            resolved(
                state,
                repo,
                next,
                order.player,
                order.from,
                order.to,
                found,
                plus,
                distance,
                thin,
            ) && #[trigger] connected(state, after, order, found, r, now),
    }
}

/// What a request to connect two nodes gives.
pub open spec fn toggle_outcome(
    state: StateView,
    after: StateView,
    repo: RepoView,
    next: RepoView,
    token: Seq<char>,
    from: Seq<char>,
    to: Seq<char>,
    send_per_tick: int,
    r: Result<Toggle, Failure>,
    plus: spec_fn(u64, u64) -> u64,
    distance: spec_fn(Coord, Coord) -> u64,
    thin: spec_fn(Seq<Coord>) -> Seq<Coord>,
    now: int,
) -> bool {
    match session_refusal(state, token, now) {
        Some(refusal) => {
            &&& r is Err && r->Err_0@ == FailureView::Refused(refusal)
            &&& after == state && next == repo
        },
        None => toggled(
            state,
            after,
            repo,
            next,
            Order {
                player: state.sessions[token].player_id,
                from,
                to,
                rate: send_per_tick,
            },
            r,
            plus,
            distance,
            thin,
            now,
        ),
    }
}

/// Connects two nodes, or takes their connection away.
pub fn attack_node_request<
    S: Fn(u64, u64) -> u64,
    F: Fn(Coord, Coord) -> u64,
    P: Fn(Vec<Coord>) -> Vec<Coord>,
>(
    state: &mut GameState,
    repo: &mut NodeRepo,
    token: &str,
    from_node_id: &str,
    to_node_id: &str,
    send_per_tick: i64,
    now: i64,
    sum: &S,
    distance: &F,
    thin: &P,
) -> (r: Result<Toggle, Failure>)
    requires
        adds(*sum),
        grows(plus(*sum)),
        measures(*distance),
        draws(*thin),
        mapped(old(repo)@),
    ensures
        toggle_outcome(
            old(state)@,
            final(state)@,
            old(repo)@,
            final(repo)@,
            token@,
            from_node_id@,
            to_node_id@,
            send_per_tick as int,
            r,
            plus(*sum),
            metric(*distance),
            drawing(*thin),
            now as int,
        ),
        mapped(final(repo)@),
{
    let ghost before = state@;
    let session = match require_session(state, token, now) {
        Ok(session) => session,
        Err(refusal) => {
            return Err(Failure::Refused(refusal));
        },
    };
    let player_id = session.player_id.as_str();
    let ghost order = Order {
        player: player_id@,
        from: from_node_id@,
        to: to_node_id@,
        rate: send_per_tick as int,
    };
    if let Some(i) = find_connection(state, player_id, from_node_id, to_node_id) {
        let attack_id = state.attacks.key_at(i).clone();
        state.attacks.remove(attack_id.as_str());
        state.mark_saved(now);
        return Ok(Toggle::Removed { attack_id });
    }
    let found = resolve_connection(
        state,
        repo,
        player_id,
        from_node_id,
        to_node_id,
        sum,
        distance,
        thin,
    );
    let ghost outcome = found;
    match found {
        Err(failure) => {
            let r: Result<Toggle, Failure> = Err(failure);
            proof {
                assert(connected(before, state@, order, outcome, r, now as int));
            }
            r
        },
        Ok(connection) => {
            let attack_id = random_id("attack");
            let rate: i64 = connect(
                state,
                attack_id.as_str(),
                player_id,
                from_node_id,
                to_node_id,
                &connection,
                send_per_tick,
                now,
            );
            let r: Result<Toggle, Failure> = Ok(Toggle::Made { attack_id, send_per_tick: rate });
            proof {
                assert(connected(before, state@, order, outcome, r, now as int));
            }
            r
        },
    }
}

/// The state after the rate of a connection was set.
pub open spec fn rate_set(state: StateView, id: Seq<char>, rate: int, now: int) -> StateView {
    saved(
        StateView {
            attacks: state.attacks.insert(
                id,
                AttackView { send_per_tick: rate, ..state.attacks[id] },
            ),
            ..state
        },
        now,
    )
}

/// What a request to set the rate of a connection gives.
pub open spec fn rate_outcome(
    state: StateView,
    after: StateView,
    token: Seq<char>,
    from: Seq<char>,
    to: Seq<char>,
    send_per_tick: int,
    now: int,
    r: Result<i64, Refusal>,
) -> bool {
    let rate = clamped(send_per_tick, 1, 250);
    match session_refusal(state, token, now) {
        Some(refusal) => r == Err::<i64, Refusal>(refusal) && after == state,
        None => match connection_of(state, state.sessions[token].player_id, from, to) {
            None => r == Err::<i64, Refusal>(Refusal::ConnectionMissing) && after == state,
            Some(id) => r is Ok && r->Ok_0 == rate && after == rate_set(state, id, rate, now),
        },
    }
}

/// Sets how much goes through a connection per tick.
pub fn connection_rate_request(
    state: &mut GameState,
    token: &str,
    from_node_id: &str,
    to_node_id: &str,
    send_per_tick: i64,
    now: i64,
) -> (r: Result<i64, Refusal>)
    ensures
        rate_outcome(
            old(state)@,
            final(state)@,
            token@,
            from_node_id@,
            to_node_id@,
            send_per_tick as int,
            now as int,
            r,
        ),
{
    let session = match require_session(state, token, now) {
        Ok(session) => session,
        Err(refusal) => {
            return Err(refusal);
        },
    };
    let rate: i64 = sanitize_send_per_tick(send_per_tick);
    match find_connection(state, session.player_id.as_str(), from_node_id, to_node_id) {
        Some(i) => {
            let mut attack = state.attacks.value_at(i).clone();
            attack.send_per_tick = rate;
            state.attacks.set_at(i, attack);
            state.mark_saved(now);
            Ok(rate)
        },
        None => Err(Refusal::ConnectionMissing),
    }
}

/// Whether a key leads elsewhere than to the connection of a player between two nodes.
pub open spec fn leads_elsewhere(
    state: StateView,
    player: Seq<char>,
    from: Seq<char>,
    to: Seq<char>,
) -> spec_fn(Seq<char>) -> bool {
    |k: Seq<char>| !is_connection(state.attacks[k], player, from, to)
}

/// The state without the connections of a player between two nodes.
pub open spec fn disconnected(
    state: StateView,
    player: Seq<char>,
    from: Seq<char>,
    to: Seq<char>,
) -> StateView {
    StateView {
        attacks: state.attacks.filter_keys(leads_elsewhere(state, player, from, to)),
        attack_keys: state.attack_keys.filter(leads_elsewhere(state, player, from, to)),
        ..state
    }
}

/// Takes the connections of a player between two nodes away. How many there were.
fn drop_connections(state: &mut GameState, player_id: &str, from: &str, to: &str) -> (removed:
    usize)
    ensures
        final(state)@ == disconnected(old(state)@, player_id@, from@, to@),
        removed == old(state)@.attack_keys.filter(
            leads_to_connection(old(state)@, player_id@, from@, to@),
        ).len(),
{
    let ghost before = state@;
    let ghost keys = state.attacks.keys();
    let ghost stays = leads_elsewhere(before, player_id@, from@, to@);
    let ghost goes = leads_to_connection(before, player_id@, from@, to@);
    let mut keep: Vec<bool> = Vec::new();
    let mut removed: usize = 0;
    let n: usize = state.attacks.len();
    let mut i: usize = 0;
    proof {
        reveal(Seq::filter);
        assert(keys.take(0).filter(goes).len() == 0);
    }
    while i < n
        invariant
            *state == *old(state),
            before == state@,
            stays == leads_elsewhere(before, player_id@, from@, to@),
            goes == leads_to_connection(before, player_id@, from@, to@),
            state.attacks.coherent(),
            keys == state.attacks.keys(),
            n == keys.len(),
            i <= n,
            keep.len() == i,
            removed <= i,
            forall|j: int| 0 <= j < i ==> keep[j] == #[trigger] stays(keys[j]),
            removed == keys.take(i as int).filter(goes).len(),
        decreases n - i,
    {
        proof {
            reveal(Seq::filter);
            assert(keys.take(i + 1).drop_last() =~= keys.take(i as int));
            assert(keys.take(i + 1).last() == keys[i as int]);
        }
        let gone: bool = is_connection_of(state.attacks.value_at(i), player_id, from, to);
        if gone {
            removed += 1;
        }
        keep.push(!gone);
        i += 1;
    }
    state.attacks.retain(&keep, Ghost(stays));
    proof {
        assert(keys.take(n as int) =~= keys);
    }
    removed
}

/// What a request to take a connection away gives.
pub open spec fn removal_outcome(
    state: StateView,
    after: StateView,
    token: Seq<char>,
    from: Seq<char>,
    to: Seq<char>,
    now: int,
    r: Result<usize, Refusal>,
) -> bool {
    let player = state.sessions[token].player_id;
    let found = state.attack_keys.filter(leads_to_connection(state, player, from, to)).len();
    match session_refusal(state, token, now) {
        Some(refusal) => r == Err::<usize, Refusal>(refusal) && after == state,
        None => if found == 0 {
            r == Err::<usize, Refusal>(Refusal::ConnectionMissing) && after == state
        } else {
            &&& r is Ok && r->Ok_0 == found
            &&& after == saved(disconnected(state, player, from, to), now)
        },
    }
}

/// Takes a connection away. How many there were.
pub fn connection_remove_request(
    state: &mut GameState,
    token: &str,
    from_node_id: &str,
    to_node_id: &str,
    now: i64,
) -> (r: Result<usize, Refusal>)
    ensures
        removal_outcome(
            old(state)@,
            final(state)@,
            token@,
            from_node_id@,
            to_node_id@,
            now as int,
            r,
        ),
{
    let session = match require_session(state, token, now) {
        Ok(session) => session,
        Err(refusal) => {
            return Err(refusal);
        },
    };
    let player_id = session.player_id.as_str();
    if find_connection(state, player_id, from_node_id, to_node_id).is_none() {
        proof {
            let keys = state@.attack_keys;
            let pred = leads_to_connection(state@, player_id@, from_node_id@, to_node_id@);
            lemma_first_key_found(keys, pred);
            if keys.filter(pred).len() > 0 {
                lemma_filter_source(keys, pred, 0);
            }
        }
        return Err(Refusal::ConnectionMissing);
    }
    let ghost before = state@;
    let removed: usize = drop_connections(state, player_id, from_node_id, to_node_id);
    state.mark_saved(now);
    proof {
        let keys = before.attack_keys;
        let pred = leads_to_connection(before, player_id@, from_node_id@, to_node_id@);
        lemma_first_key_found(keys, pred);
        let k = first_key(keys, pred)->0;
        broadcast use vstd::seq_lib::group_filter_ensures;

        assert(keys.filter(pred).contains(k));
    }
    Ok(removed)
}

/// Why neighbours are not shown, if so.
pub open spec fn candidates_refusal(
    state: StateView,
    player: Seq<char>,
    from: Seq<char>,
    candidates: int,
) -> Option<Refusal> {
    if candidates > MAX_CANDIDATES {
        Some(Refusal::TooManyCandidates)
    } else if !state.nodes.contains_key(from) {
        Some(Refusal::InvalidNodes)
    } else if state.nodes[from].owner != Some(player) {
        Some(Refusal::SourceNotOwned)
    } else {
        None
    }
}

/// Checks a request for the neighbours of a node.
pub fn check_candidates(
    state: &GameState,
    player_id: &str,
    from_node_id: &str,
    candidates: usize,
) -> (r: Option<Refusal>)
    ensures
        r == candidates_refusal(state@, player_id@, from_node_id@, candidates as int),
{
    if candidates > MAX_CANDIDATES {
        return Some(Refusal::TooManyCandidates);
    }
    match state.nodes.get(from_node_id) {
        Some(source) => if source.owned_by(player_id) {
            None
        } else {
            Some(Refusal::SourceNotOwned)
        },
        None => Some(Refusal::InvalidNodes),
    }
}

/// Whether a neighbour is shown: it is another node, and one of the candidates where
/// any are named.
pub open spec fn asked_for(from: Seq<char>, candidates: Seq<Seq<char>>) -> spec_fn(
    Seq<char>,
) -> bool {
    |id: Seq<char>| id != from && (candidates.len() == 0 || candidates.contains(id))
}

fn keep_asked_for(ids: &Vec<String>, from: &str, candidates: &Vec<String>) -> (r: Vec<String>)
    ensures
        texts(r@) == texts(ids@).filter(asked_for(from@, texts(candidates@))),
{
    let ghost all = texts(ids@);
    let ghost pred = asked_for(from@, texts(candidates@));
    let mut out: Vec<String> = Vec::new();
    let mut i: usize = 0;
    proof {
        reveal(Seq::filter);
        assert(texts(out@) =~= all.take(0).filter(pred));
        assert(texts(candidates@).len() == candidates@.len());
    }
    while i < ids.len()
        invariant
            all == texts(ids@),
            pred == asked_for(from@, texts(candidates@)),
            texts(candidates@).len() == candidates@.len(),
            i <= ids.len(),
            texts(out@) == all.take(i as int).filter(pred),
        decreases ids.len() - i,
    {
        proof {
            reveal(Seq::filter);
            assert(all.take(i + 1).drop_last() =~= all.take(i as int));
            assert(all.take(i + 1).last() == all[i as int]);
        }
        let id = ids[i].as_str();
        if !same_text(id, from) && (candidates.len() == 0 || has_text(candidates, id)) {
            let ghost before = out@;
            out.push(id.to_owned());
            proof {
                assert(texts(out@) =~= texts(before).push(all[i as int]));
            }
        }
        i += 1;
    }
    proof {
        assert(all.take(i as int) =~= all);
    }
    out
}

/// What showing the neighbours of a node gives, where `targets` is what looking them
/// up gave.
pub open spec fn neighbors_shown(
    state: StateView,
    indexes: CachesView,
    after: CachesView,
    next: RepoView,
    player: Seq<char>,
    from: Seq<char>,
    candidates: Seq<Seq<char>>,
    targets: Result<Vec<String>, Refusal>,
    r: Result<Vec<NodeFeature>, Refusal>,
    distance: spec_fn(Coord, Coord) -> u64,
) -> bool {
    match targets {
        Err(refusal) => {
            &&& r == Err::<Vec<NodeFeature>, Refusal>(refusal)
            &&& after == indexes
        },
        Ok(ids) => {
            &&& after == membership_ensured(indexes, state, next, distance)
            &&& r is Ok
            &&& feature_views(r->Ok_0@) == nodes_seen(
                state,
                after,
                next,
                texts(ids@).filter(asked_for(from, candidates)),
                Some(player),
            )
        },
    }
}

/// How a request for the neighbours of a node ends.
pub open spec fn neighbors_request_outcome(
    state: StateView,
    caches: CachesView,
    after: CachesView,
    repo: RepoView,
    next: RepoView,
    token: Seq<char>,
    from: Seq<char>,
    candidates: Seq<Seq<char>>,
    r: Result<Vec<NodeFeature>, Refusal>,
    now: int,
    plus: spec_fn(u64, u64) -> u64,
    distance: spec_fn(Coord, Coord) -> u64,
) -> bool {
    let player = state.sessions[token].player_id;
    match session_refusal(state, token, now) {
        Some(refusal) => {
            &&& r == Err::<Vec<NodeFeature>, Refusal>(refusal)
            &&& after == caches && next == repo
        },
        None => match candidates_refusal(state, player, from, candidates.len() as int) {
            Some(refusal) => {
                &&& r == Err::<Vec<NodeFeature>, Refusal>(refusal)
                &&& after == caches && next == repo
            },
            None => exists|targets: Result<Vec<String>, Refusal>|
                neighbors_outcome(repo, next, from, targets, plus) && #[trigger] neighbors_shown(
                    state,
                    caches,
                    after,
                    next,
                    player,
                    from,
                    candidates,
                    targets,
                    r,
                    distance,
                ),
        },
    }
}

/// The neighbours of a node of the player: those among the candidates, or all where
/// no candidates are named.
pub fn connectable_nodes_request<S: Fn(u64, u64) -> u64, F: Fn(Coord, Coord) -> u64>(
    state: &GameState,
    caches: &mut Caches,
    repo: &mut NodeRepo,
    token: &str,
    from_node_id: &str,
    candidate_node_ids: &Vec<String>,
    now: i64,
    sum: &S,
    distance: &F,
) -> (r: Result<Vec<NodeFeature>, Refusal>)
    requires
        adds(*sum),
        grows(plus(*sum)),
        measures(*distance),
        mapped(old(repo)@),
    ensures
        neighbors_request_outcome(
            state@,
            old(caches)@,
            final(caches)@,
            old(repo)@,
            final(repo)@,
            token@,
            from_node_id@,
            texts(candidate_node_ids@),
            r,
            now as int,
            plus(*sum),
            metric(*distance),
        ),
        mapped(final(repo)@),
{
    let ghost indexes = caches@;
    let ghost candidates = texts(candidate_node_ids@);
    proof {
        assert(candidates.len() == candidate_node_ids@.len());
    }
    let session = match require_session(state, token, now) {
        Ok(session) => session,
        Err(refusal) => {
            return Err(refusal);
        },
    };
    let player_id = session.player_id.as_str();
    let count: usize = candidate_node_ids.len();
    if let Some(refusal) = check_candidates(state, player_id, from_node_id, count) {
        return Err(refusal);
    }
    let targets = immediate_neighbor_targets(repo, from_node_id, sum);
    let r: Result<Vec<NodeFeature>, Refusal> = match &targets {
        Err(refusal) => Err(*refusal),
        Ok(ids) => {
            ensure_city_membership(state, caches, repo, distance);
            let shown = keep_asked_for(ids, from_node_id, candidate_node_ids);
            Ok(node_features(state, caches, repo, &shown, Some(player_id)))
        },
    };
    proof {
        assert(neighbors_shown(
            state@,
            indexes,
            caches@,
            repo@,
            player_id@,
            from_node_id@,
            candidates,
            targets,
            r,
            metric(*distance),
        ));
    }
    r
}

/// How a request ends for what connecting two nodes would give.
pub open spec fn preview_outcome(
    state: StateView,
    repo: RepoView,
    next: RepoView,
    token: Seq<char>,
    from: Seq<char>,
    to: Seq<char>,
    r: Result<Connection, Failure>,
    now: int,
    plus: spec_fn(u64, u64) -> u64,
    distance: spec_fn(Coord, Coord) -> u64,
    thin: spec_fn(Seq<Coord>) -> Seq<Coord>,
) -> bool {
    match session_refusal(state, token, now) {
        Some(refusal) => {
            &&& r is Err && r->Err_0@ == FailureView::Refused(refusal)
            &&& next == repo
        },
        None => resolved(
            state,
            repo,
            next,
            state.sessions[token].player_id,
            from,
            to,
            r,
            plus,
            distance,
            thin,
        ),
    }
}

/// What connecting two nodes would give.
pub fn connection_preview_request<
    S: Fn(u64, u64) -> u64,
    F: Fn(Coord, Coord) -> u64,
    P: Fn(Vec<Coord>) -> Vec<Coord>,
>(
    state: &GameState,
    repo: &mut NodeRepo,
    token: &str,
    from_node_id: &str,
    to_node_id: &str,
    now: i64,
    sum: &S,
    distance: &F,
    thin: &P,
) -> (r: Result<Connection, Failure>)
    requires
        adds(*sum),
        grows(plus(*sum)),
        measures(*distance),
        draws(*thin),
        mapped(old(repo)@),
    ensures
        preview_outcome(
            state@,
            old(repo)@,
            final(repo)@,
            token@,
            from_node_id@,
            to_node_id@,
            r,
            now as int,
            plus(*sum),
            metric(*distance),
            drawing(*thin),
        ),
        mapped(final(repo)@),
{
    match require_session(state, token, now) {
        Ok(session) => resolve_connection(
            state,
            repo,
            session.player_id.as_str(),
            from_node_id,
            to_node_id,
            sum,
            distance,
            thin,
        ),
        Err(refusal) => Err(Failure::Refused(refusal)),
    }
}

/// Nobody has two connections from one node to another.
pub open spec fn connections_single(state: StateView) -> bool {
    forall|a: Seq<char>, b: Seq<char>|
        a != b && #[trigger] state.attacks.contains_key(a) && #[trigger] state.attacks.contains_key(
            b,
        ) ==> !is_connection(
            state.attacks[a],
            state.attacks[b].owner,
            state.attacks[b].from,
            state.attacks[b].to,
        )
}

/// A connection that is made where there was none leaves every connection single.
pub proof fn law_connections_stay_single(state: StateView, attack: AttackView)
    requires
        walks(state.attack_keys, state.attacks),
        connections_single(state),
        connection_of(state, attack.owner, attack.from, attack.to) is None,
    ensures
        connections_single(with_attack(state, attack)),
        connections_single(
            StateView { attacks: state.attacks.remove(attack.id), ..state },
        ),
{
    let after = with_attack(state, attack);
    let pred = leads_to_connection(state, attack.owner, attack.from, attack.to);
    lemma_first_key_found(state.attack_keys, pred);
    assert forall|a: Seq<char>, b: Seq<char>|
        a != b && #[trigger] after.attacks.contains_key(a) && #[trigger] after.attacks.contains_key(
            b,
        ) implies !is_connection(
        after.attacks[a],
        after.attacks[b].owner,
        after.attacks[b].from,
        after.attacks[b].to,
    ) by {
        if a == attack.id {
            assert(state.attacks.contains_key(b));
            assert(state.attack_keys.contains(b));
            assert(!pred(b));
        } else if b == attack.id {
            assert(state.attacks.contains_key(a));
            assert(state.attack_keys.contains(a));
            assert(!pred(a));
        } else {
            assert(state.attacks.contains_key(a) && state.attacks.contains_key(b));
        }
    }
    let less = StateView { attacks: state.attacks.remove(attack.id), ..state };
    assert forall|a: Seq<char>, b: Seq<char>|
        a != b && #[trigger] less.attacks.contains_key(a) && #[trigger] less.attacks.contains_key(
            b,
        ) implies !is_connection(
        less.attacks[a],
        less.attacks[b].owner,
        less.attacks[b].from,
        less.attacks[b].to,
    ) by {
        assert(state.attacks.contains_key(a) && state.attacks.contains_key(b));
    }
}

/// A request for a connection that was just made takes it away again, and nothing is
/// left of it.
pub proof fn law_second_request_undoes_the_first(state: StateView, attack: AttackView)
    requires
        walks(state.attack_keys, state.attacks),
        !state.attacks.contains_key(attack.id),
        connection_of(state, attack.owner, attack.from, attack.to) is None,
    ensures
        connection_of(
            with_attack(state, attack),
            attack.owner,
            attack.from,
            attack.to,
        ) == Some(attack.id),
        attack_removed(with_attack(state, attack), attack.id) == state,
{
    let after = with_attack(state, attack);
    let keys = state.attack_keys;
    let before_pred = leads_to_connection(state, attack.owner, attack.from, attack.to);
    let pred = leads_to_connection(after, attack.owner, attack.from, attack.to);
    lemma_first_key_found(keys, before_pred);
    assert(after.attack_keys == keys.push(attack.id));
    assert forall|j: int| 0 <= j < keys.len() implies !pred(#[trigger] after.attack_keys[j]) by {
        assert(keys.contains(keys[j]));
        assert(!before_pred(keys[j]));
    }
    lemma_first_key(after.attack_keys, pred, keys.len() as int);
    let id = attack.id;
    let others = other_than(id);
    assert(keys.push(attack.id).filter(others) == keys) by {
        reveal(Seq::filter);
        assert(keys.push(attack.id).drop_last() =~= keys);
        lemma_filter_all(keys, others);
    }
    let less = attack_removed(after, id);
    assert(less.attacks =~= state.attacks);
    assert(less =~= state);
}

/// After a player took the connections between two nodes away there is none, and all
/// others are as before.
pub proof fn law_disconnected_means_gone(
    state: StateView,
    player: Seq<char>,
    from: Seq<char>,
    to: Seq<char>,
    other: Seq<char>,
)
    requires
        walks(state.attack_keys, state.attacks),
    ensures
        connection_of(disconnected(state, player, from, to), player, from, to) is None,
        state.attacks.contains_key(other) && !is_connection(
            state.attacks[other],
            player,
            from,
            to,
        ) ==> disconnected(state, player, from, to).attacks.contains_key(other) && disconnected(
            state,
            player,
            from,
            to,
        ).attacks[other] == state.attacks[other],
{
    let after = disconnected(state, player, from, to);
    let stays = leads_elsewhere(state, player, from, to);
    let pred = leads_to_connection(after, player, from, to);
    lemma_first_key_found(after.attack_keys, pred);
    if let Some(k) = first_key(after.attack_keys, pred) {
        let i = after.attack_keys.index_of(k);
        lemma_filter_source(state.attack_keys, stays, i);
        assert(state.attacks.contains_key(k));
        assert(after.attacks.contains_key(k));
    }
}

/// A connection is only ever made from a player's own node to a node next to it, and
/// one that is next to it is never refused as not adjacent.
pub proof fn law_connections_join_neighbors(
    state: StateView,
    repo: RepoView,
    next: RepoView,
    player: Seq<char>,
    from: Seq<char>,
    to: Seq<char>,
    r: Result<Connection, Failure>,
    plus: spec_fn(u64, u64) -> u64,
    distance: spec_fn(Coord, Coord) -> u64,
    thin: spec_fn(Seq<Coord>) -> Seq<Coord>,
)
    requires
        kept_neighbors_right(repo, plus),
        resolved(state, repo, next, player, from, to, r, plus, distance, thin),
    ensures
        kept_neighbors_right(next, plus),
        r is Ok ==> adjacent(repo, from, to) && state.nodes[from].owner == Some(player)
            && r->Ok_0.transfer == (state.nodes[to].owner == Some(player)) && r->Ok_0.path@.len()
            >= 2,
        r is Err && r->Err_0@ == FailureView::Refused(Refusal::NotAdjacent) ==> !adjacent(
            repo,
            from,
            to,
        ),
{
    if connect_refusal(state, player, from, to) is None {
        let (mid, targets, path) = choose|
            mid: RepoView,
            targets: Result<Vec<String>, Refusal>,
            path: Result<Vec<Coord>, Failure>,
        | #[trigger]
            resolved_by(
                state,
                repo,
                next,
                player,
                from,
                to,
                r,
                plus,
                distance,
                thin,
                mid,
                targets,
                path,
            );
        law_neighbors_are_adjacent(repo, mid, from, targets, plus, to);
        if targets is Ok && texts(targets->Ok_0@).contains(to) {
            lemma_neighbors_stay_right(mid, next, plus);
        }
    }
}

/// Whether a player has a connection from one node to another.
pub open spec fn has_connection(
    state: StateView,
    player: Seq<char>,
    from: Seq<char>,
    to: Seq<char>,
) -> bool {
    exists|id: Seq<char>| #[trigger]
        state.attacks.contains_key(id) && state.attacks[id].owner == player
            && state.attacks[id].from == from && state.attacks[id].to == to
}

/// The first connection is one of the player between the two nodes, and there is none only
/// if the player has none.
pub proof fn lemma_connection_of(
    state: StateView,
    player: Seq<char>,
    from: Seq<char>,
    to: Seq<char>,
)
    requires
        walks(state.attack_keys, state.attacks),
    ensures
        connection_of(state, player, from, to) is Some <==> has_connection(
            state,
            player,
            from,
            to,
        ),
        connection_of(state, player, from, to) is Some ==> {
            let id = connection_of(state, player, from, to)->0;
            &&& state.attacks.contains_key(id)
            &&& state.attacks[id].owner == player
            &&& state.attacks[id].from == from
            &&& state.attacks[id].to == to
        },
{
    let keys = state.attack_keys;
    let pred = leads_to_connection(state, player, from, to);
    lemma_first_key_found(keys, pred);
    if has_connection(state, player, from, to) {
        let id = choose|id: Seq<char>| #[trigger]
            state.attacks.contains_key(id) && state.attacks[id].owner == player
                && state.attacks[id].from == from && state.attacks[id].to == to;
        assert(keys.contains(id));
        assert(pred(keys[keys.index_of(id)]));
    }
    if let Some(id) = connection_of(state, player, from, to) {
        assert(keys.contains(id) && pred(id));
        assert(state.attacks.contains_key(id));
    }
}

/// A rate request that succeeds answers the rate asked for, brought between 1 and 250, and
/// then one connection of the player between the two nodes has just that rate, whatever it
/// was before. Nothing else of it changes, nor of any other attack, nor of the game.
pub proof fn law_a_rate_is_set_as_asked_for(
    state: StateView,
    after: StateView,
    token: Seq<char>,
    from: Seq<char>,
    to: Seq<char>,
    send_per_tick: int,
    now: int,
    r: Result<i64, Refusal>,
) -> (id: Seq<char>)
    requires
        walks(state.attack_keys, state.attacks),
        rate_outcome(state, after, token, from, to, send_per_tick, now, r),
    ensures
        r is Err ==> after == state,
        r is Ok ==> {
            let player = state.sessions[token].player_id;
            let rate = r->Ok_0 as int;
            &&& 1 <= send_per_tick <= 250 ==> rate == send_per_tick
            &&& send_per_tick < 1 ==> rate == 1
            &&& send_per_tick > 250 ==> rate == 250
            &&& state.attacks.contains_key(id) && state.attacks[id].owner == player
            &&& state.attacks[id].from == from && state.attacks[id].to == to
            &&& after.attacks.contains_key(id) && after.attacks[id].send_per_tick == rate
            &&& after.attacks[id] == (AttackView {
                send_per_tick: after.attacks[id].send_per_tick,
                ..state.attacks[id]
            })
            &&& after.attacks.dom() == state.attacks.dom()
            &&& forall|other: Seq<char>| #![trigger after.attacks[other]]
                other != id ==> after.attacks[other] == state.attacks[other]
            &&& after.saved_at == now && after.last_persisted_at == now
            &&& after == (StateView {
                attacks: after.attacks,
                saved_at: after.saved_at,
                last_persisted_at: after.last_persisted_at,
                ..state
            })
        },
{
    let player = state.sessions[token].player_id;
    lemma_connection_of(state, player, from, to);
    let id = connection_of(state, player, from, to)->0;
    if r is Ok {
        assert(after.attacks.dom() =~= state.attacks.dom());
    }
    id
}

/// A rate can be set by whoever has a good session and the connection, and else the reason
/// is told.
pub proof fn law_who_may_set_a_rate(
    state: StateView,
    after: StateView,
    token: Seq<char>,
    from: Seq<char>,
    to: Seq<char>,
    send_per_tick: int,
    now: int,
    r: Result<i64, Refusal>,
)
    requires
        walks(state.attack_keys, state.attacks),
        rate_outcome(state, after, token, from, to, send_per_tick, now, r),
    ensures
        ({
            let player = state.sessions[token].player_id;
            let known = session_refusal(state, token, now) is None;
            &&& known && has_connection(state, player, from, to) <==> r is Ok
            &&& known && !has_connection(state, player, from, to) ==> r == Err::<i64, Refusal>(
                Refusal::ConnectionMissing,
            )
        }),
{
    lemma_connection_of(state, state.sessions[token].player_id, from, to);
}

/// Where a player has a connection between two nodes, asking for one takes one of them away,
/// and nothing else of the game changes.
pub proof fn law_a_request_takes_a_connection_away(
    state: StateView,
    after: StateView,
    repo: RepoView,
    next: RepoView,
    token: Seq<char>,
    from: Seq<char>,
    to: Seq<char>,
    send_per_tick: int,
    r: Result<Toggle, Failure>,
    plus: spec_fn(u64, u64) -> u64,
    distance: spec_fn(Coord, Coord) -> u64,
    thin: spec_fn(Seq<Coord>) -> Seq<Coord>,
    now: int,
)
    requires
        walks(state.attack_keys, state.attacks),
        session_refusal(state, token, now) is None,
        has_connection(state, state.sessions[token].player_id, from, to),
        toggle_outcome(
            state,
            after,
            repo,
            next,
            token,
            from,
            to,
            send_per_tick,
            r,
            plus,
            distance,
            thin,
            now,
        ),
    ensures
        r is Ok && r->Ok_0 is Removed,
        ({
            let id = r->Ok_0->Removed_attack_id@;
            &&& state.attacks.contains_key(id)
            &&& state.attacks[id].owner == state.sessions[token].player_id
            &&& state.attacks[id].from == from && state.attacks[id].to == to
            &&& after.attacks == state.attacks.remove(id)
            &&& after.saved_at == now && after.last_persisted_at == now
            &&& after == (StateView {
                attacks: after.attacks,
                attack_keys: after.attack_keys,
                saved_at: after.saved_at,
                last_persisted_at: after.last_persisted_at,
                ..state
            })
        }),
{
    lemma_connection_of(state, state.sessions[token].player_id, from, to);
}

/// A connection that is made is kept under the id that is answered, between the two nodes,
/// for the player, with the rate that is answered: the rate asked for, brought between 1
/// and 250. It is a transfer exactly if the target is the player's own. The player owns the
/// source, and nothing else of the game changes.
pub proof fn law_a_connection_is_made_as_asked_for(
    state: StateView,
    after: StateView,
    repo: RepoView,
    next: RepoView,
    token: Seq<char>,
    from: Seq<char>,
    to: Seq<char>,
    send_per_tick: int,
    r: Result<Toggle, Failure>,
    plus: spec_fn(u64, u64) -> u64,
    distance: spec_fn(Coord, Coord) -> u64,
    thin: spec_fn(Seq<Coord>) -> Seq<Coord>,
    now: int,
)
    requires
        walks(state.attack_keys, state.attacks),
        toggle_outcome(
            state,
            after,
            repo,
            next,
            token,
            from,
            to,
            send_per_tick,
            r,
            plus,
            distance,
            thin,
            now,
        ),
        r is Ok,
        r->Ok_0 is Made,
    ensures
        ({
            let player = state.sessions[token].player_id;
            let id = r->Ok_0->Made_attack_id@;
            let rate = r->Ok_0->send_per_tick as int;
            let made = after.attacks[id];
            &&& 1 <= send_per_tick <= 250 ==> rate == send_per_tick
            &&& send_per_tick < 1 ==> rate == 1
            &&& send_per_tick > 250 ==> rate == 250
            &&& after.attacks.contains_key(id)
            &&& made.id == id && made.owner == player && made.from == from && made.to == to
            &&& made.send_per_tick == rate
            &&& made.created_at == now
            &&& made.path.len() >= 2
            &&& made.mode == (if state.nodes[to].owner == Some(player) {
                "transfer"@
            } else {
                "attack"@
            })
            &&& !has_connection(state, player, from, to)
            &&& from != to && state.nodes.contains_key(from) && state.nodes.contains_key(to)
            &&& state.nodes[from].owner == Some(player)
            &&& after.attacks == state.attacks.insert(id, made)
            &&& after.saved_at == now && after.last_persisted_at == now
            &&& after == (StateView {
                attacks: after.attacks,
                attack_keys: after.attack_keys,
                saved_at: after.saved_at,
                last_persisted_at: after.last_persisted_at,
                ..state
            })
        }),
{
    lemma_connection_of(state, state.sessions[token].player_id, from, to);
}

/// A refused request for a connection changes nothing of the game, and the reason is the
/// first that holds: the two nodes are the same, one is not in the world, or the source is
/// not the player's.
pub proof fn law_why_nodes_are_not_connected(
    state: StateView,
    after: StateView,
    repo: RepoView,
    next: RepoView,
    token: Seq<char>,
    from: Seq<char>,
    to: Seq<char>,
    send_per_tick: int,
    r: Result<Toggle, Failure>,
    plus: spec_fn(u64, u64) -> u64,
    distance: spec_fn(Coord, Coord) -> u64,
    thin: spec_fn(Seq<Coord>) -> Seq<Coord>,
    now: int,
)
    requires
        walks(state.attack_keys, state.attacks),
        session_refusal(state, token, now) is None,
        !has_connection(state, state.sessions[token].player_id, from, to),
        toggle_outcome(
            state,
            after,
            repo,
            next,
            token,
            from,
            to,
            send_per_tick,
            r,
            plus,
            distance,
            thin,
            now,
        ),
    ensures
        r is Err ==> after == state,
        from == to ==> r is Err && r->Err_0@ == FailureView::Refused(Refusal::SameNode),
        from != to && !(state.nodes.contains_key(from) && state.nodes.contains_key(to)) ==> r is Err
            && r->Err_0@ == FailureView::Refused(Refusal::InvalidNodes),
        from != to && state.nodes.contains_key(from) && state.nodes.contains_key(to)
            && state.nodes[from].owner != Some(state.sessions[token].player_id) ==> r is Err
            && r->Err_0@ == FailureView::Refused(Refusal::SourceNotOwned),
{
    lemma_connection_of(state, state.sessions[token].player_id, from, to);
}

/// Taking a connection away leaves the player none between the two nodes, and all other
/// attacks as they were. It succeeds exactly where the player has one; the number answered is
/// that of the attacks that are gone.
pub proof fn law_a_connection_is_taken_away(
    state: StateView,
    after: StateView,
    token: Seq<char>,
    from: Seq<char>,
    to: Seq<char>,
    now: int,
    r: Result<usize, Refusal>,
    other: Seq<char>,
)
    requires
        walks(state.attack_keys, state.attacks),
        session_refusal(state, token, now) is None,
        removal_outcome(state, after, token, from, to, now, r),
    ensures
        ({
            let player = state.sessions[token].player_id;
            let gone = state.attacks[other].owner == player && state.attacks[other].from == from
                && state.attacks[other].to == to;
            &&& r is Ok <==> has_connection(state, player, from, to)
            &&& r is Err ==> r == Err::<usize, Refusal>(Refusal::ConnectionMissing) && after
                == state
            &&& !has_connection(after, player, from, to)
            &&& after.attacks.contains_key(other) <==> state.attacks.contains_key(other) && !gone
            &&& after.attacks.contains_key(other) ==> after.attacks[other] == state.attacks[other]
            &&& r is Ok ==> after.attack_keys.len() + r->Ok_0 == state.attack_keys.len()
            &&& r is Ok ==> after.saved_at == now && after.last_persisted_at == now
            &&& after == (StateView {
                attacks: after.attacks,
                attack_keys: after.attack_keys,
                saved_at: after.saved_at,
                last_persisted_at: after.last_persisted_at,
                ..state
            })
        }),
{
    let player = state.sessions[token].player_id;
    let keys = state.attack_keys;
    let goes = leads_to_connection(state, player, from, to);
    let stays = leads_elsewhere(state, player, from, to);
    lemma_filter_splits(keys, goes, stays);
    broadcast use vstd::seq_lib::group_filter_ensures;

    if has_connection(state, player, from, to) {
        let id = choose|id: Seq<char>| #[trigger]
            state.attacks.contains_key(id) && state.attacks[id].owner == player
                && state.attacks[id].from == from && state.attacks[id].to == to;
        assert(keys.contains(id) && goes(id));
        assert(keys.filter(goes).contains(id));
    }
    if keys.filter(goes).len() > 0 {
        let id = keys.filter(goes)[0];
        lemma_filter_source(keys, goes, 0);
        assert(state.attacks.contains_key(id));
    }
}

proof fn lemma_filter_splits(
    keys: Seq<Seq<char>>,
    goes: spec_fn(Seq<char>) -> bool,
    stays: spec_fn(Seq<char>) -> bool,
)
    requires
        forall|k: Seq<char>| #[trigger] goes(k) == !stays(k),
    ensures
        keys.filter(goes).len() + keys.filter(stays).len() == keys.len(),
    decreases keys.len(),
{
    reveal(Seq::filter);
    if keys.len() > 0 {
        lemma_filter_splits(keys.drop_last(), goes, stays);
        assert(goes(keys.last()) == !stays(keys.last()));
    }
}

} // verus!
