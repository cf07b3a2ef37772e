//! Which requests wait for the road map to be read anew.
use vstd::prelude::*;

use crate::accounts::{
    check_credentials, credentials_refusal, normalize_username, normalized, require_session,
    session_refusal,
};
use crate::buildings::BuildingType;
use crate::connections::{
    candidates_refusal, check_candidates, check_ends, connect_refusal, connection_of,
    find_connection, has_connection, lemma_connection_of, toggled, Order, Toggle,
};
use crate::errors::Failure;
use crate::geometry::Coord;
use crate::passwords::utf8;
use crate::repo::RepoView;
use crate::requests::stands_for;
use crate::state::{GameState, StateView};
use crate::text::{lowered, trimmed};
use crate::web::{Command, CommandView};

verus! {

/// What has to be done before a request is answered: nothing, reading the road map
/// where it has changed, or bringing the world in line with it as well.
#[derive(Clone, Copy, Debug, PartialEq, Eq, Structural)]
pub enum MapUse {
    Unneeded,
    Fresh,
    Synced,
}

/// What a request needs of the road map. One that is refused, or answered, by what the
/// state holds alone needs nothing of it.
pub open spec fn map_use(state: StateView, command: CommandView, now: int) -> MapUse {
    match command {
        CommandView::Register { username, password, .. } => if credentials_refusal(
            state,
            normalized(username),
            password,
        ) is None {
            MapUse::Synced
        } else {
            MapUse::Unneeded
        },
        CommandView::Build { token, .. } | CommandView::Launch { token, .. } => {
            if session_refusal(state, token, now) is None {
                MapUse::Synced
            } else {
                MapUse::Unneeded
            }
        },
        CommandView::ShowTile { token, .. } => if session_refusal(state, token, now) is None {
            MapUse::Fresh
        } else {
            MapUse::Unneeded
        },
        CommandView::Attack { token, from, to, .. } => {
            let player = state.sessions[token].player_id;
            if session_refusal(state, token, now) is None && connection_of(
                state,
                player,
                from,
                to,
            ) is None && connect_refusal(state, player, from, to) is None {
                MapUse::Fresh
            } else {
                MapUse::Unneeded
            }
        },
        CommandView::Preview { token, from, to } => {
            let player = state.sessions[token].player_id;
            if session_refusal(state, token, now) is None && connect_refusal(
                state,
                player,
                from,
                to,
            ) is None {
                MapUse::Fresh
            } else {
                MapUse::Unneeded
            }
        },
        CommandView::ShowNeighbors { token, from, candidates } => {
            let player = state.sessions[token].player_id;
            if session_refusal(state, token, now) is None && candidates_refusal(
                state,
                player,
                from,
                candidates.len() as int,
            ) is None {
                MapUse::Fresh
            } else {
                MapUse::Unneeded
            }
        },
        _ => MapUse::Unneeded,
    }
}

/// Finds out what a request needs of the road map.
pub fn find_map_use(state: &GameState, command: &Command, now: i64) -> (r: MapUse)
    ensures
        r == map_use(state@, command@, now as int),
{
    match command {
        Command::Register { username, password, .. } => {
            let name = normalize_username(username.as_str());
            match check_credentials(state, name.as_str(), password.as_str()) {
                None => MapUse::Synced,
                Some(_) => MapUse::Unneeded,
            }
        },
        Command::Build { token, .. } | Command::Launch { token, .. } => {
            match require_session(state, token.as_str(), now) {
                Ok(_) => MapUse::Synced,
                Err(_) => MapUse::Unneeded,
            }
        },
        Command::ShowTile { token, .. } => match require_session(state, token.as_str(), now) {
            Ok(_) => MapUse::Fresh,
            Err(_) => MapUse::Unneeded,
        },
        Command::Attack { token, from, to, .. } => {
            match require_session(state, token.as_str(), now) {
                Ok(session) => {
                    let player = session.player_id.as_str();
                    let known = find_connection(state, player, from.as_str(), to.as_str());
                    let refusal = check_ends(state, player, from.as_str(), to.as_str());
                    match (known, refusal) {
                        (None, None) => MapUse::Fresh,
                        _ => MapUse::Unneeded,
                    }
                },
                Err(_) => MapUse::Unneeded,
            }
        },
        Command::Preview { token, from, to } => {
            match require_session(state, token.as_str(), now) {
                Ok(session) => {
                    let player = session.player_id.as_str();
                    match check_ends(state, player, from.as_str(), to.as_str()) {
                        None => MapUse::Fresh,
                        Some(_) => MapUse::Unneeded,
                    }
                },
                Err(_) => MapUse::Unneeded,
            }
        },
        Command::ShowNeighbors { token, from, candidates } => {
            match require_session(state, token.as_str(), now) {
                Ok(session) => {
                    let player = session.player_id.as_str();
                    match check_candidates(state, player, from.as_str(), candidates.len()) {
                        None => MapUse::Fresh,
                        Some(_) => MapUse::Unneeded,
                    }
                },
                Err(_) => MapUse::Unneeded,
            }
        },
        _ => MapUse::Unneeded,
    }
}

/// A connection that is asked for without need of the road map comes out the same
/// whatever the map, and leaves the map as it is.
pub proof fn law_answered_without_map(
    state: StateView,
    after: StateView,
    repo: RepoView,
    next: RepoView,
    other: RepoView,
    token: Seq<char>,
    order: Order,
    rate: i64,
    r: Result<Toggle, Failure>,
    plus: spec_fn(u64, u64) -> u64,
    distance: spec_fn(Coord, Coord) -> u64,
    thin: spec_fn(Seq<Coord>) -> Seq<Coord>,
    now: int,
)
    requires
        session_refusal(state, token, now) is None,
        order.player == state.sessions[token].player_id,
        map_use(
            state,
            (CommandView::Attack { token, from: order.from, to: order.to, rate }),
            now,
        ) is Unneeded,
        toggled(state, after, repo, next, order, r, plus, distance, thin, now),
    ensures
        next == repo,
        toggled(state, after, other, other, order, r, plus, distance, thin, now),
{
}

/// The world has to be in line with the road map for whoever may register under the name and
/// password, and for buildings and missiles of a player whom the token stands for.
pub proof fn law_what_needs_the_world_in_line(
    state: StateView,
    now: int,
    username: Seq<char>,
    password: Seq<char>,
    start: Option<Seq<char>>,
    token: Seq<char>,
    node: Seq<char>,
    building: BuildingType,
    missile: Seq<char>,
    target: Coord,
)
    ensures
        ({
            let name = lowered(trimmed(username));
            let good = exists|player: Seq<char>| #[trigger] stands_for(state, token, now, player);
            let register = map_use(state, CommandView::Register { username, password, start }, now);
            let build = map_use(state, CommandView::Build { token, node, building }, now);
            let launch = map_use(state, CommandView::Launch { token, missile, target }, now);
            &&& register == MapUse::Synced <==> utf8(name).len() >= 3 && utf8(password).len() >= 4
                && !state.usernames.contains_key(name)
            &&& register == MapUse::Synced || register == MapUse::Unneeded
            &&& build == MapUse::Synced <==> good
            &&& build == MapUse::Synced || build == MapUse::Unneeded
            &&& launch == build
        }),
{
    if session_refusal(state, token, now) is None {
        assert(stands_for(state, token, now, state.sessions[token].player_id));
    }
}

/// The road map has to be fresh for a tile, and for a connection between two nodes or the
/// neighbours of a node where nothing else stands against them: the token stands for a
/// player, who owns the first node, and the connection is not there yet.
pub proof fn law_what_needs_a_fresh_map(
    state: StateView,
    now: int,
    token: Seq<char>,
    player: Seq<char>,
    from: Seq<char>,
    to: Seq<char>,
    rate: i64,
    candidates: Seq<Seq<char>>,
    z: i64,
    x: i64,
    y: i64,
)
    requires
        stands_for(state, token, now, player),
        state.coherent(),
    ensures
        ({
            let ends = from != to && state.nodes.contains_key(from) && state.nodes.contains_key(to)
                && state.nodes[from].owner == Some(player);
            let attack = map_use(state, CommandView::Attack { token, from, to, rate }, now);
            let preview = map_use(state, CommandView::Preview { token, from, to }, now);
            let neighbors = map_use(
                state,
                CommandView::ShowNeighbors { token, from, candidates },
                now,
            );
            &&& map_use(state, CommandView::ShowTile { token, z, x, y }, now) == MapUse::Fresh
            &&& attack == MapUse::Fresh <==> ends && !has_connection(state, player, from, to)
            &&& attack == MapUse::Fresh || attack == MapUse::Unneeded
            &&& preview == MapUse::Fresh <==> ends
            &&& preview == MapUse::Fresh || preview == MapUse::Unneeded
            &&& neighbors == MapUse::Fresh <==> candidates.len() <= 20_000
                && state.nodes.contains_key(from) && state.nodes[from].owner == Some(player)
            &&& neighbors == MapUse::Fresh || neighbors == MapUse::Unneeded
        }),
{
    lemma_connection_of(state, player, from, to);
}

/// The token that a request comes with which may need the road map.
pub open spec fn token_of(command: CommandView) -> Seq<char> {
    match command {
        CommandView::ShowTile { token, .. } => token,
        CommandView::Attack { token, .. } => token,
        CommandView::Build { token, .. } => token,
        CommandView::Launch { token, .. } => token,
        CommandView::ShowNeighbors { token, .. } => token,
        CommandView::Preview { token, .. } => token,
        _ => Seq::empty(),
    }
}

/// Nothing else needs the road map, nor does anything that comes with a token that stands for
/// nobody.
pub proof fn law_what_needs_no_map(state: StateView, now: int, command: CommandView)
    ensures
        command is Login || command is ShowGame || command is ShowLeaderboard || command is Logout
            || command is SetRate || command is Disconnect || command is ShowBuildStatus
            || command is SendFile ==> map_use(state, command, now) == MapUse::Unneeded,
        !(command is Register) && (forall|player: Seq<char>| !#[trigger] stands_for(
            state,
            token_of(command),
            now,
            player,
        )) ==> map_use(state, command, now) == MapUse::Unneeded,
{
    let token = token_of(command);
    if session_refusal(state, token, now) is None {
        assert(stands_for(state, token, now, state.sessions[token].player_id));
    }
}

} // verus!
