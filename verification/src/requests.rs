//! What players ask of the server once they are logged in.
use vstd::prelude::*;

use crate::accounts::{
    asking, guest_refusal, optional_session, require_session, session_refusal,
};
use crate::buildings::BuildingType;
use crate::construction::{build_building, build_outcome, BuildReport};
use crate::economy::{ensure_city_membership, membership_ensured, Caches, CachesView, MAX_NODES};
use crate::errors::{Failure, FailureView, Refusal};
use crate::features::{
    all_node_features, attack_features, city_features, city_views, cities_seen, feature_views,
    node_features, nodes_seen, own_nodes_seen, owned_node_features, player_card, shows_attacks,
    shows_player, AttackFeature, CityFeature, NodeFeature, OwnerState, PlayerCard,
};
use crate::geometry::{measures, metric, Bounds, Coord};
use crate::missiles::{launch_missile, launch_outcome, missile_named, Launch, Missile};
use crate::numeric::clamped;
use crate::repo::{NodeRepo, RepoView};
use crate::state::{texts, GameState, StateView};
use crate::text::lowered;
use crate::tiles::{
    box_of, meeting, node_ids_for_tile, places_tiles, tells_meeting, tile_outcome,
};

verus! {

/// What the game shows to a player or a guest.
pub struct GameView {
    pub player: Option<PlayerCard>,
    pub city_features: Vec<CityFeature>,
    pub owned_nodes: Vec<NodeFeature>,
    pub nodes: Vec<NodeFeature>,
    pub attacks: Vec<AttackFeature>,
}

/// `view` shows the game to a player or a guest; the nodes of others only where they
/// are asked for.
pub open spec fn shows_game(
    view: GameView,
    state: StateView,
    caches: CachesView,
    repo: RepoView,
    player: Option<Seq<char>>,
    include_nodes: bool,
) -> bool {
    &&& match (player, view.player) {
        (Some(p), Some(card)) => state.players.contains_key(p) && shows_player(
            card,
            state.players[p],
        ),
        (Some(p), None) => !state.players.contains_key(p),
        (None, card) => card is None,
    }
    &&& city_views(view.city_features@) == cities_seen(state, repo, state.node_keys)
    &&& feature_views(view.owned_nodes@) == own_nodes_seen(state, caches, repo, player)
    &&& if include_nodes {
        feature_views(view.nodes@) == nodes_seen(state, caches, repo, state.node_keys, player)
    } else {
        view.nodes@.len() == 0
    }
    &&& shows_attacks(view.attacks@, state, player)
}

/// What is answered to whoever asks for the game.
pub open spec fn game_outcome(
    state: StateView,
    caches: CachesView,
    after: CachesView,
    r: Result<GameView, Refusal>,
    repo: RepoView,
    token: Option<&str>,
    include_nodes: bool,
    now: int,
    distance: spec_fn(Coord, Coord) -> u64,
) -> bool {
    match guest_refusal(state, token, now) {
        Some(refusal) => {
            &&& r == Err::<GameView, Refusal>(refusal)
            &&& after == caches
        },
        None => {
            &&& after == membership_ensured(caches, state, repo, distance)
            &&& r is Ok
            &&& shows_game(r->Ok_0, state, after, repo, asking(state, token), include_nodes)
            &&& token is Some ==> r->Ok_0.player is Some
        },
    }
}

/// What the game shows to a player, or to a guest who has no token.
pub fn game_state_response<F: Fn(Coord, Coord) -> u64>(
    state: &GameState,
    caches: &mut Caches,
    repo: &NodeRepo,
    token: Option<&str>,
    include_nodes: bool,
    now: i64,
    distance: &F,
) -> (r: Result<GameView, Refusal>)
    requires
        measures(*distance),
    ensures
        game_outcome(
            state@,
            old(caches)@,
            final(caches)@,
            r,
            repo@,
            token,
            include_nodes,
            now as int,
            metric(*distance),
        ),
{
    let session = match optional_session(state, token, now) {
        Ok(session) => session,
        Err(refusal) => {
            return Err(refusal);
        },
    };
    let player_id: Option<&str> = match &session {
        Some(s) => Some(s.player_id.as_str()),
        None => None,
    };
    ensure_city_membership(state, caches, repo, distance);
    let owned_nodes = owned_node_features(state, caches, repo, player_id);
    let nodes: Vec<NodeFeature> = if include_nodes {
        all_node_features(state, caches, repo, player_id)
    } else {
        Vec::new()
    };
    let attacks = attack_features(state, player_id);
    let player: Option<PlayerCard> = match player_id {
        Some(p) => match state.players.get(p) {
            Some(player) => Some(player_card(player)),
            None => None,
        },
        None => None,
    };
    Ok(
        GameView {
            player,
            city_features: city_features(state, repo),
            owned_nodes,
            nodes,
            attacks,
        },
    )
}

/// What asking for a tile of the map gives, where `ids` is what looking up its nodes
/// gave.
pub open spec fn tile_shown(
    state: StateView,
    indexes: CachesView,
    after: CachesView,
    next: RepoView,
    player: Seq<char>,
    ids: Result<Vec<String>, Failure>,
    r: Result<Vec<NodeFeature>, Failure>,
    distance: spec_fn(Coord, Coord) -> u64,
) -> bool {
    match ids {
        Err(failure) => {
            &&& r is Err && r->Err_0@ == failure@
            &&& after == indexes
        },
        Ok(list) => {
            &&& after == membership_ensured(indexes, state, next, distance)
            &&& r is Ok
            &&& feature_views(r->Ok_0@) == nodes_seen(
                state,
                after,
                next,
                texts(list@),
                Some(player),
            )
        },
    }
}

/// The nodes on a tile of the map.
pub fn node_tile_response<
    F: Fn(Coord, Coord) -> u64,
    B: Fn(i64, i64, i64) -> Bounds,
    M: Fn(Bounds, u64) -> bool,
>(
    state: &GameState,
    caches: &mut Caches,
    repo: &mut NodeRepo,
    region: Option<Bounds>,
    token: &str,
    z: i64,
    x: i64,
    y: i64,
    now: i64,
    distance: &F,
    tile_bounds: &B,
    meets: &M,
) -> (r: Result<Vec<NodeFeature>, Failure>)
    requires
        measures(*distance),
        places_tiles(*tile_bounds),
        tells_meeting(*meets),
        old(repo)@.level <= 30,
    ensures
        ({
            let zoom = clamped(z as int, 0, 22);
            match session_refusal(state@, token@, now as int) {
                Some(refusal) => {
                    &&& r is Err && r->Err_0@ == FailureView::Refused(refusal)
                    &&& final(caches)@ == old(caches)@ && final(repo)@ == old(repo)@
                },
                None => exists|ids: Result<Vec<String>, Failure>|
                    tile_outcome(
                        old(repo)@,
                        final(repo)@,
                        region,
                        zoom,
                        x as int,
                        y as int,
                        box_of(*tile_bounds, zoom as i64, x, y),
                        |b: Bounds| meeting(*meets, b),
                        ids,
                    ) && #[trigger] tile_shown(
                        state@,
                        old(caches)@,
                        final(caches)@,
                        final(repo)@,
                        state@.sessions[token@].player_id,
                        ids,
                        r,
                        metric(*distance),
                    ),
            }
        }),
{
    let ghost indexes = caches@;
    let session = match require_session(state, token, now) {
        Ok(session) => session,
        Err(refusal) => {
            return Err(Failure::Refused(refusal));
        },
    };
    let ids = node_ids_for_tile(repo, region, z, x, y, tile_bounds, meets);
    let ghost found = ids;
    let r: Result<Vec<NodeFeature>, Failure> = match ids {
        Err(failure) => Err(failure),
        Ok(list) => {
            ensure_city_membership(state, caches, repo, distance);
            Ok(node_features(state, caches, repo, &list, Some(session.player_id.as_str())))
        },
    };
    proof {
        assert(tile_shown(
            state@,
            indexes,
            caches@,
            repo@,
            session.player_id@,
            found,
            r,
            metric(*distance),
        ));
    }
    r
}

/// How a request to build ends that comes with a token.
pub open spec fn build_request_outcome(
    state: StateView,
    caches: CachesView,
    next: StateView,
    next_caches: CachesView,
    r: Result<BuildReport, Refusal>,
    repo: RepoView,
    token: Seq<char>,
    node: Seq<char>,
    building: BuildingType,
    now: int,
    distance: spec_fn(Coord, Coord) -> u64,
) -> bool {
    match session_refusal(state, token, now) {
        Some(refusal) => {
            &&& r == Err::<BuildReport, Refusal>(refusal)
            &&& next == state && next_caches == caches
        },
        None => build_outcome(
            state,
            caches,
            next,
            next_caches,
            r,
            repo,
            state.sessions[token].player_id,
            node,
            building,
            now,
            distance,
        ),
    }
}

/// Puts a building on a node of whoever holds the token.
pub fn build_building_request<F: Fn(Coord, Coord) -> u64>(
    state: &mut GameState,
    caches: &mut Caches,
    repo: &NodeRepo,
    token: &str,
    node_id: &str,
    building: BuildingType,
    now: i64,
    distance: &F,
) -> (r: Result<BuildReport, Refusal>)
    requires
        measures(*distance),
        old(caches)@.bounded(),
        old(state)@.node_keys.len() <= MAX_NODES,
        repo@.node_keys.len() <= MAX_NODES,
        old(state)@.version < i64::MAX,
    ensures
        build_request_outcome(
            old(state)@,
            old(caches)@,
            final(state)@,
            final(caches)@,
            r,
            repo@,
            token@,
            node_id@,
            building,
            now as int,
            metric(*distance),
        ),
        final(caches)@.bounded(),
{
    match require_session(state, token, now) {
        Ok(session) => build_building(
            state,
            caches,
            repo,
            session.player_id.as_str(),
            node_id,
            building,
            now,
            distance,
        ),
        Err(refusal) => Err(refusal),
    }
}

/// How a request to fire a missile ends that comes with a token.
pub open spec fn launch_request_outcome(
    state: StateView,
    caches: CachesView,
    next: StateView,
    next_caches: CachesView,
    r: Result<Launch, Refusal>,
    repo: RepoView,
    token: Seq<char>,
    missile_type: Seq<char>,
    target: Coord,
    region: Option<Bounds>,
    now: int,
    distance: spec_fn(Coord, Coord) -> u64,
) -> bool {
    match session_refusal(state, token, now) {
        Some(refusal) => {
            &&& r == Err::<Launch, Refusal>(refusal)
            &&& next == state && next_caches == caches
        },
        None => launch_outcome(
            state,
            caches,
            next,
            next_caches,
            r,
            repo,
            state.sessions[token].player_id,
            missile_named(lowered(missile_type)),
            target,
            region,
            now,
            distance,
        ),
    }
}

/// Fires a missile of whoever holds the token.
pub fn launch_missile_request<F: Fn(Coord, Coord) -> u64>(
    state: &mut GameState,
    caches: &mut Caches,
    repo: &NodeRepo,
    token: &str,
    missile_type: &str,
    target: Coord,
    region: Option<Bounds>,
    now: i64,
    distance: &F,
) -> (r: Result<Launch, Refusal>)
    requires
        measures(*distance),
        old(caches)@.bounded(),
        old(state)@.node_keys.len() <= MAX_NODES,
        repo@.node_keys.len() <= MAX_NODES,
        old(state)@.version < i64::MAX,
    ensures
        launch_request_outcome(
            old(state)@,
            old(caches)@,
            final(state)@,
            final(caches)@,
            r,
            repo@,
            token@,
            missile_type@,
            target,
            region,
            now as int,
            metric(*distance),
        ),
        final(caches)@.bounded(),
{
    match require_session(state, token, now) {
        Ok(session) => launch_missile(
            state,
            caches,
            repo,
            session.player_id.as_str(),
            missile_type,
            target,
            region,
            now,
            distance,
        ),
        Err(refusal) => Err(refusal),
    }
}

/// A token stands for a player as long as its session lasts.
pub open spec fn stands_for(state: StateView, token: Seq<char>, now: int, player: Seq<char>) -> bool {
    &&& state.sessions.contains_key(token)
    &&& state.sessions[token].player_id == player
    &&& state.sessions[token].expires_at > now
    &&& state.players.contains_key(player)
}

/// Guests are shown the game, and so is whoever shows a token that stands for a player; that
/// player is shown the own account and the own nodes. A bad token is shown nothing.
/// All attacks and cities are shown, the nodes of all only where they are asked for.
pub proof fn law_who_is_shown_the_game(
    state: StateView,
    caches: CachesView,
    after: CachesView,
    r: Result<GameView, Refusal>,
    repo: RepoView,
    token: Option<&str>,
    include_nodes: bool,
    now: int,
    distance: spec_fn(Coord, Coord) -> u64,
)
    requires
        game_outcome(state, caches, after, r, repo, token, include_nodes, now, distance),
    ensures
        token is None ==> r is Ok && r->Ok_0.player is None && r->Ok_0.owned_nodes@.len() == 0,
        token is Some ==> (r is Ok <==> exists|player: Seq<char>| #[trigger]
            stands_for(state, token->0@, now, player)),
        r is Err ==> after == caches,
        r is Ok ==> after == membership_ensured(caches, state, repo, distance),
        r is Ok ==> r->Ok_0.attacks@.len() == state.attack_keys.len(),
        r is Ok ==> city_views(r->Ok_0.city_features@) == cities_seen(state, repo, state.node_keys),
        r is Ok && !include_nodes ==> r->Ok_0.nodes@.len() == 0,
        r is Ok && include_nodes ==> feature_views(r->Ok_0.nodes@) == nodes_seen(
            state,
            after,
            repo,
            state.node_keys,
            asking(state, token),
        ),
        forall|player: Seq<char>|
            token is Some && #[trigger] stands_for(state, token->0@, now, player) ==> {
                let card = r->Ok_0.player;
                &&& card is Some && card->0.id@ == state.players[player].id
                &&& card->0.username@ == state.players[player].username
                &&& card->0.color@ == state.players[player].color
                &&& card->0.gold == state.players[player].gold
                &&& card->0.gold_income_per_sec == state.players[player].income
                &&& card->0.damage_reduction_percent == state.players[player].damage_reduction
                &&& card->0.happiness_percent == state.players[player].happiness
                &&& feature_views(r->Ok_0.owned_nodes@) == own_nodes_seen(
                    state,
                    after,
                    repo,
                    Some(player),
                )
            },
{
    if token is Some && r is Ok {
        assert(stands_for(state, token->0@, now, state.sessions[token->0@].player_id));
    }
    if token is None {
        assert(feature_views(r->Ok_0.owned_nodes@).len() == 0);
    }
}

/// An attack is shown as it is: from where to where, how much and how, and in the color of
/// its owner. It is the player's own exactly if the player made it.
pub proof fn law_how_attacks_are_shown(
    state: StateView,
    caches: CachesView,
    after: CachesView,
    r: Result<GameView, Refusal>,
    repo: RepoView,
    token: Option<&str>,
    include_nodes: bool,
    now: int,
    distance: spec_fn(Coord, Coord) -> u64,
    i: int,
)
    requires
        game_outcome(state, caches, after, r, repo, token, include_nodes, now, distance),
        r is Ok,
        0 <= i < state.attack_keys.len(),
    ensures
        ({
            let attack = state.attacks[state.attack_keys[i]];
            let shown = r->Ok_0.attacks@[i];
            &&& shown.id@ == attack.id && shown.owner_id@ == attack.owner
            &&& shown.mode@ == attack.mode
            &&& shown.from_node_id@ == attack.from && shown.to_node_id@ == attack.to
            &&& shown.send_per_tick == attack.send_per_tick
            &&& shown.created_at == attack.created_at
            &&& shown.path@ == attack.path
            &&& state.players.contains_key(attack.owner) ==> shown.owner_color@
                == state.players[attack.owner].color
            &&& shown.owner_state == OwnerState::Own <==> token is Some
                && state.sessions[token->0@].player_id == attack.owner
            &&& shown.owner_state == OwnerState::Own || shown.owner_state == OwnerState::Enemy
        }),
{
}

/// Buildings are put up and missiles fired for the player whom the token stands for, and
/// for nobody without one: then nothing changes.
pub proof fn law_who_may_spend(
    state: StateView,
    caches: CachesView,
    next: StateView,
    next_caches: CachesView,
    repo: RepoView,
    token: Seq<char>,
    now: int,
    distance: spec_fn(Coord, Coord) -> u64,
    build: Result<BuildReport, Refusal>,
    node: Seq<char>,
    building: BuildingType,
    fire: Result<Launch, Refusal>,
    missile_type: Seq<char>,
    target: Coord,
    region: Option<Bounds>,
    player: Seq<char>,
)
    ensures
        build_request_outcome(
            state,
            caches,
            next,
            next_caches,
            build,
            repo,
            token,
            node,
            building,
            now,
            distance,
        ) ==> {
            &&& stands_for(state, token, now, player) ==> build_outcome(
                state,
                caches,
                next,
                next_caches,
                build,
                repo,
                player,
                node,
                building,
                now,
                distance,
            )
            &&& (forall|p: Seq<char>| !#[trigger] stands_for(state, token, now, p))
                ==> build is Err && next == state && next_caches == caches
        },
        launch_request_outcome(
            state,
            caches,
            next,
            next_caches,
            fire,
            repo,
            token,
            missile_type,
            target,
            region,
            now,
            distance,
        ) ==> {
            &&& stands_for(state, token, now, player) ==> launch_outcome(
                state,
                caches,
                next,
                next_caches,
                fire,
                repo,
                player,
                missile_named(lowered(missile_type)),
                target,
                region,
                now,
                distance,
            )
            &&& (forall|p: Seq<char>| !#[trigger] stands_for(state, token, now, p)) ==> fire is Err
                && next == state && next_caches == caches
        },
{
    assert(session_refusal(state, token, now) is None ==> stands_for(
        state,
        token,
        now,
        state.sessions[token].player_id,
    ));
}

/// Missiles go by the names small, nuke and hydrogen, and by no other.
pub proof fn law_names_of_missiles(name: Seq<char>)
    ensures
        missile_named(name) == Some(Missile::Small) <==> name == "small"@,
        missile_named(name) == Some(Missile::Nuke) <==> name == "nuke"@,
        missile_named(name) == Some(Missile::Hydrogen) <==> name == "hydrogen"@,
        missile_named(name) is None <==> name != "small"@ && name != "nuke"@ && name
            != "hydrogen"@,
{
    reveal_strlit("small");
    reveal_strlit("nuke");
    reveal_strlit("hydrogen");
    assert("small"@.len() == 5 && "nuke"@.len() == 4 && "hydrogen"@.len() == 8);
}

} // verus!
