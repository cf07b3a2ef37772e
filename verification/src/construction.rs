//! Putting buildings on nodes.
use vstd::prelude::*;

use crate::buildings::{building_cost, cost_of, holds, needs_city, BuildingType};
use crate::economy::{
    caches_ensured, economy_recomputed, ensure_city_membership, ensure_player_nodes, gold_updated,
    inside_city, is_node_inside_player_city, nearest_city, nearest_own_city_id,
    recompute_player_economy, update_player_gold, Caches, CachesView, MAX_NODES,
};
use crate::errors::Refusal;
use crate::geometry::{measures, metric, Coord};
use crate::repo::{NodeRepo, RepoView};
use crate::state::{GameState, NodeView, PlayerView, StateView};
use crate::text::same_text;
use crate::world::{caches_synced, saved, sync_world_nodes, synced};

verus! {

/// `id` carries a bank of `player` that belongs to the city `city`.
pub open spec fn is_bank_of(
    id: Seq<char>,
    city: Seq<char>,
    state: StateView,
    caches: CachesView,
    repo: RepoView,
    player: Seq<char>,
    distance: spec_fn(Coord, Coord) -> u64,
) -> bool {
    &&& state.nodes[id].owner == Some(player)
    &&& state.nodes[id].building == Some(BuildingType::Bank)
    &&& nearest_city(caches, state, repo, player, id, distance) == Some(city)
}

/// The player's city around `node` has a bank already.
pub open spec fn city_has_bank(
    state: StateView,
    caches: CachesView,
    repo: RepoView,
    player: Seq<char>,
    node: Seq<char>,
    distance: spec_fn(Coord, Coord) -> u64,
) -> bool {
    match nearest_city(caches, state, repo, player, node, distance) {
        Some(city) => exists|id: Seq<char>| #[trigger]
            state.nodes.contains_key(id) && is_bank_of(
                id,
                city,
                state,
                caches,
                repo,
                player,
                distance,
            ),
        None => false,
    }
}

/// Why a building may not be put on a node, if so.
pub open spec fn build_refusal(
    state: StateView,
    caches: CachesView,
    repo: RepoView,
    player: Seq<char>,
    node: Seq<char>,
    building: BuildingType,
    distance: spec_fn(Coord, Coord) -> u64,
) -> Option<Refusal> {
    if !state.nodes.contains_key(node) {
        Some(Refusal::NodeMissing)
    } else if state.nodes[node].owner != Some(player) {
        Some(Refusal::NodeNotOwned)
    } else if state.nodes[node].building is Some {
        Some(Refusal::NodeBuiltUp)
    } else if !state.players.contains_key(player) {
        Some(Refusal::PlayerMissing)
    } else if state.players[player].gold < cost_of(building) {
        Some(Refusal::BuildingTooDear(building))
    } else if needs_city(building) && !inside_city(caches, node, player) {
        Some(Refusal::OutsideCity(building))
    } else if building == BuildingType::Bank && city_has_bank(
        state,
        caches,
        repo,
        player,
        node,
        distance,
    ) {
        Some(Refusal::CityHasBank)
    } else {
        None
    }
}

/// The player after paying `cost`.
pub open spec fn charged(player: PlayerView, cost: int) -> PlayerView {
    PlayerView { gold: player.gold - cost, ..player }
}

/// The state with the building paid and put up.
pub open spec fn put_up(
    state: StateView,
    player: Seq<char>,
    node: Seq<char>,
    building: BuildingType,
) -> StateView {
    StateView {
        players: state.players.insert(
            player,
            charged(state.players[player], cost_of(building) as int),
        ),
        nodes: state.nodes.insert(
            node,
            NodeView { building: Some(building), army: 0, ..state.nodes[node] },
        ),
        ..state
    }
}

/// The state as a request to build finds it: in line with the road map, the
/// player's gold up to date.
pub open spec fn before_spending(
    state: StateView,
    caches: CachesView,
    repo: RepoView,
    player: Seq<char>,
    now: int,
) -> StateView {
    gold_updated(synced(state, caches, repo, now), player, now)
}

/// The indexes as a request to build finds them.
pub open spec fn caches_before_building(
    state: StateView,
    caches: CachesView,
    repo: RepoView,
    now: int,
    distance: spec_fn(Coord, Coord) -> u64,
) -> CachesView {
    caches_ensured(
        caches_synced(caches, repo),
        synced(state, caches, repo, now),
        repo,
        distance,
    )
}

/// The indexes after a building went up: cities may have changed.
pub open spec fn caches_after_building(
    state: StateView,
    caches: CachesView,
    repo: RepoView,
    distance: spec_fn(Coord, Coord) -> u64,
) -> CachesView {
    caches_ensured(CachesView { membership_dirty: true, ..caches }, state, repo, distance)
}

/// The state after a building went up and the player's income is recomputed.
pub open spec fn built(
    state: StateView,
    caches: CachesView,
    repo: RepoView,
    player: Seq<char>,
    node: Seq<char>,
    building: BuildingType,
    now: int,
    distance: spec_fn(Coord, Coord) -> u64,
) -> StateView {
    let up = put_up(state, player, node, building);
    let paid = economy_recomputed(
        up,
        caches_after_building(up, caches, repo, distance),
        repo,
        player,
        now,
        distance,
    );
    saved(StateView { version: paid.version + 1, ..paid }, now)
}

/// What the player is told of a new building.
pub struct BuildReport {
    pub gold: i64,
    pub gold_income_per_sec: i64,
}

/// How a request to build ends: refused, or with the building on the node.
pub open spec fn build_outcome(
    state: StateView,
    caches: CachesView,
    next: StateView,
    next_caches: CachesView,
    r: Result<BuildReport, Refusal>,
    repo: RepoView,
    player: Seq<char>,
    node: Seq<char>,
    building: BuildingType,
    now: int,
    distance: spec_fn(Coord, Coord) -> u64,
) -> bool {
    let found = before_spending(state, caches, repo, player, now);
    let indexes = caches_before_building(state, caches, repo, now, distance);
    match build_refusal(found, indexes, repo, player, node, building, distance) {
        Some(refusal) => r == Err::<BuildReport, Refusal>(refusal) && next == found && next_caches
            == indexes,
        None => {
            &&& next == built(found, indexes, repo, player, node, building, now, distance)
            &&& next_caches == caches_after_building(
                put_up(found, player, node, building),
                indexes,
                repo,
                distance,
            )
            &&& r is Ok
            &&& r->Ok_0.gold == next.players[player].gold
            &&& r->Ok_0.gold_income_per_sec == next.players[player].income
        },
    }
}

fn has_bank<F: Fn(Coord, Coord) -> u64>(
    state: &GameState,
    caches: &Caches,
    repo: &NodeRepo,
    player_id: &str,
    node_id: &str,
    distance: &F,
) -> (r: bool)
    requires
        measures(*distance),
    ensures
        r == city_has_bank(state@, caches@, repo@, player_id@, node_id@, metric(*distance)),
{
    let city = match nearest_own_city_id(caches, state, repo, player_id, node_id, distance) {
        Some(c) => c,
        None => {
            return false;
        },
    };
    let ghost d = metric(*distance);
    let n: usize = state.nodes.len();
    let ghost keys = state.nodes.keys();
    let mut i: usize = 0;
    while i < n
        invariant
            measures(*distance),
            d == metric(*distance),
            nearest_city(caches@, state@, repo@, player_id@, node_id@, d) == Some(city@),
            keys == state.nodes.keys(),
            state.nodes.coherent(),
            n == keys.len(),
            i <= n,
            forall|j: int|
                0 <= j < i ==> !is_bank_of(
                    #[trigger] keys[j],
                    city@,
                    state@,
                    caches@,
                    repo@,
                    player_id@,
                    d,
                ),
        decreases n - i,
    {
        let id = state.nodes.key_at(i);
        let node = state.nodes.value_at(i);
        if node.owned_by(player_id) && holds(&node.building, BuildingType::Bank) {
            if let Some(own) = nearest_own_city_id(
                caches,
                state,
                repo,
                player_id,
                id.as_str(),
                distance,
            ) {
                if same_text(own.as_str(), city.as_str()) {
                    proof {
                        assert(state@.nodes.contains_key(id@) && is_bank_of(
                            id@,
                            city@,
                            state@,
                            caches@,
                            repo@,
                            player_id@,
                            d,
                        ));
                    }
                    return true;
                }
            }
        }
        i += 1;
    }
    proof {
        assert forall|id: Seq<char>| #[trigger] state@.nodes.contains_key(id) implies !is_bank_of(
            id,
            city@,
            state@,
            caches@,
            repo@,
            player_id@,
            d,
        ) by {
            let w = keys.index_of(id);
            assert(keys[w] == id);
        }
    }
    false
}

fn judge_building<F: Fn(Coord, Coord) -> u64>(
    state: &GameState,
    caches: &Caches,
    repo: &NodeRepo,
    player_id: &str,
    node_id: &str,
    building: BuildingType,
    distance: &F,
) -> (r: Option<Refusal>)
    requires
        measures(*distance),
    ensures
        r == build_refusal(
            state@,
            caches@,
            repo@,
            player_id@,
            node_id@,
            building,
            metric(*distance),
        ),
{
    match state.nodes.get(node_id) {
        None => {
            return Some(Refusal::NodeMissing);
        },
        Some(node) => {
            if !node.owned_by(player_id) {
                return Some(Refusal::NodeNotOwned);
            }
            if node.building.is_some() {
                return Some(Refusal::NodeBuiltUp);
            }
        },
    }
    match state.players.get(player_id) {
        None => {
            return Some(Refusal::PlayerMissing);
        },
        Some(player) => {
            if player.gold < building_cost(&building) {
                return Some(Refusal::BuildingTooDear(building));
            }
        },
    }
    let in_need: bool = match building {
        BuildingType::Market | BuildingType::Bank | BuildingType::Hospital | BuildingType::Bar => true,
        _ => false,
    };
    if in_need && !is_node_inside_player_city(caches, node_id, player_id) {
        return Some(Refusal::OutsideCity(building));
    }
    if building == BuildingType::Bank && has_bank(
        state,
        caches,
        repo,
        player_id,
        node_id,
        distance,
    ) {
        return Some(Refusal::CityHasBank);
    }
    None
}

/// Takes `cost` from the player's gold.
pub(crate) fn charge(state: &mut GameState, player_id: &str, cost: i64)
    requires
        cost >= 0,
        old(state)@.players.contains_key(player_id@),
        old(state)@.players[player_id@].gold >= cost,
    ensures
        final(state)@ == (StateView {
            players: old(state)@.players.insert(
                player_id@,
                charged(old(state)@.players[player_id@], cost as int),
            ),
            ..old(state)@
        }),
{
    if let Some(i) = state.players.position(player_id) {
        let mut player = state.players.value_at(i).clone();
        player.gold = player.gold - cost;
        state.players.set_at(i, player);
    }
}

/// Puts a building on one of the player's nodes.
pub fn build_building<F: Fn(Coord, Coord) -> u64>(
    state: &mut GameState,
    caches: &mut Caches,
    repo: &NodeRepo,
    player_id: &str,
    node_id: &str,
    building: BuildingType,
    now: i64,
    distance: &F,
) -> (r: Result<BuildReport, Refusal>)
    requires
        measures(*distance),
        old(caches)@.bounded(),
        old(state)@.node_keys.len() <= MAX_NODES,
        repo@.node_keys.len() <= MAX_NODES,
        old(state)@.version < i64::MAX,
    ensures
        build_outcome(
            old(state)@,
            old(caches)@,
            final(state)@,
            final(caches)@,
            r,
            repo@,
            player_id@,
            node_id@,
            building,
            now as int,
            metric(*distance),
        ),
        final(caches)@.bounded(),
{
    let ghost d = metric(*distance);
    sync_world_nodes(state, caches, repo, now);
    ensure_city_membership(state, caches, repo, distance);
    ensure_player_nodes(state, caches);
    update_player_gold(state, player_id, now);
    let ghost found = state@;
    let ghost indexes = caches@;
    if let Some(refusal) = judge_building(
        state,
        caches,
        repo,
        player_id,
        node_id,
        building,
        distance,
    ) {
        return Err(refusal);
    }
    charge(state, player_id, building_cost(&building));
    if let Some(i) = state.nodes.position(node_id) {
        let mut node = state.nodes.value_at(i).clone();
        node.building = Some(building);
        node.army = 0;
        state.nodes.set_at(i, node);
    }
    proof {
        assert(state@ == put_up(found, player_id@, node_id@, building));
    }
    caches.city_membership_dirty = true;
    recompute_player_economy(state, caches, repo, player_id, now, distance);
    state.version = state.version + 1;
    state.mark_saved(now);
    match state.players.get(player_id) {
        Some(player) => Ok(
            BuildReport {
                gold: player.gold,
                gold_income_per_sec: player.gold_income_per_sec,
            },
        ),
        None => Ok(BuildReport { gold: 0, gold_income_per_sec: 0 }),
    }
}

/// A building is never put on a node that the player does not own, that carries
/// one already, or that the player cannot pay.
pub proof fn law_building_is_paid(
    state: StateView,
    caches: CachesView,
    repo: RepoView,
    player: Seq<char>,
    node: Seq<char>,
    building: BuildingType,
    distance: spec_fn(Coord, Coord) -> u64,
)
    requires
        build_refusal(state, caches, repo, player, node, building, distance) is None,
    ensures
        state.nodes[node].owner == Some(player),
        state.nodes[node].building is None,
        put_up(state, player, node, building).players[player].gold >= 0,
        put_up(state, player, node, building).players[player].gold + cost_of(building)
            == state.players[player].gold,
        needs_city(building) ==> inside_city(caches, node, player),
{
}

} // verus!
