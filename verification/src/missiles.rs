//! Missiles: silos that fire them and batteries that intercept them.
use vstd::prelude::*;

use crate::buildings::{holds, BuildingType};
use crate::construction::{before_spending, charge, charged};
use crate::economy::{
    caches_ensured, economy_recomputed, recompute_player_economy, update_player_gold, Caches,
    CachesView, MAX_NODES,
};
use crate::errors::Refusal;
use crate::geometry::{exceeds, measure, measures, metric, within, Bounds, Coord, INFINITE_KM};
use crate::repo::{NodeRepo, RepoView};
use crate::state::{texts, GameState, NodeView, StateView};
use crate::text::{lowercase, lowered, same_text};
use crate::world::{caches_synced, saved, sync_world_nodes};

verus! {

pub const MISSILE_SMALL_COST: i64 = 10_000_000;

pub const MISSILE_NUKE_COST: i64 = 100_000_000;

pub const MISSILE_HYDROGEN_COST: i64 = 1_000_000_000;

/// The bit pattern of the double 0.3.
pub const MISSILE_SMALL_RADIUS_KM: u64 = 0x3fd3_3333_3333_3333;

/// The bit pattern of the double 1.0.
pub const MISSILE_NUKE_RADIUS_KM: u64 = 0x3ff0_0000_0000_0000;

/// The bit pattern of the double 3.0.
pub const MISSILE_HYDROGEN_RADIUS_KM: u64 = 0x4008_0000_0000_0000;

/// The bit pattern of the double 5.0.
pub const SAM_RADIUS_KM: u64 = 0x4014_0000_0000_0000;

/// Ten minutes.
pub const SILO_COOLDOWN_MS: i64 = 600_000;

/// Twelve minutes.
pub const SAM_COOLDOWN_MS: i64 = 720_000;

#[derive(Clone, Copy, Debug, PartialEq, Eq, Structural)]
pub enum Missile {
    Small,
    Nuke,
    Hydrogen,
}

/// What a missile costs, in gold.
pub open spec fn missile_cost(missile: Missile) -> i64 {
    match missile {
        Missile::Small => MISSILE_SMALL_COST,
        Missile::Nuke => MISSILE_NUKE_COST,
        Missile::Hydrogen => MISSILE_HYDROGEN_COST,
    }
}

/// How far a missile reaches around its target.
pub open spec fn missile_radius(missile: Missile) -> u64 {
    match missile {
        Missile::Small => MISSILE_SMALL_RADIUS_KM,
        Missile::Nuke => MISSILE_NUKE_RADIUS_KM,
        Missile::Hydrogen => MISSILE_HYDROGEN_RADIUS_KM,
    }
}

/// The missile that a lower-case name stands for.
pub open spec fn missile_named(name: Seq<char>) -> Option<Missile> {
    if name == "small"@ {
        Some(Missile::Small)
    } else if name == "nuke"@ {
        Some(Missile::Nuke)
    } else if name == "hydrogen"@ {
        Some(Missile::Hydrogen)
    } else {
        None
    }
}

/// The missile that a lower-case name stands for.
pub fn find_missile(name: &str) -> (r: Option<Missile>)
    ensures
        r == missile_named(name@),
{
    if same_text(name, "small") {
        Some(Missile::Small)
    } else if same_text(name, "nuke") {
        Some(Missile::Nuke)
    } else if same_text(name, "hydrogen") {
        Some(Missile::Hydrogen)
    } else {
        None
    }
}

impl Missile {
    pub fn cost(&self) -> (r: i64)
        ensures
            r == missile_cost(*self),
    {
        match self {
            Missile::Small => MISSILE_SMALL_COST,
            Missile::Nuke => MISSILE_NUKE_COST,
            Missile::Hydrogen => MISSILE_HYDROGEN_COST,
        }
    }

    pub fn radius(&self) -> (r: u64)
        ensures
            r == missile_radius(*self),
    {
        match self {
            Missile::Small => MISSILE_SMALL_RADIUS_KM,
            Missile::Nuke => MISSILE_NUKE_RADIUS_KM,
            Missile::Hydrogen => MISSILE_HYDROGEN_RADIUS_KM,
        }
    }
}

/// The first of `keys` for which `pred` holds.
pub open spec fn first_key(keys: Seq<Seq<char>>, pred: spec_fn(Seq<char>) -> bool) -> Option<
    Seq<char>,
>
    decreases keys.len(),
{
    if keys.len() == 0 {
        None
    } else if pred(keys[0]) {
        Some(keys[0])
    } else {
        first_key(keys.skip(1), pred)
    }
}

/// The first place at which `pred` holds gives the first key.
pub proof fn lemma_first_key(keys: Seq<Seq<char>>, pred: spec_fn(Seq<char>) -> bool, i: int)
    requires
        0 <= i <= keys.len(),
        forall|j: int| 0 <= j < i ==> !pred(#[trigger] keys[j]),
        i < keys.len() ==> pred(keys[i]),
    ensures
        first_key(keys, pred) == (if i < keys.len() {
            Some(keys[i])
        } else {
            None
        }),
    decreases keys.len(),
{
    if i > 0 {
        assert forall|j: int| 0 <= j < i - 1 implies !pred(#[trigger] keys.skip(1)[j]) by {
            assert(!pred(keys[j + 1]));
        }
        lemma_first_key(keys.skip(1), pred, i - 1);
    }
}

/// The first key is one of the keys and passes; without one, none passes.
pub proof fn lemma_first_key_found(keys: Seq<Seq<char>>, pred: spec_fn(Seq<char>) -> bool)
    ensures
        match first_key(keys, pred) {
            Some(k) => keys.contains(k) && pred(k),
            None => forall|k: Seq<char>| #[trigger] keys.contains(k) ==> !pred(k),
        },
    decreases keys.len(),
{
    if keys.len() > 0 {
        if pred(keys[0]) {
            assert(keys.contains(keys[0]));
        } else {
            let rest = keys.skip(1);
            lemma_first_key_found(rest, pred);
            match first_key(rest, pred) {
                Some(k) => {
                    let w = rest.index_of(k);
                    assert(keys[w + 1] == k);
                },
                None => {
                    assert forall|k: Seq<char>| #[trigger] keys.contains(k) implies !pred(k) by {
                        let w = keys.index_of(k);
                        if w > 0 {
                            assert(rest[w - 1] == k);
                            assert(rest.contains(k));
                        }
                    }
                },
            }
        }
    }
}

/// When the building on a node last fired.
pub open spec fn last_fired(state: StateView, id: Seq<char>) -> int {
    if state.cooldowns.contains_key(id) {
        state.cooldowns[id] as int
    } else {
        0
    }
}

/// The building on a node has rested for `rest` milliseconds.
pub open spec fn rested(state: StateView, id: Seq<char>, now: int, rest: int) -> bool {
    now - last_fired(state, id) >= rest
}

/// A silo of the player.
pub open spec fn is_silo(state: StateView, player: Seq<char>, id: Seq<char>) -> bool {
    state.nodes[id].owner == Some(player) && state.nodes[id].building == Some(BuildingType::Silo)
}

/// The silo that fires: the first of the player's that is off cooldown.
pub open spec fn ready_silo(state: StateView, player: Seq<char>, now: int) -> Option<Seq<char>> {
    first_key(
        state.node_keys,
        |id: Seq<char>|
            is_silo(state, player, id) && rested(state, id, now, SILO_COOLDOWN_MS as int),
    )
}

/// A battery of `owner` that covers the target and is off cooldown. It covers what does not
/// lie farther than it reaches, and so a target whose distance is no number too.
pub open spec fn battery_covers(
    state: StateView,
    repo: RepoView,
    owner: Seq<char>,
    id: Seq<char>,
    target: Coord,
    now: int,
    distance: spec_fn(Coord, Coord) -> u64,
) -> bool {
    &&& state.nodes[id].owner == Some(owner)
    &&& state.nodes[id].building == Some(BuildingType::Sam)
    &&& repo.coords.contains_key(id)
    &&& !exceeds(distance(target, repo.coords[id]), SAM_RADIUS_KM)
    &&& rested(state, id, now, SAM_COOLDOWN_MS as int)
}

/// The first battery of `owner` that covers the target.
pub open spec fn battery_of(
    state: StateView,
    repo: RepoView,
    owner: Seq<char>,
    target: Coord,
    now: int,
    distance: spec_fn(Coord, Coord) -> u64,
) -> Option<Seq<char>> {
    first_key(
        state.node_keys,
        |id: Seq<char>| battery_covers(state, repo, owner, id, target, now, distance),
    )
}

/// Of a player: is another one, with a battery that covers the target.
pub open spec fn defends(
    state: StateView,
    repo: RepoView,
    player: Seq<char>,
    target: Coord,
    now: int,
    distance: spec_fn(Coord, Coord) -> u64,
) -> spec_fn(Seq<char>) -> bool {
    |owner: Seq<char>|
        owner != player && battery_of(state, repo, owner, target, now, distance) is Some
}

/// The player who intercepts: the first other one with a battery that covers the
/// target.
pub open spec fn interceptor(
    state: StateView,
    repo: RepoView,
    player: Seq<char>,
    target: Coord,
    now: int,
    distance: spec_fn(Coord, Coord) -> u64,
) -> Option<Seq<char>> {
    first_key(state.player_keys, defends(state, repo, player, target, now, distance))
}

/// Why a missile is not fired, if so.
pub open spec fn launch_refusal(
    state: StateView,
    player: Seq<char>,
    missile: Option<Missile>,
    target: Coord,
    region: Option<Bounds>,
    now: int,
) -> Option<Refusal> {
    if missile is None {
        Some(Refusal::UnknownMissile)
    } else if region is Some && !within(region->0, target) {
        Some(Refusal::TargetOutside)
    } else if first_key(state.node_keys, |id: Seq<char>| is_silo(state, player, id)) is None {
        Some(Refusal::NoSilo)
    } else if !state.players.contains_key(player) {
        Some(Refusal::PlayerMissing)
    } else if state.players[player].gold < missile_cost(missile->0) {
        Some(Refusal::MissileTooDear(missile_cost(missile->0)))
    } else if ready_silo(state, player, now) is None {
        Some(Refusal::SiloCooling)
    } else {
        None
    }
}

/// The state with the missile paid, and the silo on cooldown.
pub open spec fn fired(
    state: StateView,
    player: Seq<char>,
    missile: Missile,
    now: int,
) -> StateView {
    StateView {
        players: state.players.insert(
            player,
            charged(state.players[player], missile_cost(missile) as int),
        ),
        cooldowns: state.cooldowns.insert(ready_silo(state, player, now)->0, now as i64),
        ..state
    }
}

/// The state after an interception: the battery is on cooldown too.
pub open spec fn intercepted(
    state: StateView,
    player: Seq<char>,
    missile: Missile,
    battery: Seq<char>,
    now: int,
) -> StateView {
    let after = fired(state, player, missile, now);
    saved(
        StateView {
            cooldowns: state.cooldowns.insert(battery, now as i64).insert(
                ready_silo(state, player, now)->0,
                now as i64,
            ),
            version: after.version + 1,
            ..after
        },
        now,
    )
}

/// A node that the missile takes: another's or nobody's, without building, in reach.
pub open spec fn blasted(
    state: StateView,
    repo: RepoView,
    player: Seq<char>,
    id: Seq<char>,
    target: Coord,
    radius: u64,
    distance: spec_fn(Coord, Coord) -> u64,
) -> bool {
    &&& state.nodes[id].owner != Some(player)
    &&& state.nodes[id].building is None
    &&& repo.coords.contains_key(id)
    &&& distance(target, repo.coords[id]) <= radius
}

/// The nodes that the missile takes, in order.
pub open spec fn blast(
    state: StateView,
    repo: RepoView,
    player: Seq<char>,
    target: Coord,
    radius: u64,
    distance: spec_fn(Coord, Coord) -> u64,
) -> Seq<Seq<char>> {
    state.node_keys.filter(
        |id: Seq<char>| blasted(state, repo, player, id, target, radius, distance),
    )
}

/// The nodes after the missile hit: what it takes belongs to the player, without
/// army.
pub open spec fn blasted_nodes(
    state: StateView,
    repo: RepoView,
    player: Seq<char>,
    target: Coord,
    radius: u64,
    distance: spec_fn(Coord, Coord) -> u64,
) -> Map<Seq<char>, NodeView> {
    Map::new(
        |id: Seq<char>| state.nodes.contains_key(id),
        |id: Seq<char>|
            if blasted(state, repo, player, id, target, radius, distance) {
                NodeView { owner: Some(player), army: 0, ..state.nodes[id] }
            } else {
                state.nodes[id]
            },
    )
}

/// The state after the missile hit, before incomes are recomputed.
pub open spec fn hit(
    state: StateView,
    repo: RepoView,
    player: Seq<char>,
    missile: Missile,
    target: Coord,
    now: int,
    distance: spec_fn(Coord, Coord) -> u64,
) -> StateView {
    StateView {
        nodes: blasted_nodes(state, repo, player, target, missile_radius(missile), distance),
        ..fired(state, player, missile, now)
    }
}

/// The indexes after the missile hit.
pub open spec fn caches_after_hit(
    state: StateView,
    caches: CachesView,
    repo: RepoView,
    player: Seq<char>,
    missile: Missile,
    target: Coord,
    now: int,
    distance: spec_fn(Coord, Coord) -> u64,
) -> CachesView {
    let taken = blast(state, repo, player, target, missile_radius(missile), distance);
    caches_ensured(
        CachesView { player_nodes_dirty: caches.player_nodes_dirty || taken.len() > 0, ..caches },
        hit(state, repo, player, missile, target, now, distance),
        repo,
        distance,
    )
}

/// The state after the missile hit and the player's income is recomputed.
pub open spec fn landed(
    state: StateView,
    caches: CachesView,
    repo: RepoView,
    player: Seq<char>,
    missile: Missile,
    target: Coord,
    now: int,
    distance: spec_fn(Coord, Coord) -> u64,
) -> StateView {
    let paid = economy_recomputed(
        hit(state, repo, player, missile, target, now, distance),
        caches_after_hit(state, caches, repo, player, missile, target, now, distance),
        repo,
        player,
        now,
        distance,
    );
    saved(StateView { version: paid.version + 1, ..paid }, now)
}

/// How a missile ended.
pub enum Launch {
    Intercepted { by: String },
    Landed { taken: Vec<String> },
}

fn time_since(now: i64, then: i64, rest: i64) -> (r: bool)
    ensures
        r == (now - then >= rest),
{
    now as i128 - then as i128 >= rest as i128
}

fn off_cooldown(state: &GameState, id: &str, now: i64, rest: i64) -> (r: bool)
    ensures
        r == rested(state@, id@, now as int, rest as int),
{
    let then: i64 = match state.building_cooldowns.get(id) {
        Some(t) => *t,
        None => 0,
    };
    time_since(now, then, rest)
}

fn find_silo(state: &GameState, player_id: &str) -> (r: bool)
    ensures
        r == (first_key(state@.node_keys, |id: Seq<char>| is_silo(state@, player_id@, id)) is Some),
{
    let ghost pred = |id: Seq<char>| is_silo(state@, player_id@, id);
    let ghost keys = state.nodes.keys();
    let n: usize = state.nodes.len();
    let mut i: usize = 0;
    while i < n
        invariant
            keys == state.nodes.keys(),
            n == keys.len(),
            i <= n,
            pred == (|id: Seq<char>| is_silo(state@, player_id@, id)),
            forall|j: int| 0 <= j < i ==> !pred(#[trigger] keys[j]),
        decreases n - i,
    {
        let node = state.nodes.value_at(i);
        if node.owned_by(player_id) && holds(&node.building, BuildingType::Silo) {
            proof {
                lemma_first_key(keys, pred, i as int);
            }
            return true;
        }
        i += 1;
    }
    proof {
        lemma_first_key(keys, pred, i as int);
    }
    false
}

fn find_ready_silo(state: &GameState, player_id: &str, now: i64) -> (r: Option<String>)
    ensures
        crate::state::text_in(r) == ready_silo(state@, player_id@, now as int),
{
    let ghost pred = |id: Seq<char>|
        is_silo(state@, player_id@, id) && rested(state@, id, now as int, SILO_COOLDOWN_MS as int);
    let ghost keys = state.nodes.keys();
    let n: usize = state.nodes.len();
    let mut i: usize = 0;
    while i < n
        invariant
            keys == state.nodes.keys(),
            n == keys.len(),
            i <= n,
            pred == (|id: Seq<char>|
                is_silo(state@, player_id@, id) && rested(
                    state@,
                    id,
                    now as int,
                    SILO_COOLDOWN_MS as int,
                )),
            forall|j: int| 0 <= j < i ==> !pred(#[trigger] keys[j]),
        decreases n - i,
    {
        let node = state.nodes.value_at(i);
        let id = state.nodes.key_at(i);
        if node.owned_by(player_id) && holds(&node.building, BuildingType::Silo) && off_cooldown(
            state,
            id.as_str(),
            now,
            SILO_COOLDOWN_MS,
        ) {
            proof {
                lemma_first_key(keys, pred, i as int);
            }
            return Some(id.clone());
        }
        i += 1;
    }
    proof {
        lemma_first_key(keys, pred, i as int);
    }
    None
}

fn find_battery<F: Fn(Coord, Coord) -> u64>(
    state: &GameState,
    repo: &NodeRepo,
    owner: &str,
    target: Coord,
    now: i64,
    distance: &F,
) -> (r: Option<String>)
    requires
        measures(*distance),
    ensures
        crate::state::text_in(r) == battery_of(
            state@,
            repo@,
            owner@,
            target,
            now as int,
            metric(*distance),
        ),
{
    let ghost d = metric(*distance);
    let ghost pred = |id: Seq<char>|
        battery_covers(state@, repo@, owner@, id, target, now as int, d);
    let ghost keys = state.nodes.keys();
    let n: usize = state.nodes.len();
    let mut i: usize = 0;
    while i < n
        invariant
            measures(*distance),
            d == metric(*distance),
            keys == state.nodes.keys(),
            n == keys.len(),
            i <= n,
            pred == (|id: Seq<char>|
                battery_covers(state@, repo@, owner@, id, target, now as int, d)),
            forall|j: int| 0 <= j < i ==> !pred(#[trigger] keys[j]),
        decreases n - i,
    {
        let node = state.nodes.value_at(i);
        let id = state.nodes.key_at(i);
        if node.owned_by(owner) && holds(&node.building, BuildingType::Sam) {
            if let Some(coord) = repo.coords_by_id.get(id.as_str()) {
                let d: u64 = measure(distance, target, *coord);
                let far: bool = d > SAM_RADIUS_KM && d <= INFINITE_KM;
                if !far && off_cooldown(state, id.as_str(), now, SAM_COOLDOWN_MS) {
                    proof {
                        lemma_first_key(keys, pred, i as int);
                    }
                    return Some(id.clone());
                }
            }
        }
        i += 1;
    }
    proof {
        lemma_first_key(keys, pred, i as int);
    }
    None
}

fn find_interceptor<F: Fn(Coord, Coord) -> u64>(
    state: &GameState,
    repo: &NodeRepo,
    player_id: &str,
    target: Coord,
    now: i64,
    distance: &F,
) -> (r: Option<(String, String)>)
    requires
        measures(*distance),
    ensures
        match r {
            Some(pair) => interceptor(
                state@,
                repo@,
                player_id@,
                target,
                now as int,
                metric(*distance),
            ) == Some(pair.0@) && battery_of(
                state@,
                repo@,
                pair.0@,
                target,
                now as int,
                metric(*distance),
            ) == Some(pair.1@),
            None => interceptor(
                state@,
                repo@,
                player_id@,
                target,
                now as int,
                metric(*distance),
            ) is None,
        },
{
    let ghost d = metric(*distance);
    let ghost pred = defends(state@, repo@, player_id@, target, now as int, d);
    let ghost keys = state.players.keys();
    let n: usize = state.players.len();
    let mut i: usize = 0;
    while i < n
        invariant
            measures(*distance),
            d == metric(*distance),
            keys == state.players.keys(),
            n == keys.len(),
            i <= n,
            pred == defends(state@, repo@, player_id@, target, now as int, d),
            forall|j: int| 0 <= j < i ==> !pred(#[trigger] keys[j]),
        decreases n - i,
    {
        let owner = state.players.key_at(i);
        if !same_text(owner.as_str(), player_id) {
            if let Some(battery) = find_battery(
                state,
                repo,
                owner.as_str(),
                target,
                now,
                distance,
            ) {
                proof {
                    lemma_first_key(keys, pred, i as int);
                }
                return Some((owner.clone(), battery));
            }
        }
        i += 1;
    }
    proof {
        lemma_first_key(keys, pred, i as int);
    }
    None
}

/// Takes the nodes in reach of the target.
fn take_nodes<F: Fn(Coord, Coord) -> u64>(
    state: &mut GameState,
    repo: &NodeRepo,
    player_id: &str,
    target: Coord,
    radius: u64,
    distance: &F,
) -> (r: Vec<String>)
    requires
        measures(*distance),
    ensures
        final(state)@ == (StateView {
            nodes: blasted_nodes(
                old(state)@,
                repo@,
                player_id@,
                target,
                radius,
                metric(*distance),
            ),
            ..old(state)@
        }),
        texts(r@) == blast(old(state)@, repo@, player_id@, target, radius, metric(*distance)),
{
    let ghost d = metric(*distance);
    let ghost before = state@;
    let ghost want = blasted_nodes(before, repo@, player_id@, target, radius, d);
    let ghost pred = |id: Seq<char>|
        blasted(before, repo@, player_id@, id, target, radius, d);
    let ghost keys = state.nodes.keys();
    let mut taken: Vec<String> = Vec::new();
    let n: usize = state.nodes.len();
    let mut i: usize = 0;
    proof {
        assert(texts(taken@) =~= keys.take(0).filter(pred));
    }
    while i < n
        invariant
            measures(*distance),
            d == metric(*distance),
            want == blasted_nodes(before, repo@, player_id@, target, radius, d),
            pred == (|id: Seq<char>| blasted(before, repo@, player_id@, id, target, radius, d)),
            keys == state.nodes.keys(),
            keys == before.node_keys,
            state.nodes.coherent(),
            n == keys.len(),
            i <= n,
            state@ == (StateView { nodes: state@.nodes, ..before }),
            state@.nodes.dom() == before.nodes.dom(),
            forall|j: int|
                0 <= j < i ==> state@.nodes[#[trigger] keys[j]] == want[keys[j]],
            forall|j: int|
                i <= j < n ==> state@.nodes[#[trigger] keys[j]] == before.nodes[keys[j]],
            texts(taken@) == keys.take(i as int).filter(pred),
        decreases n - i,
    {
        let ghost id = keys[i as int];
        proof {
            assert(before.nodes.contains_key(id));
            reveal(Seq::filter);
            assert(keys.take(i + 1).drop_last() =~= keys.take(i as int));
            assert(keys.take(i + 1).last() == id);
            assert forall|j: int| 0 <= j < n && j != i implies #[trigger] keys[j] != id by {}
        }
        let ghost listed = taken@;
        let node = state.nodes.value_at(i);
        if !node.owned_by(player_id) && node.building.is_none() {
            if let Some(coord) = repo.coords_by_id.get(state.nodes.key_at(i).as_str()) {
                if measure(distance, target, *coord) <= radius {
                    let mut next = node.clone();
                    next.army = 0;
                    next.owner_id = Some(player_id.to_owned());
                    taken.push(state.nodes.key_at(i).clone());
                    proof {
                        assert(texts(taken@) =~= texts(listed).push(id));
                        assert(next@ == want[id]);
                    }
                    state.nodes.set_at(i, next);
                    proof {
                        assert(state@.nodes.dom() =~= before.nodes.dom());
                    }
                }
            }
        }
        i += 1;
    }
    proof {
        assert(keys.take(n as int) =~= keys);
        assert(state@.nodes =~= want) by {
            assert forall|k: Seq<char>| #[trigger] before.nodes.contains_key(k) implies state@.nodes[k]
                == want[k] by {
                let w = keys.index_of(k);
                assert(keys[w] == k);
            }
        }
    }
    taken
}

fn judge_launch(
    state: &GameState,
    player_id: &str,
    missile: Option<Missile>,
    target: Coord,
    region: Option<Bounds>,
    now: i64,
) -> (r: Result<(Missile, String), Refusal>)
    ensures
        match launch_refusal(state@, player_id@, missile, target, region, now as int) {
            Some(refusal) => r == Err::<(Missile, String), Refusal>(refusal),
            None => r is Ok && missile == Some(r->Ok_0.0) && ready_silo(
                state@,
                player_id@,
                now as int,
            ) == Some(r->Ok_0.1@),
        },
{
    let kind = match missile {
        Some(m) => m,
        None => {
            return Err(Refusal::UnknownMissile);
        },
    };
    if let Some(bounds) = region {
        if !bounds.contains(target) {
            return Err(Refusal::TargetOutside);
        }
    }
    if !find_silo(state, player_id) {
        return Err(Refusal::NoSilo);
    }
    match state.players.get(player_id) {
        None => {
            return Err(Refusal::PlayerMissing);
        },
        Some(player) => {
            if player.gold < kind.cost() {
                return Err(Refusal::MissileTooDear(kind.cost()));
            }
        },
    }
    match find_ready_silo(state, player_id, now) {
        Some(silo) => Ok((kind, silo)),
        None => Err(Refusal::SiloCooling),
    }
}

/// Fires a missile of the named kind at `target`.
pub fn launch_missile<F: Fn(Coord, Coord) -> u64>(
    state: &mut GameState,
    caches: &mut Caches,
    repo: &NodeRepo,
    player_id: &str,
    missile_type: &str,
    target: Coord,
    region: Option<Bounds>,
    now: i64,
    distance: &F,
) -> (r: Result<Launch, Refusal>)
    requires
        measures(*distance),
        old(caches)@.bounded(),
        old(state)@.node_keys.len() <= MAX_NODES,
        repo@.node_keys.len() <= MAX_NODES,
        old(state)@.version < i64::MAX,
    ensures
        launch_outcome(
            old(state)@,
            old(caches)@,
            final(state)@,
            final(caches)@,
            r,
            repo@,
            player_id@,
            missile_named(lowered(missile_type@)),
            target,
            region,
            now as int,
            metric(*distance),
        ),
        final(caches)@.bounded(),
{
    let name = lowercase(missile_type);
    let missile = find_missile(name.as_str());
    launch(state, caches, repo, player_id, missile, target, region, now, distance)
}

/// How firing a missile ends: refused, intercepted, or landed.
pub open spec fn launch_outcome(
    state: StateView,
    caches: CachesView,
    next: StateView,
    next_caches: CachesView,
    r: Result<Launch, Refusal>,
    repo: RepoView,
    player: Seq<char>,
    missile: Option<Missile>,
    target: Coord,
    region: Option<Bounds>,
    now: int,
    distance: spec_fn(Coord, Coord) -> u64,
) -> bool {
    let found = before_spending(state, caches, repo, player, now);
    let indexes = caches_synced(caches, repo);
    match launch_refusal(found, player, missile, target, region, now) {
        Some(refusal) => r == Err::<Launch, Refusal>(refusal) && next == found && next_caches
            == indexes,
        None => match interceptor(found, repo, player, target, now, distance) {
            Some(by) => {
                &&& r matches Ok(Launch::Intercepted { by: told }) && told@ == by
                &&& next == intercepted(
                    found,
                    player,
                    missile->0,
                    battery_of(found, repo, by, target, now, distance)->0,
                    now,
                )
                &&& next_caches == indexes
            },
            None => {
                &&& r matches Ok(Launch::Landed { taken }) && texts(taken@) == blast(
                    found,
                    repo,
                    player,
                    target,
                    missile_radius(missile->0),
                    distance,
                )
                &&& next == landed(
                    found,
                    indexes,
                    repo,
                    player,
                    missile->0,
                    target,
                    now,
                    distance,
                )
                &&& next_caches == caches_after_hit(
                    found,
                    indexes,
                    repo,
                    player,
                    missile->0,
                    target,
                    now,
                    distance,
                )
            },
        },
    }
}

/// Fires a missile at `target`; of an unknown one nothing is fired.
pub fn launch<F: Fn(Coord, Coord) -> u64>(
    state: &mut GameState,
    caches: &mut Caches,
    repo: &NodeRepo,
    player_id: &str,
    missile: Option<Missile>,
    target: Coord,
    region: Option<Bounds>,
    now: i64,
    distance: &F,
) -> (r: Result<Launch, Refusal>)
    requires
        measures(*distance),
        old(caches)@.bounded(),
        old(state)@.node_keys.len() <= MAX_NODES,
        repo@.node_keys.len() <= MAX_NODES,
        old(state)@.version < i64::MAX,
    ensures
        launch_outcome(
            old(state)@,
            old(caches)@,
            final(state)@,
            final(caches)@,
            r,
            repo@,
            player_id@,
            missile,
            target,
            region,
            now as int,
            metric(*distance),
        ),
        final(caches)@.bounded(),
{
    let ghost d = metric(*distance);
    sync_world_nodes(state, caches, repo, now);
    update_player_gold(state, player_id, now);
    let ghost found = state@;
    let (kind, silo) = match judge_launch(state, player_id, missile, target, region, now) {
        Ok(pair) => pair,
        Err(refusal) => {
            return Err(refusal);
        },
    };
    match find_interceptor(state, repo, player_id, target, now, distance) {
        Some(pair) => {
            let (by, battery) = pair;
            state.building_cooldowns.insert(battery, now);
            state.building_cooldowns.insert(silo, now);
            charge(state, player_id, kind.cost());
            state.version = state.version + 1;
            state.mark_saved(now);
            Ok(Launch::Intercepted { by })
        },
        None => {
            let taken = take_nodes(state, repo, player_id, target, kind.radius(), distance);
            if taken.len() > 0 {
                caches.player_nodes_dirty = true;
            }
            state.building_cooldowns.insert(silo, now);
            charge(state, player_id, kind.cost());
            proof {
                assert(state@ == hit(found, repo@, player_id@, kind, target, now as int, d));
                assert(texts(taken@).len() == taken@.len());
            }
            recompute_player_economy(state, caches, repo, player_id, now, distance);
            state.version = state.version + 1;
            state.mark_saved(now);
            Ok(Launch::Landed { taken })
        },
    }
}

/// A missile is intercepted exactly when another player has a battery in reach of
/// the target that is off cooldown.
pub proof fn law_intercepted_iff_covered(
    state: StateView,
    repo: RepoView,
    player: Seq<char>,
    target: Coord,
    now: int,
    distance: spec_fn(Coord, Coord) -> u64,
)
    requires
        state.coherent(),
    ensures
        interceptor(state, repo, player, target, now, distance) is Some <==> exists|
            owner: Seq<char>,
            id: Seq<char>,
        |
            #![trigger state.players.contains_key(owner), state.nodes.contains_key(id)]
            state.players.contains_key(owner) && owner != player && state.nodes.contains_key(id)
                && battery_covers(state, repo, owner, id, target, now, distance),
{
    let other = defends(state, repo, player, target, now, distance);
    lemma_first_key_found(state.player_keys, other);
    match interceptor(state, repo, player, target, now, distance) {
        Some(owner) => {
            let covers = |id: Seq<char>|
                battery_covers(state, repo, owner, id, target, now, distance);
            lemma_first_key_found(state.node_keys, covers);
            let id = battery_of(state, repo, owner, target, now, distance)->0;
            assert(other(owner));
            assert(battery_of(state, repo, owner, target, now, distance) == first_key(
                state.node_keys,
                covers,
            ));
            assert(covers(id));
            assert(state.players.contains_key(owner) && state.nodes.contains_key(id));
        },
        None => {
            assert forall|owner: Seq<char>, id: Seq<char>|
                #![trigger state.players.contains_key(owner), state.nodes.contains_key(id)]
                state.players.contains_key(owner) && owner != player && state.nodes.contains_key(
                    id,
                ) implies !battery_covers(state, repo, owner, id, target, now, distance) by {
                let covers = |k: Seq<char>|
                    battery_covers(state, repo, owner, k, target, now, distance);
                lemma_first_key_found(state.node_keys, covers);
                assert(state.player_keys.contains(owner));
                assert(!other(owner));
                assert(battery_of(state, repo, owner, target, now, distance) == first_key(
                    state.node_keys,
                    covers,
                ));
                assert(state.node_keys.contains(id));
                assert(!covers(id));
            }
        },
    }
}

/// A silo that fired is on cooldown: it does not fire again before ten minutes
/// have passed.
pub proof fn law_silo_rests(
    state: StateView,
    player: Seq<char>,
    missile: Missile,
    now: int,
    later: int,
)
    requires
        ready_silo(state, player, now) is Some,
        i64::MIN <= now <= i64::MAX,
        later < now + SILO_COOLDOWN_MS,
    ensures
        ({
            let after = fired(state, player, missile, now);
            ready_silo(after, player, later) != ready_silo(state, player, now)
        }),
{
    let after = fired(state, player, missile, now);
    let silo = ready_silo(state, player, now)->0;
    let pred = |id: Seq<char>|
        is_silo(after, player, id) && rested(after, id, later, SILO_COOLDOWN_MS as int);
    lemma_first_key_found(after.node_keys, pred);
    assert(!pred(silo));
}

/// A missile spares buildings and what the player owns already.
pub proof fn law_missile_spares(
    state: StateView,
    repo: RepoView,
    player: Seq<char>,
    target: Coord,
    radius: u64,
    distance: spec_fn(Coord, Coord) -> u64,
    id: Seq<char>,
)
    requires
        state.nodes.contains_key(id),
        state.nodes[id].owner == Some(player) || state.nodes[id].building is Some,
    ensures
        blasted_nodes(state, repo, player, target, radius, distance)[id] == state.nodes[id],
{
}

} // verus!
