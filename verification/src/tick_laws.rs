//! What holds of the clock and of the world that follows the road map.
use vstd::prelude::*;

use crate::battle::{
    attack_step, attacks_run, law_a_transfer_arrives, law_an_attack_sends_what_is_asked_for,
    law_attacks_leave_other_nodes_alone, Scene,
};
use crate::economy::{caches_ensured, economy_recomputed, gold_updated, CachesView};
use crate::geometry::Coord;
use crate::production::law_only_owners_raise_armies;
use crate::repo::RepoView;
use crate::state::{NodeView, StateView};
use crate::ticks::{
    background_outcome, before_attacks, economies, economy_caches, elapsed_ticks, purged, stepped,
    stepped_times, tick_writes, ticked, TickReport,
};
use crate::world::{caches_synced, drifted, lemma_filter_source, lemma_filter_unique, synced};

verus! {

/// There is one tick for every whole second since the clock was last advanced, and no more than
/// sixty at once. A clock that was never set, or that runs behind, has none due.
pub proof fn law_a_tick_is_a_second(last: int, now: int, n: nat)
    ensures
        last > 0 && 1000 * n <= now - last < 1000 * (n + 1) && n <= 60 ==> elapsed_ticks(last, now)
            == n,
        last > 0 && now - last >= 60_000 ==> elapsed_ticks(last, now) == 60,
        last <= 0 || now <= last ==> elapsed_ticks(last, now) == 0,
{
    if last > 0 && now > last {
        assert((now - last) / 1000 >= 60 <==> now - last >= 60_000);
    }
}

/// Advancing the clock runs the ticks that are due and sets the clock to the moment. Where
/// none is due nothing changes and nothing is written.
pub proof fn law_the_clock_advances(
    scene: Scene,
    repo: RepoView,
    now: int,
    distance: spec_fn(Coord, Coord) -> u64,
)
    ensures
        ({
            let n = elapsed_ticks(scene.state.last_tick_at, now);
            let run = stepped_times(scene, n, repo, now, distance);
            let after = ticked(scene, repo, now, distance);
            let late = now - run.state.last_persisted_at >= 5000;
            &&& n == 0 ==> after == scene && !tick_writes(scene, repo, now, distance)
            &&& n > 0 ==> after.caches == run.caches && after.state.last_tick_at == now
            &&& n > 0 && late ==> after.state == (StateView {
                last_tick_at: now,
                saved_at: now,
                last_persisted_at: now,
                ..run.state
            }) && tick_writes(scene, repo, now, distance)
            &&& n > 0 && !late ==> after.state == (StateView { last_tick_at: now, ..run.state })
            &&& n > 0 && !late ==> (tick_writes(scene, repo, now, distance) <==> (
            scene.caches.synced_version != repo.graph_version && drifted(scene.state, repo)))
            &&& stepped_times(scene, 0, repo, now, distance) == scene
            &&& stepped_times(scene, 1, repo, now, distance) == stepped(scene, repo, now, distance)
        }),
{
    reveal_with_fuel(stepped_times, 2);
}

/// A tick pays every player as of now, at the income that the player had, and reckons the
/// income anew from what the player owns as the tick begins.
pub proof fn law_a_tick_pays_everybody(
    scene: Scene,
    repo: RepoView,
    now: int,
    distance: spec_fn(Coord, Coord) -> u64,
    player: Seq<char>,
)
    requires
        scene.state.coherent(),
        scene.state.players.contains_key(player),
    ensures
        ({
            let start = synced(scene.state, scene.caches, repo, now);
            let caches = caches_ensured(caches_synced(scene.caches, repo), start, repo, distance);
            let next = stepped(scene, repo, now, distance).state;
            &&& next.players.contains_key(player)
            &&& next.players[player] == economy_recomputed(
                start,
                caches,
                repo,
                player,
                now,
                distance,
            ).players[player]
            &&& next.players[player].gold == gold_updated(start, player, now).players[player].gold
            &&& start.players == scene.state.players
        }),
{
    let ready = before_attacks(scene, repo, now, distance);
    lemma_players_stay(ready, ready.state.attack_keys);
    assert(scene.state.player_keys.contains(player));
}

proof fn lemma_players_stay(scene: Scene, ids: Seq<Seq<char>>)
    ensures
        attacks_run(scene, ids).state.players == scene.state.players,
    decreases ids.len(),
{
    if ids.len() > 0 {
        lemma_players_stay(scene, ids.drop_last());
    }
}

/// No attack starts or ends at a node.
pub open spec fn at_peace(state: StateView, node: Seq<char>) -> bool {
    forall|j: int|
        0 <= j < state.attack_keys.len() ==> {
            let attack = state.attacks[#[trigger] state.attack_keys[j]];
            attack.from != node && attack.to != node
        }
}

/// Where no attack starts or ends, a tick leaves a node to its owner. What nobody owns stays as
/// it is, a building holds no army, and an owned node without one raises some.
pub proof fn law_a_tick_at_a_quiet_node(
    scene: Scene,
    repo: RepoView,
    now: int,
    distance: spec_fn(Coord, Coord) -> u64,
    node: Seq<char>,
)
    requires
        scene.state.nodes.contains_key(node),
        repo.nodes.contains_key(node),
        at_peace(synced(scene.state, scene.caches, repo, now), node),
    ensures
        ({
            let before = scene.state.nodes[node];
            let next = stepped(scene, repo, now, distance).state;
            let after = next.nodes[node];
            &&& next.nodes.contains_key(node)
            &&& after.owner == before.owner && after.building == before.building
            &&& before.building is Some ==> after.army == 0
            &&& before.building is None && before.owner is None ==> after.army == before.army
            &&& before.building is None && before.owner is Some && repo.coords.contains_key(node)
                && before.army < 1_000_000 ==> after.army >= before.army + 1
        }),
{
    let ready = before_attacks(scene, repo, now, distance);
    law_attacks_leave_other_nodes_alone(ready, node);
    let state = synced(scene.state, scene.caches, repo, now);
    let caches = economy_caches(state, caches_synced(scene.caches, repo), repo, distance);
    let paid = economies(state, caches, repo, now, distance);
    law_only_owners_raise_armies(paid, caches, repo, node);
    if state.nodes[node].building is None && state.nodes[node].owner is Some {
        assert(state.nodes[node] == scene.state.nodes[node]);
    }
}

/// Armies that are raised in a tick march in it: from a node that had none, over a transfer
/// that is the only order, they come to a node that holds a building and raises none.
pub proof fn law_raised_armies_march(
    scene: Scene,
    repo: RepoView,
    now: int,
    distance: spec_fn(Coord, Coord) -> u64,
    id: Seq<char>,
)
    requires
        scene.caches.synced_version == repo.graph_version,
        scene.state.attack_keys == seq![id],
        scene.state.attacks.contains_key(id),
        ({
            let state = scene.state;
            let attack = state.attacks[id];
            &&& attack.mode == "transfer"@
            &&& attack.from != attack.to
            &&& state.nodes.contains_key(attack.from) && state.nodes.contains_key(attack.to)
            &&& state.nodes[attack.from].owner == Some(attack.owner)
            &&& state.nodes[attack.to].owner == Some(attack.owner)
            &&& state.nodes[attack.from].building is None
            &&& state.nodes[attack.to].building is Some
            &&& state.nodes[attack.from].army == 0
            &&& repo.coords.contains_key(attack.from)
        }),
    ensures
        ({
            let attack = scene.state.attacks[id];
            stepped(scene, repo, now, distance).state.nodes[attack.to].army >= 1
        }),
{
    let ready = before_attacks(scene, repo, now, distance);
    let attack = scene.state.attacks[id];
    reveal_with_fuel(attacks_run, 2);
    assert(seq![id].drop_last() =~= Seq::empty());
    assert(attacks_run(ready, ready.state.attack_keys) == attack_step(ready, id));
    law_an_attack_sends_what_is_asked_for(ready, id);
    law_a_transfer_arrives(ready, id);
}

/// A session outlives a purge exactly if it expires later, and is then as it was. A purge
/// touches nothing else.
pub proof fn law_a_purge_drops_what_expired(state: StateView, now: int, token: Seq<char>)
    ensures
        purged(state, now).sessions.contains_key(token) <==> state.sessions.contains_key(token)
            && state.sessions[token].expires_at > now,
        purged(state, now).sessions.contains_key(token) ==> purged(state, now).sessions[token]
            == state.sessions[token],
        purged(state, now) == (StateView { sessions: purged(state, now).sessions, ..state }),
{
}

/// Sessions are purged on every sixtieth call; the state is then written if some had expired.
/// All other calls only advance the clock.
pub proof fn law_every_sixtieth_call_purges(
    scene: Scene,
    after: Scene,
    since_purge: u64,
    now_since: u64,
    r: TickReport,
    repo: RepoView,
    now: int,
    distance: spec_fn(Coord, Coord) -> u64,
)
    requires
        background_outcome(scene, after, since_purge, now_since, r, repo, now, distance),
    ensures
        ({
            let next = ticked(scene, repo, now, distance);
            let expired = exists|t: Seq<char>| #[trigger]
                next.state.sessions.contains_key(t) && next.state.sessions[t].expires_at <= now;
            &&& since_purge < 59 ==> now_since == since_purge + 1 && after == next && r.write
                == tick_writes(scene, repo, now, distance)
            &&& since_purge >= 59 ==> now_since == 0 && after.caches == next.caches
            &&& since_purge >= 59 && !expired ==> after.state == next.state && r.write
                == tick_writes(scene, repo, now, distance)
            &&& since_purge >= 59 && expired ==> r.write && after.state == (StateView {
                sessions: purged(next.state, now).sessions,
                saved_at: now,
                last_persisted_at: now,
                ..next.state
            })
            &&& r.version == after.state.version
        }),
{
    let next = ticked(scene, repo, now, distance);
    if !(exists|t: Seq<char>| #[trigger]
        next.state.sessions.contains_key(t) && next.state.sessions[t].expires_at <= now) {
        assert(purged(next.state, now).sessions =~= next.state.sessions) by {
            assert forall|t: Seq<char>| #[trigger]
                next.state.sessions.contains_key(t) implies next.state.sessions[t].expires_at
                > now by {}
        }
        if crate::ticks::any_expired(next.state, now) {
            let t = choose|t: Seq<char>| #[trigger]
                next.state.sessions.contains_key(t) && !crate::ticks::unexpired(next.state, t, now);
            assert(next.state.sessions.contains_key(t));
        }
    } else {
        let t = choose|t: Seq<char>| #[trigger]
            next.state.sessions.contains_key(t) && next.state.sessions[t].expires_at <= now;
        assert(next.state.sessions.contains_key(t) && !crate::ticks::unexpired(
            next.state,
            t,
            now,
        ));
    }
}

/// A world that is in step with the road map is left alone. Else it gets the map's nodes: those
/// that it had are as they were, new ones are nobody's, with ten army and no building.
/// An attack stays exactly if both its ends are on the map, and a cooldown exactly if its
/// node stays or was none. The state counts as saved if anything came or went.
pub proof fn law_the_world_follows_the_map(
    state: StateView,
    caches: CachesView,
    repo: RepoView,
    now: int,
    id: Seq<char>,
)
    ensures
        ({
            let after = synced(state, caches, repo, now);
            let attack = state.attacks[id];
            let in_step = caches.synced_version == repo.graph_version;
            &&& in_step ==> after == state && caches_synced(caches, repo) == caches
            &&& !in_step ==> {
                &&& after.nodes.contains_key(id) <==> repo.nodes.contains_key(id)
                &&& repo.nodes.contains_key(id) && state.nodes.contains_key(id) ==> after.nodes[id]
                    == state.nodes[id]
                &&& repo.nodes.contains_key(id) && !state.nodes.contains_key(id) ==> after.nodes[id]
                    == (NodeView { owner: None, army: 10, building: None })
                &&& after.attacks.contains_key(id) <==> state.attacks.contains_key(id)
                    && repo.nodes.contains_key(attack.from) && repo.nodes.contains_key(attack.to)
                &&& after.attacks.contains_key(id) ==> after.attacks[id] == attack
                &&& after.cooldowns.contains_key(id) <==> state.cooldowns.contains_key(id) && (
                repo.nodes.contains_key(id) || !state.nodes.contains_key(id))
                &&& after.cooldowns.contains_key(id) ==> after.cooldowns[id] == state.cooldowns[id]
                &&& drifted(state, repo) ==> after.saved_at == now && after.last_persisted_at == now
                &&& !drifted(state, repo) ==> after.saved_at == state.saved_at
                    && after.last_persisted_at == state.last_persisted_at && after.nodes
                    == state.nodes && after.attacks == state.attacks
                &&& after == (StateView {
                    nodes: after.nodes,
                    node_keys: after.node_keys,
                    cooldowns: after.cooldowns,
                    attacks: after.attacks,
                    attack_keys: after.attack_keys,
                    saved_at: after.saved_at,
                    last_persisted_at: after.last_persisted_at,
                    ..state
                })
                &&& caches_synced(caches, repo) == (CachesView {
                    synced_version: repo.graph_version,
                    membership_dirty: true,
                    player_nodes_dirty: true,
                    ..caches
                })
            }
            &&& drifted(state, repo) <==> {
                ||| exists|k: Seq<char>| #[trigger]
                    repo.nodes.contains_key(k) && !state.nodes.contains_key(k)
                ||| exists|k: Seq<char>| #[trigger]
                    state.nodes.contains_key(k) && !repo.nodes.contains_key(k)
                ||| exists|a: Seq<char>| #[trigger]
                    state.attacks.contains_key(a) && !(repo.nodes.contains_key(state.attacks[a].from)
                        && repo.nodes.contains_key(state.attacks[a].to))
            }
        }),
{
    let after = synced(state, caches, repo, now);
    if exists|k: Seq<char>| #[trigger]
        repo.nodes.contains_key(k) != state.nodes.contains_key(k) {
        let k = choose|k: Seq<char>| #[trigger]
            repo.nodes.contains_key(k) != state.nodes.contains_key(k);
        assert(repo.nodes.contains_key(k) || state.nodes.contains_key(k));
    }
    if exists|k: Seq<char>| #[trigger]
        state.nodes.contains_key(k) && !repo.nodes.contains_key(k) {
        let k = choose|k: Seq<char>| #[trigger]
            state.nodes.contains_key(k) && !repo.nodes.contains_key(k);
        assert(repo.nodes.contains_key(k) != state.nodes.contains_key(k));
    }
    if exists|a: Seq<char>| #[trigger]
        state.attacks.contains_key(a) && !(repo.nodes.contains_key(state.attacks[a].from)
            && repo.nodes.contains_key(state.attacks[a].to)) {
        let a = choose|a: Seq<char>| #[trigger]
            state.attacks.contains_key(a) && !(repo.nodes.contains_key(state.attacks[a].from)
                && repo.nodes.contains_key(state.attacks[a].to));
        assert(state.attacks.contains_key(a) && !crate::world::on_map(state.attacks[a], repo));
    }
    if caches.synced_version != repo.graph_version && !drifted(state, repo) {
        assert(after.nodes =~= state.nodes) by {
            assert forall|k: Seq<char>| #[trigger] repo.nodes.contains_key(k)
                == state.nodes.contains_key(k) by {}
        }
        assert(after.attacks =~= state.attacks);
    }
}

/// The nodes that stay keep their order, and new ones follow in the order of the map. Nodes
/// and attacks are walked without gap or repetition, as before.
pub proof fn law_the_world_keeps_its_order(
    state: StateView,
    caches: CachesView,
    repo: RepoView,
    now: int,
)
    requires
        state.coherent(),
        crate::state::walks(repo.node_keys, repo.nodes),
    ensures
        synced(state, caches, repo, now).coherent(),
        caches.synced_version != repo.graph_version ==> exists|old_keys: Seq<Seq<char>>, new_keys: Seq<Seq<char>>|
            {
                &&& synced(state, caches, repo, now).node_keys == #[trigger] (old_keys + new_keys)
                &&& old_keys == state.node_keys.filter(|k: Seq<char>| repo.nodes.contains_key(k))
                &&& new_keys == repo.node_keys.filter(|k: Seq<char>| !state.nodes.contains_key(k))
            },
{
    let after = synced(state, caches, repo, now);
    if caches.synced_version != repo.graph_version {
        let stays = |k: Seq<char>| repo.nodes.contains_key(k);
        let new = |k: Seq<char>| !state.nodes.contains_key(k);
        let left = state.node_keys.filter(stays);
        let right = repo.node_keys.filter(new);
        assert(after.node_keys == left + right);
        lemma_filter_unique(state.node_keys, stays);
        lemma_filter_unique(repo.node_keys, new);
        assert forall|i: int| 0 <= i < left.len() implies state.nodes.contains_key(#[trigger] left[i])
            && repo.nodes.contains_key(left[i]) by {
            lemma_filter_source(state.node_keys, stays, i);
            assert(state.node_keys.contains(left[i]));
            state.node_keys.lemma_filter_pred(stays, i);
        }
        assert forall|i: int| 0 <= i < right.len() implies !state.nodes.contains_key(
            #[trigger] right[i],
        ) && repo.nodes.contains_key(right[i]) by {
            lemma_filter_source(repo.node_keys, new, i);
            assert(repo.node_keys.contains(right[i]));
            repo.node_keys.lemma_filter_pred(new, i);
        }
        assert((left + right).no_duplicates());
        assert forall|k: Seq<char>| #[trigger] after.nodes.contains_key(k) <==> (left
            + right).contains(k) by {
            if (left + right).contains(k) {
                let i = (left + right).index_of(k);
                if i < left.len() {
                    assert(left[i] == k);
                } else {
                    assert(right[i - left.len()] == k);
                }
            }
            if repo.nodes.contains_key(k) {
                if state.nodes.contains_key(k) {
                    let i = state.node_keys.index_of(k);
                    assert(stays(state.node_keys[i]));
                    state.node_keys.lemma_filter_contains(stays, i);
                    let j = left.index_of(k);
                    assert((left + right)[j] == k);
                } else {
                    let i = repo.node_keys.index_of(k);
                    assert(new(repo.node_keys[i]));
                    repo.node_keys.lemma_filter_contains(new, i);
                    let j = right.index_of(k);
                    assert((left + right)[left.len() + j] == k);
                }
            }
        }
        let on = |a: Seq<char>| crate::world::on_map(state.attacks[a], repo);
        let kept = state.attack_keys.filter(on);
        assert(after.attack_keys == kept);
        lemma_filter_unique(state.attack_keys, on);
        assert forall|a: Seq<char>| #[trigger] after.attacks.contains_key(a) <==> kept.contains(
            a,
        ) by {
            if kept.contains(a) {
                let i = kept.index_of(a);
                lemma_filter_source(state.attack_keys, on, i);
                assert(state.attack_keys.contains(a));
                state.attack_keys.lemma_filter_pred(on, i);
            }
            if after.attacks.contains_key(a) {
                let i = state.attack_keys.index_of(a);
                assert(on(state.attack_keys[i]));
                state.attack_keys.lemma_filter_contains(on, i);
            }
        }
    }
}

} // verus!
