//! The clock of the world.
use vstd::prelude::*;

use crate::accounts::session_refusal;
use crate::battle::{
    attacks_run, capped, fight, fought, law_attacks_keep_nodes, lemma_stays_after_turn,
    lemma_turns, sound, void_attack, Scene,
};
use crate::economy::{
    caches_ensured, lemma_tally_ignores_players, list_of,
    recompute_player_economy, with_economy, with_gold, Caches, CachesView, MAX_NODES,
};
use crate::geometry::{measures, metric, Coord};
use crate::production::{produced, raise_armies};
use crate::repo::{NodeRepo, RepoView};
use crate::state::{walks, GameState, StateView};
use crate::world::{
    caches_synced, drifted, lemma_filter_source, lemma_filter_unique, on_map, out_of_step, saved,
    sync_world_nodes, synced,
};

verus! {

/// One tick of the world, in milliseconds.
pub const WORLD_TICK_MS: i64 = 1000;

/// Most ticks that are caught up on at once.
pub const MAX_CATCH_UP_TICKS: usize = 60;

/// Ticks between two purges of expired sessions.
pub const PURGE_EVERY: u64 = 60;

/// The indexes after every player's economy was recomputed.
pub open spec fn economy_caches(
    state: StateView,
    caches: CachesView,
    repo: RepoView,
    distance: spec_fn(Coord, Coord) -> u64,
) -> CachesView {
    if state.player_keys.len() == 0 {
        caches
    } else {
        caches_ensured(caches, state, repo, distance)
    }
}

/// The state after every player's gold and income were recomputed.
pub open spec fn economies(
    state: StateView,
    caches: CachesView,
    repo: RepoView,
    now: int,
    distance: spec_fn(Coord, Coord) -> u64,
) -> StateView {
    StateView {
        players: Map::new(
            |p: Seq<char>| state.players.contains_key(p),
            |p: Seq<char>|
                with_economy(
                    with_gold(state.players[p], now),
                    caches,
                    state,
                    repo,
                    p,
                    distance,
                ),
        ),
        ..state
    }
}

/// Recomputes every player's gold and income.
pub fn recompute_economies<F: Fn(Coord, Coord) -> u64>(
    state: &mut GameState,
    caches: &mut Caches,
    repo: &NodeRepo,
    now: i64,
    distance: &F,
)
    requires
        measures(*distance),
        old(caches)@.bounded(),
        old(state)@.node_keys.len() <= MAX_NODES,
    ensures
        final(caches)@ == economy_caches(old(state)@, old(caches)@, repo@, metric(*distance)),
        final(state)@ == economies(
            old(state)@,
            final(caches)@,
            repo@,
            now as int,
            metric(*distance),
        ),
        final(caches)@.bounded(),
{
    let ghost before = state@;
    let ghost d = metric(*distance);
    let ghost ready = caches_ensured(caches@, before, repo@, d);
    let ghost want = economies(before, economy_caches(before, caches@, repo@, d), repo@, now as int, d);
    let ghost first = caches@;
    let n: usize = state.players.len();
    let ghost keys = state.players.keys();
    let mut i: usize = 0;
    while i < n
        invariant
            measures(*distance),
            d == metric(*distance),
            n == keys.len(),
            keys == before.player_keys,
            keys == state.players.keys(),
            state.players.coherent(),
            i <= n,
            before.node_keys.len() <= MAX_NODES,
            ready == caches_ensured(first, before, repo@, d),
            want == economies(before, economy_caches(before, first, repo@, d), repo@, now as int, d),
            state@ == (StateView { players: state@.players, ..before }),
            state@.players.dom() == before.players.dom(),
            caches@ == (if i == 0 {
                first
            } else {
                ready
            }),
            caches@.bounded(),
            forall|j: int|
                0 <= j < i ==> state@.players[#[trigger] keys[j]] == want.players[keys[j]],
            forall|j: int|
                i <= j < n ==> state@.players[#[trigger] keys[j]] == before.players[keys[j]],
        decreases n - i,
    {
        let ghost id = keys[i as int];
        let player_id = state.players.key_at(i).clone();
        let ghost prior = state@;
        recompute_player_economy(state, caches, repo, player_id.as_str(), now, distance);
        proof {
            assert(caches@ == ready);
            lemma_tally_ignores_players(list_of(ready, id), ready, prior, before, repo@, id, d);
            assert(before.players.contains_key(id));
            assert(state@.players[id] == want.players[id]);
            assert(state@.players.dom() =~= before.players.dom());
            assert(keys == state.players.keys());
            assert forall|j: int| 0 <= j < n && j != i implies #[trigger] keys[j] != id by {}
        }
        i += 1;
    }
    proof {
        assert(state@.players =~= want.players) by {
            assert forall|k: Seq<char>| #[trigger] before.players.contains_key(k) implies state@.players[k]
                == want.players[k] by {
                let w = keys.index_of(k);
                assert(keys[w] == k);
            }
        }
    }
}

/// A tick before its attacks: the world follows the road map, gold accrues, armies are
/// raised.
pub open spec fn before_attacks(
    scene: Scene,
    repo: RepoView,
    now: int,
    distance: spec_fn(Coord, Coord) -> u64,
) -> Scene {
    let state = synced(scene.state, scene.caches, repo, now);
    let caches = economy_caches(state, caches_synced(scene.caches, repo), repo, distance);
    Scene {
        state: produced(economies(state, caches, repo, now, distance), caches, repo),
        caches,
    }
}

/// One tick: the world follows the road map, gold accrues, armies are raised,
/// attacks have their turn.
pub open spec fn stepped(
    scene: Scene,
    repo: RepoView,
    now: int,
    distance: spec_fn(Coord, Coord) -> u64,
) -> Scene {
    fought(before_attacks(scene, repo, now, distance))
}

/// No army in the state is negative.
pub open spec fn armies_sound(state: StateView) -> bool {
    forall|k: Seq<char>| #[trigger] state.nodes.contains_key(k) ==> state.nodes[k].army >= 0
}

proof fn lemma_hospitals(
    ids: Seq<Seq<char>>,
    caches: CachesView,
    state: StateView,
    repo: RepoView,
    player: Seq<char>,
    distance: spec_fn(Coord, Coord) -> u64,
)
    ensures
        crate::economy::tally_of(ids, caches, state, repo, player, distance).hospitals >= 0,
    decreases ids.len(),
{
    if ids.len() > 0 {
        lemma_hospitals(ids.drop_last(), caches, state, repo, player, distance);
    }
}

/// Before its attacks, a tick leaves the state sound.
proof fn lemma_ready_to_fight(
    state: StateView,
    caches: CachesView,
    repo: RepoView,
    now: int,
    distance: spec_fn(Coord, Coord) -> u64,
)
    requires
        armies_sound(state),
    ensures
        sound(produced(economies(state, caches, repo, now, distance), caches, repo)),
        capped(state) ==> capped(
            produced(economies(state, caches, repo, now, distance), caches, repo),
        ),
{
    let paid = economies(state, caches, repo, now, distance);
    let ready = produced(paid, caches, repo);
    assert forall|p: Seq<char>| #[trigger] ready.players.contains_key(p) implies 0
        <= ready.players[p].damage_reduction <= 99 by {
        lemma_hospitals(list_of(caches, p), caches, state, repo, p, distance);
    }
    assert forall|k: Seq<char>| #[trigger] ready.nodes.contains_key(k) implies ready.nodes[k].army
        >= 0 && (capped(state) ==> ready.nodes[k].army <= crate::numeric::ARMY_CAP) by {
        assert(state.nodes.contains_key(k));
    }
}

/// A tick keeps every army between nothing and the cap.
pub proof fn law_step_keeps_bounds(
    scene: Scene,
    repo: RepoView,
    now: int,
    distance: spec_fn(Coord, Coord) -> u64,
)
    requires
        armies_sound(scene.state),
    ensures
        armies_sound(stepped(scene, repo, now, distance).state),
        capped(scene.state) ==> capped(stepped(scene, repo, now, distance).state),
{
    let state = synced(scene.state, scene.caches, repo, now);
    let caches = economy_caches(state, caches_synced(scene.caches, repo), repo, distance);
    assert(armies_sound(state)) by {
        assert forall|k: Seq<char>| #[trigger] state.nodes.contains_key(k) implies state.nodes[k].army
            >= 0 by {
            if scene.state.nodes.contains_key(k) {
            }
        }
    }
    assert(capped(scene.state) ==> capped(state)) by {
        assert forall|k: Seq<char>| capped(scene.state) && #[trigger] state.nodes.contains_key(
            k,
        ) implies state.nodes[k].army <= crate::numeric::ARMY_CAP by {
            if scene.state.nodes.contains_key(k) {
            }
        }
    }
    lemma_ready_to_fight(state, caches, repo, now, distance);
    let ready = Scene {
        state: produced(economies(state, caches, repo, now, distance), caches, repo),
        caches,
    };
    law_attacks_keep_nodes(ready, ready.state.attack_keys);
}

/// Bringing the world in line with the road map leaves the attacks walked.
proof fn lemma_attacks_walked(
    scene: Scene,
    repo: RepoView,
    now: int,
    distance: spec_fn(Coord, Coord) -> u64,
)
    requires
        walks(scene.state.attack_keys, scene.state.attacks),
    ensures
        ({
            let ready = before_attacks(scene, repo, now, distance).state;
            walks(ready.attack_keys, ready.attacks)
        }),
{
    if out_of_step(scene.caches, repo) {
        let keys = scene.state.attack_keys;
        let stays = |a: Seq<char>| on_map(scene.state.attacks[a], repo);
        let kept = keys.filter(stays);
        let ready = before_attacks(scene, repo, now, distance).state;
        assert(ready.attack_keys == kept);
        lemma_filter_unique(keys, stays);
        broadcast use vstd::seq_lib::group_filter_ensures;

        assert forall|k: Seq<char>| #[trigger] ready.attacks.contains_key(k) <==> kept.contains(
            k,
        ) by {
            if ready.attacks.contains_key(k) {
                assert(keys.contains(k) && stays(k));
            }
            if kept.contains(k) {
                let m = kept.index_of(k);
                lemma_filter_source(keys, stays, m);
                assert(keys.contains(k));
            }
        }
    }
}

/// After a tick every attack starts at a node of the world that has an army, and aims at
/// one of the world.
pub proof fn law_step_leaves_no_spent_attack(
    scene: Scene,
    repo: RepoView,
    now: int,
    distance: spec_fn(Coord, Coord) -> u64,
    id: Seq<char>,
)
    requires
        walks(scene.state.attack_keys, scene.state.attacks),
        stepped(scene, repo, now, distance).state.attacks.contains_key(id),
    ensures
        ({
            let next = stepped(scene, repo, now, distance).state;
            let attack = next.attacks[id];
            &&& next.nodes.contains_key(attack.from) && next.nodes[attack.from].army > 0
            &&& next.nodes.contains_key(attack.to)
        }),
{
    let ready = before_attacks(scene, repo, now, distance);
    lemma_attacks_walked(scene, repo, now, distance);
    lemma_turns(ready, ready.state.attack_keys, id);
}

/// An attack whose ends are in hand when its turn comes is gone after the tick only if its
/// source has no army left, and is gone then.
pub proof fn law_attack_goes_only_when_spent(
    scene: Scene,
    repo: RepoView,
    now: int,
    distance: spec_fn(Coord, Coord) -> u64,
    i: int,
)
    requires
        walks(scene.state.attack_keys, scene.state.attacks),
        0 <= i < before_attacks(scene, repo, now, distance).state.attack_keys.len(),
        ({
            let ready = before_attacks(scene, repo, now, distance);
            let keys = ready.state.attack_keys;
            !void_attack(ready.state.attacks[keys[i]], attacks_run(ready, keys.take(i)).state.nodes)
        }),
    ensures
        ({
            let ready = before_attacks(scene, repo, now, distance).state;
            let id = ready.attack_keys[i];
            let next = stepped(scene, repo, now, distance).state;
            next.attacks.contains_key(id) <==> next.nodes[ready.attacks[id].from].army > 0
        }),
{
    let ready = before_attacks(scene, repo, now, distance);
    let keys = ready.state.attack_keys;
    let id = keys[i];
    lemma_attacks_walked(scene, repo, now, distance);
    assert(keys.contains(id));
    assert(!keys.take(i).contains(id));
    lemma_turns(ready, keys.take(i), id);
    lemma_stays_after_turn(ready, keys, i, keys.len() as int);
    assert(keys.take(keys.len() as int) =~= keys);
    lemma_turns(ready, keys, id);
}

/// A tick does not touch who may log in.
pub proof fn law_step_keeps_accounts(
    scene: Scene,
    repo: RepoView,
    now: int,
    distance: spec_fn(Coord, Coord) -> u64,
)
    requires
        armies_sound(scene.state),
    ensures
        ({
            let next = stepped(scene, repo, now, distance).state;
            &&& next.players.dom() == scene.state.players.dom()
            &&& next.usernames == scene.state.usernames
            &&& next.sessions == scene.state.sessions
            &&& next.version == scene.state.version
            &&& forall|p: Seq<char>| #[trigger]
                next.players.contains_key(p) ==> next.players[p].password_hash
                    == scene.state.players[p].password_hash && next.players[p].username
                    == scene.state.players[p].username
        }),
{
    let state = synced(scene.state, scene.caches, repo, now);
    let caches = economy_caches(state, caches_synced(scene.caches, repo), repo, distance);
    let ready = Scene {
        state: produced(economies(state, caches, repo, now, distance), caches, repo),
        caches,
    };
    lemma_attacks_keep_rest(ready, ready.state.attack_keys);
    assert(ready.state.players.dom() =~= scene.state.players.dom());
}

proof fn lemma_attacks_keep_rest(scene: Scene, ids: Seq<Seq<char>>)
    ensures
        ({
            let next = attacks_run(scene, ids).state;
            &&& next.players == scene.state.players
            &&& next.player_keys == scene.state.player_keys
            &&& next.usernames == scene.state.usernames
            &&& next.sessions == scene.state.sessions
            &&& next.version == scene.state.version
            &&& next.node_keys == scene.state.node_keys
        }),
    decreases ids.len(),
{
    if ids.len() > 0 {
        lemma_attacks_keep_rest(scene, ids.drop_last());
    }
}

/// Advances the world by one tick. Whether the road map changed it: the state is
/// then to be written.
pub fn step_world<F: Fn(Coord, Coord) -> u64>(
    state: &mut GameState,
    caches: &mut Caches,
    repo: &NodeRepo,
    now: i64,
    distance: &F,
) -> (write: bool)
    requires
        measures(*distance),
        armies_sound(old(state)@),
        old(caches)@.bounded(),
        old(state)@.node_keys.len() <= MAX_NODES,
        repo@.node_keys.len() <= MAX_NODES,
    ensures
        final(state)@ == stepped(
            (Scene { state: old(state)@, caches: old(caches)@ }),
            repo@,
            now as int,
            metric(*distance),
        ).state,
        final(caches)@ == stepped(
            (Scene { state: old(state)@, caches: old(caches)@ }),
            repo@,
            now as int,
            metric(*distance),
        ).caches,
        write == (out_of_step(old(caches)@, repo@) && drifted(old(state)@, repo@)),
        armies_sound(final(state)@),
        final(caches)@.bounded(),
        final(state)@.node_keys.len() <= MAX_NODES,
{
    let ghost start = Scene { state: state@, caches: caches@ };
    let ghost d = metric(*distance);
    proof {
        law_step_keeps_bounds(start, repo@, now as int, d);
    }
    let write: bool = sync_world_nodes(state, caches, repo, now);
    proof {
        assert(armies_sound(state@)) by {
            assert forall|k: Seq<char>| #[trigger] state@.nodes.contains_key(k) implies state@.nodes[k].army
                >= 0 by {
                if start.state.nodes.contains_key(k) {
                }
            }
        }
    }
    let ghost mid = state@;
    recompute_economies(state, caches, repo, now, distance);
    proof {
        lemma_ready_to_fight(mid, caches@, repo@, now as int, d);
    }
    raise_armies(state, caches, repo);
    let ghost ready = Scene { state: state@, caches: caches@ };
    fight(state, caches);
    proof {
        lemma_attacks_keep_rest(ready, ready.state.attack_keys);
        lemma_attacks_keep_lists(ready, ready.state.attack_keys);
    }
    write
}

proof fn lemma_attacks_keep_lists(scene: Scene, ids: Seq<Seq<char>>)
    ensures
        attacks_run(scene, ids).caches.player_nodes == scene.caches.player_nodes,
    decreases ids.len(),
{
    if ids.len() > 0 {
        lemma_attacks_keep_lists(scene, ids.drop_last());
    }
}

/// `n` ticks.
pub open spec fn stepped_times(
    scene: Scene,
    n: nat,
    repo: RepoView,
    now: int,
    distance: spec_fn(Coord, Coord) -> u64,
) -> Scene
    decreases n,
{
    if n == 0 {
        scene
    } else {
        stepped(
            stepped_times(scene, (n - 1) as nat, repo, now, distance),
            repo,
            now,
            distance,
        )
    }
}

/// Ticks since the clock was last advanced, as many as are caught up on. A clock
/// that was never set counts from now.
pub open spec fn elapsed_ticks(last_tick_at: int, now: int) -> nat {
    let last = if last_tick_at > 0 {
        last_tick_at
    } else {
        now
    };
    if now <= last {
        0
    } else if (now - last) / (WORLD_TICK_MS as int) > MAX_CATCH_UP_TICKS {
        MAX_CATCH_UP_TICKS as nat
    } else {
        ((now - last) / (WORLD_TICK_MS as int)) as nat
    }
}

/// The state is written when the last write is five seconds back.
pub open spec fn due_for_write(state: StateView, now: int) -> bool {
    now - state.last_persisted_at >= 5000
}

/// The scene after the clock is advanced to `now`.
pub open spec fn ticked(
    scene: Scene,
    repo: RepoView,
    now: int,
    distance: spec_fn(Coord, Coord) -> u64,
) -> Scene {
    let n = elapsed_ticks(scene.state.last_tick_at, now);
    if n == 0 {
        scene
    } else {
        let run = stepped_times(scene, n, repo, now, distance);
        let state = StateView { last_tick_at: now, ..run.state };
        Scene {
            state: if due_for_write(state, now) {
                saved(state, now)
            } else {
                state
            },
            ..run
        }
    }
}

/// Whether advancing the clock asks for the state to be written.
pub open spec fn tick_writes(
    scene: Scene,
    repo: RepoView,
    now: int,
    distance: spec_fn(Coord, Coord) -> u64,
) -> bool {
    let n = elapsed_ticks(scene.state.last_tick_at, now);
    &&& n > 0
    &&& {
        ||| out_of_step(scene.caches, repo) && drifted(scene.state, repo)
        ||| due_for_write(stepped_times(scene, n, repo, now, distance).state, now)
    }
}

/// Once in line with the road map, the world stays so.
proof fn lemma_in_step(
    scene: Scene,
    n: nat,
    repo: RepoView,
    now: int,
    distance: spec_fn(Coord, Coord) -> u64,
)
    requires
        n > 0,
    ensures
        !out_of_step(stepped_times(scene, n, repo, now, distance).caches, repo),
    decreases n,
{
    let prior = stepped_times(scene, (n - 1) as nat, repo, now, distance);
    let state = synced(prior.state, prior.caches, repo, now);
    let caches = economy_caches(state, caches_synced(prior.caches, repo), repo, distance);
    let ready = Scene {
        state: produced(economies(state, caches, repo, now, distance), caches, repo),
        caches,
    };
    lemma_attacks_keep_version(ready, ready.state.attack_keys);
}

proof fn lemma_attacks_keep_version(scene: Scene, ids: Seq<Seq<char>>)
    ensures
        attacks_run(scene, ids).caches.synced_version
            == scene.caches.synced_version,
    decreases ids.len(),
{
    if ids.len() > 0 {
        lemma_attacks_keep_version(scene, ids.drop_last());
    }
}

/// How many ticks are due.
pub fn count_ticks(last_tick_at: i64, now: i64) -> (n: usize)
    ensures
        n == elapsed_ticks(last_tick_at as int, now as int),
{
    let last: i64 = if last_tick_at > 0 {
        last_tick_at
    } else {
        now
    };
    let behind: i128 = now as i128 - last as i128;
    if behind <= 0 {
        return 0;
    }
    let ticks: i128 = behind / WORLD_TICK_MS as i128;
    if ticks > MAX_CATCH_UP_TICKS as i128 {
        MAX_CATCH_UP_TICKS
    } else {
        ticks as usize
    }
}

/// Advances the clock to `now`. Whether the state is to be written.
pub fn tick_world<F: Fn(Coord, Coord) -> u64>(
    state: &mut GameState,
    caches: &mut Caches,
    repo: &NodeRepo,
    now: i64,
    distance: &F,
) -> (write: bool)
    requires
        measures(*distance),
        armies_sound(old(state)@),
        old(caches)@.bounded(),
        old(state)@.node_keys.len() <= MAX_NODES,
        repo@.node_keys.len() <= MAX_NODES,
    ensures
        final(state)@ == ticked(
            (Scene { state: old(state)@, caches: old(caches)@ }),
            repo@,
            now as int,
            metric(*distance),
        ).state,
        final(caches)@ == ticked(
            (Scene { state: old(state)@, caches: old(caches)@ }),
            repo@,
            now as int,
            metric(*distance),
        ).caches,
        write == tick_writes(
            (Scene { state: old(state)@, caches: old(caches)@ }),
            repo@,
            now as int,
            metric(*distance),
        ),
        armies_sound(final(state)@),
        final(caches)@.bounded(),
        final(state)@.node_keys.len() <= MAX_NODES,
{
    let ghost start = Scene { state: state@, caches: caches@ };
    let ghost d = metric(*distance);
    let n: usize = count_ticks(state.last_tick_at, now);
    if n == 0 {
        return false;
    }
    let mut write: bool = false;
    let mut i: usize = 0;
    while i < n
        invariant
            measures(*distance),
            d == metric(*distance),
            i <= n,
            repo@.node_keys.len() <= MAX_NODES,
            armies_sound(state@),
            caches@.bounded(),
            state@.node_keys.len() <= MAX_NODES,
            state@ == stepped_times(start, i as nat, repo@, now as int, d).state,
            caches@ == stepped_times(start, i as nat, repo@, now as int, d).caches,
            write == (i > 0 && out_of_step(start.caches, repo@) && drifted(start.state, repo@)),
        decreases n - i,
    {
        proof {
            assert((Scene { state: state@, caches: caches@ }) == stepped_times(
                start,
                i as nat,
                repo@,
                now as int,
                d,
            ));
            if i > 0 {
                lemma_in_step(start, i as nat, repo@, now as int, d);
            }
        }
        let moved: bool = step_world(state, caches, repo, now, distance);
        write = write || moved;
        i += 1;
    }
    state.last_tick_at = now;
    if now as i128 - state.last_persisted_at as i128 >= 5000 {
        state.mark_saved(now);
        write = true;
    }
    write
}

/// Whether a session is still good at `now`.
pub open spec fn unexpired(state: StateView, token: Seq<char>, now: int) -> bool {
    state.sessions[token].expires_at > now
}

/// The state without the sessions that have expired at `now`.
pub open spec fn purged(state: StateView, now: int) -> StateView {
    StateView {
        sessions: state.sessions.filter_keys(|t: Seq<char>| unexpired(state, t, now)),
        ..state
    }
}

/// Drops the sessions that have expired. Whether there were any.
pub fn purge_expired_sessions(state: &mut GameState, now: i64) -> (removed: bool)
    ensures
        final(state)@ == purged(old(state)@, now as int),
        removed == exists|t: Seq<char>| #[trigger]
            old(state)@.sessions.contains_key(t) && !unexpired(old(state)@, t, now as int),
{
    let ghost before = state@;
    let ghost stays = |t: Seq<char>| unexpired(before, t, now as int);
    let mut keep: Vec<bool> = Vec::new();
    let mut removed = false;
    let n: usize = state.sessions.len();
    let ghost keys = state.sessions.keys();
    let mut i: usize = 0;
    while i < n
        invariant
            *state == *old(state),
            before == state@,
            stays == (|t: Seq<char>| unexpired(before, t, now as int)),
            state.sessions.coherent(),
            keys == state.sessions.keys(),
            n == keys.len(),
            i <= n,
            keep.len() == i,
            forall|j: int| 0 <= j < i ==> keep[j] == #[trigger] stays(keys[j]),
            removed ==> exists|t: Seq<char>| #[trigger]
                before.sessions.contains_key(t) && !unexpired(before, t, now as int),
            !removed ==> forall|j: int| 0 <= j < i ==> stays(#[trigger] keys[j]),
        decreases n - i,
    {
        let good: bool = state.sessions.value_at(i).expires_at > now;
        proof {
            assert(before.sessions.contains_key(keys[i as int]));
        }
        if !good {
            removed = true;
        }
        keep.push(good);
        i += 1;
    }
    state.sessions.retain(&keep, Ghost(stays));
    proof {
        if !removed {
            assert forall|t: Seq<char>| #[trigger] before.sessions.contains_key(t) implies unexpired(
                before,
                t,
                now as int,
            ) by {
                assert(keys.contains(t));
                assert(stays(keys[keys.index_of(t)]));
            }
        }
    }
    removed
}

/// Whether some session has expired at `now`.
pub open spec fn any_expired(state: StateView, now: int) -> bool {
    exists|t: Seq<char>| #[trigger] state.sessions.contains_key(t) && !unexpired(state, t, now)
}

/// What the server does after the clock was advanced.
pub struct TickReport {
    /// Whether the state is to be written.
    pub write: bool,
    /// The version to announce to players.
    pub version: i64,
}

/// What becomes of the scene and of the calls counted since the last purge.
pub open spec fn background_outcome(
    scene: Scene,
    after: Scene,
    since_purge: u64,
    now_since: u64,
    r: TickReport,
    repo: RepoView,
    now: int,
    distance: spec_fn(Coord, Coord) -> u64,
) -> bool {
    let next = ticked(scene, repo, now, distance);
    let due = since_purge + 1 >= PURGE_EVERY;
    &&& now_since == (if due {
        0
    } else {
        since_purge + 1
    })
    &&& after.caches == next.caches
    &&& after.state == (if !due {
        next.state
    } else if any_expired(next.state, now) {
        saved(purged(next.state, now), now)
    } else {
        purged(next.state, now)
    })
    &&& r.write == (tick_writes(scene, repo, now, distance) || due && any_expired(next.state, now))
    &&& r.version == after.state.version
}

/// Advances the clock, and on every sixtieth call drops expired sessions.
pub fn background_tick<F: Fn(Coord, Coord) -> u64>(
    state: &mut GameState,
    caches: &mut Caches,
    repo: &NodeRepo,
    since_purge: &mut u64,
    now: i64,
    distance: &F,
) -> (r: TickReport)
    requires
        measures(*distance),
        armies_sound(old(state)@),
        old(caches)@.bounded(),
        old(state)@.node_keys.len() <= MAX_NODES,
        repo@.node_keys.len() <= MAX_NODES,
        *old(since_purge) < u64::MAX,
    ensures
        background_outcome(
            (Scene { state: old(state)@, caches: old(caches)@ }),
            (Scene { state: final(state)@, caches: final(caches)@ }),
            *old(since_purge),
            *final(since_purge),
            r,
            repo@,
            now as int,
            metric(*distance),
        ),
        armies_sound(final(state)@),
        final(caches)@.bounded(),
        final(state)@.node_keys.len() <= MAX_NODES,
{
    let mut write: bool = tick_world(state, caches, repo, now, distance);
    let passed: u64 = *since_purge + 1;
    if passed >= PURGE_EVERY {
        *since_purge = 0;
        if purge_expired_sessions(state, now) {
            state.mark_saved(now);
            write = true;
        }
    } else {
        *since_purge = passed;
    }
    TickReport { write, version: state.version }
}

/// Dropping expired sessions takes no session away that is still good.
pub proof fn law_purge_spares_good_sessions(
    state: StateView,
    now: int,
    token: Seq<char>,
    later: int,
)
    requires
        now <= later,
    ensures
        session_refusal(purged(state, now), token, later) is None <==> session_refusal(
            state,
            token,
            later,
        ) is None,
{
}

/// Ticks add up: so many and so many more are as many as both together.
pub proof fn law_ticks_add_up(
    scene: Scene,
    n: nat,
    m: nat,
    repo: RepoView,
    now: int,
    distance: spec_fn(Coord, Coord) -> u64,
)
    ensures
        stepped_times(stepped_times(scene, n, repo, now, distance), m, repo, now, distance)
            == stepped_times(scene, n + m, repo, now, distance),
    decreases m,
{
    if m > 0 {
        law_ticks_add_up(scene, n, (m - 1) as nat, repo, now, distance);
    }
}

} // verus!
