//! Attacks and transfers between nodes.
use vstd::prelude::*;

use crate::economy::{Caches, CachesView};
use crate::numeric::{
    attack_damage, clamp_i64, clamped, damage_of, law_damage_at_most_flow,
    law_damage_is_what_the_reduction_leaves, law_full_damage, ARMY_CAP, DOUBLE_EXACT,
};
use crate::state::{Attack, AttackView, GameState, NodeView, PlayerView, StateView};
use crate::table::other_than;
use crate::text::same_text;

verus! {

/// The game state with the indexes over it.
#[verifier::ext_equal]
pub struct Scene {
    pub state: StateView,
    pub caches: CachesView,
}

/// Whether an attack moves army between nodes of one player.
pub open spec fn is_transfer(attack: AttackView) -> bool {
    attack.mode == "transfer"@
}

/// The state without one attack.
pub open spec fn attack_removed(state: StateView, id: Seq<char>) -> StateView {
    StateView {
        attacks: state.attacks.remove(id),
        attack_keys: state.attack_keys.filter(other_than(id)),
        ..state
    }
}

/// The state with one attack turned into a transfer.
pub open spec fn attack_settled(state: StateView, id: Seq<char>) -> StateView {
    StateView {
        attacks: state.attacks.insert(
            id,
            AttackView { mode: "transfer"@, ..state.attacks[id] },
        ),
        ..state
    }
}

/// An attack whose ends are gone, whose source changed hands, or that moves army
/// to a node that its owner lost.
pub open spec fn void_attack(attack: AttackView, nodes: Map<Seq<char>, NodeView>) -> bool {
    ||| !nodes.contains_key(attack.from)
    ||| !nodes.contains_key(attack.to)
    ||| nodes[attack.from].owner != Some(attack.owner)
    ||| is_transfer(attack) && nodes[attack.to].owner != Some(attack.owner)
}

/// Army that leaves the source in one tick.
pub open spec fn flow_of(send_per_tick: int, army: int) -> int {
    clamped(
        if send_per_tick < 1 {
            1
        } else {
            send_per_tick
        },
        1,
        if army < 1 {
            1
        } else {
            army
        },
    )
}

/// Damage reduction of the owner of a node, in percent.
pub open spec fn reduction_of(
    owner: Option<Seq<char>>,
    players: Map<Seq<char>, PlayerView>,
) -> int {
    match owner {
        Some(p) => if players.contains_key(p) {
            players[p].damage_reduction
        } else {
            0
        },
        None => 0,
    }
}

/// A node that received `flow` from its own player.
pub open spec fn reinforced(node: NodeView, flow: int) -> NodeView {
    NodeView {
        army: if node.army + flow > ARMY_CAP {
            ARMY_CAP as int
        } else {
            node.army + flow
        },
        ..node
    }
}

/// A node that was hit by `damage` from `attacker`: it falls when the damage
/// exceeds its army, and its building is destroyed.
pub open spec fn struck(node: NodeView, damage: int, attacker: Seq<char>) -> NodeView {
    if node.army - damage < 0 {
        NodeView { owner: Some(attacker), army: damage - node.army, building: None }
    } else {
        NodeView { army: node.army - damage, ..node }
    }
}

/// The scene after one attack hits an enemy node with `flow`.
pub open spec fn after_strike(scene: Scene, id: Seq<char>, flow: int) -> Scene {
    let state = scene.state;
    let attack = state.attacks[id];
    let target = state.nodes[attack.to];
    let damage = damage_of(flow as nat, reduction_of(target.owner, state.players) as nat) as int;
    let falls = target.army - damage < 0;
    let hit = StateView {
        nodes: state.nodes.insert(attack.to, struck(target, damage, attack.owner)),
        cooldowns: if falls && target.building is Some {
            state.cooldowns.remove(attack.to)
        } else {
            state.cooldowns
        },
        ..state
    };
    if falls {
        Scene {
            state: attack_settled(hit, id),
            caches: CachesView {
                membership_dirty: scene.caches.membership_dirty || target.building is Some,
                player_nodes_dirty: true,
                ..scene.caches
            },
        }
    } else {
        Scene { state: hit, ..scene }
    }
}

/// The scene after one attack had its turn.
pub open spec fn attack_step(scene: Scene, id: Seq<char>) -> Scene {
    let state = scene.state;
    let attack = state.attacks[id];
    if !state.attacks.contains_key(id) {
        scene
    } else if void_attack(attack, state.nodes) {
        Scene { state: attack_removed(state, id), ..scene }
    } else if !is_transfer(attack) && state.nodes[attack.to].owner == Some(attack.owner) {
        Scene { state: attack_settled(state, id), ..scene }
    } else if state.nodes[attack.from].army <= 0 {
        scene
    } else {
        let source = state.nodes[attack.from];
        let flow = flow_of(attack.send_per_tick, source.army);
        let drained = StateView {
            nodes: state.nodes.insert(
                attack.from,
                NodeView { army: source.army - flow, ..source },
            ),
            ..state
        };
        if is_transfer(attack) {
            Scene {
                state: StateView {
                    nodes: drained.nodes.insert(
                        attack.to,
                        reinforced(drained.nodes[attack.to], flow),
                    ),
                    ..drained
                },
                ..scene
            }
        } else {
            after_strike(Scene { state: drained, ..scene }, id, flow)
        }
    }
}

/// The scene after the attacks `ids` had their turns, in order.
pub open spec fn attacks_run(scene: Scene, ids: Seq<Seq<char>>) -> Scene
    decreases ids.len(),
{
    if ids.len() == 0 {
        scene
    } else {
        attack_step(attacks_run(scene, ids.drop_last()), ids.last())
    }
}

/// No army is negative, and every damage reduction is below 100 percent.
pub open spec fn sound(state: StateView) -> bool {
    &&& forall|k: Seq<char>| #[trigger] state.nodes.contains_key(k) ==> state.nodes[k].army >= 0
    &&& forall|p: Seq<char>| #[trigger]
        state.players.contains_key(p) ==> 0 <= state.players[p].damage_reduction <= 99
}

/// No army exceeds the cap.
pub open spec fn capped(state: StateView) -> bool {
    forall|k: Seq<char>| #[trigger]
        state.nodes.contains_key(k) ==> state.nodes[k].army <= ARMY_CAP
}

/// An attack's turn leaves the state sound, and armies under the cap.
pub proof fn law_attack_keeps_bounds(scene: Scene, id: Seq<char>)
    requires
        sound(scene.state),
    ensures
        sound(attack_step(scene, id).state),
        capped(scene.state) ==> capped(attack_step(scene, id).state),
{
    let state = scene.state;
    let attack = state.attacks[id];
    if state.attacks.contains_key(id) && !void_attack(attack, state.nodes) {
        assert(state.nodes.contains_key(attack.from));
        assert(state.nodes.contains_key(attack.to));
        let flow = flow_of(attack.send_per_tick, state.nodes[attack.from].army);
        let percent = reduction_of(state.nodes[attack.to].owner, state.players);
        if flow < DOUBLE_EXACT && flow >= 0 {
            law_damage_at_most_flow(flow as nat, percent as nat);
        }
    }
}

/// The nodes of the world stay the same while attacks run; only who owns them,
/// their armies and their buildings change.
pub proof fn law_attacks_keep_nodes(scene: Scene, ids: Seq<Seq<char>>)
    requires
        sound(scene.state),
    ensures
        attacks_run(scene, ids).state.nodes.dom() == scene.state.nodes.dom(),
        attacks_run(scene, ids).state.node_keys == scene.state.node_keys,
        attacks_run(scene, ids).state.players == scene.state.players,
        sound(attacks_run(scene, ids).state),
        capped(scene.state) ==> capped(attacks_run(scene, ids).state),
    decreases ids.len(),
{
    if ids.len() > 0 {
        law_attacks_keep_nodes(scene, ids.drop_last());
        let mid = attacks_run(scene, ids.drop_last());
        law_attack_keeps_bounds(mid, ids.last());
        assert(attack_step(mid, ids.last()).state.nodes.dom() =~= mid.state.nodes.dom());
    } else {
        assert(attacks_run(scene, ids).state.nodes.dom() =~= scene.state.nodes.dom());
    }
}

/// Two attacks of one player between the same nodes.
pub open spec fn same_ends(a: AttackView, b: AttackView) -> bool {
    a.owner == b.owner && a.from == b.from && a.to == b.to
}

/// While attacks run, an attack keeps its ends, and is as it was before its turn. If it
/// had its turn and is still there, its ends are in the world.
pub proof fn lemma_turns(scene: Scene, ids: Seq<Seq<char>>, id: Seq<char>)
    ensures
        ({
            let before = scene.state;
            let run = attacks_run(scene, ids).state;
            &&& run.nodes.dom() == before.nodes.dom()
            &&& run.attacks.contains_key(id) ==> before.attacks.contains_key(id) && same_ends(
                run.attacks[id],
                before.attacks[id],
            )
            &&& ids.contains(id) && run.attacks.contains_key(id) ==> run.nodes.contains_key(
                run.attacks[id].from,
            ) && run.nodes.contains_key(run.attacks[id].to)
            &&& !ids.contains(id) ==> run.attacks.contains_key(id) == before.attacks.contains_key(
                id,
            ) && run.attacks[id] == before.attacks[id]
        }),
    decreases ids.len(),
{
    if ids.len() > 0 {
        let front = ids.drop_last();
        let turn = ids.last();
        lemma_turns(scene, front, id);
        let mid = attacks_run(scene, front);
        assert(attack_step(mid, turn).state.nodes.dom() =~= mid.state.nodes.dom());
        if ids.contains(id) && id != turn {
            let k = ids.index_of(id);
            assert(front[k] == id);
        }
        if !ids.contains(id) {
            assert(ids[ids.len() - 1] == turn);
            if front.contains(id) {
                let k = front.index_of(id);
                assert(ids[k] == id);
            }
        }
    }
}

/// An attack whose ends are in hand at its turn is still there when all had their turns.
pub proof fn lemma_stays_after_turn(scene: Scene, keys: Seq<Seq<char>>, i: int, n: int)
    requires
        keys.no_duplicates(),
        0 <= i < n <= keys.len(),
        ({
            let mid = attacks_run(scene, keys.take(i)).state;
            mid.attacks.contains_key(keys[i]) && !void_attack(mid.attacks[keys[i]], mid.nodes)
        }),
    ensures
        attacks_run(scene, keys.take(n)).state.attacks.contains_key(keys[i]),
    decreases n - i,
{
    assert(keys.take(n).drop_last() =~= keys.take(n - 1));
    assert(keys.take(n).last() == keys[n - 1]);
    if n - 1 > i {
        lemma_stays_after_turn(scene, keys, i, n - 1);
        assert(keys[n - 1] != keys[i]);
    }
}

/// Between nodes of one player nothing is lost: what leaves the source arrives,
/// as long as the target has room.
pub proof fn law_transfer_conserves(scene: Scene, id: Seq<char>)
    requires
        sound(scene.state),
        scene.state.attacks.contains_key(id),
        ({
            let attack = scene.state.attacks[id];
            &&& is_transfer(attack)
            &&& !void_attack(attack, scene.state.nodes)
            &&& attack.from != attack.to
            &&& scene.state.nodes[attack.to].army + flow_of(
                attack.send_per_tick,
                scene.state.nodes[attack.from].army,
            ) <= ARMY_CAP
        }),
    ensures
        ({
            let attack = scene.state.attacks[id];
            let next = attack_step(scene, id).state.nodes;
            next[attack.from].army + next[attack.to].army == scene.state.nodes[attack.from].army
                + scene.state.nodes[attack.to].army
        }),
{
}

/// One attack only changes its two nodes.
pub proof fn law_attack_is_local(scene: Scene, id: Seq<char>, other: Seq<char>)
    requires
        scene.state.attacks.contains_key(id),
        other != scene.state.attacks[id].from,
        other != scene.state.attacks[id].to,
    ensures
        attack_step(scene, id).state.nodes.contains_key(other)
            == scene.state.nodes.contains_key(other),
        attack_step(scene, id).state.nodes[other] == scene.state.nodes[other],
{
}

fn mode_is_transfer(attack: &Attack) -> (r: bool)
    ensures
        r == is_transfer(attack@),
{
    same_text(attack.mode.as_str(), "transfer")
}

/// Turns an attack into a transfer.
fn settle_attack(state: &mut GameState, id: &str)
    requires
        old(state)@.attacks.contains_key(id@),
    ensures
        final(state)@ == attack_settled(old(state)@, id@),
{
    if let Some(i) = state.attacks.position(id) {
        let mut attack = state.attacks.value_at(i).clone();
        attack.mode = "transfer".to_owned();
        state.attacks.set_at(i, attack);
    }
}

fn add_army(army: i64, flow: i64) -> (r: i64)
    requires
        army >= 0,
        flow >= 0,
    ensures
        r == (if army + flow > ARMY_CAP {
            ARMY_CAP as int
        } else {
            army + flow
        }),
{
    if flow > ARMY_CAP || army > ARMY_CAP - flow {
        ARMY_CAP
    } else {
        army + flow
    }
}

fn strike(state: &mut GameState, caches: &mut Caches, attack: &Attack, id: &str, flow: i64)
    requires
        sound(old(state)@),
        flow >= 0,
        old(state)@.attacks.contains_key(id@),
        old(state)@.attacks[id@] == attack@,
        old(state)@.nodes.contains_key(attack@.to),
    ensures
        final(state)@ == after_strike(
            (Scene { state: old(state)@, caches: old(caches)@ }),
            id@,
            flow as int,
        ).state,
        final(caches)@ == after_strike(
            (Scene { state: old(state)@, caches: old(caches)@ }),
            id@,
            flow as int,
        ).caches,
{
    let ghost before = state@;
    if let Some(i) = state.nodes.position(attack.to_node_id.as_str()) {
        let mut target = state.nodes.value_at(i).clone();
        let ghost seen = target@;
        proof {
            assert(before.nodes.contains_key(attack@.to));
        }
        let percent: i64 = match &target.owner_id {
            Some(owner) => match state.players.get(owner.as_str()) {
                Some(player) => {
                    proof {
                        assert(before.players.contains_key(owner@));
                    }
                    player.damage_reduction_percent
                },
                None => 0,
            },
            None => 0,
        };
        let damage: i64 = attack_damage(flow, percent);
        if target.army < damage {
            if target.building.is_some() {
                caches.city_membership_dirty = true;
                state.building_cooldowns.remove(attack.to_node_id.as_str());
            }
            target.owner_id = Some(attack.owner_id.clone());
            target.army = damage - target.army;
            target.building = None;
            caches.player_nodes_dirty = true;
            proof {
                assert(target@ == struck(seen, damage as int, attack@.owner));
            }
            state.nodes.set_at(i, target);
            settle_attack(state, id);
        } else {
            target.army = target.army - damage;
            state.nodes.set_at(i, target);
        }
    }
}

/// Gives one attack its turn.
pub fn run_attack(state: &mut GameState, caches: &mut Caches, id: &str)
    requires
        sound(old(state)@),
    ensures
        final(state)@ == attack_step(
            (Scene { state: old(state)@, caches: old(caches)@ }),
            id@,
        ).state,
        final(caches)@ == attack_step(
            (Scene { state: old(state)@, caches: old(caches)@ }),
            id@,
        ).caches,
{
    let ghost before = state@;
    let attack = match state.attacks.get(id) {
        Some(a) => a.clone(),
        None => {
            return;
        },
    };
    let ends = (
        state.nodes.position(attack.from_node_id.as_str()),
        state.nodes.position(attack.to_node_id.as_str()),
    );
    let (from, to): (usize, usize) = match ends {
        (Some(f), Some(t)) => (f, t),
        _ => {
            state.attacks.remove(id);
            return;
        },
    };
    proof {
        assert(before.nodes.contains_key(attack@.from));
        assert(before.nodes.contains_key(attack@.to));
    }
    let transfer: bool = mode_is_transfer(&attack);
    let owner = attack.owner_id.as_str();
    let at_home: bool = state.nodes.value_at(to).owned_by(owner);
    if !state.nodes.value_at(from).owned_by(owner) || (transfer && !at_home) {
        state.attacks.remove(id);
        return;
    }
    if !transfer && at_home {
        settle_attack(state, id);
        return;
    }
    let mut source = state.nodes.value_at(from).clone();
    if source.army <= 0 {
        return;
    }
    let wanted: i64 = if attack.send_per_tick < 1 {
        1
    } else {
        attack.send_per_tick
    };
    let flow: i64 = clamp_i64(wanted, 1, source.army);
    source.army = source.army - flow;
    state.nodes.set_at(from, source);
    let ghost drained = state@;
    if transfer {
        let mut target = state.nodes.value_at(to).clone();
        proof {
            assert(drained.nodes.contains_key(attack@.to));
        }
        target.army = add_army(target.army, flow);
        state.nodes.set_at(to, target);
    } else {
        proof {
            assert(sound(drained));
        }
        strike(state, caches, &attack, id, flow);
    }
}

/// Gives every attack in `ids` its turn.
fn run_attacks(state: &mut GameState, caches: &mut Caches, ids: &Vec<String>)
    requires
        sound(old(state)@),
    ensures
        final(state)@ == attacks_run(
            (Scene { state: old(state)@, caches: old(caches)@ }),
            crate::state::texts(ids@),
        ).state,
        final(caches)@ == attacks_run(
            (Scene { state: old(state)@, caches: old(caches)@ }),
            crate::state::texts(ids@),
        ).caches,
{
    let ghost start = Scene { state: state@, caches: caches@ };
    let ghost all = crate::state::texts(ids@);
    let mut i: usize = 0;
    proof {
        assert(attacks_run(start, all.take(0)) == start);
    }
    while i < ids.len()
        invariant
            sound(start.state),
            all == crate::state::texts(ids@),
            i <= ids.len(),
            state@ == attacks_run(start, all.take(i as int)).state,
            caches@ == attacks_run(start, all.take(i as int)).caches,
        decreases ids.len() - i,
    {
        proof {
            law_attacks_keep_nodes(start, all.take(i as int));
            assert(all.take(i + 1).drop_last() =~= all.take(i as int));
            assert(all.take(i + 1).last() == all[i as int]);
            assert((Scene { state: state@, caches: caches@ }) == attacks_run(
                start,
                all.take(i as int),
            ));
        }
        run_attack(state, caches, ids[i].as_str());
        i += 1;
    }
    proof {
        assert(all.take(i as int) =~= all);
    }
}

/// The node at which an attack starts has no army left.
pub open spec fn spent(attack: AttackView, nodes: Map<Seq<char>, NodeView>) -> bool {
    nodes.contains_key(attack.from) && nodes[attack.from].army <= 0
}

/// The state without attacks that start at a node without army. Attacks on such a
/// node stay, so that it can still be reinforced.
pub open spec fn spent_dropped(state: StateView) -> StateView {
    StateView {
        attacks: state.attacks.filter_keys(
            |a: Seq<char>| !spent(state.attacks[a], state.nodes),
        ),
        attack_keys: state.attack_keys.filter(
            |a: Seq<char>| !spent(state.attacks[a], state.nodes),
        ),
        ..state
    }
}

fn drop_spent_attacks(state: &mut GameState)
    ensures
        final(state)@ == spent_dropped(old(state)@),
{
    let ghost before = state@;
    let ghost stays = |a: Seq<char>| !spent(before.attacks[a], before.nodes);
    let mut keep: Vec<bool> = Vec::new();
    let n: usize = state.attacks.len();
    let mut i: usize = 0;
    while i < n
        invariant
            *state == *old(state),
            before == state@,
            stays == (|a: Seq<char>| !spent(before.attacks[a], before.nodes)),
            n == state.attacks.keys().len(),
            i <= n,
            keep.len() == i,
            forall|j: int| 0 <= j < i ==> keep[j] == #[trigger] stays(state.attacks.keys()[j]),
        decreases n - i,
    {
        let attack = state.attacks.value_at(i);
        let gone: bool = match state.nodes.get(attack.from_node_id.as_str()) {
            Some(node) => node.army <= 0,
            None => false,
        };
        keep.push(!gone);
        i += 1;
    }
    state.attacks.retain(&keep, Ghost(stays));
}

/// The scene after all attacks had their turn and spent ones are gone.
pub open spec fn fought(scene: Scene) -> Scene {
    let run = attacks_run(scene, scene.state.attack_keys);
    Scene { state: spent_dropped(run.state), ..run }
}

/// Gives every attack its turn, in the order in which they were made.
pub fn fight(state: &mut GameState, caches: &mut Caches)
    requires
        sound(old(state)@),
    ensures
        final(state)@ == fought((Scene { state: old(state)@, caches: old(caches)@ })).state,
        final(caches)@ == fought((Scene { state: old(state)@, caches: old(caches)@ })).caches,
{
    let mut ids: Vec<String> = Vec::new();
    let n: usize = state.attacks.len();
    let mut i: usize = 0;
    while i < n
        invariant
            *state == *old(state),
            n == state.attacks.keys().len(),
            i <= n,
            ids.len() == i,
            forall|j: int| 0 <= j < i ==> (#[trigger] ids@[j])@ == state.attacks.keys()[j],
        decreases n - i,
    {
        ids.push(state.attacks.key_at(i).clone());
        i += 1;
    }
    proof {
        assert(crate::state::texts(ids@) =~= state@.attack_keys);
    }
    run_attacks(state, caches, &ids);
    drop_spent_attacks(state);
}

/// The army that leaves the source of an attack at its turn is what is asked for, at least
/// one and at most all there is; the source changes in nothing else.
pub proof fn law_an_attack_sends_what_is_asked_for(scene: Scene, id: Seq<char>)
    requires
        scene.state.attacks.contains_key(id),
        ({
            let state = scene.state;
            let attack = state.attacks[id];
            &&& attack.from != attack.to
            &&& state.nodes.contains_key(attack.from) && state.nodes.contains_key(attack.to)
            &&& state.nodes[attack.from].owner == Some(attack.owner)
            &&& state.nodes[attack.from].army > 0
            &&& (attack.mode == "transfer"@) == (state.nodes[attack.to].owner == Some(
                attack.owner,
            ))
        }),
    ensures
        ({
            let attack = scene.state.attacks[id];
            let before = scene.state.nodes[attack.from];
            let next = attack_step(scene, id).state;
            let after = next.nodes[attack.from];
            let sent = before.army - after.army;
            &&& next.nodes.contains_key(attack.from)
            &&& after.owner == before.owner && after.building == before.building
            &&& next.attacks.contains_key(id)
            &&& attack.send_per_tick < 1 ==> sent == 1
            &&& 1 <= attack.send_per_tick <= before.army ==> sent == attack.send_per_tick
            &&& attack.send_per_tick > before.army ==> sent == before.army
        }),
{
}

/// Between own nodes the army that leaves one arrives at the other, which holds at most a
/// million, and nobody and nothing else changes.
pub proof fn law_a_transfer_arrives(scene: Scene, id: Seq<char>)
    requires
        scene.state.attacks.contains_key(id),
        ({
            let state = scene.state;
            let attack = state.attacks[id];
            &&& attack.mode == "transfer"@
            &&& attack.from != attack.to
            &&& state.nodes.contains_key(attack.from) && state.nodes.contains_key(attack.to)
            &&& state.nodes[attack.from].owner == Some(attack.owner)
            &&& state.nodes[attack.to].owner == Some(attack.owner)
        }),
    ensures
        ({
            let state = scene.state;
            let attack = state.attacks[id];
            let next = attack_step(scene, id).state;
            let sent = state.nodes[attack.from].army - next.nodes[attack.from].army;
            let target = state.nodes[attack.to];
            let after = next.nodes[attack.to];
            &&& after.owner == target.owner && after.building == target.building
            &&& state.nodes[attack.from].army <= 0 ==> attack_step(scene, id) == scene
            &&& state.nodes[attack.from].army > 0 && target.army + sent <= 1_000_000 ==> after.army
                == target.army + sent
            &&& state.nodes[attack.from].army > 0 && target.army + sent > 1_000_000 ==> after.army
                == 1_000_000
            &&& next == (StateView { nodes: next.nodes, ..state })
            &&& attack_step(scene, id).caches == scene.caches
        }),
{
}

/// How an attack strikes a node of somebody else or of nobody. Where the owner of the node
/// softens nothing, all that leaves the source is lost to the node; else only what the
/// softening leaves. A node falls when it would lose more than it has: to the attacker,
/// with the rest as its army and without its building; the attack is then a transfer.
pub proof fn law_an_attack_wears_down_or_captures(scene: Scene, id: Seq<char>)
    requires
        sound(scene.state),
        scene.state.attacks.contains_key(id),
        ({
            let state = scene.state;
            let attack = state.attacks[id];
            &&& attack.mode != "transfer"@
            &&& attack.from != attack.to
            &&& state.nodes.contains_key(attack.from) && state.nodes.contains_key(attack.to)
            &&& state.nodes[attack.from].owner == Some(attack.owner)
            &&& state.nodes[attack.to].owner != Some(attack.owner)
            &&& 0 < state.nodes[attack.from].army <= 1_000_000
        }),
    ensures
        ({
            let state = scene.state;
            let attack = state.attacks[id];
            let next = attack_step(scene, id).state;
            let sent = state.nodes[attack.from].army - next.nodes[attack.from].army;
            let target = state.nodes[attack.to];
            let after = next.nodes[attack.to];
            let fell = after.owner == Some(attack.owner);
            let lost = if fell {
                target.army + after.army
            } else {
                target.army - after.army
            };
            let percent = if target.owner is Some && state.players.contains_key(
                target.owner->Some_0,
            ) {
                state.players[target.owner->Some_0].damage_reduction
            } else {
                0
            };
            &&& percent == 0 ==> lost == sent
            &&& 100 * lost <= sent * (100 - percent) <= 100 * lost + 100
            &&& fell ==> after.army >= 1 && after.building is None
                && next.attacks[id].mode == "transfer"@
            &&& !fell ==> after.army >= 0 && after.owner == target.owner && after.building
                == target.building && next.attacks[id] == attack
            &&& fell <==> lost > target.army
            &&& next.attacks[id] == (AttackView { mode: next.attacks[id].mode, ..attack })
        }),
{
    let state = scene.state;
    let attack = state.attacks[id];
    let flow = flow_of(attack.send_per_tick, state.nodes[attack.from].army);
    let percent = reduction_of(state.nodes[attack.to].owner, state.players);
    law_full_damage(flow as nat);
    law_damage_is_what_the_reduction_leaves(flow as nat, percent as nat);
}

/// What a strike does besides: who owns what has to be indexed anew when a node fell, and
/// where cities reach when it held a building, whose cooldown is forgotten. Nothing else
/// changes.
pub proof fn law_a_strike_touches_nothing_else(scene: Scene, id: Seq<char>)
    requires
        scene.state.attacks.contains_key(id),
        ({
            let state = scene.state;
            let attack = state.attacks[id];
            &&& attack.mode != "transfer"@
            &&& attack.from != attack.to
            &&& state.nodes.contains_key(attack.from) && state.nodes.contains_key(attack.to)
            &&& state.nodes[attack.from].owner == Some(attack.owner)
            &&& state.nodes[attack.to].owner != Some(attack.owner)
            &&& state.nodes[attack.from].army > 0
        }),
    ensures
        ({
            let state = scene.state;
            let attack = state.attacks[id];
            let next = attack_step(scene, id);
            let fell = next.state.nodes[attack.to].owner == Some(attack.owner);
            let razed = fell && state.nodes[attack.to].building is Some;
            &&& next.state == (StateView {
                nodes: next.state.nodes,
                attacks: next.state.attacks,
                cooldowns: next.state.cooldowns,
                ..state
            })
            &&& next.state.cooldowns == (if razed {
                state.cooldowns.remove(attack.to)
            } else {
                state.cooldowns
            })
            &&& forall|other: Seq<char>| #![trigger next.state.attacks[other]]
                other != id ==> next.state.attacks[other] == state.attacks[other]
                    && next.state.attacks.contains_key(other) == state.attacks.contains_key(other)
            &&& next.caches == (CachesView {
                membership_dirty: scene.caches.membership_dirty || razed,
                player_nodes_dirty: scene.caches.player_nodes_dirty || fell,
                ..scene.caches
            })
        }),
{
}

/// When an attack does not go on: it is gone where an end is gone, its source is no longer
/// its owner's, or it brings army to a node that its owner lost; no army moves. An attack
/// on what is an own node by now turns into a transfer.
pub proof fn law_when_attacks_are_called_off(scene: Scene, id: Seq<char>)
    requires
        scene.state.attacks.contains_key(id),
    ensures
        ({
            let state = scene.state;
            let attack = state.attacks[id];
            let next = attack_step(scene, id).state;
            let placed = state.nodes.contains_key(attack.from) && state.nodes.contains_key(
                attack.to,
            );
            let held = placed && state.nodes[attack.from].owner == Some(attack.owner);
            let own_target = placed && state.nodes[attack.to].owner == Some(attack.owner);
            &&& !held || attack.mode == "transfer"@ && !own_target <==> !next.attacks.contains_key(
                id,
            )
            &&& !next.attacks.contains_key(id) ==> next.nodes == state.nodes
            &&& held && own_target && attack.mode != "transfer"@ ==> next.nodes == state.nodes
                && next.attacks[id] == (AttackView { mode: "transfer"@, ..attack })
            &&& held && state.nodes[attack.from].army <= 0 ==> next.nodes == state.nodes
        }),
{
}

/// Turns of other attacks leave a node alone that they neither start nor end at.
proof fn lemma_turns_elsewhere(scene: Scene, ids: Seq<Seq<char>>, node: Seq<char>)
    requires
        forall|i: int|
            0 <= i < ids.len() && scene.state.attacks.contains_key(#[trigger] ids[i])
                ==> scene.state.attacks[ids[i]].from != node && scene.state.attacks[ids[i]].to
                != node,
    ensures
        ({
            let run = attacks_run(scene, ids).state;
            &&& run.nodes.contains_key(node) == scene.state.nodes.contains_key(node)
            &&& run.nodes[node] == scene.state.nodes[node]
            &&& run.players == scene.state.players
        }),
    decreases ids.len(),
{
    if ids.len() > 0 {
        let front = ids.drop_last();
        let turn = ids.last();
        assert forall|i: int|
            0 <= i < front.len() && scene.state.attacks.contains_key(
                #[trigger] front[i],
            ) implies scene.state.attacks[front[i]].from != node
            && scene.state.attacks[front[i]].to != node by {
            assert(front[i] == ids[i]);
        }
        lemma_turns_elsewhere(scene, front, node);
        lemma_turns(scene, front, turn);
        assert(ids[ids.len() - 1] == turn);
    }
}

/// Every attack has its turn in a tick, once: where no other attack touches its two nodes,
/// they are after all turns as its own turn leaves them.
pub proof fn law_every_attack_has_one_turn(scene: Scene, i: int)
    requires
        crate::state::walks(scene.state.attack_keys, scene.state.attacks),
        0 <= i < scene.state.attack_keys.len(),
        forall|j: int|
            0 <= j < scene.state.attack_keys.len() && j != i ==> {
                let other = scene.state.attacks[#[trigger] scene.state.attack_keys[j]];
                let attack = scene.state.attacks[scene.state.attack_keys[i]];
                &&& other.from != attack.from && other.from != attack.to
                &&& other.to != attack.from && other.to != attack.to
            },
    ensures
        ({
            let state = scene.state;
            let id = state.attack_keys[i];
            let attack = state.attacks[id];
            let next = fought(scene).state;
            let turn = attack_step(scene, id).state;
            &&& next.nodes.contains_key(attack.from) == state.nodes.contains_key(attack.from)
            &&& next.nodes.contains_key(attack.to) == state.nodes.contains_key(attack.to)
            &&& next.nodes[attack.from] == turn.nodes[attack.from]
            &&& next.nodes[attack.to] == turn.nodes[attack.to]
        }),
{
    let keys = scene.state.attack_keys;
    let id = keys[i];
    let attack = scene.state.attacks[id];
    let before = keys.take(i);
    let after = keys.skip(i + 1);
    assert(keys.contains(id));
    assert forall|j: int|
        0 <= j < before.len() && scene.state.attacks.contains_key(
            #[trigger] before[j],
        ) implies scene.state.attacks[before[j]].from != attack.from
        && scene.state.attacks[before[j]].to != attack.from
        && scene.state.attacks[before[j]].from != attack.to
        && scene.state.attacks[before[j]].to != attack.to by {
        assert(before[j] == keys[j]);
    }
    assert(!before.contains(id));
    lemma_turns_elsewhere(scene, before, attack.from);
    lemma_turns_elsewhere(scene, before, attack.to);
    lemma_turns(scene, before, id);
    let mid = attacks_run(scene, before);
    let turned = attack_step(mid, id);
    assert(mid.state.attacks[id] == attack);
    assert(before.push(id) =~= keys.take(i + 1));
    assert(before.push(id).drop_last() =~= before);
    assert(attacks_run(scene, keys.take(i + 1)) == turned);
    lemma_run_on(scene, keys.take(i + 1), after);
    assert(keys.take(i + 1) + after =~= keys);
    assert forall|j: int|
        0 <= j < after.len() && turned.state.attacks.contains_key(
            #[trigger] after[j],
        ) implies turned.state.attacks[after[j]].from != attack.from
        && turned.state.attacks[after[j]].to != attack.from
        && turned.state.attacks[after[j]].from != attack.to
        && turned.state.attacks[after[j]].to != attack.to by {
        assert(after[j] == keys[i + 1 + j]);
        lemma_turns(scene, keys.take(i + 1), after[j]);
        assert(scene.state.attacks.contains_key(after[j]));
    }
    lemma_turns_elsewhere(turned, after, attack.from);
    lemma_turns_elsewhere(turned, after, attack.to);
}

/// Turns that follow turns.
proof fn lemma_run_on(scene: Scene, a: Seq<Seq<char>>, b: Seq<Seq<char>>)
    ensures
        attacks_run(scene, a + b) == attacks_run(attacks_run(scene, a), b),
    decreases b.len(),
{
    if b.len() == 0 {
        assert(a + b =~= a);
    } else {
        assert((a + b).drop_last() =~= a + b.drop_last());
        lemma_run_on(scene, a, b.drop_last());
    }
}

/// A node that no attack starts or ends at stays as it is, and so do the players.
pub proof fn law_attacks_leave_other_nodes_alone(scene: Scene, node: Seq<char>)
    requires
        forall|j: int|
            0 <= j < scene.state.attack_keys.len() ==> {
                let attack = scene.state.attacks[#[trigger] scene.state.attack_keys[j]];
                attack.from != node && attack.to != node
            },
    ensures
        fought(scene).state.nodes.contains_key(node) == scene.state.nodes.contains_key(node),
        fought(scene).state.nodes[node] == scene.state.nodes[node],
        fought(scene).state.players == scene.state.players,
{
    lemma_turns_elsewhere(scene, scene.state.attack_keys, node);
}

} // verus!
