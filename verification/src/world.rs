//! The world: nodes that follow the road map, production, attacks and ticks.
use vstd::prelude::*;

use crate::economy::{lemma_take_contains, Caches, CachesView};
use crate::repo::{NodeRepo, RepoView};
use crate::state::{AttackView, GameState, NodeView, StateView, WorldNode};

verus! {

/// A node that nobody has taken yet.
pub open spec fn neutral_node() -> NodeView {
    NodeView { owner: None, army: 10, building: None }
}

/// Both ends of an attack are on the road map.
pub open spec fn on_map(attack: AttackView, repo: RepoView) -> bool {
    repo.nodes.contains_key(attack.from) && repo.nodes.contains_key(attack.to)
}

/// The world has nodes that the road map lacks, or lacks some that it has, or
/// holds an attack that leaves it.
pub open spec fn drifted(state: StateView, repo: RepoView) -> bool {
    ||| exists|k: Seq<char>| #[trigger]
        repo.nodes.contains_key(k) != state.nodes.contains_key(k)
    ||| exists|a: Seq<char>| #[trigger] state.attacks.contains_key(a) && !on_map(state.attacks[a], repo)
}

/// The world with the nodes of the road map: new ones come in neutral, others
/// leave together with their cooldowns and attacks.
pub open spec fn on_road_map(state: StateView, repo: RepoView) -> StateView {
    StateView {
        nodes: Map::new(
            |k: Seq<char>| repo.nodes.contains_key(k),
            |k: Seq<char>|
                if state.nodes.contains_key(k) {
                    state.nodes[k]
                } else {
                    neutral_node()
                },
        ),
        node_keys: state.node_keys.filter(|k: Seq<char>| repo.nodes.contains_key(k))
            + repo.node_keys.filter(|k: Seq<char>| !state.nodes.contains_key(k)),
        cooldowns: state.cooldowns.filter_keys(
            |k: Seq<char>| repo.nodes.contains_key(k) || !state.nodes.contains_key(k),
        ),
        attacks: state.attacks.filter_keys(|a: Seq<char>| on_map(state.attacks[a], repo)),
        attack_keys: state.attack_keys.filter(|a: Seq<char>| on_map(state.attacks[a], repo)),
        ..state
    }
}

/// The state as saved at `now`.
pub open spec fn saved(state: StateView, now: int) -> StateView {
    StateView { saved_at: now, last_persisted_at: now, ..state }
}

/// Whether a road map came in since the world was last brought in line.
pub open spec fn out_of_step(caches: CachesView, repo: RepoView) -> bool {
    caches.synced_version != repo.graph_version
}

/// The world brought in line with the road map.
pub open spec fn synced(
    state: StateView,
    caches: CachesView,
    repo: RepoView,
    now: int,
) -> StateView {
    if !out_of_step(caches, repo) {
        state
    } else if drifted(state, repo) {
        saved(on_road_map(state, repo), now)
    } else {
        on_road_map(state, repo)
    }
}

/// The indexes after the world is brought in line: of a new road map they are
/// stale.
pub open spec fn caches_synced(caches: CachesView, repo: RepoView) -> CachesView {
    if out_of_step(caches, repo) {
        CachesView {
            synced_version: repo.graph_version,
            membership_dirty: true,
            player_nodes_dirty: true,
            ..caches
        }
    } else {
        caches
    }
}

fn add_new_nodes(state: &mut GameState, repo: &NodeRepo) -> (added: bool)
    ensures
        final(state)@ == (StateView {
            nodes: final(state)@.nodes,
            node_keys: old(state)@.node_keys + repo@.node_keys.filter(
                |k: Seq<char>| !old(state)@.nodes.contains_key(k),
            ),
            ..old(state)@
        }),
        forall|k: Seq<char>| #[trigger]
            final(state)@.nodes.contains_key(k) <==> old(state)@.nodes.contains_key(k)
                || repo@.nodes.contains_key(k),
        forall|k: Seq<char>| #[trigger]
            final(state)@.nodes.contains_key(k) ==> final(state)@.nodes[k] == (if old(
                state,
            )@.nodes.contains_key(k) {
                old(state)@.nodes[k]
            } else {
                neutral_node()
            }),
        added == exists|k: Seq<char>|
            #![trigger repo@.nodes.contains_key(k)]
            repo@.nodes.contains_key(k) && !old(state)@.nodes.contains_key(k),
{
    let n: usize = repo.nodes_by_id.len();
    let ghost before = state@;
    let ghost keys = repo.nodes_by_id.keys();
    let ghost new = |k: Seq<char>| !before.nodes.contains_key(k);
    let mut added = false;
    let mut i: usize = 0;
    proof {
        assert(keys.take(0).filter(new) =~= Seq::<Seq<char>>::empty());
        assert(state@.node_keys =~= before.node_keys + keys.take(0).filter(new));
    }
    while i < n
        invariant
            n == keys.len(),
            keys == repo.nodes_by_id.keys(),
            repo.nodes_by_id.coherent(),
            i <= n,
            before == old(state)@,
            new == (|k: Seq<char>| !before.nodes.contains_key(k)),
            state@ == (StateView {
                nodes: state@.nodes,
                node_keys: before.node_keys + keys.take(i as int).filter(new),
                ..before
            }),
            forall|k: Seq<char>| #[trigger]
                state@.nodes.contains_key(k) <==> before.nodes.contains_key(k) || keys.take(
                    i as int,
                ).contains(k),
            forall|k: Seq<char>| #[trigger]
                state@.nodes.contains_key(k) ==> state@.nodes[k] == (if before.nodes.contains_key(
                    k,
                ) {
                    before.nodes[k]
                } else {
                    neutral_node()
                }),
            added ==> exists|k: Seq<char>|
                #![trigger repo@.nodes.contains_key(k)]
                repo@.nodes.contains_key(k) && !before.nodes.contains_key(k),
            !added ==> forall|k: Seq<char>| #[trigger]
                keys.take(i as int).contains(k) ==> before.nodes.contains_key(k),
        decreases n - i,
    {
        let id = repo.nodes_by_id.key_at(i);
        proof {
            lemma_take_contains(keys, i as int);
            reveal(Seq::filter);
            assert(keys.take(i + 1).drop_last() =~= keys.take(i as int));
            assert(keys.take(i + 1).last() == keys[i as int]);
            assert(repo@.nodes.contains_key(id@));
            if keys.take(i as int).contains(id@) {
                let w = keys.take(i as int).index_of(id@);
                assert(keys[w] == keys[i as int]);
            }
        }
        if !state.nodes.contains_key(id.as_str()) {
            state.nodes.insert(
                id.clone(),
                WorldNode { owner_id: None, army: 10, building: None },
            );
            added = true;
            proof {
                assert(state@.node_keys =~= before.node_keys + keys.take(i + 1).filter(new));
            }
        }
        i += 1;
    }
    proof {
        assert(keys.take(n as int) =~= keys);
    }
    added
}

fn drop_lost_nodes(state: &mut GameState, repo: &NodeRepo) -> (dropped: bool)
    ensures
        final(state)@ == (StateView {
            nodes: old(state)@.nodes.filter_keys(|k: Seq<char>| repo@.nodes.contains_key(k)),
            node_keys: old(state)@.node_keys.filter(|k: Seq<char>| repo@.nodes.contains_key(k)),
            cooldowns: old(state)@.cooldowns.filter_keys(
                |k: Seq<char>| repo@.nodes.contains_key(k) || !old(state)@.nodes.contains_key(k),
            ),
            ..old(state)@
        }),
        dropped == exists|k: Seq<char>|
            #![trigger old(state)@.nodes.contains_key(k)]
            old(state)@.nodes.contains_key(k) && !repo@.nodes.contains_key(k),
{
    let ghost before = state@;
    let ghost stays = |k: Seq<char>|
        repo@.nodes.contains_key(k) || !before.nodes.contains_key(k);
    let mut keep: Vec<bool> = Vec::new();
    let n: usize = state.building_cooldowns.len();
    let mut i: usize = 0;
    while i < n
        invariant
            *state == *old(state),
            before == state@,
            stays == (|k: Seq<char>|
                repo@.nodes.contains_key(k) || !before.nodes.contains_key(k)),
            n == state.building_cooldowns.keys().len(),
            i <= n,
            keep.len() == i,
            forall|j: int|
                0 <= j < i ==> keep[j] == #[trigger] stays(state.building_cooldowns.keys()[j]),
        decreases n - i,
    {
        let id = state.building_cooldowns.key_at(i);
        keep.push(
            repo.nodes_by_id.contains_key(id.as_str()) || !state.nodes.contains_key(id.as_str()),
        );
        i += 1;
    }
    state.building_cooldowns.retain(&keep, Ghost(stays));
    let ghost valid = |k: Seq<char>| repo@.nodes.contains_key(k);
    let mut keep: Vec<bool> = Vec::new();
    let mut dropped = false;
    let n: usize = state.nodes.len();
    let ghost keys = state.nodes.keys();
    let mut i: usize = 0;
    while i < n
        invariant
            state.nodes == old(state).nodes,
            before == old(state)@,
            state@ == (StateView { cooldowns: before.cooldowns.filter_keys(stays), ..before }),
            valid == (|k: Seq<char>| repo@.nodes.contains_key(k)),
            state.nodes.coherent(),
            keys == state.nodes.keys(),
            n == keys.len(),
            i <= n,
            keep.len() == i,
            forall|j: int| 0 <= j < i ==> keep[j] == #[trigger] valid(keys[j]),
            dropped ==> exists|k: Seq<char>|
                #![trigger before.nodes.contains_key(k)]
                before.nodes.contains_key(k) && !repo@.nodes.contains_key(k),
            !dropped ==> forall|j: int| 0 <= j < i ==> repo@.nodes.contains_key(#[trigger] keys[j]),
        decreases n - i,
    {
        let id = state.nodes.key_at(i);
        let there: bool = repo.nodes_by_id.contains_key(id.as_str());
        proof {
            assert(before.nodes.contains_key(id@));
        }
        if !there {
            dropped = true;
        }
        keep.push(there);
        i += 1;
    }
    state.nodes.retain(&keep, Ghost(valid));
    proof {
        if !dropped {
            assert forall|k: Seq<char>| #[trigger] before.nodes.contains_key(k) implies repo@.nodes.contains_key(
                k,
            ) by {
                assert(keys.contains(k));
            }
        }
    }
    dropped
}

fn drop_lost_attacks(state: &mut GameState, repo: &NodeRepo) -> (dropped: bool)
    ensures
        final(state)@ == (StateView {
            attacks: old(state)@.attacks.filter_keys(
                |a: Seq<char>| on_map(old(state)@.attacks[a], repo@),
            ),
            attack_keys: old(state)@.attack_keys.filter(
                |a: Seq<char>| on_map(old(state)@.attacks[a], repo@),
            ),
            ..old(state)@
        }),
        dropped == exists|a: Seq<char>| #[trigger]
            old(state)@.attacks.contains_key(a) && !on_map(old(state)@.attacks[a], repo@),
{
    let ghost before = state@;
    let ghost stays = |a: Seq<char>| on_map(before.attacks[a], repo@);
    let mut keep: Vec<bool> = Vec::new();
    let mut dropped = false;
    let n: usize = state.attacks.len();
    let ghost keys = state.attacks.keys();
    let mut i: usize = 0;
    while i < n
        invariant
            *state == *old(state),
            before == state@,
            stays == (|a: Seq<char>| on_map(before.attacks[a], repo@)),
            state.attacks.coherent(),
            keys == state.attacks.keys(),
            n == keys.len(),
            i <= n,
            keep.len() == i,
            forall|j: int| 0 <= j < i ==> keep[j] == #[trigger] stays(keys[j]),
            dropped ==> exists|a: Seq<char>| #[trigger]
                before.attacks.contains_key(a) && !on_map(before.attacks[a], repo@),
            !dropped ==> forall|j: int| 0 <= j < i ==> stays(#[trigger] keys[j]),
        decreases n - i,
    {
        let attack = state.attacks.value_at(i);
        let there: bool = repo.nodes_by_id.contains_key(attack.from_node_id.as_str())
            && repo.nodes_by_id.contains_key(attack.to_node_id.as_str());
        proof {
            assert(before.attacks.contains_key(keys[i as int]));
        }
        if !there {
            dropped = true;
        }
        keep.push(there);
        i += 1;
    }
    state.attacks.retain(&keep, Ghost(stays));
    proof {
        if !dropped {
            assert forall|a: Seq<char>| #[trigger] before.attacks.contains_key(a) implies on_map(
                before.attacks[a],
                repo@,
            ) by {
                assert(keys.contains(a));
                assert(stays(keys[keys.index_of(a)]));
            }
        }
    }
    dropped
}

/// Brings the world in line with the road map. Whether it changed: the state is
/// then to be written.
pub fn sync_world_nodes(
    state: &mut GameState,
    caches: &mut Caches,
    repo: &NodeRepo,
    now: i64,
) -> (modified: bool)
    ensures
        final(state)@ == synced(old(state)@, old(caches)@, repo@, now as int),
        final(caches)@ == caches_synced(old(caches)@, repo@),
        modified == (out_of_step(old(caches)@, repo@) && drifted(old(state)@, repo@)),
        final(state)@.node_keys.len() == (if out_of_step(old(caches)@, repo@) {
            repo@.node_keys.len()
        } else {
            old(state)@.node_keys.len()
        }),
{
    if caches.synced_graph_version == repo.graph_version {
        return false;
    }
    let ghost before = state@;
    caches.synced_graph_version = repo.graph_version;
    caches.city_membership_dirty = true;
    caches.player_nodes_dirty = true;
    let ghost known = |k: Seq<char>| repo@.nodes.contains_key(k);
    let ghost new = |k: Seq<char>| !before.nodes.contains_key(k);
    repo.nodes_by_id.recall_coherent();
    let added: bool = add_new_nodes(state, repo);
    let ghost grown = state@;
    let dropped: bool = drop_lost_nodes(state, repo);
    let lost: bool = drop_lost_attacks(state, repo);
    state.nodes.recall_coherent();
    proof {
        let want = on_road_map(before, repo@);
        let fresh = repo@.node_keys.filter(new);
        Seq::filter_distributes_over_add(before.node_keys, fresh, known);
        assert forall|i: int| 0 <= i < fresh.len() implies known(#[trigger] fresh[i]) by {
            lemma_filter_source(repo@.node_keys, new, i);
        }
        lemma_filter_all(fresh, known);
        assert(state@.nodes =~= want.nodes);
        assert(state@.node_keys =~= want.node_keys);
        assert(state@.cooldowns =~= want.cooldowns);
        assert(state@ =~= want);
        assert forall|k: Seq<char>| state@.node_keys.contains(k) == repo@.node_keys.contains(k) by {
            assert(state@.nodes.contains_key(k) == repo@.nodes.contains_key(k));
        }
        assert(state@.node_keys.to_set() =~= repo@.node_keys.to_set());
        state@.node_keys.unique_seq_to_set();
        repo@.node_keys.unique_seq_to_set();
        if added {
            let k = choose|k: Seq<char>|
                #![trigger repo@.nodes.contains_key(k)]
                repo@.nodes.contains_key(k) && !before.nodes.contains_key(k);
            assert(repo@.nodes.contains_key(k) != before.nodes.contains_key(k));
        }
        if dropped {
            let k = choose|k: Seq<char>|
                #![trigger grown.nodes.contains_key(k)]
                grown.nodes.contains_key(k) && !repo@.nodes.contains_key(k);
            assert(repo@.nodes.contains_key(k) != before.nodes.contains_key(k));
        }
        if !added && !dropped {
            assert forall|k: Seq<char>| #[trigger]
                repo@.nodes.contains_key(k) == before.nodes.contains_key(k) by {
                if repo@.nodes.contains_key(k) {
                    assert(before.nodes.contains_key(k));
                }
                if before.nodes.contains_key(k) {
                    assert(grown.nodes.contains_key(k));
                    assert(repo@.nodes.contains_key(k));
                }
            }
        }
    }
    let modified: bool = added || dropped || lost;
    if modified {
        state.mark_saved(now);
    }
    modified
}

/// What a filter lets through was there before, and passes.
pub proof fn lemma_filter_source<T>(s: Seq<T>, pred: spec_fn(T) -> bool, i: int)
    requires
        0 <= i < s.filter(pred).len(),
    ensures
        s.contains(s.filter(pred)[i]),
        pred(s.filter(pred)[i]),
    decreases s.len(),
{
    reveal(Seq::filter);
    let front = s.drop_last();
    if i < front.filter(pred).len() {
        lemma_filter_source(front, pred, i);
        let w = front.index_of(front.filter(pred)[i]);
        assert(s[w] == s.filter(pred)[i]);
    } else {
        assert(s[s.len() - 1] == s.filter(pred)[i]);
    }
}

/// A filter makes nothing come twice.
pub proof fn lemma_filter_unique<T>(s: Seq<T>, pred: spec_fn(T) -> bool)
    requires
        s.no_duplicates(),
    ensures
        s.filter(pred).no_duplicates(),
    decreases s.len(),
{
    reveal(Seq::filter);
    if s.len() > 0 {
        let front = s.drop_last();
        lemma_filter_unique(front, pred);
        assert forall|i: int| 0 <= i < front.filter(pred).len() implies front.filter(pred)[i]
            != s.last() by {
            lemma_filter_source(front, pred, i);
        }
    }
}

/// Filtering by what holds of every element keeps all.
pub proof fn lemma_filter_all<T>(s: Seq<T>, pred: spec_fn(T) -> bool)
    requires
        forall|i: int| 0 <= i < s.len() ==> pred(#[trigger] s[i]),
    ensures
        s.filter(pred) == s,
    decreases s.len(),
{
    reveal(Seq::filter);
    if s.len() > 0 {
        lemma_filter_all(s.drop_last(), pred);
        assert(s =~= s.drop_last().push(s.last()));
    }
}

/// Where a road map came in, the world has exactly its nodes afterwards, its attacks
/// run between them, and a node that was there before is as it was.
pub proof fn law_synced_world_follows_map(
    state: StateView,
    caches: CachesView,
    repo: RepoView,
    now: int,
    node: Seq<char>,
)
    requires
        out_of_step(caches, repo),
    ensures
        ({
            let after = synced(state, caches, repo, now);
            &&& !drifted(after, repo)
            &&& after.nodes.contains_key(node) == repo.nodes.contains_key(node)
            &&& after.nodes.contains_key(node) ==> after.nodes[node] == (if state.nodes.contains_key(
                node,
            ) {
                state.nodes[node]
            } else {
                neutral_node()
            })
            &&& after.players == state.players
            &&& after.sessions == state.sessions
        }),
{
}

/// Bringing a world in line twice changes nothing more.
pub proof fn law_sync_twice_is_once(
    state: StateView,
    caches: CachesView,
    repo: RepoView,
    now: int,
    later: int,
)
    ensures
        synced(synced(state, caches, repo, now), caches_synced(caches, repo), repo, later)
            == synced(state, caches, repo, now),
        caches_synced(caches_synced(caches, repo), repo) == caches_synced(caches, repo),
{
}

} // verus!
