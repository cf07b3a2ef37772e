//! How nodes raise armies.
use vstd::prelude::*;

use crate::buildings::{holds, BuildingType};
use crate::economy::{inside_city, is_node_inside_player_city, Caches, CachesView};
use crate::numeric::ARMY_CAP;
use crate::repo::{EdgeList, EdgeView, NodeRepo, RepoView};
use crate::state::{GameState, NodeView, StateView};

verus! {

/// What the neighbour at the end of a road adds, in quarters: one army for a
/// barracks of the same player, half as much again inside a city.
pub open spec fn barracks_bonus(
    edge: EdgeView,
    player: Seq<char>,
    nodes: Map<Seq<char>, NodeView>,
    caches: CachesView,
) -> nat {
    if nodes.contains_key(edge.to) && nodes[edge.to].owner == Some(player)
        && nodes[edge.to].building == Some(BuildingType::Barracks) {
        if inside_city(caches, edge.to, player) {
            6
        } else {
            4
        }
    } else {
        0
    }
}

/// What all neighbours add, in quarters.
pub open spec fn barracks_bonuses(
    edges: Seq<EdgeView>,
    player: Seq<char>,
    nodes: Map<Seq<char>, NodeView>,
    caches: CachesView,
) -> nat
    decreases edges.len(),
{
    if edges.len() == 0 {
        0
    } else {
        barracks_bonuses(edges.drop_last(), player, nodes, caches) + barracks_bonus(
            edges.last(),
            player,
            nodes,
            caches,
        )
    }
}

/// The roads that leave a node.
pub open spec fn roads_from(repo: RepoView, id: Seq<char>) -> Seq<EdgeView> {
    if repo.adjacency.contains_key(id) {
        repo.adjacency[id]
    } else {
        Seq::empty()
    }
}

/// Army that a node raises per tick for its owner, in quarters: one, and what the
/// neighbours add; half as much again inside the owner's city; nothing off the map.
pub open spec fn production_quarters(
    id: Seq<char>,
    player: Seq<char>,
    nodes: Map<Seq<char>, NodeView>,
    caches: CachesView,
    repo: RepoView,
) -> nat {
    if !repo.coords.contains_key(id) {
        0
    } else {
        let base = 4 + barracks_bonuses(roads_from(repo, id), player, nodes, caches);
        if inside_city(caches, id, player) {
            base * 3 / 2
        } else {
            base
        }
    }
}

fn count_bonuses(list: &EdgeList, player_id: &str, state: &GameState, caches: &Caches) -> (r: u128)
    ensures
        r == barracks_bonuses(list@, player_id@, state@.nodes, caches@),
        r <= 6 * u64::MAX,
{
    let ghost edges = list@;
    let mut sum: u128 = 0;
    let mut i: usize = 0;
    while i < list.edges.len()
        invariant
            edges == list@,
            i <= list.edges.len(),
            sum <= 6 * i,
            sum == barracks_bonuses(edges.take(i as int), player_id@, state@.nodes, caches@),
        decreases list.edges.len() - i,
    {
        proof {
            assert(edges.take(i + 1).drop_last() =~= edges.take(i as int));
            assert(edges.take(i + 1).last() == edges[i as int]);
        }
        let to = list.edges[i].to.as_str();
        if let Some(neighbor) = state.nodes.get(to) {
            if neighbor.owned_by(player_id) && holds(&neighbor.building, BuildingType::Barracks) {
                sum = sum + if is_node_inside_player_city(caches, to, player_id) {
                    6u128
                } else {
                    4u128
                };
            }
        }
        i += 1;
    }
    proof {
        assert(edges.take(i as int) =~= edges);
    }
    sum
}

/// Army raised per tick, in quarters.
pub fn node_army_production_rate(
    state: &GameState,
    caches: &Caches,
    repo: &NodeRepo,
    node_id: &str,
    player_id: &str,
) -> (r: u128)
    ensures
        r == production_quarters(node_id@, player_id@, state@.nodes, caches@, repo@),
{
    if !repo.coords_by_id.contains_key(node_id) {
        return 0;
    }
    let bonuses: u128 = match repo.adjacency.get(node_id) {
        Some(list) => count_bonuses(list, player_id, state, caches),
        None => 0,
    };
    let base: u128 = 4 + bonuses;
    if is_node_inside_player_city(caches, node_id, player_id) {
        base * 3 / 2
    } else {
        base
    }
}

/// A node after it raised its army. Only nodes with an owner raise any, up to the
/// cap; on a node with a building no army stands.
pub open spec fn produced_node(
    id: Seq<char>,
    nodes: Map<Seq<char>, NodeView>,
    caches: CachesView,
    repo: RepoView,
) -> NodeView {
    let node = nodes[id];
    if node.building is Some {
        NodeView { army: 0, ..node }
    } else {
        match node.owner {
            None => node,
            Some(player) => {
                let quarters = production_quarters(id, player, nodes, caches, repo);
                if quarters == 0 {
                    node
                } else if node.army + quarters / 4 > ARMY_CAP {
                    NodeView { army: ARMY_CAP as int, ..node }
                } else {
                    NodeView { army: node.army + quarters / 4, ..node }
                }
            },
        }
    }
}

/// All nodes after they raised their armies.
pub open spec fn produced(state: StateView, caches: CachesView, repo: RepoView) -> StateView {
    StateView {
        nodes: Map::new(
            |id: Seq<char>| state.nodes.contains_key(id),
            |id: Seq<char>| produced_node(id, state.nodes, caches, repo),
        ),
        ..state
    }
}

/// Production reads who owns what, not how large armies are.
proof fn lemma_bonuses_ignore_armies(
    edges: Seq<EdgeView>,
    player: Seq<char>,
    a: Map<Seq<char>, NodeView>,
    b: Map<Seq<char>, NodeView>,
    caches: CachesView,
)
    requires
        a.dom() == b.dom(),
        forall|k: Seq<char>| #[trigger]
            a.contains_key(k) ==> a[k].owner == b[k].owner && a[k].building == b[k].building,
    ensures
        barracks_bonuses(edges, player, a, caches) == barracks_bonuses(edges, player, b, caches),
    decreases edges.len(),
{
    if edges.len() > 0 {
        lemma_bonuses_ignore_armies(edges.drop_last(), player, a, b, caches);
        assert(a.contains_key(edges.last().to) == b.contains_key(edges.last().to));
    }
}

/// Lets every node raise its army.
pub fn raise_armies(state: &mut GameState, caches: &Caches, repo: &NodeRepo)
    ensures
        final(state)@ == produced(old(state)@, caches@, repo@),
{
    let ghost before = state@;
    let ghost want = produced(before, caches@, repo@);
    let ghost keys = state.nodes.keys();
    let n: usize = state.nodes.len();
    let mut i: usize = 0;
    proof {
        assert forall|k: Seq<char>| before.nodes.contains_key(k) implies !keys.take(0).contains(
            k,
        ) by {}
    }
    while i < n
        invariant
            keys == state.nodes.keys(),
            keys == before.node_keys,
            state.nodes.coherent(),
            n == keys.len(),
            i <= n,
            want == produced(before, caches@, repo@),
            state@ == (StateView { nodes: state@.nodes, ..before }),
            state@.nodes.dom() == before.nodes.dom(),
            forall|j: int|
                0 <= j < i ==> state@.nodes[#[trigger] keys[j]] == want.nodes[keys[j]],
            forall|j: int|
                i <= j < n ==> state@.nodes[#[trigger] keys[j]] == before.nodes[keys[j]],
        decreases n - i,
    {
        let ghost id = keys[i as int];
        let mut node = state.nodes.value_at(i).clone();
        proof {
            assert(before.nodes.contains_key(id));
            assert(node@ == before.nodes[id]);
            assert forall|k: Seq<char>| #[trigger] state@.nodes.contains_key(k) implies state@.nodes[k].owner
                == before.nodes[k].owner && state@.nodes[k].building == before.nodes[k].building by {
                let w = keys.index_of(k);
                assert(keys[w] == k);
                assert(before.nodes.contains_key(k));
            }
        }
        match &node.building {
            Some(_) => {
                node.army = 0;
            },
            None => {
                if let Some(owner) = &node.owner_id {
                    let quarters: u128 = node_army_production_rate(
                        state,
                        caches,
                        repo,
                        state.nodes.key_at(i).as_str(),
                        owner.as_str(),
                    );
                    proof {
                        lemma_bonuses_ignore_armies(
                            roads_from(repo@, id),
                            owner@,
                            state@.nodes,
                            before.nodes,
                            caches@,
                        );
                    }
                    if quarters > 0 {
                        let whole: u128 = quarters / 4;
                        let sum: i128 = node.army as i128 + whole as i128;
                        node.army = if sum > ARMY_CAP as i128 {
                            ARMY_CAP
                        } else {
                            sum as i64
                        };
                    }
                }
            },
        }
        proof {
            assert(node@ == produced_node(id, before.nodes, caches@, repo@));
            assert forall|j: int| 0 <= j < n && j != i implies #[trigger] keys[j] != id by {}
        }
        state.nodes.set_at(i, node);
        proof {
            assert(state@.nodes.dom() =~= before.nodes.dom());
        }
        i += 1;
    }
    proof {
        assert(state@.nodes =~= want.nodes) by {
            assert forall|k: Seq<char>| #[trigger] before.nodes.contains_key(k) implies state@.nodes[k]
                == want.nodes[k] by {
                let w = keys.index_of(k);
                assert(keys[w] == k);
            }
        }
    }
}

/// A node never holds more army than the cap after production, if it did not
/// before, and never less than nothing.
pub proof fn law_production_keeps_bounds(
    id: Seq<char>,
    nodes: Map<Seq<char>, NodeView>,
    caches: CachesView,
    repo: RepoView,
)
    requires
        0 <= nodes[id].army <= ARMY_CAP,
    ensures
        0 <= produced_node(id, nodes, caches, repo).army <= ARMY_CAP,
        nodes[id].building is None ==> produced_node(id, nodes, caches, repo).army
            >= nodes[id].army,
{
}

/// A node that nobody owns and that holds no building keeps its army; one with a building
/// holds none; and nothing but armies changes.
pub proof fn law_only_owners_raise_armies(
    state: StateView,
    caches: CachesView,
    repo: RepoView,
    id: Seq<char>,
)
    requires
        state.nodes.contains_key(id),
    ensures
        ({
            let before = state.nodes[id];
            let after = produced(state, caches, repo).nodes[id];
            &&& produced(state, caches, repo).nodes.contains_key(id)
            &&& after.owner == before.owner && after.building == before.building
            &&& before.building is Some ==> after.army == 0
            &&& before.building is None && before.owner is None ==> after.army == before.army
            &&& before.building is None && !repo.coords.contains_key(id) ==> after.army
                == before.army
        }),
{
}

/// What production leaves as it is.
pub proof fn law_production_changes_nodes_alone(
    state: StateView,
    caches: CachesView,
    repo: RepoView,
)
    ensures
        produced(state, caches, repo).nodes.dom() == state.nodes.dom(),
        produced(state, caches, repo) == (StateView {
            nodes: produced(state, caches, repo).nodes,
            ..state
        }),
{
    assert(produced(state, caches, repo).nodes.dom() =~= state.nodes.dom());
}

/// An owned node on the map, without building and without barracks next to it, raises one
/// army, up to a million; inside a city of its owner one and a half, of which it keeps one.
pub proof fn law_a_node_raises_one_army(
    state: StateView,
    caches: CachesView,
    repo: RepoView,
    id: Seq<char>,
    player: Seq<char>,
)
    requires
        state.nodes.contains_key(id),
        state.nodes[id].owner == Some(player),
        state.nodes[id].building is None,
        repo.coords.contains_key(id),
        forall|i: int|
            0 <= i < roads_from(repo, id).len() ==> {
                let to = (#[trigger] roads_from(repo, id)[i]).to;
                !(state.nodes.contains_key(to) && state.nodes[to].owner == Some(player)
                    && state.nodes[to].building == Some(BuildingType::Barracks))
            },
    ensures
        ({
            let before = state.nodes[id].army;
            let after = produced(state, caches, repo).nodes[id].army;
            let here = caches.membership.contains_key(id) && caches.membership[id] == player;
            &&& after == (if before + 1 <= 1_000_000 {
                before + 1
            } else {
                1_000_000
            })
            &&& production_quarters(id, player, state.nodes, caches, repo) == (if here {
                6nat
            } else {
                4nat
            })
        }),
{
    lemma_no_bonus(roads_from(repo, id), player, state.nodes, caches);
}

proof fn lemma_no_bonus(
    edges: Seq<EdgeView>,
    player: Seq<char>,
    nodes: Map<Seq<char>, NodeView>,
    caches: CachesView,
)
    requires
        forall|i: int|
            0 <= i < edges.len() ==> {
                let to = (#[trigger] edges[i]).to;
                !(nodes.contains_key(to) && nodes[to].owner == Some(player) && nodes[to].building
                    == Some(BuildingType::Barracks))
            },
    ensures
        barracks_bonuses(edges, player, nodes, caches) == 0,
    decreases edges.len(),
{
    if edges.len() > 0 {
        lemma_no_bonus(edges.drop_last(), player, nodes, caches);
        assert(edges.last() == edges[edges.len() - 1]);
    }
}

/// Of two road maps that differ in one more road from a node, the node raises more on the
/// second by what stands at its end: for an own barracks one army, one and a half if the
/// barracks is in an own city; nothing for anything else. In an own city it raises half as
/// much again, cut to quarters.
pub proof fn law_barracks_add_to_production(
    id: Seq<char>,
    player: Seq<char>,
    nodes: Map<Seq<char>, NodeView>,
    caches: CachesView,
    repo: RepoView,
    more: RepoView,
    edge: EdgeView,
)
    requires
        repo.coords.contains_key(id),
        more.coords.contains_key(id),
        roads_from(more, id) == roads_from(repo, id).push(edge),
    ensures
        ({
            let own = nodes.contains_key(edge.to) && nodes[edge.to].owner == Some(player)
                && nodes[edge.to].building == Some(BuildingType::Barracks);
            let housed = caches.membership.contains_key(edge.to) && caches.membership[edge.to]
                == player;
            let here = caches.membership.contains_key(id) && caches.membership[id] == player;
            let less = production_quarters(id, player, nodes, caches, repo);
            let now = production_quarters(id, player, nodes, caches, more);
            &&& !own ==> now == less
            &&& own && !housed && !here ==> now == less + 4
            &&& own && housed && !here ==> now == less + 6
            &&& own && !housed && here ==> now == less + 6
            &&& own && housed && here ==> now == less + 9
            &&& less >= 4
        }),
{
    let edges = roads_from(repo, id);
    assert(edges.push(edge).drop_last() =~= edges);
    lemma_bonuses_even(edges, player, nodes, caches);
}

proof fn lemma_bonuses_even(
    edges: Seq<EdgeView>,
    player: Seq<char>,
    nodes: Map<Seq<char>, NodeView>,
    caches: CachesView,
)
    ensures
        barracks_bonuses(edges, player, nodes, caches) % 2 == 0,
    decreases edges.len(),
{
    if edges.len() > 0 {
        lemma_bonuses_even(edges.drop_last(), player, nodes, caches);
    }
}

/// What a node raises in a tick is what it produces, in whole armies, up to a million.
pub proof fn law_production_comes_in_whole_armies(
    state: StateView,
    caches: CachesView,
    repo: RepoView,
    id: Seq<char>,
    player: Seq<char>,
)
    requires
        state.nodes.contains_key(id),
        state.nodes[id].owner == Some(player),
        state.nodes[id].building is None,
        state.nodes[id].army <= 1_000_000,
    ensures
        ({
            let quarters = production_quarters(id, player, state.nodes, caches, repo);
            let before = state.nodes[id].army;
            let after = produced(state, caches, repo).nodes[id].army;
            &&& before <= after <= 1_000_000
            &&& after < 1_000_000 ==> 4 * (after - before) <= quarters < 4 * (after - before) + 4
            &&& after == 1_000_000 ==> 4 * (after - before) <= quarters
        }),
{
}

} // verus!
