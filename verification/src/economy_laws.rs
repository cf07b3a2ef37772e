//! What holds of gold, cities and income.
use vstd::prelude::*;

use crate::buildings::{cost_of, BuildingType};
use crate::economy::{
    cities, economy_recomputed, gold_updated, inside_city, is_city, list_of, membership_ensured,
    membership_rebuilt, nearest_among, nearest_city, owned, player_nodes_ensured,
    player_nodes_rebuilt, reached_by, tally_of, CachesView,
};
use crate::geometry::Coord;
use crate::repo::RepoView;
use crate::state::{NodeView, PlayerView, StateView};
use crate::world::lemma_filter_unique;

verus! {

/// What buildings cost.
pub proof fn law_prices(building: BuildingType)
    ensures
        building == BuildingType::Barracks ==> cost_of(building) == 100_000,
        building == BuildingType::City ==> cost_of(building) == 100_000_000,
        building == BuildingType::Market ==> cost_of(building) == 100_000,
        building == BuildingType::Bank ==> cost_of(building) == 10_000_000,
        building == BuildingType::Hospital ==> cost_of(building) == 100_000_000,
        building == BuildingType::Bar ==> cost_of(building) == 100_000,
        building == BuildingType::Silo ==> cost_of(building) == 10_000_000,
        building == BuildingType::Sam ==> cost_of(building) == 50_000_000,
{
}

/// A player earns the income once for every whole second since the gold was last brought up
/// to date, for an hour at most. Before a second has passed nothing changes.
pub proof fn law_gold_is_earned_by_the_second(
    state: StateView,
    player: Seq<char>,
    now: int,
    seconds: int,
)
    requires
        state.players.contains_key(player),
        0 <= seconds,
        1000 * seconds <= now - state.players[player].gold_updated_at < 1000 * (seconds + 1),
    ensures
        ({
            let before = state.players[player];
            let after = gold_updated(state, player, now).players[player];
            let paid = before.income * (if seconds <= 3600 {
                seconds
            } else {
                3600
            });
            &&& seconds == 0 ==> after == before
            &&& seconds > 0 && i64::MIN <= paid <= i64::MAX && i64::MIN <= before.gold + paid
                <= i64::MAX ==> after == (PlayerView {
                gold: before.gold + paid,
                gold_updated_at: now,
                ..before
            })
            &&& seconds > 0 && 0 <= before.gold && 0 <= before.income && before.gold + paid
                > i64::MAX ==> after == (PlayerView {
                gold: i64::MAX as int,
                gold_updated_at: now,
                ..before
            })
        }),
{
    let before = state.players[player];
    assert(before.income >= 0 ==> before.income * seconds >= 0 && before.income * 3600 >= 0)
        by (nonlinear_arith)
        requires
            seconds >= 0,
    ;
    let ms = now - before.gold_updated_at;
    assert(ms / 1000 == seconds);
}

/// A clock that was set back takes and gives nothing, and gold comes to nobody else.
pub proof fn law_gold_comes_to_one_player(state: StateView, player: Seq<char>, now: int)
    ensures
        ({
            let after = gold_updated(state, player, now);
            &&& after == (StateView { players: after.players, ..state })
            &&& after.players.dom() == state.players.dom()
            &&& forall|other: Seq<char>|
                other != player && #[trigger] state.players.contains_key(other)
                    ==> after.players[other] == state.players[other]
            &&& state.players.contains_key(player) && now <= state.players[player].gold_updated_at
                ==> after == state
        }),
{
    if state.players.contains_key(player) && now <= state.players[player].gold_updated_at {
        assert(gold_updated(state, player, now).players =~= state.players);
    }
}

/// Gold that is brought up to date in two steps, whole seconds apart, comes to the same as
/// in one.
pub proof fn law_gold_adds_up(state: StateView, player: Seq<char>, a: int, b: int)
    requires
        state.players.contains_key(player),
        0 <= a,
        0 <= b,
        a + b <= 3600,
        0 <= state.players[player].gold,
        0 <= state.players[player].income,
        state.players[player].gold + state.players[player].income * 3600 <= i64::MAX,
    ensures
        ({
            let start = state.players[player].gold_updated_at;
            let mid = gold_updated(state, player, start + 1000 * a);
            gold_updated(mid, player, start + 1000 * (a + b)).players[player].gold == gold_updated(
                state,
                player,
                start + 1000 * (a + b),
            ).players[player].gold
        }),
{
    let p = state.players[player];
    let start = p.gold_updated_at;
    assert(p.income * a + p.income * b == p.income * (a + b)) by (nonlinear_arith);
    assert(0 <= p.income * a && 0 <= p.income * b && p.income * (a + b) <= p.income * 3600)
        by (nonlinear_arith)
        requires
            0 <= a,
            0 <= b,
            a + b <= 3600,
            0 <= p.income,
    ;
    law_gold_is_earned_by_the_second(state, player, start + 1000 * a, a);
    law_gold_is_earned_by_the_second(state, player, start + 1000 * (a + b), a + b);
    let mid = gold_updated(state, player, start + 1000 * a);
    law_gold_is_earned_by_the_second(mid, player, start + 1000 * (a + b), b);
}

/// `city` carries a city of `player` no more than two kilometres from `at`. The number is
/// the bit pattern of the double 2.0.
pub open spec fn serves(
    city: Seq<char>,
    player: Seq<char>,
    at: Coord,
    nodes: Map<Seq<char>, NodeView>,
    coords: Map<Seq<char>, Coord>,
    distance: spec_fn(Coord, Coord) -> u64,
) -> bool {
    &&& nodes[city].owner == Some(player)
    &&& nodes[city].building == Some(BuildingType::City)
    &&& coords.contains_key(city)
    &&& distance(at, coords[city]) <= 0x4000_0000_0000_0000
}

/// The first city that serves a place says whose it is.
proof fn lemma_first_city_serves(
    keys: Seq<Seq<char>>,
    at: Coord,
    nodes: Map<Seq<char>, NodeView>,
    coords: Map<Seq<char>, Coord>,
    distance: spec_fn(Coord, Coord) -> u64,
)
    ensures
        match reached_by(cities(keys, nodes, coords), at, distance) {
            Some(owner) => exists|i: int|
                0 <= i < keys.len() && #[trigger] serves(
                    keys[i],
                    owner,
                    at,
                    nodes,
                    coords,
                    distance,
                ) && forall|j: int, other: Seq<char>|
                    0 <= j < i ==> !#[trigger] serves(keys[j], other, at, nodes, coords, distance),
            None => forall|j: int, other: Seq<char>|
                0 <= j < keys.len() ==> !#[trigger] serves(
                    keys[j],
                    other,
                    at,
                    nodes,
                    coords,
                    distance,
                ),
        },
    decreases keys.len(),
{
    if keys.len() > 0 {
        let front = keys.drop_last();
        let n = keys.len() - 1;
        lemma_first_city_serves(front, at, nodes, coords, distance);
        assert forall|j: int| 0 <= j < n implies #[trigger] front[j] == keys[j] by {}
        let earlier = cities(front, nodes, coords);
        match reached_by(earlier, at, distance) {
            Some(owner) => {
                if is_city(keys.last(), nodes, coords) {
                    assert(earlier.push((nodes[keys.last()].owner->0, coords[keys.last()])).drop_last()
                        =~= earlier);
                }
                let i = choose|i: int|
                    0 <= i < front.len() && #[trigger] serves(
                        front[i],
                        owner,
                        at,
                        nodes,
                        coords,
                        distance,
                    ) && forall|j: int, other: Seq<char>|
                        0 <= j < i ==> !#[trigger] serves(
                            front[j],
                            other,
                            at,
                            nodes,
                            coords,
                            distance,
                        );
                assert(serves(keys[i], owner, at, nodes, coords, distance));
                assert forall|j: int, other: Seq<char>| 0 <= j < i implies !#[trigger] serves(
                    keys[j],
                    other,
                    at,
                    nodes,
                    coords,
                    distance,
                ) by {
                    assert(!serves(front[j], other, at, nodes, coords, distance));
                }
            },
            None => {
                assert forall|j: int, other: Seq<char>| 0 <= j < n implies !#[trigger] serves(
                    keys[j],
                    other,
                    at,
                    nodes,
                    coords,
                    distance,
                ) by {
                    assert(!serves(front[j], other, at, nodes, coords, distance));
                }
                if is_city(keys.last(), nodes, coords) {
                    let owner = nodes[keys.last()].owner->0;
                    assert(earlier.push((owner, coords[keys.last()])).drop_last() =~= earlier);
                    if distance(at, coords[keys.last()]) <= 0x4000_0000_0000_0000 {
                        assert(serves(keys[n], owner, at, nodes, coords, distance));
                    }
                }
            },
        }
    }
}

/// A map node lies in a player's city exactly if a city of that player stands no more than
/// two kilometres away and no other city that reaches it comes before in the order of the
/// nodes.
pub proof fn law_cities_reach_two_kilometres(
    caches: CachesView,
    state: StateView,
    repo: RepoView,
    distance: spec_fn(Coord, Coord) -> u64,
    id: Seq<char>,
)
    ensures
        ({
            let after = membership_rebuilt(caches, state, repo, distance);
            let at = repo.nodes[id].coord;
            &&& after.membership.contains_key(id) <==> repo.nodes.contains_key(id) && exists|
                i: int,
                player: Seq<char>,
            |
                0 <= i < state.node_keys.len() && #[trigger] serves(
                    state.node_keys[i],
                    player,
                    at,
                    state.nodes,
                    repo.coords,
                    distance,
                )
            &&& forall|i: int, player: Seq<char>|
                repo.nodes.contains_key(id) && 0 <= i < state.node_keys.len() && #[trigger] serves(
                    state.node_keys[i],
                    player,
                    at,
                    state.nodes,
                    repo.coords,
                    distance,
                ) && (forall|j: int, other: Seq<char>|
                    0 <= j < i ==> !#[trigger] serves(
                        state.node_keys[j],
                        other,
                        at,
                        state.nodes,
                        repo.coords,
                        distance,
                    )) ==> inside_city(after, id, player)
        }),
{
    let at = repo.nodes[id].coord;
    let keys = state.node_keys;
    let found = reached_by(cities(keys, state.nodes, repo.coords), at, distance);
    lemma_first_city_serves(keys, at, state.nodes, repo.coords, distance);
    if found is Some {
        let first = choose|i: int|
            0 <= i < keys.len() && #[trigger] serves(
                keys[i],
                found->0,
                at,
                state.nodes,
                repo.coords,
                distance,
            ) && forall|j: int, other: Seq<char>|
                0 <= j < i ==> !#[trigger] serves(
                    keys[j],
                    other,
                    at,
                    state.nodes,
                    repo.coords,
                    distance,
                );
        assert forall|i: int, player: Seq<char>|
            repo.nodes.contains_key(id) && 0 <= i < keys.len() && #[trigger] serves(
                keys[i],
                player,
                at,
                state.nodes,
                repo.coords,
                distance,
            ) && (forall|j: int, other: Seq<char>|
                0 <= j < i ==> !#[trigger] serves(
                    keys[j],
                    other,
                    at,
                    state.nodes,
                    repo.coords,
                    distance,
                )) implies inside_city(
            membership_rebuilt(caches, state, repo, distance),
            id,
            player,
        ) by {
            assert(serves(keys[first], found->0, at, state.nodes, repo.coords, distance));
            if i < first {
                assert(!serves(keys[i], player, at, state.nodes, repo.coords, distance));
            }
            if first < i {
                assert(!serves(keys[first], found->0, at, state.nodes, repo.coords, distance));
            }
        }
    }
}

/// What is kept of the cities is recomputed when it is out of date or belongs to another road
/// map, and only then; nothing else is touched.
pub proof fn law_city_membership_is_kept(
    caches: CachesView,
    state: StateView,
    repo: RepoView,
    distance: spec_fn(Coord, Coord) -> u64,
)
    ensures
        ({
            let after = membership_ensured(caches, state, repo, distance);
            &&& !after.membership_dirty
            &&& after.membership_version == repo.graph_version
            &&& !caches.membership_dirty && caches.membership_version == repo.graph_version
                ==> after == caches
            &&& caches.membership_dirty || caches.membership_version != repo.graph_version
                ==> after == membership_rebuilt(caches, state, repo, distance)
            &&& after == (CachesView {
                membership: after.membership,
                membership_dirty: after.membership_dirty,
                membership_version: after.membership_version,
                ..caches
            })
        }),
{
}

/// A player's list holds the player's nodes and no others, each once, and there is a list for
/// exactly those who own a node.
pub proof fn law_lists_hold_what_players_own(caches: CachesView, state: StateView, player: Seq<char>)
    requires
        state.coherent(),
    ensures
        ({
            let after = player_nodes_rebuilt(caches, state);
            &&& forall|id: Seq<char>| #[trigger]
                list_of(after, player).contains(id) <==> state.nodes.contains_key(id)
                    && state.nodes[id].owner == Some(player)
            &&& list_of(after, player).no_duplicates()
            &&& after.player_nodes.contains_key(player) <==> list_of(after, player).len() > 0
            &&& !after.player_nodes_dirty
            &&& after == (CachesView {
                player_nodes: after.player_nodes,
                player_nodes_dirty: false,
                ..caches
            })
        }),
{
    let after = player_nodes_rebuilt(caches, state);
    let keys = state.node_keys;
    let pred = |k: Seq<char>| state.nodes[k].owner == Some(player);
    keys.lemma_filter_len(pred);
    assert forall|id: Seq<char>| #[trigger] list_of(after, player).contains(id) <==> (
    state.nodes.contains_key(id) && state.nodes[id].owner == Some(player)) by {
        let list = owned(keys, state.nodes, player);
        if list.contains(id) {
            let i = list.index_of(id);
            keys.lemma_filter_pred(pred, i);
            keys.lemma_filter_contains_rev(pred, id);
            assert(pred(list[i]));
        }
        if state.nodes.contains_key(id) && state.nodes[id].owner == Some(player) {
            let i = keys.index_of(id);
            assert(pred(keys[i]));
            keys.lemma_filter_contains(pred, i);
        }
    }
    lemma_filter_unique(keys, pred);
}

/// A player's nodes are listed in the order in which the world holds them: one more node at
/// the end of the world comes at the end of its owner's list and into no other.
pub proof fn law_lists_follow_the_world(
    keys: Seq<Seq<char>>,
    nodes: Map<Seq<char>, NodeView>,
    id: Seq<char>,
    player: Seq<char>,
)
    ensures
        owned(Seq::empty(), nodes, player) == Seq::<Seq<char>>::empty(),
        nodes[id].owner == Some(player) ==> owned(keys.push(id), nodes, player) == owned(
            keys,
            nodes,
            player,
        ).push(id),
        nodes[id].owner != Some(player) ==> owned(keys.push(id), nodes, player) == owned(
            keys,
            nodes,
            player,
        ),
{
    reveal(Seq::filter);
    assert(keys.push(id).drop_last() =~= keys);
}

/// The lists are recomputed when they are out of date, and only then.
pub proof fn law_lists_are_kept(caches: CachesView, state: StateView)
    ensures
        !caches.player_nodes_dirty ==> player_nodes_ensured(caches, state) == caches,
        caches.player_nodes_dirty ==> player_nodes_ensured(caches, state) == player_nodes_rebuilt(
            caches,
            state,
        ),
{
}

/// `list[i]` carries a city no more than two kilometres from `at`.
pub open spec fn stands_near(
    list: Seq<Seq<char>>,
    i: int,
    at: Coord,
    nodes: Map<Seq<char>, NodeView>,
    coords: Map<Seq<char>, Coord>,
    distance: spec_fn(Coord, Coord) -> u64,
) -> bool {
    &&& 0 <= i < list.len()
    &&& nodes.contains_key(list[i])
    &&& nodes[list[i]].building == Some(BuildingType::City)
    &&& coords.contains_key(list[i])
    &&& distance(at, coords[list[i]]) <= 0x4000_0000_0000_0000
}

proof fn lemma_nearest(
    list: Seq<Seq<char>>,
    at: Coord,
    nodes: Map<Seq<char>, NodeView>,
    coords: Map<Seq<char>, Coord>,
    distance: spec_fn(Coord, Coord) -> u64,
)
    ensures
        match nearest_among(list, at, nodes, coords, distance) {
            Some(best) => exists|i: int| #[trigger]
                stands_near(list, i, at, nodes, coords, distance) && list[i] == best.0 && best.1
                    == distance(at, coords[list[i]]) && forall|j: int| #[trigger]
                    stands_near(list, j, at, nodes, coords, distance) ==> {
                        &&& best.1 <= distance(at, coords[list[j]])
                        &&& j < i ==> best.1 < distance(at, coords[list[j]])
                    },
            None => forall|j: int| !#[trigger] stands_near(list, j, at, nodes, coords, distance),
        },
    decreases list.len(),
{
    if list.len() > 0 {
        let front = list.drop_last();
        let n = list.len() - 1;
        lemma_nearest(front, at, nodes, coords, distance);
        assert forall|j: int| j != n implies #[trigger] stands_near(
            list,
            j,
            at,
            nodes,
            coords,
            distance,
        ) == stands_near(front, j, at, nodes, coords, distance) by {
            if 0 <= j < n {
                assert(front[j] == list[j]);
            }
        }
        match nearest_among(front, at, nodes, coords, distance) {
            Some(best) => {
                let i = choose|i: int| #[trigger]
                    stands_near(front, i, at, nodes, coords, distance) && front[i] == best.0
                        && best.1 == distance(at, coords[front[i]]) && forall|j: int| #[trigger]
                        stands_near(front, j, at, nodes, coords, distance) ==> {
                            &&& best.1 <= distance(at, coords[front[j]])
                            &&& j < i ==> best.1 < distance(at, coords[front[j]])
                        };
                assert(stands_near(list, i, at, nodes, coords, distance));
                assert(list[i] == front[i]);
                if stands_near(list, n, at, nodes, coords, distance) {
                    assert(list[n] == list.last());
                }
            },
            None => {
                if stands_near(list, n, at, nodes, coords, distance) {
                    assert(list[n] == list.last());
                }
            },
        }
    }
}

/// A player's nearest city around a node is a city on the player's list within two
/// kilometres; none is nearer, and of equally near ones it is the first. There is one
/// whenever such a city is on the list and the node on the map.
pub proof fn law_which_city_is_nearest(
    caches: CachesView,
    state: StateView,
    repo: RepoView,
    player: Seq<char>,
    node: Seq<char>,
    distance: spec_fn(Coord, Coord) -> u64,
)
    ensures
        ({
            let list = list_of(caches, player);
            let at = repo.coords[node];
            match nearest_city(caches, state, repo, player, node, distance) {
                Some(city) => repo.coords.contains_key(node) && exists|i: int| #[trigger]
                    stands_near(list, i, at, state.nodes, repo.coords, distance) && list[i] == city
                        && forall|j: int| #[trigger]
                        stands_near(list, j, at, state.nodes, repo.coords, distance) ==> {
                            &&& distance(at, repo.coords[city]) <= distance(
                                at,
                                repo.coords[list[j]],
                            )
                            &&& j < i ==> distance(at, repo.coords[city]) < distance(
                                at,
                                repo.coords[list[j]],
                            )
                        },
                None => !repo.coords.contains_key(node) || forall|j: int| !#[trigger] stands_near(
                    list,
                    j,
                    at,
                    state.nodes,
                    repo.coords,
                    distance,
                ),
            }
        }),
{
    lemma_nearest(list_of(caches, player), repo.coords[node], state.nodes, repo.coords, distance);
}

/// How many nodes on a list carry a building of the given kind.
pub open spec fn count_of(list: Seq<Seq<char>>, state: StateView, building: BuildingType) -> nat {
    list.filter(
        |k: Seq<char>| state.nodes.contains_key(k) && state.nodes[k].building == Some(building),
    ).len()
}

/// `list[i]` carries a bank inside a city of the player, to which `city` is nearest.
pub open spec fn banks(
    list: Seq<Seq<char>>,
    i: int,
    caches: CachesView,
    state: StateView,
    repo: RepoView,
    player: Seq<char>,
    distance: spec_fn(Coord, Coord) -> u64,
    city: Seq<char>,
) -> bool {
    &&& 0 <= i < list.len()
    &&& state.nodes.contains_key(list[i])
    &&& state.nodes[list[i]].building == Some(BuildingType::Bank)
    &&& inside_city(caches, list[i], player)
    &&& nearest_city(caches, state, repo, player, list[i], distance) == Some(city)
}

proof fn lemma_counts(
    list: Seq<Seq<char>>,
    caches: CachesView,
    state: StateView,
    repo: RepoView,
    player: Seq<char>,
    distance: spec_fn(Coord, Coord) -> u64,
)
    ensures
        ({
            let tally = tally_of(list, caches, state, repo, player, distance);
            &&& tally.markets == count_of(list, state, BuildingType::Market)
            &&& tally.hospitals == count_of(list, state, BuildingType::Hospital)
            &&& tally.bars == count_of(list, state, BuildingType::Bar)
            &&& forall|city: Seq<char>| #[trigger]
                tally.bank_cities.contains(city) <==> exists|i: int| #[trigger]
                    banks(list, i, caches, state, repo, player, distance, city)
        }),
    decreases list.len(),
{
    reveal(Seq::filter);
    let tally = tally_of(list, caches, state, repo, player, distance);
    if list.len() > 0 {
        let front = list.drop_last();
        let n = list.len() - 1;
        lemma_counts(front, caches, state, repo, player, distance);
        let earlier = tally_of(front, caches, state, repo, player, distance);
        assert forall|city: Seq<char>| #[trigger] tally.bank_cities.contains(city) <==> exists|i: int|
            #[trigger] banks(list, i, caches, state, repo, player, distance, city) by {
            if earlier.bank_cities.contains(city) {
                let i = choose|i: int| #[trigger]
                    banks(front, i, caches, state, repo, player, distance, city);
                assert(front[i] == list[i]);
                assert(banks(list, i, caches, state, repo, player, distance, city));
            } else if tally.bank_cities.contains(city) {
                assert(banks(list, n, caches, state, repo, player, distance, city));
            }
            if exists|i: int| #[trigger]
                banks(list, i, caches, state, repo, player, distance, city) {
                let i = choose|i: int| #[trigger]
                    banks(list, i, caches, state, repo, player, distance, city);
                if i < n {
                    assert(front[i] == list[i]);
                    assert(banks(front, i, caches, state, repo, player, distance, city));
                }
            }
        }
    }
}

/// What one more node on a player's list earns through its building. A market earns 20, and
/// 10 more for each market before it; half as much again inside a city. A bank inside a city
/// earns 450, unless one before it belongs to the same city. Nothing else earns more.
pub proof fn law_what_buildings_earn(
    list: Seq<Seq<char>>,
    id: Seq<char>,
    caches: CachesView,
    state: StateView,
    repo: RepoView,
    player: Seq<char>,
    distance: spec_fn(Coord, Coord) -> u64,
)
    ensures
        ({
            let before = tally_of(list, caches, state, repo, player, distance).income;
            let after = tally_of(list.push(id), caches, state, repo, player, distance).income;
            let building = state.nodes[id].building;
            let markets = count_of(list, state, BuildingType::Market);
            let city = nearest_city(caches, state, repo, player, id, distance);
            &&& tally_of(Seq::empty(), caches, state, repo, player, distance).income == 0
            &&& !state.nodes.contains_key(id) ==> after == before
            &&& state.nodes.contains_key(id) && building == Some(BuildingType::Market)
                && inside_city(caches, id, player) ==> after == before + 30 + 15 * markets
            &&& state.nodes.contains_key(id) && building == Some(BuildingType::Market)
                && !inside_city(caches, id, player) ==> after == before + 20 + 10 * markets
            &&& state.nodes.contains_key(id) && building == Some(BuildingType::Bank) ==> {
                if inside_city(caches, id, player) && city is Some && !(exists|i: int| #[trigger]
                    banks(list, i, caches, state, repo, player, distance, city->0)) {
                    after == before + 450
                } else {
                    after == before
                }
            }
            &&& building != Some(BuildingType::Market) && building != Some(BuildingType::Bank)
                ==> after == before
        }),
{
    lemma_counts(list, caches, state, repo, player, distance);
    assert(list.push(id).drop_last() =~= list);
    let markets = count_of(list, state, BuildingType::Market);
    assert((20 + 10 * markets) * 15 / 10 == 30 + 15 * markets);
}

/// A player's income is one for each node and what the buildings earn; each hospital takes
/// one percent off the damage, up to 99, and each bar adds one percent of happiness.
/// Gold is paid at the income that the player had before. Nobody else is touched.
pub proof fn law_what_players_earn(
    state: StateView,
    caches: CachesView,
    repo: RepoView,
    player: Seq<char>,
    now: int,
    distance: spec_fn(Coord, Coord) -> u64,
)
    ensures
        ({
            let after = economy_recomputed(state, caches, repo, player, now, distance);
            let list = list_of(caches, player);
            let hospitals = count_of(list, state, BuildingType::Hospital);
            &&& after == (StateView { players: after.players, ..state })
            &&& !state.players.contains_key(player) ==> after == state
            &&& after.players.dom() == state.players.dom()
            &&& forall|other: Seq<char>|
                other != player && #[trigger] state.players.contains_key(other)
                    ==> after.players[other] == state.players[other]
            &&& state.players.contains_key(player) ==> {
                let paid = gold_updated(state, player, now).players[player];
                &&& after.players[player] == (PlayerView {
                    income: after.players[player].income,
                    damage_reduction: after.players[player].damage_reduction,
                    happiness: after.players[player].happiness,
                    ..paid
                })
                &&& after.players[player].income == list.len() + tally_of(
                    list,
                    caches,
                    state,
                    repo,
                    player,
                    distance,
                ).income
                &&& hospitals <= 99 ==> after.players[player].damage_reduction == hospitals
                &&& hospitals > 99 ==> after.players[player].damage_reduction == 99
                &&& after.players[player].happiness == count_of(list, state, BuildingType::Bar)
            }
        }),
{
    lemma_counts(list_of(caches, player), caches, state, repo, player, distance);
}

} // verus!
