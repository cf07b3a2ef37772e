//! What holds of buildings that are put up and of missiles that are fired.
use vstd::prelude::*;

use crate::buildings::{cost_of, BuildingType};
use crate::construction::{
    before_spending, build_outcome, caches_before_building, is_bank_of, BuildReport,
};
use crate::economy::{
    gold_seconds, inside_city, lemma_tally_ignores_players, list_of, membership, nearest_city,
    player_index, tally_of, CachesView,
};
use crate::errors::Refusal;
use crate::geometry::{Bounds, Coord};
use crate::missiles::{
    battery_of, defends, first_key, interceptor, is_silo, launch_outcome,
    lemma_first_key_found, missile_cost, missile_radius, ready_silo, Launch, Missile,
};
use crate::repo::RepoView;
use crate::state::{texts, NodeView, PlayerView, StateView};
use crate::world::caches_synced;

verus! {

/// Gold that was brought up to date earns nothing more at the same moment.
proof fn lemma_gold_is_up_to_date(
    state: StateView,
    caches: CachesView,
    repo: RepoView,
    player: Seq<char>,
    now: int,
)
    ensures
        gold_seconds(before_spending(state, caches, repo, player, now).players[player], now) == 0
            || !before_spending(state, caches, repo, player, now).players.contains_key(player),
{
}

/// A request to build succeeds exactly if the node is there, belongs to the player and is
/// empty, the player has the gold, a market, bank, hospital or bar lies in a city of
/// the player, and a bank is the first of its city.
pub proof fn law_when_a_building_goes_up(
    state: StateView,
    caches: CachesView,
    next: StateView,
    next_caches: CachesView,
    r: Result<BuildReport, Refusal>,
    repo: RepoView,
    player: Seq<char>,
    node: Seq<char>,
    building: BuildingType,
    now: int,
    distance: spec_fn(Coord, Coord) -> u64,
)
    requires
        build_outcome(
            state,
            caches,
            next,
            next_caches,
            r,
            repo,
            player,
            node,
            building,
            now,
            distance,
        ),
    ensures
        ({
            let found = before_spending(state, caches, repo, player, now);
            let indexes = caches_before_building(state, caches, repo, now, distance);
            let missing = !found.nodes.contains_key(node);
            let foreign = found.nodes[node].owner != Some(player);
            let full = found.nodes[node].building is Some;
            let unknown = !found.players.contains_key(player);
            let poor = found.players[player].gold < cost_of(building);
            let outside = (building == BuildingType::Market || building == BuildingType::Bank
                || building == BuildingType::Hospital || building == BuildingType::Bar)
                && !inside_city(indexes, node, player);
            let city = nearest_city(indexes, found, repo, player, node, distance);
            let banked = building == BuildingType::Bank && city is Some && exists|id: Seq<char>|
                #[trigger] found.nodes.contains_key(id) && found.nodes[id].owner == Some(player)
                    && found.nodes[id].building == Some(BuildingType::Bank) && nearest_city(
                    indexes,
                    found,
                    repo,
                    player,
                    id,
                    distance,
                ) == city;
            &&& r is Ok <==> !missing && !foreign && !full && !unknown && !poor && !outside
                && !banked
            &&& r is Err ==> next == found && next_caches == indexes
            &&& missing ==> r == Err::<BuildReport, Refusal>(Refusal::NodeMissing)
            &&& !missing && foreign ==> r == Err::<BuildReport, Refusal>(Refusal::NodeNotOwned)
            &&& !missing && !foreign && full ==> r == Err::<BuildReport, Refusal>(
                Refusal::NodeBuiltUp,
            )
            &&& !missing && !foreign && !full && unknown ==> r == Err::<BuildReport, Refusal>(
                Refusal::PlayerMissing,
            )
            &&& !missing && !foreign && !full && !unknown && poor ==> r == Err::<
                BuildReport,
                Refusal,
            >(Refusal::BuildingTooDear(building))
            &&& !missing && !foreign && !full && !unknown && !poor && outside ==> r == Err::<
                BuildReport,
                Refusal,
            >(Refusal::OutsideCity(building))
            &&& !missing && !foreign && !full && !unknown && !poor && !outside && banked ==> r
                == Err::<BuildReport, Refusal>(Refusal::CityHasBank)
        }),
{
    let found = before_spending(state, caches, repo, player, now);
    let indexes = caches_before_building(state, caches, repo, now, distance);
    let city = nearest_city(indexes, found, repo, player, node, distance);
    if city is Some {
        if exists|id: Seq<char>| #[trigger]
            found.nodes.contains_key(id) && found.nodes[id].owner == Some(player)
                && found.nodes[id].building == Some(BuildingType::Bank) && nearest_city(
                indexes,
                found,
                repo,
                player,
                id,
                distance,
            ) == city {
            let id = choose|id: Seq<char>| #[trigger]
                found.nodes.contains_key(id) && found.nodes[id].owner == Some(player)
                    && found.nodes[id].building == Some(BuildingType::Bank) && nearest_city(
                    indexes,
                    found,
                    repo,
                    player,
                    id,
                    distance,
                ) == city;
            assert(found.nodes.contains_key(id) && is_bank_of(
                id,
                city->0,
                found,
                indexes,
                repo,
                player,
                distance,
            ));
        }
    }
}

/// A building that goes up stands on the node, which keeps its owner and loses its army. The
/// player pays its price, no more and no less, and is told what is left. Everything else
/// stays, but that cities are looked up anew and the state is saved.
pub proof fn law_a_building_goes_up(
    state: StateView,
    caches: CachesView,
    next: StateView,
    next_caches: CachesView,
    r: Result<BuildReport, Refusal>,
    repo: RepoView,
    player: Seq<char>,
    node: Seq<char>,
    building: BuildingType,
    now: int,
    distance: spec_fn(Coord, Coord) -> u64,
)
    requires
        build_outcome(
            state,
            caches,
            next,
            next_caches,
            r,
            repo,
            player,
            node,
            building,
            now,
            distance,
        ),
        r is Ok,
    ensures
        ({
            let found = before_spending(state, caches, repo, player, now);
            let list = list_of(next_caches, player);
            &&& next.nodes == found.nodes.insert(
                node,
                NodeView { owner: Some(player), army: 0, building: Some(building) },
            )
            &&& next.players.dom() == found.players.dom()
            &&& next.players[player] == (PlayerView {
                gold: found.players[player].gold - cost_of(building),
                income: next.players[player].income,
                damage_reduction: next.players[player].damage_reduction,
                happiness: next.players[player].happiness,
                ..found.players[player]
            })
            &&& next.players[player].income == list.len() + tally_of(
                list,
                next_caches,
                next,
                repo,
                player,
                distance,
            ).income
            &&& forall|other: Seq<char>|
                other != player && #[trigger] found.players.contains_key(other)
                    ==> next.players[other] == found.players[other]
            &&& r->Ok_0.gold == found.players[player].gold - cost_of(building)
            &&& r->Ok_0.gold_income_per_sec == next.players[player].income
            &&& next == (StateView {
                players: next.players,
                nodes: next.nodes,
                version: found.version + 1,
                saved_at: now,
                last_persisted_at: now,
                ..found
            })
            &&& next_caches.membership == membership(next, repo, distance)
            &&& !next_caches.membership_dirty
            &&& next_caches.membership_version == repo.graph_version
        }),
{
    lemma_gold_is_up_to_date(state, caches, repo, player, now);
    let found = before_spending(state, caches, repo, player, now);
    lemma_tally_ignores_players(
        list_of(next_caches, player),
        next_caches,
        crate::construction::put_up(found, player, node, building),
        next,
        repo,
        player,
        distance,
    );
    assert(next.players.dom() =~= found.players.dom());
    assert(found.nodes[node].owner == Some(player));
}

/// A silo of the player that has not fired for ten minutes.
pub open spec fn may_fire(state: StateView, player: Seq<char>, now: int, id: Seq<char>) -> bool {
    &&& state.nodes[id].owner == Some(player)
    &&& state.nodes[id].building == Some(BuildingType::Silo)
    &&& now - (if state.cooldowns.contains_key(id) {
        state.cooldowns[id] as int
    } else {
        0
    }) >= 600_000
}

/// A battery of the player that has not fired for twelve minutes and does not stand farther
/// than five kilometres from the target. The numbers are the bit patterns of the doubles
/// 5.0 and infinity; patterns above the second are no numbers.
pub open spec fn may_intercept(
    state: StateView,
    repo: RepoView,
    owner: Seq<char>,
    id: Seq<char>,
    target: Coord,
    now: int,
    distance: spec_fn(Coord, Coord) -> u64,
) -> bool {
    &&& state.nodes[id].owner == Some(owner)
    &&& state.nodes[id].building == Some(BuildingType::Sam)
    &&& repo.coords.contains_key(id)
    &&& distance(target, repo.coords[id]) <= 0x4014_0000_0000_0000 || distance(
        target,
        repo.coords[id],
    ) > 0x7ff0_0000_0000_0000
    &&& now - (if state.cooldowns.contains_key(id) {
        state.cooldowns[id] as int
    } else {
        0
    }) >= 720_000
}

/// What missiles cost and how far they reach: 0.3, 1 and 3 kilometres, as bit patterns of
/// doubles.
pub proof fn law_missiles(missile: Missile)
    ensures
        missile == Missile::Small ==> missile_cost(missile) == 10_000_000 && missile_radius(missile)
            == 0x3fd3_3333_3333_3333,
        missile == Missile::Nuke ==> missile_cost(missile) == 100_000_000 && missile_radius(missile)
            == 0x3ff0_0000_0000_0000,
        missile == Missile::Hydrogen ==> missile_cost(missile) == 1_000_000_000 && missile_radius(
            missile,
        ) == 0x4008_0000_0000_0000,
{
}

/// The key that is found is the first that passes.
proof fn lemma_first_is_first(keys: Seq<Seq<char>>, pred: spec_fn(Seq<char>) -> bool)
    requires
        first_key(keys, pred) is Some,
    ensures
        exists|i: int|
            0 <= i < keys.len() && #[trigger] keys[i] == first_key(keys, pred)->0 && pred(keys[i])
                && forall|j: int| 0 <= j < i ==> !pred(#[trigger] keys[j]),
    decreases keys.len(),
{
    if pred(keys[0]) {
        assert(keys[0] == first_key(keys, pred)->0);
    } else {
        let rest = keys.skip(1);
        lemma_first_is_first(rest, pred);
        let i = choose|i: int|
            0 <= i < rest.len() && #[trigger] rest[i] == first_key(rest, pred)->0 && pred(rest[i])
                && forall|j: int| 0 <= j < i ==> !pred(#[trigger] rest[j]);
        assert(keys[i + 1] == rest[i]);
        assert forall|j: int| 0 <= j < i + 1 implies !pred(#[trigger] keys[j]) by {
            if j > 0 {
                assert(rest[j - 1] == keys[j]);
            }
        }
    }
}

/// A missile is fired exactly if there is such a missile, the target lies in the region, the
/// player is known, has the gold and has a silo that has not fired for ten minutes.
pub proof fn law_when_a_missile_is_fired(
    state: StateView,
    caches: CachesView,
    next: StateView,
    next_caches: CachesView,
    r: Result<Launch, Refusal>,
    repo: RepoView,
    player: Seq<char>,
    missile: Option<Missile>,
    target: Coord,
    region: Option<Bounds>,
    now: int,
    distance: spec_fn(Coord, Coord) -> u64,
)
    requires
        launch_outcome(
            state,
            caches,
            next,
            next_caches,
            r,
            repo,
            player,
            missile,
            target,
            region,
            now,
            distance,
        ),
        before_spending(state, caches, repo, player, now).coherent(),
    ensures
        ({
            let found = before_spending(state, caches, repo, player, now);
            let off = region is Some && !crate::geometry::within(region->0, target);
            let no_silo = forall|id: Seq<char>| #[trigger]
                found.nodes.contains_key(id) ==> !(found.nodes[id].owner == Some(player)
                    && found.nodes[id].building == Some(BuildingType::Silo));
            let unknown = !found.players.contains_key(player);
            let poor = missile is Some && found.players[player].gold < missile_cost(missile->0);
            let tired = forall|id: Seq<char>| #[trigger]
                found.nodes.contains_key(id) ==> !may_fire(found, player, now, id);
            &&& r is Ok <==> missile is Some && !off && !no_silo && !unknown && !poor && !tired
            &&& r is Err ==> next == found && next_caches == caches_synced(caches, repo)
            &&& missile is None ==> r == Err::<Launch, Refusal>(Refusal::UnknownMissile)
            &&& missile is Some && off ==> r == Err::<Launch, Refusal>(Refusal::TargetOutside)
            &&& missile is Some && !off && no_silo ==> r == Err::<Launch, Refusal>(Refusal::NoSilo)
            &&& missile is Some && !off && !no_silo && unknown ==> r == Err::<Launch, Refusal>(
                Refusal::PlayerMissing,
            )
            &&& missile is Some && !off && !no_silo && !unknown && poor ==> r == Err::<
                Launch,
                Refusal,
            >(Refusal::MissileTooDear(missile_cost(missile->0)))
            &&& missile is Some && !off && !no_silo && !unknown && !poor && tired ==> r == Err::<
                Launch,
                Refusal,
            >(Refusal::SiloCooling)
        }),
{
    let found = before_spending(state, caches, repo, player, now);
    let silo = |id: Seq<char>| is_silo(found, player, id);
    let ready = |id: Seq<char>|
        is_silo(found, player, id) && crate::missiles::rested(
            found,
            id,
            now,
            crate::missiles::SILO_COOLDOWN_MS as int,
        );
    lemma_first_key_found(found.node_keys, silo);
    lemma_first_key_found(found.node_keys, ready);
    assert(ready_silo(found, player, now) == first_key(found.node_keys, ready));
    assert forall|id: Seq<char>| #[trigger] may_fire(found, player, now, id) == ready(id) by {}
    if first_key(found.node_keys, silo) is Some {
        let id = first_key(found.node_keys, silo)->0;
        assert(found.nodes.contains_key(id) && silo(id));
    } else {
        assert forall|id: Seq<char>| #[trigger] found.nodes.contains_key(id) implies !(
        found.nodes[id].owner == Some(player) && found.nodes[id].building == Some(
            BuildingType::Silo,
        )) by {
            assert(found.node_keys.contains(id));
            assert(!silo(id));
        }
    }
    if first_key(found.node_keys, ready) is Some {
        let id = first_key(found.node_keys, ready)->0;
        assert(found.nodes.contains_key(id) && may_fire(found, player, now, id));
    } else {
        assert forall|id: Seq<char>| #[trigger] found.nodes.contains_key(id) implies !may_fire(
            found,
            player,
            now,
            id,
        ) by {
            assert(found.node_keys.contains(id));
            assert(!ready(id));
        }
    }
}

/// A missile that was fired is paid for, no more and no less, and the first silo that was ready
/// has fired now. Other players, attacks and sessions are as they were.
pub proof fn law_a_missile_is_paid_for(
    state: StateView,
    caches: CachesView,
    next: StateView,
    next_caches: CachesView,
    r: Result<Launch, Refusal>,
    repo: RepoView,
    player: Seq<char>,
    missile: Option<Missile>,
    target: Coord,
    region: Option<Bounds>,
    now: int,
    distance: spec_fn(Coord, Coord) -> u64,
)
    requires
        launch_outcome(
            state,
            caches,
            next,
            next_caches,
            r,
            repo,
            player,
            missile,
            target,
            region,
            now,
            distance,
        ),
        i64::MIN <= now <= i64::MAX,
        r is Ok,
    ensures
        ({
            let found = before_spending(state, caches, repo, player, now);
            &&& next.players.dom() == found.players.dom()
            &&& next.players[player] == (PlayerView {
                gold: found.players[player].gold - missile_cost(missile->0),
                income: next.players[player].income,
                damage_reduction: next.players[player].damage_reduction,
                happiness: next.players[player].happiness,
                ..found.players[player]
            })
            &&& forall|other: Seq<char>|
                other != player && #[trigger] found.players.contains_key(other)
                    ==> next.players[other] == found.players[other]
            &&& next == (StateView {
                players: next.players,
                nodes: next.nodes,
                cooldowns: next.cooldowns,
                version: found.version + 1,
                saved_at: now,
                last_persisted_at: now,
                ..found
            })
            &&& next.nodes.dom() == found.nodes.dom()
            &&& exists|i: int|
                0 <= i < found.node_keys.len() && #[trigger] may_fire(
                    found,
                    player,
                    now,
                    found.node_keys[i],
                ) && (forall|j: int|
                    0 <= j < i ==> !#[trigger] may_fire(found, player, now, found.node_keys[j]))
                    && next.cooldowns.contains_key(found.node_keys[i])
                    && next.cooldowns[found.node_keys[i]] == now
        }),
{
    let found = before_spending(state, caches, repo, player, now);
    let keys = found.node_keys;
    lemma_gold_is_up_to_date(state, caches, repo, player, now);
    let ready = |id: Seq<char>|
        is_silo(found, player, id) && crate::missiles::rested(
            found,
            id,
            now,
            crate::missiles::SILO_COOLDOWN_MS as int,
        );
    assert(ready_silo(found, player, now) == first_key(keys, ready));
    lemma_first_is_first(keys, ready);
    let i = choose|i: int|
        0 <= i < keys.len() && #[trigger] keys[i] == first_key(keys, ready)->0 && ready(keys[i])
            && forall|j: int| 0 <= j < i ==> !ready(#[trigger] keys[j]);
    assert(may_fire(found, player, now, keys[i]));
    assert forall|j: int| 0 <= j < i implies !#[trigger] may_fire(
        found,
        player,
        now,
        keys[j],
    ) by {
        assert(!ready(keys[j]));
    }
    assert(next.players.dom() =~= found.players.dom());
    assert(next.nodes.dom() =~= found.nodes.dom());
}

/// A missile is intercepted exactly if another player has a battery that may intercept it: by
/// the first such player's first such battery, which has fired now. Then no node changes.
pub proof fn law_a_missile_is_intercepted(
    state: StateView,
    caches: CachesView,
    next: StateView,
    next_caches: CachesView,
    r: Result<Launch, Refusal>,
    repo: RepoView,
    player: Seq<char>,
    missile: Option<Missile>,
    target: Coord,
    region: Option<Bounds>,
    now: int,
    distance: spec_fn(Coord, Coord) -> u64,
)
    requires
        launch_outcome(
            state,
            caches,
            next,
            next_caches,
            r,
            repo,
            player,
            missile,
            target,
            region,
            now,
            distance,
        ),
        i64::MIN <= now <= i64::MAX,
        r is Ok,
        before_spending(state, caches, repo, player, now).coherent(),
    ensures
        ({
            let found = before_spending(state, caches, repo, player, now);
            &&& r->Ok_0 is Intercepted <==> exists|owner: Seq<char>, id: Seq<char>|
                owner != player && found.players.contains_key(owner) && found.nodes.contains_key(id)
                    && #[trigger] may_intercept(found, repo, owner, id, target, now, distance)
            &&& r->Ok_0 matches Launch::Intercepted { by } ==> {
                &&& by@ != player && found.players.contains_key(by@)
                &&& next.nodes == found.nodes
                &&& next_caches == caches_synced(caches, repo)
                &&& next.players[player] == (PlayerView {
                    gold: found.players[player].gold - missile_cost(missile->0),
                    ..found.players[player]
                })
                &&& exists|i: int|
                    0 <= i < found.node_keys.len() && #[trigger] may_intercept(
                        found,
                        repo,
                        by@,
                        found.node_keys[i],
                        target,
                        now,
                        distance,
                    ) && next.cooldowns.contains_key(found.node_keys[i])
                        && next.cooldowns[found.node_keys[i]] == now && forall|j: int|
                        0 <= j < i ==> !#[trigger] may_intercept(
                            found,
                            repo,
                            by@,
                            found.node_keys[j],
                            target,
                            now,
                            distance,
                        )
            }
        }),
{
    let found = before_spending(state, caches, repo, player, now);
    let keys = found.node_keys;
    crate::missiles::law_intercepted_iff_covered(found, repo, player, target, now, distance);
    assert forall|owner: Seq<char>, id: Seq<char>| #[trigger]
        may_intercept(found, repo, owner, id, target, now, distance)
            == crate::missiles::battery_covers(
        found,
        repo,
        owner,
        id,
        target,
        now,
        distance,
    ) by {}
    match interceptor(found, repo, player, target, now, distance) {
        Some(by) => {
            let other = defends(found, repo, player, target, now, distance);
            lemma_first_key_found(found.player_keys, other);
            assert(other(by));
            let covers = |id: Seq<char>|
                crate::missiles::battery_covers(found, repo, by, id, target, now, distance);
            assert(battery_of(found, repo, by, target, now, distance) == first_key(keys, covers));
            lemma_first_is_first(keys, covers);
            let i = choose|i: int|
                0 <= i < keys.len() && #[trigger] keys[i] == first_key(keys, covers)->0 && covers(
                    keys[i],
                ) && forall|j: int| 0 <= j < i ==> !covers(#[trigger] keys[j]);
            assert(found.nodes.contains_key(keys[i])) by {
                assert(keys.contains(keys[i]));
            }
            assert(may_intercept(found, repo, by, keys[i], target, now, distance));
            assert forall|j: int| 0 <= j < i implies !#[trigger] may_intercept(
                found,
                repo,
                by,
                keys[j],
                target,
                now,
                distance,
            ) by {
                assert(!covers(keys[j]));
            }
        },
        None => {},
    }
}

/// A missile that lands takes every node within its reach that is not the player's and carries
/// no building, leaves it without army, and names it; every other node is as it was.
pub proof fn law_a_missile_lands(
    state: StateView,
    caches: CachesView,
    next: StateView,
    next_caches: CachesView,
    r: Result<Launch, Refusal>,
    repo: RepoView,
    player: Seq<char>,
    missile: Option<Missile>,
    target: Coord,
    region: Option<Bounds>,
    now: int,
    distance: spec_fn(Coord, Coord) -> u64,
    node: Seq<char>,
)
    requires
        launch_outcome(
            state,
            caches,
            next,
            next_caches,
            r,
            repo,
            player,
            missile,
            target,
            region,
            now,
            distance,
        ),
        before_spending(state, caches, repo, player, now).coherent(),
        r is Ok,
        r->Ok_0 is Landed,
        before_spending(state, caches, repo, player, now).nodes.contains_key(node),
    ensures
        ({
            let found = before_spending(state, caches, repo, player, now);
            let old_node = found.nodes[node];
            let taken = r->Ok_0->taken;
            let list = list_of(next_caches, player);
            let in_reach = repo.coords.contains_key(node) && distance(target, repo.coords[node])
                <= missile_radius(missile->0);
            let takes = in_reach && old_node.building is None && old_node.owner != Some(player);
            &&& takes ==> next.nodes[node] == (NodeView {
                owner: Some(player),
                army: 0,
                building: None,
            })
            &&& !takes ==> next.nodes[node] == old_node
            &&& takes <==> texts(taken@).contains(node)
            &&& texts(taken@).no_duplicates()
            &&& taken@.len() > 0 ==> next_caches.player_nodes == player_index(
                next.node_keys,
                next.nodes,
            )
            &&& next.players[player].income == list.len() + tally_of(
                list,
                next_caches,
                next,
                repo,
                player,
                distance,
            ).income
        }),
{
    let found = before_spending(state, caches, repo, player, now);
    let radius = missile_radius(missile->0);
    let pred = |id: Seq<char>|
        crate::missiles::blasted(found, repo, player, id, target, radius, distance);
    let keys = found.node_keys;
    let taken = texts(r->Ok_0->taken@);
    assert(taken == keys.filter(pred));
    crate::world::lemma_filter_unique(keys, pred);
    if taken.contains(node) {
        let i = taken.index_of(node);
        keys.lemma_filter_pred(pred, i);
    }
    if pred(node) {
        let i = keys.index_of(node);
        keys.lemma_filter_contains(pred, i);
    }
    assert(taken.len() == r->Ok_0->taken@.len());
    let list = list_of(next_caches, player);
    lemma_tally_ignores_players(
        list,
        next_caches,
        crate::missiles::hit(found, repo, player, missile->0, target, now, distance),
        next,
        repo,
        player,
        distance,
    );
}

} // verus!
