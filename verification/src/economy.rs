//! Gold, cities and the indexes they are computed from.
use vstd::hash_map::StringHashMap;
use vstd::hash_set::StringHashSet;
use vstd::prelude::*;

use crate::buildings::{holds, BuildingType};
use crate::geometry::{measure, measures, metric, Coord, CITY_RADIUS_KM};
use crate::repo::{NodeRepo, RepoView};
use crate::state::{GameState, IdList, NodeView, PlayerView, StateView};
use crate::table::Table;
use crate::text::same_text;

verus! {

/// Most nodes that a world may hold: with one more, an income might leave the integer
/// range.
pub const MAX_NODES: usize = 1_108_955_785;

/// Indexes over the world that are rebuilt when they are next needed.
pub struct Caches {
    /// The road map that the world nodes were last brought in line with.
    pub synced_graph_version: i64,
    /// Node to the player whose city reaches it.
    pub city_membership: Table<String>,
    pub city_membership_dirty: bool,
    pub city_membership_graph_version: i64,
    /// Player to the nodes that the player owns, in the order of the world's nodes.
    pub player_nodes: Table<IdList>,
    pub player_nodes_dirty: bool,
}

#[verifier::ext_equal]
pub struct CachesView {
    pub synced_version: int,
    pub membership: Map<Seq<char>, Seq<char>>,
    pub membership_dirty: bool,
    pub membership_version: int,
    pub player_nodes: Map<Seq<char>, Seq<Seq<char>>>,
    pub player_nodes_dirty: bool,
}

impl View for Caches {
    type V = CachesView;

    open spec fn view(&self) -> CachesView {
        CachesView {
            synced_version: self.synced_graph_version as int,
            membership: self.city_membership@,
            membership_dirty: self.city_membership_dirty,
            membership_version: self.city_membership_graph_version as int,
            player_nodes: self.player_nodes@,
            player_nodes_dirty: self.player_nodes_dirty,
        }
    }
}

impl CachesView {
    /// No player's node list is longer than a world may be.
    pub open spec fn bounded(self) -> bool {
        forall|p: Seq<char>| #[trigger]
            self.player_nodes.contains_key(p) ==> self.player_nodes[p].len() <= MAX_NODES
    }
}

impl Caches {
    pub fn new() -> (r: Self)
        ensures
            r@ == (CachesView {
                synced_version: -1,
                membership: Map::empty(),
                membership_dirty: true,
                membership_version: -1,
                player_nodes: Map::empty(),
                player_nodes_dirty: true,
            }),
    {
        Caches {
            synced_graph_version: -1,
            city_membership: Table::new(),
            city_membership_dirty: true,
            city_membership_graph_version: -1,
            player_nodes: Table::new(),
            player_nodes_dirty: true,
        }
    }
}

/// `x` held inside the range of a 64-bit integer.
pub open spec fn saturated(x: int) -> int {
    if x > i64::MAX {
        i64::MAX as int
    } else if x < i64::MIN {
        i64::MIN as int
    } else {
        x
    }
}

fn saturate(x: i128) -> (r: i64)
    ensures
        r == saturated(x as int),
{
    if x > i64::MAX as i128 {
        i64::MAX
    } else if x < i64::MIN as i128 {
        i64::MIN
    } else {
        x as i64
    }
}

/// Whole seconds since the player's gold was last brought up to date, at most an hour.
pub open spec fn gold_seconds(player: PlayerView, now: int) -> int {
    let ms = now - player.gold_updated_at;
    if ms <= 0 {
        0
    } else if ms / 1000 > 3600 {
        3600
    } else {
        ms / 1000
    }
}

/// The player with the gold earned up to `now`.
pub open spec fn with_gold(player: PlayerView, now: int) -> PlayerView {
    let secs = gold_seconds(player, now);
    if secs > 0 {
        PlayerView {
            gold: saturated(player.gold + saturated(player.income * secs)),
            gold_updated_at: now,
            ..player
        }
    } else {
        player
    }
}

/// The state after a player's gold is brought up to `now`.
pub open spec fn gold_updated(state: StateView, player_id: Seq<char>, now: int) -> StateView {
    if state.players.contains_key(player_id) {
        StateView {
            players: state.players.insert(player_id, with_gold(state.players[player_id], now)),
            ..state
        }
    } else {
        state
    }
}

pub fn update_player_gold(state: &mut GameState, player_id: &str, now: i64)
    ensures
        final(state)@ == gold_updated(old(state)@, player_id@, now as int),
{
    let place = state.players.position(player_id);
    if let Some(i) = place {
        let mut player = state.players.value_at(i).clone();
        let ghost before = player@;
        let ms: i128 = now as i128 - player.gold_updated_at as i128;
        let secs: i128 = if ms <= 0 {
            0
        } else if ms / 1000 > 3600 {
            3600
        } else {
            ms / 1000
        };
        if secs > 0 {
            proof {
                assert(-0x8000_0000_0000_0000 * 3600 <= player.gold_income_per_sec * secs
                    <= 0x8000_0000_0000_0000 * 3600) by (nonlinear_arith)
                    requires
                        0 < secs <= 3600,
                        -0x8000_0000_0000_0000 <= player.gold_income_per_sec
                            <= 0x8000_0000_0000_0000,
                ;
            }
            let earned: i64 = saturate(player.gold_income_per_sec as i128 * secs);
            player.gold = saturate(player.gold as i128 + earned as i128);
            player.gold_updated_at = now;
        }
        proof {
            assert(player@ == with_gold(before, now as int));
        }
        state.players.set_at(i, player);
    }
}

/// A city that stands on `id`: owned, built, and on the map.
pub open spec fn is_city(
    id: Seq<char>,
    nodes: Map<Seq<char>, NodeView>,
    coords: Map<Seq<char>, Coord>,
) -> bool {
    nodes[id].owner is Some && nodes[id].building == Some(BuildingType::City)
        && coords.contains_key(id)
}

/// Owner and place of every city among `keys`, in order.
pub open spec fn cities(
    keys: Seq<Seq<char>>,
    nodes: Map<Seq<char>, NodeView>,
    coords: Map<Seq<char>, Coord>,
) -> Seq<(Seq<char>, Coord)>
    decreases keys.len(),
{
    if keys.len() == 0 {
        Seq::empty()
    } else {
        let earlier = cities(keys.drop_last(), nodes, coords);
        let id = keys.last();
        if is_city(id, nodes, coords) {
            earlier.push((nodes[id].owner->0, coords[id]))
        } else {
            earlier
        }
    }
}

/// The owner of the first city that reaches `at`.
pub open spec fn reached_by(
    cities: Seq<(Seq<char>, Coord)>,
    at: Coord,
    distance: spec_fn(Coord, Coord) -> u64,
) -> Option<Seq<char>>
    decreases cities.len(),
{
    if cities.len() == 0 {
        None
    } else {
        match reached_by(cities.drop_last(), at, distance) {
            Some(owner) => Some(owner),
            None => if distance(at, cities.last().1) <= CITY_RADIUS_KM {
                Some(cities.last().0)
            } else {
                None
            },
        }
    }
}

/// For each map node that a city reaches, the owner of the first such city.
pub open spec fn membership(
    state: StateView,
    repo: RepoView,
    distance: spec_fn(Coord, Coord) -> u64,
) -> Map<Seq<char>, Seq<char>> {
    let all = cities(state.node_keys, state.nodes, repo.coords);
    Map::new(
        |id: Seq<char>|
            repo.nodes.contains_key(id) && reached_by(all, repo.nodes[id].coord, distance) is Some,
        |id: Seq<char>| reached_by(all, repo.nodes[id].coord, distance)->0,
    )
}

struct City {
    owner: String,
    coord: Coord,
}

spec fn city_views(list: Seq<City>) -> Seq<(Seq<char>, Coord)> {
    Seq::new(list.len(), |i: int| (list[i].owner@, list[i].coord))
}

fn list_cities(state: &GameState, repo: &NodeRepo) -> (r: Vec<City>)
    ensures
        city_views(r@) == cities(state@.node_keys, state@.nodes, repo@.coords),
{
    let n: usize = state.nodes.len();
    let mut out: Vec<City> = Vec::new();
    let mut i: usize = 0;
    let ghost keys = state.nodes.keys();
    proof {
        assert(city_views(out@) =~= cities(keys.take(0), state@.nodes, repo@.coords));
    }
    while i < n
        invariant
            n == keys.len(),
            keys == state.nodes.keys(),
            i <= n,
            city_views(out@) == cities(keys.take(i as int), state@.nodes, repo@.coords),
        decreases n - i,
    {
        let node = state.nodes.value_at(i);
        let ghost before = out@;
        if let Some(owner) = &node.owner_id {
            if holds(&node.building, BuildingType::City) {
                match repo.coords_by_id.get(state.nodes.key_at(i).as_str()) {
                    Some(coord) => {
                        out.push(City { owner: owner.clone(), coord: *coord });
                        proof {
                            assert(city_views(out@) =~= city_views(before).push(
                                (owner@, *coord),
                            ));
                        }
                    },
                    None => {},
                }
            }
        }
        proof {
            assert(keys.take(i + 1).drop_last() =~= keys.take(i as int));
            assert(keys.take(i + 1).last() == keys[i as int]);
        }
        i += 1;
    }
    proof {
        assert(keys.take(n as int) =~= keys);
    }
    out
}

fn first_city<F: Fn(Coord, Coord) -> u64>(cities: &Vec<City>, at: Coord, distance: &F) -> (r: Option<
    String,
>)
    requires
        measures(*distance),
    ensures
        crate::state::text_in(r) == reached_by(city_views(cities@), at, metric(*distance)),
{
    let ghost all = city_views(cities@);
    let mut i: usize = 0;
    while i < cities.len()
        invariant
            measures(*distance),
            all == city_views(cities@),
            i <= cities.len(),
            reached_by(all.take(i as int), at, metric(*distance)) is None,
        decreases cities.len() - i,
    {
        proof {
            assert(all.take(i + 1).drop_last() =~= all.take(i as int));
            assert(all.take(i + 1).last() == all[i as int]);
        }
        if measure(distance, at, cities[i].coord) <= CITY_RADIUS_KM {
            proof {
                lemma_reached_early(all, i + 1, at, metric(*distance));
            }
            return Some(cities[i].owner.clone());
        }
        i += 1;
    }
    proof {
        assert(all.take(i as int) =~= all);
    }
    None
}

proof fn lemma_reached_early(
    cities: Seq<(Seq<char>, Coord)>,
    n: int,
    at: Coord,
    distance: spec_fn(Coord, Coord) -> u64,
)
    requires
        0 <= n <= cities.len(),
        reached_by(cities.take(n), at, distance) is Some,
    ensures
        reached_by(cities, at, distance) == reached_by(cities.take(n), at, distance),
    decreases cities.len(),
{
    if n == cities.len() {
        assert(cities.take(n) =~= cities);
    } else {
        assert(cities.drop_last().take(n) =~= cities.take(n));
        lemma_reached_early(cities.drop_last(), n, at, distance);
    }
}

/// The indexes with the city membership recomputed.
pub open spec fn membership_rebuilt(
    caches: CachesView,
    state: StateView,
    repo: RepoView,
    distance: spec_fn(Coord, Coord) -> u64,
) -> CachesView {
    CachesView {
        membership: membership(state, repo, distance),
        membership_dirty: false,
        membership_version: repo.graph_version,
        ..caches
    }
}

pub fn rebuild_city_membership<F: Fn(Coord, Coord) -> u64>(
    state: &GameState,
    caches: &mut Caches,
    repo: &NodeRepo,
    distance: &F,
)
    requires
        measures(*distance),
    ensures
        final(caches)@ == membership_rebuilt(old(caches)@, state@, repo@, metric(*distance)),
{
    let all = list_cities(state, repo);
    let ghost want = membership(state@, repo@, metric(*distance));
    let ghost keys = repo.nodes_by_id.keys();
    let n: usize = repo.nodes_by_id.len();
    let mut table: Table<String> = Table::new();
    let mut i: usize = 0;
    while i < n
        invariant
            measures(*distance),
            n == keys.len(),
            keys == repo.nodes_by_id.keys(),
            repo.nodes_by_id.coherent(),
            i <= n,
            city_views(all@) == cities(state@.node_keys, state@.nodes, repo@.coords),
            want == membership(state@, repo@, metric(*distance)),
            forall|id: Seq<char>| #[trigger]
                table@.contains_key(id) <==> keys.take(i as int).contains(id)
                    && want.contains_key(id),
            forall|id: Seq<char>| #[trigger] table@.contains_key(id) ==> table@[id] == want[id],
        decreases n - i,
    {
        proof {
            lemma_take_contains(keys, i as int);
        }
        let id = repo.nodes_by_id.key_at(i);
        let node = repo.nodes_by_id.value_at(i);
        if let Some(owner) = first_city(&all, node.coord, distance) {
            table.insert(id.clone(), owner);
        }
        i += 1;
    }
    proof {
        assert(keys.take(n as int) =~= keys);
        assert(table@ =~= want);
    }
    caches.city_membership = table;
    caches.city_membership_graph_version = repo.graph_version;
    caches.city_membership_dirty = false;
}

/// The first `i + 1` keys are the first `i` and one more.
pub proof fn lemma_take_contains<T>(keys: Seq<T>, i: int)
    requires
        0 <= i < keys.len(),
    ensures
        forall|k: T| #[trigger]
            keys.take(i + 1).contains(k) <==> keys.take(i).contains(k) || k == keys[i],
{
    assert forall|k: T| #[trigger] keys.take(i + 1).contains(k) <==> keys.take(i).contains(k) || k
        == keys[i] by {
        if keys.take(i).contains(k) {
            let w = keys.take(i).index_of(k);
            assert(keys.take(i + 1)[w] == k);
        }
        if k == keys[i] {
            assert(keys.take(i + 1)[i] == k);
        }
        if keys.take(i + 1).contains(k) {
            let w = keys.take(i + 1).index_of(k);
            if w < i {
                assert(keys.take(i)[w] == k);
            }
        }
    }
}

/// The indexes with the city membership up to date.
pub open spec fn membership_ensured(
    caches: CachesView,
    state: StateView,
    repo: RepoView,
    distance: spec_fn(Coord, Coord) -> u64,
) -> CachesView {
    if caches.membership_dirty || caches.membership_version != repo.graph_version {
        membership_rebuilt(caches, state, repo, distance)
    } else {
        caches
    }
}

pub fn ensure_city_membership<F: Fn(Coord, Coord) -> u64>(
    state: &GameState,
    caches: &mut Caches,
    repo: &NodeRepo,
    distance: &F,
)
    requires
        measures(*distance),
    ensures
        final(caches)@ == membership_ensured(old(caches)@, state@, repo@, metric(*distance)),
{
    if caches.city_membership_dirty || caches.city_membership_graph_version != repo.graph_version {
        rebuild_city_membership(state, caches, repo, distance);
    }
}

/// The nodes that `player` owns, in order.
pub open spec fn owned(
    keys: Seq<Seq<char>>,
    nodes: Map<Seq<char>, NodeView>,
    player: Seq<char>,
) -> Seq<Seq<char>> {
    keys.filter(|k: Seq<char>| nodes[k].owner == Some(player))
}

/// Each owner's nodes.
pub open spec fn player_index(
    keys: Seq<Seq<char>>,
    nodes: Map<Seq<char>, NodeView>,
) -> Map<Seq<char>, Seq<Seq<char>>> {
    Map::new(
        |p: Seq<char>| owned(keys, nodes, p).len() > 0,
        |p: Seq<char>| owned(keys, nodes, p),
    )
}

/// One more key belongs to its owner's list and to no other.
proof fn lemma_owned_step(
    keys: Seq<Seq<char>>,
    nodes: Map<Seq<char>, NodeView>,
    i: int,
    player: Seq<char>,
)
    requires
        0 <= i < keys.len(),
    ensures
        owned(keys.take(i + 1), nodes, player) == (if nodes[keys[i]].owner == Some(player) {
            owned(keys.take(i), nodes, player).push(keys[i])
        } else {
            owned(keys.take(i), nodes, player)
        }),
        owned(keys.take(i), nodes, player).len() <= i,
{
    reveal(Seq::filter);
    assert(keys.take(i + 1).drop_last() =~= keys.take(i));
    assert(keys.take(i + 1).last() == keys[i]);
    keys.take(i).lemma_filter_len(|k: Seq<char>| nodes[k].owner == Some(player));
}

/// Owners with their lists of nodes while the index is being filled.
struct Lists {
    owners: Vec<String>,
    lists: Vec<Vec<String>>,
    place: StringHashMap<usize>,
}

impl Lists {
    spec fn wf(self) -> bool {
        &&& self.owners.len() == self.lists.len()
        &&& forall|j: int|
            0 <= j < self.owners.len() ==> #[trigger] self.place@.contains_key(self.owners@[j]@)
                && self.place@[self.owners@[j]@] == j
        &&& forall|p: Seq<char>| #[trigger]
            self.place@.contains_key(p) ==> self.place@[p] < self.owners.len()
                && self.owners@[self.place@[p] as int]@ == p
    }

    /// The list of `p`.
    spec fn of(self, p: Seq<char>) -> Seq<Seq<char>> {
        crate::state::texts(self.lists@[self.place@[p] as int]@)
    }

    fn add(&mut self, owner: &String, id: &String)
        requires
            old(self).wf(),
        ensures
            final(self).wf(),
            forall|p: Seq<char>| #[trigger]
                final(self).place@.contains_key(p) <==> old(self).place@.contains_key(p) || p
                    == owner@,
            forall|p: Seq<char>| #[trigger]
                final(self).place@.contains_key(p) && p != owner@ ==> final(self).of(p) == old(
                    self,
                ).of(p),
            final(self).of(owner@) == (if old(self).place@.contains_key(owner@) {
                old(self).of(owner@).push(id@)
            } else {
                seq![id@]
            }),
    {
        let ghost before = *self;
        match self.place.get(owner.as_str()) {
            Some(at) => {
                let at: usize = *at;
                let mut list: Vec<String> = Vec::new();
                std::mem::swap(&mut self.lists[at], &mut list);
                list.push(id.clone());
                self.lists.set(at, list);
                proof {
                    assert(self.of(owner@) =~= before.of(owner@).push(id@));
                    assert forall|p: Seq<char>| #[trigger]
                        self.place@.contains_key(p) && p != owner@ implies self.of(p) == before.of(
                        p,
                    ) by {
                        assert(self.place@[p] != at);
                    }
                }
            },
            None => {
                let at: usize = self.owners.len();
                self.place.insert(owner.clone(), at);
                self.owners.push(owner.clone());
                let mut list: Vec<String> = Vec::new();
                list.push(id.clone());
                self.lists.push(list);
                proof {
                    assert(self.of(owner@) =~= seq![id@]);
                    assert forall|j: int| 0 <= j < self.owners.len() implies #[trigger] self.place@.contains_key(
                        self.owners@[j]@,
                    ) && self.place@[self.owners@[j]@] == j by {
                        if j < at {
                            assert(before.place@.contains_key(before.owners@[j]@));
                        }
                    }
                    assert forall|p: Seq<char>| #[trigger]
                        self.place@.contains_key(p) && p != owner@ implies self.of(p) == before.of(
                        p,
                    ) by {
                        assert(before.place@.contains_key(p));
                    }
                }
            },
        }
    }
}

/// The indexes with each owner's nodes recomputed.
pub open spec fn player_nodes_rebuilt(caches: CachesView, state: StateView) -> CachesView {
    CachesView {
        player_nodes: player_index(state.node_keys, state.nodes),
        player_nodes_dirty: false,
        ..caches
    }
}

pub fn rebuild_player_nodes(state: &GameState, caches: &mut Caches)
    ensures
        final(caches)@ == player_nodes_rebuilt(old(caches)@, state@),
        state@.node_keys.len() <= MAX_NODES ==> final(caches)@.bounded(),
{
    let n: usize = state.nodes.len();
    let ghost keys = state.nodes.keys();
    let ghost nodes = state.nodes@;
    let mut lists = Lists { owners: Vec::new(), lists: Vec::new(), place: StringHashMap::new() };
    let mut i: usize = 0;
    proof {
        assert forall|p: Seq<char>| owned(keys.take(0), nodes, p).len() == 0 by {
            keys.take(0).lemma_filter_len(|k: Seq<char>| nodes[k].owner == Some(p));
        }
    }
    while i < n
        invariant
            n == keys.len(),
            keys == state.nodes.keys(),
            nodes == state.nodes@,
            i <= n,
            lists.wf(),
            forall|p: Seq<char>| #[trigger]
                lists.place@.contains_key(p) <==> owned(keys.take(i as int), nodes, p).len() > 0,
            forall|p: Seq<char>| #[trigger]
                lists.place@.contains_key(p) ==> lists.of(p) == owned(
                    keys.take(i as int),
                    nodes,
                    p,
                ),
        decreases n - i,
    {
        let node = state.nodes.value_at(i);
        let id = state.nodes.key_at(i);
        let ghost before = lists;
        proof {
            assert forall|p: Seq<char>| #[trigger]
                owned(keys.take(i + 1), nodes, p) == (if nodes[keys[i as int]].owner == Some(p) {
                    owned(keys.take(i as int), nodes, p).push(keys[i as int])
                } else {
                    owned(keys.take(i as int), nodes, p)
                }) by {
                lemma_owned_step(keys, nodes, i as int, p);
            }
        }
        if let Some(owner) = &node.owner_id {
            lists.add(owner, id);
            proof {
                assert(nodes[keys[i as int]].owner == Some(owner@));
                if !before.place@.contains_key(owner@) {
                    assert(owned(keys.take(i as int), nodes, owner@).len() == 0);
                    assert(owned(keys.take(i + 1), nodes, owner@) =~= seq![id@]);
                }
                assert forall|p: Seq<char>| #[trigger] lists.place@.contains_key(p) implies lists.of(p)
                    == owned(keys.take(i + 1), nodes, p) by {
                    if p != owner@ {
                        assert(before.place@.contains_key(p));
                    }
                }
            }
        }
        i += 1;
    }
    proof {
        assert(keys.take(n as int) =~= keys);
    }
    let ghost whole = lists;
    let Lists { mut owners, mut lists, place } = lists;
    let mut table: Table<IdList> = Table::new();
    while owners.len() > 0
        invariant
            whole.wf(),
            owners.len() == lists.len(),
            owners.len() <= whole.owners.len(),
            forall|j: int| 0 <= j < owners.len() ==> owners@[j] == whole.owners@[j],
            forall|j: int| 0 <= j < lists.len() ==> lists@[j] == whole.lists@[j],
            forall|p: Seq<char>| #[trigger]
                table@.contains_key(p) <==> whole.place@.contains_key(p) && whole.place@[p]
                    >= owners.len(),
            forall|p: Seq<char>| #[trigger] table@.contains_key(p) ==> table@[p] == whole.of(p),
        decreases owners.len(),
    {
        let ghost k = owners.len() - 1;
        match (owners.pop(), lists.pop()) {
            (Some(owner), Some(ids)) => {
                proof {
                    assert(whole.place@.contains_key(whole.owners@[k]@));
                }
                table.insert(owner, IdList { ids });
            },
            _ => {},
        }
    }
    proof {
        assert(table@ =~= player_index(keys, nodes));
        if keys.len() <= MAX_NODES {
            assert forall|p: Seq<char>| #[trigger] table@.contains_key(p) implies table@[p].len()
                <= MAX_NODES by {
                keys.lemma_filter_len(|k: Seq<char>| nodes[k].owner == Some(p));
            }
        }
    }
    caches.player_nodes = table;
    caches.player_nodes_dirty = false;
}

/// The indexes with each owner's nodes up to date.
pub open spec fn player_nodes_ensured(caches: CachesView, state: StateView) -> CachesView {
    if caches.player_nodes_dirty {
        player_nodes_rebuilt(caches, state)
    } else {
        caches
    }
}

pub fn ensure_player_nodes(state: &GameState, caches: &mut Caches)
    ensures
        final(caches)@ == player_nodes_ensured(old(caches)@, state@),
        state@.node_keys.len() <= MAX_NODES && old(caches)@.bounded() ==> final(caches)@.bounded(),
{
    if caches.player_nodes_dirty {
        rebuild_player_nodes(state, caches);
    }
}

/// Whether one of the player's cities reaches the node.
pub open spec fn inside_city(caches: CachesView, node: Seq<char>, player: Seq<char>) -> bool {
    caches.membership.contains_key(node) && caches.membership[node] == player
}

pub fn is_node_inside_player_city(caches: &Caches, node_id: &str, player_id: &str) -> (r: bool)
    ensures
        r == inside_city(caches@, node_id@, player_id@),
{
    match caches.city_membership.get(node_id) {
        Some(owner) => same_text(owner.as_str(), player_id),
        None => false,
    }
}

/// The nodes on a player's list.
pub open spec fn list_of(caches: CachesView, player: Seq<char>) -> Seq<Seq<char>> {
    if caches.player_nodes.contains_key(player) {
        caches.player_nodes[player]
    } else {
        Seq::empty()
    }
}

/// `id` carries a city that reaches `at`.
pub open spec fn city_reaches(
    id: Seq<char>,
    at: Coord,
    nodes: Map<Seq<char>, NodeView>,
    coords: Map<Seq<char>, Coord>,
    distance: spec_fn(Coord, Coord) -> u64,
) -> bool {
    &&& nodes.contains_key(id)
    &&& nodes[id].building == Some(BuildingType::City)
    &&& coords.contains_key(id)
    &&& distance(at, coords[id]) <= CITY_RADIUS_KM
}

/// The nearest of the cities among `ids` that reach `at`, with its distance; the
/// first of equally near ones.
pub open spec fn nearest_among(
    ids: Seq<Seq<char>>,
    at: Coord,
    nodes: Map<Seq<char>, NodeView>,
    coords: Map<Seq<char>, Coord>,
    distance: spec_fn(Coord, Coord) -> u64,
) -> Option<(Seq<char>, u64)>
    decreases ids.len(),
{
    if ids.len() == 0 {
        None
    } else {
        let earlier = nearest_among(ids.drop_last(), at, nodes, coords, distance);
        let id = ids.last();
        if city_reaches(id, at, nodes, coords, distance) && (earlier is None || distance(
            at,
            coords[id],
        ) < (earlier->0).1) {
            Some((id, distance(at, coords[id])))
        } else {
            earlier
        }
    }
}

/// The player's nearest city around a node.
pub open spec fn nearest_city(
    caches: CachesView,
    state: StateView,
    repo: RepoView,
    player: Seq<char>,
    node: Seq<char>,
    distance: spec_fn(Coord, Coord) -> u64,
) -> Option<Seq<char>> {
    if repo.coords.contains_key(node) {
        match nearest_among(
            list_of(caches, player),
            repo.coords[node],
            state.nodes,
            repo.coords,
            distance,
        ) {
            Some(best) => Some(best.0),
            None => None,
        }
    } else {
        None
    }
}

/// The city that `nearest_among` finds is listed, reaches the place, and no city
/// on the list is nearer. It finds one whenever a listed city reaches the place.
pub proof fn law_nearest_city_is_nearest(
    ids: Seq<Seq<char>>,
    at: Coord,
    nodes: Map<Seq<char>, NodeView>,
    coords: Map<Seq<char>, Coord>,
    distance: spec_fn(Coord, Coord) -> u64,
)
    ensures
        match nearest_among(ids, at, nodes, coords, distance) {
            Some(best) => ids.contains(best.0) && city_reaches(best.0, at, nodes, coords, distance)
                && best.1 == distance(at, coords[best.0]) && forall|i: int|
                0 <= i < ids.len() && #[trigger] city_reaches(ids[i], at, nodes, coords, distance)
                    ==> best.1 <= distance(at, coords[ids[i]]),
            None => forall|i: int|
                0 <= i < ids.len() ==> !#[trigger] city_reaches(
                    ids[i],
                    at,
                    nodes,
                    coords,
                    distance,
                ),
        },
    decreases ids.len(),
{
    if ids.len() > 0 {
        let front = ids.drop_last();
        law_nearest_city_is_nearest(front, at, nodes, coords, distance);
        assert forall|i: int| 0 <= i < ids.len() - 1 implies #[trigger] ids[i] == front[i] by {}
        assert(ids.last() == ids[ids.len() - 1]);
        match nearest_among(front, at, nodes, coords, distance) {
            Some(best) => {
                let w = front.index_of(best.0);
                assert(ids[w] == best.0);
            },
            None => {},
        }
    }
}

pub fn nearest_own_city_id<F: Fn(Coord, Coord) -> u64>(
    caches: &Caches,
    state: &GameState,
    repo: &NodeRepo,
    player_id: &str,
    node_id: &str,
    distance: &F,
) -> (r: Option<String>)
    requires
        measures(*distance),
    ensures
        crate::state::text_in(r) == nearest_city(
            caches@,
            state@,
            repo@,
            player_id@,
            node_id@,
            metric(*distance),
        ),
{
    let at = match repo.coords_by_id.get(node_id) {
        Some(c) => *c,
        None => {
            return None;
        },
    };
    let list = match caches.player_nodes.get(player_id) {
        Some(l) => l,
        None => {
            return None;
        },
    };
    let ghost ids = list@;
    let mut best: Option<usize> = None;
    let mut best_distance: u64 = 0;
    let mut i: usize = 0;
    while i < list.ids.len()
        invariant
            measures(*distance),
            ids == list@,
            i <= list.ids.len(),
            match best {
                Some(b) => b < i && nearest_among(
                    ids.take(i as int),
                    at,
                    state@.nodes,
                    repo@.coords,
                    metric(*distance),
                ) == Some((ids[b as int], best_distance)),
                None => nearest_among(
                    ids.take(i as int),
                    at,
                    state@.nodes,
                    repo@.coords,
                    metric(*distance),
                ) is None,
            },
        decreases list.ids.len() - i,
    {
        proof {
            assert(ids.take(i + 1).drop_last() =~= ids.take(i as int));
            assert(ids.take(i + 1).last() == ids[i as int]);
        }
        let id = &list.ids[i];
        if let Some(node) = state.nodes.get(id.as_str()) {
            if holds(&node.building, BuildingType::City) {
                if let Some(coord) = repo.coords_by_id.get(id.as_str()) {
                    let d: u64 = measure(distance, at, *coord);
                    if d <= CITY_RADIUS_KM && (best.is_none() || d < best_distance) {
                        best = Some(i);
                        best_distance = d;
                    }
                }
            }
        }
        i += 1;
    }
    proof {
        assert(ids.take(i as int) =~= ids);
    }
    match best {
        Some(b) => Some(list.ids[b].clone()),
        None => None,
    }
}

/// What a player's buildings add up to.
#[verifier::ext_equal]
pub struct Tally {
    pub income: int,
    pub markets: int,
    pub hospitals: int,
    pub bars: int,
    pub bank_cities: Set<Seq<char>>,
}

/// The tally with one more node. A market earns 20, and 10 more for each market
/// before it, half as much again in a city. A bank earns 450, once per city.
pub open spec fn tallied(
    tally: Tally,
    id: Seq<char>,
    caches: CachesView,
    state: StateView,
    repo: RepoView,
    player: Seq<char>,
    distance: spec_fn(Coord, Coord) -> u64,
) -> Tally {
    if !state.nodes.contains_key(id) {
        tally
    } else {
        match state.nodes[id].building {
            Some(BuildingType::Market) => Tally {
                income: tally.income + (if inside_city(caches, id, player) {
                    (20 + 10 * tally.markets) * 15 / 10
                } else {
                    20 + 10 * tally.markets
                }),
                markets: tally.markets + 1,
                ..tally
            },
            Some(BuildingType::Bank) => match nearest_city(
                caches,
                state,
                repo,
                player,
                id,
                distance,
            ) {
                Some(city) => if inside_city(caches, id, player) && !tally.bank_cities.contains(
                    city,
                ) {
                    Tally {
                        income: tally.income + 450,
                        bank_cities: tally.bank_cities.insert(city),
                        ..tally
                    }
                } else {
                    tally
                },
                None => tally,
            },
            Some(BuildingType::Hospital) => Tally { hospitals: tally.hospitals + 1, ..tally },
            Some(BuildingType::Bar) => Tally { bars: tally.bars + 1, ..tally },
            _ => tally,
        }
    }
}

/// The tally over a list of nodes, in order.
pub open spec fn tally_of(
    ids: Seq<Seq<char>>,
    caches: CachesView,
    state: StateView,
    repo: RepoView,
    player: Seq<char>,
    distance: spec_fn(Coord, Coord) -> u64,
) -> Tally
    decreases ids.len(),
{
    if ids.len() == 0 {
        Tally { income: 0, markets: 0, hospitals: 0, bars: 0, bank_cities: Set::empty() }
    } else {
        tallied(
            tally_of(ids.drop_last(), caches, state, repo, player, distance),
            ids.last(),
            caches,
            state,
            repo,
            player,
            distance,
        )
    }
}

/// The player with income, damage reduction and happiness as the nodes give
/// them: one gold for each node, and what the buildings add.
pub open spec fn with_economy(
    who: PlayerView,
    caches: CachesView,
    state: StateView,
    repo: RepoView,
    player: Seq<char>,
    distance: spec_fn(Coord, Coord) -> u64,
) -> PlayerView {
    let ids = list_of(caches, player);
    let tally = tally_of(ids, caches, state, repo, player, distance);
    PlayerView {
        income: ids.len() + tally.income,
        damage_reduction: if tally.hospitals > 99 {
            99
        } else {
            tally.hospitals
        },
        happiness: tally.bars,
        ..who
    }
}

/// The indexes, both up to date.
pub open spec fn caches_ensured(
    caches: CachesView,
    state: StateView,
    repo: RepoView,
    distance: spec_fn(Coord, Coord) -> u64,
) -> CachesView {
    player_nodes_ensured(membership_ensured(caches, state, repo, distance), state)
}

/// The state after one player's gold and income are recomputed, over indexes
/// that are up to date.
pub open spec fn economy_recomputed(
    state: StateView,
    caches: CachesView,
    repo: RepoView,
    player: Seq<char>,
    now: int,
    distance: spec_fn(Coord, Coord) -> u64,
) -> StateView {
    if state.players.contains_key(player) {
        StateView {
            players: state.players.insert(
                player,
                with_economy(
                    with_gold(state.players[player], now),
                    caches,
                    state,
                    repo,
                    player,
                    distance,
                ),
            ),
            ..state
        }
    } else {
        state
    }
}

/// Twice the most that buildings on `n` nodes give, `markets` of which are markets.
spec fn most_income(n: int, markets: int) -> int {
    900 * (n - markets) + 15 * (markets * markets) + 45 * markets
}

proof fn lemma_market_pays(n: int, markets: int)
    ensures
        most_income(n + 1, markets + 1) == most_income(n, markets) + 30 * markets + 60,
        most_income(n + 1, markets) == most_income(n, markets) + 900,
{
    assert((markets + 1) * (markets + 1) == markets * markets + 2 * markets + 1)
        by (nonlinear_arith);
}

/// The income from as many nodes as a world may hold is in the integer range.
proof fn lemma_income_fits(n: int, markets: int)
    requires
        0 <= markets <= n <= MAX_NODES,
    ensures
        most_income(n, markets) + 2 * n <= 2 * i64::MAX,
{
    assert(n * n <= MAX_NODES * MAX_NODES) by (nonlinear_arith)
        requires
            0 <= n <= MAX_NODES,
    ;
    if n >= 57 {
        assert(15 * (n * n) + 45 * n - (900 * (n - markets) + 15 * (markets * markets) + 45
            * markets) == (n - markets) * (15 * (n + markets) - 855)) by (nonlinear_arith);
        assert((n - markets) * (15 * (n + markets) - 855) >= 0) by (nonlinear_arith)
            requires
                0 <= markets <= n,
                n >= 57,
        ;
    } else {
        assert(markets * markets <= 57 * 57) by (nonlinear_arith)
            requires
                0 <= markets < 57,
        ;
    }
}

fn tally_nodes<F: Fn(Coord, Coord) -> u64>(
    caches: &Caches,
    state: &GameState,
    repo: &NodeRepo,
    player_id: &str,
    distance: &F,
) -> (r: (i64, i64, i64))
    requires
        measures(*distance),
        caches@.bounded(),
    ensures
        ({
            let ids = list_of(caches@, player_id@);
            let tally = tally_of(ids, caches@, state@, repo@, player_id@, metric(*distance));
            r.0 == ids.len() + tally.income && r.1 == tally.hospitals && r.2 == tally.bars
        }),
{
    let list = match caches.player_nodes.get(player_id) {
        Some(l) => l,
        None => {
            return (0, 0, 0);
        },
    };
    let ghost ids = list@;
    let ghost d = metric(*distance);
    proof {
        assert(caches@.player_nodes.contains_key(player_id@));
    }
    let n: usize = list.ids.len();
    let mut income: i64 = 0;
    let mut markets: i64 = 0;
    let mut hospitals: i64 = 0;
    let mut bars: i64 = 0;
    let mut bank_cities: StringHashSet = StringHashSet::new();
    let mut i: usize = 0;
    while i < n
        invariant
            measures(*distance),
            d == metric(*distance),
            ids == list@,
            n == list.ids.len(),
            n <= MAX_NODES,
            i <= n,
            0 <= markets <= i,
            0 <= income,
            2 * income <= most_income(i as int, markets as int),
            0 <= hospitals <= i,
            0 <= bars <= i,
            tally_of(ids.take(i as int), caches@, state@, repo@, player_id@, d) == (Tally {
                income: income as int,
                markets: markets as int,
                hospitals: hospitals as int,
                bars: bars as int,
                bank_cities: bank_cities@,
            }),
        decreases n - i,
    {
        proof {
            assert(ids.take(i + 1).drop_last() =~= ids.take(i as int));
            assert(ids.take(i + 1).last() == ids[i as int]);
        }
        proof {
            lemma_income_fits(i as int + 1, markets as int);
            lemma_income_fits(i as int + 1, markets as int + 1);
            lemma_market_pays(i as int, markets as int);
        }
        let id = &list.ids[i];
        if let Some(node) = state.nodes.get(id.as_str()) {
            if let Some(building) = &node.building {
                let in_city: bool = is_node_inside_player_city(caches, id.as_str(), player_id);
                match building {
                    BuildingType::Market => {
                        let base: i64 = 20 + 10 * markets;
                        income = income + if in_city {
                            (base * 15) / 10
                        } else {
                            base
                        };
                        markets = markets + 1;
                    },
                    BuildingType::Bank => {
                        if in_city {
                            if let Some(city_id) = nearest_own_city_id(
                                caches,
                                state,
                                repo,
                                player_id,
                                id.as_str(),
                                distance,
                            ) {
                                if bank_cities.insert(city_id) {
                                    income = income + 450;
                                }
                            }
                        }
                    },
                    BuildingType::Hospital => {
                        hospitals = hospitals + 1;
                    },
                    BuildingType::Bar => {
                        bars = bars + 1;
                    },
                    _ => {},
                }
            }
        }
        i += 1;
    }
    proof {
        assert(ids.take(n as int) =~= ids);
        lemma_income_fits(n as int, markets as int);
    }
    (n as i64 + income, hospitals, bars)
}

pub fn recompute_player_economy<F: Fn(Coord, Coord) -> u64>(
    state: &mut GameState,
    caches: &mut Caches,
    repo: &NodeRepo,
    player_id: &str,
    now: i64,
    distance: &F,
)
    requires
        measures(*distance),
        old(caches)@.bounded(),
        old(state)@.node_keys.len() <= MAX_NODES,
    ensures
        final(caches)@ == caches_ensured(old(caches)@, old(state)@, repo@, metric(*distance)),
        final(state)@ == economy_recomputed(
            old(state)@,
            final(caches)@,
            repo@,
            player_id@,
            now as int,
            metric(*distance),
        ),
        final(caches)@.bounded(),
{
    let ghost before = state@;
    update_player_gold(state, player_id, now);
    ensure_city_membership(state, caches, repo, distance);
    ensure_player_nodes(state, caches);
    let (income, hospitals, bars) = tally_nodes(caches, state, repo, player_id, distance);
    proof {
        lemma_tally_ignores_players(
            list_of(caches@, player_id@),
            caches@,
            before,
            state@,
            repo@,
            player_id@,
            metric(*distance),
        );
    }
    if let Some(i) = state.players.position(player_id) {
        let mut player = state.players.value_at(i).clone();
        player.gold_income_per_sec = income;
        player.damage_reduction_percent = if hospitals > 99 {
            99
        } else {
            hospitals
        };
        player.happiness_percent = bars;
        state.players.set_at(i, player);
        proof {
            assert(state@.players =~= economy_recomputed(
                before,
                caches@,
                repo@,
                player_id@,
                now as int,
                metric(*distance),
            ).players);
        }
    }
}

/// The tally reads the nodes of a state only.
pub proof fn lemma_tally_ignores_players(
    ids: Seq<Seq<char>>,
    caches: CachesView,
    a: StateView,
    b: StateView,
    repo: RepoView,
    player: Seq<char>,
    distance: spec_fn(Coord, Coord) -> u64,
)
    requires
        a.nodes == b.nodes,
    ensures
        tally_of(ids, caches, a, repo, player, distance) == tally_of(
            ids,
            caches,
            b,
            repo,
            player,
            distance,
        ),
    decreases ids.len(),
{
    if ids.len() > 0 {
        lemma_tally_ignores_players(ids.drop_last(), caches, a, b, repo, player, distance);
    }
}

/// Time takes no gold from a player whose income is not negative, and never more than
/// an hour's income is paid at once.
pub proof fn law_gold_never_shrinks(player: PlayerView, now: int)
    requires
        player.income >= 0,
        i64::MIN <= player.gold <= i64::MAX,
    ensures
        with_gold(player, now).gold >= player.gold,
        with_gold(player, now).gold <= player.gold + player.income * 3600,
{
    let secs = gold_seconds(player, now);
    assert(0 <= player.income * secs <= player.income * 3600) by (nonlinear_arith)
        requires
            player.income >= 0,
            0 <= secs <= 3600,
    ;
}

} // verus!
