//! What a player sees on the map.
use vstd::prelude::*;
use vstd::string::StringExecFns;

use crate::buildings::{holds, BuildingType};
use crate::colors::{palette, random_player_color};
use crate::economy::{owned, Caches, CachesView};
use crate::geometry::Coord;
use crate::numeric::{army_label, format_army_label};
use crate::production::{node_army_production_rate, production_quarters};
use crate::repo::{NodeRepo, RepoView};
use crate::state::{
    copy_path, copy_text, text_in, texts, Attack, AttackView, GameState, Player, PlayerView,
    StateView,
};
use crate::text::same_text;
use crate::world::{lemma_filter_all, lemma_filter_source};

verus! {

/// Whose a node is, as a player sees it.
#[derive(Clone, Copy, Debug, PartialEq, Eq, Structural)]
pub enum OwnerState {
    Own,
    Enemy,
    Neutral,
}

/// The word for whose a node is.
pub open spec fn owner_word(owner: OwnerState) -> Seq<char> {
    match owner {
        OwnerState::Own => "self"@,
        OwnerState::Enemy => "enemy"@,
        OwnerState::Neutral => "neutral"@,
    }
}

impl OwnerState {
    pub fn word(&self) -> (r: &'static str)
        ensures
            r@ == owner_word(*self),
    {
        match self {
            OwnerState::Own => "self",
            OwnerState::Enemy => "enemy",
            OwnerState::Neutral => "neutral",
        }
    }
}

/// Whose a node is, for a player or for a guest.
pub open spec fn seen_owner(owner: Option<Seq<char>>, player: Option<Seq<char>>) -> OwnerState {
    match owner {
        Some(o) => if player == Some(o) {
            OwnerState::Own
        } else {
            OwnerState::Enemy
        },
        None => OwnerState::Neutral,
    }
}

/// The text that may be there.
pub open spec fn seen(player: Option<&str>) -> Option<Seq<char>> {
    match player {
        Some(p) => Some(p@),
        None => None,
    }
}

fn see_owner(owner: &Option<String>, player: Option<&str>) -> (r: OwnerState)
    ensures
        r == seen_owner(text_in(*owner), seen(player)),
{
    match owner {
        Some(o) => match player {
            Some(p) => if same_text(o.as_str(), p) {
                OwnerState::Own
            } else {
                OwnerState::Enemy
            },
            None => OwnerState::Enemy,
        },
        None => OwnerState::Neutral,
    }
}

/// A node on the map.
pub struct NodeFeature {
    pub id: String,
    pub display_name: String,
    pub coord: Coord,
    pub degree: i64,
    pub army: i64,
    pub army_label: String,
    pub owner_id: Option<String>,
    pub owner_username: Option<String>,
    pub owner_color: Option<String>,
    pub owner_state: OwnerState,
    pub building: Option<BuildingType>,
    /// Army raised per tick, in quarters.
    pub production_quarters: u128,
    pub can_attack: bool,
}

#[verifier::ext_equal]
pub struct NodeFeatureView {
    pub id: Seq<char>,
    pub display_name: Seq<char>,
    pub coord: Coord,
    pub degree: i64,
    pub army: int,
    pub army_label: Seq<char>,
    pub owner: Option<Seq<char>>,
    pub owner_username: Option<Seq<char>>,
    pub owner_color: Option<Seq<char>>,
    pub owner_state: OwnerState,
    pub building: Option<BuildingType>,
    pub production: nat,
    pub can_attack: bool,
}

impl View for NodeFeature {
    type V = NodeFeatureView;

    open spec fn view(&self) -> NodeFeatureView {
        NodeFeatureView {
            id: self.id@,
            display_name: self.display_name@,
            coord: self.coord,
            degree: self.degree,
            army: self.army as int,
            army_label: self.army_label@,
            owner: text_in(self.owner_id),
            owner_username: text_in(self.owner_username),
            owner_color: text_in(self.owner_color),
            owner_state: self.owner_state,
            building: self.building,
            production: self.production_quarters as nat,
            can_attack: self.can_attack,
        }
    }
}

/// What the map calls a node.
pub open spec fn display_name_of(repo: RepoView, node: Seq<char>) -> Seq<char> {
    if repo.display_names.contains_key(node) {
        repo.display_names[node]
    } else {
        "Node "@ + node
    }
}

/// The player who owns a node, if the player is known.
pub open spec fn owner_of(state: StateView, owner: Option<Seq<char>>) -> Option<PlayerView> {
    match owner {
        Some(o) => if state.players.contains_key(o) {
            Some(state.players[o])
        } else {
            None
        },
        None => None,
    }
}

/// A node of the road map and the world, as a player sees it. The production is
/// shown to its owner only.
pub open spec fn node_view(
    state: StateView,
    caches: CachesView,
    repo: RepoView,
    node: Seq<char>,
    player: Option<Seq<char>>,
) -> NodeFeatureView {
    let world = state.nodes[node];
    let whose = seen_owner(world.owner, player);
    let owner = owner_of(state, world.owner);
    NodeFeatureView {
        id: node,
        display_name: display_name_of(repo, node),
        coord: repo.nodes[node].coord,
        degree: repo.nodes[node].degree,
        army: world.army,
        army_label: army_label(world.army),
        owner: world.owner,
        owner_username: match owner {
            Some(p) => Some(p.username),
            None => None,
        },
        owner_color: match owner {
            Some(p) => Some(p.color),
            None => None,
        },
        owner_state: whose,
        building: world.building,
        production: if whose == OwnerState::Own {
            production_quarters(node, world.owner->0, state.nodes, caches, repo)
        } else {
            0
        },
        can_attack: player is Some && world.owner != player,
    }
}

/// Whether a node can be seen: it is on the road map and in the world.
pub open spec fn visible(state: StateView, repo: RepoView, node: Seq<char>) -> bool {
    repo.nodes.contains_key(node) && state.nodes.contains_key(node)
}

/// A node as a player, or a guest, sees it.
pub fn world_feature(
    state: &GameState,
    caches: &Caches,
    repo: &NodeRepo,
    node_id: &str,
    player_id: Option<&str>,
) -> (r: Option<NodeFeature>)
    ensures
        r is Some == visible(state@, repo@, node_id@),
        r is Some ==> r->0@ == node_view(state@, caches@, repo@, node_id@, seen(player_id)),
{
    let repo_node = match repo.nodes_by_id.get(node_id) {
        Some(node) => node,
        None => {
            return None;
        },
    };
    let world_node = match state.nodes.get(node_id) {
        Some(node) => node,
        None => {
            return None;
        },
    };
    let owner_state = see_owner(&world_node.owner_id, player_id);
    let production: u128 = match (&world_node.owner_id, owner_state) {
        (Some(owner), OwnerState::Own) => node_army_production_rate(
            state,
            caches,
            repo,
            node_id,
            owner.as_str(),
        ),
        _ => 0,
    };
    let mut owner_username: Option<String> = None;
    let mut owner_color: Option<String> = None;
    if let Some(owner) = &world_node.owner_id {
        if let Some(player) = state.players.get(owner.as_str()) {
            owner_username = Some(player.username.clone());
            owner_color = Some(player.color.clone());
        }
    }
    let display_name = match repo.display_names.get(node_id) {
        Some(name) => name.clone(),
        None => {
            let mut name = "Node ".to_owned();
            name.append(node_id);
            name
        },
    };
    let can_attack: bool = match player_id {
        Some(_) => match owner_state {
            OwnerState::Own => false,
            _ => true,
        },
        None => false,
    };
    Some(
        NodeFeature {
            id: node_id.to_owned(),
            display_name,
            coord: repo_node.coord,
            degree: repo_node.degree,
            army: world_node.army,
            army_label: format_army_label(world_node.army),
            owner_id: copy_text(&world_node.owner_id),
            owner_username,
            owner_color,
            owner_state,
            building: world_node.building,
            production_quarters: production,
            can_attack,
        },
    )
}

/// The views of some features.
pub open spec fn feature_views(list: Seq<NodeFeature>) -> Seq<NodeFeatureView> {
    Seq::new(list.len(), |i: int| list[i]@)
}

/// Those of some nodes that can be seen, as a player sees them.
pub open spec fn nodes_seen(
    state: StateView,
    caches: CachesView,
    repo: RepoView,
    ids: Seq<Seq<char>>,
    player: Option<Seq<char>>,
) -> Seq<NodeFeatureView> {
    ids.filter(|id: Seq<char>| visible(state, repo, id)).map_values(
        |id: Seq<char>| node_view(state, caches, repo, id, player),
    )
}

/// What one more node adds.
proof fn lemma_nodes_seen_step(
    state: StateView,
    caches: CachesView,
    repo: RepoView,
    ids: Seq<Seq<char>>,
    player: Option<Seq<char>>,
    i: int,
)
    requires
        0 <= i < ids.len(),
    ensures
        nodes_seen(state, caches, repo, ids.take(i + 1), player) == (if visible(
            state,
            repo,
            ids[i],
        ) {
            nodes_seen(state, caches, repo, ids.take(i), player).push(
                node_view(state, caches, repo, ids[i], player),
            )
        } else {
            nodes_seen(state, caches, repo, ids.take(i), player)
        }),
{
    reveal(Seq::filter);
    assert(ids.take(i + 1).drop_last() =~= ids.take(i));
    assert(ids.take(i + 1).last() == ids[i]);
    let now = nodes_seen(state, caches, repo, ids.take(i + 1), player);
    let before = nodes_seen(state, caches, repo, ids.take(i), player);
    if visible(state, repo, ids[i]) {
        assert(now =~= before.push(node_view(state, caches, repo, ids[i], player)));
    }
}

/// Some nodes as a player sees them; those that cannot be seen are left out.
pub fn node_features(
    state: &GameState,
    caches: &Caches,
    repo: &NodeRepo,
    ids: &Vec<String>,
    player_id: Option<&str>,
) -> (r: Vec<NodeFeature>)
    ensures
        feature_views(r@) == nodes_seen(state@, caches@, repo@, texts(ids@), seen(player_id)),
{
    let ghost all = texts(ids@);
    let ghost player = seen(player_id);
    let mut out: Vec<NodeFeature> = Vec::new();
    let mut i: usize = 0;
    proof {
        reveal(Seq::filter);
        assert(feature_views(out@) =~= nodes_seen(state@, caches@, repo@, all.take(0), player));
    }
    while i < ids.len()
        invariant
            all == texts(ids@),
            player == seen(player_id),
            i <= ids.len(),
            feature_views(out@) == nodes_seen(state@, caches@, repo@, all.take(i as int), player),
        decreases ids.len() - i,
    {
        proof {
            lemma_nodes_seen_step(state@, caches@, repo@, all, player, i as int);
        }
        if let Some(feature) = world_feature(state, caches, repo, ids[i].as_str(), player_id) {
            let ghost before = out@;
            out.push(feature);
            proof {
                assert(feature_views(out@) =~= feature_views(before).push(feature@));
            }
        }
        i += 1;
    }
    proof {
        assert(all.take(i as int) =~= all);
    }
    out
}

/// The ids of the nodes of the world, in order: those of one player, or all.
fn list_nodes(state: &GameState, owner: Option<&str>) -> (r: Vec<String>)
    ensures
        texts(r@) == match owner {
            Some(p) => owned(state@.node_keys, state@.nodes, p@),
            None => state@.node_keys,
        },
{
    let ghost keys = state.nodes.keys();
    let ghost pred = |k: Seq<char>| owner is Some ==> state@.nodes[k].owner == Some(owner->0@);
    let n: usize = state.nodes.len();
    let mut out: Vec<String> = Vec::new();
    let mut i: usize = 0;
    proof {
        reveal(Seq::filter);
        assert(texts(out@) =~= keys.take(0).filter(pred));
    }
    while i < n
        invariant
            keys == state.nodes.keys(),
            state.nodes.coherent(),
            n == keys.len(),
            pred == (|k: Seq<char>|
                owner is Some ==> state@.nodes[k].owner == Some(owner->0@)),
            i <= n,
            texts(out@) == keys.take(i as int).filter(pred),
        decreases n - i,
    {
        proof {
            reveal(Seq::filter);
            assert(keys.take(i + 1).drop_last() =~= keys.take(i as int));
            assert(keys.take(i + 1).last() == keys[i as int]);
        }
        let mine: bool = match owner {
            Some(p) => state.nodes.value_at(i).owned_by(p),
            None => true,
        };
        if mine {
            let ghost before = out@;
            out.push(state.nodes.key_at(i).clone());
            proof {
                assert(texts(out@) =~= texts(before).push(keys[i as int]));
            }
        }
        i += 1;
    }
    proof {
        assert(keys.take(n as int) =~= keys);
        if let Some(p) = owner {
            assert(pred =~= (|k: Seq<char>| state@.nodes[k].owner == Some(p@)));
        } else {
            lemma_filter_all(keys, pred);
        }
    }
    out
}

/// The player's own nodes, as the player sees them; none for a guest.
pub open spec fn own_nodes_seen(
    state: StateView,
    caches: CachesView,
    repo: RepoView,
    player: Option<Seq<char>>,
) -> Seq<NodeFeatureView> {
    match player {
        Some(p) => nodes_seen(state, caches, repo, owned(state.node_keys, state.nodes, p), player),
        None => Seq::empty(),
    }
}

pub fn owned_node_features(
    state: &GameState,
    caches: &Caches,
    repo: &NodeRepo,
    player_id: Option<&str>,
) -> (r: Vec<NodeFeature>)
    ensures
        feature_views(r@) == own_nodes_seen(state@, caches@, repo@, seen(player_id)),
{
    match player_id {
        Some(p) => {
            let ids = list_nodes(state, Some(p));
            node_features(state, caches, repo, &ids, player_id)
        },
        None => {
            let out: Vec<NodeFeature> = Vec::new();
            proof {
                assert(feature_views(out@) =~= Seq::empty());
            }
            out
        },
    }
}

/// All nodes of the world, as a player or a guest sees them.
pub fn all_node_features(
    state: &GameState,
    caches: &Caches,
    repo: &NodeRepo,
    player_id: Option<&str>,
) -> (r: Vec<NodeFeature>)
    ensures
        feature_views(r@) == nodes_seen(
            state@,
            caches@,
            repo@,
            state@.node_keys,
            seen(player_id),
        ),
{
    let ids = list_nodes(state, None);
    node_features(state, caches, repo, &ids, player_id)
}

/// A city on the map: the circle around its node.
pub struct CityFeature {
    pub id: String,
    pub coord: Coord,
    pub owner_id: Option<String>,
    pub owner_color: String,
}

#[verifier::ext_equal]
pub struct CityView {
    pub id: Seq<char>,
    pub coord: Coord,
    pub owner: Option<Seq<char>>,
    pub owner_color: Seq<char>,
}

impl View for CityFeature {
    type V = CityView;

    open spec fn view(&self) -> CityView {
        CityView {
            id: self.id@,
            coord: self.coord,
            owner: text_in(self.owner_id),
            owner_color: self.owner_color@,
        }
    }
}

/// The views of some cities.
pub open spec fn city_views(list: Seq<CityFeature>) -> Seq<CityView> {
    Seq::new(list.len(), |i: int| list[i]@)
}

/// Whether a node carries a city and has a place.
pub open spec fn shows_city(state: StateView, repo: RepoView, node: Seq<char>) -> bool {
    state.nodes[node].building == Some(BuildingType::City) && repo.coords.contains_key(node)
}

/// A city in the color of its owner, or in grey.
pub open spec fn city_view(state: StateView, repo: RepoView, node: Seq<char>) -> CityView {
    CityView {
        id: node,
        coord: repo.coords[node],
        owner: state.nodes[node].owner,
        owner_color: match owner_of(state, state.nodes[node].owner) {
            Some(player) => player.color,
            None => "#94a3b8"@,
        },
    }
}

/// All cities, in the order of the nodes.
pub open spec fn cities_seen(state: StateView, repo: RepoView, ids: Seq<Seq<char>>) -> Seq<
    CityView,
> {
    ids.filter(|id: Seq<char>| shows_city(state, repo, id)).map_values(
        |id: Seq<char>| city_view(state, repo, id),
    )
}

fn color_of_owner(state: &GameState, owner: &Option<String>) -> (r: String)
    ensures
        r@ == match owner_of(state@, text_in(*owner)) {
            Some(player) => player.color,
            None => "#94a3b8"@,
        },
{
    if let Some(o) = owner {
        if let Some(player) = state.players.get(o.as_str()) {
            return player.color.clone();
        }
    }
    "#94a3b8".to_owned()
}

pub fn city_features(state: &GameState, repo: &NodeRepo) -> (r: Vec<CityFeature>)
    ensures
        city_views(r@) == cities_seen(state@, repo@, state@.node_keys),
{
    let ghost keys = state.nodes.keys();
    let n: usize = state.nodes.len();
    let mut out: Vec<CityFeature> = Vec::new();
    let mut i: usize = 0;
    proof {
        reveal(Seq::filter);
        assert(city_views(out@) =~= cities_seen(state@, repo@, keys.take(0)));
    }
    while i < n
        invariant
            keys == state.nodes.keys(),
            state.nodes.coherent(),
            n == keys.len(),
            i <= n,
            city_views(out@) == cities_seen(state@, repo@, keys.take(i as int)),
        decreases n - i,
    {
        proof {
            reveal(Seq::filter);
            assert(keys.take(i + 1).drop_last() =~= keys.take(i as int));
            assert(keys.take(i + 1).last() == keys[i as int]);
        }
        let ghost before = out@;
        let id = state.nodes.key_at(i);
        let node = state.nodes.value_at(i);
        if holds(&node.building, BuildingType::City) {
            if let Some(coord) = repo.coords_by_id.get(id.as_str()) {
                let city = CityFeature {
                    id: id.clone(),
                    coord: *coord,
                    owner_id: copy_text(&node.owner_id),
                    owner_color: color_of_owner(state, &node.owner_id),
                };
                out.push(city);
                proof {
                    assert(city_views(out@) =~= city_views(before).push(city@));
                    assert(cities_seen(state@, repo@, keys.take(i + 1)) =~= cities_seen(
                        state@,
                        repo@,
                        keys.take(i as int),
                    ).push(city_view(state@, repo@, keys[i as int])));
                }
            }
        }
        i += 1;
    }
    proof {
        assert(keys.take(n as int) =~= keys);
    }
    out
}

/// An attack or a transfer on the map.
pub struct AttackFeature {
    pub id: String,
    pub owner_id: String,
    pub owner_state: OwnerState,
    pub owner_color: String,
    pub mode: String,
    pub created_at: i64,
    pub send_per_tick: i64,
    pub from_node_id: String,
    pub to_node_id: String,
    pub path: Vec<Coord>,
}

/// `feature` shows an attack to a player or a guest, in the color of its owner; one
/// whose owner is not known comes in some color of the palette.
pub open spec fn shows_attack(
    feature: AttackFeature,
    state: StateView,
    attack: AttackView,
    player: Option<Seq<char>>,
) -> bool {
    &&& feature.id@ == attack.id
    &&& feature.owner_id@ == attack.owner
    &&& feature.owner_state == (if player == Some(attack.owner) {
        OwnerState::Own
    } else {
        OwnerState::Enemy
    })
    &&& if state.players.contains_key(attack.owner) {
        feature.owner_color@ == state.players[attack.owner].color
    } else {
        palette().contains(feature.owner_color@)
    }
    &&& feature.mode@ == attack.mode
    &&& feature.created_at == attack.created_at
    &&& feature.send_per_tick == attack.send_per_tick
    &&& feature.from_node_id@ == attack.from
    &&& feature.to_node_id@ == attack.to
    &&& feature.path@ == attack.path
}

pub fn attack_feature(state: &GameState, attack: &Attack, player_id: Option<&str>) -> (r:
    AttackFeature)
    ensures
        shows_attack(r, state@, attack@, seen(player_id)),
{
    let owner_color = match state.players.get(attack.owner_id.as_str()) {
        Some(player) => player.color.clone(),
        None => random_player_color(),
    };
    let own: bool = match player_id {
        Some(p) => same_text(p, attack.owner_id.as_str()),
        None => false,
    };
    AttackFeature {
        id: attack.id.clone(),
        owner_id: attack.owner_id.clone(),
        owner_state: if own {
            OwnerState::Own
        } else {
            OwnerState::Enemy
        },
        owner_color,
        mode: attack.mode.clone(),
        created_at: attack.created_at,
        send_per_tick: attack.send_per_tick,
        from_node_id: attack.from_node_id.clone(),
        to_node_id: attack.to_node_id.clone(),
        path: copy_path(&attack.path),
    }
}

/// `list` shows all attacks, in order.
pub open spec fn shows_attacks(
    list: Seq<AttackFeature>,
    state: StateView,
    player: Option<Seq<char>>,
) -> bool {
    &&& list.len() == state.attack_keys.len()
    &&& forall|i: int|
        0 <= i < list.len() ==> shows_attack(
            #[trigger] list[i],
            state,
            state.attacks[state.attack_keys[i]],
            player,
        )
}

/// All attacks as a player or a guest sees them.
pub fn attack_features(state: &GameState, player_id: Option<&str>) -> (r: Vec<AttackFeature>)
    ensures
        shows_attacks(r@, state@, seen(player_id)),
{
    let n: usize = state.attacks.len();
    let mut out: Vec<AttackFeature> = Vec::new();
    let mut i: usize = 0;
    while i < n
        invariant
            n == state@.attack_keys.len(),
            i <= n,
            out.len() == i,
            forall|k: int|
                0 <= k < i ==> shows_attack(
                    #[trigger] out@[k],
                    state@,
                    state@.attacks[state@.attack_keys[k]],
                    seen(player_id),
                ),
        decreases n - i,
    {
        out.push(attack_feature(state, state.attacks.value_at(i), player_id));
        i += 1;
    }
    out
}

/// What players see of their own account.
pub struct PlayerCard {
    pub id: String,
    pub username: String,
    pub color: String,
    pub gold: i64,
    pub gold_income_per_sec: i64,
    pub damage_reduction_percent: i64,
    pub happiness_percent: i64,
}

/// `card` shows a player.
pub open spec fn shows_player(card: PlayerCard, player: PlayerView) -> bool {
    &&& card.id@ == player.id
    &&& card.username@ == player.username
    &&& card.color@ == player.color
    &&& card.gold == player.gold
    &&& card.gold_income_per_sec == player.income
    &&& card.damage_reduction_percent == player.damage_reduction
    &&& card.happiness_percent == player.happiness
}

pub fn player_card(player: &Player) -> (r: PlayerCard)
    ensures
        shows_player(r, player@),
{
    PlayerCard {
        id: player.id.clone(),
        username: player.username.clone(),
        color: player.color.clone(),
        gold: player.gold,
        gold_income_per_sec: player.gold_income_per_sec,
        damage_reduction_percent: player.damage_reduction_percent,
        happiness_percent: player.happiness_percent,
    }
}

/// The nodes that are shown to a player as the player's own are just that: none of
/// them can be attacked.
pub proof fn law_own_nodes_are_own(
    state: StateView,
    caches: CachesView,
    repo: RepoView,
    player: Seq<char>,
    i: int,
)
    requires
        0 <= i < own_nodes_seen(state, caches, repo, Some(player)).len(),
    ensures
        ({
            let node = own_nodes_seen(state, caches, repo, Some(player))[i];
            &&& node.owner == Some(player)
            &&& node.owner_state == OwnerState::Own
            &&& !node.can_attack
        }),
{
    let ids = owned(state.node_keys, state.nodes, player);
    let pred = |id: Seq<char>| visible(state, repo, id);
    let shown = ids.filter(pred);
    lemma_filter_source(ids, pred, i);
    let at = ids.index_of(shown[i]);
    lemma_filter_source(
        state.node_keys,
        |k: Seq<char>| state.nodes[k].owner == Some(player),
        at,
    );
}

/// What is seen of a node: where the road map puts it, what stands on it and who owns it, by
/// name and color if the player is known. It is the player's own, an enemy's or
/// neutral; only players can attack, and not what is their own. What it raises
/// is shown to its owner alone.
pub proof fn law_what_is_seen_of_a_node(
    state: StateView,
    caches: CachesView,
    repo: RepoView,
    node: Seq<char>,
    player: Option<Seq<char>>,
)
    ensures
        ({
            let shown = node_view(state, caches, repo, node, player);
            let world = state.nodes[node];
            let known = world.owner is Some && state.players.contains_key(world.owner->Some_0);
            let own = player is Some && world.owner == player;
            &&& shown.id == node
            &&& shown.coord == repo.nodes[node].coord && shown.degree == repo.nodes[node].degree
            &&& shown.army == world.army && shown.building == world.building
            &&& shown.army_label == army_label(world.army)
            &&& shown.owner == world.owner
            &&& known ==> shown.owner_username == Some(state.players[world.owner->Some_0].username)
                && shown.owner_color == Some(state.players[world.owner->Some_0].color)
            &&& !known ==> shown.owner_username is None && shown.owner_color is None
            &&& shown.owner_state == OwnerState::Neutral <==> world.owner is None
            &&& shown.owner_state == OwnerState::Own <==> own
            &&& shown.owner_state == OwnerState::Enemy <==> world.owner is Some && !own
            &&& shown.can_attack <==> player is Some && !own
            &&& !own ==> shown.production == 0
            &&& own ==> shown.production == production_quarters(
                node,
                player->Some_0,
                state.nodes,
                caches,
                repo,
            )
            &&& repo.display_names.contains_key(node) ==> shown.display_name
                == repo.display_names[node]
            &&& !repo.display_names.contains_key(node) ==> shown.display_name == "Node "@ + node
        }),
{
}

/// Nodes are shown in the order in which they are named, one for each that is on the road map
/// and in the world; others are left out.
pub proof fn law_one_more_node_is_seen(
    state: StateView,
    caches: CachesView,
    repo: RepoView,
    ids: Seq<Seq<char>>,
    id: Seq<char>,
    player: Option<Seq<char>>,
)
    ensures
        ({
            let before = nodes_seen(state, caches, repo, ids, player);
            let after = nodes_seen(state, caches, repo, ids.push(id), player);
            let shown = repo.nodes.contains_key(id) && state.nodes.contains_key(id);
            &&& shown ==> after == before.push(node_view(state, caches, repo, id, player))
            &&& !shown ==> after == before
            &&& nodes_seen(state, caches, repo, Seq::empty(), player).len() == 0
        }),
{
    reveal(Seq::filter);
    let n = ids.len() as int;
    lemma_nodes_seen_step(state, caches, repo, ids.push(id), player, n);
    assert(ids.push(id).take(n + 1) =~= ids.push(id));
    assert(ids.push(id).take(n) =~= ids);
}

/// A player is shown the own nodes that can be seen, all of them; a guest is shown none.
pub proof fn law_own_nodes_are_shown(
    state: StateView,
    caches: CachesView,
    repo: RepoView,
    player: Seq<char>,
    node: Seq<char>,
)
    requires
        state.coherent(),
        state.nodes.contains_key(node),
        repo.nodes.contains_key(node),
        state.nodes[node].owner == Some(player),
    ensures
        exists|i: int|
            0 <= i < own_nodes_seen(state, caches, repo, Some(player)).len() && (
            #[trigger] own_nodes_seen(state, caches, repo, Some(player))[i]).id == node,
        own_nodes_seen(state, caches, repo, None).len() == 0,
{
    let keys = state.node_keys;
    let mine = |k: Seq<char>| state.nodes[k].owner == Some(player);
    let pred = |id: Seq<char>| visible(state, repo, id);
    let i = keys.index_of(node);
    assert(mine(keys[i]));
    keys.lemma_filter_contains(mine, i);
    let ids = owned(keys, state.nodes, player);
    assert(ids.contains(node));
    let j = ids.index_of(node);
    assert(pred(ids[j]));
    ids.lemma_filter_contains(pred, j);
    let k = ids.filter(pred).index_of(node);
    assert(own_nodes_seen(state, caches, repo, Some(player))[k].id == node);
}

/// Cities are shown in the order of the nodes, each at its place and in the color of its owner,
/// or in grey where the owner is not known. A node without a city, or without a place,
/// shows none.
pub proof fn law_one_more_city_is_seen(
    state: StateView,
    repo: RepoView,
    ids: Seq<Seq<char>>,
    id: Seq<char>,
)
    ensures
        ({
            let before = cities_seen(state, repo, ids);
            let after = cities_seen(state, repo, ids.push(id));
            let node = state.nodes[id];
            let known = node.owner is Some && state.players.contains_key(node.owner->Some_0);
            let shown = node.building == Some(BuildingType::City) && repo.coords.contains_key(id);
            &&& !shown ==> after == before
            &&& shown ==> after == before.push(after.last())
            &&& shown ==> after.last().id == id && after.last().coord == repo.coords[id]
                && after.last().owner == node.owner
            &&& shown && known ==> after.last().owner_color
                == state.players[node.owner->Some_0].color
            &&& shown && !known ==> after.last().owner_color == "#94a3b8"@
            &&& cities_seen(state, repo, Seq::empty()).len() == 0
        }),
{
    reveal(Seq::filter);
    assert(ids.push(id).drop_last() =~= ids);
    if shows_city(state, repo, id) {
        assert(cities_seen(state, repo, ids.push(id)) =~= cities_seen(state, repo, ids).push(
            city_view(state, repo, id),
        ));
    }
}

/// The words for whose a node is.
pub proof fn law_words_for_owners(owner: OwnerState)
    ensures
        owner == OwnerState::Own ==> owner_word(owner) == "self"@,
        owner == OwnerState::Enemy ==> owner_word(owner) == "enemy"@,
        owner == OwnerState::Neutral ==> owner_word(owner) == "neutral"@,
{
}

} // verus!
