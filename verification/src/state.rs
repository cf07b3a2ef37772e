//! The persistent game state: players, sessions, nodes and attacks.
use vstd::prelude::*;

use crate::buildings::BuildingType;
use crate::geometry::Coord;
use crate::table::Table;
use crate::text::same_text;

verus! {

/// The text inside `o`, if any.
pub open spec fn text_in(o: Option<String>) -> Option<Seq<char>> {
    match o {
        Some(s) => Some(s@),
        None => None,
    }
}

/// A copy of an optional text.
pub fn copy_text(o: &Option<String>) -> (r: Option<String>)
    ensures
        text_in(r) == text_in(*o),
{
    match o {
        Some(s) => Some(s.clone()),
        None => None,
    }
}

/// The texts of a list.
pub open spec fn texts(list: Seq<String>) -> Seq<Seq<char>> {
    Seq::new(list.len(), |i: int| list[i]@)
}

/// A copy of a list of texts.
pub fn copy_texts(list: &Vec<String>) -> (r: Vec<String>)
    ensures
        texts(r@) == texts(list@),
{
    let mut out: Vec<String> = Vec::new();
    let mut i: usize = 0;
    while i < list.len()
        invariant
            i <= list.len(),
            out.len() == i,
            forall|j: int| 0 <= j < i ==> (#[trigger] out@[j])@ == list@[j]@,
        decreases list.len() - i,
    {
        out.push(list[i].clone());
        i += 1;
    }
    proof {
        assert(texts(out@) =~= texts(list@));
    }
    out
}

/// A list of node ids.
pub struct IdList {
    pub ids: Vec<String>,
}

impl View for IdList {
    type V = Seq<Seq<char>>;

    open spec fn view(&self) -> Seq<Seq<char>> {
        texts(self.ids@)
    }
}

impl Clone for IdList {
    fn clone(&self) -> (r: Self)
        ensures
            r@ == self@,
    {
        IdList { ids: copy_texts(&self.ids) }
    }
}

pub struct Player {
    pub id: String,
    pub username: String,
    pub password_hash: String,
    pub created_at: i64,
    pub start_node_ids: Vec<String>,
    pub color: String,
    pub gold: i64,
    pub gold_income_per_sec: i64,
    pub gold_updated_at: i64,
    pub damage_reduction_percent: i64,
    pub happiness_percent: i64,
}

#[verifier::ext_equal]
pub struct PlayerView {
    pub id: Seq<char>,
    pub username: Seq<char>,
    pub password_hash: Seq<char>,
    pub created_at: int,
    pub start_node_ids: Seq<Seq<char>>,
    pub color: Seq<char>,
    pub gold: int,
    pub income: int,
    pub gold_updated_at: int,
    pub damage_reduction: int,
    pub happiness: int,
}

impl View for Player {
    type V = PlayerView;

    open spec fn view(&self) -> PlayerView {
        PlayerView {
            id: self.id@,
            username: self.username@,
            password_hash: self.password_hash@,
            created_at: self.created_at as int,
            start_node_ids: texts(self.start_node_ids@),
            color: self.color@,
            gold: self.gold as int,
            income: self.gold_income_per_sec as int,
            gold_updated_at: self.gold_updated_at as int,
            damage_reduction: self.damage_reduction_percent as int,
            happiness: self.happiness_percent as int,
        }
    }
}

impl Clone for Player {
    fn clone(&self) -> (r: Self)
        ensures
            r@ == self@,
    {
        Player {
            id: self.id.clone(),
            username: self.username.clone(),
            password_hash: self.password_hash.clone(),
            created_at: self.created_at,
            start_node_ids: copy_texts(&self.start_node_ids),
            color: self.color.clone(),
            gold: self.gold,
            gold_income_per_sec: self.gold_income_per_sec,
            gold_updated_at: self.gold_updated_at,
            damage_reduction_percent: self.damage_reduction_percent,
            happiness_percent: self.happiness_percent,
        }
    }
}

pub struct Session {
    pub token: String,
    pub player_id: String,
    pub created_at: i64,
    pub expires_at: i64,
}

#[verifier::ext_equal]
pub struct SessionView {
    pub token: Seq<char>,
    pub player_id: Seq<char>,
    pub created_at: int,
    pub expires_at: int,
}

impl View for Session {
    type V = SessionView;

    open spec fn view(&self) -> SessionView {
        SessionView {
            token: self.token@,
            player_id: self.player_id@,
            created_at: self.created_at as int,
            expires_at: self.expires_at as int,
        }
    }
}

impl Clone for Session {
    fn clone(&self) -> (r: Self)
        ensures
            r@ == self@,
    {
        Session {
            token: self.token.clone(),
            player_id: self.player_id.clone(),
            created_at: self.created_at,
            expires_at: self.expires_at,
        }
    }
}

/// A node of the world: who owns it, what stands on it.
pub struct WorldNode {
    pub owner_id: Option<String>,
    pub army: i64,
    pub building: Option<BuildingType>,
}

#[verifier::ext_equal]
pub struct NodeView {
    pub owner: Option<Seq<char>>,
    pub army: int,
    pub building: Option<BuildingType>,
}

impl View for WorldNode {
    type V = NodeView;

    open spec fn view(&self) -> NodeView {
        NodeView { owner: text_in(self.owner_id), army: self.army as int, building: self.building }
    }
}

impl Clone for WorldNode {
    fn clone(&self) -> (r: Self)
        ensures
            r@ == self@,
    {
        WorldNode { owner_id: copy_text(&self.owner_id), army: self.army, building: self.building }
    }
}

impl WorldNode {
    /// Whether `player_id` owns the node.
    pub fn owned_by(&self, player_id: &str) -> (r: bool)
        ensures
            r == (self@.owner == Some(player_id@)),
    {
        match &self.owner_id {
            Some(owner) => same_text(owner.as_str(), player_id),
            None => false,
        }
    }
}

/// A standing order to send army from one node to a neighbouring one.
pub struct Attack {
    pub id: String,
    pub owner_id: String,
    pub mode: String,
    pub from_node_id: String,
    pub to_node_id: String,
    pub path: Vec<Coord>,
    pub send_per_tick: i64,
    pub created_at: i64,
}

#[verifier::ext_equal]
pub struct AttackView {
    pub id: Seq<char>,
    pub owner: Seq<char>,
    pub mode: Seq<char>,
    pub from: Seq<char>,
    pub to: Seq<char>,
    pub path: Seq<Coord>,
    pub send_per_tick: int,
    pub created_at: int,
}

impl View for Attack {
    type V = AttackView;

    open spec fn view(&self) -> AttackView {
        AttackView {
            id: self.id@,
            owner: self.owner_id@,
            mode: self.mode@,
            from: self.from_node_id@,
            to: self.to_node_id@,
            path: self.path@,
            send_per_tick: self.send_per_tick as int,
            created_at: self.created_at as int,
        }
    }
}

/// A copy of a path.
pub fn copy_path(path: &Vec<Coord>) -> (r: Vec<Coord>)
    ensures
        r@ == path@,
{
    let mut out: Vec<Coord> = Vec::new();
    let mut i: usize = 0;
    while i < path.len()
        invariant
            i <= path.len(),
            out@ == path@.take(i as int),
        decreases path.len() - i,
    {
        out.push(path[i]);
        proof {
            assert(path@.take(i + 1) =~= path@.take(i as int).push(path@[i as int]));
        }
        i += 1;
    }
    proof {
        assert(path@.take(path@.len() as int) =~= path@);
    }
    out
}

impl Clone for Attack {
    fn clone(&self) -> (r: Self)
        ensures
            r@ == self@,
    {
        Attack {
            id: self.id.clone(),
            owner_id: self.owner_id.clone(),
            mode: self.mode.clone(),
            from_node_id: self.from_node_id.clone(),
            to_node_id: self.to_node_id.clone(),
            path: copy_path(&self.path),
            send_per_tick: self.send_per_tick,
            created_at: self.created_at,
        }
    }
}

/// Everything that is saved between runs. The game clock `last_tick_at` is
/// apart from `saved_at`, so that a save does not disturb the tick count.
pub struct GameState {
    pub version: i64,
    pub saved_at: i64,
    pub last_tick_at: i64,
    pub last_persisted_at: i64,
    pub players: Table<Player>,
    pub usernames: Table<String>,
    pub sessions: Table<Session>,
    pub nodes: Table<WorldNode>,
    pub attacks: Table<Attack>,
    pub building_cooldowns: Table<i64>,
}

/// The game state as maps, with the order in which players, nodes and attacks
/// are walked.
#[verifier::ext_equal]
pub struct StateView {
    pub version: int,
    pub saved_at: int,
    pub last_tick_at: int,
    pub last_persisted_at: int,
    pub players: Map<Seq<char>, PlayerView>,
    pub player_keys: Seq<Seq<char>>,
    pub usernames: Map<Seq<char>, Seq<char>>,
    pub sessions: Map<Seq<char>, SessionView>,
    pub nodes: Map<Seq<char>, NodeView>,
    pub node_keys: Seq<Seq<char>>,
    pub attacks: Map<Seq<char>, AttackView>,
    pub attack_keys: Seq<Seq<char>>,
    pub cooldowns: Map<Seq<char>, i64>,
}

impl View for GameState {
    type V = StateView;

    open spec fn view(&self) -> StateView {
        StateView {
            version: self.version as int,
            saved_at: self.saved_at as int,
            last_tick_at: self.last_tick_at as int,
            last_persisted_at: self.last_persisted_at as int,
            players: self.players@,
            player_keys: self.players.keys(),
            usernames: self.usernames@,
            sessions: self.sessions@,
            nodes: self.nodes@,
            node_keys: self.nodes.keys(),
            attacks: self.attacks@,
            attack_keys: self.attacks.keys(),
            cooldowns: self.building_cooldowns@,
        }
    }
}

/// The keys are distinct and they are the domain of the map.
pub open spec fn walks<T>(keys: Seq<Seq<char>>, map: Map<Seq<char>, T>) -> bool {
    &&& keys.no_duplicates()
    &&& forall|k: Seq<char>| #[trigger] map.contains_key(k) <==> keys.contains(k)
}

impl StateView {
    /// Players, nodes and attacks are walked without gap or repetition.
    pub open spec fn coherent(self) -> bool {
        &&& walks(self.player_keys, self.players)
        &&& walks(self.node_keys, self.nodes)
        &&& walks(self.attack_keys, self.attacks)
    }
}

impl GameState {
    /// A world without players, its clocks set to `now`.
    pub fn new(now: i64) -> (r: Self)
        ensures
            r@ == (StateView {
                version: 1,
                saved_at: now as int,
                last_tick_at: now as int,
                last_persisted_at: now as int,
                players: Map::empty(),
                player_keys: Seq::empty(),
                usernames: Map::empty(),
                sessions: Map::empty(),
                nodes: Map::empty(),
                node_keys: Seq::empty(),
                attacks: Map::empty(),
                attack_keys: Seq::empty(),
                cooldowns: Map::empty(),
            }),
    {
        GameState {
            version: 1,
            saved_at: now,
            last_tick_at: now,
            last_persisted_at: now,
            players: Table::new(),
            usernames: Table::new(),
            sessions: Table::new(),
            nodes: Table::new(),
            attacks: Table::new(),
            building_cooldowns: Table::new(),
        }
    }

    /// Notes that the state goes to disk at `now`.
    pub fn mark_saved(&mut self, now: i64)
        ensures
            final(self)@ == (StateView {
                saved_at: now as int,
                last_persisted_at: now as int,
                ..old(self)@
            }),
    {
        self.saved_at = now;
        self.last_persisted_at = now;
    }
}

} // verus!
