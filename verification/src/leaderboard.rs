//! The players who hold most.
use vstd::prelude::*;

use crate::accounts::{asking, guest_refusal, optional_session, session_refusal};
use crate::economy::owned;
use crate::errors::Refusal;
use crate::passwords::utf8;
use crate::sorting::{lemma_all_there, precedes, sort_places, sorted_places};
use crate::state::{GameState, NodeView, StateView};
use crate::table::Table;
use crate::text::{
    begins_with, chars_of, comes_first, contains_text, has_part, lemma_text_order,
    lemma_text_transitive, lowercase, lowered, same_text, starts_with, text_le,
};

verus! {

/// How many players are on the board.
pub const BOARD_SIZE: usize = 20;

/// A name made of digits only.
pub open spec fn all_digits(s: Seq<char>) -> bool {
    forall|i: int| 0 <= i < s.len() ==> '0' <= #[trigger] s[i] && s[i] <= '9'
}

/// Whether a name looks like that of a test account or a bot: by one of a few words
/// in it, or because it is long and of very few letters.
pub open spec fn looks_like_bot(username: Seq<char>) -> bool {
    let lower = lowered(username);
    ||| has_part(lower, "test"@)
    ||| has_part(lower, "probe"@)
    ||| has_part(lower, "perf"@)
    ||| has_part(lower, "dummy"@)
    ||| begins_with(lower, "qa_"@)
    ||| has_part(lower, "loginprobe"@)
    ||| has_part(lower, "trae_"@)
    ||| all_digits(lower)
    ||| utf8(username).len() >= 12 && lower.to_set().len() <= 4
}

fn has_only_digits(chars: &Vec<char>) -> (r: bool)
    ensures
        r == all_digits(chars@),
{
    let mut i: usize = 0;
    while i < chars.len()
        invariant
            i <= chars.len(),
            forall|k: int| 0 <= k < i ==> '0' <= #[trigger] chars@[k] && chars@[k] <= '9',
        decreases chars.len() - i,
    {
        let c: char = chars[i];
        if c < '0' || c > '9' {
            proof {
                assert(!('0' <= chars@[i as int] && chars@[i as int] <= '9'));
            }
            return false;
        }
        i += 1;
    }
    true
}

fn has_char(chars: &Vec<char>, c: char) -> (r: bool)
    ensures
        r == chars@.contains(c),
{
    let mut i: usize = 0;
    while i < chars.len()
        invariant
            i <= chars.len(),
            forall|k: int| 0 <= k < i ==> chars@[k] != c,
        decreases chars.len() - i,
    {
        if chars[i] == c {
            proof {
                assert(chars@[i as int] == c);
            }
            return true;
        }
        i += 1;
    }
    false
}

/// How many letters a name is made of.
fn count_letters(chars: &Vec<char>) -> (r: usize)
    ensures
        r == chars@.to_set().len(),
{
    let mut distinct: Vec<char> = Vec::new();
    let mut i: usize = 0;
    proof {
        assert(distinct@.to_set() =~= chars@.take(0).to_set());
    }
    while i < chars.len()
        invariant
            i <= chars.len(),
            distinct@.no_duplicates(),
            distinct@.to_set() == chars@.take(i as int).to_set(),
        decreases chars.len() - i,
    {
        let c: char = chars[i];
        let ghost before = distinct@;
        let ghost short = chars@.take(i as int);
        let known: bool = has_char(&distinct, c);
        proof {
            assert(chars@.take(i + 1) =~= short.push(c));
            assert(before.to_set().contains(c) == known);
            assert(short.push(c).to_set() =~= short.to_set().insert(c)) by {
                short.lemma_push_to_set_commute(c);
            }
        }
        if !known {
            distinct.push(c);
            proof {
                before.lemma_push_to_set_commute(c);
            }
        } else {
            proof {
                assert(short.to_set().insert(c) =~= short.to_set());
            }
        }
        i += 1;
    }
    proof {
        assert(chars@.take(i as int) =~= chars@);
        distinct@.unique_seq_to_set();
    }
    distinct.len()
}

pub fn is_test_or_bot_username(username: &str) -> (r: bool)
    ensures
        r == looks_like_bot(username@),
{
    let lower = lowercase(username);
    let name = lower.as_str();
    if contains_text(name, "test") || contains_text(name, "probe") || contains_text(name, "perf")
        || contains_text(name, "dummy") || starts_with(name, "qa_") || contains_text(
        name,
        "loginprobe",
    ) || contains_text(name, "trae_") {
        return true;
    }
    let chars = chars_of(name);
    if has_only_digits(&chars) {
        return true;
    }
    username.as_bytes().len() >= 12 && count_letters(&chars) <= 4
}

/// What a player holds: how many nodes, and the army on them.
pub struct Score {
    pub nodes: usize,
    pub army: i128,
}

#[verifier::ext_equal]
pub struct ScoreView {
    pub nodes: int,
    pub army: int,
}

impl View for Score {
    type V = ScoreView;

    open spec fn view(&self) -> ScoreView {
        ScoreView { nodes: self.nodes as int, army: self.army as int }
    }
}

/// What a player holds among some nodes.
pub open spec fn score_of(
    keys: Seq<Seq<char>>,
    nodes: Map<Seq<char>, NodeView>,
    player: Seq<char>,
) -> ScoreView
    decreases keys.len(),
{
    if keys.len() == 0 {
        ScoreView { nodes: 0, army: 0 }
    } else {
        let rest = score_of(keys.drop_last(), nodes, player);
        let node = nodes[keys.last()];
        if node.owner == Some(player) {
            ScoreView {
                nodes: rest.nodes + 1,
                army: rest.army + if node.army > 0 {
                    node.army
                } else {
                    0
                },
            }
        } else {
            rest
        }
    }
}

/// What each owner holds among some nodes.
pub open spec fn scores_right(
    scores: Map<Seq<char>, ScoreView>,
    keys: Seq<Seq<char>>,
    nodes: Map<Seq<char>, NodeView>,
) -> bool {
    forall|p: Seq<char>|
        {
            &&& #[trigger] scores.contains_key(p) == (score_of(keys, nodes, p).nodes > 0)
            &&& scores.contains_key(p) ==> scores[p] == score_of(keys, nodes, p)
        }
}

proof fn lemma_score_not_negative(
    keys: Seq<Seq<char>>,
    nodes: Map<Seq<char>, NodeView>,
    player: Seq<char>,
)
    ensures
        0 <= score_of(keys, nodes, player).nodes <= keys.len(),
        0 <= score_of(keys, nodes, player).army,
        score_of(keys, nodes, player).nodes == 0 ==> score_of(keys, nodes, player).army == 0,
    decreases keys.len(),
{
    if keys.len() > 0 {
        lemma_score_not_negative(keys.drop_last(), nodes, player);
    }
}

fn count_scores(state: &GameState) -> (r: Table<Score>)
    ensures
        scores_right(r@, state@.node_keys, state@.nodes),
{
    let ghost keys = state.nodes.keys();
    let n: usize = state.nodes.len();
    let mut scores: Table<Score> = Table::new();
    let mut i: usize = 0;
    while i < n
        invariant
            keys == state.nodes.keys(),
            state.nodes.coherent(),
            n == keys.len(),
            i <= n,
            scores_right(scores@, keys.take(i as int), state@.nodes),
            forall|p: Seq<char>| #[trigger]
                scores@.contains_key(p) ==> scores@[p].nodes <= i && 0 <= scores@[p].army <= i
                    * 0x7fff_ffff_ffff_ffff,
        decreases n - i,
    {
        let ghost before = scores@;
        let ghost short = keys.take(i as int);
        let ghost long = keys.take(i + 1);
        proof {
            assert(long.drop_last() =~= short);
            assert(long.last() == keys[i as int]);
            assert((i + 1) * 0x7fff_ffff_ffff_ffff == i * 0x7fff_ffff_ffff_ffff
                + 0x7fff_ffff_ffff_ffff) by (nonlinear_arith);
            assert(i * 0x7fff_ffff_ffff_ffff <= 0xffff_ffff_ffff_ffff * 0x7fff_ffff_ffff_ffff)
                by (nonlinear_arith)
                requires
                    i <= 0xffff_ffff_ffff_ffff,
            ;
        }
        let node = state.nodes.value_at(i);
        if let Some(owner) = &node.owner_id {
            let gain: i128 = if node.army > 0 {
                node.army as i128
            } else {
                0
            };
            let (held, army): (usize, i128) = match scores.get(owner.as_str()) {
                Some(score) => (score.nodes, score.army),
                None => (0, 0),
            };
            proof {
                lemma_score_not_negative(short, state@.nodes, owner@);
                assert(before.contains_key(owner@) == (score_of(
                    short,
                    state@.nodes,
                    owner@,
                ).nodes > 0));
            }
            scores.insert(owner.clone(), Score { nodes: held + 1, army: army + gain });
            proof {
                assert forall|p: Seq<char>|
                    {
                        &&& #[trigger] scores@.contains_key(p) == (score_of(
                            long,
                            state@.nodes,
                            p,
                        ).nodes > 0)
                        &&& scores@.contains_key(p) ==> scores@[p] == score_of(
                            long,
                            state@.nodes,
                            p,
                        )
                    } by {
                    lemma_score_not_negative(short, state@.nodes, p);
                    if p != owner@ {
                        assert(scores@.contains_key(p) == before.contains_key(p));
                    }
                }
            }
        } else {
            proof {
                assert forall|p: Seq<char>|
                    {
                        &&& #[trigger] scores@.contains_key(p) == (score_of(
                            long,
                            state@.nodes,
                            p,
                        ).nodes > 0)
                        &&& scores@.contains_key(p) ==> scores@[p] == score_of(
                            long,
                            state@.nodes,
                            p,
                        )
                    } by {
                    assert(before.contains_key(p) == scores@.contains_key(p));
                }
            }
        }
        i += 1;
    }
    proof {
        assert(keys.take(n as int) =~= keys);
    }
    scores
}

/// A player on the board.
pub struct Standing {
    pub player_id: String,
    pub username: String,
    pub nodes: usize,
    pub army: i128,
}

#[verifier::ext_equal]
pub struct StandingView {
    pub player_id: Seq<char>,
    pub username: Seq<char>,
    pub nodes: int,
    pub army: int,
}

impl View for Standing {
    type V = StandingView;

    open spec fn view(&self) -> StandingView {
        StandingView {
            player_id: self.player_id@,
            username: self.username@,
            nodes: self.nodes as int,
            army: self.army as int,
        }
    }
}

/// Whether a player may be on the board.
pub open spec fn eligible(state: StateView, player: Seq<char>) -> bool {
    &&& score_of(state.node_keys, state.nodes, player).nodes > 0
    &&& state.players.contains_key(player)
    &&& !looks_like_bot(state.players[player].username)
}

/// How a player stands.
pub open spec fn standing_of(state: StateView, player: Seq<char>) -> StandingView {
    let score = score_of(state.node_keys, state.nodes, player);
    StandingView {
        player_id: player,
        username: state.players[player].username,
        nodes: score.nodes,
        army: score.army,
    }
}

/// Whether one may stand before another: by army, then by nodes, both from most to
/// least, then by name.
pub open spec fn stands_before(a: StandingView, b: StandingView) -> bool {
    if a.army != b.army {
        a.army > b.army
    } else if a.nodes != b.nodes {
        a.nodes > b.nodes
    } else {
        text_le(a.username, b.username)
    }
}

fn goes_before(a: &Standing, b: &Standing) -> (r: bool)
    ensures
        r == stands_before(a@, b@),
{
    if a.army != b.army {
        a.army > b.army
    } else if a.nodes != b.nodes {
        a.nodes > b.nodes
    } else {
        comes_first(a.username.as_str(), b.username.as_str())
    }
}

/// The views of some standings.
pub open spec fn standing_views(list: Seq<Standing>) -> Seq<StandingView> {
    Seq::new(list.len(), |i: int| list[i]@)
}

/// `all` holds every player who may be on the board once.
pub open spec fn all_eligible(state: StateView, all: Seq<StandingView>) -> bool {
    &&& forall|i: int|
        0 <= i < all.len() ==> eligible(state, (#[trigger] all[i]).player_id) && all[i]
            == standing_of(state, all[i].player_id)
    &&& forall|i: int, j: int|
        0 <= i < j < all.len() ==> (#[trigger] all[i]).player_id != (#[trigger] all[j]).player_id
    &&& forall|p: Seq<char>| #[trigger] eligible(state, p) ==> listed(all, p)
}

/// Whether a player is in a list.
pub open spec fn listed(all: Seq<StandingView>, player: Seq<char>) -> bool {
    exists|i: int| 0 <= i < all.len() && (#[trigger] all[i]).player_id == player
}

fn list_eligible(state: &GameState) -> (r: Vec<Standing>)
    ensures
        all_eligible(state@, standing_views(r@)),
{
    let scores = count_scores(state);
    let ghost keys = scores.keys();
    let n: usize = scores.len();
    let mut out: Vec<Standing> = Vec::new();
    let mut i: usize = 0;
    while i < n
        invariant
            scores_right(scores@, state@.node_keys, state@.nodes),
            scores.coherent(),
            keys == scores.keys(),
            n == keys.len(),
            i <= n,
            out.len() <= i,
            forall|k: int|
                0 <= k < out.len() ==> eligible(state@, (#[trigger] out@[k])@.player_id)
                    && out@[k]@ == standing_of(state@, out@[k]@.player_id),
            forall|k: int|
                0 <= k < out.len() ==> exists|j: int|
                    0 <= j < i && keys[j] == (#[trigger] out@[k])@.player_id,
            forall|a: int, b: int|
                0 <= a < b < out.len() ==> (#[trigger] out@[a])@.player_id != (
                #[trigger] out@[b])@.player_id,
            forall|j: int|
                0 <= j < i && eligible(state@, #[trigger] keys[j]) ==> exists|k: int|
                    0 <= k < out.len() && (#[trigger] out@[k])@.player_id == keys[j],
        decreases n - i,
    {
        let ghost before = out@;
        let id = scores.key_at(i);
        let score = scores.value_at(i);
        proof {
            assert(scores@.contains_key(id@));
            assert forall|k: int| 0 <= k < before.len() implies (#[trigger] before[k])@.player_id
                != id@ by {
                let j = choose|j: int| 0 <= j < i && keys[j] == before[k]@.player_id;
                assert(keys[j] != keys[i as int]);
            }
        }
        if let Some(player) = state.players.get(id.as_str()) {
            if !is_test_or_bot_username(player.username.as_str()) {
                out.push(
                    Standing {
                        player_id: id.clone(),
                        username: player.username.clone(),
                        nodes: score.nodes,
                        army: score.army,
                    },
                );
                proof {
                    assert(out@.last()@ == standing_of(state@, id@));
                    assert forall|j: int| 0 <= j < i + 1 && eligible(
                        state@,
                        #[trigger] keys[j],
                    ) implies exists|k: int|
                        0 <= k < out.len() && (#[trigger] out@[k])@.player_id == keys[j] by {
                        if j == i {
                            assert(out@[before.len() as int]@.player_id == keys[j]);
                        } else {
                            let k = choose|k: int|
                                0 <= k < before.len() && (#[trigger] before[k])@.player_id
                                    == keys[j];
                            assert(out@[k]@.player_id == keys[j]);
                        }
                    }
                    assert forall|k: int| 0 <= k < out.len() implies exists|j: int|
                        0 <= j < i + 1 && keys[j] == (#[trigger] out@[k])@.player_id by {
                        if k < before.len() {
                            let j = choose|j: int| 0 <= j < i && keys[j] == before[k]@.player_id;
                            assert(keys[j] == out@[k]@.player_id);
                        } else {
                            assert(keys[i as int] == out@[k]@.player_id);
                        }
                    }
                }
            }
        }
        i += 1;
    }
    proof {
        let all = standing_views(out@);
        assert forall|p: Seq<char>| #[trigger] eligible(state@, p) implies listed(all, p) by {
            assert(scores@.contains_key(p));
            let j = keys.index_of(p);
            assert(eligible(state@, keys[j]));
            let k = choose|k: int| 0 <= k < out.len() && (#[trigger] out@[k])@.player_id == keys[j];
            assert(all[k].player_id == p);
        }
        assert forall|k: int| 0 <= k < all.len() implies eligible(
            state@,
            (#[trigger] all[k]).player_id,
        ) && all[k] == standing_of(state@, all[k].player_id) by {
            assert(out@[k]@ == all[k]);
        }
        assert forall|a: int, b: int| 0 <= a < b < all.len() implies (#[trigger] all[a]).player_id
            != (#[trigger] all[b]).player_id by {
            assert(out@[a]@.player_id != out@[b]@.player_id);
        }
    }
    out
}

/// How the players of a list rank.
pub open spec fn board_order(all: Seq<StandingView>) -> spec_fn(usize, usize) -> bool {
    |a: usize, b: usize| stands_before(all[a as int], all[b as int])
}

/// `board` holds the first twenty of `all`, in order.
pub open spec fn board_by(
    state: StateView,
    board: Seq<StandingView>,
    all: Seq<StandingView>,
    order: Seq<usize>,
) -> bool {
    &&& all_eligible(state, all)
    &&& sorted_places(board_order(all), order, all.len() as int)
    &&& board.len() == (if all.len() < BOARD_SIZE {
        all.len() as int
    } else {
        BOARD_SIZE as int
    })
    &&& forall|i: int| 0 <= i < board.len() ==> #[trigger] board[i] == all[order[i] as int]
}

/// `board` is a leaderboard: the twenty players who stand first.
pub open spec fn is_board(state: StateView, board: Seq<StandingView>) -> bool {
    exists|all: Seq<StandingView>, order: Seq<usize>| #[trigger]
        board_by(state, board, all, order)
}

/// The board is in order.
pub proof fn law_board_is_in_order(state: StateView, board: Seq<StandingView>, i: int, j: int)
    requires
        is_board(state, board),
        0 <= i < j < board.len(),
    ensures
        stands_before(board[i], board[j]),
        board[i].player_id != board[j].player_id,
        board[i] == standing_of(state, board[i].player_id),
        eligible(state, board[i].player_id),
{
    let (all, order) = choose|all: Seq<StandingView>, order: Seq<usize>| #[trigger]
        board_by(state, board, all, order);
    assert(precedes(board_order(all), order[i], order[j]));
    assert(board[i] == all[order[i] as int]);
    assert(board[j] == all[order[j] as int]);
    assert(order[i] < all.len());
    assert(order[j] < all.len());
    if order[i] < order[j] {
        assert(all[order[i] as int].player_id != all[order[j] as int].player_id);
    } else {
        assert(all[order[j] as int].player_id != all[order[i] as int].player_id);
    }
}

/// Nobody who may be on the board and is not stands before anyone who is, and there
/// is nobody left out while there is room.
pub proof fn law_board_holds_the_first(
    state: StateView,
    board: Seq<StandingView>,
    player: Seq<char>,
    i: int,
)
    requires
        is_board(state, board),
        eligible(state, player),
        !listed(board, player),
    ensures
        board.len() == BOARD_SIZE,
        0 <= i < board.len() ==> stands_before(board[i], standing_of(state, player)),
{
    let (all, order) = choose|all: Seq<StandingView>, order: Seq<usize>| #[trigger]
        board_by(state, board, all, order);
    assert(listed(all, player));
    let at = choose|k: int| 0 <= k < all.len() && (#[trigger] all[k]).player_id == player;
    lemma_all_there(order, all.len() as int);
    lemma_places_fit(order, all.len() as int);
    assert(order.contains(at as usize));
    let j = order.index_of(at as usize);
    if j < board.len() {
        assert(board[j] == all[order[j] as int]);
        assert(listed(board, player));
    }
    if 0 <= i < board.len() {
        assert(precedes(board_order(all), order[i], order[j]));
        assert(board[i] == all[order[i] as int]);
    }
}

/// There are no more places than machine integers.
proof fn lemma_places_fit(places: Seq<usize>, n: int)
    requires
        crate::sorting::all_places(places, n),
    ensures
        n <= usize::MAX + 1,
{
    let as_ints = places.map_values(|p: usize| p as int);
    assert(as_ints.no_duplicates());
    as_ints.unique_seq_to_set();
    let range = vstd::set_lib::set_int_range(0, usize::MAX + 1);
    vstd::set_lib::lemma_int_range(0, usize::MAX + 1);
    assert(as_ints.to_set().subset_of(range));
    vstd::set_lib::lemma_len_subset(as_ints.to_set(), range);
}

fn make_board(state: &GameState) -> (r: Vec<Standing>)
    ensures
        is_board(state@, standing_views(r@)),
{
    let mut all = list_eligible(state);
    let n: usize = all.len();
    let ghost list = standing_views(all@);
    let ghost le = board_order(list);
    let first = |a: usize, b: usize| -> (r: bool)
        requires
            a < n && b < n && n == all.len(),
        ensures
            r == stands_before(all@[a as int]@, all@[b as int]@),
        { goes_before(&all[a], &all[b]) };
    proof {
        assert forall|a: usize, b: usize| a < n && b < n implies #[trigger] le(a, b) || le(b, a) by {
            lemma_text_order(list[a as int].username, list[b as int].username);
        }
        assert forall|a: usize, b: usize, c: usize|
            a < n && b < n && c < n && #[trigger] le(a, b) && #[trigger] le(b, c) implies le(
            a,
            c,
        ) by {
            let (x, y, z) = (list[a as int], list[b as int], list[c as int]);
            if x.army == y.army && y.army == z.army && x.nodes == y.nodes && y.nodes == z.nodes {
                lemma_text_transitive(x.username, y.username, z.username);
            }
        }
    }
    let order = sort_places(n, &first, Ghost(le));
    let count: usize = if n < BOARD_SIZE {
        n
    } else {
        BOARD_SIZE
    };
    let mut out: Vec<Standing> = Vec::new();
    let mut i: usize = 0;
    while i < count
        invariant
            list == standing_views(all@),
            n == all.len(),
            sorted_places(le, order@, n as int),
            count <= n,
            i <= count,
            out.len() == i,
            forall|k: int| 0 <= k < i ==> (#[trigger] out@[k])@ == list[order@[k] as int],
        decreases count - i,
    {
        proof {
            assert(order@[i as int] < n);
        }
        let from = &all[order[i]];
        out.push(
            Standing {
                player_id: from.player_id.clone(),
                username: from.username.clone(),
                nodes: from.nodes,
                army: from.army,
            },
        );
        i += 1;
    }
    proof {
        let board = standing_views(out@);
        assert forall|k: int| 0 <= k < board.len() implies #[trigger] board[k]
            == list[order@[k] as int] by {
            assert(out@[k]@ == list[order@[k] as int]);
        }
        assert(board_by(state@, board, list, order@));
    }
    out
}

/// The leaderboard, and where on it the player stands who asks, counted from one.
pub struct Leaderboard {
    pub standings: Vec<Standing>,
    pub current_rank: Option<usize>,
}

/// `rank` is the place of a player on a board, counted from one.
pub open spec fn is_rank(
    board: Seq<StandingView>,
    player: Option<Seq<char>>,
    rank: Option<usize>,
) -> bool {
    match (player, rank) {
        (Some(p), Some(k)) => 1 <= k <= board.len() && board[k - 1].player_id == p,
        (Some(p), None) => !listed(board, p),
        (None, _) => rank is None,
    }
}

fn find_rank(board: &Vec<Standing>, player_id: &str) -> (r: Option<usize>)
    ensures
        is_rank(standing_views(board@), Some(player_id@), r),
{
    let ghost list = standing_views(board@);
    let mut i: usize = 0;
    while i < board.len()
        invariant
            list == standing_views(board@),
            i <= board.len(),
            forall|k: int| 0 <= k < i ==> (#[trigger] list[k]).player_id != player_id@,
        decreases board.len() - i,
    {
        if same_text(board[i].player_id.as_str(), player_id) {
            proof {
                assert(list[i as int].player_id == player_id@);
            }
            return Some(i + 1);
        }
        i += 1;
    }
    None
}

/// What is answered to whoever asks for the leaderboard.
pub open spec fn board_outcome(
    state: StateView,
    token: Option<&str>,
    now: int,
    r: Result<Leaderboard, Refusal>,
) -> bool {
    match guest_refusal(state, token, now) {
        Some(refusal) => r == Err::<Leaderboard, Refusal>(refusal),
        None => {
            &&& r is Ok
            &&& is_board(state, standing_views(r->Ok_0.standings@))
            &&& is_rank(
                standing_views(r->Ok_0.standings@),
                asking(state, token),
                r->Ok_0.current_rank,
            )
        },
    }
}

/// The leaderboard, to players and guests alike.
pub fn leaderboard_response(state: &GameState, token: Option<&str>, now: i64) -> (r: Result<
    Leaderboard,
    Refusal,
>)
    ensures
        board_outcome(state@, token, now as int, r),
{
    let session = match optional_session(state, token, now) {
        Ok(session) => session,
        Err(refusal) => {
            return Err(refusal);
        },
    };
    let standings = make_board(state);
    let current_rank: Option<usize> = match &session {
        Some(s) => find_rank(&standings, s.player_id.as_str()),
        None => None,
    };
    Ok(Leaderboard { standings, current_rank })
}

/// A node counts for its owner alone, with the army on it; a node nobody owns for nobody.
pub proof fn law_what_counts(
    keys: Seq<Seq<char>>,
    nodes: Map<Seq<char>, NodeView>,
    id: Seq<char>,
    player: Seq<char>,
)
    ensures
        ({
            let before = score_of(keys, nodes, player);
            let after = score_of(keys.push(id), nodes, player);
            let none = score_of(Seq::empty(), nodes, player);
            &&& none.nodes == 0 && none.army == 0
            &&& nodes[id].owner == Some(player) ==> after.nodes == before.nodes + 1
            &&& nodes[id].owner == Some(player) && nodes[id].army >= 0 ==> after.army
                == before.army + nodes[id].army
            &&& nodes[id].owner == Some(player) && nodes[id].army < 0 ==> after.army
                == before.army
            &&& nodes[id].owner != Some(player) ==> after == before
        }),
{
    assert(keys.push(id).drop_last() =~= keys);
}

/// The nodes that count are those that the player owns.
proof fn lemma_counts_owned(
    keys: Seq<Seq<char>>,
    nodes: Map<Seq<char>, NodeView>,
    player: Seq<char>,
)
    ensures
        score_of(keys, nodes, player).nodes == owned(keys, nodes, player).len(),
    decreases keys.len(),
{
    reveal(Seq::filter);
    if keys.len() > 0 {
        lemma_counts_owned(keys.drop_last(), nodes, player);
    }
}

/// The board shows players under their own names, with the nodes and the army that they hold:
/// by army, then by nodes, then by name, and nobody twice. All of them own a node and look
/// like no bot. There are twenty at most, and fewer only if there are no more.
pub proof fn law_what_the_board_shows(
    state: StateView,
    token: Option<&str>,
    now: int,
    r: Result<Leaderboard, Refusal>,
    player: Seq<char>,
)
    requires
        board_outcome(state, token, now, r),
        r is Ok,
    ensures
        ({
            let board = standing_views(r->Ok_0.standings@);
            let may_show = state.players.contains_key(player) && owned(
                state.node_keys,
                state.nodes,
                player,
            ).len() > 0 && !looks_like_bot(state.players[player].username);
            &&& board.len() <= 20
            &&& forall|i: int|
                0 <= i < board.len() ==> {
                    let id = (#[trigger] board[i]).player_id;
                    &&& state.players.contains_key(id)
                    &&& board[i].username == state.players[id].username
                    &&& board[i].nodes == owned(state.node_keys, state.nodes, id).len()
                    &&& board[i].nodes > 0
                    &&& board[i].army == score_of(state.node_keys, state.nodes, id).army
                    &&& !looks_like_bot(board[i].username)
                }
            &&& forall|i: int, j: int|
                #![trigger board[i], board[j]]
                0 <= i < j < board.len() ==> {
                    &&& board[i].player_id != board[j].player_id
                    &&& board[i].army >= board[j].army
                    &&& board[i].army == board[j].army ==> board[i].nodes >= board[j].nodes
                    &&& board[i].army == board[j].army && board[i].nodes == board[j].nodes
                        ==> text_le(board[i].username, board[j].username)
                }
            &&& may_show && !listed(board, player) ==> board.len() == 20
            &&& may_show && !listed(board, player) ==> forall|i: int|
                0 <= i < 20 ==> (#[trigger] board[i]).army >= score_of(
                    state.node_keys,
                    state.nodes,
                    player,
                ).army
        }),
{
    let board = standing_views(r->Ok_0.standings@);
    let (all, order) = choose|all: Seq<StandingView>, order: Seq<usize>| #[trigger]
        board_by(state, board, all, order);
    assert forall|i: int| 0 <= i < board.len() implies {
        let id = (#[trigger] board[i]).player_id;
        &&& state.players.contains_key(id)
        &&& board[i].username == state.players[id].username
        &&& board[i].nodes == owned(state.node_keys, state.nodes, id).len()
        &&& board[i].nodes > 0
        &&& board[i].army == score_of(state.node_keys, state.nodes, id).army
        &&& !looks_like_bot(board[i].username)
    } by {
        assert(board[i] == all[order[i] as int]);
        lemma_counts_owned(state.node_keys, state.nodes, board[i].player_id);
    }
    assert forall|i: int, j: int|
        #![trigger board[i], board[j]]
        0 <= i < j < board.len() implies {
        &&& board[i].player_id != board[j].player_id
        &&& board[i].army >= board[j].army
        &&& board[i].army == board[j].army ==> board[i].nodes >= board[j].nodes
        &&& board[i].army == board[j].army && board[i].nodes == board[j].nodes ==> text_le(
            board[i].username,
            board[j].username,
        )
    } by {
        law_board_is_in_order(state, board, i, j);
    }
    lemma_counts_owned(state.node_keys, state.nodes, player);
    if eligible(state, player) && !listed(board, player) {
        law_board_holds_the_first(state, board, player, 0);
        assert forall|i: int| 0 <= i < 20 implies (#[trigger] board[i]).army >= score_of(
            state.node_keys,
            state.nodes,
            player,
        ).army by {
            law_board_holds_the_first(state, board, player, i);
        }
    }
}

/// A player is told the place on the board, counted from one, or none if not on it. A guest
/// is told none, and whoever shows a bad token gets no board.
pub proof fn law_what_rank_is_told(
    state: StateView,
    token: Option<&str>,
    now: int,
    r: Result<Leaderboard, Refusal>,
)
    requires
        board_outcome(state, token, now, r),
    ensures
        token is None ==> r is Ok && r->Ok_0.current_rank is None,
        token is Some ==> (r is Ok <==> state.sessions.contains_key(token->0@)
            && state.players.contains_key(state.sessions[token->0@].player_id)
            && state.sessions[token->0@].expires_at > now),
        r is Err ==> session_refusal(state, token->0@, now) == Some(r->Err_0),
        token is Some && r is Ok ==> {
            let board = r->Ok_0.standings@;
            let me = state.sessions[token->0@].player_id;
            match r->Ok_0.current_rank {
                Some(k) => 1 <= k <= board.len() && board[k - 1].player_id@ == me,
                None => forall|i: int|
                    0 <= i < board.len() ==> (#[trigger] board[i]).player_id@ != me,
            }
        },
{
    if token is Some && r is Ok {
        let board = standing_views(r->Ok_0.standings@);
        let me = state.sessions[token->0@].player_id;
        if r->Ok_0.current_rank is None {
            assert forall|i: int| 0 <= i < board.len() implies (
            #[trigger] r->Ok_0.standings@[i]).player_id@ != me by {
                assert(board[i].player_id != me);
            }
        } else {
            let k = r->Ok_0.current_rank->0;
            assert(board[k - 1] == r->Ok_0.standings@[k - 1]@);
        }
    }
}

/// A name looks like that of a bot if its lower case holds one of the telling words, begins
/// with `qa_`, or is made of digits, or if it has twelve bytes or more and at most four
/// different letters. Any other name does not.
pub proof fn law_which_names_look_like_bots(name: Seq<char>, i: int)
    ensures
        ({
            let lower = lowered(name);
            let at = |word: Seq<char>|
                0 <= i && i + word.len() <= lower.len() && lower.subrange(i, i + word.len())
                    == word;
            &&& at("test"@) || at("probe"@) || at("perf"@) || at("dummy"@) || at("trae_"@)
                ==> looks_like_bot(name)
            &&& i == 0 && at("qa_"@) ==> looks_like_bot(name)
            &&& (forall|k: int| 0 <= k < lower.len() ==> '0' <= #[trigger] lower[k] && lower[k]
                <= '9') ==> looks_like_bot(name)
            &&& utf8(name).len() >= 12 && lower.to_set().len() <= 4 ==> looks_like_bot(name)
            &&& looks_like_bot(name) && !has_part(lower, "test"@) && !has_part(lower, "probe"@)
                && !has_part(lower, "perf"@) && !has_part(lower, "dummy"@) && !has_part(
                lower,
                "trae_"@,
            ) && !begins_with(lower, "qa_"@) ==> {
                ||| forall|k: int|
                    0 <= k < lower.len() ==> '0' <= #[trigger] lower[k] && lower[k] <= '9'
                ||| utf8(name).len() >= 12 && lower.to_set().len() <= 4
            }
        }),
{
    let lower = lowered(name);
    reveal_strlit("loginprobe");
    reveal_strlit("probe");
    if has_part(lower, "loginprobe"@) {
        let k = choose|k: int|
            0 <= k <= lower.len() - 10 && #[trigger] lower.subrange(k, k + 10) == "loginprobe"@;
        assert(lower.subrange(k + 5, k + 5 + 5) =~= "probe"@) by {
            assert forall|m: int| 0 <= m < 5 implies lower[k + 5 + m] == "probe"@[m] by {
                assert(lower.subrange(k, k + 10)[5 + m] == "loginprobe"@[5 + m]);
            }
        }
        assert(has_part(lower, "probe"@));
    }
    if 0 <= i && i + "qa_"@.len() <= lower.len() && i == 0 && lower.subrange(i, i + "qa_"@.len())
        == "qa_"@ {
        assert(lower.take("qa_"@.len() as int) =~= lower.subrange(0, "qa_"@.len() as int));
    }
}

} // verus!
