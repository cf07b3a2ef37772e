//! Requests over HTTP: which of them the server knows, and what they ask for.
use url::form_urlencoded;
use vstd::prelude::*;

use crate::body::{
    body_fields, degrees_field, field_views, get_degrees, get_id, get_ids, get_integer, get_text,
    id_field, ids_field, integer_field, parse_body_json, text_field, Field, FieldView,
};
use crate::buildings::{building_named, BuildingType};
use crate::errors::{refusal_text, Refusal};
use crate::geometry::Coord;
use crate::numeric::default_send_per_tick;
use crate::passwords::utf8;
use crate::state::{copy_text, text_in, texts};
use crate::text::{
    ascii_lower, ascii_lowered, begins_with, chars_of, contains_text, first_place, has_part,
    parse_i64, parsed_i64, pieces, same_text, slice_text, split, starts_with, trim, trimmed,
};

verus! {

/// Whether players may put up buildings and fire missiles.
pub const BUILDINGS_ENABLED: bool = false;

#[derive(Clone, Copy, Debug, PartialEq, Eq, Structural)]
pub enum Verb {
    Get,
    Post,
    Other,
}

/// What a request is for.
#[derive(Clone, Copy, Debug, PartialEq, Eq, Structural)]
pub enum Route {
    Register,
    Login,
    GameState,
    Leaderboard,
    NodeTile,
    Logout,
    Attack,
    Build,
    LaunchMissile,
    ConnectionRate,
    ConnectionRemove,
    ConnectableNodes,
    ConnectionPreview,
    BuildStatus,
    File,
}

/// What a request for a path is for; whatever is not known is taken for a file.
pub open spec fn route_of(verb: Verb, path: Seq<char>) -> Route {
    if verb == Verb::Post {
        if path == "/api/register"@ {
            Route::Register
        } else if path == "/api/login"@ {
            Route::Login
        } else if path == "/api/logout"@ {
            Route::Logout
        } else if path == "/api/attack"@ {
            Route::Attack
        } else if path == "/api/build"@ {
            Route::Build
        } else if path == "/api/launch-missile"@ {
            Route::LaunchMissile
        } else if path == "/api/connection-rate"@ {
            Route::ConnectionRate
        } else if path == "/api/connection-remove"@ {
            Route::ConnectionRemove
        } else if path == "/api/connectable-nodes"@ {
            Route::ConnectableNodes
        } else if path == "/api/connection-preview"@ {
            Route::ConnectionPreview
        } else {
            Route::File
        }
    } else if verb == Verb::Get {
        if path == "/api/game-state"@ {
            Route::GameState
        } else if path == "/api/leaderboard"@ {
            Route::Leaderboard
        } else if path == "/api/node-tile"@ {
            Route::NodeTile
        } else if path == "/api/build-status"@ {
            Route::BuildStatus
        } else {
            Route::File
        }
    } else {
        Route::File
    }
}

pub fn find_route(verb: Verb, path: &str) -> (r: Route)
    ensures
        r == route_of(verb, path@),
{
    match verb {
        Verb::Post => {
            if same_text(path, "/api/register") {
                Route::Register
            } else if same_text(path, "/api/login") {
                Route::Login
            } else if same_text(path, "/api/logout") {
                Route::Logout
            } else if same_text(path, "/api/attack") {
                Route::Attack
            } else if same_text(path, "/api/build") {
                Route::Build
            } else if same_text(path, "/api/launch-missile") {
                Route::LaunchMissile
            } else if same_text(path, "/api/connection-rate") {
                Route::ConnectionRate
            } else if same_text(path, "/api/connection-remove") {
                Route::ConnectionRemove
            } else if same_text(path, "/api/connectable-nodes") {
                Route::ConnectableNodes
            } else if same_text(path, "/api/connection-preview") {
                Route::ConnectionPreview
            } else {
                Route::File
            }
        },
        Verb::Get => {
            if same_text(path, "/api/game-state") {
                Route::GameState
            } else if same_text(path, "/api/leaderboard") {
                Route::Leaderboard
            } else if same_text(path, "/api/node-tile") {
                Route::NodeTile
            } else if same_text(path, "/api/build-status") {
                Route::BuildStatus
            } else {
                Route::File
            }
        },
        Verb::Other => Route::File,
    }
}

/// Whether a request of a known player, or of a guest with a token already at hand,
/// has a body that is read.
pub open spec fn body_wanted(route: Route, bearer: bool) -> bool {
    match route {
        Route::Register | Route::Login | Route::Attack | Route::ConnectionRate
        | Route::ConnectionRemove | Route::ConnectableNodes | Route::ConnectionPreview => true,
        Route::Build | Route::LaunchMissile => BUILDINGS_ENABLED,
        Route::Logout => !bearer,
        _ => false,
    }
}

pub fn wants_body(route: Route, bearer: bool) -> (r: bool)
    ensures
        r == body_wanted(route, bearer),
{
    match route {
        Route::Register | Route::Login | Route::Attack | Route::ConnectionRate
        | Route::ConnectionRemove | Route::ConnectableNodes | Route::ConnectionPreview => true,
        Route::Build | Route::LaunchMissile => BUILDINGS_ENABLED,
        Route::Logout => !bearer,
        _ => false,
    }
}

/// Names with their values, as forms are filled in.
pub open spec fn pair_views(pairs: Seq<(String, String)>) -> Seq<(Seq<char>, Seq<char>)> {
    Seq::new(pairs.len(), |i: int| (pairs[i].0@, pairs[i].1@))
}

/// The names and values that a query string stands for.
pub uninterp spec fn form_pairs(bytes: Seq<u8>) -> Seq<(Seq<char>, Seq<char>)>;

/// `form_urlencoded::parse`: the names and values of a query string, in order.
#[verifier::external_body]
pub(crate) fn parse_form(bytes: &[u8]) -> (r: Vec<(String, String)>)
    ensures
        pair_views(r@) == form_pairs(bytes@),
{
    form_urlencoded::parse(bytes).into_owned().collect()
}

/// A URL: the path, and the query behind the first question mark.
pub struct Url {
    pub path: String,
    pub query: Vec<(String, String)>,
}

/// The path of a URL.
pub open spec fn path_of(url: Seq<char>) -> Seq<char> {
    url.take(first_place(url, '?'))
}

/// The query string of a URL.
pub open spec fn query_of(url: Seq<char>) -> Seq<char> {
    let i = first_place(url, '?');
    if i < url.len() {
        url.skip(i + 1)
    } else {
        Seq::empty()
    }
}

/// Where a character stands first, or the length.
fn find_first(chars: &Vec<char>, c: char) -> (r: usize)
    ensures
        r == first_place(chars@, c),
        r <= chars.len(),
{
    let mut i: usize = 0;
    proof {
        assert(chars@.skip(0) =~= chars@);
    }
    while i < chars.len() && chars[i] != c
        invariant
            i <= chars.len(),
            first_place(chars@, c) == i + first_place(chars@.skip(i as int), c),
        decreases chars.len() - i,
    {
        proof {
            assert(chars@.skip(i as int)[0] == chars@[i as int]);
            assert(chars@.skip(i as int).skip(1) =~= chars@.skip(i + 1));
        }
        i += 1;
    }
    proof {
        if i < chars.len() {
            assert(chars@.skip(i as int)[0] == chars@[i as int]);
        }
    }
    i
}

/// Takes a URL apart.
pub fn parse_url(url: &str) -> (r: Url)
    ensures
        r.path@ == path_of(url@),
        pair_views(r.query@) == form_pairs(utf8(query_of(url@))),
{
    let chars = chars_of(url);
    let i: usize = find_first(&chars, '?');
    let path = slice_text(&chars, 0, i);
    let query: String = if i < chars.len() {
        slice_text(&chars, i + 1, chars.len())
    } else {
        String::new()
    };
    proof {
        assert(path@ =~= path_of(url@));
        assert(query@ =~= query_of(url@));
    }
    Url { path, query: parse_form(query.as_str().as_bytes()) }
}

/// The value of a name in a query; the last one where there are several.
pub open spec fn query_value(pairs: Seq<(Seq<char>, Seq<char>)>, name: Seq<char>) -> Option<
    Seq<char>,
>
    decreases pairs.len(),
{
    if pairs.len() == 0 {
        None
    } else if pairs.last().0 == name {
        Some(pairs.last().1)
    } else {
        query_value(pairs.drop_last(), name)
    }
}

fn get_query(pairs: &Vec<(String, String)>, name: &str) -> (r: Option<String>)
    ensures
        text_in(r) == query_value(pair_views(pairs@), name@),
{
    let ghost all = pair_views(pairs@);
    let mut i: usize = pairs.len();
    proof {
        assert(all.take(i as int) =~= all);
    }
    while i > 0
        invariant
            all == pair_views(pairs@),
            i <= pairs.len(),
            query_value(all, name@) == query_value(all.take(i as int), name@),
        decreases i,
    {
        proof {
            assert(all.take(i as int).drop_last() =~= all.take(i - 1));
            assert(all.take(i as int).last() == all[i - 1]);
        }
        let (key, value) = &pairs[i - 1];
        if same_text(key.as_str(), name) {
            return Some(value.clone());
        }
        i -= 1;
    }
    None
}

/// Whether a header, in whatever case, is the one that carries tokens.
pub open spec fn is_authorization(field: Seq<char>) -> bool {
    ascii_lowered(field) == "authorization"@
}

/// The value of the first `Authorization` header.
pub open spec fn authorization(headers: Seq<(Seq<char>, Seq<char>)>) -> Option<Seq<char>>
    decreases headers.len(),
{
    if headers.len() == 0 {
        None
    } else if is_authorization(headers[0].0) {
        Some(headers[0].1)
    } else {
        authorization(headers.skip(1))
    }
}

/// The token in the headers of a request, if there is one.
pub open spec fn bearer_of(headers: Seq<(Seq<char>, Seq<char>)>) -> Option<Seq<char>> {
    match authorization(headers) {
        Some(value) => if begins_with(value, "Bearer "@) {
            Some(trimmed(value.skip("Bearer "@.len() as int)))
        } else {
            None
        },
        None => None,
    }
}

pub fn extract_bearer_token(headers: &Vec<(String, String)>) -> (r: Option<String>)
    ensures
        text_in(r) == bearer_of(pair_views(headers@)),
{
    let ghost all = pair_views(headers@);
    let mut i: usize = 0;
    proof {
        assert(all.skip(0) =~= all);
    }
    while i < headers.len()
        invariant
            all == pair_views(headers@),
            i <= headers.len(),
            authorization(all) == authorization(all.skip(i as int)),
        decreases headers.len() - i,
    {
        proof {
            assert(all.skip(i as int)[0] == all[i as int]);
            assert(all.skip(i as int).skip(1) =~= all.skip(i + 1));
        }
        let (field, value) = &headers[i];
        if same_text(ascii_lower(field.as_str()).as_str(), "authorization") {
            if !starts_with(value.as_str(), "Bearer ") {
                return None;
            }
            let chars = chars_of(value.as_str());
            proof {
                reveal_strlit("Bearer ");
            }
            let rest = slice_text(&chars, 7, chars.len());
            proof {
                assert(rest@ =~= value@.skip(7));
            }
            return Some(trim(rest.as_str()));
        }
        i += 1;
    }
    None
}

/// What a request asks the server to do.
pub enum Command {
    Register { username: String, password: String, start_node_id: Option<String> },
    Login { username: String, password: String },
    ShowGame { session: Option<String>, include_nodes: bool },
    ShowLeaderboard { session: Option<String> },
    ShowTile { token: String, z: i64, x: i64, y: i64 },
    Logout { token: String },
    Attack { token: String, from: String, to: String, send_per_tick: i64 },
    Build { token: String, node_id: String, building: BuildingType },
    Launch { token: String, missile_type: String, target: Coord },
    SetRate { token: String, from: String, to: String, send_per_tick: i64 },
    Disconnect { token: String, from: String, to: String },
    ShowNeighbors { token: String, from: String, candidates: Vec<String> },
    Preview { token: String, from: String, to: String },
    ShowBuildStatus,
    SendFile,
}

#[verifier::ext_equal]
pub enum CommandView {
    Register { username: Seq<char>, password: Seq<char>, start: Option<Seq<char>> },
    Login { username: Seq<char>, password: Seq<char> },
    ShowGame { session: Option<Seq<char>>, include_nodes: bool },
    ShowLeaderboard { session: Option<Seq<char>> },
    ShowTile { token: Seq<char>, z: i64, x: i64, y: i64 },
    Logout { token: Seq<char> },
    Attack { token: Seq<char>, from: Seq<char>, to: Seq<char>, rate: i64 },
    Build { token: Seq<char>, node: Seq<char>, building: BuildingType },
    Launch { token: Seq<char>, missile: Seq<char>, target: Coord },
    SetRate { token: Seq<char>, from: Seq<char>, to: Seq<char>, rate: i64 },
    Disconnect { token: Seq<char>, from: Seq<char>, to: Seq<char> },
    ShowNeighbors { token: Seq<char>, from: Seq<char>, candidates: Seq<Seq<char>> },
    Preview { token: Seq<char>, from: Seq<char>, to: Seq<char> },
    ShowBuildStatus,
    SendFile,
}

impl View for Command {
    type V = CommandView;

    open spec fn view(&self) -> CommandView {
        match self {
            Command::Register { username, password, start_node_id } => CommandView::Register {
                username: username@,
                password: password@,
                start: text_in(*start_node_id),
            },
            Command::Login { username, password } => CommandView::Login {
                username: username@,
                password: password@,
            },
            Command::ShowGame { session, include_nodes } => CommandView::ShowGame {
                session: text_in(*session),
                include_nodes: *include_nodes,
            },
            Command::ShowLeaderboard { session } => CommandView::ShowLeaderboard {
                session: text_in(*session),
            },
            Command::ShowTile { token, z, x, y } => CommandView::ShowTile {
                token: token@,
                z: *z,
                x: *x,
                y: *y,
            },
            Command::Logout { token } => CommandView::Logout { token: token@ },
            Command::Attack { token, from, to, send_per_tick } => CommandView::Attack {
                token: token@,
                from: from@,
                to: to@,
                rate: *send_per_tick,
            },
            Command::Build { token, node_id, building } => CommandView::Build {
                token: token@,
                node: node_id@,
                building: *building,
            },
            Command::Launch { token, missile_type, target } => CommandView::Launch {
                token: token@,
                missile: missile_type@,
                target: *target,
            },
            Command::SetRate { token, from, to, send_per_tick } => CommandView::SetRate {
                token: token@,
                from: from@,
                to: to@,
                rate: *send_per_tick,
            },
            Command::Disconnect { token, from, to } => CommandView::Disconnect {
                token: token@,
                from: from@,
                to: to@,
            },
            Command::ShowNeighbors { token, from, candidates } => CommandView::ShowNeighbors {
                token: token@,
                from: from@,
                candidates: texts(candidates@),
            },
            Command::Preview { token, from, to } => CommandView::Preview {
                token: token@,
                from: from@,
                to: to@,
            },
            Command::ShowBuildStatus => CommandView::ShowBuildStatus,
            Command::SendFile => CommandView::SendFile,
        }
    }
}

/// Why a request is not carried out.
#[derive(Clone, Copy, Debug, PartialEq, Eq, Structural)]
pub enum Rejection {
    Refused(Refusal),
    BuildingsDisabled,
}

impl Rejection {
    /// The status code of the answer.
    pub open spec fn code(self) -> u16 {
        match self {
            Rejection::Refused(_) => 400,
            Rejection::BuildingsDisabled => 403,
        }
    }

    /// The words of the answer.
    pub open spec fn words(self) -> Seq<char> {
        match self {
            Rejection::Refused(refusal) => refusal_text(refusal),
            Rejection::BuildingsDisabled => "building system disabled"@,
        }
    }

    pub fn status(&self) -> (r: u16)
        ensures
            r == self.code(),
    {
        match self {
            Rejection::Refused(_) => 400,
            Rejection::BuildingsDisabled => 403,
        }
    }

    pub fn message(&self) -> (r: String)
        ensures
            r@ == self.words(),
    {
        match self {
            Rejection::Refused(refusal) => refusal.message(),
            Rejection::BuildingsDisabled => "building system disabled".to_owned(),
        }
    }
}

/// A text, or nothing at all.
pub open spec fn or_empty(text: Option<Seq<char>>) -> Seq<char> {
    match text {
        Some(t) => t,
        None => Seq::empty(),
    }
}

/// How much goes through a connection, one where nothing is said.
pub open spec fn rate_of(fields: Seq<(Seq<char>, FieldView)>) -> i64 {
    match integer_field(fields, "sendPerTick"@) {
        Some(rate) => rate,
        None => 1,
    }
}

/// Why a request about two nodes lacks something, if so.
pub open spec fn lacks_nodes(
    fields: Seq<(Seq<char>, FieldView)>,
    second: bool,
) -> Option<Rejection> {
    if text_field(fields, "token"@) is None {
        Some(Rejection::Refused(Refusal::InvalidSession))
    } else if id_field(fields, "fromNodeId"@) is None {
        Some(Rejection::Refused(Refusal::InvalidNodes))
    } else if second && id_field(fields, "toNodeId"@) is None {
        Some(Rejection::Refused(Refusal::InvalidNodes))
    } else {
        None
    }
}

/// Why a request lacks something, if so.
pub open spec fn rejection_of(
    route: Route,
    query: Seq<(Seq<char>, Seq<char>)>,
    bearer: Option<Seq<char>>,
    fields: Seq<(Seq<char>, FieldView)>,
) -> Option<Rejection> {
    match route {
        Route::NodeTile => if bearer is None {
            Some(Rejection::Refused(Refusal::InvalidSession))
        } else if tile_number(query, "z"@) is None || tile_number(query, "x"@) is None
            || tile_number(query, "y"@) is None {
            Some(Rejection::Refused(Refusal::TileMissing))
        } else {
            None
        },
        Route::Logout => if bearer is None && text_field(fields, "token"@) is None {
            Some(Rejection::Refused(Refusal::InvalidSession))
        } else {
            None
        },
        Route::Build => if !BUILDINGS_ENABLED {
            Some(Rejection::BuildingsDisabled)
        } else if text_field(fields, "token"@) is None {
            Some(Rejection::Refused(Refusal::InvalidSession))
        } else if id_field(fields, "nodeId"@) is None {
            Some(Rejection::Refused(Refusal::InvalidNode))
        } else if asked_building(fields) is None {
            Some(Rejection::Refused(Refusal::UnknownBuilding))
        } else {
            None
        },
        Route::LaunchMissile => if !BUILDINGS_ENABLED {
            Some(Rejection::BuildingsDisabled)
        } else if text_field(fields, "token"@) is None {
            Some(Rejection::Refused(Refusal::InvalidSession))
        } else if degrees_field(fields, "targetLat"@) is None || degrees_field(
            fields,
            "targetLon"@,
        ) is None {
            Some(Rejection::Refused(Refusal::InvalidTarget))
        } else {
            None
        },
        Route::Attack | Route::ConnectionRate | Route::ConnectionRemove
        | Route::ConnectionPreview => lacks_nodes(fields, true),
        Route::ConnectableNodes => lacks_nodes(fields, false),
        _ => None,
    }
}

/// A number in the query.
pub open spec fn tile_number(query: Seq<(Seq<char>, Seq<char>)>, name: Seq<char>) -> Option<i64> {
    match query_value(query, name) {
        Some(text) => parsed_i64(text),
        None => None,
    }
}

/// The building that is asked for.
pub open spec fn asked_building(fields: Seq<(Seq<char>, FieldView)>) -> Option<BuildingType> {
    match text_field(fields, "building"@) {
        Some(name) => building_named(crate::text::lowered(name)),
        None => None,
    }
}

/// What a request asks for that lacks nothing.
pub open spec fn command_of(
    route: Route,
    query: Seq<(Seq<char>, Seq<char>)>,
    bearer: Option<Seq<char>>,
    fields: Seq<(Seq<char>, FieldView)>,
) -> CommandView {
    let token = or_empty(text_field(fields, "token"@));
    let from = or_empty(id_field(fields, "fromNodeId"@));
    let to = or_empty(id_field(fields, "toNodeId"@));
    match route {
        Route::Register => CommandView::Register {
            username: or_empty(text_field(fields, "username"@)),
            password: or_empty(text_field(fields, "password"@)),
            start: text_field(fields, "startNodeId"@),
        },
        Route::Login => CommandView::Login {
            username: or_empty(text_field(fields, "username"@)),
            password: or_empty(text_field(fields, "password"@)),
        },
        Route::GameState => CommandView::ShowGame {
            session: bearer,
            include_nodes: query_value(query, "view"@) != Some("summary"@),
        },
        Route::Leaderboard => CommandView::ShowLeaderboard { session: bearer },
        Route::NodeTile => CommandView::ShowTile {
            token: bearer->0,
            z: tile_number(query, "z"@)->0,
            x: tile_number(query, "x"@)->0,
            y: tile_number(query, "y"@)->0,
        },
        Route::Logout => CommandView::Logout {
            token: match bearer {
                Some(t) => t,
                None => token,
            },
        },
        Route::Attack => CommandView::Attack { token, from, to, rate: rate_of(fields) },
        Route::Build => CommandView::Build {
            token,
            node: or_empty(id_field(fields, "nodeId"@)),
            building: asked_building(fields)->0,
        },
        Route::LaunchMissile => CommandView::Launch {
            token,
            missile: match text_field(fields, "missileType"@) {
                Some(name) => name,
                None => "nuke"@,
            },
            target: Coord {
                lat: degrees_field(fields, "targetLat"@)->0,
                lon: degrees_field(fields, "targetLon"@)->0,
            },
        },
        Route::ConnectionRate => CommandView::SetRate { token, from, to, rate: rate_of(fields) },
        Route::ConnectionRemove => CommandView::Disconnect { token, from, to },
        Route::ConnectableNodes => CommandView::ShowNeighbors {
            token,
            from,
            candidates: ids_field(fields, "nodeIds"@),
        },
        Route::ConnectionPreview => CommandView::Preview { token, from, to },
        Route::BuildStatus => CommandView::ShowBuildStatus,
        Route::File => CommandView::SendFile,
    }
}

fn empty_if_none(text: Option<String>) -> (r: String)
    ensures
        r@ == or_empty(text_in(text)),
{
    match text {
        Some(t) => t,
        None => {
            let none = String::new();
            proof {
                assert(none@ =~= Seq::empty());
            }
            none
        },
    }
}

fn get_rate(fields: &Vec<(String, Field)>) -> (r: i64)
    ensures
        r == rate_of(field_views(fields@)),
{
    match get_integer(fields, "sendPerTick") {
        Some(rate) => rate,
        None => default_send_per_tick(),
    }
}

fn get_tile_number(query: &Vec<(String, String)>, name: &str) -> (r: Option<i64>)
    ensures
        r == tile_number(pair_views(query@), name@),
{
    match get_query(query, name) {
        Some(text) => parse_i64(text.as_str()),
        None => None,
    }
}

fn get_building(fields: &Vec<(String, Field)>) -> (r: Option<BuildingType>)
    ensures
        r == asked_building(field_views(fields@)),
{
    match get_text(fields, "building") {
        Some(name) => BuildingType::from_str(name.as_str()),
        None => None,
    }
}

/// The token and the two nodes of a request about them.
struct Ends {
    token: String,
    from: String,
    to: String,
}

fn get_ends(fields: &Vec<(String, Field)>, second: bool) -> (r: Result<Ends, Rejection>)
    ensures
        match lacks_nodes(field_views(fields@), second) {
            Some(rejection) => r == Err::<Ends, Rejection>(rejection),
            None => {
                &&& r is Ok
                &&& r->Ok_0.token@ == or_empty(text_field(field_views(fields@), "token"@))
                &&& r->Ok_0.from@ == or_empty(id_field(field_views(fields@), "fromNodeId"@))
                &&& r->Ok_0.to@ == or_empty(id_field(field_views(fields@), "toNodeId"@))
            },
        },
{
    let token = match get_text(fields, "token") {
        Some(token) => token,
        None => {
            return Err(Rejection::Refused(Refusal::InvalidSession));
        },
    };
    let from = match get_id(fields, "fromNodeId") {
        Some(id) => id,
        None => {
            return Err(Rejection::Refused(Refusal::InvalidNodes));
        },
    };
    let to = get_id(fields, "toNodeId");
    if second && to.is_none() {
        return Err(Rejection::Refused(Refusal::InvalidNodes));
    }
    Ok(Ends { token, from, to: empty_if_none(to) })
}

/// What becomes of a request whose fields are known.
pub open spec fn command_outcome(
    route: Route,
    query: Seq<(Seq<char>, Seq<char>)>,
    bearer: Option<Seq<char>>,
    fields: Seq<(Seq<char>, FieldView)>,
    r: Result<Command, Rejection>,
) -> bool {
    match rejection_of(route, query, bearer, fields) {
        Some(rejection) => r == Err::<Command, Rejection>(rejection),
        None => r is Ok && r->Ok_0@ == command_of(route, query, bearer, fields),
    }
}

/// What a request asks for, once its body was read.
pub fn make_command(
    route: Route,
    query: &Vec<(String, String)>,
    bearer: &Option<String>,
    fields: &Vec<(String, Field)>,
) -> (r: Result<Command, Rejection>)
    ensures
        command_outcome(route, pair_views(query@), text_in(*bearer), field_views(fields@), r),
{
    match route {
        Route::Register => Ok(
            Command::Register {
                username: empty_if_none(get_text(fields, "username")),
                password: empty_if_none(get_text(fields, "password")),
                start_node_id: get_text(fields, "startNodeId"),
            },
        ),
        Route::Login => Ok(
            Command::Login {
                username: empty_if_none(get_text(fields, "username")),
                password: empty_if_none(get_text(fields, "password")),
            },
        ),
        Route::GameState => {
            let summary: bool = match get_query(query, "view") {
                Some(view) => same_text(view.as_str(), "summary"),
                None => false,
            };
            Ok(Command::ShowGame { session: copy_text(bearer), include_nodes: !summary })
        },
        Route::Leaderboard => Ok(Command::ShowLeaderboard { session: copy_text(bearer) }),
        Route::NodeTile => {
            let token = match bearer {
                Some(token) => token.clone(),
                None => {
                    return Err(Rejection::Refused(Refusal::InvalidSession));
                },
            };
            match (
                get_tile_number(query, "z"),
                get_tile_number(query, "x"),
                get_tile_number(query, "y"),
            ) {
                (Some(z), Some(x), Some(y)) => Ok(Command::ShowTile { token, z, x, y }),
                _ => Err(Rejection::Refused(Refusal::TileMissing)),
            }
        },
        Route::Logout => {
            if let Some(token) = bearer {
                return Ok(Command::Logout { token: token.clone() });
            }
            match get_text(fields, "token") {
                Some(token) => Ok(Command::Logout { token }),
                None => Err(Rejection::Refused(Refusal::InvalidSession)),
            }
        },
        Route::Attack => match get_ends(fields, true) {
            Ok(ends) => Ok(
                Command::Attack {
                    token: ends.token,
                    from: ends.from,
                    to: ends.to,
                    send_per_tick: get_rate(fields),
                },
            ),
            Err(rejection) => Err(rejection),
        },
        Route::Build => make_build(fields),
        Route::LaunchMissile => make_launch(fields),
        Route::ConnectionRate => match get_ends(fields, true) {
            Ok(ends) => Ok(
                Command::SetRate {
                    token: ends.token,
                    from: ends.from,
                    to: ends.to,
                    send_per_tick: get_rate(fields),
                },
            ),
            Err(rejection) => Err(rejection),
        },
        Route::ConnectionRemove => match get_ends(fields, true) {
            Ok(ends) => Ok(
                Command::Disconnect { token: ends.token, from: ends.from, to: ends.to },
            ),
            Err(rejection) => Err(rejection),
        },
        Route::ConnectableNodes => match get_ends(fields, false) {
            Ok(ends) => Ok(
                Command::ShowNeighbors {
                    token: ends.token,
                    from: ends.from,
                    candidates: get_ids(fields, "nodeIds"),
                },
            ),
            Err(rejection) => Err(rejection),
        },
        Route::ConnectionPreview => match get_ends(fields, true) {
            Ok(ends) => Ok(Command::Preview { token: ends.token, from: ends.from, to: ends.to }),
            Err(rejection) => Err(rejection),
        },
        Route::BuildStatus => Ok(Command::ShowBuildStatus),
        Route::File => Ok(Command::SendFile),
    }
}

fn make_build(fields: &Vec<(String, Field)>) -> (r: Result<Command, Rejection>)
    ensures
        match rejection_of(Route::Build, Seq::empty(), None, field_views(fields@)) {
            Some(rejection) => r == Err::<Command, Rejection>(rejection),
            None => r is Ok && r->Ok_0@ == command_of(
                Route::Build,
                Seq::empty(),
                None,
                field_views(fields@),
            ),
        },
{
    if !BUILDINGS_ENABLED {
        return Err(Rejection::BuildingsDisabled);
    }
    let token = match get_text(fields, "token") {
        Some(token) => token,
        None => {
            return Err(Rejection::Refused(Refusal::InvalidSession));
        },
    };
    let node_id = match get_id(fields, "nodeId") {
        Some(id) => id,
        None => {
            return Err(Rejection::Refused(Refusal::InvalidNode));
        },
    };
    match get_building(fields) {
        Some(building) => Ok(Command::Build { token, node_id, building }),
        None => Err(Rejection::Refused(Refusal::UnknownBuilding)),
    }
}

fn make_launch(fields: &Vec<(String, Field)>) -> (r: Result<Command, Rejection>)
    ensures
        match rejection_of(Route::LaunchMissile, Seq::empty(), None, field_views(fields@)) {
            Some(rejection) => r == Err::<Command, Rejection>(rejection),
            None => r is Ok && r->Ok_0@ == command_of(
                Route::LaunchMissile,
                Seq::empty(),
                None,
                field_views(fields@),
            ),
        },
{
    if !BUILDINGS_ENABLED {
        return Err(Rejection::BuildingsDisabled);
    }
    let token = match get_text(fields, "token") {
        Some(token) => token,
        None => {
            return Err(Rejection::Refused(Refusal::InvalidSession));
        },
    };
    let missile_type = match get_text(fields, "missileType") {
        Some(name) => name,
        None => "nuke".to_owned(),
    };
    match (get_degrees(fields, "targetLat"), get_degrees(fields, "targetLon")) {
        (Some(lat), Some(lon)) => Ok(
            Command::Launch { token, missile_type, target: Coord { lat, lon } },
        ),
        _ => Err(Rejection::Refused(Refusal::InvalidTarget)),
    }
}

/// The fields that a request is judged by. Where a body is wanted it has to be sound,
/// but for logging out.
pub open spec fn fields_for(route: Route, bearer: bool, bytes: Seq<u8>) -> Result<
    Seq<(Seq<char>, FieldView)>,
    Refusal,
> {
    if !body_wanted(route, bearer) {
        Ok(Seq::empty())
    } else {
        match body_fields(bytes) {
            Ok(fields) => Ok(fields),
            Err(refusal) => if route == Route::Logout {
                Ok(Seq::empty())
            } else {
                Err(refusal)
            },
        }
    }
}

/// What a request asks for, from its body as it came.
pub fn read_command(
    route: Route,
    query: &Vec<(String, String)>,
    bearer: &Option<String>,
    bytes: &Vec<u8>,
) -> (r: Result<Command, Rejection>)
    ensures
        match fields_for(route, bearer is Some, bytes@) {
            Err(refusal) => r == Err::<Command, Rejection>(Rejection::Refused(refusal)),
            Ok(fields) => command_outcome(route, pair_views(query@), text_in(*bearer), fields, r),
        },
{
    let none: Vec<(String, Field)> = Vec::new();
    proof {
        assert(field_views(none@) =~= Seq::empty());
    }
    if !wants_body(route, bearer.is_some()) {
        return make_command(route, query, bearer, &none);
    }
    match parse_body_json(bytes) {
        Ok(fields) => make_command(route, query, bearer, &fields),
        Err(refusal) => match route {
            Route::Logout => make_command(route, query, bearer, &none),
            _ => Err(Rejection::Refused(refusal)),
        },
    }
}

/// While buildings are disabled no request puts one up or fires a missile, whatever it
/// brings.
pub proof fn law_buildings_stay_disabled(
    route: Route,
    query: Seq<(Seq<char>, Seq<char>)>,
    bearer: Option<Seq<char>>,
    fields: Seq<(Seq<char>, FieldView)>,
)
    requires
        !BUILDINGS_ENABLED,
        route == Route::Build || route == Route::LaunchMissile,
    ensures
        rejection_of(route, query, bearer, fields) == Some(Rejection::BuildingsDisabled),
        !body_wanted(route, bearer is Some),
{
}

/// The file that a path stands for, if there is one.
pub open spec fn file_of(path: Seq<char>) -> Option<Seq<char>> {
    if path == "/"@ || path == "/openfreemap_viewer.html"@ {
        Some("openfreemap_viewer.html"@)
    } else if path == "/sw.js"@ {
        Some("sw.js"@)
    } else if path == "/vendor/maplibre-gl.js"@ {
        Some("vendor/maplibre-gl.js"@)
    } else if path == "/vendor/maplibre-gl.css"@ {
        Some("vendor/maplibre-gl.css"@)
    } else {
        None
    }
}

/// The file that a path stands for.
pub fn static_file(path: &str) -> (r: Option<&'static str>)
    ensures
        match r {
            Some(file) => file_of(path@) == Some(file@),
            None => file_of(path@) is None,
        },
{
    if same_text(path, "/") || same_text(path, "/openfreemap_viewer.html") {
        Some("openfreemap_viewer.html")
    } else if same_text(path, "/sw.js") {
        Some("sw.js")
    } else if same_text(path, "/vendor/maplibre-gl.js") {
        Some("vendor/maplibre-gl.js")
    } else if same_text(path, "/vendor/maplibre-gl.css") {
        Some("vendor/maplibre-gl.css")
    } else {
        None
    }
}

/// How long a file may be kept: not at all where it tells of progress.
pub open spec fn keeping_of(path: Seq<char>) -> Seq<char> {
    if has_part(path, "build_status"@) || has_part(path, "preview_intersections"@) || has_part(
        path,
        "query_tiles_status"@,
    ) {
        "no-store"@
    } else {
        "public, max-age=60"@
    }
}

pub fn cache_control(path: &str) -> (r: &'static str)
    ensures
        r@ == keeping_of(path@),
{
    if contains_text(path, "build_status") || contains_text(path, "preview_intersections")
        || contains_text(path, "query_tiles_status") {
        "no-store"
    } else {
        "public, max-age=60"
    }
}

/// A part of a path that names something.
pub open spec fn names_something(part: Seq<char>) -> bool {
    part.len() > 0 && part != "."@
}

/// The last part of a path that names something.
pub open spec fn file_name(parts: Seq<Seq<char>>) -> Seq<char>
    decreases parts.len(),
{
    if parts.len() == 0 {
        Seq::empty()
    } else if names_something(parts.last()) {
        parts.last()
    } else {
        file_name(parts.drop_last())
    }
}

/// The last place of a character, or -1.
pub open spec fn last_place(s: Seq<char>, c: char) -> int
    decreases s.len(),
{
    if s.len() == 0 {
        -1
    } else if s.last() == c {
        s.len() - 1
    } else {
        last_place(s.drop_last(), c)
    }
}

/// What follows the last dot of a file name that does not begin with that dot.
pub open spec fn extension_of(path: Seq<char>) -> Seq<char> {
    let name = file_name(pieces(path, '/'));
    let dot = last_place(name, '.');
    if dot > 0 {
        name.skip(dot + 1)
    } else {
        Seq::empty()
    }
}

fn find_file_name(parts: &Vec<String>) -> (r: String)
    ensures
        r@ == file_name(texts(parts@)),
{
    let ghost all = texts(parts@);
    let mut i: usize = parts.len();
    proof {
        assert(all.take(i as int) =~= all);
    }
    while i > 0
        invariant
            all == texts(parts@),
            i <= parts.len(),
            file_name(all) == file_name(all.take(i as int)),
        decreases i,
    {
        proof {
            assert(all.take(i as int).drop_last() =~= all.take(i - 1));
            assert(all.take(i as int).last() == all[i - 1]);
            reveal_strlit("");
        }
        let part = parts[i - 1].as_str();
        let empty: bool = same_text(part, "");
        proof {
            assert(empty == (part@.len() == 0)) by {
                if part@.len() == 0 {
                    assert(part@ =~= ""@);
                }
            }
        }
        if !empty && !same_text(part, ".") {
            return part.to_owned();
        }
        i -= 1;
    }
    let none = String::new();
    proof {
        assert(none@ =~= Seq::empty());
    }
    none
}

pub fn find_extension(path: &str) -> (r: String)
    ensures
        r@ == extension_of(path@),
{
    let parts = split(path, '/');
    let name = find_file_name(&parts);
    let chars = chars_of(name.as_str());
    let mut i: usize = chars.len();
    proof {
        assert(chars@.take(i as int) =~= chars@);
    }
    while i > 0
        invariant
            chars@ == name@,
            name@ == file_name(pieces(path@, '/')),
            i <= chars.len(),
            last_place(chars@, '.') == last_place(chars@.take(i as int), '.'),
        decreases i,
    {
        proof {
            assert(chars@.take(i as int).drop_last() =~= chars@.take(i - 1));
            assert(chars@.take(i as int).last() == chars@[i - 1]);
        }
        if chars[i - 1] == '.' {
            if i > 1 {
                let tail = slice_text(&chars, i, chars.len());
                proof {
                    assert(tail@ =~= name@.skip(i as int));
                }
                return tail;
            }
            let none = String::new();
            proof {
                assert(none@ =~= Seq::empty());
            }
            return none;
        }
        i -= 1;
    }
    let none = String::new();
    proof {
        assert(none@ =~= Seq::empty());
    }
    none
}

/// The media type of a file with an extension.
pub open spec fn type_of(extension: Seq<char>) -> Seq<char> {
    if extension == "html"@ {
        "text/html; charset=utf-8"@
    } else if extension == "js"@ {
        "application/javascript; charset=utf-8"@
    } else if extension == "json"@ {
        "application/json; charset=utf-8"@
    } else if extension == "css"@ {
        "text/css; charset=utf-8"@
    } else if extension == "geojson"@ {
        "application/geo+json; charset=utf-8"@
    } else if extension == "svg"@ {
        "image/svg+xml"@
    } else if extension == "png"@ {
        "image/png"@
    } else if extension == "jpg"@ || extension == "jpeg"@ {
        "image/jpeg"@
    } else {
        "application/octet-stream"@
    }
}

/// The media type of a file.
pub fn content_type(file_path: &str) -> (r: &'static str)
    ensures
        r@ == type_of(extension_of(file_path@)),
{
    let extension = find_extension(file_path);
    let ext = extension.as_str();
    if same_text(ext, "html") {
        "text/html; charset=utf-8"
    } else if same_text(ext, "js") {
        "application/javascript; charset=utf-8"
    } else if same_text(ext, "json") {
        "application/json; charset=utf-8"
    } else if same_text(ext, "css") {
        "text/css; charset=utf-8"
    } else if same_text(ext, "geojson") {
        "application/geo+json; charset=utf-8"
    } else if same_text(ext, "svg") {
        "image/svg+xml"
    } else if same_text(ext, "png") {
        "image/png"
    } else if same_text(ext, "jpg") || same_text(ext, "jpeg") {
        "image/jpeg"
    } else {
        "application/octet-stream"
    }
}

/// Whether what was read from a file earlier is still what it holds.
pub fn is_current(kept_mtime: Option<i64>, mtime: i64) -> (r: bool)
    ensures
        r == (kept_mtime == Some(mtime)),
{
    match kept_mtime {
        Some(kept) => kept == mtime,
        None => false,
    }
}

} // verus!
