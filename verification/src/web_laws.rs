//! What holds of requests over HTTP.
use vstd::prelude::*;

use crate::body::{
    body_fields, field_of, ids_field, integer_field, present, text_field, id_field, degrees_field,
    json_fields, FieldView,
};
use crate::errors::Refusal;
use crate::text::{ascii_lowered, first_place, has_part, parsed_i64, pieces, trimmed};
use crate::text_laws::lemma_first_place_found;
use crate::web::{
    authorization, bearer_of, body_wanted, command_outcome, extension_of, fields_for, file_of,
    keeping_of, last_place, path_of, query_of, query_value, route_of, type_of, Command, CommandView,
    Rejection, Route, Verb,
};

verus! {

/// Which requests are known: each by its verb and its path. All others are for files.
pub proof fn law_known_requests(verb: Verb, path: Seq<char>)
    ensures
        route_of(verb, path) == Route::Register <==> verb == Verb::Post && path == "/api/register"@,
        route_of(verb, path) == Route::Login <==> verb == Verb::Post && path == "/api/login"@,
        route_of(verb, path) == Route::Logout <==> verb == Verb::Post && path == "/api/logout"@,
        route_of(verb, path) == Route::Attack <==> verb == Verb::Post && path == "/api/attack"@,
        route_of(verb, path) == Route::Build <==> verb == Verb::Post && path == "/api/build"@,
        route_of(verb, path) == Route::LaunchMissile <==> verb == Verb::Post && path == "/api/launch-missile"@,
        route_of(verb, path) == Route::ConnectionRate <==> verb == Verb::Post && path == "/api/connection-rate"@,
        route_of(verb, path) == Route::ConnectionRemove <==> verb == Verb::Post && path == "/api/connection-remove"@,
        route_of(verb, path) == Route::ConnectableNodes <==> verb == Verb::Post && path == "/api/connectable-nodes"@,
        route_of(verb, path) == Route::ConnectionPreview <==> verb == Verb::Post && path == "/api/connection-preview"@,
        route_of(verb, path) == Route::GameState <==> verb == Verb::Get && path == "/api/game-state"@,
        route_of(verb, path) == Route::Leaderboard <==> verb == Verb::Get && path == "/api/leaderboard"@,
        route_of(verb, path) == Route::NodeTile <==> verb == Verb::Get && path == "/api/node-tile"@,
        route_of(verb, path) == Route::BuildStatus <==> verb == Verb::Get && path == "/api/build-status"@,
{
    reveal_strlit("/api/register");
    reveal_strlit("/api/login");
    reveal_strlit("/api/logout");
    reveal_strlit("/api/attack");
    reveal_strlit("/api/build");
    reveal_strlit("/api/launch-missile");
    reveal_strlit("/api/connection-rate");
    reveal_strlit("/api/connection-remove");
    reveal_strlit("/api/connectable-nodes");
    reveal_strlit("/api/connection-preview");
    reveal_strlit("/api/game-state");
    reveal_strlit("/api/leaderboard");
    reveal_strlit("/api/node-tile");
    reveal_strlit("/api/build-status");
    assert("/api/register"@.len() == 13);
    assert("/api/login"@.len() == 10);
    assert("/api/logout"@.len() == 11);
    assert("/api/attack"@.len() == 11);
    assert("/api/build"@.len() == 10);
    assert("/api/launch-missile"@.len() == 19);
    assert("/api/connection-rate"@.len() == 20);
    assert("/api/connection-remove"@.len() == 22);
    assert("/api/connectable-nodes"@.len() == 22);
    assert("/api/connection-preview"@.len() == 23);
    assert("/api/game-state"@.len() == 15);
    assert("/api/leaderboard"@.len() == 16);
    assert("/api/node-tile"@.len() == 14);
    assert("/api/build-status"@.len() == 17);
    assert("/api/logout"@[5] != "/api/attack"@[5]);
    assert("/api/login"@[5] != "/api/build"@[5]);
    assert("/api/connection-remove"@[12] != "/api/connectable-nodes"@[12]);

}

/// Which requests bring a body: those that name a player, a node or a connection. Logging out
/// brings one only where the token is not in the headers.
pub proof fn law_requests_with_a_body(route: Route, bearer: bool)
    ensures
        body_wanted(route, bearer) <==> {
            ||| route == Route::Register || route == Route::Login
            ||| route == Route::Attack || route == Route::ConnectionRate
            ||| route == Route::ConnectionRemove || route == Route::ConnectableNodes
            ||| route == Route::ConnectionPreview
            ||| route == Route::Logout && !bearer
        },
{
}

/// A body of more than two million bytes is too large, an empty one has no fields, and any
/// other has to be JSON.
pub proof fn law_what_a_body_holds(bytes: Seq<u8>)
    ensures
        bytes.len() > 2_000_000 ==> body_fields(bytes) == Err::<
            Seq<(Seq<char>, FieldView)>,
            Refusal,
        >(Refusal::BodyTooLarge),
        bytes.len() == 0 ==> body_fields(bytes) == Ok::<Seq<(Seq<char>, FieldView)>, Refusal>(
            Seq::empty(),
        ),
        0 < bytes.len() <= 2_000_000 && json_fields(bytes) is Some ==> body_fields(bytes) == Ok::<
            Seq<(Seq<char>, FieldView)>,
            Refusal,
        >(json_fields(bytes)->0),
        0 < bytes.len() <= 2_000_000 && json_fields(bytes) is None ==> body_fields(bytes) == Err::<
            Seq<(Seq<char>, FieldView)>,
            Refusal,
        >(Refusal::InvalidJson),
{
}

/// A request without a body is judged by no fields. One with a body that is not sound is
/// refused, but for logging out.
pub proof fn law_which_fields_count(route: Route, bearer: bool, bytes: Seq<u8>)
    ensures
        !body_wanted(route, bearer) ==> fields_for(route, bearer, bytes) == Ok::<
            Seq<(Seq<char>, FieldView)>,
            Refusal,
        >(Seq::empty()),
        body_wanted(route, bearer) && body_fields(bytes) is Ok ==> fields_for(route, bearer, bytes)
            == body_fields(bytes),
        body_wanted(route, bearer) && body_fields(bytes) is Err && route != Route::Logout
            ==> fields_for(route, bearer, bytes) == body_fields(bytes),
        route == Route::Logout ==> fields_for(route, bearer, bytes) is Ok,
{
}

/// Of fields of one name the first counts.
pub proof fn law_the_first_field_counts(
    fields: Seq<(Seq<char>, FieldView)>,
    name: Seq<char>,
    i: int,
)
    requires
        0 <= i <= fields.len(),
        forall|j: int| 0 <= j < i ==> (#[trigger] fields[j]).0 != name,
    ensures
        i < fields.len() && fields[i].0 == name ==> field_of(fields, name) == Some(fields[i].1),
        i == fields.len() ==> field_of(fields, name) is None,
    decreases i,
{
    if i > 0 {
        let rest = fields.skip(1);
        assert forall|j: int| 0 <= j < i - 1 implies (#[trigger] rest[j]).0 != name by {
            assert(rest[j] == fields[j + 1]);
        }
        assert(fields[0].0 != name);
        law_the_first_field_counts(rest, name, i - 1);
        if i < fields.len() {
            assert(rest[i - 1] == fields[i]);
        }
    }
}

/// A field that is there gives what it holds; one that is not gives nothing.
pub proof fn law_what_a_field_gives(fields: Seq<(Seq<char>, FieldView)>, name: Seq<char>)
    ensures
        match field_of(fields, name) {
            Some(field) => {
                &&& text_field(fields, name) == field.text
                &&& id_field(fields, name) == field.id
                &&& integer_field(fields, name) == field.integer
                &&& degrees_field(fields, name) is Some <==> field.bits is Some
                &&& field.bits is Some && field.bits->0 < 0x8000_0000_0000_0000 ==> degrees_field(
                    fields,
                    name,
                ) == Some(field.bits->0 as i64)
            },
            None => {
                &&& text_field(fields, name) is None && id_field(fields, name) is None
                &&& integer_field(fields, name) is None && degrees_field(fields, name) is None
                &&& ids_field(fields, name).len() == 0
            },
        },
{
}

/// Of a list the items count that are there, in order.
pub proof fn law_items_that_count(items: Seq<Option<Seq<char>>>, next: Option<Seq<char>>)
    ensures
        present(Seq::empty()).len() == 0,
        next is Some ==> present(items.push(next)) == present(items).push(next->0),
        next is None ==> present(items.push(next)) == present(items),
{
    assert(items.push(next).drop_last() =~= items);
}

/// A URL is its path and, behind the first question mark, its query.
pub proof fn law_parts_of_a_url(url: Seq<char>)
    ensures
        !path_of(url).contains('?'),
        url.contains('?') ==> url == path_of(url) + seq!['?'] + query_of(url),
        !url.contains('?') ==> path_of(url) == url && query_of(url).len() == 0,
{
    let i = first_place(url, '?');
    lemma_first_place_found(url, '?');
    if path_of(url).contains('?') {
        let j = path_of(url).index_of('?');
        assert(url[j] == '?');
    }
    if i < url.len() {
        assert(url[i] == '?');
        assert(url.contains('?'));
        assert(url =~= url.take(i) + seq!['?'] + url.skip(i + 1));
    } else {
        if url.contains('?') {
            let j = url.index_of('?');
            assert(url[j] != '?');
        }
        assert(url.take(i) =~= url);
    }
}

/// Of values of one name in a query the last counts.
pub proof fn law_the_last_value_counts(
    pairs: Seq<(Seq<char>, Seq<char>)>,
    next: (Seq<char>, Seq<char>),
    name: Seq<char>,
)
    ensures
        query_value(Seq::empty(), name) is None,
        next.0 == name ==> query_value(pairs.push(next), name) == Some(next.1),
        next.0 != name ==> query_value(pairs.push(next), name) == query_value(pairs, name),
{
    assert(pairs.push(next).drop_last() =~= pairs);
}

/// The token is what follows the word `Bearer` and a blank in the first `Authorization` header,
/// however that is spelled, without white space around it. Without that word there is
/// none.
pub proof fn law_where_the_token_is(
    headers: Seq<(Seq<char>, Seq<char>)>,
    i: int,
    token: Seq<char>,
)
    requires
        0 <= i <= headers.len(),
        forall|j: int|
            0 <= j < i ==> ascii_lowered((#[trigger] headers[j]).0) != "authorization"@,
    ensures
        i == headers.len() ==> bearer_of(headers) is None,
        i < headers.len() && ascii_lowered(headers[i].0) == "authorization"@ && headers[i].1
            == "Bearer "@ + token ==> bearer_of(headers) == Some(trimmed(token)),
        i < headers.len() && ascii_lowered(headers[i].0) == "authorization"@ && !(exists|t: Seq<char>|
            headers[i].1 == #[trigger] ("Bearer "@ + t)) ==> bearer_of(headers) is None,
{
    lemma_first_authorization(headers, i);
    if i < headers.len() && ascii_lowered(headers[i].0) == "authorization"@ {
        let value = headers[i].1;
        let n = "Bearer "@.len() as int;
        if value == "Bearer "@ + token {
            assert(value.take(n) =~= "Bearer "@);
            assert(value.skip(n) =~= token);
        }
        if n <= value.len() && value.take(n) == "Bearer "@ {
            assert(value =~= "Bearer "@ + value.skip(n));
        }
    }
}

proof fn lemma_first_authorization(headers: Seq<(Seq<char>, Seq<char>)>, i: int)
    requires
        0 <= i <= headers.len(),
        forall|j: int|
            0 <= j < i ==> ascii_lowered((#[trigger] headers[j]).0) != "authorization"@,
    ensures
        i == headers.len() ==> authorization(headers) is None,
        i < headers.len() && ascii_lowered(headers[i].0) == "authorization"@ ==> authorization(
            headers,
        ) == Some(headers[i].1),
    decreases i,
{
    if i > 0 {
        let rest = headers.skip(1);
        assert forall|j: int| 0 <= j < i - 1 implies ascii_lowered((#[trigger] rest[j]).0)
            != "authorization"@ by {
            assert(rest[j] == headers[j + 1]);
        }
        assert(ascii_lowered(headers[0].0) != "authorization"@);
        lemma_first_authorization(rest, i - 1);
        if i < headers.len() {
            assert(rest[i - 1] == headers[i]);
        }
    }
}

/// What is asked for about a connection: with the token, from one node and to another, each
/// from the field of its name, and at the rate that is named, or one. Without any of
/// these three there is nothing to do.
pub proof fn law_what_is_asked_of_connections(
    route: Route,
    query: Seq<(Seq<char>, Seq<char>)>,
    bearer: Option<Seq<char>>,
    fields: Seq<(Seq<char>, FieldView)>,
    r: Result<Command, Rejection>,
)
    requires
        command_outcome(route, query, bearer, fields, r),
        route == Route::Attack || route == Route::ConnectionRate || route
            == Route::ConnectionRemove || route == Route::ConnectionPreview,
    ensures
        ({
            let token = text_field(fields, "token"@);
            let from = id_field(fields, "fromNodeId"@);
            let to = id_field(fields, "toNodeId"@);
            let rate = match integer_field(fields, "sendPerTick"@) {
                Some(rate) => rate,
                None => 1,
            };
            &&& token is None ==> r == Err::<Command, Rejection>(
                Rejection::Refused(Refusal::InvalidSession),
            )
            &&& token is Some && (from is None || to is None) ==> r == Err::<Command, Rejection>(
                Rejection::Refused(Refusal::InvalidNodes),
            )
            &&& token is Some && from is Some && to is Some ==> r is Ok
            &&& r is Ok && route == Route::Attack ==> r->Ok_0@ == (CommandView::Attack {
                token: token->0,
                from: from->0,
                to: to->0,
                rate,
            })
            &&& r is Ok && route == Route::ConnectionRate ==> r->Ok_0@ == (CommandView::SetRate {
                token: token->0,
                from: from->0,
                to: to->0,
                rate,
            })
            &&& r is Ok && route == Route::ConnectionRemove ==> r->Ok_0@ == (
            CommandView::Disconnect { token: token->0, from: from->0, to: to->0 })
            &&& r is Ok && route == Route::ConnectionPreview ==> r->Ok_0@ == (
            CommandView::Preview { token: token->0, from: from->0, to: to->0 })
        }),
{
}

/// What is asked for about players: who registers, logs in and logs out. The token that logs
/// out is that of the headers, or else that of the body.
pub proof fn law_what_is_asked_of_players(
    route: Route,
    query: Seq<(Seq<char>, Seq<char>)>,
    bearer: Option<Seq<char>>,
    fields: Seq<(Seq<char>, FieldView)>,
    r: Result<Command, Rejection>,
)
    requires
        command_outcome(route, query, bearer, fields, r),
    ensures
        ({
            let name = text_field(fields, "username"@);
            let password = text_field(fields, "password"@);
            let token = text_field(fields, "token"@);
            &&& route == Route::Register ==> (r matches Ok(command) && (
            command@ matches CommandView::Register { username: n, password: p, start } && {
                &&& name is Some ==> n == name->0
                &&& name is None ==> n.len() == 0
                &&& password is Some ==> p == password->0
                &&& password is None ==> p.len() == 0
                &&& start == text_field(fields, "startNodeId"@)
            }))
            &&& route == Route::Login ==> (r matches Ok(command) && (
            command@ matches CommandView::Login { username: n, password: p } && {
                &&& name is Some ==> n == name->0
                &&& name is None ==> n.len() == 0
                &&& password is Some ==> p == password->0
                &&& password is None ==> p.len() == 0
            }))
            &&& route == Route::Logout && bearer is Some ==> r is Ok && r->Ok_0@ == (
            CommandView::Logout { token: bearer->0 })
            &&& route == Route::Logout && bearer is None && token is Some ==> r is Ok && r->Ok_0@
                == (CommandView::Logout { token: token->0 })
            &&& route == Route::Logout && bearer is None && token is None ==> r == Err::<
                Command,
                Rejection,
            >(Rejection::Refused(Refusal::InvalidSession))
        }),
{
}

/// What is asked for that is only shown: the game, with all nodes unless a summary is asked
/// for, the leaderboard, a tile by its three numbers, and the neighbours of a node.
pub proof fn law_what_is_asked_to_be_shown(
    route: Route,
    query: Seq<(Seq<char>, Seq<char>)>,
    bearer: Option<Seq<char>>,
    fields: Seq<(Seq<char>, FieldView)>,
    r: Result<Command, Rejection>,
)
    requires
        command_outcome(route, query, bearer, fields, r),
    ensures
        ({
            let number = |name: Seq<char>|
                match query_value(query, name) {
                    Some(text) => parsed_i64(text),
                    None => None,
                };
            let whole = number("z"@) is Some && number("x"@) is Some && number("y"@) is Some;
            let token = text_field(fields, "token"@);
            let from = id_field(fields, "fromNodeId"@);
            &&& route == Route::GameState ==> r is Ok && r->Ok_0@ == (CommandView::ShowGame {
                session: bearer,
                include_nodes: query_value(query, "view"@) != Some("summary"@),
            })
            &&& route == Route::Leaderboard ==> r is Ok && r->Ok_0@ == (
            CommandView::ShowLeaderboard { session: bearer })
            &&& route == Route::NodeTile && bearer is None ==> r == Err::<Command, Rejection>(
                Rejection::Refused(Refusal::InvalidSession),
            )
            &&& route == Route::NodeTile && bearer is Some && !whole ==> r == Err::<
                Command,
                Rejection,
            >(Rejection::Refused(Refusal::TileMissing))
            &&& route == Route::NodeTile && bearer is Some && whole ==> r is Ok && r->Ok_0@ == (
            CommandView::ShowTile {
                token: bearer->0,
                z: number("z"@)->0,
                x: number("x"@)->0,
                y: number("y"@)->0,
            })
            &&& route == Route::ConnectableNodes && token is Some && from is Some ==> r is Ok
                && r->Ok_0@ == (CommandView::ShowNeighbors {
                token: token->0,
                from: from->0,
                candidates: ids_field(fields, "nodeIds"@),
            })
            &&& route == Route::ConnectableNodes && token is None ==> r == Err::<
                Command,
                Rejection,
            >(Rejection::Refused(Refusal::InvalidSession))
            &&& route == Route::ConnectableNodes && token is Some && from is None ==> r == Err::<
                Command,
                Rejection,
            >(Rejection::Refused(Refusal::InvalidNodes))
            &&& route == Route::BuildStatus ==> r is Ok && r->Ok_0@ == CommandView::ShowBuildStatus
            &&& route == Route::File ==> r is Ok && r->Ok_0@ == CommandView::SendFile
            &&& route == Route::Build || route == Route::LaunchMissile ==> r == Err::<
                Command,
                Rejection,
            >(Rejection::BuildingsDisabled)
        }),
{
}

/// What a refused request is answered: 400, and 403 while buildings are disabled.
pub proof fn law_codes_of_rejections(rejection: Rejection)
    ensures
        rejection is Refused ==> rejection.code() == 400,
        rejection is BuildingsDisabled ==> rejection.code() == 403 && rejection.words()
            == "building system disabled"@,
{
}

/// Which files are handed out: the page, its worker and what it is drawn with.
pub proof fn law_files_that_are_handed_out(path: Seq<char>)
    ensures
        path == "/"@ ==> file_of(path) == Some("openfreemap_viewer.html"@),
        path == "/openfreemap_viewer.html"@ ==> file_of(path) == Some("openfreemap_viewer.html"@),
        path == "/sw.js"@ ==> file_of(path) == Some("sw.js"@),
        path == "/vendor/maplibre-gl.js"@ ==> file_of(path) == Some("vendor/maplibre-gl.js"@),
        path == "/vendor/maplibre-gl.css"@ ==> file_of(path) == Some("vendor/maplibre-gl.css"@),
        file_of(path) is Some ==> path == "/"@ || path == "/openfreemap_viewer.html"@ || path
            == "/sw.js"@ || path == "/vendor/maplibre-gl.js"@ || path == "/vendor/maplibre-gl.css"@,
{
    reveal_strlit("/");
    reveal_strlit("/openfreemap_viewer.html");
    reveal_strlit("/sw.js");
    reveal_strlit("/vendor/maplibre-gl.js");
    reveal_strlit("/vendor/maplibre-gl.css");
    assert("/"@.len() == 1 && "/openfreemap_viewer.html"@.len() == 24 && "/sw.js"@.len() == 6);
    assert("/vendor/maplibre-gl.js"@.len() == 22 && "/vendor/maplibre-gl.css"@.len() == 23);
}

/// Files that tell of progress are not kept; others for a minute.
pub proof fn law_how_long_files_are_kept(path: Seq<char>)
    ensures
        has_part(path, "build_status"@) || has_part(path, "preview_intersections"@) || has_part(
            path,
            "query_tiles_status"@,
        ) <==> keeping_of(path) == "no-store"@,
        keeping_of(path) == "no-store"@ || keeping_of(path) == "public, max-age=60"@,
{
    reveal_strlit("no-store");
    reveal_strlit("public, max-age=60");
    assert("no-store"@.len() == 8 && "public, max-age=60"@.len() == 18);
}

/// What files are, by their extension.
pub proof fn law_types_of_files(extension: Seq<char>)
    ensures
        extension == "html"@ ==> type_of(extension) == "text/html; charset=utf-8"@,
        extension == "js"@ ==> type_of(extension) == "application/javascript; charset=utf-8"@,
        extension == "json"@ ==> type_of(extension) == "application/json; charset=utf-8"@,
        extension == "css"@ ==> type_of(extension) == "text/css; charset=utf-8"@,
        extension == "geojson"@ ==> type_of(extension) == "application/geo+json; charset=utf-8"@,
        extension == "svg"@ ==> type_of(extension) == "image/svg+xml"@,
        extension == "png"@ ==> type_of(extension) == "image/png"@,
        extension == "jpg"@ ==> type_of(extension) == "image/jpeg"@,
        extension == "jpeg"@ ==> type_of(extension) == "image/jpeg"@,
        extension != "html"@ && extension != "js"@ && extension != "json"@ && extension != "css"@ && extension != "geojson"@ && extension != "svg"@ && extension != "png"@ && extension != "jpg"@ && extension != "jpeg"@
            ==> type_of(extension) == "application/octet-stream"@,
{
    reveal_strlit("html");
    reveal_strlit("js");
    reveal_strlit("json");
    reveal_strlit("css");
    reveal_strlit("geojson");
    reveal_strlit("svg");
    reveal_strlit("png");
    reveal_strlit("jpg");
    reveal_strlit("jpeg");
    assert("html"@.len() == 4);
    assert("js"@.len() == 2);
    assert("json"@.len() == 4);
    assert("css"@.len() == 3);
    assert("geojson"@.len() == 7);
    assert("svg"@.len() == 3);
    assert("png"@.len() == 3);
    assert("jpg"@.len() == 3);
    assert("jpeg"@.len() == 4);
    assert("html"@[0] != "json"@[0]);
    assert("css"@[0] != "svg"@[0]);
    assert("css"@[0] != "png"@[0]);
    assert("svg"@[0] != "png"@[0]);
    assert("css"@[0] != "jpg"@[0]);
    assert("svg"@[0] != "jpg"@[0]);
    assert("png"@[0] != "jpg"@[0]);
    assert("html"@[0] != "jpeg"@[0]);
    assert("json"@[1] != "jpeg"@[1]);
}

/// Where the last of a character stands.
proof fn lemma_last_place(front: Seq<char>, c: char, tail: Seq<char>)
    requires
        !tail.contains(c),
    ensures
        last_place(front + seq![c] + tail, c) == front.len(),
    decreases tail.len(),
{
    let s = front + seq![c] + tail;
    if tail.len() == 0 {
        assert(s.last() == c);
    } else {
        assert(s.last() == tail.last());
        assert(tail.contains(tail.last()));
        assert(s.drop_last() =~= front + seq![c] + tail.drop_last());
        if tail.drop_last().contains(c) {
            let i = tail.drop_last().index_of(c);
            assert(tail[i] == c);
        }
        lemma_last_place(front, c, tail.drop_last());
    }
}

/// The last piece of a text is what follows the last separator.
proof fn lemma_last_piece(front: Seq<char>, c: char, tail: Seq<char>)
    requires
        !tail.contains(c),
    ensures
        pieces(front + seq![c] + tail, c).len() > 0,
        pieces(front + seq![c] + tail, c).last() == tail,
    decreases front.len(),
{
    let s = front + seq![c] + tail;
    let i = first_place(s, c);
    lemma_first_place_found(s, c);
    assert(s[front.len() as int] == c);
    assert(i <= front.len());
    let rest = s.skip(i + 1);
    if i == front.len() {
        assert(rest =~= tail);
        lemma_first_place_found(tail, c);
        if first_place(tail, c) < tail.len() {
            assert(tail.contains(tail[first_place(tail, c)]));
        }
        assert(pieces(tail, c) =~= seq![tail]);
        assert(pieces(s, c).last() == tail);
    } else {
        assert(rest =~= front.skip(i + 1) + seq![c] + tail);
        lemma_last_piece(front.skip(i + 1), c, tail);
        assert(pieces(s, c).last() == pieces(rest, c).last());
    }
}

/// The extension of a file is what follows the last dot of its name, if something stands
/// before the dot. A dot in a directory's name counts for nothing.
pub proof fn law_extensions(directory: Seq<char>, stem: Seq<char>, extension: Seq<char>)
    requires
        !stem.contains('/'),
        stem.len() > 0,
        !extension.contains('/'),
        !extension.contains('.'),
    ensures
        extension_of(directory + seq!['/'] + (stem + seq!['.'] + extension)) == extension,
        !extension.contains('.') && extension.len() > 0 ==> extension_of(
            directory + seq!['/'] + extension,
        ).len() == 0,
{
    let name = stem + seq!['.'] + extension;
    if name.contains('/') {
        let i = name.index_of('/');
        if i < stem.len() {
            assert(stem[i] == '/');
        } else if i > stem.len() {
            assert(extension[i - stem.len() - 1] == '/');
        }
    }
    lemma_last_piece(directory, '/', name);
    lemma_last_piece(directory, '/', extension);
    reveal_strlit(".");
    assert("."@.len() == 1);
    assert(name != "."@);
    lemma_last_place(stem, '.', extension);
    assert(name.skip(stem.len() as int + 1) =~= extension);
    if extension.len() > 0 {
        assert("."@.contains('.')) by {
            assert("."@[0] == '.');
        }
        assert(extension != "."@);
        lemma_no_place(extension, '.');
    }
}

proof fn lemma_no_place(s: Seq<char>, c: char)
    requires
        !s.contains(c),
    ensures
        last_place(s, c) == -1,
    decreases s.len(),
{
    if s.len() > 0 {
        assert(s.contains(s.last()));
        if s.drop_last().contains(c) {
            let i = s.drop_last().index_of(c);
            assert(s[i] == c);
        }
        lemma_no_place(s.drop_last(), c);
    }
}

} // verus!
