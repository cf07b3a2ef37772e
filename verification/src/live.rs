//! Players who listen for changes of the world over a socket.
use vstd::prelude::*;

use crate::accounts::{require_session, session_refusal};
use crate::body::{field_views, get_text, json_fields, parse_json, text_field, Field, FieldView};
use crate::passwords::utf8;
use crate::requests::stands_for;
use crate::state::{text_in, GameState, StateView};
use crate::text::same_text;

verus! {

/// How long a client may take to say who it is, in seconds.
pub const AUTH_TIMEOUT_SECS: u64 = 10;

/// How often a client is pinged, in seconds.
pub const PING_EVERY_SECS: u64 = 30;

/// Where a client stands.
#[derive(Clone, Copy, Debug, PartialEq, Eq, Structural)]
pub enum Phase {
    /// The client has not yet said who it is.
    Waiting,
    /// The client is told of changes.
    Listening,
    /// The connection is over.
    Over,
}

/// What happens on a connection.
pub enum Event {
    /// The client sent a text.
    Text(String),
    /// The client sent something else.
    OtherMessage,
    /// The connection broke.
    Broken,
    /// The client closed the connection.
    Ended,
    /// The client took too long to say who it is.
    TimedOut,
    /// There is something new to tell.
    Update(String),
    /// What there was to tell was lost.
    UpdatesLost,
    /// It is time to ping the client.
    PingDue,
    /// The client could not be reached.
    SendFailed,
}

/// What the server does next.
pub enum Action {
    /// Wait for the next event.
    Wait,
    /// Tell the client that it is known.
    Accept { player_id: String },
    /// Tell the client that it is not known, and end the connection.
    Reject,
    /// Send a text to the client.
    Send { text: String },
    /// Ping the client.
    Ping,
    /// End the connection.
    HangUp,
}

#[verifier::ext_equal]
pub enum EventView {
    Text(Seq<char>),
    OtherMessage,
    Broken,
    Ended,
    TimedOut,
    Update(Seq<char>),
    UpdatesLost,
    PingDue,
    SendFailed,
}

impl View for Event {
    type V = EventView;

    open spec fn view(&self) -> EventView {
        match self {
            Event::Text(text) => EventView::Text(text@),
            Event::OtherMessage => EventView::OtherMessage,
            Event::Broken => EventView::Broken,
            Event::Ended => EventView::Ended,
            Event::TimedOut => EventView::TimedOut,
            Event::Update(text) => EventView::Update(text@),
            Event::UpdatesLost => EventView::UpdatesLost,
            Event::PingDue => EventView::PingDue,
            Event::SendFailed => EventView::SendFailed,
        }
    }
}

#[verifier::ext_equal]
pub enum ActionView {
    Wait,
    Accept { player_id: Seq<char> },
    Reject,
    Send { text: Seq<char> },
    Ping,
    HangUp,
}

impl View for Action {
    type V = ActionView;

    open spec fn view(&self) -> ActionView {
        match self {
            Action::Wait => ActionView::Wait,
            Action::Accept { player_id } => ActionView::Accept { player_id: player_id@ },
            Action::Reject => ActionView::Reject,
            Action::Send { text } => ActionView::Send { text: text@ },
            Action::Ping => ActionView::Ping,
            Action::HangUp => ActionView::HangUp,
        }
    }
}

/// Who a client is that sent an object with these fields: the same rules hold as for
/// any other request.
pub open spec fn player_in(
    fields: Seq<(Seq<char>, FieldView)>,
    state: StateView,
    now: int,
) -> Option<Seq<char>> {
    if text_field(fields, "type"@) != Some("auth"@) {
        None
    } else {
        match text_field(fields, "token"@) {
            Some(token) => if session_refusal(state, token, now) is None {
                Some(state.sessions[token].player_id)
            } else {
                None
            },
            None => None,
        }
    }
}

/// Who a client is that sent an object with these fields.
pub fn authenticate(fields: &Vec<(String, Field)>, state: &GameState, now: i64) -> (r: Option<
    String,
>)
    ensures
        text_in(r) == player_in(field_views(fields@), state@, now as int),
{
    let asks: bool = match get_text(fields, "type") {
        Some(kind) => same_text(kind.as_str(), "auth"),
        None => false,
    };
    if !asks {
        return None;
    }
    match get_text(fields, "token") {
        Some(token) => match require_session(state, token.as_str(), now) {
            Ok(session) => Some(session.player_id),
            Err(_) => None,
        },
        None => None,
    }
}

/// Who a client is that sent a text.
pub open spec fn player_of(text: Seq<char>, state: StateView, now: int) -> Option<Seq<char>> {
    match json_fields(utf8(text)) {
        Some(fields) => player_in(fields, state, now),
        None => None,
    }
}

/// What the server does on an event, and where the client stands then. The first text
/// decides who the client is; after that nothing that it sends is looked at.
pub open spec fn respond_to(
    phase: Phase,
    event: EventView,
    state: StateView,
    now: int,
) -> (Phase, ActionView) {
    match phase {
        Phase::Waiting => match event {
            EventView::Text(text) => match player_of(text, state, now) {
                Some(player_id) => (Phase::Listening, ActionView::Accept { player_id }),
                None => (Phase::Over, ActionView::Reject),
            },
            EventView::Broken | EventView::Ended | EventView::TimedOut => (
                Phase::Over,
                ActionView::Reject,
            ),
            _ => (Phase::Waiting, ActionView::Wait),
        },
        Phase::Listening => match event {
            EventView::Update(text) => (Phase::Listening, ActionView::Send { text }),
            EventView::PingDue => (Phase::Listening, ActionView::Ping),
            EventView::UpdatesLost | EventView::SendFailed => (Phase::Over, ActionView::HangUp),
            _ => (Phase::Listening, ActionView::Wait),
        },
        Phase::Over => (Phase::Over, ActionView::HangUp),
    }
}

pub fn respond(phase: Phase, event: Event, state: &GameState, now: i64) -> (r: (Phase, Action))
    ensures
        r.0 == respond_to(phase, event@, state@, now as int).0,
        r.1@ == respond_to(phase, event@, state@, now as int).1,
{
    match phase {
        Phase::Waiting => match event {
            Event::Text(text) => {
                let who: Option<String> = match parse_json(text.as_str().as_bytes()) {
                    Some(fields) => authenticate(&fields, state, now),
                    None => None,
                };
                match who {
                    Some(player_id) => (Phase::Listening, Action::Accept { player_id }),
                    None => (Phase::Over, Action::Reject),
                }
            },
            Event::Broken | Event::Ended | Event::TimedOut => (Phase::Over, Action::Reject),
            _ => (Phase::Waiting, Action::Wait),
        },
        Phase::Listening => match event {
            Event::Update(text) => (Phase::Listening, Action::Send { text }),
            Event::PingDue => (Phase::Listening, Action::Ping),
            Event::UpdatesLost | Event::SendFailed => (Phase::Over, Action::HangUp),
            _ => (Phase::Listening, Action::Wait),
        },
        Phase::Over => (Phase::Over, Action::HangUp),
    }
}

/// An event, with the state of the game and the time at which it happens.
#[verifier::ext_equal]
pub struct Step {
    pub event: EventView,
    pub state: StateView,
    pub now: int,
}

/// Where a client stands after some events.
pub open spec fn phase_after(steps: Seq<Step>) -> Phase
    decreases steps.len(),
{
    if steps.len() == 0 {
        Phase::Waiting
    } else {
        let last = steps.last();
        respond_to(phase_after(steps.drop_last()), last.event, last.state, last.now).0
    }
}

/// In a step, a client shows the token of a session that is good.
pub open spec fn shows_good_token(step: Step) -> bool {
    match step.event {
        EventView::Text(text) => player_of(text, step.state, step.now) is Some,
        _ => false,
    }
}

/// A client is told of changes only after it has shown the token of a session that is
/// good.
pub proof fn law_only_known_players_listen(steps: Seq<Step>)
    requires
        phase_after(steps) == Phase::Listening,
    ensures
        exists|i: int| 0 <= i < steps.len() && shows_good_token(#[trigger] steps[i]),
    decreases steps.len(),
{
    let earlier = steps.drop_last();
    if phase_after(earlier) == Phase::Listening {
        law_only_known_players_listen(earlier);
        let i = choose|i: int| 0 <= i < earlier.len() && shows_good_token(#[trigger] earlier[i]);
        assert(steps[i] == earlier[i]);
    } else {
        assert(shows_good_token(steps[steps.len() - 1]));
    }
}

/// A connection that is over stays so.
pub proof fn law_over_is_over(steps: Seq<Step>, i: int)
    requires
        0 <= i <= steps.len(),
        phase_after(steps.take(i)) == Phase::Over,
    ensures
        phase_after(steps) == Phase::Over,
    decreases steps.len(),
{
    if i == steps.len() {
        assert(steps.take(i) =~= steps);
    } else {
        assert(steps.drop_last().take(i) =~= steps.take(i));
        law_over_is_over(steps.drop_last(), i);
    }
}

/// A client that waits is known by its first text exactly if that is an object of the type
/// `auth` with a token that stands for a player: then it listens as that player. Any other
/// text, a broken or ended connection, or waiting too long, and it is rejected.
pub proof fn law_who_is_accepted(
    text: Seq<char>,
    state: StateView,
    now: int,
    fields: Seq<(Seq<char>, FieldView)>,
    player: Seq<char>,
)
    ensures
        ({
            let answer = respond_to(Phase::Waiting, EventView::Text(text), state, now);
            let known = json_fields(utf8(text)) == Some(fields) && text_field(fields, "type"@)
                == Some("auth"@) && text_field(fields, "token"@) is Some && stands_for(
                state,
                text_field(fields, "token"@)->0,
                now,
                player,
            );
            &&& known ==> answer.0 == Phase::Listening && answer.1 == (ActionView::Accept {
                player_id: player,
            })
            &&& json_fields(utf8(text)) is None ==> answer.0 == Phase::Over && answer.1
                == ActionView::Reject
            &&& json_fields(utf8(text)) == Some(fields) && answer.1 == (ActionView::Accept {
                player_id: player,
            }) ==> known
            &&& answer.0 == Phase::Listening <==> answer.1 is Accept
            &&& answer.0 != Phase::Listening ==> answer.0 == Phase::Over && answer.1
                == ActionView::Reject
            &&& respond_to(Phase::Waiting, EventView::TimedOut, state, now) == (
                Phase::Over,
                ActionView::Reject,
            )
            &&& respond_to(Phase::Waiting, EventView::Broken, state, now) == (
                Phase::Over,
                ActionView::Reject,
            )
            &&& respond_to(Phase::Waiting, EventView::Ended, state, now) == (
                Phase::Over,
                ActionView::Reject,
            )
        }),
{
}

/// A client that listens is sent every update as it is and pinged when it is time; the
/// connection ends when updates were lost or the client cannot be reached. What the
/// client sends changes nothing. Nothing is sent to one that waits.
pub proof fn law_what_a_listener_hears(event: EventView, text: Seq<char>, state: StateView, now: int)
    ensures
        ({
            let answer = respond_to(Phase::Listening, event, state, now);
            let waiting = respond_to(Phase::Waiting, event, state, now);
            &&& event == EventView::Update(text) ==> answer == (
                Phase::Listening,
                ActionView::Send { text },
            )
            &&& event is PingDue ==> answer == (Phase::Listening, ActionView::Ping)
            &&& event is UpdatesLost || event is SendFailed ==> answer == (
                Phase::Over,
                ActionView::HangUp,
            )
            &&& event is Text || event is OtherMessage ==> answer == (
                Phase::Listening,
                ActionView::Wait,
            )
            &&& answer.0 == Phase::Over <==> event is UpdatesLost || event is SendFailed
            &&& answer.1 is Send ==> event == EventView::Update(answer.1->text)
            &&& event is Update || event is PingDue || event is UpdatesLost || event is SendFailed
                || event is OtherMessage ==> waiting == (Phase::Waiting, ActionView::Wait)
            &&& !(waiting.1 is Send) && !(waiting.1 is Ping)
            &&& respond_to(Phase::Over, event, state, now) == (Phase::Over, ActionView::HangUp)
        }),
{
}

} // verus!
