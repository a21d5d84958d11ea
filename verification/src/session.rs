//! How a session with one client goes: it has to authenticate, is greeted, and
//! is then offered one peer connection after another until it leaves.
//!
//! [`Session::next`] says what to do next, given how the last thing went.

use crate::auth::{AuthOutcome, CLOSE_UNAUTHORIZED, FAILURE_DELAY};
use crate::error::Error;
use crate::text::join;
use vstd::prelude::*;

verus! {

/// How long an answer to an offer may take, in seconds.
pub const ANSWER_TIMEOUT_SECS: u64 = 30;

/// How long a data channel may take to open, in seconds.
pub const CHANNEL_TIMEOUT_SECS: u64 = 30;

/// How long the capture thread may take to stop, in seconds.
pub const STOP_TIMEOUT_SECS: u64 = 5;

/// The pause before a connection is negotiated anew, in nanoseconds: 500 ms.
pub const RETRY_PAUSE: u64 = 500_000_000;

/// What to do next.
#[derive(Clone, Copy, Debug, PartialEq, Eq, Structural)]
pub enum Action {
    /// Answer the upgrade request.
    Upgrade,
    /// Wait for the first message and check it.
    Authenticate,
    /// Hold the refusal back for so many nanoseconds.
    HoldBack { delay: u64 },
    /// Send a close frame with this code and the reason `unauthorized`.
    Refuse { code: u16 },
    /// Send the greeting.
    Greet,
    /// See whether messages can still be sent to the client.
    CheckSocket,
    /// Set up a peer connection for this negotiation.
    Connect { session: u64 },
    /// Make an offer.
    CreateOffer { session: u64 },
    /// Send the offer, and every candidate found from now on.
    SendOffer { session: u64 },
    /// Wait for the client's answer.
    AwaitAnswer { session: u64, timeout_secs: u64 },
    /// Wait for the data channel to open.
    AwaitChannel { timeout_secs: u64 },
    /// Capture and stream, while watching the socket for a client that leaves.
    Stream,
    /// Release the held keys and buttons, and stop the capture thread.
    StopStream { timeout_secs: u64 },
    /// Wait for so many nanoseconds.
    Pause { delay: u64 },
    /// The session is over.
    Finish,
    /// The session is over: the upgrade failed.
    FailUpgrade,
    /// The session is over: the greeting could not be sent.
    FailGreeting,
}

/// How the last thing went.
#[derive(Clone, Copy, Debug, PartialEq, Eq, Structural)]
pub enum Event {
    /// It was done. Of a wait: what was waited for came. Of a stream: it ended
    /// by itself, or broke.
    Done,
    /// It failed, or did not come in time.
    Failed,
    /// The first message was checked.
    Checked(AuthOutcome),
    /// The client closed the connection, or it broke.
    ClientGone,
}

/// Whether an action ends the session.
pub open spec fn is_end(action: Action) -> bool {
    action is Finish || action is FailUpgrade || action is FailGreeting
}

/// Where a session stands: the action it is at, how many negotiations it has
/// begun, and whether its client has left.
pub struct Stand {
    pub action: Action,
    pub session: int,
    pub client_gone: bool,
}

/// Where a session starts.
pub open spec fn at_start() -> Stand {
    Stand { action: Action::Upgrade, session: 0, client_gone: false }
}

/// A session after its action was done. Each negotiation gets the next number.
pub open spec fn after_done(s: Stand) -> Action {
    let n = s.session as u64;
    match s.action {
        Action::Upgrade => Action::Authenticate,
        Action::HoldBack { .. } => Action::Refuse { code: CLOSE_UNAUTHORIZED },
        Action::Greet => Action::CheckSocket,
        Action::CheckSocket => Action::Connect { session: (s.session + 1) as u64 },
        Action::Connect { .. } => Action::CreateOffer { session: n },
        Action::CreateOffer { .. } => Action::SendOffer { session: n },
        Action::SendOffer { .. } => Action::AwaitAnswer {
            session: n,
            timeout_secs: ANSWER_TIMEOUT_SECS,
        },
        Action::AwaitAnswer { .. } => Action::AwaitChannel { timeout_secs: CHANNEL_TIMEOUT_SECS },
        Action::AwaitChannel { .. } => Action::Stream,
        Action::Stream => Action::StopStream { timeout_secs: STOP_TIMEOUT_SECS },
        Action::StopStream { .. } => if s.client_gone {
            Action::Finish
        } else {
            Action::Pause { delay: RETRY_PAUSE }
        },
        Action::Pause { .. } => Action::CheckSocket,
        _ => Action::Finish,
    }
}

/// What to do once the first message was checked.
pub open spec fn after_check(outcome: AuthOutcome) -> Action {
    match outcome {
        AuthOutcome::Accepted => Action::Greet,
        AuthOutcome::Rejected => Action::HoldBack { delay: FAILURE_DELAY },
        AuthOutcome::Gone => Action::Finish,
    }
}

/// What to do next.
pub open spec fn next_action(s: Stand, event: Event) -> Action {
    match event {
        Event::Checked(outcome) => if s.action is Authenticate {
            after_check(outcome)
        } else {
            Action::Finish
        },
        Event::ClientGone => if s.action is Stream {
            Action::StopStream { timeout_secs: STOP_TIMEOUT_SECS }
        } else {
            Action::Finish
        },
        Event::Failed => if s.action is Upgrade {
            Action::FailUpgrade
        } else if s.action is Greet {
            Action::FailGreeting
        } else if s.action is StopStream {
            // A thread that does not stop in time is left alone.
            after_done(s)
        } else {
            Action::Finish
        },
        Event::Done => after_done(s),
    }
}

/// Where a session stands after an event.
pub open spec fn advanced(s: Stand, event: Event) -> Stand {
    let action = next_action(s, event);
    Stand {
        action,
        session: if action is Connect { s.session + 1 } else { s.session },
        client_gone: s.client_gone || (s.action is Stream && event is ClientGone),
    }
}

/// Where a session stands after several events.
pub open spec fn advanced_all(s: Stand, events: Seq<Event>) -> Stand
    decreases events.len(),
{
    if events.len() == 0 {
        s
    } else {
        advanced(advanced_all(s, events.drop_last()), events.last())
    }
}

/// One client's session.
pub struct Session {
    action: Action,
    session: u64,
    client_gone: bool,
}

impl View for Session {
    type V = Stand;

    closed spec fn view(&self) -> Stand {
        Stand {
            action: self.action,
            session: self.session as int,
            client_gone: self.client_gone,
        }
    }
}

impl Session {
    /// A session with a client that just asked for an upgrade.
    pub fn new() -> (s: Self)
        ensures
            s@ == at_start(),
    {
        Session { action: Action::Upgrade, session: 0, client_gone: false }
    }

    /// What to do now.
    pub fn action(&self) -> (action: Action)
        ensures
            action == self@.action,
    {
        self.action
    }

    /// How many negotiations were begun.
    pub fn negotiations(&self) -> (n: u64)
        ensures
            n == self@.session,
    {
        self.session
    }

    fn done(&self) -> (action: Action)
        requires
            self@.session < u64::MAX,
        ensures
            action == after_done(self@),
    {
        let n: u64 = self.session;
        match self.action {
            Action::Upgrade => Action::Authenticate,
            Action::HoldBack { .. } => Action::Refuse { code: CLOSE_UNAUTHORIZED },
            Action::Greet => Action::CheckSocket,
            Action::CheckSocket => Action::Connect { session: n + 1 },
            Action::Connect { .. } => Action::CreateOffer { session: n },
            Action::CreateOffer { .. } => Action::SendOffer { session: n },
            Action::SendOffer { .. } => Action::AwaitAnswer {
                session: n,
                timeout_secs: ANSWER_TIMEOUT_SECS,
            },
            Action::AwaitAnswer { .. } => Action::AwaitChannel { timeout_secs: CHANNEL_TIMEOUT_SECS },
            Action::AwaitChannel { .. } => Action::Stream,
            Action::Stream => Action::StopStream { timeout_secs: STOP_TIMEOUT_SECS },
            Action::StopStream { .. } => {
                if self.client_gone {
                    Action::Finish
                } else {
                    Action::Pause { delay: RETRY_PAUSE }
                }
            },
            Action::Pause { .. } => Action::CheckSocket,
            _ => Action::Finish,
        }
    }

    /// Takes in how the last action went, and says what to do next.
    pub fn next(&mut self, event: Event) -> (action: Action)
        requires
            old(self)@.session < u64::MAX,
        ensures
            final(self)@ == advanced(old(self)@, event),
            action == final(self)@.action,
    {
        let streaming: bool = matches!(self.action, Action::Stream);
        let action: Action = match event {
            Event::Done => self.done(),
            Event::Checked(outcome) => match self.action {
                Action::Authenticate => match outcome {
                    AuthOutcome::Accepted => Action::Greet,
                    AuthOutcome::Rejected => Action::HoldBack { delay: FAILURE_DELAY },
                    AuthOutcome::Gone => Action::Finish,
                },
                _ => Action::Finish,
            },
            Event::ClientGone => {
                if streaming {
                    Action::StopStream { timeout_secs: STOP_TIMEOUT_SECS }
                } else {
                    Action::Finish
                }
            },
            Event::Failed => match self.action {
                Action::Upgrade => Action::FailUpgrade,
                Action::Greet => Action::FailGreeting,
                Action::StopStream { .. } => self.done(),
                _ => Action::Finish,
            },
        };
        let gone: bool = match event {
            Event::ClientGone => streaming,
            _ => false,
        };
        self.client_gone = self.client_gone || gone;
        match action {
            Action::Connect { session } => {
                self.session = session;
            },
            _ => {},
        }
        self.action = action;
        action
    }
}

/// The error of a session whose upgrade failed.
pub fn upgrade_error(why: &str) -> (e: Error)
    ensures
        e matches Error::WebRTC(text) && text@ == "WebSocket upgrade failed: "@ + why@,
{
    Error::WebRTC(join("WebSocket upgrade failed: ", why))
}

/// The error of a session whose greeting could not be sent.
pub fn greeting_error(why: &str) -> (e: Error)
    ensures
        e matches Error::WebRTC(text) && text@ == "Failed to send hello: "@ + why@,
{
    Error::WebRTC(join("Failed to send hello: ", why))
}

/// Whether an action is for clients that were let in only.
pub open spec fn is_for_accepted(action: Action) -> bool {
    match action {
        Action::Upgrade => false,
        Action::Authenticate => false,
        Action::HoldBack { .. } => false,
        Action::Refuse { .. } => false,
        _ => !is_end(action),
    }
}

/// Nothing is told, offered or streamed to a client before it has sent the
/// right token.
pub proof fn law_nothing_before_acceptance(events: Seq<Event>)
    requires
        is_for_accepted(advanced_all(at_start(), events).action),
    ensures
        events.contains(Event::Checked(AuthOutcome::Accepted)),
    decreases events.len(),
{
    if events.len() > 0 {
        let before = advanced_all(at_start(), events.drop_last());
        if is_for_accepted(before.action) {
            law_nothing_before_acceptance(events.drop_last());
            let k = choose|k: int|
                0 <= k < events.drop_last().len() && events.drop_last()[k] == Event::Checked(
                    AuthOutcome::Accepted,
                );
            assert(events[k] == Event::Checked(AuthOutcome::Accepted));
        } else {
            assert(events.last() == Event::Checked(AuthOutcome::Accepted));
            assert(events[events.len() - 1] == events.last());
        }
    }
}

/// A refused client is answered after a delay, with the unauthorized close
/// code, and that is the end of it.
pub proof fn law_refusal_is_delayed_and_final(s: Stand, event: Event)
    requires
        s.action is Authenticate,
    ensures
        ({
            let held = advanced(s, Event::Checked(AuthOutcome::Rejected));
            let refused = advanced(held, Event::Done);
            &&& held.action == Action::HoldBack { delay: FAILURE_DELAY }
            &&& refused.action == Action::Refuse { code: CLOSE_UNAUTHORIZED }
            &&& is_end(advanced(refused, event).action)
        }),
{
}

/// Once over, a session stays over.
pub proof fn law_end_is_final(s: Stand, events: Seq<Event>)
    requires
        is_end(s.action),
    ensures
        is_end(advanced_all(s, events).action),
    decreases events.len(),
{
    if events.len() > 0 {
        law_end_is_final(s, events.drop_last());
    }
}

/// Negotiations are numbered from one on, each with the next number, and every
/// action of a negotiation carries its number.
pub proof fn law_negotiations_are_numbered_in_order(events: Seq<Event>, event: Event)
    requires
        events.len() < u64::MAX,
    ensures
        ({
            let s = advanced_all(at_start(), events);
            let t = advanced(s, event);
            &&& 0 <= s.session <= events.len()
            &&& s.session <= t.session <= s.session + 1
            &&& t.action matches Action::Connect { session } ==> session == s.session + 1 && t.session
                == session
            &&& t.action matches Action::SendOffer { session } ==> session == t.session
            &&& t.action matches Action::AwaitAnswer { session, timeout_secs } ==> session
                == t.session
        }),
    decreases events.len(),
{
    if events.len() > 0 {
        law_negotiations_are_numbered_in_order(events.drop_last(), events.last());
    }
}

/// A client that leaves while it is streamed to is not offered anything any
/// more: the stream is stopped and the session ends.
pub proof fn law_client_that_left_is_not_offered_again(s: Stand, stopped: Event)
    requires
        s.action is Stream,
    ensures
        ({
            let left = advanced(s, Event::ClientGone);
            &&& left.action is StopStream
            &&& is_end(advanced(left, stopped).action)
        }),
{
}

/// A stream that ends by itself is stopped, and after a pause a new connection
/// is negotiated, as long as the client can be reached.
pub proof fn law_ended_stream_is_negotiated_again(s: Stand)
    requires
        s.action is Stream,
        !s.client_gone,
        0 <= s.session < u64::MAX,
    ensures
        ({
            let stopping = advanced(s, Event::Done);
            let pausing = advanced(stopping, Event::Done);
            let checking = advanced(pausing, Event::Done);
            let again = advanced(checking, Event::Done);
            &&& stopping.action is StopStream
            &&& pausing.action == Action::Pause { delay: RETRY_PAUSE }
            &&& checking.action is CheckSocket
            &&& again.action matches Action::Connect { session } && session == s.session + 1
        }),
{
}

/// Whether one action comes right after another that was done.
pub open spec fn leads_to(s: Stand, action: Action) -> bool {
    advanced(s, Event::Done).action == action
}

/// A negotiation's steps come one after the other, all under its number: connection, offer,
/// its sending, half a minute for the answer, half a minute for the channel, the stream,
/// and five seconds for the stream to stop.
pub proof fn law_negotiation_goes_step_by_step(s: Stand)
    requires
        0 <= s.session < u64::MAX,
    ensures
        ({
            let n = s.session as u64;
            &&& s.action is CheckSocket ==> leads_to(s, Action::Connect { session: (n + 1) as u64 })
            &&& s.action is Connect ==> leads_to(s, Action::CreateOffer { session: n })
            &&& s.action is CreateOffer ==> leads_to(s, Action::SendOffer { session: n })
            &&& s.action is SendOffer ==> leads_to(
                s,
                Action::AwaitAnswer { session: n, timeout_secs: 30 },
            )
            &&& s.action is AwaitAnswer ==> leads_to(s, Action::AwaitChannel { timeout_secs: 30 })
            &&& s.action is AwaitChannel ==> leads_to(s, Action::Stream)
            &&& s.action is Stream ==> leads_to(s, Action::StopStream { timeout_secs: 5 })
            &&& s.action is StopStream && !s.client_gone ==> leads_to(
                s,
                Action::Pause { delay: 500_000_000 },
            )
            &&& s.action is Pause ==> leads_to(s, Action::CheckSocket)
        }),
{
}

/// What fails ends the session, but for the stopping of a stream. The upgrade and the
/// greeting have ends of their own.
pub proof fn law_failures_end_the_session(s: Stand)
    ensures
        s.action is Upgrade ==> advanced(s, Event::Failed).action is FailUpgrade,
        s.action is Greet ==> advanced(s, Event::Failed).action is FailGreeting,
        !(s.action is Upgrade || s.action is Greet || s.action is StopStream) ==> advanced(
            s,
            Event::Failed,
        ).action is Finish,
        s.action is StopStream ==> advanced(s, Event::Failed) == advanced(s, Event::Done),
        !(s.action is Stream) ==> is_end(advanced(s, Event::ClientGone).action),
{
}

/// The first message is waited for right after the upgrade; the right token leads to the
/// greeting and then to the first negotiation, a wrong one to a refusal with code 4001
/// a second later, and silence to the end.
pub proof fn law_session_begins_with_the_token(outcome: AuthOutcome)
    ensures
        ({
            let asked = advanced(at_start(), Event::Done);
            let judged = advanced(asked, Event::Checked(outcome));
            let then_done = advanced(judged, Event::Done);
            &&& asked.action is Authenticate
            &&& outcome is Accepted ==> judged.action is Greet && then_done.action is CheckSocket
            &&& outcome is Rejected ==> judged.action == Action::HoldBack { delay: 1_000_000_000 }
                && then_done.action == Action::Refuse { code: 4001 }
            &&& outcome is Gone ==> judged.action is Finish
            &&& judged.session == 0
        }),
{
}

} // verus!
