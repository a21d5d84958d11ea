use screen_streamer::auth::{AuthOutcome, CLOSE_UNAUTHORIZED, FAILURE_DELAY};
use screen_streamer::session::{
    greeting_error, upgrade_error, Action, Event, Session, ANSWER_TIMEOUT_SECS, RETRY_PAUSE,
};

/// A session whose client was let in and greeted.
fn greeted() -> Session {
    let mut s = Session::new();
    assert_eq!(s.action(), Action::Upgrade);
    assert_eq!(s.next(Event::Done), Action::Authenticate);
    assert_eq!(s.next(Event::Checked(AuthOutcome::Accepted)), Action::Greet);
    assert_eq!(s.next(Event::Done), Action::CheckSocket);
    s
}

/// Goes through one negotiation, up to the stream.
fn negotiate(s: &mut Session, session: u64) {
    assert_eq!(s.next(Event::Done), Action::Connect { session });
    assert_eq!(s.next(Event::Done), Action::CreateOffer { session });
    assert_eq!(s.next(Event::Done), Action::SendOffer { session });
    assert_eq!(
        s.next(Event::Done),
        Action::AwaitAnswer { session, timeout_secs: ANSWER_TIMEOUT_SECS }
    );
    assert_eq!(s.next(Event::Done), Action::AwaitChannel { timeout_secs: 30 });
    assert_eq!(s.next(Event::Done), Action::Stream);
}

#[test]
fn an_ended_stream_is_negotiated_again() {
    let mut s = greeted();
    for session in 1..4 {
        negotiate(&mut s, session);
        assert_eq!(s.negotiations(), session);
        assert_eq!(s.next(Event::Done), Action::StopStream { timeout_secs: 5 });
        assert_eq!(s.next(Event::Done), Action::Pause { delay: RETRY_PAUSE });
        assert_eq!(s.next(Event::Done), Action::CheckSocket);
    }
    assert_eq!(s.next(Event::Failed), Action::Finish);
}

#[test]
fn a_client_that_leaves_ends_the_session() {
    let mut s = greeted();
    negotiate(&mut s, 1);
    assert_eq!(s.next(Event::ClientGone), Action::StopStream { timeout_secs: 5 });
    assert_eq!(s.next(Event::Failed), Action::Finish);
}

#[test]
fn a_wrong_token_is_answered_late_and_for_good() {
    let mut s = Session::new();
    s.next(Event::Done);
    assert_eq!(
        s.next(Event::Checked(AuthOutcome::Rejected)),
        Action::HoldBack { delay: FAILURE_DELAY }
    );
    assert_eq!(s.next(Event::Done), Action::Refuse { code: CLOSE_UNAUTHORIZED });
    assert_eq!(s.next(Event::Done), Action::Finish);
    assert_eq!(s.next(Event::Done), Action::Finish);
    assert_eq!(s.negotiations(), 0);
}

#[test]
fn a_silent_client_is_dropped() {
    let mut s = Session::new();
    s.next(Event::Done);
    assert_eq!(s.next(Event::Checked(AuthOutcome::Gone)), Action::Finish);
}

#[test]
fn failures_end_the_session_where_they_happen() {
    let mut s = Session::new();
    assert_eq!(s.next(Event::Failed), Action::FailUpgrade);
    let mut s = Session::new();
    s.next(Event::Done);
    s.next(Event::Checked(AuthOutcome::Accepted));
    assert_eq!(s.next(Event::Failed), Action::FailGreeting);
    for steps in 1..6 {
        let mut s = greeted();
        for _ in 0..steps {
            s.next(Event::Done);
        }
        assert_eq!(s.next(Event::Failed), Action::Finish, "after {steps} steps");
    }
}

#[test]
fn errors_say_what_failed() {
    assert_eq!(upgrade_error("bad key").message(), "WebRTC: WebSocket upgrade failed: bad key");
    assert_eq!(greeting_error("gone").message(), "WebRTC: Failed to send hello: gone");
}
