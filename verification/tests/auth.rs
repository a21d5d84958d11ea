use screen_streamer::auth::{
    auth_token, authenticate, judge_token, parse_auth_message, token_matches, AuthOutcome,
    FirstMessage, AUTH_TIMEOUT, CLOSE_UNAUTHORIZED, FAILURE_DELAY,
};

fn text(s: &str) -> FirstMessage {
    FirstMessage::Text(s.to_owned())
}

#[test]
fn token_matches_only_the_exact_token() {
    assert!(token_matches("abc123", "abc123"));
    assert!(!token_matches("abc123", "abc124"));
    assert!(!token_matches("abc123", "abc12"));
    assert!(!token_matches("abc123", ""));
}

#[test]
fn parse_auth_message_extracts_the_token() {
    assert_eq!(
        parse_auth_message(r#"{"type":"auth","token":"t0k"}"#),
        Some("t0k".into())
    );
}

#[test]
fn parse_auth_message_rejects_other_shapes() {
    assert_eq!(
        parse_auth_message(r#"{"type":"answer","token":"t0k"}"#),
        None
    );
    assert_eq!(parse_auth_message(r#"{"type":"auth"}"#), None);
    assert_eq!(parse_auth_message(r#"{"type":"auth","token":42}"#), None);
    assert_eq!(parse_auth_message("not json"), None);
}

#[test]
fn authenticate_accepts_the_right_token() {
    assert_eq!(
        authenticate(text(r#"{"type":"auth","token":"good"}"#), "good"),
        AuthOutcome::Accepted
    );
}

#[test]
fn authenticate_rejects_a_wrong_token_or_non_auth_first_message() {
    assert_eq!(
        authenticate(text(r#"{"type":"auth","token":"bad"}"#), "good"),
        AuthOutcome::Rejected
    );
    assert_eq!(authenticate(FirstMessage::Other, "good"), AuthOutcome::Rejected);
}

#[test]
fn authenticate_reports_a_closed_socket_as_gone() {
    assert_eq!(authenticate(FirstMessage::Nothing, "good"), AuthOutcome::Gone);
    assert_eq!(authenticate(FirstMessage::Close, "good"), AuthOutcome::Gone);
}

#[test]
fn authenticate_times_out_a_silent_client() {
    assert_eq!(authenticate(FirstMessage::Nothing, ""), AuthOutcome::Gone);
    assert_eq!(AUTH_TIMEOUT, 5_000_000_000);
}

#[test]
fn only_text_that_is_an_auth_message_is_accepted() {
    for bad in [
        r#"{"type":"Auth","token":"good"}"#,
        r#"{"token":"good"}"#,
        r#"["auth","good"]"#,
        r#"{"type":"auth","token":"good"} x"#,
        "good",
        "",
    ] {
        assert_eq!(authenticate(text(bad), "good"), AuthOutcome::Rejected, "{bad}");
    }
}

#[test]
fn escapes_in_a_token_are_read() {
    assert_eq!(
        parse_auth_message(r#"{"token":"a\"A\n","type":"auth"}"#),
        Some("a\"A\n".to_owned())
    );
}

#[test]
fn tokens_beyond_ascii_are_compared_whole() {
    assert!(token_matches("пароль", "пароль"));
    assert!(!token_matches("пароль", "паролЬ"));
    assert!(!token_matches("é", "e"));
}

#[test]
fn the_members_alone_decide_on_the_token() {
    let some = |s: &str| Some(s.to_owned());
    assert_eq!(auth_token(some("auth"), some("t")), some("t"));
    assert_eq!(auth_token(some("hello"), some("t")), None);
    assert_eq!(auth_token(None, some("t")), None);
    assert_eq!(auth_token(some("auth"), None), None);
    assert_eq!(judge_token(some("t"), "t"), AuthOutcome::Accepted);
    assert_eq!(judge_token(some("u"), "t"), AuthOutcome::Rejected);
    assert_eq!(judge_token(None, ""), AuthOutcome::Rejected);
}

#[test]
fn a_failed_attempt_has_its_own_close_code_and_delay() {
    assert_eq!(CLOSE_UNAUTHORIZED, 4001);
    assert_eq!(FAILURE_DELAY, 1_000_000_000);
}
