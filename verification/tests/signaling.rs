use screen_streamer::signaling::{
    candidate_message, classify, classify_members, offer_error, offer_message, AnswerStep,
    AnswerWait, Candidate, Signal, SocketMessage, SECOND,
};
use webrtc::ice_transport::ice_candidate::RTCIceCandidateInit;
use webrtc::peer_connection::sdp::session_description::RTCSessionDescription;

const SDP: &str = "v=0\r\no=- 1 2 IN IP4 0.0.0.0\r\ns=-\r\nt=0 0\r\n";

fn answer(session: u64, sdp: &str) -> SocketMessage {
    let mut v = serde_json::Map::new();
    v.insert("session".to_owned(), session.into());
    v.insert("type".to_owned(), "answer".into());
    v.insert("sdp".to_owned(), sdp.into());
    SocketMessage::Text(serde_json::Value::Object(v).to_string())
}

fn named(candidate: &str) -> Candidate {
    Candidate {
        candidate: candidate.to_owned(),
        sdp_mid: None,
        sdp_mline_index: None,
        username_fragment: None,
    }
}

fn text(s: &str) -> SocketMessage {
    SocketMessage::Text(s.to_owned())
}

#[test]
fn an_offer_reads_back() {
    let json = offer_message("v=0\r\no=- \"x\"", 7);
    assert_eq!(json, r#"{"sdp":"v=0\r\no=- \"x\"","session":7,"type":"offer"}"#);
    let v: serde_json::Value = serde_json::from_str(&json).unwrap();
    assert_eq!(v["type"], "offer");
    assert_eq!(v["sdp"], "v=0\r\no=- \"x\"");
    assert_eq!(v["session"], 7);
}

#[test]
fn a_candidate_is_sent_with_its_session() {
    let candidate = Candidate {
        candidate: "candidate:1 \"udp\"".to_owned(),
        sdp_mid: Some("0".to_owned()),
        sdp_mline_index: Some(65535),
        username_fragment: None,
    };
    let json = candidate_message(&candidate, u64::MAX);
    assert_eq!(
        json,
        r#"{"candidate":{"candidate":"candidate:1 \"udp\"","sdpMLineIndex":65535,"sdpMid":"0","usernameFragment":null},"session":18446744073709551615,"type":"candidate"}"#
    );
    let v: serde_json::Value = serde_json::from_str(&json).unwrap();
    let init = RTCIceCandidateInit {
        candidate: candidate.candidate.clone(),
        sdp_mid: candidate.sdp_mid.clone(),
        sdp_mline_index: candidate.sdp_mline_index,
        username_fragment: None,
    };
    assert_eq!(v["candidate"], serde_json::to_value(init).unwrap());
    assert_eq!(v["session"], u64::MAX);
    // What is told reads back as it was.
    assert!(matches!(classify(&json, u64::MAX), Signal::Candidate(c) if c == candidate));
}

#[test]
fn messages_of_another_session_are_stale() {
    for stale in [
        r#"{"session":1,"type":"answer","sdp":"s"}"#,
        r#"{"type":"answer","sdp":"s"}"#,
        r#"{"session":"2","type":"answer","sdp":"s"}"#,
        r#"{"session":-2,"type":"answer","sdp":"s"}"#,
        "no json",
    ] {
        assert!(matches!(classify(stale, 2), Signal::Stale), "{stale}");
    }
}

#[test]
fn answers_and_candidates_are_told_apart() {
    assert!(matches!(
        classify(r#"{"session":2,"type":"answer","sdp":"s"}"#, 2),
        Signal::Answer(s) if s == "s"
    ));
    let told = r#"{"session":2,"type":"candidate","candidate":{"sdpMid":"m","candidate":"x","sdpMLineIndex":3,"usernameFragment":"u","more":1}}"#;
    match classify(told, 2) {
        Signal::Candidate(c) => {
            assert_eq!(c.candidate, "x");
            assert_eq!(c.sdp_mid.as_deref(), Some("m"));
            assert_eq!(c.sdp_mline_index, Some(3));
            assert_eq!(c.username_fragment.as_deref(), Some("u"));
        }
        _ => panic!("a candidate"),
    }
    assert!(matches!(
        classify(r#"{"session":2,"type":"candidate","candidate":{"candidate":""}}"#, 2),
        Signal::Candidate(c) if c == named("")
    ));
    for ignored in [
        r#"{"session":2,"type":"answer"}"#,
        r#"{"session":2,"type":"answer","sdp":5}"#,
        r#"{"session":2,"type":"candidate"}"#,
        r#"{"session":2,"type":"candidate","candidate":"x"}"#,
        r#"{"session":2,"type":"candidate","candidate":{"sdpMid":"0"}}"#,
        r#"{"session":2,"type":"candidate","candidate":{"candidate":"x","sdpMLineIndex":65536}}"#,
        r#"{"session":2,"type":"candidate","candidate":{"candidate":5}}"#,
        r#"{"session":2,"type":"bye"}"#,
        r#"{"session":2}"#,
    ] {
        assert!(matches!(classify(ignored, 2), Signal::Ignored), "{ignored}");
    }
}

#[test]
fn the_members_alone_decide_on_the_signal() {
    let some = |s: &str| Some(s.to_owned());
    assert!(matches!(classify_members(Some(1), some("answer"), some("s"), None, 1), Signal::Answer(_)));
    assert!(matches!(classify_members(None, some("answer"), some("s"), None, 1), Signal::Stale));
    assert!(matches!(
        classify_members(Some(1), some("candidate"), None, Some(named("c")), 1),
        Signal::Candidate(c) if c == named("c")
    ));
    assert!(matches!(
        classify_members(Some(1), None, some("s"), Some(named("c")), 1),
        Signal::Ignored
    ));
    assert!(matches!(
        classify_members(Some(1), some("candidate"), some("s"), None, 1),
        Signal::Ignored
    ));
}

#[test]
fn early_candidates_come_with_the_answer_in_order() {
    let mut w = AnswerWait::new(2, 10, 30);
    for m in [
        r#"{"session":2,"type":"candidate","candidate":{"candidate":"a"}}"#,
        r#"{"session":1,"type":"candidate","candidate":{"candidate":"stale"}}"#,
        r#"{"session":2,"type":"candidate","candidate":"malformed"}"#,
        r#"{"session":2,"type":"candidate","candidate":{"candidate":"b"}}"#,
    ] {
        assert!(matches!(w.receive(text(m)), AnswerStep::Wait));
    }
    assert!(matches!(w.receive(SocketMessage::Other), AnswerStep::Wait));
    assert!(matches!(w.receive(answer(1, SDP)), AnswerStep::Wait));
    match w.receive(answer(2, SDP)) {
        AnswerStep::Apply { sdp, candidates } => {
            assert_eq!(sdp, SDP);
            assert_eq!(candidates, [named("a"), named("b")]);
        }
        _ => panic!("the answer must be applied"),
    }
}

#[test]
fn an_answer_that_cannot_be_read_ends_the_wait_with_its_error() {
    for bad in ["", "s", "v=1\r\n", "v=0\r\no=- x 2 IN IP4 0.0.0.0\r\n"] {
        let why = RTCSessionDescription::answer(bad.to_owned()).unwrap_err().to_string();
        let mut w = AnswerWait::new(2, 0, 30);
        match w.receive(answer(2, bad)) {
            AnswerStep::Fail(e) => assert_eq!(e.message(), format!("WebRTC: {why}")),
            _ => panic!("{bad}"),
        }
    }
}

#[test]
fn the_fault_of_a_description_decides_on_the_answer() {
    let mut w = AnswerWait::new(1, 0, 30);
    assert!(matches!(w.take_signal(Signal::Candidate(named("a")), None), AnswerStep::Wait));
    let faulty = w.take_signal(Signal::Answer("x".to_owned()), Some("why".to_owned()));
    assert!(matches!(faulty, AnswerStep::Fail(e) if e.message() == "WebRTC: why"));
    match w.take_signal(Signal::Answer("x".to_owned()), None) {
        AnswerStep::Apply { sdp, candidates } => {
            assert_eq!(sdp, "x");
            assert_eq!(candidates, [named("a")]);
        }
        _ => panic!("the answer must be applied"),
    }
}

#[test]
fn a_closed_socket_stops_the_wait() {
    let mut w = AnswerWait::new(1, 0, 1);
    assert!(matches!(w.receive(SocketMessage::Closed), AnswerStep::Stop));
}

#[test]
fn the_wait_ends_at_its_deadline() {
    let w = AnswerWait::new(1, 5, 30);
    assert!(!w.is_over(5));
    assert!(!w.is_over(5 + 30 * SECOND - 1));
    assert!(w.is_over(5 + 30 * SECOND));
}

#[test]
fn an_offer_that_cannot_be_sent_is_an_error() {
    assert_eq!(
        offer_error().message(),
        "WebRTC: Failed to send offer (channel full or closed)"
    );
}
