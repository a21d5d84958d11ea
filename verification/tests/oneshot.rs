use screen_streamer::oneshot::{
    answer_in, answer_outcome, judge_answer, next_step, offer_send_error, plain_offer, Outcome,
    Reply, Step,
};
use webrtc::peer_connection::sdp::session_description::RTCSessionDescription;

#[test]
fn one_offer_one_answer_one_stream() {
    let mut step = Step::Upgrade;
    let mut seen = vec![];
    for _ in 0..8 {
        step = next_step(step, Outcome::Done);
        seen.push(step);
    }
    assert_eq!(
        seen,
        [
            Step::Offer { gathering_secs: 3 },
            Step::SendOffer,
            Step::AwaitAnswer { timeout_secs: 5 },
            Step::Apply,
            Step::AwaitChannel { timeout_secs: 10 },
            Step::Stream,
            Step::StopCapture,
            Step::Finish,
        ]
    );
    assert_eq!(next_step(step, Outcome::Failed), Step::Finish);
}

#[test]
fn what_goes_wrong_ends_the_connection() {
    assert_eq!(next_step(Step::Upgrade, Outcome::Failed), Step::Fail);
    assert_eq!(next_step(Step::SendOffer, Outcome::Failed), Step::Fail);
    assert_eq!(next_step(Step::AwaitAnswer { timeout_secs: 5 }, Outcome::Nothing), Step::Finish);
    assert_eq!(next_step(Step::AwaitChannel { timeout_secs: 10 }, Outcome::Nothing), Step::Finish);
    assert_eq!(next_step(Step::Fail, Outcome::Done), Step::Fail);
    assert_eq!(next_step(Step::Stream, Outcome::Failed), Step::StopCapture);
    assert_eq!(next_step(Step::StopCapture, Outcome::Nothing), Step::Finish);
}

#[test]
fn an_answer_needs_a_description_only() {
    let text = |s: &str| Reply::Text(s.to_owned());
    let r = answer_in(text(
        r#"{"sdp":"v=0\r\no=- 1 2 IN IP4 0.0.0.0\r\ns=-\r\nt=0 0\r\n"}"#,
    ));
    assert_eq!(answer_outcome(&r), Outcome::Done);
    assert_eq!(r.unwrap().unwrap(), "v=0\r\no=- 1 2 IN IP4 0.0.0.0\r\ns=-\r\nt=0 0\r\n");
    for without in [r#"{"sdp":1}"#, "{}", "[]", "7"] {
        assert_eq!(answer_outcome(&answer_in(text(without))), Outcome::Nothing, "{without}");
    }
    for reply in [Reply::Other, Reply::Broken, Reply::Closed, Reply::Late] {
        assert_eq!(answer_outcome(&answer_in(reply)), Outcome::Nothing);
    }
}

#[test]
fn a_reply_that_is_no_json_is_an_error() {
    let r = answer_in(Reply::Text("{".to_owned()));
    assert_eq!(answer_outcome(&r), Outcome::Failed);
    assert_eq!(
        r.unwrap_err().message(),
        "WebRTC: Invalid JSON: EOF while parsing an object at line 1 column 1"
    );
    let r = judge_answer(Some("bad".to_owned()), Some("v=0".to_owned()), Some("why".to_owned()));
    assert_eq!(r.unwrap_err().message(), "WebRTC: Invalid JSON: bad");
    assert_eq!(judge_answer(None, Some("v=0".to_owned()), None).unwrap().unwrap(), "v=0");
    assert!(judge_answer(None, None, None).unwrap().is_none());
}

#[test]
fn a_description_that_cannot_be_read_is_an_error() {
    let why = RTCSessionDescription::answer("v=0".to_owned()).unwrap_err().to_string();
    let r = answer_in(Reply::Text(r#"{"sdp":"v=0"}"#.to_owned()));
    assert_eq!(answer_outcome(&r), Outcome::Failed);
    assert_eq!(r.unwrap_err().message(), format!("WebRTC: {why}"));
    let r = judge_answer(None, Some("v=0".to_owned()), Some("why".to_owned()));
    assert_eq!(r.unwrap_err().message(), "WebRTC: why");
}

#[test]
fn a_plain_offer_has_no_number() {
    assert_eq!(plain_offer("a\nb"), r#"{"sdp":"a\nb","type":"offer"}"#);
    assert_eq!(offer_send_error("gone").message(), "WebRTC: Failed to send offer: gone");
}
