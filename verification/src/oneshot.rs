//! A single peer connection for clients that send no token: one offer, one
//! answer, one stream, and nothing is negotiated again.
//!
//! [`next_step`] says what to do next, given how the last thing went.

use crate::error::{Error, Result};
use crate::json::{find_fault, json_fault, quote, quoted, read_string, string_member, text_of};
use crate::signaling::{find_sdp_fault, sdp_fault};
use crate::text::join;
use vstd::prelude::*;

verus! {

/// How long candidates may take to be found, in seconds.
pub const GATHERING_SECS: u64 = 3;

/// How long the answer may take, in seconds.
pub const ONESHOT_ANSWER_SECS: u64 = 5;

/// How long the data channel may take to open, in seconds.
pub const ONESHOT_CHANNEL_SECS: u64 = 10;

/// What to do next.
#[derive(Clone, Copy, Debug, PartialEq, Eq, Structural)]
pub enum Step {
    /// Answer the upgrade request.
    Upgrade,
    /// Make an offer, and wait this long for the candidates that go into it.
    Offer { gathering_secs: u64 },
    /// Send the offer.
    SendOffer,
    /// Wait for one message.
    AwaitAnswer { timeout_secs: u64 },
    /// Hand the answer's description to the connection.
    Apply,
    /// Wait for the data channel to open.
    AwaitChannel { timeout_secs: u64 },
    /// Capture and stream.
    Stream,
    /// Stop the capture thread.
    StopCapture,
    /// The connection is over.
    Finish,
    /// The connection is over with an error.
    Fail,
}

/// How the last thing went.
#[derive(Clone, Copy, Debug, PartialEq, Eq, Structural)]
pub enum Outcome {
    /// It was done, or what was waited for came.
    Done,
    /// It went wrong.
    Failed,
    /// What was waited for did not come.
    Nothing,
}

/// What comes after a step that was done.
pub open spec fn after(step: Step) -> Step {
    match step {
        Step::Upgrade => Step::Offer { gathering_secs: GATHERING_SECS },
        Step::Offer { .. } => Step::SendOffer,
        Step::SendOffer => Step::AwaitAnswer { timeout_secs: ONESHOT_ANSWER_SECS },
        Step::AwaitAnswer { .. } => Step::Apply,
        Step::Apply => Step::AwaitChannel { timeout_secs: ONESHOT_CHANNEL_SECS },
        Step::AwaitChannel { .. } => Step::Stream,
        Step::Stream => Step::StopCapture,
        Step::StopCapture => Step::Finish,
        Step::Finish => Step::Finish,
        Step::Fail => Step::Fail,
    }
}

/// What comes after a step. A stream that breaks still has to be stopped.
pub open spec fn following(step: Step, outcome: Outcome) -> Step {
    if step is Stream || step is StopCapture || step is Finish || step is Fail {
        after(step)
    } else {
        match outcome {
            Outcome::Done => after(step),
            Outcome::Failed => Step::Fail,
            Outcome::Nothing => Step::Finish,
        }
    }
}

/// What comes after several steps.
pub open spec fn following_all(step: Step, outcomes: Seq<Outcome>) -> Step
    decreases outcomes.len(),
{
    if outcomes.len() == 0 {
        step
    } else {
        following(following_all(step, outcomes.drop_last()), outcomes.last())
    }
}

/// What to do after a step.
pub fn next_step(step: Step, outcome: Outcome) -> (next: Step)
    ensures
        next == following(step, outcome),
{
    match step {
        Step::Stream => Step::StopCapture,
        Step::StopCapture => Step::Finish,
        Step::Finish => Step::Finish,
        Step::Fail => Step::Fail,
        _ => match outcome {
            Outcome::Failed => Step::Fail,
            Outcome::Nothing => Step::Finish,
            Outcome::Done => match step {
                Step::Upgrade => Step::Offer { gathering_secs: GATHERING_SECS },
                Step::Offer { .. } => Step::SendOffer,
                Step::SendOffer => Step::AwaitAnswer { timeout_secs: ONESHOT_ANSWER_SECS },
                Step::AwaitAnswer { .. } => Step::Apply,
                Step::Apply => Step::AwaitChannel { timeout_secs: ONESHOT_CHANNEL_SECS },
                _ => Step::Stream,
            },
        },
    }
}

/// An offer without a number, as JSON.
pub open spec fn plain_offer_json(sdp: Seq<char>) -> Seq<char> {
    "{\"sdp\":"@ + quoted(sdp) + ",\"type\":\"offer\"}"@
}

/// The message that makes an offer.
pub fn plain_offer(sdp: &str) -> (json: String)
    ensures
        json@ == plain_offer_json(sdp@),
{
    let s: String = join("{\"sdp\":", quote(sdp).as_str());
    join(s.as_str(), ",\"type\":\"offer\"}")
}

/// The error of an offer that could not be sent.
pub fn offer_send_error(why: &str) -> (e: Error)
    ensures
        e matches Error::WebRTC(text) && text@ == "Failed to send offer: "@ + why@,
{
    Error::WebRTC(join("Failed to send offer: ", why))
}

/// What came in reply to an offer.
pub enum Reply {
    Text(String),
    /// A message that is no text.
    Other,
    /// The connection broke.
    Broken,
    /// The connection was closed.
    Closed,
    /// Nothing came in time.
    Late,
}

/// Whether `r` is what a reply's JSON gives: an error where it is no JSON, or
/// where its description has a flaw, else its description, if it has one.
pub open spec fn judged(
    fault: Option<Seq<char>>,
    sdp: Option<Seq<char>>,
    flaw: Option<Seq<char>>,
    r: Result<Option<String>>,
) -> bool {
    match (fault, sdp, flaw) {
        (Some(f), _, _) => r matches Err(Error::WebRTC(text)) && text@ == "Invalid JSON: "@ + f,
        (None, Some(_), Some(w)) => r matches Err(Error::WebRTC(text)) && text@ == w,
        _ => r matches Ok(answer) && text_of(answer) == sdp,
    }
}

/// The flaw of a description, where there is a description.
pub open spec fn flaw_of(sdp: Option<Seq<char>>) -> Option<Seq<char>> {
    match sdp {
        Some(s) => sdp_fault(s),
        None => None,
    }
}

/// The description in a reply, given what is wrong with its JSON, what its member
/// `sdp` holds, and what is wrong with that.
pub fn judge_answer(fault: Option<String>, sdp: Option<String>, flaw: Option<String>) -> (r: Result<
    Option<String>,
>)
    ensures
        judged(text_of(fault), text_of(sdp), text_of(flaw), r),
{
    if let Some(f) = fault {
        return Err(Error::WebRTC(join("Invalid JSON: ", f.as_str())));
    }
    match sdp {
        Some(s) => match flaw {
            Some(w) => Err(Error::WebRTC(w)),
            None => Ok(Some(s)),
        },
        None => Ok(None),
    }
}

/// The description in the reply to an offer. Only text can hold one; whatever
/// else came ends the connection without an error.
pub fn answer_in(reply: Reply) -> (r: Result<Option<String>>)
    ensures
        match reply {
            Reply::Text(text) => judged(
                json_fault(text@),
                string_member(text@, "sdp"@),
                flaw_of(string_member(text@, "sdp"@)),
                r,
            ),
            _ => r matches Ok(None),
        },
{
    match reply {
        Reply::Text(text) => {
            let fault: Option<String> = find_fault(text.as_str());
            let sdp: Option<String> = read_string(text.as_str(), "sdp");
            let flaw: Option<String> = match &sdp {
                Some(s) => find_sdp_fault(s.as_str()),
                None => None,
            };
            judge_answer(fault, sdp, flaw)
        },
        _ => Ok(None),
    }
}

/// How the wait for an answer went.
pub fn answer_outcome(r: &Result<Option<String>>) -> (outcome: Outcome)
    ensures
        outcome == (match r {
            Ok(Some(_)) => Outcome::Done,
            Ok(None) => Outcome::Nothing,
            Err(_) => Outcome::Failed,
        }),
{
    match r {
        Ok(Some(_)) => Outcome::Done,
        Ok(None) => Outcome::Nothing,
        Err(_) => Outcome::Failed,
    }
}

/// How many steps are left until the connection is over, at most.
spec fn steps_left(step: Step) -> nat {
    match step {
        Step::Upgrade => 8,
        Step::Offer { .. } => 7,
        Step::SendOffer => 6,
        Step::AwaitAnswer { .. } => 5,
        Step::Apply => 4,
        Step::AwaitChannel { .. } => 3,
        Step::Stream => 2,
        Step::StopCapture => 1,
        Step::Finish => 0,
        Step::Fail => 0,
    }
}

/// A stream begins only once an answer was applied and the channel is open, and
/// every step on the way was done.
pub proof fn law_stream_needs_every_step(outcomes: Seq<Outcome>)
    requires
        following_all(Step::Upgrade, outcomes) is Stream,
    ensures
        outcomes == Seq::new(6, |k: int| Outcome::Done),
{
    lemma_counted(outcomes);
}

/// As long as a stream has not begun or been given up, every outcome was good,
/// and each took one step.
proof fn lemma_counted(outcomes: Seq<Outcome>)
    ensures
        steps_left(following_all(Step::Upgrade, outcomes)) >= 2 ==> {
            &&& steps_left(following_all(Step::Upgrade, outcomes)) == 8 - outcomes.len()
            &&& outcomes =~= Seq::new(outcomes.len(), |k: int| Outcome::Done)
        },
    decreases outcomes.len(),
{
    if outcomes.len() > 0 {
        lemma_counted(outcomes.drop_last());
        assert(outcomes =~= outcomes.drop_last().push(outcomes.last()));
    }
}

/// A capture that was begun is stopped, however the stream ended.
pub proof fn law_stream_is_stopped(outcome: Outcome)
    ensures
        following(Step::Stream, outcome) == Step::StopCapture,
{
}

/// A connection that is over stays over.
pub proof fn law_oneshot_end_is_final(step: Step, outcomes: Seq<Outcome>)
    requires
        step is Finish || step is Fail,
    ensures
        following_all(step, outcomes) == step,
    decreases outcomes.len(),
{
    if outcomes.len() > 0 {
        law_oneshot_end_is_final(step, outcomes.drop_last());
    }
}

/// A connection is over after eight steps, however they go.
pub proof fn law_oneshot_ends(outcomes: Seq<Outcome>)
    requires
        outcomes.len() >= 8,
    ensures
        following_all(Step::Upgrade, outcomes) is Finish || following_all(
            Step::Upgrade,
            outcomes,
        ) is Fail,
{
    lemma_bounded(outcomes);
}

proof fn lemma_bounded(outcomes: Seq<Outcome>)
    ensures
        steps_left(following_all(Step::Upgrade, outcomes)) <= (if outcomes.len() >= 8 {
            0
        } else {
            8 - outcomes.len()
        }),
    decreases outcomes.len(),
{
    if outcomes.len() > 0 {
        lemma_bounded(outcomes.drop_last());
    }
}

/// Three seconds are given for the candidates, five for the answer and ten for the channel,
/// each once what it waits on is done.
pub proof fn law_oneshot_waits_in_turn(step: Step)
    ensures
        following(step, Outcome::Done) matches Step::Offer { gathering_secs } ==> step is Upgrade
            && gathering_secs == 3,
        following(step, Outcome::Done) matches Step::AwaitAnswer { timeout_secs } ==> step
            is SendOffer && timeout_secs == 5,
        following(step, Outcome::Done) matches Step::AwaitChannel { timeout_secs } ==> step is Apply
            && timeout_secs == 10,
        following(step, Outcome::Done) is SendOffer <==> step is Offer,
        following(step, Outcome::Done) is Apply <==> step is AwaitAnswer,
        following(step, Outcome::Done) is Stream <==> step is AwaitChannel,
        step is Upgrade ==> following(step, Outcome::Done) is Offer,
        step is SendOffer ==> following(step, Outcome::Done) is AwaitAnswer,
        step is Apply ==> following(step, Outcome::Done) is AwaitChannel,
{
}

/// Before the stream, what fails ends the connection with an error, and what does not come
/// ends it without one.
pub proof fn law_oneshot_failures_end_it(step: Step)
    requires
        !(step is Stream || step is StopCapture || step is Finish || step is Fail),
    ensures
        following(step, Outcome::Failed) is Fail,
        following(step, Outcome::Nothing) is Finish,
{
}

/// A reply holds an answer where it is JSON with a good description, and is an error where
/// it is no JSON or its description is bad.
pub proof fn law_only_good_descriptions_are_answers(
    fault: Option<Seq<char>>,
    sdp: Option<Seq<char>>,
    flaw: Option<Seq<char>>,
    r: Result<Option<String>>,
)
    requires
        judged(fault, sdp, flaw, r),
    ensures
        r is Err <==> fault is Some || (sdp is Some && flaw is Some),
        r matches Ok(Some(answer)) ==> sdp == Some(answer@),
        r matches Ok(None) ==> sdp is None,
{
}

/// A plain offer tells its description: two that differ in it differ.
pub proof fn law_plain_offer_tells_its_description(sdp: Seq<char>, other: Seq<char>)
    requires
        plain_offer_json(sdp) == plain_offer_json(other),
    ensures
        sdp == other,
{
    crate::text::lemma_between_is_the_same(
        "{\"sdp\":"@,
        quoted(sdp),
        quoted(other),
        ",\"type\":\"offer\"}"@,
    );
    crate::json::law_quoting_keeps_the_text(sdp, other);
}

} // verus!
