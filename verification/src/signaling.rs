//! The messages by which a peer connection is negotiated.
//!
//! Every message carries the number of its negotiation: messages of an earlier
//! one may still arrive and are passed over.

use crate::error::Error;
use crate::json::{
    law_quoting_keeps_the_text, number_member, quote, quoted, read_number, read_string,
    string_member, text_of,
};
use crate::text::{
    decimal, decimal_text, holds_part, join, law_decimals_tell_numbers_apart,
    lemma_between_is_the_same, same_text,
};
use vstd::prelude::*;
use webrtc::ice_transport::ice_candidate::RTCIceCandidateInit;
use webrtc::peer_connection::sdp::session_description::RTCSessionDescription;

verus! {

/// An offer, as JSON.
pub open spec fn offer_text(sdp: Seq<char>, session: nat) -> Seq<char> {
    "{\"sdp\":"@ + quoted(sdp) + ",\"session\":"@ + decimal(session) + ",\"type\":\"offer\"}"@
}

/// The message that offers a connection.
pub fn offer_message(sdp: &str, session: u64) -> (json: String)
    ensures
        json@ == offer_text(sdp@, session as nat),
{
    let q: String = quote(sdp);
    let n: String = decimal_text(session);
    let s: String = join("{\"sdp\":", q.as_str());
    let s: String = join(s.as_str(), ",\"session\":");
    let s: String = join(s.as_str(), n.as_str());
    join(s.as_str(), ",\"type\":\"offer\"}")
}

/// A way to reach a peer, as candidates are exchanged.
#[derive(Clone, Debug, PartialEq, Eq)]
pub struct Candidate {
    pub candidate: String,
    pub sdp_mid: Option<String>,
    pub sdp_mline_index: Option<u16>,
    pub username_fragment: Option<String>,
}

/// A candidate as a value.
pub struct CandidateText {
    pub candidate: Seq<char>,
    pub sdp_mid: Option<Seq<char>>,
    pub sdp_mline_index: Option<u16>,
    pub username_fragment: Option<Seq<char>>,
}

impl View for Candidate {
    type V = CandidateText;

    open spec fn view(&self) -> CandidateText {
        CandidateText {
            candidate: self.candidate@,
            sdp_mid: text_of(self.sdp_mid),
            sdp_mline_index: self.sdp_mline_index,
            username_fragment: text_of(self.username_fragment),
        }
    }
}

/// A candidate, where there is one, as a value.
pub open spec fn candidate_of(c: Option<Candidate>) -> Option<CandidateText> {
    match c {
        Some(c) => Some(c@),
        None => None,
    }
}

/// The candidate that the member `key` of a JSON object holds.
pub uninterp spec fn candidate_member(text: Seq<char>, key: Seq<char>) -> Option<CandidateText>;

/// `serde_json::from_str` into a `serde_json::Value`, then `Value::get`, and
/// `serde_json::from_value` into an `RTCIceCandidateInit`: the result depends on
/// the text and the key alone. There is none where the member is missing or is
/// no candidate.
#[verifier::external_body]
fn read_candidate(text: &str, key: &str) -> (c: Option<Candidate>)
    ensures
        candidate_of(c) == candidate_member(text@, key@),
{
    let json: serde_json::Value = serde_json::from_str(text).ok()?;
    let init: RTCIceCandidateInit = serde_json::from_value(json.get(key)?.clone()).ok()?;
    Some(Candidate {
        candidate: init.candidate,
        sdp_mid: init.sdp_mid,
        sdp_mline_index: init.sdp_mline_index,
        username_fragment: init.username_fragment,
    })
}

/// A text as JSON, or `null`.
pub open spec fn text_or_null(text: Option<Seq<char>>) -> Seq<char> {
    match text {
        Some(t) => quoted(t),
        None => "null"@,
    }
}

/// A number as JSON, or `null`.
pub open spec fn number_or_null(n: Option<u16>) -> Seq<char> {
    match n {
        Some(n) => decimal(n as nat),
        None => "null"@,
    }
}

/// A candidate as JSON, its members in the order of their names.
pub open spec fn candidate_json(c: CandidateText) -> Seq<char> {
    "{\"candidate\":"@ + quoted(c.candidate) + ",\"sdpMLineIndex\":"@ + number_or_null(
        c.sdp_mline_index,
    ) + ",\"sdpMid\":"@ + text_or_null(c.sdp_mid) + ",\"usernameFragment\":"@ + text_or_null(
        c.username_fragment,
    ) + "}"@
}

/// `serde_json::to_value` of an `RTCIceCandidateInit`, then the value's
/// `to_string`: an object of four members in the order of their names, `null`
/// where one is not set.
#[verifier::external_body]
fn write_candidate(c: &Candidate) -> (json: String)
    ensures
        json@ == candidate_json(c@),
{
    let init = RTCIceCandidateInit {
        candidate: c.candidate.clone(),
        sdp_mid: c.sdp_mid.clone(),
        sdp_mline_index: c.sdp_mline_index,
        username_fragment: c.username_fragment.clone(),
    };
    serde_json::to_value(init).unwrap_or_default().to_string()
}

/// A candidate in its message.
pub open spec fn candidate_text(candidate: CandidateText, session: nat) -> Seq<char> {
    "{\"candidate\":"@ + candidate_json(candidate) + ",\"session\":"@ + decimal(session)
        + ",\"type\":\"candidate\"}"@
}

/// The message that tells the client about a candidate.
pub fn candidate_message(candidate: &Candidate, session: u64) -> (json: String)
    ensures
        json@ == candidate_text(candidate@, session as nat),
{
    let c: String = write_candidate(candidate);
    let n: String = decimal_text(session);
    let s: String = join("{\"candidate\":", c.as_str());
    let s: String = join(s.as_str(), ",\"session\":");
    let s: String = join(s.as_str(), n.as_str());
    join(s.as_str(), ",\"type\":\"candidate\"}")
}

/// What is wrong with a session description that cannot be an answer.
pub uninterp spec fn sdp_fault(sdp: Seq<char>) -> Option<Seq<char>>;

/// `RTCSessionDescription::answer`: the text of its error, which depends on the
/// description alone, or `None` where it succeeds.
#[verifier::external_body]
pub(crate) fn find_sdp_fault(sdp: &str) -> (fault: Option<String>)
    ensures
        text_of(fault) == sdp_fault(sdp@),
{
    match RTCSessionDescription::answer(sdp.to_owned()) {
        Ok(_) => None,
        Err(e) => Some(e.to_string()),
    }
}

/// The error for an offer that could not be sent.
pub fn offer_error() -> (e: Error)
    ensures
        e matches Error::WebRTC(text) && text@
            == "Failed to send offer (channel full or closed)"@,
{
    Error::WebRTC("Failed to send offer (channel full or closed)".to_owned())
}

/// What a client's message means for a negotiation.
pub enum Signal {
    /// It belongs to another negotiation, or to none.
    Stale,
    /// The answer to the offer.
    Answer(String),
    /// A way to reach the client.
    Candidate(Candidate),
    /// It says nothing that is waited for.
    Ignored,
}

/// A signal as a value.
pub enum SignalText {
    Stale,
    Answer(Seq<char>),
    Candidate(CandidateText),
    Ignored,
}

impl View for Signal {
    type V = SignalText;

    open spec fn view(&self) -> SignalText {
        match *self {
            Signal::Stale => SignalText::Stale,
            Signal::Answer(sdp) => SignalText::Answer(sdp@),
            Signal::Candidate(c) => SignalText::Candidate(c@),
            Signal::Ignored => SignalText::Ignored,
        }
    }
}

/// What a message with these members means for negotiation `session`. A message
/// whose candidate is none says nothing.
pub open spec fn signal_of(
    number: Option<u64>,
    kind: Option<Seq<char>>,
    sdp: Option<Seq<char>>,
    candidate: Option<CandidateText>,
    session: u64,
) -> SignalText {
    if number != Some(session) {
        SignalText::Stale
    } else if kind == Some("answer"@) {
        match sdp {
            Some(sdp) => SignalText::Answer(sdp),
            None => SignalText::Ignored,
        }
    } else if kind == Some("candidate"@) {
        match candidate {
            Some(c) => SignalText::Candidate(c),
            None => SignalText::Ignored,
        }
    } else {
        SignalText::Ignored
    }
}

/// What a message means for negotiation `session`.
pub open spec fn signal_in(text: Seq<char>, session: u64) -> SignalText {
    signal_of(
        number_member(text, "session"@),
        string_member(text, "type"@),
        string_member(text, "sdp"@),
        candidate_member(text, "candidate"@),
        session,
    )
}

/// Classifies a message by its members.
pub fn classify_members(
    number: Option<u64>,
    kind: Option<String>,
    sdp: Option<String>,
    candidate: Option<Candidate>,
    session: u64,
) -> (signal: Signal)
    ensures
        signal@ == signal_of(number, text_of(kind), text_of(sdp), candidate_of(candidate), session),
{
    proof {
        reveal_strlit("answer");
        reveal_strlit("candidate");
        assert("answer"@.len() != "candidate"@.len());
    }
    match number {
        Some(n) => {
            if n != session {
                return Signal::Stale;
            }
        },
        None => {
            return Signal::Stale;
        },
    }
    match kind {
        Some(k) => {
            if same_text(k.as_str(), "answer") {
                match sdp {
                    Some(s) => Signal::Answer(s),
                    None => Signal::Ignored,
                }
            } else if same_text(k.as_str(), "candidate") {
                match candidate {
                    Some(c) => Signal::Candidate(c),
                    None => Signal::Ignored,
                }
            } else {
                Signal::Ignored
            }
        },
        None => Signal::Ignored,
    }
}

/// Classifies a message.
pub fn classify(text: &str, session: u64) -> (signal: Signal)
    ensures
        signal@ == signal_in(text@, session),
{
    classify_members(
        read_number(text, "session"),
        read_string(text, "type"),
        read_string(text, "sdp"),
        read_candidate(text, "candidate"),
        session,
    )
}

/// What came on the client's socket.
pub enum SocketMessage {
    Text(String),
    /// A message that is neither text nor a close frame.
    Other,
    /// A close frame, an error, or the end of the connection.
    Closed,
}

/// What to do about a message while an answer is waited for.
pub enum AnswerStep {
    /// Go on waiting.
    Wait,
    /// Set the remote description, then add these candidates, in order.
    Apply { sdp: String, candidates: Vec<Candidate> },
    /// The wait is over with an error.
    Fail(Error),
    /// The client is gone.
    Stop,
}

/// Candidates as values.
pub open spec fn candidates_of(v: Seq<Candidate>) -> Seq<CandidateText> {
    v.map_values(|c: Candidate| c@)
}

/// A wait for an answer, as a value.
pub struct Wait {
    pub session: u64,
    pub deadline: int,
    pub pending: Seq<CandidateText>,
}

/// Candidates that come before the answer are kept: they can only be added
/// once the remote description is set.
pub open spec fn after_signal(w: Wait, signal: SignalText) -> Wait {
    match signal {
        SignalText::Candidate(c) => Wait { pending: w.pending.push(c), ..w },
        _ => w,
    }
}

/// What is wrong with the description that a signal carries.
pub open spec fn fault_in(signal: SignalText) -> Option<Seq<char>> {
    match signal {
        SignalText::Answer(sdp) => sdp_fault(sdp),
        _ => None,
    }
}

/// Whether this is what a wait makes of a signal: an answer is applied with the
/// candidates kept so far, one with a fault ends the wait with an error, and
/// everything else is waited over.
pub open spec fn stepped(
    w: Wait,
    signal: SignalText,
    fault: Option<Seq<char>>,
    after: Wait,
    step: AnswerStep,
) -> bool {
    match signal {
        SignalText::Answer(sdp) => match fault {
            Some(f) => {
                &&& step matches AnswerStep::Fail(Error::WebRTC(text)) && text@ == f
                &&& after == w
            },
            None => {
                &&& step matches AnswerStep::Apply { sdp: s, candidates } && s@ == sdp
                    && candidates_of(candidates@) == w.pending
                &&& after == (Wait { pending: Seq::empty(), ..w })
            },
        },
        _ => step is Wait && after == after_signal(w, signal),
    }
}

/// Waits for the answer to one offer.
pub struct AnswerWait {
    session: u64,
    deadline: u64,
    pending: Vec<Candidate>,
}

impl View for AnswerWait {
    type V = Wait;

    closed spec fn view(&self) -> Wait {
        Wait {
            session: self.session,
            deadline: self.deadline as int,
            pending: candidates_of(self.pending@),
        }
    }
}

/// Nanoseconds in a second.
pub const SECOND: u64 = 1_000_000_000;

impl AnswerWait {
    /// A wait that starts at time `now`, in nanoseconds, and takes at most
    /// `timeout_secs` seconds.
    pub fn new(session: u64, now: u64, timeout_secs: u64) -> (w: Self)
        requires
            now + timeout_secs * SECOND <= u64::MAX,
        ensures
            w@ == (Wait {
                session,
                deadline: now + timeout_secs * SECOND,
                pending: Seq::empty(),
            }),
    {
        let w = AnswerWait { session, deadline: now + timeout_secs * SECOND, pending: Vec::new() };
        assert(w@.pending =~= Seq::<CandidateText>::empty());
        w
    }

    /// Whether the wait is over.
    pub fn is_over(&self, now: u64) -> (over: bool)
        ensures
            over == (now >= self@.deadline),
    {
        now >= self.deadline
    }

    /// Takes in what a message means, and, where it is the answer, what is wrong
    /// with its description.
    pub fn take_signal(&mut self, signal: Signal, fault: Option<String>) -> (step: AnswerStep)
        ensures
            stepped(old(self)@, signal@, text_of(fault), final(self)@, step),
    {
        match signal {
            Signal::Answer(sdp) => {
                if let Some(f) = fault {
                    return AnswerStep::Fail(Error::WebRTC(f));
                }
                let mut candidates: Vec<Candidate> = Vec::new();
                candidates.append(&mut self.pending);
                assert(candidates@ =~= old(self).pending@);
                assert(self@.pending =~= Seq::<CandidateText>::empty());
                AnswerStep::Apply { sdp, candidates }
            },
            Signal::Candidate(c) => {
                let ghost before = self.pending@;
                self.pending.push(c);
                assert(candidates_of(self.pending@) =~= candidates_of(before).push(c@));
                AnswerStep::Wait
            },
            Signal::Stale => AnswerStep::Wait,
            Signal::Ignored => AnswerStep::Wait,
        }
    }

    /// Takes in what came on the socket.
    pub fn receive(&mut self, message: SocketMessage) -> (step: AnswerStep)
        ensures
            match message {
                SocketMessage::Text(text) => {
                    let signal = signal_in(text@, old(self)@.session);
                    stepped(old(self)@, signal, fault_in(signal), final(self)@, step)
                },
                SocketMessage::Other => final(self)@ == old(self)@ && step is Wait,
                SocketMessage::Closed => final(self)@ == old(self)@ && step is Stop,
            },
    {
        match message {
            SocketMessage::Text(text) => {
                let signal: Signal = classify(text.as_str(), self.session);
                let fault: Option<String> = match &signal {
                    Signal::Answer(sdp) => find_sdp_fault(sdp.as_str()),
                    _ => None,
                };
                self.take_signal(signal, fault)
            },
            SocketMessage::Other => AnswerStep::Wait,
            SocketMessage::Closed => AnswerStep::Stop,
        }
    }
}

/// A message of another negotiation, or of none, changes nothing: it is neither
/// taken for the answer nor kept as a candidate.
pub proof fn law_stale_messages_change_nothing(text: Seq<char>, w: Wait)
    requires
        number_member(text, "session"@) != Some(w.session),
    ensures
        signal_in(text, w.session) is Stale,
        after_signal(w, signal_in(text, w.session)) == w,
{
}

/// Candidates kept so far after several messages, none of them the answer.
pub open spec fn after_signals(w: Wait, signals: Seq<SignalText>) -> Wait
    decreases signals.len(),
{
    if signals.len() == 0 {
        w
    } else {
        after_signal(after_signals(w, signals.drop_last()), signals.last())
    }
}

/// Candidates that come before the answer are not lost: each is among those
/// handed out with the answer, and they keep their order.
pub proof fn law_early_candidates_are_kept(w: Wait, signals: Seq<SignalText>)
    ensures
        w.pending.is_prefix_of(after_signals(w, signals).pending),
        forall|k: int|
            0 <= k < signals.len() && (#[trigger] signals[k]) is Candidate ==> after_signals(
                w,
                signals,
            ).pending.contains(signals[k]->Candidate_0),
        after_signals(w, signals).session == w.session,
    decreases signals.len(),
{
    if signals.len() > 0 {
        let fewer = signals.drop_last();
        let before = after_signals(w, fewer);
        let now = after_signals(w, signals);
        law_early_candidates_are_kept(w, fewer);
        assert(before.pending.is_prefix_of(now.pending));
        assert forall|k: int| 0 <= k < signals.len() && (#[trigger] signals[k]) is Candidate implies now.pending.contains(
            signals[k]->Candidate_0,
        ) by {
            if k < fewer.len() {
                assert(fewer[k] == signals[k]);
                let i = choose|i: int|
                    0 <= i < before.pending.len() && before.pending[i] == signals[k]->Candidate_0;
                assert(now.pending[i] == before.pending[i]);
            } else {
                assert(now.pending[now.pending.len() - 1] == signals[k]->Candidate_0);
            }
        }
    }
}

/// A message of this negotiation is its answer where it says so and has a description, and
/// a candidate where it says so and has one. Anything else is passed over.
pub proof fn law_messages_are_told_apart(
    kind: Option<Seq<char>>,
    sdp: Option<Seq<char>>,
    candidate: Option<CandidateText>,
    session: u64,
)
    ensures
        ({
            let signal = signal_of(Some(session), kind, sdp, candidate, session);
            &&& signal is Answer <==> kind == Some("answer"@) && sdp is Some
            &&& signal matches SignalText::Answer(s) ==> sdp == Some(s)
            &&& signal is Candidate <==> kind == Some("candidate"@) && candidate is Some
            &&& signal matches SignalText::Candidate(c) ==> candidate == Some(c)
            &&& signal !is Stale
        }),
{
    reveal_strlit("answer");
    reveal_strlit("candidate");
    assert("answer"@.len() != "candidate"@.len());
}

/// The candidates among several signals, in order.
pub open spec fn candidates_among(signals: Seq<SignalText>) -> Seq<CandidateText>
    decreases signals.len(),
{
    if signals.len() == 0 {
        Seq::empty()
    } else if signals[0] is Candidate {
        seq![signals[0]->Candidate_0] + candidates_among(signals.drop_first())
    } else {
        candidates_among(signals.drop_first())
    }
}

proof fn lemma_candidates_among(signals: Seq<SignalText>, last: SignalText)
    ensures
        candidates_among(signals.push(last)) == (if last is Candidate {
            candidates_among(signals).push(last->Candidate_0)
        } else {
            candidates_among(signals)
        }),
    decreases signals.len(),
{
    let all = signals.push(last);
    if signals.len() == 0 {
        assert(all.drop_first() =~= Seq::<SignalText>::empty());
        assert(candidates_among(all.drop_first()) =~= Seq::<CandidateText>::empty());
        assert(candidates_among(all) =~= (if last is Candidate {
            candidates_among(signals).push(last->Candidate_0)
        } else {
            candidates_among(signals)
        }));
    } else {
        lemma_candidates_among(signals.drop_first(), last);
        assert(all.drop_first() =~= signals.drop_first().push(last));
        assert(all[0] == signals[0]);
        if last is Candidate && signals[0] is Candidate {
            assert(candidates_among(all) =~= candidates_among(signals).push(last->Candidate_0));
        }
    }
}

/// The answer is applied with the candidates that came before it, each once and in the
/// order they came, and with nothing else; none is left over. A bad answer is an error
/// and takes nothing.
pub proof fn law_answer_comes_with_the_candidates_before_it(
    w: Wait,
    signals: Seq<SignalText>,
    sdp: Seq<char>,
    fault: Option<Seq<char>>,
    after: Wait,
    step: AnswerStep,
)
    requires
        w.pending.len() == 0,
        stepped(after_signals(w, signals), SignalText::Answer(sdp), fault, after, step),
    ensures
        fault is None ==> {
            &&& step matches AnswerStep::Apply { sdp: s, candidates } && s@ == sdp
                && candidates_of(candidates@) == candidates_among(signals)
            &&& after.pending.len() == 0
        },
        fault is Some ==> step is Fail && after.pending == candidates_among(signals),
        after.session == w.session,
        after.deadline == w.deadline,
{
    lemma_kept_candidates(w, signals);
    assert(w.pending + candidates_among(signals) =~= candidates_among(signals));
}

proof fn lemma_kept_candidates(w: Wait, signals: Seq<SignalText>)
    ensures
        after_signals(w, signals).pending == w.pending + candidates_among(signals),
        after_signals(w, signals).session == w.session,
        after_signals(w, signals).deadline == w.deadline,
    decreases signals.len(),
{
    if signals.len() > 0 {
        lemma_kept_candidates(w, signals.drop_last());
        lemma_candidates_among(signals.drop_last(), signals.last());
        assert(signals.drop_last().push(signals.last()) =~= signals);
    }
    assert(after_signals(w, signals).pending =~= w.pending + candidates_among(signals));
}

/// An offer tells its description and its number: two offers that differ in either differ.
/// It says last that it is an offer.
pub proof fn law_offer_tells_description_and_number(sdp: Seq<char>, other: Seq<char>, n: nat, m: nat)
    ensures
        offer_text(sdp, n) == offer_text(other, n) ==> sdp == other,
        offer_text(sdp, n) == offer_text(sdp, m) ==> n == m,
        holds_part(offer_text(sdp, n), ",\"session\":"@ + decimal(n) + ",\"type\":\"offer\"}"@),
        holds_part(offer_text(sdp, n), "{\"sdp\":"@ + quoted(sdp)),
{
    let (open, mid, end) = ("{\"sdp\":"@, ",\"session\":"@, ",\"type\":\"offer\"}"@);
    let back = mid + decimal(n) + end;
    lemma_offer_parts(open + quoted(sdp), mid, decimal(n), end);
    lemma_offer_parts(open + quoted(other), mid, decimal(n), end);
    if offer_text(sdp, n) == offer_text(other, n) {
        lemma_between_is_the_same(open, quoted(sdp), quoted(other), back);
        law_quoting_keeps_the_text(sdp, other);
    }
    if offer_text(sdp, n) == offer_text(sdp, m) {
        lemma_between_is_the_same(open + quoted(sdp) + mid, decimal(n), decimal(m), end);
        law_decimals_tell_numbers_apart(n, m);
    }
}

proof fn lemma_offer_parts(front: Seq<char>, mid: Seq<char>, number: Seq<char>, end: Seq<char>)
    ensures
        front + mid + number + end == front + (mid + number + end),
        holds_part(front + mid + number + end, mid + number + end),
        holds_part(front + mid + number + end, front),
{
    let back = mid + number + end;
    assert(front + mid + number + end =~= front + back);
    lemma_standing(front, back, Seq::empty());
    assert(front + back + Seq::empty() =~= front + back);
    lemma_standing(Seq::empty(), front, back);
    assert(Seq::<char>::empty() + front + back =~= front + back);
}

proof fn lemma_standing(front: Seq<char>, part: Seq<char>, back: Seq<char>)
    ensures
        holds_part(front + part + back, part),
{
    let n = front.len() as int;
    assert((front + part + back).subrange(n, n + part.len()) =~= part);
    assert(crate::text::stands_at(front + part + back, part, n));
}

/// A candidate's message tells the candidate's own text and the number: two messages that
/// differ in either differ. It says last that it is a candidate.
pub proof fn law_candidate_message_tells_the_number(
    candidate: CandidateText,
    other: CandidateText,
    n: nat,
    m: nat,
)
    ensures
        candidate_text(candidate, n) == candidate_text(other, n) ==> candidate_json(candidate)
            == candidate_json(other),
        candidate_text(candidate, n) == candidate_text(candidate, m) ==> n == m,
        holds_part(candidate_text(candidate, n), candidate_json(candidate)),
        holds_part(
            candidate_text(candidate, n),
            ",\"session\":"@ + decimal(n) + ",\"type\":\"candidate\"}"@,
        ),
{
    let (open, mid, end) = ("{\"candidate\":"@, ",\"session\":"@, ",\"type\":\"candidate\"}"@);
    let json = candidate_json(candidate);
    let back = mid + decimal(n) + end;
    assert(candidate_text(candidate, n) =~= open + json + back);
    if candidate_text(candidate, n) == candidate_text(other, n) {
        assert(candidate_text(other, n) =~= open + candidate_json(other) + back);
        lemma_between_is_the_same(open, json, candidate_json(other), back);
    }
    if candidate_text(candidate, n) == candidate_text(candidate, m) {
        lemma_between_is_the_same(open + json + mid, decimal(n), decimal(m), end);
        law_decimals_tell_numbers_apart(n, m);
    }
    lemma_standing(open, json, back);
    lemma_standing(open + json, back, Seq::empty());
    assert(open + json + back + Seq::empty() =~= candidate_text(candidate, n));
}

} // verus!
