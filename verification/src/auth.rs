//! Authentication by the first message of a connection.
//!
//! Every connection is upgraded; the client then has to send
//! `{"type":"auth","token":"..."}` first, within [`AUTH_TIMEOUT`]. A failed
//! attempt is answered with a close frame that carries [`CLOSE_UNAUTHORIZED`],
//! so a client can tell a wrong token from an unreachable server.

use crate::json::{read_string, string_member, text_of};
use crate::text::same_text;
use subtle::ConstantTimeEq;
use vstd::prelude::*;
use vstd::utf8::encode_utf8_decode_utf8;

verus! {

/// How long a client may stay silent, in nanoseconds: 5 s.
pub const AUTH_TIMEOUT: u64 = 5_000_000_000;

/// The close code for a missing or wrong token.
pub const CLOSE_UNAUTHORIZED: u16 = 4001;

/// The reason that goes with it.
pub const CLOSE_REASON: &'static str = "unauthorized";

/// How long the answer to a failed attempt is held back, in nanoseconds: 1 s.
pub const FAILURE_DELAY: u64 = 1_000_000_000;

/// `subtle`'s `ConstantTimeEq::ct_eq` on byte slices: whether they have the
/// same length and the same bytes. That it takes the same time for all slices
/// of one length is not stated.
#[verifier::external_body]
fn equal_bytes(a: &[u8], b: &[u8]) -> (same: bool)
    ensures
        same == (a@ == b@),
{
    a.ct_eq(b).into()
}

/// Whether the token provided is the one expected. Only its length can be told
/// from how long this takes.
pub fn token_matches(expected: &str, provided: &str) -> (same: bool)
    ensures
        same == (expected@ == provided@),
{
    proof {
        encode_utf8_decode_utf8(expected@);
        encode_utf8_decode_utf8(provided@);
    }
    equal_bytes(expected.as_bytes(), provided.as_bytes())
}

/// The token of a message whose `type` and `token` members are these.
pub open spec fn offered_token(kind: Option<Seq<char>>, token: Option<Seq<char>>) -> Option<
    Seq<char>,
> {
    if kind == Some("auth"@) {
        token
    } else {
        None
    }
}

/// The token that a message carries.
pub open spec fn token_in(text: Seq<char>) -> Option<Seq<char>> {
    offered_token(string_member(text, "type"@), string_member(text, "token"@))
}

/// Picks the token out of a message's `type` and `token` members: there is one
/// only in a message of type `auth`.
pub fn auth_token(kind: Option<String>, token: Option<String>) -> (r: Option<String>)
    ensures
        text_of(r) == offered_token(text_of(kind), text_of(token)),
{
    match kind {
        Some(k) => {
            if same_text(k.as_str(), "auth") {
                token
            } else {
                None
            }
        },
        None => None,
    }
}

/// The token of an auth message, or `None` if `text` is no such message.
pub fn parse_auth_message(text: &str) -> (token: Option<String>)
    ensures
        text_of(token) == token_in(text@),
{
    auth_token(read_string(text, "type"), read_string(text, "token"))
}

/// How an attempt to authenticate ends.
#[derive(Clone, Copy, Debug, PartialEq, Eq, Structural)]
pub enum AuthOutcome {
    Accepted,
    /// Wrong token, or a first message that was no auth message at all.
    Rejected,
    /// Nothing came in time, or the connection was closed or broke.
    Gone,
}

/// What came first on a connection.
pub enum FirstMessage {
    Text(String),
    /// A message that is neither text nor a close frame.
    Other,
    Close,
    /// Nothing in time, an error, or the end of the connection.
    Nothing,
}

/// The outcome for the token that a text message carries.
pub open spec fn outcome_for(token: Option<Seq<char>>, expected: Seq<char>) -> AuthOutcome {
    if token == Some(expected) {
        AuthOutcome::Accepted
    } else {
        AuthOutcome::Rejected
    }
}

/// The outcome for a first message.
pub open spec fn outcome_of(first: FirstMessage, expected: Seq<char>) -> AuthOutcome {
    match first {
        FirstMessage::Text(text) => outcome_for(token_in(text@), expected),
        FirstMessage::Other => AuthOutcome::Rejected,
        FirstMessage::Close => AuthOutcome::Gone,
        FirstMessage::Nothing => AuthOutcome::Gone,
    }
}

/// Judges the token of a text message.
pub fn judge_token(token: Option<String>, expected: &str) -> (outcome: AuthOutcome)
    ensures
        outcome == outcome_for(text_of(token), expected@),
{
    match token {
        Some(t) => {
            if token_matches(expected, t.as_str()) {
                AuthOutcome::Accepted
            } else {
                AuthOutcome::Rejected
            }
        },
        None => AuthOutcome::Rejected,
    }
}

/// Checks what came first on a connection against the expected token.
pub fn authenticate(first: FirstMessage, expected: &str) -> (outcome: AuthOutcome)
    ensures
        outcome == outcome_of(first, expected@),
{
    match first {
        FirstMessage::Text(text) => judge_token(parse_auth_message(text.as_str()), expected),
        FirstMessage::Other => AuthOutcome::Rejected,
        FirstMessage::Close => AuthOutcome::Gone,
        FirstMessage::Nothing => AuthOutcome::Gone,
    }
}

/// A client is let in only with an auth message that carries exactly the
/// expected token, and then always.
pub proof fn law_only_the_exact_token_is_accepted(first: FirstMessage, expected: Seq<char>)
    ensures
        outcome_of(first, expected) == AuthOutcome::Accepted <==> (first matches FirstMessage::Text(
            text,
        ) && string_member(text@, "type"@) == Some("auth"@) && string_member(text@, "token"@)
            == Some(expected)),
{
}

/// A client that says anything else is rejected, and one that says nothing is gone.
pub proof fn law_only_silence_is_gone(first: FirstMessage, expected: Seq<char>)
    ensures
        outcome_of(first, expected) == AuthOutcome::Gone <==> first is Close || first is Nothing,
        outcome_of(first, expected) == AuthOutcome::Rejected <==> (first is Text || first is Other)
            && outcome_of(first, expected) != AuthOutcome::Accepted,
{
}

/// A token stands in messages of the right type only, and is taken as it stands there.
pub proof fn law_token_needs_the_auth_type(kind: Option<Seq<char>>, token: Option<Seq<char>>)
    ensures
        offered_token(kind, token) is Some ==> kind == Some("auth"@),
        kind == Some("auth"@) ==> offered_token(kind, token) == token,
        offered_token(None, token) is None,
{
}

} // verus!
