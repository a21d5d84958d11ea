//! Reading and writing the JSON of the signaling messages.

use vstd::prelude::*;

verus! {

/// The string that the member `key` of a JSON object holds.
pub uninterp spec fn string_member(text: Seq<char>, key: Seq<char>) -> Option<Seq<char>>;

/// The unsigned number that the member `key` of a JSON object holds.
pub uninterp spec fn number_member(text: Seq<char>, key: Seq<char>) -> Option<u64>;

/// What is wrong with a text that is no JSON.
pub uninterp spec fn json_fault(text: Seq<char>) -> Option<Seq<char>>;

/// A string as a value.
pub open spec fn text_of(s: Option<String>) -> Option<Seq<char>> {
    match s {
        Some(s) => Some(s@),
        None => None,
    }
}

/// `serde_json::from_str` into a `serde_json::Value`, then `Value::get` and
/// `Value::as_str`: the result depends on the text and the key alone. There is
/// none if the text is no JSON, no object, has no such member, or the member is
/// no string.
#[verifier::external_body]
pub(crate) fn read_string(text: &str, key: &str) -> (value: Option<String>)
    ensures
        text_of(value) == string_member(text@, key@),
{
    let json: serde_json::Value = serde_json::from_str(text).ok()?;
    Some(json.get(key)?.as_str()?.to_owned())
}

/// `serde_json::from_str` into a `serde_json::Value`, then `Value::get` and
/// `Value::as_u64`: the result depends on the text and the key alone. There is
/// none where the member is no integer of that range.
#[verifier::external_body]
pub(crate) fn read_number(text: &str, key: &str) -> (value: Option<u64>)
    ensures
        value == number_member(text@, key@),
{
    let json: serde_json::Value = serde_json::from_str(text).ok()?;
    json.get(key)?.as_u64()
}

/// `serde_json::from_str` into a `serde_json::Value`: the text of its error,
/// which depends on the text alone, or `None` where it succeeds.
#[verifier::external_body]
pub(crate) fn find_fault(text: &str) -> (fault: Option<String>)
    ensures
        text_of(fault) == json_fault(text@),
{
    match serde_json::from_str::<serde_json::Value>(text) {
        Ok(_) => None,
        Err(e) => Some(e.to_string()),
    }
}

/// A hexadecimal digit.
pub open spec fn hex_digit(d: int) -> char {
    if d < 10 {
        ('0' as int + d) as char
    } else {
        ('a' as int + d - 10) as char
    }
}

/// One character of a JSON string: quotes, backslashes and control characters
/// are escaped.
pub open spec fn escaped(c: char) -> Seq<char> {
    if c == '"' || c == '\\' {
        seq!['\\', c]
    } else if c as u32 == 8 {
        seq!['\\', 'b']
    } else if c as u32 == 9 {
        seq!['\\', 't']
    } else if c as u32 == 10 {
        seq!['\\', 'n']
    } else if c as u32 == 12 {
        seq!['\\', 'f']
    } else if c as u32 == 13 {
        seq!['\\', 'r']
    } else if (c as u32) < 32 {
        seq!['\\', 'u', '0', '0', hex_digit(c as int / 16), hex_digit(c as int % 16)]
    } else {
        seq![c]
    }
}

/// The characters of a JSON string, without its quotes.
pub open spec fn escaped_text(text: Seq<char>) -> Seq<char>
    decreases text.len(),
{
    if text.len() == 0 {
        Seq::empty()
    } else {
        escaped_text(text.drop_last()) + escaped(text.last())
    }
}

/// A text as a JSON string.
pub open spec fn quoted(text: Seq<char>) -> Seq<char> {
    seq!['"'] + escaped_text(text) + seq!['"']
}

/// `serde_json::to_string` of a string: its characters between quotes, with
/// quotes, backslashes and the characters below 32 escaped.
#[verifier::external_body]
pub(crate) fn quote(text: &str) -> (json: String)
    ensures
        json@ == quoted(text@),
{
    serde_json::to_string(text).unwrap_or_default()
}

/// An escaped character does not contain a bare quote: a quote in it stands
/// behind a backslash, and it is never empty.
proof fn lemma_escaped(c: char)
    ensures
        escaped(c).len() >= 1,
        escaped(c)[0] != '"',
        escaped(c)[0] == '\\' <==> escaped(c).len() >= 2,
{
    assert('"' as u32 == 34);
    assert('\\' as u32 == 92);
}

/// Two texts with the same JSON string are the same text.
pub proof fn law_quoting_keeps_the_text(a: Seq<char>, b: Seq<char>)
    requires
        quoted(a) == quoted(b),
    ensures
        a == b,
{
    let x = quoted(a);
    assert(x.subrange(1, x.len() - 1) =~= escaped_text(a));
    let y = quoted(b);
    assert(y.subrange(1, y.len() - 1) =~= escaped_text(b));
    lemma_escaped_text_injective(a, b);
}

/// Text escaped from the front.
spec fn escaped_front(text: Seq<char>) -> Seq<char>
    decreases text.len(),
{
    if text.len() == 0 {
        Seq::empty()
    } else {
        escaped(text[0]) + escaped_front(text.drop_first())
    }
}

proof fn lemma_escaped_front(text: Seq<char>)
    ensures
        escaped_text(text) == escaped_front(text),
    decreases text.len(),
{
    if text.len() == 1 {
        assert(text.drop_last() =~= text.drop_first());
        assert(escaped_text(text.drop_last()) =~= Seq::<char>::empty());
        assert(escaped_front(text.drop_first()) =~= Seq::<char>::empty());
        assert(escaped_text(text) =~= escaped_front(text));
    } else if text.len() > 1 {
        let middle = text.drop_first().drop_last();
        lemma_escaped_front(text.drop_last());
        lemma_escaped_front(text.drop_first());
        lemma_escaped_front(middle);
        assert(text.drop_last().drop_first() =~= middle);
        assert(text.drop_first().last() == text.last());
        assert(escaped_text(text) =~= escaped_front(text));
    }
}

proof fn lemma_escaped_text_injective(a: Seq<char>, b: Seq<char>)
    requires
        escaped_text(a) == escaped_text(b),
    ensures
        a == b,
{
    lemma_escaped_front(a);
    lemma_escaped_front(b);
    lemma_escaped_front_injective(a, b);
}

proof fn lemma_same_escape(a: char, b: char)
    requires
        escaped(a) == escaped(b),
    ensures
        a == b,
{
    let x = escaped(a);
    let y = escaped(b);
    assert(x[0] == y[0] && x.len() == y.len());
    if x.len() >= 2 {
        assert(x[1] == y[1]);
    }
    if x.len() >= 6 {
        assert(x[4] == y[4] && x[5] == y[5]);
    }
}

proof fn lemma_escaped_front_injective(a: Seq<char>, b: Seq<char>)
    requires
        escaped_front(a) == escaped_front(b),
    ensures
        a == b,
    decreases a.len(),
{
    if a.len() == 0 {
        if b.len() > 0 {
            lemma_escaped(b[0]);
        }
        assert(a =~= b);
    } else {
        lemma_escaped(a[0]);
        assert(escaped_front(a).len() >= 1);
        assert(b.len() > 0);
        lemma_escaped(b[0]);
        let text = escaped_front(a);
        let x = escaped(a[0]);
        let y = escaped(b[0]);
        assert(text[0] == x[0] && text[0] == y[0]);
        if x.len() >= 2 {
            assert(text[1] == x[1] && text[1] == y[1]);
        }
        assert(x.len() == y.len());
        assert(x =~= text.take(x.len() as int));
        assert(y =~= text.take(x.len() as int));
        lemma_same_escape(a[0], b[0]);
        assert(escaped_front(a.drop_first()) =~= text.skip(x.len() as int));
        assert(escaped_front(b.drop_first()) =~= text.skip(x.len() as int));
        lemma_escaped_front_injective(a.drop_first(), b.drop_first());
        assert(a =~= seq![a[0]] + a.drop_first());
        assert(b =~= seq![b[0]] + b.drop_first());
    }
}

} // verus!
