//! Characters and pieces of text.

use vstd::prelude::*;

verus! {

/// Unicode's `White_Space` characters.
pub open spec fn white_space(c: char) -> bool {
    let u = c as u32;
    ||| 9 <= u <= 13
    ||| u == 32
    ||| u == 0x85
    ||| u == 0xa0
    ||| u == 0x1680
    ||| 0x2000 <= u <= 0x200a
    ||| u == 0x2028
    ||| u == 0x2029
    ||| u == 0x202f
    ||| u == 0x205f
    ||| u == 0x3000
}

pub fn is_white_space(c: char) -> (b: bool)
    ensures
        b == white_space(c),
{
    let u: u32 = c as u32;
    (9 <= u && u <= 13) || u == 32 || u == 0x85 || u == 0xa0 || u == 0x1680 || (0x2000 <= u && u
        <= 0x200a) || u == 0x2028 || u == 0x2029 || u == 0x202f || u == 0x205f || u == 0x3000
}

/// `text` without white space in front.
pub open spec fn trim_start(text: Seq<char>) -> Seq<char>
    decreases text.len(),
{
    if text.len() > 0 && white_space(text[0]) {
        trim_start(text.drop_first())
    } else {
        text
    }
}

/// `text` without white space at the end.
pub open spec fn trim_end(text: Seq<char>) -> Seq<char>
    decreases text.len(),
{
    if text.len() > 0 && white_space(text.last()) {
        trim_end(text.drop_last())
    } else {
        text
    }
}

/// `text` without white space around it.
pub open spec fn trim(text: Seq<char>) -> Seq<char> {
    trim_end(trim_start(text))
}

/// Where `c` first occurs in `text`, from position `from` on.
pub open spec fn find_from(text: Seq<char>, c: char, from: int) -> Option<int>
    decreases text.len() - from,
{
    if from >= text.len() {
        None
    } else if text[from] == c {
        Some(from)
    } else {
        find_from(text, c, from + 1)
    }
}

/// Where `c` first occurs in `text`.
pub open spec fn find(text: Seq<char>, c: char) -> Option<int> {
    find_from(text, c, 0)
}

/// Where `c` last occurs before position `to` of `text`.
pub open spec fn find_last_before(text: Seq<char>, c: char, to: int) -> Option<int>
    decreases to,
{
    if to <= 0 {
        None
    } else if text[to - 1] == c {
        Some(to - 1)
    } else {
        find_last_before(text, c, to - 1)
    }
}

/// Where `c` last occurs in `text`.
pub open spec fn find_last(text: Seq<char>, c: char) -> Option<int> {
    find_last_before(text, c, text.len() as int)
}

/// Everything before position `i`.
pub open spec fn before(text: Seq<char>, i: int) -> Seq<char> {
    text.subrange(0, i)
}

/// Everything after position `i`.
pub open spec fn after(text: Seq<char>, i: int) -> Seq<char> {
    text.subrange(i + 1, text.len() as int)
}

/// The pieces of `text` from position `from` on, between occurrences of `c`.
pub open spec fn pieces_from(text: Seq<char>, c: char, from: int) -> Seq<Seq<char>>
    decreases text.len() - from,
    via pieces_from_shrinks
{
    match find_from(text, c, from) {
        Some(i) => seq![text.subrange(from, i)] + pieces_from(text, c, i + 1),
        None => seq![text.subrange(from, text.len() as int)],
    }
}

#[via_fn]
proof fn pieces_from_shrinks(text: Seq<char>, c: char, from: int) {
    lemma_find_from(text, c, from);
}

/// The pieces of `text` between occurrences of `c`: one more than there are
/// occurrences.
pub open spec fn pieces(text: Seq<char>, c: char) -> Seq<Seq<char>> {
    pieces_from(text, c, 0)
}

/// A character found lies where the search went.
pub proof fn lemma_find_from(text: Seq<char>, c: char, from: int)
    ensures
        find_from(text, c, from) matches Some(i) ==> from <= i < text.len() && text[i] == c
            && forall|j: int| from <= j < i ==> text[j] != c,
        find_from(text, c, from) is None ==> forall|j: int|
            from <= j < text.len() ==> text[j] != c,
    decreases text.len() - from,
{
    if from < text.len() && text[from] != c {
        lemma_find_from(text, c, from + 1);
    }
}

/// A character found from the end lies where the search went.
pub proof fn lemma_find_last_before(text: Seq<char>, c: char, to: int)
    requires
        to <= text.len(),
    ensures
        find_last_before(text, c, to) matches Some(i) ==> 0 <= i < to && text[i] == c
            && forall|j: int| i < j < to ==> text[j] != c,
        find_last_before(text, c, to) is None ==> forall|j: int| 0 <= j < to ==> text[j] != c,
    decreases to,
{
    if to > 0 && text[to - 1] != c {
        lemma_find_last_before(text, c, to - 1);
    }
}

/// The characters of a string.
pub fn chars_of(text: &str) -> (chars: Vec<char>)
    ensures
        chars@ == text@,
{
    let mut chars: Vec<char> = Vec::new();
    for c in it: text.chars()
        invariant
            it.seq() == text@,
            chars@ == text@.take(it.index() as int),
    {
        chars.push(c);
        assert(chars@ =~= text@.take(it.index() + 1));
    }
    assert(text@.take(text@.len() as int) =~= text@);
    chars
}

/// Finds `c` from position `from` on.
pub fn find_char(chars: &Vec<char>, c: char, from: usize) -> (at: Option<usize>)
    requires
        from <= chars@.len(),
    ensures
        match at {
            Some(i) => find_from(chars@, c, from as int) == Some(i as int) && from <= i
                < chars@.len(),
            None => find_from(chars@, c, from as int) is None,
        },
{
    let mut i: usize = from;
    while i < chars.len()
        invariant
            from <= i <= chars@.len(),
            find_from(chars@, c, from as int) == find_from(chars@, c, i as int),
        decreases chars@.len() - i,
    {
        if chars[i] == c {
            return Some(i);
        }
        i += 1;
    }
    None
}

/// Finds the last `c`.
pub fn find_last_char(chars: &Vec<char>, c: char) -> (at: Option<usize>)
    ensures
        match at {
            Some(i) => find_last(chars@, c) == Some(i as int) && i < chars@.len(),
            None => find_last(chars@, c) is None,
        },
{
    let mut i: usize = chars.len();
    while i > 0
        invariant
            i <= chars@.len(),
            find_last(chars@, c) == find_last_before(chars@, c, i as int),
        decreases i,
    {
        if chars[i - 1] == c {
            return Some(i - 1);
        }
        i -= 1;
    }
    None
}

/// Where the text of `chars[from..to]` starts and ends once white space around
/// it is left out.
pub fn trim_range(chars: &Vec<char>, from: usize, to: usize) -> (range: (usize, usize))
    requires
        from <= to <= chars@.len(),
    ensures
        from <= range.0 <= range.1 <= to,
        chars@.subrange(range.0 as int, range.1 as int) == trim(
            chars@.subrange(from as int, to as int),
        ),
{
    let mut start: usize = from;
    while start < to && is_white_space(chars[start])
        invariant
            from <= start <= to <= chars@.len(),
            trim_start(chars@.subrange(from as int, to as int)) == trim_start(
                chars@.subrange(start as int, to as int),
            ),
        decreases to - start,
    {
        assert(chars@.subrange(start as int, to as int).drop_first() =~= chars@.subrange(
            start + 1,
            to as int,
        ));
        start += 1;
    }
    assert(trim_start(chars@.subrange(start as int, to as int)) == chars@.subrange(
        start as int,
        to as int,
    ));
    let mut end: usize = to;
    while end > start && is_white_space(chars[end - 1])
        invariant
            start <= end <= to <= chars@.len(),
            trim_end(chars@.subrange(start as int, to as int)) == trim_end(
                chars@.subrange(start as int, end as int),
            ),
        decreases end - start,
    {
        assert(chars@.subrange(start as int, end as int).drop_last() =~= chars@.subrange(
            start as int,
            end - 1,
        ));
        end -= 1;
    }
    (start, end)
}

/// The piece of a text from character `from` up to character `to`.
pub fn piece(text: &str, from: usize, to: usize) -> (s: String)
    requires
        from <= to <= text@.len(),
    ensures
        s@ == text@.subrange(from as int, to as int),
{
    text.substring_char(from, to).to_owned()
}

/// Whether two texts are equal.
pub fn same_text(a: &str, b: &str) -> (same: bool)
    ensures
        same == (a@ == b@),
{
    a.to_owned() == b.to_owned()
}

/// Joins two texts.
pub fn join(a: &str, b: &str) -> (s: String)
    ensures
        s@ == a@ + b@,
{
    a.to_owned().concat(b)
}

/// A decimal digit.
pub open spec fn digit(d: int) -> char {
    ('0' as int + d) as char
}

/// A number in decimal, without leading zeros.
pub open spec fn decimal(n: nat) -> Seq<char>
    decreases n,
{
    if n < 10 {
        seq![digit(n as int)]
    } else {
        decimal(n / 10).push(digit((n % 10) as int))
    }
}

fn digit_text(d: u64) -> (s: &'static str)
    requires
        d < 10,
    ensures
        s@ == seq![digit(d as int)],
{
    proof {
        reveal_strlit("0");
        reveal_strlit("1");
        reveal_strlit("2");
        reveal_strlit("3");
        reveal_strlit("4");
        reveal_strlit("5");
        reveal_strlit("6");
        reveal_strlit("7");
        reveal_strlit("8");
        reveal_strlit("9");
    }
    let s: &'static str = match d {
        0 => "0",
        1 => "1",
        2 => "2",
        3 => "3",
        4 => "4",
        5 => "5",
        6 => "6",
        7 => "7",
        8 => "8",
        _ => "9",
    };
    assert(s@ =~= seq![digit(d as int)]);
    s
}

/// Writes a number in decimal.
pub fn decimal_text(n: u64) -> (s: String)
    ensures
        s@ == decimal(n as nat),
    decreases n,
{
    if n < 10 {
        digit_text(n).to_owned()
    } else {
        let head: String = decimal_text(n / 10);
        let s: String = join(head.as_str(), digit_text(n % 10));
        assert(s@ =~= decimal((n / 10) as nat).push(digit((n % 10) as int)));
        s
    }
}

/// Whether a character is a decimal digit.
pub open spec fn is_digit(c: char) -> bool {
    '0' <= c <= '9'
}

/// What decimal digits stand for.
pub open spec fn digits_value(digits: Seq<char>) -> nat
    decreases digits.len(),
{
    if digits.len() == 0 {
        0
    } else {
        (digits_value(digits.drop_last()) * 10 + (digits.last() as int - '0' as int)) as nat
    }
}

/// Whether a text is digits and nothing else.
pub open spec fn all_digits(text: Seq<char>) -> bool {
    forall|k: int| 0 <= k < text.len() ==> is_digit(#[trigger] text[k])
}

/// A text without the plus in front.
pub open spec fn without_plus(text: Seq<char>) -> Seq<char> {
    if text.len() > 0 && text[0] == '+' {
        text.skip(1)
    } else {
        text
    }
}

/// The number that a text holds: digits and nothing else, but for a plus in front,
/// and no more of them than fit sixty-four bits.
pub open spec fn number_in(text: Seq<char>) -> Option<u64> {
    let digits = without_plus(text);
    if digits.len() > 0 && all_digits(digits) && digits_value(digits) <= u64::MAX {
        Some(digits_value(digits) as u64)
    } else {
        None
    }
}

/// Reads a number.
pub fn parse_number(text: &str) -> (n: Option<u64>)
    ensures
        n == number_in(text@),
{
    let chars: Vec<char> = chars_of(text);
    let start: usize = if chars.len() > 0 && chars[0] == '+' {
        1
    } else {
        0
    };
    let ghost digits = without_plus(text@);
    assert(digits =~= text@.skip(start as int));
    if start == chars.len() {
        return None;
    }
    let mut value: u64 = 0;
    let mut fits = true;
    let mut k: usize = start;
    while k < chars.len()
        invariant
            chars@ == text@,
            start <= k <= chars@.len(),
            digits == without_plus(text@),
            digits == text@.skip(start as int),
            forall|j: int| 0 <= j < k - start ==> is_digit(#[trigger] digits[j]),
            fits ==> value == digits_value(digits.take(k - start)),
            !fits ==> digits_value(digits.take(k - start)) > u64::MAX,
        decreases chars@.len() - k,
    {
        let c: char = chars[k];
        assert(digits[k - start] == c);
        if c < '0' || c > '9' {
            assert(!is_digit(digits[k - start]));
            return None;
        }
        let d: u64 = c as u64 - '0' as u64;
        proof {
            let next = digits.take(k + 1 - start);
            assert(next.drop_last() =~= digits.take(k - start));
            assert(next.last() == c);
        }
        if fits {
            let wide: u128 = value as u128 * 10 + d as u128;
            if wide > u64::MAX as u128 {
                fits = false;
            } else {
                value = wide as u64;
            }
        }
        k += 1;
    }
    assert(digits.take(k - start) =~= digits);
    if fits {
        Some(value)
    } else {
        None
    }
}

/// A line without the carriage return at its end.
pub open spec fn without_return(line: Seq<char>) -> Seq<char> {
    if line.len() > 0 && line.last() == '\r' {
        line.drop_last()
    } else {
        line
    }
}

/// The lines of `text` from position `from` on. A line ends with a line feed,
/// or a carriage return and a line feed, which are not part of it; what follows
/// the last line feed is a line too, unless it is empty.
pub open spec fn lines_from(text: Seq<char>, from: int) -> Seq<Seq<char>>
    decreases text.len() - from,
    via lines_from_shrinks
{
    if from >= text.len() {
        Seq::empty()
    } else {
        match find_from(text, '\n', from) {
            Some(i) => seq![without_return(text.subrange(from, i))] + lines_from(text, i + 1),
            None => seq![text.subrange(from, text.len() as int)],
        }
    }
}

#[via_fn]
proof fn lines_from_shrinks(text: Seq<char>, from: int) {
    lemma_find_from(text, '\n', from);
}

/// The lines of a text.
pub open spec fn lines(text: Seq<char>) -> Seq<Seq<char>> {
    lines_from(text, 0)
}

/// Lines as values.
pub open spec fn all_chars(lines: Seq<Vec<char>>) -> Seq<Seq<char>> {
    lines.map_values(|l: Vec<char>| l@)
}

/// The characters from `from` up to `to`.
pub fn copy_range(chars: &Vec<char>, from: usize, to: usize) -> (part: Vec<char>)
    requires
        from <= to <= chars@.len(),
    ensures
        part@ == chars@.subrange(from as int, to as int),
{
    let mut part: Vec<char> = Vec::new();
    let mut i: usize = from;
    while i < to
        invariant
            from <= i <= to <= chars@.len(),
            part@ == chars@.subrange(from as int, i as int),
        decreases to - i,
    {
        part.push(chars[i]);
        assert(part@ =~= chars@.subrange(from as int, i + 1));
        i += 1;
    }
    part
}

/// Splits a text into its lines.
pub fn split_lines(text: &str) -> (all: Vec<Vec<char>>)
    ensures
        all_chars(all@) == lines(text@),
{
    let chars: Vec<char> = chars_of(text);
    let n: usize = chars.len();
    let mut all: Vec<Vec<char>> = Vec::new();
    let mut from: usize = 0;
    assert(all_chars(all@) + lines_from(text@, 0) =~= lines(text@));
    while from < n
        invariant
            n == chars@.len(),
            chars@ == text@,
            from <= n,
            all_chars(all@) + lines_from(text@, from as int) == lines(text@),
        decreases n - from,
    {
        let ghost before = all@;
        match find_char(&chars, '\n', from) {
            Some(i) => {
                let end: usize = if i > from && chars[i - 1] == '\r' {
                    i - 1
                } else {
                    i
                };
                let line: Vec<char> = copy_range(&chars, from, end);
                assert(line@ =~= without_return(text@.subrange(from as int, i as int)));
                all.push(line);
                assert(all_chars(all@) =~= all_chars(before).push(line@));
                assert(all_chars(all@) + lines_from(text@, i + 1) =~= all_chars(before)
                    + lines_from(text@, from as int));
                from = i + 1;
            },
            None => {
                let line: Vec<char> = copy_range(&chars, from, n);
                all.push(line);
                assert(all_chars(all@) =~= all_chars(before).push(line@));
                assert(all_chars(all@) + lines_from(text@, n as int) =~= all_chars(before)
                    + lines_from(text@, from as int));
                from = n;
            },
        }
    }
    assert(all_chars(all@) + lines_from(text@, n as int) =~= all_chars(all@));
    all
}

/// The lower-case form of an ASCII letter; any other character itself.
pub open spec fn ascii_lower(c: char) -> char {
    if 'A' <= c && c <= 'Z' {
        (c as int + 32) as char
    } else {
        c
    }
}

/// Whether two texts are equal but for the case of ASCII letters.
pub open spec fn same_ignoring_case(a: Seq<char>, b: Seq<char>) -> bool {
    &&& a.len() == b.len()
    &&& forall|k: int| 0 <= k < a.len() ==> ascii_lower(#[trigger] a[k]) == ascii_lower(b[k])
}

/// The number of an ASCII letter's lower-case form, or of any other character.
fn lower_code(c: char) -> (u: u32)
    ensures
        u == ascii_lower(c) as u32,
{
    let u: u32 = c as u32;
    if 65 <= u && u <= 90 {
        u + 32
    } else {
        u
    }
}

/// Compares characters `from..to` with a text, whatever the case of ASCII
/// letters.
pub fn matches_ignoring_case(chars: &Vec<char>, from: usize, to: usize, text: &str) -> (same: bool)
    requires
        from <= to <= chars@.len(),
    ensures
        same == same_ignoring_case(chars@.subrange(from as int, to as int), text@),
{
    let other: Vec<char> = chars_of(text);
    let ghost part = chars@.subrange(from as int, to as int);
    if other.len() != to - from {
        return false;
    }
    let mut k: usize = 0;
    while k < other.len()
        invariant
            other@ == text@,
            k <= other@.len(),
            other@.len() == to - from,
            from <= to <= chars@.len(),
            part == chars@.subrange(from as int, to as int),
            forall|j: int| 0 <= j < k ==> ascii_lower(#[trigger] part[j]) == ascii_lower(text@[j]),
        decreases other@.len() - k,
    {
        if lower_code(chars[from + k]) != lower_code(other[k]) {
            assert(ascii_lower(part[k as int]) != ascii_lower(text@[k as int]));
            return false;
        }
        assert(part[k as int] == chars@[from + k]);
        k += 1;
    }
    true
}

/// Whether characters start with a text.
pub fn begins_with(chars: &Vec<char>, head: &Vec<char>) -> (b: bool)
    ensures
        b == head@.is_prefix_of(chars@),
{
    if head.len() > chars.len() {
        return false;
    }
    let mut k: usize = 0;
    while k < head.len()
        invariant
            k <= head@.len() <= chars@.len(),
            forall|j: int| 0 <= j < k ==> #[trigger] head@[j] == chars@[j],
        decreases head@.len() - k,
    {
        if head[k] != chars[k] {
            assert(chars@.subrange(0, head@.len() as int)[k as int] == chars@[k as int]);
            return false;
        }
        k += 1;
    }
    assert(head@ =~= chars@.subrange(0, head@.len() as int));
    true
}

/// Whether `text` starts with `prefix`.
pub fn starts_with(text: &str, prefix: &str) -> (b: bool)
    ensures
        b == prefix@.is_prefix_of(text@),
{
    begins_with(&chars_of(text), &chars_of(prefix))
}

/// `String::push`: the character is added at the end.
pub assume_specification[ String::push ](s: &mut String, c: char)
    ensures
        final(s)@ == old(s)@.push(c),
;

/// The text of characters `from..to`.
pub fn text_from(chars: &Vec<char>, from: usize, to: usize) -> (s: String)
    requires
        from <= to <= chars@.len(),
    ensures
        s@ == chars@.subrange(from as int, to as int),
{
    let mut s: String = String::new();
    let mut k: usize = from;
    while k < to
        invariant
            from <= k <= to <= chars@.len(),
            s@ == chars@.subrange(from as int, k as int),
        decreases to - k,
    {
        s.push(chars[k]);
        assert(s@ =~= chars@.subrange(from as int, k + 1));
        k += 1;
    }
    s
}

/// Whether `part` stands in `text` at position `i`.
pub open spec fn stands_at(text: Seq<char>, part: Seq<char>, i: int) -> bool {
    0 <= i <= text.len() - part.len() && text.subrange(i, i + part.len()) == part
}

/// Whether `part` stands anywhere in `text`.
pub open spec fn holds_part(text: Seq<char>, part: Seq<char>) -> bool {
    exists|i: int| stands_at(text, part, i)
}

fn is_at(text: &Vec<char>, part: &Vec<char>, i: usize) -> (b: bool)
    requires
        i + part@.len() <= text@.len(),
    ensures
        b == stands_at(text@, part@, i as int),
{
    let n: usize = text.len();
    let mut k: usize = 0;
    while k < part.len()
        invariant
            n == text@.len(),
            k <= part@.len(),
            i + part@.len() <= n,
            forall|j: int| 0 <= j < k ==> #[trigger] part@[j] == text@[i + j],
        decreases part@.len() - k,
    {
        if text[i + k] != part[k] {
            assert(text@.subrange(i as int, i + part@.len())[k as int] == text@[i + k]);
            return false;
        }
        k += 1;
    }
    assert(text@.subrange(i as int, i + part@.len()) =~= part@);
    true
}

/// Whether a text holds another one.
pub fn contains_text(text: &str, part: &str) -> (b: bool)
    ensures
        b == holds_part(text@, part@),
{
    let all: Vec<char> = chars_of(text);
    let sought: Vec<char> = chars_of(part);
    let n: usize = all.len();
    let m: usize = sought.len();
    if m > n {
        return false;
    }
    let mut i: usize = 0;
    while i <= n - m
        invariant
            n == text@.len(),
            m == part@.len(),
            all@ == text@,
            sought@ == part@,
            m <= n,
            i <= n - m + 1,
            forall|j: int| 0 <= j < i ==> !stands_at(text@, part@, j),
        decreases n - m + 1 - i,
    {
        if is_at(&all, &sought, i) {
            assert(stands_at(text@, part@, i as int));
            return true;
        }
        if i == n - m {
            assert(forall|j: int| !stands_at(text@, part@, j));
            return false;
        }
        i += 1;
    }
    false
}

/// Whether positions `a..b` of a text are what is left without the white space around it.
pub open spec fn is_inside(text: Seq<char>, a: int, b: int) -> bool {
    &&& 0 <= a <= b <= text.len()
    &&& forall|k: int| 0 <= k < a ==> white_space(#[trigger] text[k])
    &&& forall|k: int| b <= k < text.len() ==> white_space(#[trigger] text[k])
    &&& a < b ==> !white_space(text[a]) && !white_space(text[b - 1])
}

proof fn lemma_trim_start_at(text: Seq<char>) -> (a: int)
    ensures
        0 <= a <= text.len(),
        trim_start(text) == text.skip(a),
        forall|k: int| 0 <= k < a ==> white_space(#[trigger] text[k]),
        a < text.len() ==> !white_space(text[a]),
    decreases text.len(),
{
    if text.len() > 0 && white_space(text[0]) {
        let rest = text.drop_first();
        let a = lemma_trim_start_at(rest);
        assert(rest.skip(a) =~= text.skip(a + 1));
        assert forall|k: int| 0 <= k < a + 1 implies white_space(#[trigger] text[k]) by {
            if k > 0 {
                assert(rest[k - 1] == text[k]);
            }
        }
        a + 1
    } else {
        assert(text.skip(0) =~= text);
        0
    }
}

proof fn lemma_trim_end_at(text: Seq<char>) -> (b: int)
    ensures
        0 <= b <= text.len(),
        trim_end(text) == text.take(b),
        forall|k: int| b <= k < text.len() ==> white_space(#[trigger] text[k]),
        b > 0 ==> !white_space(text[b - 1]),
    decreases text.len(),
{
    if text.len() > 0 && white_space(text.last()) {
        let rest = text.drop_last();
        let b = lemma_trim_end_at(rest);
        assert(rest.take(b) =~= text.take(b));
        assert forall|k: int| b <= k < text.len() implies white_space(#[trigger] text[k]) by {
            if k < rest.len() {
                assert(rest[k] == text[k]);
            }
        }
        b
    } else {
        assert(text.take(text.len() as int) =~= text);
        text.len() as int
    }
}

/// Trimming takes the white space off both ends and leaves the rest as it is.
pub proof fn law_trim_takes_white_space_off_both_ends(text: Seq<char>)
    ensures
        exists|a: int, b: int| #[trigger]
            is_inside(text, a, b) && trim(text) == text.subrange(a, b),
        trim(trim(text)) == trim(text),
{
    let a = lemma_trim_start_at(text);
    let rest = text.skip(a);
    let n = lemma_trim_end_at(rest);
    let b = a + n;
    assert(rest.take(n) =~= text.subrange(a, b));
    assert forall|k: int| b <= k < text.len() implies white_space(#[trigger] text[k]) by {
        assert(rest[k - a] == text[k]);
    }
    if a < b {
        assert(rest[0] == text[a] && rest[n - 1] == text[b - 1]);
    }
    assert(is_inside(text, a, b));
    let t = trim(text);
    if t.len() > 0 {
        assert(t[0] == text[a] && t.last() == text[b - 1]);
        assert(trim_start(t) == t && trim_end(t) == t);
    }
}

/// Of the ASCII characters, the blank and the controls from the tab to the carriage return
/// are white space, and no others.
pub proof fn law_ascii_white_space(c: char)
    requires
        c as int <= 127,
    ensures
        white_space(c) <==> c == ' ' || c == '\t' || c == '\n' || c as int == 11 || c as int == 12
            || c == '\r',
{
    assert('\t' as int == 9 && '\n' as int == 10 && '\r' as int == 13 && ' ' as int == 32);
}

/// Texts with a character between them.
pub open spec fn joined_by(parts: Seq<Seq<char>>, c: char) -> Seq<char>
    decreases parts.len(),
{
    if parts.len() == 0 {
        Seq::empty()
    } else if parts.len() == 1 {
        parts[0]
    } else {
        parts[0] + seq![c] + joined_by(parts.drop_first(), c)
    }
}

proof fn lemma_pieces_joined(text: Seq<char>, c: char, from: int)
    requires
        0 <= from <= text.len(),
    ensures
        pieces_from(text, c, from).len() >= 1,
        joined_by(pieces_from(text, c, from), c) == text.skip(from),
        forall|k: int|
            0 <= k < pieces_from(text, c, from).len() ==> !(#[trigger] pieces_from(
                text,
                c,
                from,
            )[k]).contains(c),
    decreases text.len() - from,
{
    lemma_find_from(text, c, from);
    let all = pieces_from(text, c, from);
    match find_from(text, c, from) {
        Some(i) => {
            lemma_pieces_joined(text, c, i + 1);
            let rest = pieces_from(text, c, i + 1);
            assert(all.drop_first() =~= rest);
            assert(text.subrange(from, i) + seq![c] + text.skip(i + 1) =~= text.skip(from));
            assert forall|k: int| 0 <= k < all.len() implies !(#[trigger] all[k]).contains(c) by {
                if k > 0 {
                    assert(all[k] == rest[k - 1]);
                }
            }
        },
        None => {
            assert(text.subrange(from, text.len() as int) =~= text.skip(from));
        },
    }
}

/// The pieces of a text, joined by the character it was cut at, are the text again, and
/// none of them holds that character.
pub proof fn law_pieces_joined_are_the_text(text: Seq<char>, c: char)
    ensures
        joined_by(pieces(text, c), c) == text,
        pieces(text, c).len() >= 1,
        forall|k: int|
            0 <= k < pieces(text, c).len() ==> !(#[trigger] pieces(text, c)[k]).contains(c),
{
    lemma_pieces_joined(text, c, 0);
    assert(text.skip(0) =~= text);
}

proof fn lemma_find_shifted(front: Seq<char>, text: Seq<char>, c: char, from: int)
    requires
        0 <= from,
    ensures
        match find_from(text, c, from) {
            Some(i) => find_from(front + text, c, front.len() + from) == Some(front.len() + i),
            None => find_from(front + text, c, front.len() + from) is None,
        },
    decreases text.len() - from,
{
    if from < text.len() {
        assert((front + text)[front.len() + from] == text[from]);
        if text[from] != c {
            lemma_find_shifted(front, text, c, from + 1);
        }
    }
}

proof fn lemma_lines_shifted(front: Seq<char>, text: Seq<char>, from: int)
    requires
        0 <= from <= text.len(),
    ensures
        lines_from(front + text, front.len() + from) == lines_from(text, from),
    decreases text.len() - from,
{
    let whole = front + text;
    let n = front.len() as int;
    lemma_find_shifted(front, text, '\n', from);
    lemma_find_from(text, '\n', from);
    if from < text.len() {
        match find_from(text, '\n', from) {
            Some(i) => {
                lemma_lines_shifted(front, text, i + 1);
                assert(whole.subrange(n + from, n + i) =~= text.subrange(from, i));
            },
            None => {
                assert(whole.subrange(n + from, whole.len() as int) =~= text.subrange(
                    from,
                    text.len() as int,
                ));
            },
        }
    }
}

/// A text is its first line, a line feed, and the lines after it; a carriage return before
/// the line feed goes with it. Without a line feed it is one line, unless it is empty.
pub proof fn law_lines_end_with_a_line_feed(line: Seq<char>, rest: Seq<char>)
    requires
        !line.contains('\n'),
    ensures
        lines(line + seq!['\n'] + rest) == seq![without_return(line)] + lines(rest),
        lines(line + seq!['\r', '\n'] + rest) == seq![line] + lines(rest),
        line.len() > 0 ==> lines(line) == seq![line],
        lines(Seq::empty()) == Seq::<Seq<char>>::empty(),
{
    let plain = line + seq!['\n'];
    let returned = line + seq!['\r', '\n'];
    lemma_first_line(line, plain + rest, line.len() as int);
    lemma_lines_shifted(plain, rest, 0);
    assert((plain + rest).subrange(0, line.len() as int) =~= line);
    let long = line + seq!['\r'];
    assert forall|k: int| 0 <= k < long.len() implies #[trigger] (returned + rest)[k] != '\n' by {
        if k < line.len() {
            assert((returned + rest)[k] == line[k]);
            assert(line.contains(line[k]));
        } else {
            assert((returned + rest)[k] == '\r');
        }
    }
    lemma_first_line(line, returned + rest, long.len() as int);
    lemma_lines_shifted(returned, rest, 0);
    assert((returned + rest).subrange(0, long.len() as int) =~= long);
    assert(long.drop_last() =~= line);
    lemma_find_from(line, '\n', 0);
    if line.len() > 0 {
        match find_from(line, '\n', 0) {
            Some(i) => {
                assert(line.contains(line[i]));
            },
            None => {
                assert(line.subrange(0, line.len() as int) =~= line);
            },
        }
    }
}

proof fn lemma_first_line(line: Seq<char>, text: Seq<char>, end: int)
    requires
        0 <= end < text.len(),
        text[end] == '\n',
        !line.contains('\n'),
        end == line.len() ==> forall|k: int| 0 <= k < end ==> text[k] == line[k],
        end != line.len() ==> forall|k: int| 0 <= k < end ==> #[trigger] text[k] != '\n',
    ensures
        find_from(text, '\n', 0) == Some(end),
{
    lemma_find_from(text, '\n', 0);
    assert forall|k: int| 0 <= k < end implies #[trigger] text[k] != '\n' by {
        if end == line.len() {
            assert(line.contains(line[k]));
        }
    }
}

proof fn lemma_decimal(n: nat)
    ensures
        decimal(n).len() >= 1,
        all_digits(decimal(n)),
        digits_value(decimal(n)) == n,
        n > 0 ==> decimal(n)[0] != '0',
    decreases n,
{
    let text = decimal(n);
    if n < 10 {
        assert(text.drop_last() =~= Seq::<char>::empty());
        assert(digits_value(text.drop_last()) == 0);
    } else {
        lemma_decimal(n / 10);
        assert(text.drop_last() =~= decimal(n / 10));
        assert forall|k: int| 0 <= k < text.len() implies is_digit(#[trigger] text[k]) by {
            if k < text.len() - 1 {
                assert(decimal(n / 10)[k] == text[k]);
            }
        }
        assert(text[0] == decimal(n / 10)[0]);
    }
}

/// A number written in decimal is read back. It is written with digits alone, without a
/// zero in front of others.
pub proof fn law_numbers_read_back(n: u64)
    ensures
        number_in(decimal(n as nat)) == Some(n),
        number_in(seq!['+'] + decimal(n as nat)) == Some(n),
        forall|k: int|
            0 <= k < decimal(n as nat).len() ==> 48 <= #[trigger] decimal(n as nat)[k] as int <= 57,
        n > 0 ==> decimal(n as nat)[0] != '0',
        n < 10 ==> decimal(n as nat) == seq![(48 + n) as char],
{
    lemma_decimal(n as nat);
    let text = decimal(n as nat);
    assert(is_digit(text[0]));
    assert(without_plus(text) == text);
    assert((seq!['+'] + text).skip(1) =~= text);
    assert forall|k: int| 0 <= k < text.len() implies 48 <= #[trigger] text[k] as int <= 57 by {
        assert(is_digit(text[k]));
    }
}

/// One more digit at the end makes a number ten times as large, and more by the digit.
/// Only digits, with a plus in front or not, are read as a number.
pub proof fn law_digits_count_in_tens(text: Seq<char>, c: char)
    requires
        48 <= c as int <= 57,
        text.len() > 0,
        text[0] != '+',
    ensures
        number_in(text) matches Some(n) ==> (n * 10 + (c as int - 48) <= u64::MAX ==> number_in(
            text.push(c),
        ) == Some((n * 10 + (c as int - 48)) as u64)),
        number_in(text) matches Some(n) ==> (n * 10 + (c as int - 48) > u64::MAX ==> number_in(
            text.push(c),
        ) is None),
        number_in(text) is Some ==> forall|k: int|
            0 <= k < text.len() ==> 48 <= #[trigger] text[k] as int <= 57,
{
    let more = text.push(c);
    assert(more.drop_last() =~= text);
    assert(without_plus(more) == more && without_plus(text) == text);
    if all_digits(text) {
        assert forall|k: int| 0 <= k < more.len() implies is_digit(#[trigger] more[k]) by {
            if k < text.len() {
                assert(is_digit(text[k]));
            }
        }
        assert forall|k: int| 0 <= k < text.len() implies 48 <= #[trigger] text[k] as int <= 57 by {
            assert(is_digit(text[k]));
        }
    }
}

/// Only the case of ASCII letters is passed over: two characters are the same but for it
/// where they are equal, or one is such a letter and the other follows it by thirty-two.
pub proof fn law_case_is_that_of_ascii_letters(a: char, b: char)
    ensures
        same_ignoring_case(seq![a], seq![b]) <==> a == b || (65 <= a as int <= 90 && b as int
            == a as int + 32) || (65 <= b as int <= 90 && a as int == b as int + 32),
{
    assert(seq![a][0] == a && seq![b][0] == b);
    if same_ignoring_case(seq![a], seq![b]) {
        assert(ascii_lower(seq![a][0]) == ascii_lower(seq![b][0]));
    }
}

/// Texts with the same beginning and the same end are the same where what is between them is.
pub proof fn lemma_between_is_the_same(front: Seq<char>, a: Seq<char>, b: Seq<char>, back: Seq<char>)
    requires
        front + a + back == front + b + back,
    ensures
        a == b,
{
    let (x, y) = (front + a + back, front + b + back);
    assert(x.len() == y.len());
    let n = front.len() as int;
    assert(a =~= x.subrange(n, n + a.len()));
    assert(b =~= y.subrange(n, n + b.len()));
}

/// Two numbers that are written alike are the same.
pub proof fn law_decimals_tell_numbers_apart(a: nat, b: nat)
    requires
        decimal(a) == decimal(b),
    ensures
        a == b,
{
    lemma_decimal(a);
    lemma_decimal(b);
}

} // verus!
