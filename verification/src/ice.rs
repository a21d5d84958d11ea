//! ICE servers shared by the streaming peer and the browser, so that both
//! gather the same kinds of candidates.
//!
//! They are given as a comma-separated list of `stun:host[:port]`,
//! `turn:user:pass@host[:port][?transport=udp|tcp]` or `turns:...` entries.

use crate::json::{quote, quoted};
use crate::text::{
    after, before, chars_of, find, find_char, find_last, find_last_char, join, lemma_find_from,
    lemma_find_last_before, piece, pieces, pieces_from, same_text, trim, trim_range,
};
use vstd::prelude::*;

verus! {

/// One entry of the browser's `iceServers` list.
#[derive(Clone, Debug, PartialEq, Eq)]
pub struct IceServer {
    pub urls: Vec<String>,
    pub username: String,
    pub credential: String,
}

/// An ICE server as a value.
#[verifier::ext_equal]
pub struct IceServerText {
    pub urls: Seq<Seq<char>>,
    pub username: Seq<char>,
    pub credential: Seq<char>,
}

impl View for IceServer {
    type V = IceServerText;

    open spec fn view(&self) -> IceServerText {
        IceServerText {
            urls: self.urls@.map_values(|u: String| u@),
            username: self.username@,
            credential: self.credential@,
        }
    }
}

/// What is said of an entry without a scheme.
pub open spec fn missing_scheme(entry: Seq<char>) -> Seq<char> {
    "ICE server `"@ + entry + "`: missing scheme (stun:, turn: or turns:)"@
}

/// What is said of an entry with a scheme that is none.
pub open spec fn unknown_scheme(entry: Seq<char>, scheme: Seq<char>) -> Seq<char> {
    "ICE server `"@ + entry + "`: unknown scheme `"@ + scheme + "` (stun:, turn: or turns:)"@
}

/// What is said of a STUN entry that is not one host.
pub open spec fn bad_stun(entry: Seq<char>) -> Seq<char> {
    "ICE server `"@ + entry + "`: expected stun:host[:port]"@
}

/// What is said of a TURN entry without credentials: nothing of the entry but
/// its scheme is repeated.
pub open spec fn turn_without_credentials(scheme: Seq<char>) -> Seq<char> {
    "ICE server `"@ + scheme + ":…`: TURN needs user:pass@host"@
}

/// What is said of a TURN entry with bad credentials: nothing of them is
/// repeated.
pub open spec fn turn_with_bad_credentials(scheme: Seq<char>, host: Seq<char>) -> Seq<char> {
    "ICE server `"@ + scheme + ":…@"@ + host + "`: TURN needs user:pass@host"@
}

/// What is said of a TURN entry without a host.
pub open spec fn turn_without_host(scheme: Seq<char>) -> Seq<char> {
    "ICE server `"@ + scheme + ":…`: missing host"@
}

/// A STUN entry, whatever follows its scheme.
pub open spec fn stun_entry(entry: Seq<char>, rest: Seq<char>) -> Result<IceServerText, Seq<char>> {
    if rest.len() == 0 || rest.contains('@') {
        Err(bad_stun(entry))
    } else {
        Ok(IceServerText { urls: seq![entry], username: Seq::empty(), credential: Seq::empty() })
    }
}

/// A TURN entry: the last `@` ends the credentials, and their first `:` ends
/// the user's name, so that a password may hold both.
pub open spec fn turn_entry(scheme: Seq<char>, rest: Seq<char>) -> Result<IceServerText, Seq<char>> {
    match find_last(rest, '@') {
        None => Err(turn_without_credentials(scheme)),
        Some(at) => {
            let credentials = before(rest, at);
            let host = after(rest, at);
            match find(credentials, ':') {
                Some(i) if i > 0 && i + 1 < credentials.len() => if host.len() == 0 {
                    Err(turn_without_host(scheme))
                } else {
                    Ok(
                        IceServerText {
                            urls: seq![scheme + ":"@ + host],
                            username: before(credentials, i),
                            credential: after(credentials, i),
                        },
                    )
                },
                _ => Err(turn_with_bad_credentials(scheme, host)),
            }
        },
    }
}

/// What an entry stands for, or what is wrong with it.
pub open spec fn parsed_entry(entry: Seq<char>) -> Result<IceServerText, Seq<char>> {
    match find(entry, ':') {
        None => Err(missing_scheme(entry)),
        Some(i) => {
            let scheme = before(entry, i);
            let rest = after(entry, i);
            if scheme == "stun"@ || scheme == "stuns"@ {
                stun_entry(entry, rest)
            } else if scheme == "turn"@ || scheme == "turns"@ {
                turn_entry(scheme, rest)
            } else {
                Err(unknown_scheme(entry, scheme))
            }
        },
    }
}

/// What the entries stand for, in order, or what is wrong with the first bad
/// one. Blank entries do not count.
pub open spec fn parsed_entries(entries: Seq<Seq<char>>) -> Result<Seq<IceServerText>, Seq<char>>
    decreases entries.len(),
{
    if entries.len() == 0 {
        Ok(Seq::empty())
    } else {
        match parsed_entries(entries.drop_last()) {
            Err(e) => Err(e),
            Ok(servers) => {
                let entry = trim(entries.last());
                if entry.len() == 0 {
                    Ok(servers)
                } else {
                    match parsed_entry(entry) {
                        Err(e) => Err(e),
                        Ok(s) => Ok(servers.push(s)),
                    }
                }
            },
        }
    }
}

/// A result as a value.
pub open spec fn server_value(r: Result<IceServer, String>) -> Result<IceServerText, Seq<char>> {
    match r {
        Ok(s) => Ok(s@),
        Err(e) => Err(e@),
    }
}

fn join_three(a: &str, b: &str, c: &str) -> (s: String)
    ensures
        s@ == a@ + b@ + c@,
{
    join(join(a, b).as_str(), c)
}

fn parse_stun(entry: &str, rest: &str) -> (r: Result<IceServer, String>)
    ensures
        server_value(r) == stun_entry(entry@, rest@),
{
    let chars: Vec<char> = chars_of(rest);
    let at: Option<usize> = find_char(&chars, '@', 0);
    proof {
        lemma_find_from(rest@, '@', 0);
        if let Some(i) = at {
            assert(rest@[i as int] == '@');
            assert(rest@.contains('@'));
        }
    }
    if chars.len() == 0 || at.is_some() {
        return Err(join_three("ICE server `", entry, "`: expected stun:host[:port]"));
    }
    let mut urls: Vec<String> = Vec::new();
    urls.push(entry.to_owned());
    let server = IceServer { urls, username: String::new(), credential: String::new() };
    assert(server@.urls =~= seq![entry@]);
    Ok(server)
}

fn parse_turn(scheme: &str, rest: &str) -> (r: Result<IceServer, String>)
    ensures
        server_value(r) == turn_entry(scheme@, rest@),
{
    let chars: Vec<char> = chars_of(rest);
    let length: usize = chars.len();
    let at: usize = match find_last_char(&chars, '@') {
        None => {
            return Err(join_three("ICE server `", scheme, ":…`: TURN needs user:pass@host"));
        },
        Some(at) => at,
    };
    let host: String = piece(rest, at + 1, length);
    let credentials: String = piece(rest, 0, at);
    let parts: Vec<char> = chars_of(credentials.as_str());
    if let Some(i) = find_char(&parts, ':', 0) {
        if i > 0 && i + 1 < parts.len() {
            if at + 1 == length {
                return Err(join_three("ICE server `", scheme, ":…`: missing host"));
            }
            let mut urls: Vec<String> = Vec::new();
            urls.push(join_three(scheme, ":", host.as_str()));
            let server = IceServer {
                urls,
                username: piece(credentials.as_str(), 0, i),
                credential: piece(credentials.as_str(), i + 1, parts.len()),
            };
            assert(server@.urls =~= seq![scheme@ + ":"@ + host@]);
            return Ok(server);
        }
    }
    let named: String = join_three("ICE server `", scheme, ":…@");
    Err(join_three(named.as_str(), host.as_str(), "`: TURN needs user:pass@host"))
}

/// Parses one entry.
pub fn parse_one(entry: &str) -> (r: Result<IceServer, String>)
    ensures
        server_value(r) == parsed_entry(entry@),
{
    let chars: Vec<char> = chars_of(entry);
    let length: usize = chars.len();
    let i: usize = match find_char(&chars, ':', 0) {
        None => {
            return Err(
                join_three("ICE server `", entry, "`: missing scheme (stun:, turn: or turns:)"),
            );
        },
        Some(i) => i,
    };
    let scheme: String = piece(entry, 0, i);
    let rest: String = piece(entry, i + 1, length);
    if same_text(scheme.as_str(), "stun") || same_text(scheme.as_str(), "stuns") {
        return parse_stun(entry, rest.as_str());
    }
    if same_text(scheme.as_str(), "turn") || same_text(scheme.as_str(), "turns") {
        return parse_turn(scheme.as_str(), rest.as_str());
    }
    let named: String = join_three("ICE server `", entry, "`: unknown scheme `");
    Err(join_three(named.as_str(), scheme.as_str(), "` (stun:, turn: or turns:)"))
}

/// Parses a comma-separated list of entries. An error names the bad entry.
pub fn parse_ice_servers(list: &str) -> (r: Result<Vec<IceServer>, String>)
    ensures
        match r {
            Ok(servers) => parsed_entries(pieces(list@, ',')) == Ok::<Seq<IceServerText>, Seq<char>>(
                servers@.map_values(|s: IceServer| s@),
            ),
            Err(e) => parsed_entries(pieces(list@, ',')) == Err::<Seq<IceServerText>, Seq<char>>(
                e@,
            ),
        },
{
    let chars: Vec<char> = chars_of(list);
    let ghost text = list@;
    let ghost all = pieces(text, ',');
    let ghost mut seen: Seq<Seq<char>> = Seq::empty();
    let mut servers: Vec<IceServer> = Vec::new();
    let mut from: usize = 0;
    let mut more = true;
    assert(seen + pieces_from(text, ',', 0) =~= all);
    assert(servers@.map_values(|s: IceServer| s@) =~= Seq::empty());
    while more
        invariant
            text == list@,
            text == chars@,
            from <= chars@.len(),
            all == pieces(text, ','),
            more ==> seen + pieces_from(text, ',', from as int) == all,
            !more ==> seen == all,
            parsed_entries(seen) == Ok::<Seq<IceServerText>, Seq<char>>(
                servers@.map_values(|s: IceServer| s@),
            ),
        decreases
                chars@.len() - from + if more {
                    1int
                } else {
                    0
                },
    {
        proof {
            lemma_find_from(text, ',', from as int);
        }
        let length: usize = chars.len();
        let comma: Option<usize> = find_char(&chars, ',', from);
        let to: usize = match comma {
            Some(i) => i,
            None => length,
        };
        let ghost part = text.subrange(from as int, to as int);
        let ghost before_part = seen;
        proof {
            seen = seen.push(part);
            assert(seen.drop_last() =~= before_part);
            assert(seen.last() == part);
            match comma {
                Some(i) => {
                    assert(seen + pieces_from(text, ',', i + 1) =~= before_part + (seq![part]
                        + pieces_from(text, ',', i + 1)));
                },
                None => {
                    assert(before_part + seq![part] =~= seen);
                },
            }
        }
        let (start, end): (usize, usize) = trim_range(&chars, from, to);
        if start < end {
            let entry: String = piece(list, start, end);
            match parse_one(entry.as_str()) {
                Err(e) => {
                    proof {
                        assert(parsed_entries(seen) == Err::<Seq<IceServerText>, Seq<char>>(e@));
                        match comma {
                            Some(i) => {
                                lemma_first_error(seen, pieces_from(text, ',', i + 1), e@);
                            },
                            None => {},
                        }
                    }
                    return Err(e);
                },
                Ok(server) => {
                    let ghost kept = servers@;
                    servers.push(server);
                    assert(servers@.map_values(|s: IceServer| s@) =~= kept.map_values(
                        |s: IceServer| s@,
                    ).push(server@));
                },
            }
        }
        match comma {
            Some(i) => {
                from = i + 1;
            },
            None => {
                more = false;
            },
        }
    }
    Ok(servers)
}

/// The first bad entry decides, whatever follows it.
proof fn lemma_first_error(seen: Seq<Seq<char>>, rest: Seq<Seq<char>>, e: Seq<char>)
    requires
        parsed_entries(seen) == Err::<Seq<IceServerText>, Seq<char>>(e),
    ensures
        parsed_entries(seen + rest) == Err::<Seq<IceServerText>, Seq<char>>(e),
    decreases rest.len(),
{
    if rest.len() == 0 {
        assert(seen + rest =~= seen);
    } else {
        lemma_first_error(seen, rest.drop_last(), e);
        assert((seen + rest).drop_last() =~= seen + rest.drop_last());
    }
}

/// An error about a TURN entry repeats nothing between the scheme and the last
/// `@`: two bad entries that differ in their credentials alone, and agree on
/// whether those are well-formed, are told the same.
pub proof fn law_turn_errors_hide_credentials(
    scheme: Seq<char>,
    credentials: Seq<char>,
    other: Seq<char>,
    host: Seq<char>,
)
    requires
        !host.contains('@'),
        turn_entry(scheme, credentials + "@"@ + host) is Err,
        turn_entry(scheme, other + "@"@ + host) is Err,
        well_formed_credentials(credentials) == well_formed_credentials(other),
    ensures
        turn_entry(scheme, credentials + "@"@ + host) == turn_entry(scheme, other + "@"@ + host),
        turn_entry(scheme, credentials + "@"@ + host)->Err_0 == (if well_formed_credentials(
            credentials,
        ) {
            turn_without_host(scheme)
        } else {
            turn_with_bad_credentials(scheme, host)
        }),
{
    lemma_last_at(credentials, host);
    lemma_last_at(other, host);
}

/// Whether credentials are a name and a password, neither of them empty.
pub open spec fn well_formed_credentials(credentials: Seq<char>) -> bool {
    match find(credentials, ':') {
        Some(i) => i > 0 && i + 1 < credentials.len(),
        None => false,
    }
}

proof fn lemma_last_at(credentials: Seq<char>, host: Seq<char>)
    requires
        !host.contains('@'),
    ensures
        ({
            let rest = credentials + "@"@ + host;
            &&& find_last(rest, '@') == Some(credentials.len() as int)
            &&& before(rest, credentials.len() as int) == credentials
            &&& after(rest, credentials.len() as int) == host
        }),
{
    reveal_strlit("@");
    let rest = credentials + "@"@ + host;
    let at = credentials.len() as int;
    lemma_find_last_before(rest, '@', rest.len() as int);
    assert(rest[at] == '@');
    let found = find_last(rest, '@');
    if let Some(i) = found {
        if i > at {
            assert(host[i - at - 1] == '@');
            assert(host.contains('@'));
        }
    }
    assert(before(rest, at) =~= credentials);
    assert(after(rest, at) =~= host);
}

/// Texts as a JSON list, without its brackets.
pub open spec fn listed(texts: Seq<String>) -> Seq<char>
    decreases texts.len(),
{
    if texts.len() == 0 {
        Seq::empty()
    } else if texts.len() == 1 {
        quoted(texts[0]@)
    } else {
        listed(texts.drop_last()) + ","@ + quoted(texts.last()@)
    }
}

/// A member of a JSON object that is left out where its text is empty, with
/// the comma before or behind it.
pub open spec fn optional_member(front: Seq<char>, text: Seq<char>, back: Seq<char>) -> Seq<char> {
    if text.len() == 0 {
        Seq::empty()
    } else {
        front + quoted(text) + back
    }
}

/// A server as the browser takes it.
pub open spec fn server_json(server: IceServer) -> Seq<char> {
    "{\"urls\":["@ + listed(server.urls@) + "]"@ + optional_member(
        ",\"username\":"@,
        server.username@,
        ""@,
    ) + optional_member(",\"credential\":"@, server.credential@, ""@) + "}"@
}

/// A server as the browser takes it, its members in alphabetical order.
pub open spec fn sorted_server_json(server: IceServer) -> Seq<char> {
    "{"@ + optional_member("\"credential\":"@, server.credential@, ","@) + "\"urls\":["@ + listed(
        server.urls@,
    ) + "]"@ + optional_member(",\"username\":"@, server.username@, ""@) + "}"@
}

/// Servers as a JSON list, without its brackets.
pub open spec fn listed_servers(servers: Seq<IceServer>, sorted: bool) -> Seq<char>
    decreases servers.len(),
{
    let last = if sorted {
        sorted_server_json(servers.last())
    } else {
        server_json(servers.last())
    };
    if servers.len() == 0 {
        Seq::empty()
    } else if servers.len() == 1 {
        last
    } else {
        listed_servers(servers.drop_last(), sorted) + ","@ + last
    }
}

/// Servers as a JSON list, in the order of the browser's own fields.
pub open spec fn servers_json(servers: Seq<IceServer>) -> Seq<char> {
    "["@ + listed_servers(servers, false) + "]"@
}

/// Servers as a JSON list whose objects have their members in alphabetical
/// order.
pub open spec fn servers_value(servers: Seq<IceServer>) -> Seq<char> {
    "["@ + listed_servers(servers, true) + "]"@
}

fn write_list(texts: &Vec<String>) -> (s: String)
    ensures
        s@ == listed(texts@),
{
    let mut s: String = String::new();
    let mut k: usize = 0;
    assert(texts@.take(0) =~= Seq::<String>::empty());
    while k < texts.len()
        invariant
            k <= texts@.len(),
            s@ == listed(texts@.take(k as int)),
        decreases texts@.len() - k,
    {
        let q: String = quote(texts[k].as_str());
        assert(texts@.take(k + 1).drop_last() =~= texts@.take(k as int));
        if k == 0 {
            s = q;
        } else {
            s = join(join(s.as_str(), ",").as_str(), q.as_str());
        }
        k += 1;
    }
    assert(texts@.take(k as int) =~= texts@);
    s
}

fn write_member(front: &str, text: &String, back: &str) -> (s: String)
    ensures
        s@ == optional_member(front@, text@, back@),
{
    proof {
        reveal_strlit("");
        assert(""@ =~= Seq::<char>::empty());
        assert(text@.len() == 0 ==> text@ =~= ""@);
    }
    if same_text(text.as_str(), "") {
        String::new()
    } else {
        let q: String = quote(text.as_str());
        join(join(front, q.as_str()).as_str(), back)
    }
}

fn write_server(server: &IceServer) -> (s: String)
    ensures
        s@ == server_json(*server),
{
    let urls: String = write_list(&server.urls);
    let username: String = write_member(",\"username\":", &server.username, "");
    let credential: String = write_member(",\"credential\":", &server.credential, "");
    let s: String = join("{\"urls\":[", urls.as_str());
    let s: String = join(s.as_str(), "]");
    let s: String = join(s.as_str(), username.as_str());
    let s: String = join(s.as_str(), credential.as_str());
    join(s.as_str(), "}")
}

fn write_sorted_server(server: &IceServer) -> (s: String)
    ensures
        s@ == sorted_server_json(*server),
{
    let urls: String = write_list(&server.urls);
    let username: String = write_member(",\"username\":", &server.username, "");
    let credential: String = write_member("\"credential\":", &server.credential, ",");
    let s: String = join("{", credential.as_str());
    let s: String = join(s.as_str(), "\"urls\":[");
    let s: String = join(s.as_str(), urls.as_str());
    let s: String = join(s.as_str(), "]");
    let s: String = join(s.as_str(), username.as_str());
    join(s.as_str(), "}")
}

fn write_servers(servers: &Vec<IceServer>, sorted: bool) -> (s: String)
    ensures
        s@ == "["@ + listed_servers(servers@, sorted) + "]"@,
{
    let mut s: String = String::new();
    let mut k: usize = 0;
    assert(servers@.take(0) =~= Seq::<IceServer>::empty());
    while k < servers.len()
        invariant
            k <= servers@.len(),
            s@ == listed_servers(servers@.take(k as int), sorted),
        decreases servers@.len() - k,
    {
        let one: String = if sorted {
            write_sorted_server(&servers[k])
        } else {
            write_server(&servers[k])
        };
        assert(servers@.take(k + 1).drop_last() =~= servers@.take(k as int));
        assert(servers@.take(k + 1).last() == servers@[k as int]);
        if k == 0 {
            s = one;
        } else {
            s = join(join(s.as_str(), ",").as_str(), one.as_str());
        }
        k += 1;
    }
    assert(servers@.take(k as int) =~= servers@);
    join(join("[", s.as_str()).as_str(), "]")
}

/// Servers as the browser takes them: an empty user name or credential is left
/// out.
pub fn ice_servers_json(servers: &Vec<IceServer>) -> (s: String)
    ensures
        s@ == servers_json(servers@),
{
    write_servers(servers, false)
}

/// Servers as the browser takes them, with their members in alphabetical
/// order.
pub fn ice_servers_value(servers: &Vec<IceServer>) -> (s: String)
    ensures
        s@ == servers_value(servers@),
{
    write_servers(servers, true)
}

proof fn lemma_scheme(scheme: Seq<char>, rest: Seq<char>)
    requires
        !scheme.contains(':'),
    ensures
        find(scheme + ":"@ + rest, ':') == Some(scheme.len() as int),
        before(scheme + ":"@ + rest, scheme.len() as int) == scheme,
        after(scheme + ":"@ + rest, scheme.len() as int) == rest,
{
    reveal_strlit(":");
    let entry = scheme + ":"@ + rest;
    let n = scheme.len() as int;
    crate::text::lemma_find_from(entry, ':', 0);
    assert(entry[n] == ':');
    match find(entry, ':') {
        Some(i) => {
            if i < n {
                assert(entry[i] == scheme[i]);
                assert(scheme.contains(scheme[i]));
            }
        },
        None => {},
    }
    assert(before(entry, n) =~= scheme);
    assert(after(entry, n) =~= rest);
}

proof fn lemma_schemes()
    ensures
        !"stun"@.contains(':') && !"stuns"@.contains(':') && !"turn"@.contains(':')
            && !"turns"@.contains(':'),
        "stun"@ != "turn"@ && "stun"@ != "turns"@ && "stuns"@ != "turn"@ && "stuns"@ != "turns"@,
{
    reveal_strlit("stun");
    reveal_strlit("stuns");
    reveal_strlit("turn");
    reveal_strlit("turns");
    assert("stun"@[0] == 's' && "stuns"@[0] == 's' && "turn"@[0] == 't' && "turns"@[0] == 't');
}

/// A STUN entry is a server without credentials, under the name it was given by. It has a
/// host, and no credentials in front of it.
pub proof fn law_stun_entries_are_taken_whole(scheme: Seq<char>, host: Seq<char>)
    requires
        scheme == "stun"@ || scheme == "stuns"@,
    ensures
        ({
            let entry = scheme + ":"@ + host;
            let parsed = parsed_entry(entry);
            &&& parsed is Ok <==> host.len() > 0 && !host.contains('@')
            &&& parsed matches Ok(server) ==> server.urls == seq![entry] && server.username.len()
                == 0 && server.credential.len() == 0
        }),
{
    lemma_schemes();
    lemma_scheme(scheme, host);
}

/// A TURN entry is a server with the user's name and password that stand before the host.
/// A password may hold colons and at signs.
pub proof fn law_turn_entries_carry_credentials(
    scheme: Seq<char>,
    user: Seq<char>,
    password: Seq<char>,
    host: Seq<char>,
)
    requires
        scheme == "turn"@ || scheme == "turns"@,
        user.len() > 0,
        !user.contains(':'),
        password.len() > 0,
        host.len() > 0,
        !host.contains('@'),
    ensures
        parsed_entry(scheme + ":"@ + (user + ":"@ + password + "@"@ + host)) == Ok::<
            IceServerText,
            Seq<char>,
        >(
            IceServerText {
                urls: seq![scheme + ":"@ + host],
                username: user,
                credential: password,
            },
        ),
{
    reveal_strlit(":");
    lemma_schemes();
    let credentials = user + ":"@ + password;
    lemma_scheme(scheme, credentials + "@"@ + host);
    lemma_last_at(credentials, host);
    lemma_scheme(user, password);
}

/// Entries with any other scheme, and those without one, are refused.
pub proof fn law_other_schemes_are_refused(scheme: Seq<char>, rest: Seq<char>)
    requires
        !scheme.contains(':'),
        scheme != "stun"@,
        scheme != "stuns"@,
        scheme != "turn"@,
        scheme != "turns"@,
    ensures
        parsed_entry(scheme + ":"@ + rest) is Err,
        parsed_entry(scheme) is Err,
{
    lemma_scheme(scheme, rest);
    crate::text::lemma_find_from(scheme, ':', 0);
    match find(scheme, ':') {
        Some(i) => {
            assert(scheme.contains(scheme[i]));
        },
        None => {},
    }
}

/// A list is read entry by entry: a good one adds its server at the end, a blank one adds
/// nothing, white space around one does not count, and the first bad one is the error of
/// the whole list.
pub proof fn law_lists_are_read_entry_by_entry(entries: Seq<Seq<char>>, entry: Seq<char>)
    ensures
        ({
            let before = parsed_entries(entries);
            let all = parsed_entries(entries.push(entry));
            &&& before matches Err(e) ==> all == Err::<Seq<IceServerText>, Seq<char>>(e)
            &&& before matches Ok(servers) ==> {
                &&& trim(entry).len() == 0 ==> all == before
                &&& trim(entry).len() > 0 ==> match parsed_entry(trim(entry)) {
                    Ok(server) => all matches Ok(more) && more == servers.push(server),
                    Err(e) => all == Err::<Seq<IceServerText>, Seq<char>>(e),
                }
            }
        }),
        parsed_entries(Seq::empty()) == Ok::<Seq<IceServerText>, Seq<char>>(Seq::empty()),
{
    assert(entries.push(entry).drop_last() =~= entries);
}

/// Servers are listed in order with commas between them, and a server's name and password
/// are told where it has them only.
pub proof fn law_servers_are_listed_in_order(servers: Seq<IceServer>, last: IceServer, sorted: bool)
    ensures
        ({
            let one = listed_servers(seq![last], sorted);
            let before = listed_servers(servers, sorted);
            listed_servers(servers.push(last), sorted) == if servers.len() == 0 {
                one
            } else {
                before + ","@ + one
            }
        }),
        listed_servers(Seq::empty(), sorted).len() == 0,
{
    assert(servers.push(last).drop_last() =~= servers);
    assert(servers.push(last).last() == last);
    assert(seq![last].last() == last);
}

/// A server without credentials is told by its addresses alone, and one with credentials
/// tells both: servers with the same addresses that differ in a password differ.
pub proof fn law_credentials_are_told_where_there_are_any(a: IceServer, b: IceServer)
    requires
        a.urls@ == b.urls@,
        a.username@ == b.username@,
    ensures
        a.username@.len() == 0 && a.credential@.len() == 0 ==> server_json(a) == "{\"urls\":["@
            + listed(a.urls@) + "]"@ + "}"@,
        server_json(a) == server_json(b) && a.credential@.len() > 0 && b.credential@.len() > 0
            ==> a.credential@ == b.credential@,
        server_json(a) == server_json(b) ==> (a.credential@.len() == 0 <==> b.credential@.len()
            == 0),
{
    let urls = "{\"urls\":["@ + listed(a.urls@) + "]"@;
    let name = optional_member(",\"username\":"@, a.username@, ""@);
    let front = urls + name;
    let key = ",\"credential\":"@;
    reveal_strlit("");
    reveal_strlit("}");
    reveal_strlit(",\"credential\":");
    if a.username@.len() == 0 && a.credential@.len() == 0 {
        assert(server_json(a) =~= urls + "}"@);
    }
    let (x, y) = (
        optional_member(key, a.credential@, ""@),
        optional_member(key, b.credential@, ""@),
    );
    assert(server_json(a) =~= front + x + "}"@);
    assert(server_json(b) =~= front + y + "}"@);
    if server_json(a) == server_json(b) {
        crate::text::lemma_between_is_the_same(front, x, y, "}"@);
        if a.credential@.len() > 0 && b.credential@.len() > 0 {
            crate::text::lemma_between_is_the_same(
                key,
                quoted(a.credential@),
                quoted(b.credential@),
                ""@,
            );
            crate::json::law_quoting_keeps_the_text(a.credential@, b.credential@);
        }
    }
}

} // verus!
