//! What a new connection is, and what it is told.

use crate::config::Config;
use crate::error::Error;
use crate::ice::{ice_servers_value, servers_value};
use crate::json::{quote, quoted};
use crate::text::{
    after, all_chars, before, copy_range, decimal, decimal_text, find, find_char, holds_part, join,
    lines, matches_ignoring_case, same_ignoring_case, split_lines, stands_at, starts_with, trim,
    trim_range,
};
use vstd::prelude::*;
use vstd::utf8::{decode_utf8, valid_utf8};

verus! {

/// Whether a header line asks for an upgrade to a WebSocket.
pub open spec fn asks_for_upgrade(line: Seq<char>) -> bool {
    match find(line, ':') {
        Some(i) => same_ignoring_case(trim(before(line, i)), "upgrade"@) && same_ignoring_case(
            trim(after(line, i)),
            "websocket"@,
        ),
        None => false,
    }
}

/// Whether a line of a request's headers asks for an upgrade to a WebSocket.
/// The headers follow the request line and end at the first empty line.
pub open spec fn upgrades(request: Seq<Seq<char>>) -> bool {
    exists|k: int|
        1 <= k < request.len() && #[trigger] asks_for_upgrade(request[k]) && forall|j: int|
            1 <= j <= k ==> (#[trigger] request[j]).len() > 0
}

fn is_upgrade_header(line: &Vec<char>) -> (b: bool)
    ensures
        b == asks_for_upgrade(line@),
{
    let n: usize = line.len();
    match find_char(line, ':', 0) {
        Some(i) => {
            let name: Vec<char> = copy_range(line, 0, i);
            let value: Vec<char> = copy_range(line, i + 1, n);
            let (a, b) = trim_range(&name, 0, name.len());
            let (c, d) = trim_range(&value, 0, value.len());
            assert(name@.subrange(0, name@.len() as int) =~= before(line@, i as int));
            assert(value@.subrange(0, value@.len() as int) =~= after(line@, i as int));
            matches_ignoring_case(&name, a, b, "upgrade") && matches_ignoring_case(
                &value,
                c,
                d,
                "websocket",
            )
        },
        None => false,
    }
}

/// Whether the head of a request is a WebSocket upgrade. Header names and the
/// `websocket` token are compared whatever their case.
pub fn is_websocket_upgrade(request: &str) -> (b: bool)
    ensures
        b == upgrades(lines(request@)),
{
    let all: Vec<Vec<char>> = split_lines(request);
    let ghost values = lines(request@);
    assert(values.len() == all@.len());
    let mut k: usize = 1;
    while k < all.len()
        invariant
            values == all_chars(all@),
            values == lines(request@),
            1 <= k,
            forall|j: int| 1 <= j < k ==> (#[trigger] values[j]).len() > 0,
            forall|j: int| 1 <= j < k && j < values.len() ==> !#[trigger] asks_for_upgrade(values[j]),
        decreases all@.len() - k,
    {
        assert(values[k as int] == all@[k as int]@);
        if all[k].len() == 0 {
            return false;
        }
        if is_upgrade_header(&all[k]) {
            assert(asks_for_upgrade(values[k as int]));
            return true;
        }
        k += 1;
    }
    false
}

/// What a client wants of a connection.
#[derive(Clone, Copy, Debug, PartialEq, Eq, Structural)]
pub enum Route {
    WebSocket,
    /// The client page; every path gives the same one.
    Page,
    Unrecognized,
}

/// What the head of a request asks for.
pub open spec fn route_of(request: Seq<char>) -> Route {
    if upgrades(lines(request)) {
        Route::WebSocket
    } else if "GET "@.is_prefix_of(request) {
        Route::Page
    } else {
        Route::Unrecognized
    }
}

/// Bytes as text, with every invalid sequence replaced.
pub uninterp spec fn lossy_text(bytes: Seq<u8>) -> Seq<char>;

/// `String::from_utf8_lossy`: the text depends on the bytes alone, and is the
/// one they encode where they are valid UTF-8. What replaces an invalid
/// sequence is left unsaid.
#[verifier::external_body]
pub(crate) fn request_text(bytes: &[u8]) -> (text: String)
    ensures
        text@ == lossy_text(bytes@),
        valid_utf8(bytes@) ==> text@ == decode_utf8(bytes@),
{
    String::from_utf8_lossy(bytes).into_owned()
}

/// Routes a request whose head is this text.
pub fn route_text(request: &str) -> (route: Route)
    ensures
        route == route_of(request@),
{
    if is_websocket_upgrade(request) {
        Route::WebSocket
    } else if starts_with(request, "GET ") {
        Route::Page
    } else {
        Route::Unrecognized
    }
}

/// Routes a connection by the first bytes that came on it.
pub fn route(head: &[u8]) -> (route: Route)
    ensures
        route == route_of(lossy_text(head@)),
        valid_utf8(head@) ==> route == route_of(decode_utf8(head@)),
{
    let text: String = request_text(head);
    route_text(text.as_str())
}

/// The error for a connection that is neither an upgrade nor a page request.
pub fn unrecognized() -> (e: Error)
    ensures
        e matches Error::WebRTC(text) && text@
            == "Unrecognized connection (not a WebSocket upgrade or HTTP GET)"@,
{
    Error::WebRTC("Unrecognized connection (not a WebSocket upgrade or HTTP GET)".to_owned())
}

/// What stands before a page of `len` bytes.
pub open spec fn page_head_text(len: nat) -> Seq<char> {
    "HTTP/1.1 200 OK\r\nContent-Type: text/html; charset=utf-8\r\nContent-Length: "@ + decimal(len)
        + "\r\nConnection: close\r\n\r\n"@
}

/// The head of the response that carries a page of `len` bytes.
pub fn page_head(len: usize) -> (head: String)
    ensures
        head@ == page_head_text(len as nat),
{
    let n: String = decimal_text(len as u64);
    let head: String = join(
        "HTTP/1.1 200 OK\r\nContent-Type: text/html; charset=utf-8\r\nContent-Length: ",
        n.as_str(),
    );
    join(head.as_str(), "\r\nConnection: close\r\n\r\n")
}

/// Bytes that were read ahead of a stream and are to be read again first.
pub struct Prefix {
    bytes: Vec<u8>,
    pos: usize,
}

impl View for Prefix {
    type V = Seq<u8>;

    /// The bytes still to be read.
    closed spec fn view(&self) -> Seq<u8> {
        self.bytes@.skip(self.pos as int)
    }
}

impl Prefix {
    #[verifier::type_invariant]
    spec fn inside(self) -> bool {
        self.pos <= self.bytes@.len()
    }

    pub fn new(bytes: Vec<u8>) -> (p: Self)
        ensures
            p@ == bytes@,
    {
        let p = Prefix { bytes, pos: 0 };
        assert(p@ =~= bytes@);
        p
    }

    /// Whether everything was read again: reads go to the stream itself.
    pub fn is_done(&self) -> (done: bool)
        ensures
            done == (self@.len() == 0),
    {
        proof {
            use_type_invariant(self);
        }
        self.pos == self.bytes.len()
    }

    /// Reads the next bytes again, as many as there are but at most `room`.
    pub fn take(&mut self, room: usize) -> (part: Vec<u8>)
        ensures
            part@ + final(self)@ == old(self)@,
            part@.len() == room || final(self)@.len() == 0,
            part@.len() <= room,
    {
        proof {
            use_type_invariant(&*self);
        }
        let len: usize = self.bytes.len();
        let left: usize = len - self.pos;
        let n: usize = if left < room {
            left
        } else {
            room
        };
        let mut part: Vec<u8> = Vec::new();
        let mut k: usize = 0;
        while k < n
            invariant
                len == self.bytes@.len(),
                k <= n <= len - self.pos,
                part@ == self.bytes@.subrange(self.pos as int, self.pos + k),
            decreases n - k,
        {
            part.push(self.bytes[self.pos + k]);
            assert(part@ =~= self.bytes@.subrange(self.pos as int, self.pos + k + 1));
            k += 1;
        }
        self.pos = self.pos + n;
        assert(part@ + self@ =~= old(self)@);
        part
    }
}

/// The version that the greeting names.
pub const VERSION: &'static str = "0.300.0";

/// A flag as JSON.
pub open spec fn flag_json(flag: bool) -> Seq<char> {
    if flag {
        "true"@
    } else {
        "false"@
    }
}

/// The greeting: what a client needs to build a matching peer connection.
pub open spec fn hello_text(config: Config) -> Seq<char> {
    "{\"control\":"@ + flag_json(config.control) + ",\"ice_servers\":"@ + servers_value(
        config.ice_servers@,
    ) + ",\"type\":\"hello\",\"version\":"@ + quoted(VERSION@) + "}"@
}

/// The first message to a client that was let in.
pub fn hello_message(config: &Config) -> (json: String)
    ensures
        json@ == hello_text(*config),
{
    let flag: &str = if config.control {
        "true"
    } else {
        "false"
    };
    let servers: String = ice_servers_value(&config.ice_servers);
    let version: String = quote(VERSION);
    let s: String = join("{\"control\":", flag);
    let s: String = join(s.as_str(), ",\"ice_servers\":");
    let s: String = join(s.as_str(), servers.as_str());
    let s: String = join(s.as_str(), ",\"type\":\"hello\",\"version\":");
    let s: String = join(s.as_str(), version.as_str());
    join(s.as_str(), "}")
}

/// A header line asks for a WebSocket by what stands before and behind its first colon,
/// whatever white space is around either and whatever their case.
pub proof fn law_upgrade_header_is_read_at_its_colon(name: Seq<char>, value: Seq<char>)
    requires
        !name.contains(':'),
    ensures
        asks_for_upgrade(name + seq![':'] + value) <==> same_ignoring_case(
            trim(name),
            "upgrade"@,
        ) && same_ignoring_case(trim(value), "websocket"@),
        !asks_for_upgrade(name),
{
    let line = name + seq![':'] + value;
    let n = name.len() as int;
    crate::text::lemma_find_from(line, ':', 0);
    crate::text::lemma_find_from(name, ':', 0);
    assert(line[n] == ':');
    match find(line, ':') {
        Some(i) => {
            if i < n {
                assert(line[i] == name[i]);
                assert(name.contains(name[i]));
            }
        },
        None => {},
    }
    match find(name, ':') {
        Some(i) => {
            assert(name.contains(name[i]));
        },
        None => {},
    }
    assert(before(line, n) =~= name);
    assert(after(line, n) =~= value);
}

/// The request line and what follows the headers do not count: a request is an upgrade by
/// its header lines alone, and by any one of them.
pub proof fn law_only_headers_make_an_upgrade(request: Seq<Seq<char>>, first: Seq<char>, k: int)
    requires
        1 <= k < request.len(),
    ensures
        upgrades(request) == upgrades(request.update(0, first)),
        request[k].len() == 0 ==> upgrades(request) == upgrades(request.take(k)),
        asks_for_upgrade(request[k]) && (forall|j: int|
            1 <= j <= k ==> (#[trigger] request[j]).len() > 0) ==> upgrades(request),
        upgrades(request) ==> exists|j: int|
            1 <= j < request.len() && #[trigger] asks_for_upgrade(request[j]),
{
    let other = request.update(0, first);
    if upgrades(request) {
        let m = choose|m: int|
            1 <= m < request.len() && #[trigger] asks_for_upgrade(request[m]) && forall|j: int|
                1 <= j <= m ==> (#[trigger] request[j]).len() > 0;
        assert(asks_for_upgrade(other[m]));
        assert forall|j: int| 1 <= j <= m implies (#[trigger] other[j]).len() > 0 by {
            assert(request[j].len() > 0);
        }
        if request[k].len() == 0 {
            assert(m < k);
            let head = request.take(k);
            assert(asks_for_upgrade(head[m]));
            assert forall|j: int| 1 <= j <= m implies (#[trigger] head[j]).len() > 0 by {
                assert(request[j].len() > 0);
            }
        }
    }
    if upgrades(other) {
        let m = choose|m: int|
            1 <= m < other.len() && #[trigger] asks_for_upgrade(other[m]) && forall|j: int|
                1 <= j <= m ==> (#[trigger] other[j]).len() > 0;
        assert(asks_for_upgrade(request[m]));
        assert forall|j: int| 1 <= j <= m implies (#[trigger] request[j]).len() > 0 by {
            assert(other[j].len() > 0);
        }
    }
    if upgrades(request.take(k)) {
        let head = request.take(k);
        let m = choose|m: int|
            1 <= m < head.len() && #[trigger] asks_for_upgrade(head[m]) && forall|j: int|
                1 <= j <= m ==> (#[trigger] head[j]).len() > 0;
        assert(asks_for_upgrade(request[m]));
        assert forall|j: int| 1 <= j <= m implies (#[trigger] request[j]).len() > 0 by {
            assert(head[j].len() > 0);
        }
    }
}

/// An upgrade is served as one whatever its method; of the rest, `GET` requests get the
/// page and others nothing.
pub proof fn law_requests_are_routed(request: Seq<char>)
    ensures
        route_of(request) is WebSocket <==> upgrades(lines(request)),
        route_of(request) is Page ==> "GET "@.is_prefix_of(request),
        !upgrades(lines(request)) && "GET "@.is_prefix_of(request) ==> route_of(request) is Page,
        route_of(request) is Unrecognized ==> !"GET "@.is_prefix_of(request),
{
}

/// The head of a page ends with an empty line and tells the page's length and nothing else
/// that depends on it.
pub proof fn law_page_head_tells_the_length(len: nat)
    ensures
        ({
            let head = page_head_text(len);
            &&& "HTTP/1.1 200 OK\r\n"@.is_prefix_of(head)
            &&& holds_part(head, "\r\nContent-Length: "@ + decimal(len) + "\r\n"@)
            &&& "\r\n\r\n"@.is_suffix_of(head)
        }),
{
    reveal_strlit("HTTP/1.1 200 OK\r\n");
    reveal_strlit("\r\nContent-Length: ");
    reveal_strlit("\r\n");
    reveal_strlit("\r\n\r\n");
    reveal_strlit(
        "HTTP/1.1 200 OK\r\nContent-Type: text/html; charset=utf-8\r\nContent-Length: ",
    );
    reveal_strlit("\r\nConnection: close\r\n\r\n");
    let front = "HTTP/1.1 200 OK\r\nContent-Type: text/html; charset=utf-8\r\nContent-Length: "@;
    let back = "\r\nConnection: close\r\n\r\n"@;
    let head = page_head_text(len);
    let part = "\r\nContent-Length: "@ + decimal(len) + "\r\n"@;
    let start = front.len() - "\r\nContent-Length: "@.len();
    assert("HTTP/1.1 200 OK\r\n"@ =~= head.subrange(0, "HTTP/1.1 200 OK\r\n"@.len() as int));
    assert(front.subrange(start, front.len() as int) =~= "\r\nContent-Length: "@);
    assert(head.subrange(start, start + part.len()) =~= part) by {
        let m = "\r\nContent-Length: "@.len() as int;
        let d = decimal(len).len() as int;
        assert forall|j: int| 0 <= j < part.len() implies head[start + j] == part[j] by {
            if j < m {
                assert(head[start + j] == front[start + j]);
            } else if j < m + d {
                assert(head[start + j] == decimal(len)[j - m]);
            } else {
                assert(head[start + j] == back[j - m - d]);
            }
        }
    }
    assert(stands_at(head, part, start));
    assert("\r\n\r\n"@ =~= head.subrange(head.len() - 4, head.len() as int));
}

/// The greeting tells whether the client may take control, and the servers to use.
pub proof fn law_greeting_tells_control_and_servers(a: Config, b: Config)
    requires
        hello_text(a) == hello_text(b),
    ensures
        a.control == b.control,
        servers_value(a.ice_servers@) == servers_value(b.ice_servers@),
{
    reveal_strlit("{\"control\":");
    reveal_strlit("true");
    reveal_strlit("false");
    let open = "{\"control\":"@;
    let (x, y) = (hello_text(a), hello_text(b));
    let n = open.len() as int;
    assert(x[n] == flag_json(a.control)[0]);
    assert(y[n] == flag_json(b.control)[0]);
    let front = open + flag_json(a.control) + ",\"ice_servers\":"@;
    let back = ",\"type\":\"hello\",\"version\":"@ + quoted(VERSION@) + "}"@;
    let (s, t) = (servers_value(a.ice_servers@), servers_value(b.ice_servers@));
    assert(x =~= front + s + back);
    assert(y =~= front + t + back);
    crate::text::lemma_between_is_the_same(front, s, t, back);
}

} // verus!
