//! The command line, and what is printed at startup.

use crate::json::hex_digit;
use crate::text::{chars_of, is_white_space, join, same_text, text_from, white_space};
use vstd::prelude::*;

verus! {

/// What the command line asks for.
#[derive(Clone, Copy, Debug, PartialEq, Eq, Structural)]
pub struct Options {
    pub help: bool,
    pub no_adaptive: bool,
    pub debug: bool,
    pub control: bool,
}

/// Whether an argument is given.
pub open spec fn given(args: Seq<String>, arg: Seq<char>) -> bool {
    exists|k: int| 0 <= k < args.len() && (#[trigger] args[k])@ == arg
}

/// Whether an argument is given.
pub fn is_given(args: &Vec<String>, arg: &str) -> (b: bool)
    ensures
        b == given(args@, arg@),
{
    let mut k: usize = 0;
    while k < args.len()
        invariant
            k <= args@.len(),
            forall|j: int| 0 <= j < k ==> (#[trigger] args@[j])@ != arg@,
        decreases args@.len() - k,
    {
        if same_text(args[k].as_str(), arg) {
            assert(args@[k as int]@ == arg@);
            return true;
        }
        k += 1;
    }
    false
}

/// Reads the command line. Arguments that are not known are passed over.
pub fn parse_args(args: &Vec<String>) -> (o: Options)
    ensures
        o.help == (given(args@, "--help"@) || given(args@, "-h"@)),
        o.no_adaptive == given(args@, "--no-adaptive"@),
        o.debug == given(args@, "--debug"@),
        o.control == given(args@, "--control"@),
{
    Options {
        help: is_given(args, "--help") || is_given(args, "-h"),
        no_adaptive: is_given(args, "--no-adaptive"),
        debug: is_given(args, "--debug"),
        control: is_given(args, "--control"),
    }
}

/// The names of the PEM files to serve over TLS with, or why there are none.
/// Nothing is served over TLS unless a certificate is named, and a certificate
/// without a key is an error.
pub fn tls_paths(cert: Option<String>, key: Option<String>) -> (r: Result<
    Option<(String, String)>,
    String,
>)
    ensures
        match (cert, key) {
            (None, _) => r matches Ok(None),
            (Some(c), Some(k)) => r matches Ok(Some(paths)) && paths.0@ == c@ && paths.1@ == k@,
            (Some(_), None) => r matches Err(e) && e@
                == "RING2ZERO_TLS_CERT is set but RING2ZERO_TLS_KEY is not"@,
        },
{
    match cert {
        None => Ok(None),
        Some(c) => match key {
            Some(k) => Ok(Some((c, k))),
            None => Err("RING2ZERO_TLS_CERT is set but RING2ZERO_TLS_KEY is not".to_owned()),
        },
    }
}

/// What is logged where nothing else is asked for: this program at one level, and
/// little of the crates that would drown it.
pub open spec fn default_log(debug: bool) -> Seq<char> {
    "warn,dtls=error,webrtc_ice=error,screen_streamer="@ + if debug {
        "debug"@
    } else {
        "info"@
    }
}

/// What is logged where nothing else is asked for.
pub fn log_filter(debug: bool) -> (filter: String)
    ensures
        filter@ == default_log(debug),
{
    let level: &str = if debug {
        "debug"
    } else {
        "info"
    };
    join("warn,dtls=error,webrtc_ice=error,screen_streamer=", level)
}

/// The scheme of the signaling socket.
pub fn ws_scheme(tls: bool) -> (s: &'static str)
    ensures
        s@ == (if tls {
            "wss"@
        } else {
            "ws"@
        }),
{
    if tls {
        "wss"
    } else {
        "ws"
    }
}

/// The scheme of the page.
pub fn http_scheme(tls: bool) -> (s: &'static str)
    ensures
        s@ == (if tls {
            "https"@
        } else {
            "http"@
        }),
{
    if tls {
        "https"
    } else {
        "http"
    }
}

/// The words of `text` from position `from` on: what stands between white
/// space.
pub open spec fn words_from(text: Seq<char>, from: int) -> Seq<Seq<char>>
    decreases text.len() - from,
    via words_from_shrinks
{
    if from >= text.len() {
        Seq::empty()
    } else if white_space(text[from]) {
        words_from(text, from + 1)
    } else {
        seq![text.subrange(from, word_end(text, from))] + words_from(text, word_end(text, from))
    }
}

#[via_fn]
proof fn words_from_shrinks(text: Seq<char>, from: int) {
    if from < text.len() && !white_space(text[from]) {
        lemma_word_end(text, from + 1);
    }
}

/// Where the word ends that reaches position `from`.
pub open spec fn word_end(text: Seq<char>, from: int) -> int
    decreases text.len() - from,
{
    if from >= text.len() || white_space(text[from]) {
        from
    } else {
        word_end(text, from + 1)
    }
}

proof fn lemma_word_end(text: Seq<char>, from: int)
    ensures
        from <= word_end(text, from),
        from <= text.len() ==> word_end(text, from) <= text.len(),
    decreases text.len() - from,
{
    if from < text.len() && !white_space(text[from]) {
        lemma_word_end(text, from + 1);
    }
}

/// Texts as values.
pub open spec fn values(v: Seq<String>) -> Seq<Seq<char>> {
    v.map_values(|s: String| s@)
}

/// Splits a text at white space.
pub fn split_words(text: &str) -> (words: Vec<String>)
    ensures
        values(words@) == words_from(text@, 0),
{
    let chars: Vec<char> = chars_of(text);
    let n: usize = chars.len();
    let mut words: Vec<String> = Vec::new();
    let mut from: usize = 0;
    assert(values(words@) + words_from(text@, 0) =~= words_from(text@, 0));
    while from < n
        invariant
            n == text@.len(),
            chars@ == text@,
            from <= n,
            values(words@) + words_from(text@, from as int) == words_from(text@, 0),
        decreases n - from,
    {
        if is_white_space(chars[from]) {
            from += 1;
        } else {
            let start: usize = from;
            let ghost before = words@;
            proof {
                lemma_word_end(text@, start as int);
            }
            from += 1;
            while from < n && !is_white_space(chars[from])
                invariant
                    n == text@.len(),
                    chars@ == text@,
                    start < from <= n,
                    word_end(text@, start as int) == word_end(text@, from as int),
                decreases n - from,
            {
                from += 1;
            }
            let word: String = text_from(&chars, start, from);
            words.push(word);
            assert(values(words@) =~= values(before).push(word@));
            assert(values(words@) + words_from(text@, from as int) =~= values(before) + words_from(
                text@,
                start as int,
            ));
        }
    }
    assert(words_from(text@, n as int) =~= Seq::<Seq<char>>::empty());
    assert(values(words@) + words_from(text@, n as int) =~= values(words@));
    words
}

/// What a pager is called with where none is set: colours pass through, a text
/// that fits the screen does not wait, and it stays on the screen.
pub open spec fn default_pager() -> Seq<Seq<char>> {
    seq!["less"@, "-R"@, "-F"@, "-X"@]
}

/// The pager and its arguments: the words of the setting, if it has any.
pub fn pager_command(setting: Option<String>) -> (command: Vec<String>)
    ensures
        values(command@) == (match setting {
            Some(s) => if words_from(s@, 0).len() > 0 {
                words_from(s@, 0)
            } else {
                default_pager()
            },
            None => default_pager(),
        }),
{
    if let Some(s) = &setting {
        let words: Vec<String> = split_words(s.as_str());
        assert(values(words@).len() == words@.len());
        if words.len() > 0 {
            return words;
        }
    }
    let mut command: Vec<String> = Vec::new();
    command.push("less".to_owned());
    command.push("-R".to_owned());
    command.push("-F".to_owned());
    command.push("-X".to_owned());
    assert(values(command@) =~= default_pager());
    command
}

/// Whether to print in colour: on a terminal, unless the user asked not to.
pub fn use_color(terminal: bool, no_color: bool) -> (b: bool)
    ensures
        b == (terminal && !no_color),
{
    terminal && !no_color
}

/// The code that starts the banner's colour.
pub const BANNER_COLOR: &'static str = "\x1b[38;2;175;58;3m";

/// The code that ends a colour.
pub const COLOR_END: &'static str = "\x1b[0m";

/// A line of the banner, in colour or not.
pub open spec fn banner_line(line: Seq<char>, color: bool) -> Seq<char> {
    if color {
        BANNER_COLOR@ + line + COLOR_END@ + "\n"@
    } else {
        line + "\n"@
    }
}

/// Lines of the banner, one after another.
pub open spec fn banner_lines(all: Seq<&'static str>, color: bool) -> Seq<char>
    decreases all.len(),
{
    if all.len() == 0 {
        Seq::empty()
    } else {
        banner_lines(all.drop_last(), color) + banner_line(all.last()@, color)
    }
}

/// The line below the letters.
pub open spec fn subtitle(version: Seq<char>) -> Seq<char> {
    "  Wayland screen streamer over WebRTC · v"@ + version
}

/// The banner: nothing where nobody looks at it.
pub open spec fn banner(terminal: bool, color: bool, version: Seq<char>) -> Seq<char> {
    if terminal {
        "\n"@ + banner_lines(letters(), color) + banner_line(subtitle(version), color) + "\n"@
    } else {
        Seq::empty()
    }
}

/// The banner's letters.
pub open spec fn letters() -> Seq<&'static str> {
    seq![
        " ██████▒    ██████   ███   ██    ▒████▒            ░▓████▒   ████████  ████████  ██████▒    ░████░",
        " ███████▓   ██████   ███   ██   ▓██████            ███████▒  ████████  ████████  ███████▓   ██████",
        " ██   ▒██     ██     ███▒  ██  ▒██▒  ░█            █▒░  ▓██      ░███  ██        ██   ▒██  ▒██  ██▒",
        " ██    ██     ██     ████  ██  ██▒                       ██      ███   ██        ██    ██  ██▒  ▒██",
        " ██   ▒██     ██     ██▒█▒ ██  ██░                      ▒█▓     ▒██▒   ██        ██   ▒██  ██    ██",
        " ███████▒     ██     ██ ██ ██  ██                       ██      ███    ███████   ███████▒  ██    ██",
        " ██████▓      ██     ██ ██ ██  ██  ████               ░██▒     ███     ███████   ██████▓   ██    ██",
        " ██  ▓██░     ██     ██ ▒█▒██  ██░ ████   █████      ░██▒     ▒██▒     ██        ██  ▓██░  ██    ██",
        " ██   ██▓     ██     ██  ████  ██▒   ██   █████     ▒██▒      ██▓      ██        ██   ██▓  ██▒  ▒██",
        " ██   ▒██     ██     ██  ▒███  ▒██▒  ██            ▒██▒      ███       ██        ██   ▒██  ▒██  ██▒",
        " ██    ██▒  ██████   ██   ███   ███████            ████████  ████████  ████████  ██    ██▒  ██████",
        " ██    ███  ██████   ██   ███    ▒████░            ████████  ████████  ████████  ██    ███  ░████░",
    ]
}

fn write_line(line: &str, color: bool) -> (s: String)
    ensures
        s@ == banner_line(line@, color),
{
    if color {
        let s: String = join(BANNER_COLOR, line);
        let s: String = join(s.as_str(), COLOR_END);
        join(s.as_str(), "\n")
    } else {
        join(line, "\n")
    }
}

/// The banner that is printed at startup.
pub fn banner_text(terminal: bool, color: bool, version: &str) -> (s: String)
    ensures
        s@ == banner(terminal, color, version@),
{
    if !terminal {
        return String::new();
    }
    let all: Vec<&'static str> = vec![
        " ██████▒    ██████   ███   ██    ▒████▒            ░▓████▒   ████████  ████████  ██████▒    ░████░",
        " ███████▓   ██████   ███   ██   ▓██████            ███████▒  ████████  ████████  ███████▓   ██████",
        " ██   ▒██     ██     ███▒  ██  ▒██▒  ░█            █▒░  ▓██      ░███  ██        ██   ▒██  ▒██  ██▒",
        " ██    ██     ██     ████  ██  ██▒                       ██      ███   ██        ██    ██  ██▒  ▒██",
        " ██   ▒██     ██     ██▒█▒ ██  ██░                      ▒█▓     ▒██▒   ██        ██   ▒██  ██    ██",
        " ███████▒     ██     ██ ██ ██  ██                       ██      ███    ███████   ███████▒  ██    ██",
        " ██████▓      ██     ██ ██ ██  ██  ████               ░██▒     ███     ███████   ██████▓   ██    ██",
        " ██  ▓██░     ██     ██ ▒█▒██  ██░ ████   █████      ░██▒     ▒██▒     ██        ██  ▓██░  ██    ██",
        " ██   ██▓     ██     ██  ████  ██▒   ██   █████     ▒██▒      ██▓      ██        ██   ██▓  ██▒  ▒██",
        " ██   ▒██     ██     ██  ▒███  ▒██▒  ██            ▒██▒      ███       ██        ██   ▒██  ▒██  ██▒",
        " ██    ██▒  ██████   ██   ███   ███████            ████████  ████████  ████████  ██    ██▒  ██████",
        " ██    ███  ██████   ██   ███    ▒████░            ████████  ████████  ████████  ██    ███  ░████░",
    ];
    assert(all@ =~= letters());
    let mut s: String = "\n".to_owned();
    let mut k: usize = 0;
    assert(all@.take(0) =~= Seq::<&'static str>::empty());
    assert(s@ =~= "\n"@ + banner_lines(all@.take(0), color));
    while k < all.len()
        invariant
            k <= all@.len(),
            s@ == "\n"@ + banner_lines(all@.take(k as int), color),
        decreases all@.len() - k,
    {
        let line: String = write_line(all[k], color);
        assert(all@.take(k + 1).drop_last() =~= all@.take(k as int));
        s = join(s.as_str(), line.as_str());
        assert(s@ =~= "\n"@ + banner_lines(all@.take(k + 1), color));
        k += 1;
    }
    assert(all@.take(k as int) =~= all@);
    let below: String = join("  Wayland screen streamer over WebRTC · v", version);
    let below: String = write_line(below.as_str(), color);
    let s: String = join(s.as_str(), below.as_str());
    join(s.as_str(), "\n")
}

/// What `--help` prints.
pub fn help_text() -> (s: &'static str)
    ensures
        s@ == HELP@,
{
    HELP
}

/// The text of `--help`.
pub const HELP: &'static str = "ring-2zero — Wayland screen streaming server over WebRTC\n\nCaptures your screen — DMA-BUF zero-copy on wlroots compositors\n(niri, sway), or via the PipeWire portal on GNOME/KDE/X11 — and\nstreams it live to any browser over a WebRTC DataChannel. No X11\nforwarding, no VNC client, just a URL. Tile-based diff encoding\nwith adaptive WebP quality keeps bandwidth low; the browser client\nis served by this same binary, including over Tailscale/TLS for\nremote access.\n\nUSAGE:\n\x20   ring-2zero [OPTIONS]\n\x20   r2zr [OPTIONS]           (shorthand alias — set up by install.sh)\n\nOPTIONS:\n\x20   -h, --help       Print this help and exit\n\x20   --no-adaptive    Skip the startup CPU benchmark, use merge_gap=0\n\x20   --debug          Verbose per-tile/per-frame stats every 100 frames\n\nOnce running, open http://<this-machine>:9001 in a browser — the auth\ntoken printed on startup is the connection password. No separate client\nfile or static file server needed, the page is served by this binary.\n\nENVIRONMENT VARIABLES:\n\x20   RING2ZERO_TOKEN           Fixed auth token (default: random, printed on startup)\n\x20   RING2ZERO_TLS_CERT/_KEY   PEM cert/key paths to serve wss:// (required for Safari/iOS)\n\x20   RING2ZERO_ICE_INTERFACE   Restrict ICE candidate gathering to one interface\n\x20   RING2ZERO_IPV4_ONLY       Set to exclude IPv6 ICE candidates\n\x20   RING2ZERO_MAX_FPS         Cap target/static/dynamic FPS uniformly (1-1000)\n\nDon't have the r2zr alias yet? Run ./install.sh (or --no-alias to skip\neverything else it does and just add the alias by hand — see its\nsource for the per-shell alias/abbr syntax).\n\nSee README.md / docs/DEVELOPMENT.md for the full reference.\n";

/// A hexadecimal digit.
fn hex_text(d: u8) -> (s: &'static str)
    requires
        d < 16,
    ensures
        s@ == seq![hex_digit(d as int)],
{
    proof {
        reveal_strlit("0");
        reveal_strlit("1");
        reveal_strlit("2");
        reveal_strlit("3");
        reveal_strlit("4");
        reveal_strlit("5");
        reveal_strlit("6");
        reveal_strlit("7");
        reveal_strlit("8");
        reveal_strlit("9");
        reveal_strlit("a");
        reveal_strlit("b");
        reveal_strlit("c");
        reveal_strlit("d");
        reveal_strlit("e");
        reveal_strlit("f");
    }
    let s: &'static str = match d {
        0 => "0",
        1 => "1",
        2 => "2",
        3 => "3",
        4 => "4",
        5 => "5",
        6 => "6",
        7 => "7",
        8 => "8",
        9 => "9",
        10 => "a",
        11 => "b",
        12 => "c",
        13 => "d",
        14 => "e",
        _ => "f",
    };
    assert(s@ =~= seq![hex_digit(d as int)]);
    s
}

/// Bytes in hexadecimal, two digits each.
pub open spec fn hex(bytes: Seq<u8>) -> Seq<char>
    decreases bytes.len(),
{
    if bytes.len() == 0 {
        Seq::empty()
    } else {
        hex(bytes.drop_last()).push(hex_digit(bytes.last() as int / 16)).push(
            hex_digit(bytes.last() as int % 16),
        )
    }
}

/// A token from random bytes.
pub fn token_from(bytes: &Vec<u8>) -> (token: String)
    ensures
        token@ == hex(bytes@),
{
    let mut token: String = String::new();
    let mut k: usize = 0;
    assert(bytes@.take(0) =~= Seq::<u8>::empty());
    assert(token@ =~= Seq::<char>::empty());
    while k < bytes.len()
        invariant
            k <= bytes@.len(),
            token@ == hex(bytes@.take(k as int)),
        decreases bytes@.len() - k,
    {
        let b: u8 = bytes[k];
        let ghost before = token@;
        let s: String = join(token.as_str(), hex_text(b / 16));
        token = join(s.as_str(), hex_text(b % 16));
        assert(bytes@.take(k + 1).drop_last() =~= bytes@.take(k as int));
        assert(token@ =~= before.push(hex_digit(b as int / 16)).push(hex_digit(b as int % 16)));
        k += 1;
    }
    assert(bytes@.take(k as int) =~= bytes@);
    token
}

/// A token has two characters for each byte it was made from.
pub proof fn law_token_length(bytes: Seq<u8>)
    ensures
        hex(bytes).len() == 2 * bytes.len(),
    decreases bytes.len(),
{
    if bytes.len() > 0 {
        law_token_length(bytes.drop_last());
    }
}

/// What a hexadecimal digit counts.
pub open spec fn digit_value(c: char) -> int {
    if '0' <= c <= '9' {
        c as int - 48
    } else {
        c as int - 87
    }
}

/// A token tells the bytes it was made from: two digits each, the first for the sixteens,
/// from `0` to `9` and then `a` to `f`.
pub proof fn law_token_tells_its_bytes(bytes: Seq<u8>, k: int)
    requires
        0 <= k < bytes.len(),
    ensures
        ({
            let (high, low) = (hex(bytes)[2 * k], hex(bytes)[2 * k + 1]);
            &&& ('0' <= high <= '9' || 'a' <= high <= 'f')
            &&& ('0' <= low <= '9' || 'a' <= low <= 'f')
            &&& digit_value(high) * 16 + digit_value(low) == bytes[k]
        }),
    decreases bytes.len(),
{
    law_token_length(bytes.drop_last());
    if k < bytes.len() - 1 {
        law_token_tells_its_bytes(bytes.drop_last(), k);
    }
}

proof fn lemma_word_end_before(text: Seq<char>, c: char, rest: Seq<char>, from: int)
    requires
        white_space(c),
        0 <= from <= text.len(),
    ensures
        word_end(text + seq![c] + rest, from) == word_end(text, from),
        from <= word_end(text, from) <= text.len(),
    decreases text.len() - from,
{
    let whole = text + seq![c] + rest;
    if from < text.len() {
        assert(whole[from] == text[from]);
        if !white_space(text[from]) {
            lemma_word_end_before(text, c, rest, from + 1);
        }
    } else {
        assert(whole[from] == c);
    }
}

proof fn lemma_word_end_after(front: Seq<char>, text: Seq<char>, from: int)
    requires
        0 <= from <= text.len(),
    ensures
        word_end(front + text, front.len() + from) == front.len() + word_end(text, from),
        from <= word_end(text, from) <= text.len(),
    decreases text.len() - from,
{
    if from < text.len() {
        assert((front + text)[front.len() + from] == text[from]);
        if !white_space(text[from]) {
            lemma_word_end_after(front, text, from + 1);
        }
    }
}

proof fn lemma_words_after(front: Seq<char>, text: Seq<char>, from: int)
    requires
        0 <= from <= text.len(),
    ensures
        words_from(front + text, front.len() + from) == words_from(text, from),
    decreases text.len() - from,
{
    if from < text.len() {
        assert((front + text)[front.len() + from] == text[from]);
        if white_space(text[from]) {
            lemma_words_after(front, text, from + 1);
        } else {
            lemma_word_end_after(front, text, from);
            lemma_word_end_after(front, text, from + 1);
            let end = word_end(text, from);
            lemma_words_after(front, text, end);
            assert((front + text).subrange(front.len() + from, front.len() + end)
                =~= text.subrange(from, end));
        }
    }
}

proof fn lemma_words_before(text: Seq<char>, c: char, rest: Seq<char>, from: int)
    requires
        white_space(c),
        0 <= from <= text.len(),
    ensures
        words_from(text + seq![c] + rest, from) == words_from(text, from) + words_from(rest, 0),
    decreases text.len() - from,
{
    let whole = text + seq![c] + rest;
    if from < text.len() {
        assert(whole[from] == text[from]);
        if white_space(text[from]) {
            lemma_words_before(text, c, rest, from + 1);
        } else {
            lemma_word_end_before(text, c, rest, from);
            lemma_word_end_before(text, c, rest, from + 1);
            let end = word_end(text, from);
            lemma_words_before(text, c, rest, end);
            assert(whole.subrange(from, end) =~= text.subrange(from, end));
            assert(words_from(whole, from) =~= words_from(text, from) + words_from(rest, 0));
        }
    } else {
        assert(whole[from] == c);
        let front = text + seq![c];
        lemma_words_after(front, rest, 0);
        assert(words_from(whole, from) =~= words_from(text, from) + words_from(rest, 0));
    }
}

/// White space parts words: the words of two texts with white space between them are those
/// of the first and then those of the second. A text without white space is one word, and
/// an empty one has none.
pub proof fn law_words_are_parted_by_white_space(text: Seq<char>, c: char, rest: Seq<char>)
    requires
        white_space(c),
    ensures
        words_from(text + seq![c] + rest, 0) == words_from(text, 0) + words_from(rest, 0),
        text.len() > 0 && (forall|k: int| 0 <= k < text.len() ==> !white_space(#[trigger] text[k]))
            ==> words_from(text, 0) == seq![text],
        words_from(Seq::empty(), 0) == Seq::<Seq<char>>::empty(),
{
    lemma_words_before(text, c, rest, 0);
    if text.len() > 0 && (forall|k: int|
        0 <= k < text.len() ==> !white_space(#[trigger] text[k])) {
        lemma_whole_word(text, 0);
        assert(text.subrange(0, text.len() as int) =~= text);
        assert(!white_space(text[0]));
        assert(words_from(text, text.len() as int) =~= Seq::<Seq<char>>::empty());
        assert(words_from(text, 0) =~= seq![text]);
    }
}

proof fn lemma_whole_word(text: Seq<char>, from: int)
    requires
        0 <= from <= text.len(),
        forall|k: int| 0 <= k < text.len() ==> !white_space(#[trigger] text[k]),
    ensures
        word_end(text, from) == text.len(),
    decreases text.len() - from,
{
    if from < text.len() {
        assert(!white_space(text[from]));
        lemma_whole_word(text, from + 1);
    }
}

/// The banner has its lines between two empty ones; colour is put around each line and
/// changes nothing else of it.
pub proof fn law_colour_is_put_around_lines(line: Seq<char>)
    ensures
        banner_line(line, false) == line + "\n"@,
        banner_line(line, true) == BANNER_COLOR@ + line + COLOR_END@ + "\n"@,
        banner(false, true, line).len() == 0,
        banner(false, false, line).len() == 0,
{
}

/// An argument is given where it stands anywhere among the arguments, letter for letter.
pub proof fn law_arguments_count_wherever_they_stand(
    first: Seq<String>,
    rest: Seq<String>,
    one: String,
    arg: Seq<char>,
)
    ensures
        given(first + rest, arg) <==> given(first, arg) || given(rest, arg),
        given(seq![one], arg) <==> one@ == arg,
        !given(Seq::empty(), arg),
{
    let all = first + rest;
    if given(all, arg) {
        let k = choose|k: int| 0 <= k < all.len() && (#[trigger] all[k])@ == arg;
        if k < first.len() {
            assert(first[k]@ == arg);
        } else {
            assert(rest[k - first.len()]@ == arg);
        }
    }
    if given(first, arg) {
        let k = choose|k: int| 0 <= k < first.len() && (#[trigger] first[k])@ == arg;
        assert(all[k]@ == arg);
    }
    if given(rest, arg) {
        let k = choose|k: int| 0 <= k < rest.len() && (#[trigger] rest[k])@ == arg;
        assert(all[first.len() + k]@ == arg);
    }
    assert(seq![one][0] == one);
    if one@ == arg {
        assert(seq![one][0]@ == arg);
    }
}

} // verus!
