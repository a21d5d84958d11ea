use screen_streamer::cli::{
    banner_text, help_text, http_scheme, is_given, log_filter, pager_command, parse_args,
    split_words, tls_paths, token_from, use_color, ws_scheme, Options,
};

fn args(a: &[&str]) -> Vec<String> {
    a.iter().map(|s| s.to_string()).collect()
}

#[test]
fn options_are_read_wherever_they_stand() {
    assert_eq!(
        parse_args(&args(&["prog", "--debug", "x", "-h"])),
        Options { help: true, no_adaptive: false, debug: true, control: false }
    );
    assert_eq!(
        parse_args(&args(&["prog", "--no-adaptive", "--control"])),
        Options { help: false, no_adaptive: true, debug: false, control: true }
    );
    assert!(parse_args(&args(&["--help"])).help);
    assert!(!is_given(&args(&["--helpx", "help"]), "--help"));
}

#[test]
fn a_certificate_needs_a_key() {
    let some = |s: &str| Some(s.to_owned());
    assert_eq!(tls_paths(None, None), Ok(None));
    assert_eq!(tls_paths(None, some("k")), Ok(None));
    assert_eq!(tls_paths(some("c"), some("k")), Ok(Some(("c".into(), "k".into()))));
    assert_eq!(
        tls_paths(some("c"), None),
        Err("RING2ZERO_TLS_CERT is set but RING2ZERO_TLS_KEY is not".into())
    );
    assert_eq!((ws_scheme(true), ws_scheme(false)), ("wss", "ws"));
    assert_eq!((http_scheme(true), http_scheme(false)), ("https", "http"));
}

#[test]
fn the_pager_setting_is_split_into_words() {
    let some = |s: &str| Some(s.to_owned());
    assert_eq!(pager_command(None), ["less", "-R", "-F", "-X"]);
    assert_eq!(pager_command(some(" \t ")), ["less", "-R", "-F", "-X"]);
    assert_eq!(pager_command(some(" most  -s\t-w ")), ["most", "-s", "-w"]);
    assert_eq!(split_words("a\u{3000}b"), ["a", "b"]);
    assert!(split_words("").is_empty());
}

#[test]
fn colour_is_for_terminals_only() {
    assert!(use_color(true, false));
    assert!(!use_color(true, true));
    assert!(!use_color(false, false));
}

#[test]
fn the_banner_is_for_terminals_only() {
    assert_eq!(banner_text(false, true, "1"), "");
    let plain = banner_text(true, false, "1.2");
    assert!(plain.starts_with("\n "));
    assert!(plain.ends_with("  Wayland screen streamer over WebRTC · v1.2\n\n"));
    assert_eq!(plain.lines().count(), 15);
    assert!(!plain.contains('\u{1b}'));
    let coloured = banner_text(true, true, "1.2");
    assert_eq!(coloured.matches("\x1b[38;2;175;58;3m").count(), 13);
    assert_eq!(coloured.matches("\x1b[0m").count(), 13);
}

#[test]
fn help_names_every_option() {
    let help = help_text();
    for option in ["--help", "--no-adaptive", "--debug", "RING2ZERO_TOKEN", "RING2ZERO_MAX_FPS"] {
        assert!(help.contains(option), "{option}");
    }
    assert!(help.starts_with("ring-2zero — Wayland"));
    assert!(help.contains("\n    -h, --help       Print this help and exit\n"));
}

#[test]
fn a_token_is_two_digits_a_byte() {
    assert_eq!(token_from(&vec![0, 1, 0x9f, 0xff]), "00019fff");
    assert_eq!(token_from(&vec![0xab; 16]).len(), 32);
    assert_eq!(token_from(&vec![]), "");
}

#[test]
fn the_default_log_shows_this_program_and_little_else() {
    assert_eq!(log_filter(false), "warn,dtls=error,webrtc_ice=error,screen_streamer=info");
    assert_eq!(log_filter(true), "warn,dtls=error,webrtc_ice=error,screen_streamer=debug");
}
