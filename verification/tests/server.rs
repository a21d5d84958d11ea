use screen_streamer::config::Config;
use screen_streamer::error::Error;
use screen_streamer::ice::parse_ice_servers;
use screen_streamer::server::{
    hello_message, is_websocket_upgrade, page_head, route, route_text, unrecognized, Prefix, Route,
    VERSION,
};

#[test]
fn websocket_upgrade_detection_is_case_insensitive() {
    assert!(is_websocket_upgrade(
        "GET / HTTP/1.1\r\nHost: h\r\nUpgrade: websocket\r\n\r\n"
    ));
    assert!(is_websocket_upgrade(
        "GET / HTTP/1.1\r\nupgrade: websocket\r\n\r\n"
    ));
    assert!(is_websocket_upgrade(
        "GET / HTTP/1.1\r\nUPGRADE:  WebSocket \r\n\r\n"
    ));
    assert!(!is_websocket_upgrade("GET / HTTP/1.1\r\nHost: h\r\n\r\n"));
    assert!(
        !is_websocket_upgrade("GET /Upgrade: websocket HTTP/1.1\r\n\r\n"),
        "request line isn't a header"
    );
    assert!(!is_websocket_upgrade(
        "GET / HTTP/1.1\r\nX-Note: upgrade: websocket\r\n\r\n"
    ));
}

#[test]
fn hello_carries_ice_servers_and_control_flag() {
    let config = Config {
        ice_servers: parse_ice_servers("stun:s.example").unwrap(),
        control: true,
        ..Config::default()
    };
    let v: serde_json::Value = serde_json::from_str(&hello_message(&config)).unwrap();
    assert_eq!(v["type"], "hello");
    assert_eq!(v["control"], true);
    assert_eq!(v["ice_servers"][0]["urls"][0], "stun:s.example");
}

#[test]
fn prefixed_stream_replays_the_prefix_before_the_inner_stream() {
    let mut inner: &[u8] = b"world";
    let mut prefix = Prefix::new(b"hello ".to_vec());
    let mut out = Vec::new();
    loop {
        if !prefix.is_done() {
            out.extend(prefix.take(4));
        } else if !inner.is_empty() {
            let n = inner.len().min(4);
            out.extend_from_slice(&inner[..n]);
            inner = &inner[n..];
        } else {
            break;
        }
    }
    assert_eq!(out, b"hello world");
}

#[test]
fn serve_client_html_writes_a_200_response_with_the_full_page() {
    let page = "<!doctype html><p>екран</p>";
    let text = format!("{}{}", page_head(page.len()), page);
    assert!(text.starts_with("HTTP/1.1 200 OK\r\n"));
    assert!(text.contains(&format!("Content-Length: {}", page.len())));
    assert!(text.ends_with(page));
    assert_eq!(
        page_head(12345),
        "HTTP/1.1 200 OK\r\nContent-Type: text/html; charset=utf-8\r\nContent-Length: 12345\r\nConnection: close\r\n\r\n"
    );
}

#[test]
fn connections_are_routed_by_their_head() {
    assert_eq!(route(b"GET / HTTP/1.1\r\nUpgrade: websocket\r\n\r\n"), Route::WebSocket);
    assert_eq!(route(b"GET / HTTP/1.1\r\nHost: h\r\n\r\n"), Route::Page);
    assert_eq!(route(b"GET /any/path"), Route::Page);
    assert_eq!(route(b"POST / HTTP/1.1\r\n\r\n"), Route::Unrecognized);
    assert_eq!(route(b"GET"), Route::Unrecognized);
    assert_eq!(route(b""), Route::Unrecognized);
    assert_eq!(route_text("get / HTTP/1.1"), Route::Unrecognized);
}

#[test]
fn bytes_that_are_no_text_do_not_hide_an_upgrade() {
    assert_eq!(
        route(b"GET /\xff\xfe HTTP/1.1\r\nX: \x80\r\nUpgrade: websocket\r\n\r\n"),
        Route::WebSocket
    );
    assert_eq!(route(b"\xffGET / HTTP/1.1\r\n\r\n"), Route::Unrecognized);
}

#[test]
fn headers_end_at_the_first_empty_line() {
    assert!(!is_websocket_upgrade("GET / HTTP/1.1\r\nHost: h\r\n\r\nUpgrade: websocket\r\n"));
    assert!(is_websocket_upgrade("GET / HTTP/1.1\nUpgrade: websocket"));
    assert!(!is_websocket_upgrade("Upgrade: websocket"));
    assert!(!is_websocket_upgrade(""));
}

#[test]
fn an_unrecognized_connection_is_an_error() {
    assert!(matches!(unrecognized(), Error::WebRTC(_)));
    assert_eq!(
        unrecognized().message(),
        "WebRTC: Unrecognized connection (not a WebSocket upgrade or HTTP GET)"
    );
}

#[test]
fn the_greeting_is_exact() {
    assert_eq!(
        hello_message(&Config::default()),
        format!("{{\"control\":false,\"ice_servers\":[],\"type\":\"hello\",\"version\":\"{VERSION}\"}}")
    );
}

#[test]
fn a_prefix_is_handed_out_in_pieces_of_the_room_there_is() {
    let mut prefix = Prefix::new(vec![1, 2, 3]);
    assert_eq!(prefix.take(0), Vec::<u8>::new());
    assert_eq!(prefix.take(2), [1, 2]);
    assert!(!prefix.is_done());
    assert_eq!(prefix.take(9), [3]);
    assert!(prefix.is_done());
    assert_eq!(prefix.take(9), Vec::<u8>::new());
}
