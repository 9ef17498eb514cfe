use vlan_rs::dashboard::render_counters_json;
use vlan_rs::http::{is_whitespace, reply, route_request, Route, INDEX_HTML};
use vlan_rs::switch::{PortId, PortMode, Switch};

const PORT1: PortId = PortId(1);

/// The response the dashboard sends for `request`, answering a counters
/// request from `switch`.
fn respond(switch: &Switch, request: &str) -> String {
    let route = route_request(request);
    let counters = if route == Route::Counters {
        Some(render_counters_json(switch))
    } else {
        None
    };
    reply(route, counters)
}

#[test]
fn serves_the_index_page() {
    let resp = respond(&Switch::new(), "GET / HTTP/1.1\r\nHost: x\r\n\r\n");

    assert!(resp.starts_with("HTTP/1.1 200 OK\r\n"));
    assert!(resp.contains("Content-Type: text/html"));
    assert!(resp.contains("vlan-rs dashboard"));
}

#[test]
fn serves_counters_as_json_over_the_wire() {
    let mut switch = Switch::new();
    switch.add_port(PORT1, PortMode::access(10).unwrap());

    let resp = respond(&switch, "GET /api/counters HTTP/1.1\r\nHost: x\r\n\r\n");

    assert!(resp.starts_with("HTTP/1.1 200 OK\r\n"));
    assert!(resp.contains("Content-Type: application/json"));
    assert!(resp.contains(r#""port":1,"blocked":false,"mode":{"kind":"access","vlan":10}"#));
}

#[test]
fn unknown_path_is_404() {
    let resp = respond(&Switch::new(), "GET /nope HTTP/1.1\r\nHost: x\r\n\r\n");
    assert!(resp.starts_with("HTTP/1.1 404 Not Found\r\n"));
}

#[test]
fn non_get_method_is_405() {
    let resp = respond(&Switch::new(), "POST /api/counters HTTP/1.1\r\nHost: x\r\n\r\n");
    assert!(resp.starts_with("HTTP/1.1 405 Method Not Allowed\r\n"));
}

#[test]
fn a_request_line_split_across_multiple_writes_is_still_parsed() {
    let mut switch = Switch::new();
    switch.add_port(PORT1, PortMode::access(10).unwrap());

    // The first write alone is not yet the request line that was meant.
    assert_eq!(route_request("GET /api/count"), Route::NotFound);

    let mut head = String::from("GET /api/count");
    head.push_str("ers HTTP/1.1\r\nHost: x\r\n\r\n");
    let resp = respond(&switch, &head);

    assert!(resp.starts_with("HTTP/1.1 200 OK\r\n"));
    assert!(resp.contains(r#""port":1"#));
}

#[test]
fn a_request_with_an_unread_body_still_gets_a_complete_response() {
    let body = "x".repeat(4096);
    let resp = respond(
        &Switch::new(),
        &format!(
            "POST /api/counters HTTP/1.1\r\nHost: x\r\nContent-Length: {}\r\n\r\n{body}",
            body.len()
        ),
    );

    assert!(resp.starts_with("HTTP/1.1 405 Method Not Allowed\r\n"));
    assert!(resp.ends_with("GET only"));
}

#[test]
fn only_the_first_line_is_routed() {
    assert_eq!(route_request("POST / HTTP/1.1\nGET / HTTP/1.1\n"), Route::MethodNotAllowed);
    assert_eq!(route_request("GET\n/ HTTP/1.1"), Route::NotFound);
    assert_eq!(route_request("GET /api/counters"), Route::Counters);
}

#[test]
fn words_are_split_on_any_white_space() {
    assert_eq!(route_request("  GET\t/   HTTP/1.1\r\n"), Route::Index);
    assert_eq!(route_request("GET\u{a0}/\u{2003}HTTP/1.1"), Route::Index);
    assert_eq!(route_request("GET"), Route::NotFound);
    assert_eq!(route_request(""), Route::MethodNotAllowed);
    assert_eq!(route_request("get / HTTP/1.1"), Route::MethodNotAllowed);
    assert_eq!(route_request("GET //"), Route::NotFound);
    assert_eq!(route_request("GET /api/counters/"), Route::NotFound);
}

#[test]
fn white_space_matches_char_is_whitespace() {
    for c in (0u32..0x3100).filter_map(char::from_u32) {
        assert_eq!(is_whitespace(c), c.is_whitespace(), "{c:?}");
    }
    assert_eq!(is_whitespace('\u{10ffff}'), '\u{10ffff}'.is_whitespace());
}

#[test]
fn a_reply_is_exact_and_counts_bytes_not_chars() {
    assert_eq!(
        reply(Route::Counters, Some("{\"é\":1}".to_owned())),
        "HTTP/1.1 200 OK\r\nContent-Type: application/json\r\nContent-Length: 8\r\n\
         Connection: close\r\n\r\n{\"é\":1}"
    );
    assert_eq!(
        reply(Route::Counters, None),
        "HTTP/1.1 500 Internal Server Error\r\nContent-Type: text/plain\r\nContent-Length: 18\r\n\
         Connection: close\r\n\r\ndaemon unavailable"
    );
    assert_eq!(
        reply(Route::NotFound, None),
        "HTTP/1.1 404 Not Found\r\nContent-Type: text/plain\r\nContent-Length: 9\r\n\
         Connection: close\r\n\r\nnot found"
    );
    let index = reply(Route::Index, None);
    let head = format!(
        "HTTP/1.1 200 OK\r\nContent-Type: text/html; charset=utf-8\r\nContent-Length: {}\r\n\
         Connection: close\r\n\r\n",
        INDEX_HTML.len()
    );
    assert_eq!(index, head + INDEX_HTML);
}
