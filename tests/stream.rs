use canva_indexer::api::extract_homeserver_id;
use canva_indexer::sse::{parse_pixel_uri, parse_sse_response};
use canva_indexer::watcher::build_events_url;

#[test]
fn sse_empty_input() {
    assert!(parse_sse_response("").is_empty());
    assert!(parse_sse_response("\n\n\n").is_empty());
}

#[test]
fn sse_blocks_and_trailing_block() {
    let text = "event: PUT\ndata: pubky://alice/pub/pubky-canva/pixels/0000000000001\ndata: cursor: 42\ndata: content_hash: abc\n\nevent: DEL\ndata: pubky://bob/pub/x\ndata: cursor: 43";
    let evs = parse_sse_response(text);
    assert_eq!(evs.len(), 2);
    assert_eq!(evs[0].event_type, "PUT");
    assert_eq!(evs[0].uri, "pubky://alice/pub/pubky-canva/pixels/0000000000001");
    assert_eq!(evs[0].cursor, "42");
    assert_eq!(evs[1].event_type, "DEL");
    assert_eq!(evs[1].uri, "pubky://bob/pub/x");
    assert_eq!(evs[1].cursor, "43");
}

#[test]
fn sse_trailing_block_needs_uri() {
    let evs = parse_sse_response("event: PUT\ndata: cursor: 7\n");
    assert!(evs.is_empty());
}

#[test]
fn sse_crlf_and_trimming() {
    let text = "event:  PUT \r\ndata:   pubky://a/pub/pubky-canva/pixels/X  \r\ndata: cursor: 9\r\n\r\n";
    let evs = parse_sse_response(text);
    assert_eq!(evs.len(), 1);
    assert_eq!(evs[0].event_type, "PUT");
    assert_eq!(evs[0].uri, "pubky://a/pub/pubky-canva/pixels/X");
    assert_eq!(evs[0].cursor, "9");
}

#[test]
fn sse_unknown_lines_ignored() {
    let text = ": comment\nid: 5\nevent: PUT\ndata: \ndata: pubky://a/pub/pubky-canva/pixels/Y\nretry: 10\n\n";
    let evs = parse_sse_response(text);
    assert_eq!(evs.len(), 1);
    assert_eq!(evs[0].uri, "pubky://a/pub/pubky-canva/pixels/Y");
    assert_eq!(evs[0].cursor, "");
}

#[test]
fn sse_block_without_type_is_dropped() {
    let evs = parse_sse_response("data: pubky://a/pub/pubky-canva/pixels/Y\n\nevent: PUT\n\n");
    assert_eq!(evs.len(), 1);
    assert_eq!(evs[0].event_type, "PUT");
    assert_eq!(evs[0].uri, "pubky://a/pub/pubky-canva/pixels/Y");
}

#[test]
fn pixel_uri_parts() {
    assert_eq!(
        parse_pixel_uri("pubky://alice/pub/pubky-canva/pixels/0000000000001"),
        Some(("alice", "0000000000001"))
    );
    assert_eq!(parse_pixel_uri("pubky://alice/pub/pubky-canva/pixels/"), None);
    assert_eq!(parse_pixel_uri("pubky://alice/pub/other/pixels/X"), None);
    assert_eq!(parse_pixel_uri("https://alice/pub/pubky-canva/pixels/X"), None);
    assert_eq!(parse_pixel_uri("pubky://alice"), None);
    assert_eq!(parse_pixel_uri("pubky:///pub/pubky-canva/pixels/X"), Some(("", "X")));
}

#[test]
fn events_url() {
    let users = vec![
        ("pk1".to_string(), "".to_string()),
        ("pk2".to_string(), "17".to_string()),
    ];
    assert_eq!(
        build_events_url("hs1", &users),
        "https://hs1/events-stream?path=/pub/pubky-canva/pixels/&user=pk1&user=pk2:17"
    );
    assert_eq!(build_events_url("hs1", &[]), "https://hs1/events-stream?path=/pub/pubky-canva/pixels/");
}

#[test]
fn homeserver_ids() {
    assert_eq!(extract_homeserver_id("https://abc/"), "abc");
    assert_eq!(extract_homeserver_id("https://abc/x/y"), "abc");
    assert_eq!(extract_homeserver_id("http://abc"), "abc");
    assert_eq!(extract_homeserver_id("abc"), "abc");
    assert_eq!(extract_homeserver_id("pubky://abc/"), "pubky://abc/");
}

#[test]
fn sse_unknown_data_lines_keep_the_uri() {
    let text = "event: PUT\ndata: pubky://a/pub/pubky-canva/pixels/Y\ndata: note\ndata: cursor: 4\n\n";
    let evs = parse_sse_response(text);
    assert_eq!(evs.len(), 1);
    assert_eq!(evs[0].uri, "pubky://a/pub/pubky-canva/pixels/Y");
    assert_eq!(evs[0].cursor, "4");
    // a trailing block whose only data line is unknown has no URI
    assert!(parse_sse_response("event: PUT\ndata: note").is_empty());
}
