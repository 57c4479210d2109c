use provider_proxy::sse::parse_sse_events;

fn texts(body: &[u8]) -> Vec<String> {
    parse_sse_events(body).into_iter().map(|e| e.data).collect()
}

#[test]
fn frames_are_read_back() {
    assert_eq!(texts(b"data: a\n\ndata: \n\ndata: b c\n\n"), vec!["a", "", "b c"]);
    assert!(texts(b"").is_empty());
}

#[test]
fn every_line_end_is_accepted() {
    assert_eq!(texts(b"data: a\r\n\r\ndata: b\r\rdata: c\n\n"), vec!["a", "b", "c"]);
    assert_eq!(texts(b"data: a\r\n\rdata: b\n\r\n"), vec!["a", "b"]);
}

#[test]
fn data_lines_of_an_event_are_joined() {
    assert_eq!(texts(b"data: a\ndata: b\n\n"), vec!["a\nb"]);
    assert_eq!(texts(b"data\ndata\n\n"), vec!["\n"]);
    assert_eq!(texts(b"data:\n\n"), vec![""]);
}

#[test]
fn one_leading_space_is_dropped() {
    assert_eq!(texts(b"data:a\n\n"), vec!["a"]);
    assert_eq!(texts(b"data:  a\n\n"), vec![" a"]);
    assert_eq!(texts(b"data:\ta\n\n"), vec!["\ta"]);
}

#[test]
fn other_lines_carry_no_data() {
    let body = b": comment\nevent: message\nid: 7\nretry: 10\ndata: a\ndatax: b\nDATA: c\n\n";
    assert_eq!(texts(body), vec!["a"]);
    assert!(texts(b"event: ping\n\n\n\n: nothing\n\n").is_empty());
}

#[test]
fn an_unfinished_event_is_dropped() {
    assert_eq!(texts(b"data: a\n\ndata: b\n"), vec!["a"]);
    assert_eq!(texts(b"data: a\n\ndata: b"), vec!["a"]);
}

#[test]
fn a_byte_order_mark_is_dropped() {
    assert_eq!(texts(b"\xef\xbb\xbfdata: a\n\n"), vec!["a"]);
    assert!(texts(b"\xef\xbb\xbf\xef\xbb\xbfdata: a\n\n").is_empty());
}

#[test]
fn data_that_is_not_utf8_is_replaced() {
    assert_eq!(texts("data: h\u{e9}\u{1f600}\n\n".as_bytes()), vec!["h\u{e9}\u{1f600}"]);
    assert_eq!(texts(b"data: a\xffb\n\n"), vec!["a\u{fffd}b"]);
}

#[test]
fn complete_events_stand_alone() {
    let head = b"data: a\r\r";
    // The LF belongs to the CR before it, and the blank line has nothing to complete either way.
    for tail in [&b"data: b\n\n"[..], &b"\ndata: b\n\n"[..], &b"\xef\xbb\xbf\ndata: b\n\n"[..]] {
        let body = [&head[..], tail].concat();
        assert_eq!(texts(&body), vec!["a", "b"]);
    }
    let body = [&b"\xef\xbb\xbf"[..], &b"data: a\n\n"[..]].concat();
    assert_eq!(texts(&body), vec!["a"]);
}
