use commonplace::chat::SseBuffer;

fn delta(s: &str) -> String {
    format!("data: {{\"choices\":[{{\"delta\":{{\"content\":\"{s}\"}}}}]}}\n")
}

#[test]
fn tokens_arrive_across_piece_boundaries() {
    let stream = format!("{}{}: keep-alive\n\n{}data: [DONE]\n{}", delta("Hel"), delta("lo"), delta(""), delta("after"));
    let bytes = stream.as_bytes();
    // fed at once
    let mut whole = SseBuffer::new();
    let w = whole.feed(bytes);
    assert_eq!(w.tokens, vec!["Hel", "lo"]);
    assert!(w.done);
    // fed in pieces of every size
    for size in 1..12 {
        let mut b = SseBuffer::new();
        let mut toks: Vec<String> = Vec::new();
        let mut done = false;
        for piece in bytes.chunks(size) {
            let step = b.feed(piece);
            toks.extend(step.tokens);
            if step.done {
                done = true;
                break;
            }
        }
        assert!(done);
        assert_eq!(toks, vec!["Hel", "lo"]);
    }
}

#[test]
fn non_data_and_bad_lines_are_skipped() {
    let mut b = SseBuffer::new();
    let s = b.feed(b"event: x\ndata: not json\ndata:{\"choices\":[{\"delta\":{}}]}\n  data: {\"choices\":[{\"delta\":{\"content\":\"ok\"}}]}  \r\ndata: {\"choices\":[{\"delta\":{\"content\":\"partial");
    assert_eq!(s.tokens, vec!["ok"]);
    assert!(!s.done);
    let s2 = b.feed(b"\"}}]}\n");
    assert_eq!(s2.tokens, vec!["partial"]);
    assert!(b.feed(b"").tokens.is_empty());
}

#[test]
fn invalid_bytes_are_decoded_lossily() {
    let mut b = SseBuffer::new();
    let s = b.feed(b"data: {\"choices\":[{\"delta\":{\"content\":\"x\xffy\"}}]}\n");
    assert_eq!(s.tokens, vec!["x\u{FFFD}y"]);
}

#[test]
fn text_pieces_keep_the_unfinished_line() {
    let mut b = SseBuffer::new();
    let s = b.feed_text("data: {\"choices\":[{\"delta\":{\"content\":\"a\"}}]}\ndata: [DO");
    assert_eq!(s.tokens, vec!["a"]);
    assert!(!s.done);
    assert_eq!(b.buf, "data: [DO".chars().collect::<Vec<char>>());
    let s2 = b.feed_text("NE]\n");
    assert!(s2.tokens.is_empty());
    assert!(s2.done);
    assert!(b.buf.is_empty());
}

#[test]
fn characters_split_between_pieces_are_reassembled() {
    let stream = format!("{}{}data: [DONE]\n", delta("café ☕"), delta("😀x"));
    let bytes = stream.as_bytes();
    for size in 1..9 {
        let mut b = SseBuffer::new();
        let mut toks: Vec<String> = Vec::new();
        for piece in bytes.chunks(size) {
            let step = b.feed(piece);
            toks.extend(step.tokens);
            if step.done {
                break;
            }
        }
        assert_eq!(toks, vec!["café ☕", "😀x"]);
    }
    // a cut-off character waits in the buffer
    let mut b = SseBuffer::new();
    let e = "é".as_bytes();
    b.feed(&[b'd', e[0]]);
    assert_eq!(b.pending, vec![e[0]]);
    assert_eq!(b.buf, vec!['d']);
}
