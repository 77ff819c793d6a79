//! The streamed reply of the chat server.
//!
//! The server sends Server-Sent Events: lines `data: <json>` ending with
//! `data: [DONE]`.  The bytes arrive in arbitrary pieces, so the bytes of a
//! character cut off at the end of a piece wait for the next one, and the
//! text is kept in a buffer and cut into lines there; each complete line
//! yields at most one token (`choices[0].delta.content`, when not empty).
use vstd::prelude::*;
use vstd::utf8::{
    decode_utf8, decode_utf8_split, is_char_boundary, is_char_boundary_iff_not_is_continuation_byte,
    is_char_boundary_start_end_of_seq, is_continuation_byte, length_of_first_scalar,
    pop_first_scalar, valid_utf8, valid_utf8_split,
};
use crate::chunking::{decode_lossy, utf8_lossy};
use crate::json::{json_str_at_pointer, json_string_at};
use crate::text::{
    chars_of, copy_range, find_char, find_from, is_white_space, lemma_find_from, occurs_at, trim_end,
    trim_start, lemma_find_from_extend,
    lemma_find_from_shift, string_from_chars, trim, trim_bounds,
};

verus! {

/// The payload of a line: what follows `data:` in the trimmed line, trimmed;
/// `None` for an empty line or one that is not a data line.
pub open spec fn line_payload(line: Seq<char>) -> Option<Seq<char>> {
    let l = trim(line);
    if l.len() >= 5 && l.subrange(0, 5) == "data:"@ {
        Some(trim(l.subrange(5, l.len() as int)))
    } else {
        None
    }
}

/// Whether a line ends the stream.
pub open spec fn line_done(line: Seq<char>) -> bool {
    line_payload(line) == Some("[DONE]"@)
}

/// The token a line carries, if any: the non-empty text at
/// `/choices/0/delta/content` of its JSON payload.
pub open spec fn line_token(line: Seq<char>) -> Option<Seq<char>> {
    match line_payload(line) {
        Some(p) => if p == "[DONE]"@ {
            None
        } else {
            match json_string_at(p, "/choices/0/delta/content"@) {
                Some(t) => if t.len() > 0 {
                    Some(t)
                } else {
                    None
                },
                None => None,
            }
        },
        None => None,
    }
}

/// Scans the complete lines of `s` from `pos` on, adding their tokens to
/// `toks`: gives the tokens, whether the stream ended, and where the text not
/// yet cut into lines starts.
pub open spec fn sse_scan(s: Seq<char>, pos: int, toks: Seq<Seq<char>>) -> (Seq<Seq<char>>, bool, int)
    decreases s.len() - pos,
{
    if pos < 0 || pos > s.len() {
        (toks, false, pos)
    } else {
        match find_from(s, seq!['\n'], pos) {
            None => (toks, false, pos),
            Some(nl) => {
                proof {
                    lemma_find_from(s, seq!['\n'], pos);
                }
                let line = s.subrange(pos, nl + 1);
                if line_done(line) {
                    (toks, true, nl + 1)
                } else {
                    let t2 = match line_token(line) {
                        Some(t) => toks.push(t),
                        None => toks,
                    };
                    sse_scan(s, nl + 1, t2)
                }
            },
        }
    }
}

/// What one piece of the stream gave.
pub struct SseStep {
    /// Tokens, in order.
    pub tokens: Vec<String>,
    /// Whether the end of the stream was reached.
    pub done: bool,
}

/// What was received and not yet used: the text not yet cut into lines,
/// and the bytes of a character whose encoding has not fully arrived.
pub struct SseBuffer {
    /// The pending text.
    pub buf: Vec<char>,
    /// The first bytes of an incomplete character.
    pub pending: Vec<u8>,
}

/// The number of bytes in the UTF-8 encoding that starts with the byte `x`
/// (0 for a byte that cannot start one).
pub open spec fn lead_width(x: u8) -> int {
    if x <= 0x7f {
        1
    } else if 0xc0 <= x <= 0xdf {
        2
    } else if 0xe0 <= x <= 0xef {
        3
    } else if 0xf0 <= x <= 0xf7 {
        4
    } else {
        0
    }
}

/// Where a character whose encoding is cut off at the end of `b` starts
/// (its leading byte is among the last three and more bytes are owed), or
/// the length of `b` when no character is cut off.
pub open spec fn complete_len(b: Seq<u8>) -> int {
    let n = b.len() as int;
    if n >= 1 && !is_continuation_byte(b[n - 1]) {
        if lead_width(b[n - 1]) > 1 { n - 1 } else { n }
    } else if n >= 2 && !is_continuation_byte(b[n - 2]) {
        if lead_width(b[n - 2]) > 2 { n - 2 } else { n }
    } else if n >= 3 && !is_continuation_byte(b[n - 3]) {
        if lead_width(b[n - 3]) > 3 { n - 3 } else { n }
    } else {
        n
    }
}

/// The text of complete bytes: their UTF-8 decoding when valid, otherwise
/// what lossy decoding makes of them.
pub open spec fn decoded(b: Seq<u8>) -> Seq<char> {
    if valid_utf8(b) {
        decode_utf8(b)
    } else {
        utf8_lossy(b)
    }
}

/// What feeding the bytes `bytes` to a buffer holding the text `buf` and the
/// incomplete bytes `pending` gives: the tokens, whether the stream ended,
/// and the text and bytes kept.
pub open spec fn feed_result(buf: Seq<char>, pending: Seq<u8>, bytes: Seq<u8>) -> (
    Seq<Seq<char>>,
    bool,
    Seq<char>,
    Seq<u8>,
) {
    let all = pending + bytes;
    let c = complete_len(all);
    let text = buf + decoded(all.subrange(0, c));
    let scan = sse_scan(text, 0, Seq::empty());
    if scan.1 {
        (scan.0, true, Seq::empty(), Seq::empty())
    } else {
        (scan.0, false, text.subrange(scan.2, text.len() as int), all.subrange(c, all.len() as int))
    }
}

/// Executable [`complete_len`].
fn complete_len_exec(b: &Vec<u8>) -> (r: usize)
    ensures
        r as int == complete_len(b@),
        r <= b.len(),
{
    let n = b.len();
    if n >= 1 && !(0x80 <= b[n - 1] && b[n - 1] <= 0xbf) {
        let x = b[n - 1];
        if x >= 0xc0 && x <= 0xf7 { n - 1 } else { n }
    } else if n >= 2 && !(0x80 <= b[n - 2] && b[n - 2] <= 0xbf) {
        let x = b[n - 2];
        if x >= 0xe0 && x <= 0xf7 { n - 2 } else { n }
    } else if n >= 3 && !(0x80 <= b[n - 3] && b[n - 3] <= 0xbf) {
        let x = b[n - 3];
        if x >= 0xf0 && x <= 0xf7 { n - 3 } else { n }
    } else {
        n
    }
}

/// The payload of the line `v[lo..hi]`, as positions in `v`.
fn payload_bounds(v: &Vec<char>, lo: usize, hi: usize) -> (r: Option<(usize, usize)>)
    requires
        lo <= hi <= v.len(),
    ensures
        r matches Some(b) ==> b.0 <= b.1 <= v.len() && line_payload(v@.subrange(lo as int, hi as int))
            == Some(v@.subrange(b.0 as int, b.1 as int)),
        r is None ==> line_payload(v@.subrange(lo as int, hi as int)) is None,
{
    proof {
        reveal_strlit("data:");
    }
    let (a, b) = trim_bounds(v, lo, hi);
    let ghost l = v@.subrange(a as int, b as int);
    let is_data = b - a >= 5 && v[a] == 'd' && v[a + 1] == 'a' && v[a + 2] == 't' && v[a + 3] == 'a'
        && v[a + 4] == ':';
    proof {
        if is_data {
            assert(l.subrange(0, 5) =~= "data:"@);
        } else if l.len() >= 5 && l.subrange(0, 5) == "data:"@ {
            assert(l.subrange(0, 5)[0] == 'd');
            assert(l.subrange(0, 5)[1] == 'a');
            assert(l.subrange(0, 5)[2] == 't');
            assert(l.subrange(0, 5)[3] == 'a');
            assert(l.subrange(0, 5)[4] == ':');
        }
    }
    if !is_data {
        return None;
    }
    let (c, d) = trim_bounds(v, a + 5, b);
    assert(l.subrange(5, l.len() as int) =~= v@.subrange(a + 5, b as int));
    Some((c, d))
}

/// Whether `v[lo..hi]` is `[DONE]`.
fn is_done_marker(v: &Vec<char>, lo: usize, hi: usize) -> (r: bool)
    requires
        lo <= hi <= v.len(),
    ensures
        r == (v@.subrange(lo as int, hi as int) == "[DONE]"@),
{
    proof {
        reveal_strlit("[DONE]");
    }
    assert("[DONE]"@ =~= seq!['[', 'D', 'O', 'N', 'E', ']']);
    let r = hi - lo == 6 && v[lo] == '[' && v[lo + 1] == 'D' && v[lo + 2] == 'O' && v[lo + 3] == 'N'
        && v[lo + 4] == 'E' && v[lo + 5] == ']';
    proof {
        let s = v@.subrange(lo as int, hi as int);
        if r {
            assert(s =~= "[DONE]"@);
        } else if s == "[DONE]"@ {
            assert(s[0] == '[' && s[1] == 'D' && s[2] == 'O' && s[3] == 'N' && s[4] == 'E' && s[5]
                == ']');
        }
    }
    r
}

/// The bytes of `v` from `from` on.
fn copy_bytes(v: &Vec<u8>, from: usize) -> (r: Vec<u8>)
    requires
        from <= v.len(),
    ensures
        r@ == v@.subrange(from as int, v.len() as int),
{
    let mut r: Vec<u8> = Vec::new();
    let mut i = from;
    while i < v.len()
        invariant
            from <= i <= v.len(),
            r@ == v@.subrange(from as int, i as int),
        decreases v.len() - i,
    {
        r.push(v[i]);
        assert(r@ =~= v@.subrange(from as int, i + 1));
        i = i + 1;
    }
    r
}

impl SseBuffer {
    /// An empty buffer.
    pub fn new() -> (b: SseBuffer)
        ensures
            b.buf@ == Seq::<char>::empty(),
            b.pending@ == Seq::<u8>::empty(),
    {
        SseBuffer { buf: Vec::new(), pending: Vec::new() }
    }

    /// Takes the next piece of the stream and gives the tokens of the lines
    /// it completes, up to the end marker.  The bytes of a character cut off
    /// at the end of the piece wait for the next piece.
    pub fn feed(&mut self, bytes: &[u8]) -> (r: SseStep)
        ensures
            ({
                let f = feed_result(old(self).buf@, old(self).pending@, bytes@);
                &&& r.tokens.deep_view() == f.0
                &&& r.done == f.1
                &&& final(self).buf@ == f.2
                &&& final(self).pending@ == f.3
            }),
    {
        let mut all: Vec<u8> = Vec::new();
        all.append(&mut self.pending);
        for i in 0..bytes.len()
            invariant
                all@ == old(self).pending@ + bytes@.take(i as int),
        {
            all.push(bytes[i]);
            assert(all@ =~= old(self).pending@ + bytes@.take(i + 1));
        }
        assert(bytes@.take(bytes.len() as int) =~= bytes@);
        let c = complete_len_exec(&all);
        let head = vstd::slice::slice_subrange(all.as_slice(), 0, c);
        let text = decode_lossy(head);
        assert(text@ == decoded(all@.subrange(0, c as int)));
        self.pending = copy_bytes(&all, c);
        let step = self.feed_text(text.as_str());
        if step.done {
            self.pending = Vec::new();
        }
        step
    }

    /// Takes the next piece of the stream, as text, and gives the tokens of
    /// the lines it completes, up to the end marker.
    pub fn feed_text(&mut self, text: &str) -> (r: SseStep)
        ensures
            ({
                let all = old(self).buf@ + text@;
                let scan = sse_scan(all, 0, Seq::empty());
                &&& r.tokens.deep_view() == scan.0
                &&& r.done == scan.1
                &&& !r.done ==> final(self).buf@ == all.subrange(scan.2, all.len() as int)
                &&& r.done ==> final(self).buf@ == Seq::<char>::empty()
            }),
            final(self).pending == old(self).pending,
    {
        let more = chars_of(text);
        let mut all: Vec<char> = Vec::new();
        all.append(&mut self.buf);
        let mut more2 = more;
        all.append(&mut more2);
        assert(all@ =~= old(self).buf@ + text@);
        let ghost goal = sse_scan(all@, 0, Seq::empty());
        let mut tokens: Vec<String> = Vec::new();
        let mut pos: usize = 0;
        proof {
            assert(tokens.deep_view() =~= Seq::<Seq<char>>::empty());
        }
        loop
            invariant_except_break
                goal == sse_scan(all@, pos as int, tokens.deep_view()),
            invariant
                pos <= all.len(),
                goal == sse_scan(old(self).buf@ + text@, 0, Seq::empty()),
                all@ == old(self).buf@ + text@,
                self.pending == old(self).pending,
            ensures
                pos <= all.len(),
                goal.0 == tokens.deep_view(),
                !goal.1,
                goal.2 == pos,
            decreases all.len() - pos,
        {
            proof {
                lemma_find_from(all@, seq!['\n'], pos as int);
            }
            let nl = match find_char(&all, '\n', pos) {
                None => {
                    break;
                },
                Some(n) => n,
            };
            let ghost line = all@.subrange(pos as int, nl + 1);
            match payload_bounds(&all, pos, nl + 1) {
                None => {
                },
                Some((c, d)) => {
                    if is_done_marker(&all, c, d) {
                        assert(line_done(line));
                        assert(goal == (tokens.deep_view(), true, nl + 1));
                        self.buf = Vec::new();
                        return SseStep { tokens, done: true };
                    }
                    let payload = string_from_chars(&copy_range(&all, c, d));
                    match json_str_at_pointer(payload.as_str(), "/choices/0/delta/content") {
                        Some(t) => {
                            let tv = chars_of(t.as_str());
                            if tv.len() > 0 {
                                let ghost before = tokens.deep_view();
                                tokens.push(t);
                                assert(tokens.deep_view() =~= before.push(line_token(line)->0));
                            }
                        },
                        None => {
                        },
                    }
                },
            }
            pos = nl + 1;
        }
        self.buf = copy_range(&all, pos, all.len());
        SseStep { tokens, done: false }
    }
}

/// Every token of a scan is non-empty, given that those already collected are.
proof fn lemma_sse_tokens_nonempty(s: Seq<char>, pos: int, toks: Seq<Seq<char>>)
    requires
        forall|i: int| 0 <= i < toks.len() ==> #[trigger] toks[i].len() > 0,
    ensures
        forall|i: int|
            0 <= i < sse_scan(s, pos, toks).0.len() ==> #[trigger] sse_scan(s, pos, toks).0[i].len() > 0,
    decreases s.len() - pos,
{
    if pos < 0 || pos > s.len() {
    } else {
        match find_from(s, seq!['\n'], pos) {
            None => {
                assert(sse_scan(s, pos, toks).0 == toks);
            },
            Some(nl) => {
                lemma_find_from(s, seq!['\n'], pos);
                let line = s.subrange(pos, nl + 1);
                if line_done(line) {
                    assert(sse_scan(s, pos, toks).0 == toks);
                } else {
                    let t2 = match line_token(line) {
                        Some(t) => toks.push(t),
                        None => toks,
                    };
                    assert(sse_scan(s, pos, toks) == sse_scan(s, nl + 1, t2));
                    assert forall|i: int| 0 <= i < t2.len() implies #[trigger] t2[i].len() > 0 by {
                        if i < toks.len() {
                            assert(t2[i] == toks[i]);
                        }
                    }
                    lemma_sse_tokens_nonempty(s, nl + 1, t2);
                }
            },
        }
    }
}

/// Law: no empty token is ever passed on from the chat stream.
pub proof fn lemma_sse_tokens_are_nonempty(s: Seq<char>)
    ensures
        forall|i: int|
            0 <= i < sse_scan(s, 0, Seq::empty()).0.len() ==> #[trigger] sse_scan(
                s,
                0,
                Seq::empty(),
            ).0[i].len() > 0,
{
    lemma_sse_tokens_nonempty(s, 0, Seq::empty());
}

/// A scan from a valid position ends at a valid position no earlier.
proof fn lemma_sse_scan_bounds(s: Seq<char>, pos: int, toks: Seq<Seq<char>>)
    requires
        0 <= pos <= s.len(),
    ensures
        pos <= sse_scan(s, pos, toks).2 <= s.len(),
    decreases s.len() - pos,
{
    lemma_find_from(s, seq!['\n'], pos);
    match find_from(s, seq!['\n'], pos) {
        None => {},
        Some(nl) => {
            let line = s.subrange(pos, nl + 1);
            if !line_done(line) {
                let t2 = match line_token(line) {
                    Some(t) => toks.push(t),
                    None => toks,
                };
                lemma_sse_scan_bounds(s, nl + 1, t2);
            }
        },
    }
}

/// The tokens a scan collects are added after those it was given.
proof fn lemma_sse_scan_acc(s: Seq<char>, pos: int, toks: Seq<Seq<char>>)
    ensures
        ({
            let r = sse_scan(s, pos, Seq::empty());
            sse_scan(s, pos, toks) == (toks + r.0, r.1, r.2)
        }),
    decreases s.len() - pos,
{
    let e = Seq::<Seq<char>>::empty();
    if pos < 0 || pos > s.len() {
        assert(toks + e =~= toks);
    } else {
        match find_from(s, seq!['\n'], pos) {
            None => {
                assert(toks + e =~= toks);
            },
            Some(nl) => {
                lemma_find_from(s, seq!['\n'], pos);
                let line = s.subrange(pos, nl + 1);
                if line_done(line) {
                    assert(toks + e =~= toks);
                } else {
                    let (t2, u2) = match line_token(line) {
                        Some(t) => (toks.push(t), e.push(t)),
                        None => (toks, e),
                    };
                    assert(t2 =~= toks + u2);
                    lemma_sse_scan_acc(s, nl + 1, t2);
                    lemma_sse_scan_acc(s, nl + 1, u2);
                    let x = sse_scan(s, nl + 1, e);
                    assert(t2 + x.0 =~= toks + (u2 + x.0));
                }
            },
        }
    }
}

/// Scanning text that goes on past `a` does what scanning `a` does, and then
/// goes on from where that scan stopped.
proof fn lemma_sse_scan_extend(a: Seq<char>, b: Seq<char>, pos: int, toks: Seq<Seq<char>>)
    requires
        0 <= pos <= a.len(),
    ensures
        ({
            let r = sse_scan(a, pos, toks);
            &&& r.1 ==> sse_scan(a + b, pos, toks) == r
            &&& !r.1 ==> sse_scan(a + b, pos, toks) == sse_scan(a + b, r.2, r.0)
        }),
    decreases a.len() - pos,
{
    let nlp = seq!['\n'];
    lemma_find_from(a, nlp, pos);
    lemma_find_from_extend(a, b, nlp, pos);
    match find_from(a, nlp, pos) {
        None => {},
        Some(nl) => {
            lemma_find_from(a + b, nlp, pos);
            let line = a.subrange(pos, nl + 1);
            assert((a + b).subrange(pos, nl + 1) =~= line);
            if !line_done(line) {
                let t2 = match line_token(line) {
                    Some(t) => toks.push(t),
                    None => toks,
                };
                lemma_sse_scan_extend(a, b, nl + 1, t2);
            }
        },
    }
}

/// Scanning from `pos` depends only on the text from `p <= pos` on.
proof fn lemma_sse_scan_shift(s: Seq<char>, p: int, pos: int, toks: Seq<Seq<char>>)
    requires
        0 <= p <= pos <= s.len(),
    ensures
        ({
            let r = sse_scan(s.subrange(p, s.len() as int), pos - p, toks);
            sse_scan(s, pos, toks) == (r.0, r.1, r.2 + p)
        }),
    decreases s.len() - pos,
{
    let nlp = seq!['\n'];
    let t = s.subrange(p, s.len() as int);
    lemma_find_from(s, nlp, pos);
    lemma_find_from_shift(s, p, nlp, pos);
    match find_from(s, nlp, pos) {
        None => {},
        Some(nl) => {
            lemma_find_from(t, nlp, pos - p);
            let line = s.subrange(pos, nl + 1);
            assert(t.subrange(pos - p, nl + 1 - p) =~= line);
            if !line_done(line) {
                let t2 = match line_token(line) {
                    Some(tk) => toks.push(tk),
                    None => toks,
                };
                lemma_sse_scan_shift(s, p, nl + 1, t2);
            }
        },
    }
}

/// Law: the stream is reassembled across the boundaries of its pieces. The
/// tokens of text `a` followed, after the kept remainder, by those of the
/// remainder and text `b` are the tokens of `a + b` scanned at once; and once
/// `a` ends the stream, what follows changes nothing.
pub proof fn lemma_sse_pieces(a: Seq<char>, b: Seq<char>)
    ensures
        ({
            let first = sse_scan(a, 0, Seq::empty());
            let second = sse_scan(a.subrange(first.2, a.len() as int) + b, 0, Seq::empty());
            let whole = sse_scan(a + b, 0, Seq::empty());
            &&& first.1 ==> whole == first
            &&& !first.1 ==> whole == (first.0 + second.0, second.1, first.2 + second.2)
        }),
{
    let e = Seq::<Seq<char>>::empty();
    let first = sse_scan(a, 0, e);
    lemma_sse_scan_bounds(a, 0, e);
    lemma_sse_scan_extend(a, b, 0, e);
    if !first.1 {
        let p = first.2;
        lemma_sse_scan_acc(a + b, p, first.0);
        lemma_sse_scan_shift(a + b, p, p, e);
        assert((a + b).subrange(p, (a + b).len() as int) =~= a.subrange(p, a.len() as int) + b);
    }
}

/// The content a data line's payload carries: the JSON string at
/// `/choices/0/delta/content`, when there is one.
pub open spec fn delta_content(p: Seq<char>) -> Option<Seq<char>> {
    json_string_at(p, "/choices/0/delta/content"@)
}

/// Whether the payload `p` carries a non-empty content.
pub open spec fn has_content(p: Seq<char>) -> bool {
    delta_content(p) matches Some(t) && t.len() > 0
}

/// The data line `data: <p>` of the stream, with its newline.
pub open spec fn data_line(p: Seq<char>) -> Seq<char> {
    "data: "@ + p + "\n"@
}

/// The data lines of the payloads `ps`, one after another.
pub open spec fn data_lines(ps: Seq<Seq<char>>) -> Seq<char>
    decreases ps.len(),
{
    if ps.len() == 0 {
        Seq::empty()
    } else {
        data_lines(ps.drop_last()) + data_line(ps.last())
    }
}

/// Whether `p` can be the payload of one data line as the server writes it:
/// not empty, without whitespace at either end or a newline inside, and not
/// the end marker.
pub open spec fn line_payload_ok(p: Seq<char>) -> bool {
    &&& p.len() > 0
    &&& !is_white_space(p[0])
    &&& !is_white_space(p.last())
    &&& !p.contains('\n')
    &&& p != "[DONE]"@
}

proof fn lemma_trim_start_keeps(s: Seq<char>)
    requires
        s.len() > 0,
        !is_white_space(s[0]),
    ensures
        trim_start(s) == s,
{
}

proof fn lemma_trim_end_keeps(s: Seq<char>)
    requires
        s.len() > 0,
        !is_white_space(s.last()),
    ensures
        trim_end(s) == s,
{
}

/// Law: one data line gives exactly the content of its payload as its token,
/// as it stands (leading and trailing spaces of the content included), or
/// no token when the content is missing or empty; the stream goes on after it.
pub proof fn lemma_sse_data_line(p: Seq<char>)
    requires
        line_payload_ok(p),
    ensures
        sse_scan(data_line(p), 0, Seq::empty()) == (
            match delta_content(p) {
                Some(t) => if t.len() > 0 {
                    seq![t]
                } else {
                    Seq::<Seq<char>>::empty()
                },
                None => Seq::<Seq<char>>::empty(),
            },
            false,
            data_line(p).len() as int,
        ),
{
    reveal_strlit("data: ");
    reveal_strlit("data:");
    reveal_strlit("\n");
    let l = data_line(p);
    let n = l.len() as int;
    let m = l.drop_last();
    assert(m =~= "data: "@ + p);
    assert(l[0] == 'd');
    lemma_trim_start_keeps(l);
    assert(l.last() == '\n');
    assert(m.last() == p.last());
    lemma_trim_end_keeps(m);
    assert(trim_end(l) == trim_end(m));
    assert(trim(l) == m);
    assert(m.subrange(0, 5) =~= "data:"@);
    let q = m.subrange(5, m.len() as int);
    assert(q =~= seq![' '] + p);
    assert(q.drop_first() =~= p);
    lemma_trim_start_keeps(p);
    assert(trim_start(q) == trim_start(p));
    lemma_trim_end_keeps(p);
    assert(trim(q) == p);
    assert(line_payload(l) == Some(p));
    assert(!line_done(l));
    let nl = seq!['\n'];
    assert(occurs_at(l, nl, n - 1));
    lemma_find_from(l, nl, 0);
    let j = find_from(l, nl, 0)->0;
    assert(occurs_at(l, nl, j));
    assert(l[j + 0] == nl[0]);
    if j < n - 1 {
        if j < 6 {
            assert(l[j] == "data: "@[j]);
        } else {
            assert(l[j] == p[j - 6]);
            assert(p.contains('\n'));
        }
    }
    assert(j == n - 1);
    assert(l.subrange(0, n) =~= l);
    let t2 = match line_token(l) {
        Some(t) => Seq::<Seq<char>>::empty().push(t),
        None => Seq::<Seq<char>>::empty(),
    };
    assert(sse_scan(l, 0, Seq::empty()) == sse_scan(l, n, t2));
    assert(find_from(l, nl, n) is None);
    assert(Seq::<Seq<char>>::empty().push(delta_content(p)->0) =~= seq![delta_content(p)->0]);
}

/// Law: a stream of data lines whose payloads all carry a non-empty content
/// yields those contents as its tokens, one per line, in order and unchanged
/// (so the reply they make up is the contents joined), and does not end.
pub proof fn lemma_sse_data_lines(ps: Seq<Seq<char>>)
    requires
        forall|i: int| 0 <= i < ps.len() ==> line_payload_ok(#[trigger] ps[i]),
        forall|i: int| 0 <= i < ps.len() ==> has_content(#[trigger] ps[i]),
    ensures
        sse_scan(data_lines(ps), 0, Seq::empty()) == (
            Seq::new(ps.len(), |i: int| delta_content(ps[i])->0),
            false,
            data_lines(ps).len() as int,
        ),
    decreases ps.len(),
{
    let e = Seq::<Seq<char>>::empty();
    if ps.len() == 0 {
        assert(find_from(data_lines(ps), seq!['\n'], 0) is None);
        assert(Seq::new(0, |i: int| delta_content(ps[i])->0) =~= e);
    } else {
        let front = ps.drop_last();
        let a = data_lines(front);
        let b = data_line(ps.last());
        assert forall|i: int| 0 <= i < front.len() implies line_payload_ok(#[trigger] front[i]) by {
            assert(front[i] == ps[i]);
        }
        assert forall|i: int| 0 <= i < front.len() implies has_content(#[trigger] front[i]) by {
            assert(front[i] == ps[i]);
        }
        lemma_sse_data_lines(front);
        assert(line_payload_ok(ps[ps.len() - 1]));
        assert(has_content(ps[ps.len() - 1]));
        lemma_sse_data_line(ps.last());
        lemma_sse_pieces(a, b);
        assert(a.subrange(a.len() as int, a.len() as int) + b =~= b);
        assert(Seq::new(front.len(), |i: int| delta_content(front[i])->0) + seq![
            delta_content(ps.last())->0,
        ] =~= Seq::new(ps.len(), |i: int| delta_content(ps[i])->0));
    }
}

/// The leading byte of a valid first character tells its length.
proof fn lemma_lead_width(y: Seq<u8>)
    requires
        y.len() > 0,
        valid_utf8(y),
    ensures
        !is_continuation_byte(y[0]),
        lead_width(y[0]) == length_of_first_scalar(y),
        1 <= length_of_first_scalar(y) <= y.len(),
        forall|k: int| 1 <= k < length_of_first_scalar(y) ==> is_continuation_byte(#[trigger] y[k]),
{
}

/// In valid UTF-8, a continuation byte at `n` belongs to a character that
/// starts at most three bytes earlier and is longer than the distance.
proof fn lemma_char_start(x: Seq<u8>, n: int) -> (s: int)
    requires
        valid_utf8(x),
        0 <= n < x.len(),
        is_continuation_byte(x[n]),
    ensures
        n - 3 <= s < n,
        0 <= s,
        !is_continuation_byte(x[s]),
        forall|k: int| s < k <= n ==> is_continuation_byte(#[trigger] x[k]),
        lead_width(x[s]) > n - s,
    decreases x.len(),
{
    lemma_lead_width(x);
    let w = length_of_first_scalar(x);
    if n < w {
        0
    } else {
        let rest = pop_first_scalar(x);
        assert(rest[n - w] == x[n]);
        if n == w {
            lemma_lead_width(rest);
        }
        let s0 = lemma_char_start(rest, n - w);
        assert forall|k: int| s0 + w < k <= n implies is_continuation_byte(#[trigger] x[k]) by {
            assert(x[k] == rest[k - w]);
        }
        assert(x[s0 + w] == rest[s0]);
        s0 + w
    }
}

/// Where [`complete_len`] cuts `a` is a character boundary of any valid
/// text that `a` starts.
proof fn lemma_cut_boundary(a: Seq<u8>, b: Seq<u8>)
    requires
        valid_utf8(a + b),
    ensures
        0 <= complete_len(a) <= a.len(),
        is_char_boundary(a + b, complete_len(a)),
{
    let x = a + b;
    let n = a.len() as int;
    let c = complete_len(a);
    is_char_boundary_start_end_of_seq(x);
    if c < n {
        assert(x[c] == a[c]);
        is_char_boundary_iff_not_is_continuation_byte(x, c);
    } else if n < x.len() {
        is_char_boundary_iff_not_is_continuation_byte(x, n);
        if is_continuation_byte(x[n]) {
            let s = lemma_char_start(x, n);
            assert forall|k: int| s < k < n implies is_continuation_byte(#[trigger] a[k]) by {
                assert(a[k] == x[k]);
            }
            assert(a[s] == x[s]);
            if s == n - 1 {
            } else if s == n - 2 {
                assert(a[n - 1] == x[n - 1]);
            } else {
                assert(a[n - 1] == x[n - 1]);
                assert(a[n - 2] == x[n - 2]);
            }
            assert(c == s);
        }
    }
}

/// Valid UTF-8 has no character cut off at its end.
proof fn lemma_cut_valid(y: Seq<u8>)
    requires
        valid_utf8(y),
    ensures
        complete_len(y) == y.len(),
{
    let n = y.len() as int;
    let c = complete_len(y);
    if c < n {
        is_char_boundary_iff_not_is_continuation_byte(y, c);
        valid_utf8_split(y, c);
        let t = y.subrange(c, n);
        assert(t[0] == y[c]);
        lemma_lead_width(t);
    }
}

/// Law: the streamed reply does not depend on how a valid UTF-8 stream is
/// split into pieces.  Feeding `a` and then `b` to a new buffer gives the
/// tokens, the end, and the kept text and bytes that feeding `a + b` gives;
/// once `a` ends the stream, `b` changes nothing.
#[verifier::spinoff_prover]
pub proof fn lemma_sse_byte_pieces(a: Seq<u8>, b: Seq<u8>)
    requires
        valid_utf8(a + b),
    ensures
        ({
            let first = feed_result(Seq::empty(), Seq::empty(), a);
            let second = feed_result(first.2, first.3, b);
            let whole = feed_result(Seq::empty(), Seq::empty(), a + b);
            &&& first.1 ==> whole.0 == first.0 && whole.1
            &&& !first.1 ==> whole == (first.0 + second.0, second.1, second.2, second.3)
        }),
{
    let e8 = Seq::<u8>::empty();
    let ec = Seq::<char>::empty();
    let x = a + b;
    let n = a.len() as int;
    lemma_cut_boundary(a, b);
    let c = complete_len(a);
    valid_utf8_split(x, c);
    decode_utf8_split(x, c);
    assert(e8 + a =~= a);
    assert(e8 + x =~= x);
    assert(x.subrange(0, c) =~= a.subrange(0, c));
    let ta = decode_utf8(a.subrange(0, c));
    let rest = x.subrange(c, x.len() as int);
    let tb = decode_utf8(rest);
    lemma_cut_valid(x);
    assert(x.subrange(0, x.len() as int) =~= x);
    assert(ec + ta =~= ta);
    assert(ec + decode_utf8(x) =~= ta + tb);
    lemma_sse_pieces(ta, tb);
    let first = feed_result(ec, e8, a);
    if !first.1 {
        assert(a.subrange(c, n) + b =~= rest);
        lemma_cut_valid(rest);
        assert(rest.subrange(0, rest.len() as int) =~= rest);
        let scan1 = sse_scan(ta, 0, Seq::empty());
        let scan2 = sse_scan(ta.subrange(scan1.2, ta.len() as int) + tb, 0, Seq::empty());
        let tw = ta + tb;
        lemma_sse_scan_bounds(ta, 0, Seq::empty());
        lemma_sse_scan_bounds(ta.subrange(scan1.2, ta.len() as int) + tb, 0, Seq::empty());
        assert(rest.subrange(rest.len() as int, rest.len() as int) =~= e8);
        assert(x.subrange(x.len() as int, x.len() as int) =~= e8);
        if !scan2.1 {
            assert(tw.subrange(scan1.2 + scan2.2, tw.len() as int) =~= (ta.subrange(
                scan1.2,
                ta.len() as int,
            ) + tb).subrange(scan2.2, (ta.subrange(scan1.2, ta.len() as int) + tb).len() as int));
        }
    }
}

} // verus!
