//! Splitting a note into the passages that get embedded.
//!
//! A note is split at blank lines (`"\n\n"`) into paragraphs; each paragraph
//! is trimmed; a paragraph of at most [`MIN_CHARS`] characters is dropped; one
//! of at most [`MAX_BYTES`] UTF-8 bytes is kept whole; a longer one is cut
//! into overlapping byte windows that start every [`STRIDE`] bytes, span
//! [`MAX_BYTES`] bytes, and are stretched to the next character boundary.
//! A window that starts inside a character is decoded lossily.
use vstd::prelude::*;
use vstd::utf8::{
    decode_utf8, decode_utf8_split, encode_utf8, encode_utf8_decode_utf8, encode_utf8_valid_utf8,
    is_char_boundary,
    is_char_boundary_iff_not_is_continuation_byte, is_char_boundary_start_end_of_seq,
    is_continuation_byte, length_of_first_scalar, pop_first_scalar, valid_utf8, valid_utf8_split,
};
use crate::text::{chars_of, copy_range, find_from, find_pair, lemma_find_from, string_from_chars, trim, trim_bounds};

verus! {

/// A trimmed paragraph with at most this many characters is dropped.
pub const MIN_CHARS: usize = 30;

/// The most UTF-8 bytes of a paragraph that is kept whole, and the span of a window.
pub const MAX_BYTES: usize = 900;

/// The distance in bytes between the starts of two windows.
pub const STRIDE: usize = 800;

/// Name for what `String::from_utf8_lossy` makes of a byte sequence.
pub uninterp spec fn utf8_lossy(bytes: Seq<u8>) -> Seq<char>;

/// `n` replacement characters (U+FFFD).
pub open spec fn replacements(n: nat) -> Seq<char> {
    Seq::new(n, |_i: int| '\u{FFFD}')
}

/// `String::from_utf8_lossy`, made owned.  It replaces each invalid sequence
/// with U+FFFD and keeps valid UTF-8 unchanged.  The contract states this for
/// valid UTF-8, and for bytes that are valid UTF-8 after some leading
/// continuation bytes (each of
/// those is an invalid sequence of its own, so each becomes one U+FFFD), and
/// otherwise only names the result.
#[verifier::external_body]
pub(crate) fn decode_lossy(bytes: &[u8]) -> (r: String)
    ensures
        r@ == utf8_lossy(bytes@),
        valid_utf8(bytes@) ==> r@ == decode_utf8(bytes@),
        valid_utf8(bytes@.subrange(char_end(bytes@, 0), bytes@.len() as int)) ==> r@ == replacements(
            char_end(bytes@, 0) as nat,
        ) + decode_utf8(bytes@.subrange(char_end(bytes@, 0), bytes@.len() as int)),
{
    String::from_utf8_lossy(bytes).into_owned()
}

/// The paragraphs of `t` from position `pos` on: the pieces between
/// occurrences of `"\n\n"` (what `str::split("\n\n")` gives).
pub open spec fn paragraphs_from(t: Seq<char>, pos: int) -> Seq<Seq<char>>
    decreases t.len() - pos,
{
    if pos < 0 || pos > t.len() {
        Seq::empty()
    } else {
        match find_from(t, seq!['\n', '\n'], pos) {
            None => seq![t.subrange(pos, t.len() as int)],
            Some(i) => {
                proof {
                    lemma_find_from(t, seq!['\n', '\n'], pos);
                }
                seq![t.subrange(pos, i)] + paragraphs_from(t, i + 2)
            },
        }
    }
}

/// The first character boundary of `b` at or after `e`: `e` moved past any
/// continuation bytes.
pub open spec fn char_end(b: Seq<u8>, e: int) -> int
    decreases b.len() - e,
{
    if e < 0 || e >= b.len() || !is_continuation_byte(b[e]) {
        e
    } else {
        char_end(b, e + 1)
    }
}

/// The end of the window that starts at byte `i` of `b`.
pub open spec fn window_end(b: Seq<u8>, i: int) -> int {
    char_end(b, if i + MAX_BYTES < b.len() { i + MAX_BYTES } else { b.len() as int })
}

/// The text of a window `v` of an encoding: one U+FFFD for each leading
/// byte of a character the window cut off, then the decoding of the rest.
pub open spec fn window_text(v: Seq<u8>) -> Seq<char> {
    replacements(char_end(v, 0) as nat) + decode_utf8(v.subrange(char_end(v, 0), v.len() as int))
}

/// The windows of the bytes `b`, from the one that starts at `i` on.
pub open spec fn windows_from(b: Seq<u8>, i: int) -> Seq<Seq<char>>
    decreases b.len() + STRIDE - i,
{
    if i < 0 || i >= b.len() {
        Seq::empty()
    } else {
        proof {
            assert(STRIDE == 800);
        }
        seq![window_text(b.subrange(i, window_end(b, i)))] + windows_from(b, i + STRIDE)
    }
}

/// The passages one paragraph gives.
pub open spec fn paragraph_chunks(para: Seq<char>) -> Seq<Seq<char>> {
    let p = trim(para);
    if p.len() <= MIN_CHARS {
        Seq::empty()
    } else if encode_utf8(p).len() <= MAX_BYTES {
        seq![p]
    } else {
        windows_from(encode_utf8(p), 0)
    }
}

/// The passages of a list of paragraphs, in order.
pub open spec fn chunks_of(paras: Seq<Seq<char>>) -> Seq<Seq<char>>
    decreases paras.len(),
{
    if paras.len() == 0 {
        Seq::empty()
    } else {
        paragraph_chunks(paras[0]) + chunks_of(paras.drop_first())
    }
}

/// The passages of a note.
pub open spec fn note_chunks(text: Seq<char>) -> Seq<Seq<char>> {
    chunks_of(paragraphs_from(text, 0))
}

/// Executable [`char_end`].
fn find_char_end(b: &[u8], e: usize) -> (r: usize)
    requires
        e <= b@.len(),
    ensures
        r as int == char_end(b@, e as int),
        e <= r <= b@.len(),
{
    let mut r = e;
    while r < b.len() && (b[r] & 0xC0) == 0x80
        invariant
            e <= r <= b@.len(),
            char_end(b@, e as int) == char_end(b@, r as int),
        decreases b@.len() - r,
    {
        let x = b[r];
        assert(((x & 0xC0) == 0x80) == (0x80 <= x && x <= 0xbf)) by (bit_vector);
        r = r + 1;
    }
    if r < b.len() {
        let x = b[r];
        assert(((x & 0xC0) == 0x80) == (0x80 <= x && x <= 0xbf)) by (bit_vector);
    }
    r
}

/// Whether `c` is a piece of `t`, possibly after some replacement characters
/// (a window that starts inside a character begins with one for each of the
/// character's bytes it cuts off), and not empty.
pub open spec fn piece_of(c: Seq<char>, t: Seq<char>) -> bool {
    &&& c.len() > 0
    &&& exists|m: nat, x: int, y: int|
        #![trigger replacements(m), t.subrange(x, y)]
        0 <= x <= y <= t.len() && c == replacements(m) + t.subrange(x, y)
}

proof fn lemma_char_end(b: Seq<u8>, x: int)
    requires
        0 <= x <= b.len(),
    ensures
        x <= char_end(b, x) <= b.len(),
        char_end(b, x) == b.len() || !is_continuation_byte(b[char_end(b, x)]),
        forall|k: int| x <= k < char_end(b, x) ==> is_continuation_byte(#[trigger] b[k]),
    decreases b.len() - x,
{
    if x < b.len() && is_continuation_byte(b[x]) {
        lemma_char_end(b, x + 1);
    }
}

proof fn lemma_char_end_sub(b: Seq<u8>, i: int, e: int, k: int)
    requires
        0 <= i <= e <= b.len(),
        0 <= i <= b.len(),
        char_end(b, i) <= e,
        e == b.len() || !is_continuation_byte(b[e]),
        0 <= k <= char_end(b, i) - i,
    ensures
        char_end(b.subrange(i, e), k) == char_end(b, i) - i,
    decreases char_end(b, i) - i - k,
{
    lemma_char_end(b, i);
    let v = b.subrange(i, e);
    let j = char_end(b, i);
    if k < j - i {
        assert(v[k] == b[i + k]);
        assert(is_continuation_byte(b[i + k]));
        lemma_char_end_sub(b, i, e, k + 1);
    } else if j < e {
        assert(v[k] == b[j]);
    }
}

proof fn lemma_boundary(b: Seq<u8>, x: int)
    requires
        valid_utf8(b),
        0 <= x <= b.len(),
        x == b.len() || !is_continuation_byte(b[x]),
    ensures
        is_char_boundary(b, x),
{
    is_char_boundary_start_end_of_seq(b);
    if x < b.len() {
        is_char_boundary_iff_not_is_continuation_byte(b, x);
    }
}

/// The number of bytes of `v` that are not continuation bytes (in valid
/// UTF-8, the number of characters).
pub open spec fn leading_bytes(v: Seq<u8>) -> nat
    decreases v.len(),
{
    if v.len() == 0 {
        0
    } else {
        (if is_continuation_byte(v[0]) { 0nat } else { 1nat }) + leading_bytes(v.drop_first())
    }
}

proof fn lemma_leading_bytes_split(v: Seq<u8>, k: int)
    requires
        0 <= k <= v.len(),
    ensures
        leading_bytes(v) == leading_bytes(v.subrange(0, k)) + leading_bytes(v.subrange(k, v.len() as int)),
        leading_bytes(v) <= v.len(),
    decreases v.len(),
{
    if v.len() == 0 {
        assert(v.subrange(0, k) =~= v);
        assert(v.subrange(k, v.len() as int) =~= v);
    } else if k == 0 {
        assert(v.subrange(0, 0) =~= Seq::<u8>::empty());
        assert(v.subrange(0, v.len() as int) =~= v);
        lemma_leading_bytes_split(v.drop_first(), 0);
    } else {
        lemma_leading_bytes_split(v.drop_first(), k - 1);
        assert(v.subrange(0, k).drop_first() =~= v.drop_first().subrange(0, k - 1));
        assert(v.subrange(0, k)[0] == v[0]);
        assert(v.subrange(k, v.len() as int) =~= v.drop_first().subrange(k - 1, v.drop_first().len() as int));
    }
}

proof fn lemma_continuations_no_leading(v: Seq<u8>)
    requires
        forall|k: int| 0 <= k < v.len() ==> is_continuation_byte(#[trigger] v[k]),
    ensures
        leading_bytes(v) == 0,
    decreases v.len(),
{
    if v.len() > 0 {
        assert(is_continuation_byte(v[0]));
        assert forall|k: int| 0 <= k < v.drop_first().len() implies is_continuation_byte(
            #[trigger] v.drop_first()[k],
        ) by {
            assert(v.drop_first()[k] == v[k + 1]);
        }
        lemma_continuations_no_leading(v.drop_first());
    }
}

/// Valid UTF-8 decodes to as many characters as it has leading bytes.
proof fn lemma_decode_len(v: Seq<u8>)
    requires
        valid_utf8(v),
    ensures
        decode_utf8(v).len() == leading_bytes(v),
    decreases v.len(),
{
    if v.len() > 0 {
        let w = length_of_first_scalar(v);
        assert(1 <= w <= 4 && w <= v.len());
        let f = v.subrange(0, w);
        let rest = pop_first_scalar(v);
        lemma_leading_bytes_split(v, w);
        assert(f[0] == v[0]);
        assert(!is_continuation_byte(f[0]));
        assert(f.drop_first().len() == w - 1);
        assert forall|k: int| 0 <= k < f.drop_first().len() implies is_continuation_byte(
            #[trigger] f.drop_first()[k],
        ) by {
            assert(f.drop_first()[k] == v[k + 1]);
        }
        lemma_continuations_no_leading(f.drop_first());
        assert(leading_bytes(f) == 1);
        lemma_decode_len(rest);
    }
}

/// In valid UTF-8 a character boundary lies at most three bytes before any
/// position.
proof fn lemma_boundary_near(v: Seq<u8>, x: int) -> (y: int)
    requires
        valid_utf8(v),
        0 <= x <= v.len(),
    ensures
        0 <= y <= x,
        x - 3 <= y,
        is_char_boundary(v, y),
    decreases v.len(),
{
    if x == 0 {
        0
    } else {
        let w = length_of_first_scalar(v);
        assert(1 <= w <= 4 && w <= v.len());
        if x < w {
            0
        } else {
            let rest = pop_first_scalar(v);
            let y0 = lemma_boundary_near(rest, x - w);
            y0 + w
        }
    }
}

/// The window `b[i..e]` of the encoding `b` of `p`, where `e` is a character
/// boundary: after its leading continuation bytes it is valid UTF-8 that
/// decodes to the piece `p[x..y]` of `p`.
proof fn lemma_window_piece(p: Seq<char>, i: int, end: int, e: int) -> (xy: (int, int))
    requires
        0 <= i < end <= encode_utf8(p).len(),
        end == encode_utf8(p).len() || end == i + MAX_BYTES,
        e == char_end(encode_utf8(p), end),
    ensures
        ({
            let v = encode_utf8(p).subrange(i, e);
            let ce = char_end(v, 0);
            &&& 0 <= ce <= v.len()
            &&& valid_utf8(v.subrange(ce, v.len() as int))
            &&& 0 <= xy.0 <= xy.1 <= p.len()
            &&& decode_utf8(v.subrange(ce, v.len() as int)) == p.subrange(xy.0, xy.1)
            &&& (ce > 0 || xy.1 > xy.0)
            &&& ce + (xy.1 - xy.0) <= end - i
        }),
{
    let b = encode_utf8(p);
    encode_utf8_valid_utf8(p);
    encode_utf8_decode_utf8(p);
    lemma_char_end(b, i);
    lemma_char_end(b, end);
    let j = char_end(b, i);
    if j > end {
        // a run of more than three continuation bytes is not valid UTF-8
        let y = lemma_boundary_near(b, i + 4);
        is_char_boundary_iff_not_is_continuation_byte(b, y);
        assert(is_continuation_byte(b[y]));
        assert(false);
    }
    lemma_char_end_sub(b, i, e, 0);
    let v = b.subrange(i, e);
    assert(char_end(v, 0) == j - i);
    lemma_boundary(b, j);
    valid_utf8_split(b, j);
    decode_utf8_split(b, j);
    let b2 = b.subrange(j, b.len() as int);
    if e < b.len() {
        assert(b2[e - j] == b[e]);
    }
    lemma_boundary(b2, e - j);
    valid_utf8_split(b2, e - j);
    decode_utf8_split(b2, e - j);
    let mid = b2.subrange(0, e - j);
    assert(v.subrange(j - i, v.len() as int) =~= mid);
    let a = decode_utf8(b.subrange(0, j));
    let d = decode_utf8(mid);
    let c = decode_utf8(b2.subrange(e - j, b2.len() as int));
    assert(p =~= a + (d + c));
    assert(p.subrange(a.len() as int, (a.len() + d.len()) as int) =~= d);
    if j == i {
        assert(mid.len() > 0);
        assert(d.len() > 0);
    }
    lemma_decode_len(mid);
    lemma_leading_bytes_split(mid, end - j);
    lemma_leading_bytes_split(mid.subrange(0, end - j), 0);
    assert forall|k: int| 0 <= k < mid.subrange(end - j, mid.len() as int).len() implies is_continuation_byte(
        #[trigger] mid.subrange(end - j, mid.len() as int)[k],
    ) by {
        assert(mid.subrange(end - j, mid.len() as int)[k] == b[end + k]);
    }
    lemma_continuations_no_leading(mid.subrange(end - j, mid.len() as int));
    (a.len() as int, (a.len() + d.len()) as int)
}

/// Appends the windows of `b` to `out`; each gives a passage of at most
/// [`MAX_BYTES`] characters.
fn push_windows(b: &[u8], Ghost(p): Ghost<Seq<char>>, out: &mut Vec<String>)
    requires
        b@ == encode_utf8(p),
    ensures
        final(out).deep_view() == old(out).deep_view() + windows_from(b@, 0),
        forall|k: int|
            old(out).len() <= k < final(out).len() ==> #[trigger] final(out)@[k]@.len() <= MAX_BYTES,
        forall|k: int|
            old(out).len() <= k < final(out).len() ==> piece_of(#[trigger] final(out)@[k]@, p),
        forall|k: int| 0 <= k < old(out).len() ==> final(out)@[k] == old(out)@[k],
{
    let ghost base = out.deep_view();
    let len = b.len();
    let mut i: usize = 0;
    assert(base + windows_from(b@, 0) =~= out.deep_view() + windows_from(b@, 0));
    while i < len
        invariant
            len == b@.len(),
            b@ == encode_utf8(p),
            i <= len,
            base + windows_from(b@, 0) == out.deep_view() + windows_from(b@, i as int),
            base.len() == old(out).len() <= out.len(),
            forall|k: int| 0 <= k < old(out).len() ==> out@[k] == old(out)@[k],
            forall|k: int| old(out).len() <= k < out.len() ==> #[trigger] out@[k]@.len() <= MAX_BYTES,
            forall|k: int| old(out).len() <= k < out.len() ==> piece_of(#[trigger] out@[k]@, p),
        decreases len - i,
    {
        let end = if len - i > MAX_BYTES {
            i + MAX_BYTES
        } else {
            len
        };
        let e = find_char_end(b, end);
        let piece = vstd::slice::slice_subrange(b, i, e);
        let s = decode_lossy(piece);
        proof {
            lemma_char_end(b@, end as int);
            let xy = lemma_window_piece(p, i as int, end as int, e as int);
            let v = b@.subrange(i as int, e as int);
            let ce = char_end(v, 0);
            assert(piece@ == v);
            assert(s@ == replacements(ce as nat) + p.subrange(xy.0, xy.1));
            if ce > 0 {
                assert(replacements(ce as nat).len() > 0);
            }
            assert(piece_of(s@, p));
        }
        let ghost before = out.deep_view();
        out.push(s);
        proof {
            assert(out.deep_view() =~= before.push(s@));
            assert(windows_from(b@, i as int) == seq![s@] + windows_from(b@, i + STRIDE));
            assert(before.push(s@) + windows_from(b@, i + STRIDE) =~= before + (seq![s@]
                + windows_from(b@, i + STRIDE)));
        }
        if len - i <= STRIDE {
            assert(windows_from(b@, i + STRIDE) =~= Seq::<Seq<char>>::empty());
            assert(out.deep_view() + Seq::<Seq<char>>::empty() =~= out.deep_view());
            i = len;
        } else {
            i = i + STRIDE;
        }
    }
}

/// A piece of a piece of `t` is a piece of `t`.
proof fn lemma_piece_lift(c: Seq<char>, p: Seq<char>, t: Seq<char>, a: int, b: int)
    requires
        piece_of(c, p),
        0 <= a <= b <= t.len(),
        p == t.subrange(a, b),
    ensures
        piece_of(c, t),
{
    let (m, x, y) = choose|m: nat, x: int, y: int|
        #![trigger replacements(m), p.subrange(x, y)]
        0 <= x <= y <= p.len() && c == replacements(m) + p.subrange(x, y);
    assert(p.subrange(x, y) =~= t.subrange(a + x, a + y));
    assert(c == replacements(m) + t.subrange(a + x, a + y));
}

/// Appends the passages of the paragraph `t[lo..hi]` to `out`.
fn push_paragraph(t: &Vec<char>, lo: usize, hi: usize, out: &mut Vec<String>)
    requires
        lo <= hi <= t.len(),
    ensures
        final(out).deep_view() == old(out).deep_view() + paragraph_chunks(
            t@.subrange(lo as int, hi as int),
        ),
        forall|k: int|
            old(out).len() <= k < final(out).len() ==> #[trigger] final(out)@[k]@.len() <= MAX_BYTES,
        forall|k: int|
            old(out).len() <= k < final(out).len() ==> piece_of(#[trigger] final(out)@[k]@, t@),
        forall|k: int| 0 <= k < old(out).len() ==> final(out)@[k] == old(out)@[k],
{
    let ghost para = t@.subrange(lo as int, hi as int);
    let (a, b) = trim_bounds(t, lo, hi);
    if b - a <= MIN_CHARS {
        assert(old(out).deep_view() + Seq::<Seq<char>>::empty() =~= old(out).deep_view());
        return;
    }
    let p = string_from_chars(&copy_range(t, a, b));
    let bytes = p.as_str().as_bytes();
    assert(p@ == t@.subrange(a as int, b as int));
    proof {
        encode_utf8_valid_utf8(p@);
        encode_utf8_decode_utf8(p@);
        lemma_decode_len(encode_utf8(p@));
        lemma_leading_bytes_split(encode_utf8(p@), 0);
    }
    if bytes.len() <= MAX_BYTES {
        let ghost before = out.deep_view();
        let ghost pv = p@;
        out.push(p);
        assert(out.deep_view() =~= before + seq![trim(para)]);
        proof {
            assert(replacements(0) + t@.subrange(a as int, b as int) =~= pv);
            assert(piece_of(pv, t@));
        }
    } else {
        push_windows(bytes, Ghost(p@), out);
        proof {
            assert forall|k: int| old(out).len() <= k < out.len() implies piece_of(
                #[trigger] out@[k]@,
                t@,
            ) by {
                lemma_piece_lift(out@[k]@, p@, t@, a as int, b as int);
            }
        }
    }
}

/// Splits a note into the passages that get embedded, in order.  Every
/// passage holds 1 to [`MAX_BYTES`] characters and is a piece of the note,
/// after one U+FFFD for each byte of a character that its window cut off.
pub fn chunk(text: &str) -> (r: Vec<String>)
    ensures
        r.deep_view() == note_chunks(text@),
        forall|i: int| 0 <= i < r.len() ==> #[trigger] r@[i]@.len() <= MAX_BYTES,
        forall|i: int| 0 <= i < r.len() ==> piece_of(#[trigger] r@[i]@, text@),
{
    let t = chars_of(text);
    let mut out: Vec<String> = Vec::new();
    let mut pos: usize = 0;
    assert(out.deep_view() + note_chunks(text@) =~= note_chunks(text@));
    loop
        invariant_except_break
            note_chunks(text@) == out.deep_view() + chunks_of(paragraphs_from(t@, pos as int)),
        invariant
            t@ == text@,
            pos <= t.len(),
            forall|k: int| 0 <= k < out.len() ==> #[trigger] out@[k]@.len() <= MAX_BYTES,
            forall|k: int| 0 <= k < out.len() ==> piece_of(#[trigger] out@[k]@, text@),
        ensures
            note_chunks(text@) == out.deep_view(),
        decreases t.len() - pos,
    {
        proof {
            lemma_find_from(t@, seq!['\n', '\n'], pos as int);
        }
        let ghost rest = paragraphs_from(t@, pos as int);
        let ghost before = out.deep_view();
        match find_pair(&t, '\n', '\n', pos) {
            None => {
                push_paragraph(&t, pos, t.len(), &mut out);
                proof {
                    let piece = t@.subrange(pos as int, t.len() as int);
                    assert(rest == seq![piece]);
                    assert(rest.drop_first() =~= Seq::<Seq<char>>::empty());
                    assert(chunks_of(Seq::<Seq<char>>::empty()) =~= Seq::<Seq<char>>::empty());
                    assert(chunks_of(rest) =~= paragraph_chunks(piece));
                    assert(before + paragraph_chunks(piece) =~= out.deep_view());
                }
                break;
            },
            Some(i) => {
                push_paragraph(&t, pos, i, &mut out);
                proof {
                    let piece = t@.subrange(pos as int, i as int);
                    assert(rest.drop_first() =~= paragraphs_from(t@, i + 2));
                    assert(chunks_of(rest) == paragraph_chunks(piece) + chunks_of(
                        paragraphs_from(t@, i + 2),
                    ));
                    assert(before + (paragraph_chunks(piece) + chunks_of(paragraphs_from(t@, i + 2)))
                        =~= (before + paragraph_chunks(piece)) + chunks_of(
                        paragraphs_from(t@, i + 2),
                    ));
                }
                pos = i + 2;
            },
        }
    }
    out
}

} // verus!
