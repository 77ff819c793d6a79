//! Wiki links: the `[[target]]` references written in a note.
use vstd::prelude::*;
use crate::text::{
    chars_of, copy_range, find_from, find_pair, is_white_space, lemma_find_from,
    lemma_find_from_extend, lemma_lines_from_shift, lemma_trim, lines, lines_from, strip_cr,
    next_line, occurs_at, same_chars, string_from_chars, trim, trim_bounds, trim_start,
    trim_start_bound,
};

verus! {

broadcast use vstd::seq_lib::group_seq_properties;

/// `acc` with `inner` appended, when `inner` is a usable link target that is
/// not yet listed: not empty, free of `[`, and new.
pub open spec fn add_link(acc: Seq<Seq<char>>, inner: Seq<char>) -> Seq<Seq<char>> {
    if inner.len() > 0 && !inner.contains('[') && !acc.contains(inner) {
        acc.push(inner)
    } else {
        acc
    }
}

/// The links of `line` found from position `pos` on, added to `acc`: each
/// `[[` is closed by the first `]]` after it, the text between them trimmed;
/// scanning goes on after that `]]`, and stops at a `[[` that is never closed.
pub open spec fn scan_links(line: Seq<char>, pos: int, acc: Seq<Seq<char>>) -> Seq<Seq<char>>
    decreases line.len() - pos,
{
    if pos < 0 || pos > line.len() {
        acc
    } else {
        match find_from(line, seq!['[', '['], pos) {
            None => acc,
            Some(open) => match find_from(line, seq![']', ']'], open + 2) {
                None => acc,
                Some(close) => {
                    proof {
                        lemma_find_from(line, seq!['[', '['], pos);
                        lemma_find_from(line, seq![']', ']'], open + 2);
                    }
                    scan_links(line, close + 2, add_link(acc, trim(line.subrange(open + 2, close))))
                },
            },
        }
    }
}

/// Whether `line` opens or closes a fenced code block: after its leading
/// whitespace it starts with three backticks.
pub open spec fn is_fence(line: Seq<char>) -> bool {
    occurs_at(trim_start(line), seq!['`', '`', '`'], 0)
}

/// The links of the lines `ls`, added to `acc`, with `in_fence` telling
/// whether the first of them lies inside a fenced code block.
pub open spec fn links_of_lines(ls: Seq<Seq<char>>, in_fence: bool, acc: Seq<Seq<char>>) -> Seq<
    Seq<char>,
>
    decreases ls.len(),
{
    if ls.len() == 0 {
        acc
    } else if is_fence(ls[0]) {
        links_of_lines(ls.drop_first(), !in_fence, acc)
    } else if in_fence {
        links_of_lines(ls.drop_first(), in_fence, acc)
    } else {
        links_of_lines(ls.drop_first(), in_fence, scan_links(ls[0], 0, acc))
    }
}

/// The link targets of a note, in document order, each once.
pub open spec fn wiki_links(text: Seq<char>) -> Seq<Seq<char>> {
    links_of_lines(lines(text), false, Seq::empty())
}

/// The character sequences held by a vector of character vectors.
pub open spec fn rows(v: Seq<Vec<char>>) -> Seq<Seq<char>> {
    Seq::new(v.len(), |i: int| v[i]@)
}

/// Whether the list `acc` already holds `x`.
fn holds_link(acc: &Vec<Vec<char>>, x: &Vec<char>) -> (r: bool)
    ensures
        r == rows(acc@).contains(x@),
{
    let ghost dv = rows(acc@);
    for i in 0..acc.len()
        invariant
            dv == rows(acc@),
            dv.len() == acc.len(),
            forall|k: int| 0 <= k < i ==> dv[k] != x@,
    {
        assert(dv[i as int] == acc[i as int]@);
        if same_chars(&acc[i], x) {
            assert(dv[i as int] == x@);
            return true;
        }
    }
    assert(!dv.contains(x@));
    false
}

/// Whether `v` holds the character `c`.
fn has_char(v: &Vec<char>, c: char) -> (r: bool)
    ensures
        r == v@.contains(c),
{
    for i in 0..v.len()
        invariant
            forall|k: int| 0 <= k < i ==> v@[k] != c,
    {
        if v[i] == c {
            assert(v@[i as int] == c);
            return true;
        }
    }
    false
}

/// Adds the links of one line (outside any code fence) to `acc`.
fn scan_line(line: &Vec<char>, acc: &mut Vec<Vec<char>>)
    ensures
        rows(final(acc)@) == scan_links(line@, 0, rows(old(acc)@)),
{
    let ghost goal = scan_links(line@, 0, rows(acc@));
    let mut pos: usize = 0;
    loop
        invariant
            pos <= line.len(),
            goal == scan_links(line@, pos as int, rows(acc@)),
        ensures
            goal == rows(acc@),
        decreases line.len() + 1 - pos,
    {
        proof {
            lemma_find_from(line@, seq!['[', '['], pos as int);
        }
        let open = match find_pair(line, '[', '[', pos) {
            None => {
                break;
            },
            Some(o) => o,
        };
        proof {
            lemma_find_from(line@, seq![']', ']'], open + 2);
        }
        let close = match find_pair(line, ']', ']', open + 2) {
            None => {
                break;
            },
            Some(c) => c,
        };
        let (a, b) = trim_bounds(line, open + 2, close);
        let inner = copy_range(line, a, b);
        let ghost before = rows(acc@);
        if inner.len() > 0 && !has_char(&inner, '[') && !holds_link(acc, &inner) {
            acc.push(inner);
            assert(rows(acc@) =~= before.push(line@.subrange(a as int, b as int)));
        }
        assert(rows(acc@) == add_link(before, trim(line@.subrange(open + 2, close as int))));
        pos = close + 2;
    }
}

/// Extracts the `[[wikilink]]` targets of a note, in document order, each
/// once.  Lines inside fenced code blocks are skipped, and a target that holds
/// a stray `[` is ignored.
pub fn extract_links(text: &str) -> (r: Vec<String>)
    ensures
        r.deep_view() == wiki_links(text@),
{
    let t = chars_of(text);
    let mut acc: Vec<Vec<char>> = Vec::new();
    let mut in_fence = false;
    let mut pos: usize = 0;
    assert(rows(acc@) =~= Seq::<Seq<char>>::empty());
    while pos < t.len()
        invariant
            t@ == text@,
            pos <= t.len(),
            wiki_links(text@) == links_of_lines(lines_from(t@, pos as int), in_fence, rows(acc@)),
        decreases t.len() - pos,
    {
        let (line, next) = next_line(&t, pos);
        let ghost ls = lines_from(t@, pos as int);
        assert(ls.drop_first() =~= lines_from(t@, next as int));
        assert(ls[0] == line@);
        let start = trim_start_bound(&line, 0, line.len());
        assert(line@.subrange(0, line.len() as int) =~= line@);
        let fence = line.len() - start >= 3 && line[start] == '`' && line[start + 1] == '`'
            && line[start + 2] == '`';
        proof {
            let ts = trim_start(line@);
            assert(ts =~= line@.subrange(start as int, line.len() as int));
            let pat = seq!['`', '`', '`'];
            assert(pat[0] == '`' && pat[1] == '`' && pat[2] == '`');
            if fence {
                assert(occurs_at(ts, pat, 0));
            } else if occurs_at(ts, pat, 0) {
                assert(ts[0] == pat[0] && ts[1] == pat[1] && ts[2] == pat[2]);
            }
            assert(fence == is_fence(line@));
        }
        if fence {
            in_fence = !in_fence;
        } else if !in_fence {
            scan_line(&line, &mut acc);
        }
        pos = next;
    }
    assert(lines_from(t@, pos as int) =~= Seq::<Seq<char>>::empty());
    let mut r: Vec<String> = Vec::new();
    for i in 0..acc.len()
        invariant
            r.len() == i,
            forall|k: int| 0 <= k < i ==> r@[k]@ == acc@[k]@,
    {
        r.push(string_from_chars(&acc[i]));
    }
    assert(r.deep_view() =~= rows(acc@));
    r
}

/// Every entry of the list is a usable link target (not empty, without `[`,
/// without surrounding whitespace) and no entry appears twice.
pub open spec fn well_formed_links(acc: Seq<Seq<char>>) -> bool {
    &&& acc.no_duplicates()
    &&& forall|i: int|
        0 <= i < acc.len() ==> {
            &&& #[trigger] acc[i].len() > 0
            &&& !acc[i].contains('[')
            &&& !is_white_space(acc[i][0])
            &&& !is_white_space(acc[i].last())
        }
}

proof fn lemma_add_link_keeps(acc: Seq<Seq<char>>, raw: Seq<char>)
    requires
        well_formed_links(acc),
    ensures
        well_formed_links(add_link(acc, trim(raw))),
{
    let inner = trim(raw);
    lemma_trim(raw);
    if inner.len() > 0 && !inner.contains('[') && !acc.contains(inner) {
        let n = acc.push(inner);
        assert forall|i: int, j: int| 0 <= i < n.len() && 0 <= j < n.len() && i != j implies n[i]
            != n[j] by {
            if i == acc.len() as int {
                assert(acc[j] == n[j]);
            } else if j == acc.len() as int {
                assert(acc[i] == n[i]);
            }
        }
        assert forall|i: int| 0 <= i < n.len() implies {
            &&& #[trigger] n[i].len() > 0
            &&& !n[i].contains('[')
            &&& !is_white_space(n[i][0])
            &&& !is_white_space(n[i].last())
        } by {
            if i < acc.len() {
                assert(n[i] == acc[i]);
            }
        }
    }
}

proof fn lemma_scan_links_keeps(line: Seq<char>, pos: int, acc: Seq<Seq<char>>)
    requires
        well_formed_links(acc),
    ensures
        well_formed_links(scan_links(line, pos, acc)),
    decreases line.len() - pos,
{
    if pos < 0 || pos > line.len() {
    } else {
        match find_from(line, seq!['[', '['], pos) {
            None => {},
            Some(open) => match find_from(line, seq![']', ']'], open + 2) {
                None => {},
                Some(close) => {
                    lemma_find_from(line, seq!['[', '['], pos);
                    lemma_find_from(line, seq![']', ']'], open + 2);
                    let raw = line.subrange(open + 2, close);
                    lemma_add_link_keeps(acc, raw);
                    lemma_scan_links_keeps(line, close + 2, add_link(acc, trim(raw)));
                },
            },
        }
    }
}

proof fn lemma_links_of_lines_keeps(ls: Seq<Seq<char>>, in_fence: bool, acc: Seq<Seq<char>>)
    requires
        well_formed_links(acc),
    ensures
        well_formed_links(links_of_lines(ls, in_fence, acc)),
    decreases ls.len(),
{
    if ls.len() == 0 {
    } else if is_fence(ls[0]) {
        lemma_links_of_lines_keeps(ls.drop_first(), !in_fence, acc);
    } else if in_fence {
        lemma_links_of_lines_keeps(ls.drop_first(), in_fence, acc);
    } else {
        lemma_scan_links_keeps(ls[0], 0, acc);
        lemma_links_of_lines_keeps(ls.drop_first(), in_fence, scan_links(ls[0], 0, acc));
    }
}

/// Law: the links of any note are each listed once, and each is a usable
/// target: not empty, free of `[`, without leading or trailing whitespace.
pub proof fn lemma_wiki_links_well_formed(text: Seq<char>)
    ensures
        well_formed_links(wiki_links(text)),
{
    lemma_links_of_lines_keeps(lines(text), false, Seq::empty());
}

/// Whether, after the lines `ls`, a fenced code block is open, given whether
/// one was open before them.
pub open spec fn fence_open_after(ls: Seq<Seq<char>>, in_fence: bool) -> bool
    decreases ls.len(),
{
    if ls.len() == 0 {
        in_fence
    } else {
        fence_open_after(ls.drop_first(), if is_fence(ls[0]) { !in_fence } else { in_fence })
    }
}

/// The links of consecutive runs of lines: those of the second run are added
/// to those of the first, with the fence state the first leaves.
pub proof fn lemma_links_of_lines_concat(
    ls1: Seq<Seq<char>>,
    ls2: Seq<Seq<char>>,
    in_fence: bool,
    acc: Seq<Seq<char>>,
)
    ensures
        links_of_lines(ls1 + ls2, in_fence, acc) == links_of_lines(
            ls2,
            fence_open_after(ls1, in_fence),
            links_of_lines(ls1, in_fence, acc),
        ),
    decreases ls1.len(),
{
    if ls1.len() == 0 {
        assert(ls1 + ls2 =~= ls2);
    } else {
        assert((ls1 + ls2)[0] == ls1[0]);
        assert((ls1 + ls2).drop_first() =~= ls1.drop_first() + ls2);
        let f2 = if is_fence(ls1[0]) { !in_fence } else { in_fence };
        let acc2 = if is_fence(ls1[0]) || in_fence { acc } else { scan_links(ls1[0], 0, acc) };
        lemma_links_of_lines_concat(ls1.drop_first(), ls2, f2, acc2);
    }
}

/// Law: a fenced code block adds no links and leaves the lines after it as
/// they were: the links of an opening fence line, lines that are not fence
/// lines, a closing fence line and then `rest` are the links of `rest`.
pub proof fn lemma_fenced_block_adds_nothing(
    open: Seq<char>,
    body: Seq<Seq<char>>,
    close: Seq<char>,
    rest: Seq<Seq<char>>,
    acc: Seq<Seq<char>>,
)
    requires
        is_fence(open),
        is_fence(close),
        forall|i: int| 0 <= i < body.len() ==> !is_fence(#[trigger] body[i]),
    ensures
        links_of_lines(seq![open] + body + seq![close] + rest, false, acc) == links_of_lines(
            rest,
            false,
            acc,
        ),
{
    let head = seq![open] + body + seq![close];
    assert(seq![open] + body + seq![close] + rest =~= head + rest);
    lemma_links_of_lines_concat(head, rest, false, acc);
    lemma_skip_fenced(body, seq![close], acc);
    assert(head[0] == open);
    assert(head.drop_first() =~= body + seq![close]);
    lemma_fence_state_in_block(body, seq![close]);
    let c = seq![close];
    assert(c[0] == close);
    assert(c.drop_first() =~= Seq::<Seq<char>>::empty());
    assert(links_of_lines(Seq::<Seq<char>>::empty(), false, acc) == acc);
    assert(fence_open_after(Seq::<Seq<char>>::empty(), false) == false);
    assert(links_of_lines(c, true, acc) == acc);
    assert(fence_open_after(c, true) == false);
    assert(links_of_lines(head, false, acc) == acc);
    assert(fence_open_after(head, false) == false);
}

proof fn lemma_skip_fenced(body: Seq<Seq<char>>, tail: Seq<Seq<char>>, acc: Seq<Seq<char>>)
    requires
        forall|i: int| 0 <= i < body.len() ==> !is_fence(#[trigger] body[i]),
    ensures
        links_of_lines(body + tail, true, acc) == links_of_lines(tail, true, acc),
    decreases body.len(),
{
    if body.len() == 0 {
        assert(body + tail =~= tail);
    } else {
        assert((body + tail)[0] == body[0]);
        assert((body + tail).drop_first() =~= body.drop_first() + tail);
        assert forall|i: int| 0 <= i < body.drop_first().len() implies !is_fence(
            #[trigger] body.drop_first()[i],
        ) by {
            assert(body.drop_first()[i] == body[i + 1]);
        }
        lemma_skip_fenced(body.drop_first(), tail, acc);
    }
}

proof fn lemma_fence_state_in_block(body: Seq<Seq<char>>, tail: Seq<Seq<char>>)
    requires
        forall|i: int| 0 <= i < body.len() ==> !is_fence(#[trigger] body[i]),
    ensures
        fence_open_after(body + tail, true) == fence_open_after(tail, true),
    decreases body.len(),
{
    if body.len() == 0 {
        assert(body + tail =~= tail);
    } else {
        assert((body + tail)[0] == body[0]);
        assert((body + tail).drop_first() =~= body.drop_first() + tail);
        assert forall|i: int| 0 <= i < body.drop_first().len() implies !is_fence(
            #[trigger] body.drop_first()[i],
        ) by {
            assert(body.drop_first()[i] == body[i + 1]);
        }
        lemma_fence_state_in_block(body.drop_first(), tail);
    }
}

/// A carriage return at the end of a line is trimmed away with the rest of
/// the leading whitespace, or stays last.
proof fn lemma_trim_start_cr(x: Seq<char>)
    ensures
        trim_start(x.push('\r')) == if trim_start(x).len() == 0 {
            Seq::<char>::empty()
        } else {
            trim_start(x).push('\r')
        },
    decreases x.len(),
{
    let y = x.push('\r');
    assert(is_white_space('\r'));
    if x.len() == 0 {
        assert(y.drop_first() =~= Seq::<char>::empty());
    } else {
        assert(y[0] == x[0]);
        if is_white_space(x[0]) {
            assert(y.drop_first() =~= x.drop_first().push('\r'));
            lemma_trim_start_cr(x.drop_first());
        }
    }
}

/// A final carriage return does not make or unmake a fence line.
proof fn lemma_fence_cr(x: Seq<char>)
    ensures
        is_fence(x.push('\r')) == is_fence(x),
{
    lemma_trim_start_cr(x);
    let t = trim_start(x);
    let bt = seq!['`', '`', '`'];
    if t.len() > 0 {
        let u = t.push('\r');
        if t.len() >= 3 {
            assert(occurs_at(u, bt, 0) == occurs_at(t, bt, 0)) by {
                assert(u[0] == t[0] && u[1] == t[1] && u[2] == t[2]);
            }
        } else if occurs_at(u, bt, 0) {
            assert(u[2] == bt[2]);
            assert(u[2] == '\r');
        }
    }
}

/// A search for a pattern that does not end with a carriage return finds the
/// same in a text with a carriage return appended.
proof fn lemma_find_from_cr(x: Seq<char>, pat: Seq<char>, i: int)
    requires
        0 <= i,
        pat.len() > 0,
        pat.last() != '\r',
    ensures
        find_from(x.push('\r'), pat, i) == find_from(x, pat, i),
{
    let y = x.push('\r');
    lemma_find_from(x, pat, i);
    lemma_find_from(y, pat, i);
    assert(x + seq!['\r'] =~= y);
    lemma_find_from_extend(x, seq!['\r'], pat, i);
    if find_from(x, pat, i) is None {
        if find_from(y, pat, i) is Some {
            let j = find_from(y, pat, i)->0;
            if j + pat.len() <= x.len() {
                assert(occurs_at(x, pat, j)) by {
                    assert forall|k: int| 0 <= k < pat.len() implies x[j + k] == pat[k] by {
                        assert(y[j + k] == x[j + k]);
                    }
                }
            } else {
                assert(y[j + pat.len() - 1] == pat[pat.len() - 1]);
            }
        }
    }
}

/// A final carriage return changes no link of a line.
proof fn lemma_scan_links_cr(x: Seq<char>, pos: int, acc: Seq<Seq<char>>)
    requires
        0 <= pos <= x.len(),
    ensures
        scan_links(x.push('\r'), pos, acc) == scan_links(x, pos, acc),
    decreases x.len() - pos,
{
    let y = x.push('\r');
    let op = seq!['[', '['];
    let cl = seq![']', ']'];
    lemma_find_from_cr(x, op, pos);
    lemma_find_from(x, op, pos);
    match find_from(x, op, pos) {
        None => {},
        Some(open) => {
            lemma_find_from_cr(x, cl, open + 2);
            lemma_find_from(x, cl, open + 2);
            match find_from(x, cl, open + 2) {
                None => {},
                Some(close) => {
                    assert(y.subrange(open + 2, close) =~= x.subrange(open + 2, close));
                    lemma_scan_links_cr(x, close + 2, add_link(acc, trim(x.subrange(open + 2, close))));
                },
            }
        },
    }
}

/// The last line of `a` (from `pos`, with no newline after it), then the
/// lines of `b`.
/// Stripping a final carriage return changes neither whether a line is a
/// fence line nor its links.
proof fn lemma_strip_cr_same(seg: Seq<char>, acc: Seq<Seq<char>>)
    ensures
        is_fence(strip_cr(seg)) == is_fence(seg),
        scan_links(strip_cr(seg), 0, acc) == scan_links(seg, 0, acc),
{
    if seg.len() > 0 && seg.last() == '\r' {
        let line = seg.drop_last();
        assert(seg =~= line.push('\r'));
        lemma_fence_cr(line);
        lemma_scan_links_cr(line, 0, acc);
    }
}

/// The links of a line with a final carriage return stripped, then further
/// lines, read as those of the line itself.
proof fn lemma_links_first_line(
    ls: Seq<Seq<char>>,
    la: Seq<Seq<char>>,
    seg: Seq<char>,
    f: bool,
    acc: Seq<Seq<char>>,
)
    requires
        ls.len() > 0,
        ls[0] == strip_cr(seg),
        la == seq![seg],
    ensures
        links_of_lines(ls, f, acc) == links_of_lines(
            ls.drop_first(),
            fence_open_after(la, f),
            links_of_lines(la, f, acc),
        ),
{
    lemma_strip_cr_same(seg, acc);
    assert(la[0] == seg);
    assert(la.drop_first() =~= Seq::<Seq<char>>::empty());
    let f2 = if is_fence(seg) { !f } else { f };
    let acc2 = if is_fence(seg) || f { acc } else { scan_links(seg, 0, acc) };
    assert(links_of_lines(la.drop_first(), f2, acc2) == acc2);
    assert(fence_open_after(la.drop_first(), f2) == f2);
}

/// After a position past which `a` has no newline, the first newline of `a`,
/// a newline and `b` is that newline.
proof fn lemma_newline_after(a: Seq<char>, b: Seq<char>, k: int)
    requires
        0 <= k <= a.len(),
        find_from(a, seq!['\n'], k) is None,
    ensures
        find_from(a + seq!['\n'] + b, seq!['\n'], k) == Some(a.len() as int),
    decreases a.len() - k,
{
    let nlp = seq!['\n'];
    let t = a + nlp + b;
    let n = a.len() as int;
    if k == n {
        assert(t[n + 0] == nlp[0]);
        assert(occurs_at(t, nlp, n));
    } else {
        assert(!occurs_at(a, nlp, k));
        if a[k] == '\n' {
            assert(a[k + 0] == nlp[0]);
            assert(occurs_at(a, nlp, k));
        }
        assert(t[k + 0] == a[k]);
        assert(!occurs_at(t, nlp, k));
        lemma_newline_after(a, b, k + 1);
    }
}

/// The lines of `a`, a newline and `b`, from a position of `a` after which
/// `a` has no newline: the rest of `a`, then the lines of `b`.
proof fn lemma_lines_join_last(a: Seq<char>, b: Seq<char>, pos: int)
    requires
        0 <= pos < a.len(),
        find_from(a + seq!['\n'] + b, seq!['\n'], pos) == Some(a.len() as int),
        find_from(a, seq!['\n'], pos) is None,
    ensures
        lines_from(a + seq!['\n'] + b, pos)[0] == strip_cr(a.subrange(pos, a.len() as int)),
        lines_from(a + seq!['\n'] + b, pos).len() > 0,
        lines_from(a + seq!['\n'] + b, pos).drop_first() == lines(b),
        lines_from(a, pos) == seq![a.subrange(pos, a.len() as int)],
{
    let nlp = seq!['\n'];
    let t = a + nlp + b;
    let n = a.len() as int;
    lemma_lines_from_shift(t, n + 1, n + 1);
    assert(t.subrange(n + 1, t.len() as int) =~= b);
    assert(t.subrange(pos, n) =~= a.subrange(pos, n));
    let ls = lines_from(t, pos);
    assert(ls == seq![strip_cr(t.subrange(pos, n))] + lines_from(t, n + 1));
    assert(ls.drop_first() =~= lines_from(t, n + 1));
}

/// The links of the lines of `a`, a newline and `b`, from position `pos` of
/// `a` on.
#[verifier::rlimit(40)]
proof fn lemma_links_join_from(a: Seq<char>, b: Seq<char>, pos: int, f: bool, acc: Seq<Seq<char>>)
    requires
        0 <= pos <= a.len(),
    ensures
        links_of_lines(lines_from(a + seq!['\n'] + b, pos), f, acc) == links_of_lines(
            lines(b),
            fence_open_after(lines_from(a, pos), f),
            links_of_lines(lines_from(a, pos), f, acc),
        ),
    decreases a.len() - pos,
{
    let nlp = seq!['\n'];
    let t = a + nlp + b;
    let n = a.len() as int;
    lemma_find_from(t, nlp, pos);
    lemma_find_from(a, nlp, pos);
    lemma_lines_from_shift(t, n + 1, n + 1);
    assert(t.subrange(n + 1, t.len() as int) =~= b);
    assert(t[n] == '\n');
    assert(occurs_at(t, nlp, n));
    if pos == n {
        assert(find_from(t, nlp, pos) == Some(n));
        assert(t.subrange(n, n) =~= Seq::<char>::empty());
        let ls = lines_from(t, pos);
        assert(ls == seq![strip_cr(t.subrange(n, n))] + lines_from(t, n + 1));
        assert(ls[0] == Seq::<char>::empty());
        assert(ls.drop_first() =~= lines(b));
        assert(!is_fence(Seq::<char>::empty()));
        assert(scan_links(Seq::<char>::empty(), 0, acc) == acc) by {
            lemma_find_from(Seq::<char>::empty(), seq!['[', '['], 0);
        }
        assert(lines_from(a, pos) =~= Seq::<Seq<char>>::empty());
        assert(links_of_lines(ls, f, acc) == links_of_lines(lines(b), f, acc));
    } else {
        match find_from(a, nlp, pos) {
            Some(nl) => {
                lemma_find_from_extend(a, nlp + b, nlp, pos);
                assert(a + (nlp + b) =~= t);
                assert(t.subrange(pos, nl) =~= a.subrange(pos, nl));
                let line = strip_cr(a.subrange(pos, nl));
                let f2 = if is_fence(line) { !f } else { f };
                let acc2 = if is_fence(line) || f { acc } else { scan_links(line, 0, acc) };
                lemma_links_join_from(a, b, nl + 1, f2, acc2);
                let ls = lines_from(t, pos);
                let la = lines_from(a, pos);
                assert(ls == seq![line] + lines_from(t, nl + 1));
                assert(la == seq![line] + lines_from(a, nl + 1));
                assert(ls[0] == line && la[0] == line);
                assert(ls.drop_first() =~= lines_from(t, nl + 1));
                assert(la.drop_first() =~= lines_from(a, nl + 1));
            },
            None => {
                lemma_newline_after(a, b, pos);
                lemma_lines_join_last(a, b, pos);
                let seg = a.subrange(pos, n);
                let ls = lines_from(t, pos);
                let la = lines_from(a, pos);
                assert(ls[0] == strip_cr(seg));
                assert(ls.drop_first() =~= lines(b));
                lemma_links_first_line(ls, la, seg, f, acc);
            },
        }
    }
}

/// Law: the links of two texts joined by a newline are those of the first
/// text, then those of the second added to them (repeats dropped), read with
/// the fence state the first text leaves; when the first text opens and
/// closes its fences (an even number of fence lines), that state is closed.
pub proof fn lemma_links_join(a: Seq<char>, b: Seq<char>)
    ensures
        wiki_links(a + seq!['\n'] + b) == links_of_lines(
            lines(b),
            fence_open_after(lines(a), false),
            wiki_links(a),
        ),
{
    lemma_links_join_from(a, b, 0, false, Seq::empty());
}

/// `acc` with each of `xs` added in turn as [`add_link`] adds a link.
pub open spec fn add_links(acc: Seq<Seq<char>>, xs: Seq<Seq<char>>) -> Seq<Seq<char>>
    decreases xs.len(),
{
    if xs.len() == 0 {
        acc
    } else {
        add_link(add_links(acc, xs.drop_last()), xs.last())
    }
}

/// `s` with every element that equals an earlier one dropped.
pub open spec fn dedup_keep_first(s: Seq<Seq<char>>) -> Seq<Seq<char>>
    decreases s.len(),
{
    if s.len() == 0 {
        Seq::empty()
    } else {
        let d = dedup_keep_first(s.drop_last());
        if d.contains(s.last()) {
            d
        } else {
            d.push(s.last())
        }
    }
}

/// The trimmed texts between `[[` and `]]` in `line` from `pos` on, as
/// [`scan_links`] visits them, before any is checked.
pub open spec fn scan_raw(line: Seq<char>, pos: int) -> Seq<Seq<char>>
    decreases line.len() - pos,
{
    if pos < 0 || pos > line.len() {
        Seq::empty()
    } else {
        match find_from(line, seq!['[', '['], pos) {
            None => Seq::empty(),
            Some(open) => match find_from(line, seq![']', ']'], open + 2) {
                None => Seq::empty(),
                Some(close) => {
                    proof {
                        lemma_find_from(line, seq!['[', '['], pos);
                        lemma_find_from(line, seq![']', ']'], open + 2);
                    }
                    seq![trim(line.subrange(open + 2, close))] + scan_raw(line, close + 2)
                },
            },
        }
    }
}

/// The texts [`links_of_lines`] visits, before any is checked.
pub open spec fn raw_lines(ls: Seq<Seq<char>>, in_fence: bool) -> Seq<Seq<char>>
    decreases ls.len(),
{
    if ls.len() == 0 {
        Seq::empty()
    } else if is_fence(ls[0]) {
        raw_lines(ls.drop_first(), !in_fence)
    } else if in_fence {
        raw_lines(ls.drop_first(), in_fence)
    } else {
        scan_raw(ls[0], 0) + raw_lines(ls.drop_first(), in_fence)
    }
}

proof fn lemma_add_links_concat(acc: Seq<Seq<char>>, xs: Seq<Seq<char>>, ys: Seq<Seq<char>>)
    ensures
        add_links(acc, xs + ys) == add_links(add_links(acc, xs), ys),
    decreases ys.len(),
{
    if ys.len() == 0 {
        assert(xs + ys =~= xs);
    } else {
        assert((xs + ys).drop_last() =~= xs + ys.drop_last());
        assert((xs + ys).last() == ys.last());
        lemma_add_links_concat(acc, xs, ys.drop_last());
    }
}

proof fn lemma_scan_raw(line: Seq<char>, pos: int, acc: Seq<Seq<char>>)
    ensures
        scan_links(line, pos, acc) == add_links(acc, scan_raw(line, pos)),
    decreases line.len() - pos,
{
    if pos < 0 || pos > line.len() {
    } else {
        match find_from(line, seq!['[', '['], pos) {
            None => {},
            Some(open) => match find_from(line, seq![']', ']'], open + 2) {
                None => {},
                Some(close) => {
                    lemma_find_from(line, seq!['[', '['], pos);
                    lemma_find_from(line, seq![']', ']'], open + 2);
                    let x = trim(line.subrange(open + 2, close));
                    lemma_scan_raw(line, close + 2, add_link(acc, x));
                    lemma_add_links_concat(acc, seq![x], scan_raw(line, close + 2));
                    assert(seq![x].drop_last() =~= Seq::<Seq<char>>::empty());
                    assert(add_links(acc, Seq::<Seq<char>>::empty()) == acc);
                    assert(seq![x].last() == x);
                    assert(add_links(acc, seq![x]) == add_link(acc, x));
                },
            },
        }
    }
}

proof fn lemma_raw_lines(ls: Seq<Seq<char>>, in_fence: bool, acc: Seq<Seq<char>>)
    ensures
        links_of_lines(ls, in_fence, acc) == add_links(acc, raw_lines(ls, in_fence)),
    decreases ls.len(),
{
    if ls.len() == 0 {
    } else if is_fence(ls[0]) {
        lemma_raw_lines(ls.drop_first(), !in_fence, acc);
    } else if in_fence {
        lemma_raw_lines(ls.drop_first(), in_fence, acc);
    } else {
        lemma_scan_raw(ls[0], 0, acc);
        lemma_raw_lines(ls.drop_first(), in_fence, scan_links(ls[0], 0, acc));
        lemma_add_links_concat(acc, scan_raw(ls[0], 0), raw_lines(ls.drop_first(), in_fence));
    }
}

/// Whether [`add_link`] would take `x` into a list that lacks it.
pub open spec fn link_ok(x: Seq<char>) -> bool {
    x.len() > 0 && !x.contains('[')
}

proof fn lemma_add_links_keeps(acc: Seq<Seq<char>>, ys: Seq<Seq<char>>, x: Seq<char>)
    requires
        acc.contains(x) || (ys.contains(x) && link_ok(x)),
    ensures
        add_links(acc, ys).contains(x),
    decreases ys.len(),
{
    if ys.len() > 0 {
        let prev = add_links(acc, ys.drop_last());
        if acc.contains(x) || ys.drop_last().contains(x) {
            if !acc.contains(x) {
                let j = choose|j: int| 0 <= j < ys.drop_last().len() && ys.drop_last()[j] == x;
                assert(ys[j] == x);
            }
            lemma_add_links_keeps(acc, ys.drop_last(), x);
            let j = choose|j: int| 0 <= j < prev.len() && prev[j] == x;
            assert(add_link(prev, ys.last())[j] == x);
        } else {
            let j = choose|j: int| 0 <= j < ys.len() && ys[j] == x;
            if j < ys.len() - 1 {
                assert(ys.drop_last()[j] == x);
            }
            assert(ys.last() == x);
            if !prev.contains(x) {
                assert(add_link(prev, x)[prev.len() as int] == x);
            }
        }
    }
}

proof fn lemma_add_links_twice(acc: Seq<Seq<char>>, r: Seq<Seq<char>>)
    ensures
        add_links(acc, r) == add_links(acc, add_links(Seq::empty(), r)),
    decreases r.len(),
{
    let e = Seq::<Seq<char>>::empty();
    if r.len() == 0 {
    } else {
        let x = r.last();
        lemma_add_links_twice(acc, r.drop_last());
        let y = add_links(e, r.drop_last());
        let z = add_links(acc, r.drop_last());
        if link_ok(x) && !y.contains(x) {
            assert(add_link(y, x) == y.push(x));
            assert(y.push(x).drop_last() =~= y);
        } else if link_ok(x) {
            lemma_add_links_keeps(acc, y, x);
        }
    }
}

proof fn lemma_dedup_of_distinct(s: Seq<Seq<char>>)
    requires
        s.no_duplicates(),
    ensures
        dedup_keep_first(s) == s,
    decreases s.len(),
{
    if s.len() > 0 {
        let d = s.drop_last();
        assert(d.no_duplicates());
        lemma_dedup_of_distinct(d);
        if d.contains(s.last()) {
            let j = choose|j: int| 0 <= j < d.len() && d[j] == s.last();
            assert(s[j] == s[s.len() - 1]);
        }
        assert(d.push(s.last()) =~= s);
    }
}

proof fn lemma_add_links_dedup(p: Seq<Seq<char>>, r: Seq<Seq<char>>)
    requires
        forall|i: int| 0 <= i < r.len() ==> link_ok(#[trigger] r[i]),
    ensures
        add_links(dedup_keep_first(p), r) == dedup_keep_first(p + r),
    decreases r.len(),
{
    if r.len() == 0 {
        assert(p + r =~= p);
    } else {
        assert forall|i: int| 0 <= i < r.drop_last().len() implies link_ok(#[trigger] r.drop_last()[i]) by {
            assert(r.drop_last()[i] == r[i]);
        }
        lemma_add_links_dedup(p, r.drop_last());
        assert((p + r).drop_last() =~= p + r.drop_last());
        assert((p + r).last() == r.last());
        assert(link_ok(r[r.len() - 1]));
    }
}

/// Law: the links of two texts joined by a newline are the links of the
/// first followed by those of the second, each kept only at its first
/// occurrence, when the first text closes every fence it opens (an even
/// number of fence lines).
pub proof fn lemma_links_join_dedup(a: Seq<char>, b: Seq<char>)
    requires
        !fence_open_after(lines(a), false),
    ensures
        wiki_links(a + seq!['\n'] + b) == dedup_keep_first(wiki_links(a) + wiki_links(b)),
{
    let e = Seq::<Seq<char>>::empty();
    let wa = wiki_links(a);
    let wb = wiki_links(b);
    lemma_links_join(a, b);
    lemma_raw_lines(lines(b), false, wa);
    lemma_raw_lines(lines(b), false, e);
    lemma_add_links_twice(wa, raw_lines(lines(b), false));
    lemma_wiki_links_well_formed(a);
    lemma_wiki_links_well_formed(b);
    lemma_dedup_of_distinct(wa);
    assert forall|i: int| 0 <= i < wb.len() implies link_ok(#[trigger] wb[i]) by {}
    lemma_add_links_dedup(wa, wb);
}

/// A text without a newline that is not empty is one line.
proof fn lemma_single_line(f: Seq<char>)
    requires
        f.len() > 0,
        !f.contains('\n'),
    ensures
        lines(f) == seq![f],
{
    lemma_find_from(f, seq!['\n'], 0);
    if find_from(f, seq!['\n'], 0) is Some {
        let j = find_from(f, seq!['\n'], 0)->0;
        assert(occurs_at(f, seq!['\n'], j));
        assert(f[j + 0] == seq!['\n'][0]);
        assert(0 <= j < f.len() && f[j] == '\n');
        assert(f.contains('\n'));
    }
    assert(f.subrange(0, f.len() as int) =~= f);
}

proof fn lemma_no_fence_lines_skipped(ls: Seq<Seq<char>>, acc: Seq<Seq<char>>)
    requires
        forall|i: int| 0 <= i < ls.len() ==> !is_fence(#[trigger] ls[i]),
    ensures
        links_of_lines(ls, true, acc) == acc,
        fence_open_after(ls, true),
{
    lemma_skip_fenced(ls, Seq::empty(), acc);
    lemma_fence_state_in_block(ls, Seq::empty());
    assert(ls + Seq::<Seq<char>>::empty() =~= ls);
}

/// Law: a fenced code block adds no links, and the text after it is read as
/// if the block were not there.  `open` and `close` are fence lines (after
/// leading whitespace they start with three backticks; an info string may
/// follow), `body` holds no fence line.
pub proof fn lemma_fenced_text(open: Seq<char>, body: Seq<char>, close: Seq<char>, rest: Seq<char>)
    requires
        is_fence(open),
        is_fence(close),
        !open.contains('\n'),
        !close.contains('\n'),
        forall|i: int| 0 <= i < lines(body).len() ==> !is_fence(#[trigger] lines(body)[i]),
    ensures
        wiki_links(open + seq!['\n'] + body + seq!['\n'] + close) == Seq::<Seq<char>>::empty(),
        wiki_links(open + seq!['\n'] + body + seq!['\n'] + close + seq!['\n'] + rest) == wiki_links(
            rest,
        ),
{
    let e = Seq::<Seq<char>>::empty();
    let nl = seq!['\n'];
    assert(trim_start(open).len() >= 3 && open.len() > 0) by {
        lemma_trim(open);
    }
    assert(close.len() > 0) by {
        lemma_trim(close);
    }
    lemma_single_line(open);
    lemma_single_line(close);
    let body_on = body + nl + close;
    let body_on_rest = body + nl + (close + nl + rest);
    assert(open + nl + body + nl + close =~= open + nl + body_on);
    assert(open + nl + body + nl + close + nl + rest =~= open + nl + body_on_rest);
    lemma_links_join_from(open, body_on, 0, false, e);
    lemma_links_join_from(open, body_on_rest, 0, false, e);
    assert(lines(open)[0] == open);
    assert(lines(open).drop_first() =~= Seq::<Seq<char>>::empty());
    assert(links_of_lines(Seq::<Seq<char>>::empty(), true, e) == e);
    assert(fence_open_after(Seq::<Seq<char>>::empty(), true) == true);
    assert(links_of_lines(Seq::<Seq<char>>::empty(), false, e) == e);
    assert(fence_open_after(Seq::<Seq<char>>::empty(), false) == false);
    assert(links_of_lines(lines(open), false, e) == e);
    assert(fence_open_after(lines(open), false) == true);
    lemma_links_join_from(body, close, 0, true, e);
    lemma_links_join_from(body, close + nl + rest, 0, true, e);
    lemma_no_fence_lines_skipped(lines(body), e);
    assert(lines(close)[0] == close);
    assert(lines(close).drop_first() =~= Seq::<Seq<char>>::empty());
    assert(links_of_lines(lines(close), true, e) == e);
    assert(fence_open_after(lines(close), true) == false);
    lemma_links_join_from(close, rest, 0, true, e);
}

} // verus!
