//! Character-level text primitives shared by the note-processing code.
//!
//! Text is modelled as `Seq<char>` (the view of `str` and `String`).  Positions
//! are character positions.  Whitespace is the Unicode `White_Space` property,
//! which is what `str::trim` and `char::is_whitespace` use.
use vstd::prelude::*;
use vstd::string::StringExecFns;

verus! {

broadcast use vstd::string::group_string_axioms;

/// `String::push` appends one character.
pub assume_specification[ String::push ](s: &mut String, ch: char)
    ensures
        final(s)@ == old(s)@.push(ch),
;

/// The characters of a string slice, in order.
pub fn chars_of(s: &str) -> (v: Vec<char>)
    ensures
        v@ == s@,
{
    let mut v: Vec<char> = Vec::new();
    for c in it: s.chars()
        invariant
            v@ == it.seq().take(it.index()),
            it.seq() == s@,
    {
        v.push(c);
    }
    v
}

/// A `String` holding exactly the given characters.
pub fn string_from_chars(v: &Vec<char>) -> (s: String)
    ensures
        s@ == v@,
{
    let mut s = String::new();
    for i in 0..v.len()
        invariant
            s@ == v@.take(i as int),
    {
        s.push(v[i]);
        assert(v@.take(i + 1) =~= v@.take(i as int).push(v@[i as int]));
    }
    assert(v@.take(v.len() as int) =~= v@);
    s
}

/// A copy of `v[lo..hi]`.
pub fn copy_range(v: &Vec<char>, lo: usize, hi: usize) -> (r: Vec<char>)
    requires
        lo <= hi <= v.len(),
    ensures
        r@ == v@.subrange(lo as int, hi as int),
{
    let mut r: Vec<char> = Vec::new();
    let mut i = lo;
    while i < hi
        invariant
            lo <= i <= hi <= v.len(),
            r@ == v@.subrange(lo as int, i as int),
        decreases hi - i,
    {
        r.push(v[i]);
        assert(v@.subrange(lo as int, i + 1) =~= v@.subrange(lo as int, i as int).push(v@[i as int]));
        i = i + 1;
    }
    r
}

/// Whether two character vectors hold the same characters.
pub fn same_chars(a: &Vec<char>, b: &Vec<char>) -> (r: bool)
    ensures
        r == (a@ == b@),
{
    if a.len() != b.len() {
        return false;
    }
    for i in 0..a.len()
        invariant
            a.len() == b.len(),
            forall|k: int| 0 <= k < i ==> a@[k] == b@[k],
    {
        if a[i] != b[i] {
            return false;
        }
    }
    assert(a@ =~= b@);
    true
}

/// Whether two string slices hold the same characters.
pub fn str_eq(a: &str, b: &str) -> (r: bool)
    ensures
        r == (a@ == b@),
{
    same_chars(&chars_of(a), &chars_of(b))
}

/// Whether `c` is a Unicode `White_Space` character.
pub open spec fn is_white_space(c: char) -> bool {
    let u = c as u32;
    ||| 0x09 <= u <= 0x0d
    ||| u == 0x20
    ||| u == 0x85
    ||| u == 0xa0
    ||| u == 0x1680
    ||| 0x2000 <= u <= 0x200a
    ||| u == 0x2028
    ||| u == 0x2029
    ||| u == 0x202f
    ||| u == 0x205f
    ||| u == 0x3000
}

/// Executable test for [`is_white_space`].
pub fn is_whitespace_char(c: char) -> (r: bool)
    ensures
        r == is_white_space(c),
{
    let u = c as u32;
    (0x09 <= u && u <= 0x0d) || u == 0x20 || u == 0x85 || u == 0xa0 || u == 0x1680 || (0x2000 <= u
        && u <= 0x200a) || u == 0x2028 || u == 0x2029 || u == 0x202f || u == 0x205f || u == 0x3000
}

/// `s` without its leading whitespace.
pub open spec fn trim_start(s: Seq<char>) -> Seq<char>
    decreases s.len(),
{
    if s.len() > 0 && is_white_space(s[0]) {
        trim_start(s.drop_first())
    } else {
        s
    }
}

/// `s` without its trailing whitespace.
pub open spec fn trim_end(s: Seq<char>) -> Seq<char>
    decreases s.len(),
{
    if s.len() > 0 && is_white_space(s.last()) {
        trim_end(s.drop_last())
    } else {
        s
    }
}

/// `s` without leading and trailing whitespace (what `str::trim` gives).
pub open spec fn trim(s: Seq<char>) -> Seq<char> {
    trim_end(trim_start(s))
}

/// Bounds of `trim_start(v[lo..hi])` inside `v`.
pub fn trim_start_bound(v: &Vec<char>, lo: usize, hi: usize) -> (a: usize)
    requires
        lo <= hi <= v.len(),
    ensures
        lo <= a <= hi,
        v@.subrange(a as int, hi as int) == trim_start(v@.subrange(lo as int, hi as int)),
{
    let mut a = lo;
    while a < hi && is_whitespace_char(v[a])
        invariant
            lo <= a <= hi <= v.len(),
            trim_start(v@.subrange(lo as int, hi as int)) == trim_start(
                v@.subrange(a as int, hi as int),
            ),
        decreases hi - a,
    {
        assert(v@.subrange(a as int, hi as int).drop_first() =~= v@.subrange(a + 1, hi as int));
        a = a + 1;
    }
    a
}

/// Bounds of `trim(v[lo..hi])` inside `v`.
pub fn trim_bounds(v: &Vec<char>, lo: usize, hi: usize) -> (r: (usize, usize))
    requires
        lo <= hi <= v.len(),
    ensures
        lo <= r.0 <= r.1 <= hi,
        v@.subrange(r.0 as int, r.1 as int) == trim(v@.subrange(lo as int, hi as int)),
{
    let a = trim_start_bound(v, lo, hi);
    let mut b = hi;
    while b > a && is_whitespace_char(v[b - 1])
        invariant
            lo <= a <= b <= hi <= v.len(),
            trim_end(v@.subrange(a as int, hi as int)) == trim_end(v@.subrange(a as int, b as int)),
        decreases b - a,
    {
        assert(v@.subrange(a as int, b as int).drop_last() =~= v@.subrange(a as int, b - 1));
        b = b - 1;
    }
    (a, b)
}

/// Whether `pat` occurs in `s` at position `i`.
pub open spec fn occurs_at(s: Seq<char>, pat: Seq<char>, i: int) -> bool {
    &&& 0 <= i
    &&& i + pat.len() <= s.len()
    &&& forall|k: int| 0 <= k < pat.len() ==> s[i + k] == pat[k]
}

/// The first position at or after `i` where the non-empty `pat` occurs in `s`
/// (what `str::find` gives on the suffix of `s` that starts at `i`).
pub open spec fn find_from(s: Seq<char>, pat: Seq<char>, i: int) -> Option<int>
    decreases s.len() - i,
{
    if i < 0 || pat.len() == 0 || i + pat.len() > s.len() {
        None
    } else if occurs_at(s, pat, i) {
        Some(i)
    } else {
        find_from(s, pat, i + 1)
    }
}

/// A result of `find_from` lies where the search may look, and is the first match.
pub proof fn lemma_find_from(s: Seq<char>, pat: Seq<char>, i: int)
    ensures
        find_from(s, pat, i) matches Some(j) ==> {
            &&& i <= j
            &&& j + pat.len() <= s.len()
            &&& occurs_at(s, pat, j)
            &&& forall|k: int| i <= k < j ==> !occurs_at(s, pat, k)
        },
        find_from(s, pat, i) is None && 0 <= i && pat.len() > 0 ==> forall|k: int|
            i <= k ==> !#[trigger] occurs_at(s, pat, k),
    decreases s.len() - i,
{
    if i < 0 || pat.len() == 0 || i + pat.len() > s.len() {
    } else if occurs_at(s, pat, i) {
    } else {
        lemma_find_from(s, pat, i + 1);
    }
}

/// Searching a text that goes on past `a` finds what searching `a` finds.
pub proof fn lemma_find_from_extend(a: Seq<char>, b: Seq<char>, pat: Seq<char>, i: int)
    requires
        0 <= i,
    ensures
        find_from(a, pat, i) matches Some(n) ==> find_from(a + b, pat, i) == Some(n),
    decreases a.len() - i,
{
    if i < 0 || pat.len() == 0 || i + pat.len() > a.len() {
    } else {
        assert(occurs_at(a, pat, i) == occurs_at(a + b, pat, i));
        if !occurs_at(a, pat, i) {
            lemma_find_from_extend(a, b, pat, i + 1);
        }
    }
}

/// Searching a suffix of a text finds the same positions, shifted.
pub proof fn lemma_find_from_shift(s: Seq<char>, p: int, pat: Seq<char>, i: int)
    requires
        0 <= p <= i,
        p <= s.len(),
    ensures
        find_from(s, pat, i) == match find_from(s.subrange(p, s.len() as int), pat, i - p) {
            Some(n) => Some(n + p),
            None => None,
        },
    decreases s.len() - i,
{
    let t = s.subrange(p, s.len() as int);
    if i < 0 || pat.len() == 0 || i + pat.len() > s.len() {
    } else {
        assert(occurs_at(s, pat, i) == occurs_at(t, pat, i - p));
        if !occurs_at(s, pat, i) {
            lemma_find_from_shift(s, p, pat, i + 1);
        }
    }
}

/// Executable [`find_from`] for the two-character pattern `[p0, p1]`.
pub fn find_pair(v: &Vec<char>, p0: char, p1: char, from: usize) -> (r: Option<usize>)
    requires
        from <= v.len(),
    ensures
        r matches Some(j) ==> find_from(v@, seq![p0, p1], from as int) == Some(j as int),
        r is None ==> find_from(v@, seq![p0, p1], from as int) is None,
{
    let ghost pat = seq![p0, p1];
    let mut i = from;
    assert(pat.len() == 2 && pat[0] == p0 && pat[1] == p1);
    while v.len() - i >= 2
        invariant
            from <= i <= v.len(),
            pat == seq![p0, p1],
            pat.len() == 2 && pat[0] == p0 && pat[1] == p1,
            find_from(v@, pat, from as int) == find_from(v@, pat, i as int),
        decreases v.len() - i,
    {
        if v[i] == p0 && v[i + 1] == p1 {
            assert(occurs_at(v@, pat, i as int));
            return Some(i);
        }
        assert(!occurs_at(v@, pat, i as int));
        i = i + 1;
    }
    None
}

/// Executable [`find_from`] for the one-character pattern `[p]`.
pub fn find_char(v: &Vec<char>, p: char, from: usize) -> (r: Option<usize>)
    requires
        from <= v.len(),
    ensures
        r matches Some(j) ==> find_from(v@, seq![p], from as int) == Some(j as int),
        r is None ==> find_from(v@, seq![p], from as int) is None,
{
    let ghost pat = seq![p];
    assert(pat.len() == 1 && pat[0] == p);
    let mut i = from;
    while i < v.len()
        invariant
            from <= i <= v.len(),
            pat == seq![p],
            pat.len() == 1 && pat[0] == p,
            find_from(v@, pat, from as int) == find_from(v@, pat, i as int),
        decreases v.len() - i,
    {
        if v[i] == p {
            assert(occurs_at(v@, pat, i as int));
            return Some(i);
        }
        assert(!occurs_at(v@, pat, i as int));
        i = i + 1;
    }
    None
}

/// `line` without the carriage return that preceded its line feed.
pub open spec fn strip_cr(line: Seq<char>) -> Seq<char> {
    if line.len() > 0 && line.last() == '\r' {
        line.drop_last()
    } else {
        line
    }
}

/// The lines of `t` from position `pos` on, as `str::lines` gives them: split
/// at each line feed, a carriage return right before a line feed dropped, and
/// no empty last line after a final line feed.
pub open spec fn lines_from(t: Seq<char>, pos: int) -> Seq<Seq<char>>
    decreases t.len() - pos,
{
    if pos < 0 || pos >= t.len() {
        Seq::empty()
    } else {
        match find_from(t, seq!['\n'], pos) {
            None => seq![t.subrange(pos, t.len() as int)],
            Some(nl) => {
                proof {
                    lemma_find_from(t, seq!['\n'], pos);
                }
                seq![strip_cr(t.subrange(pos, nl))] + lines_from(t, nl + 1)
            },
        }
    }
}

/// The lines of `t` (what `str::lines` gives).
pub open spec fn lines(t: Seq<char>) -> Seq<Seq<char>> {
    lines_from(t, 0)
}

/// The lines from position `pos` on depend only on the text from `p <= pos`
/// on.
pub proof fn lemma_lines_from_shift(s: Seq<char>, p: int, pos: int)
    requires
        0 <= p <= pos <= s.len(),
    ensures
        lines_from(s, pos) == lines_from(s.subrange(p, s.len() as int), pos - p),
    decreases s.len() - pos,
{
    let t = s.subrange(p, s.len() as int);
    let nlp = seq!['\n'];
    if pos < s.len() {
        lemma_find_from(s, nlp, pos);
        lemma_find_from_shift(s, p, nlp, pos);
        match find_from(s, nlp, pos) {
            None => {
                assert(t.subrange(pos - p, t.len() as int) =~= s.subrange(pos, s.len() as int));
            },
            Some(nl) => {
                lemma_find_from(t, nlp, pos - p);
                assert(t.subrange(pos - p, nl - p) =~= s.subrange(pos, nl));
                lemma_lines_from_shift(s, p, nl + 1);
            },
        }
    }
}

/// The line that starts at `pos`, and where the next one starts.
pub fn next_line(t: &Vec<char>, pos: usize) -> (r: (Vec<char>, usize))
    requires
        pos < t.len(),
    ensures
        pos < r.1 <= t.len(),
        lines_from(t@, pos as int) == seq![r.0@] + lines_from(t@, r.1 as int),
{
    proof {
        lemma_find_from(t@, seq!['\n'], pos as int);
    }
    match find_char(t, '\n', pos) {
        None => {
            let line = copy_range(t, pos, t.len());
            assert(lines_from(t@, t.len() as int) =~= Seq::<Seq<char>>::empty());
            assert(lines_from(t@, pos as int) =~= seq![line@] + lines_from(t@, t.len() as int));
            (line, t.len())
        },
        Some(nl) => {
            let mut end = nl;
            if end > pos && t[end - 1] == '\r' {
                end = end - 1;
            }
            let line = copy_range(t, pos, end);
            assert(line@ =~= strip_cr(t@.subrange(pos as int, nl as int)));
            (line, nl + 1)
        },
    }
}

/// `trim_start(s)` is a suffix of `s` that does not start with whitespace.
pub proof fn lemma_trim_start(s: Seq<char>)
    ensures
        trim_start(s).len() <= s.len(),
        trim_start(s) == s.subrange(s.len() - trim_start(s).len(), s.len() as int),
        trim_start(s).len() > 0 ==> !is_white_space(trim_start(s)[0]),
    decreases s.len(),
{
    if s.len() > 0 && is_white_space(s[0]) {
        lemma_trim_start(s.drop_first());
        let t = trim_start(s.drop_first());
        assert(s.drop_first().subrange(s.len() - 1 - t.len(), s.len() - 1) =~= s.subrange(
            s.len() - t.len(),
            s.len() as int,
        ));
    } else {
        assert(s.subrange(0, s.len() as int) =~= s);
    }
}

/// `trim_end(s)` is a prefix of `s` that does not end with whitespace.
pub proof fn lemma_trim_end(s: Seq<char>)
    ensures
        trim_end(s).len() <= s.len(),
        trim_end(s) == s.subrange(0, trim_end(s).len() as int),
        trim_end(s).len() > 0 ==> !is_white_space(trim_end(s).last()),
    decreases s.len(),
{
    if s.len() > 0 && is_white_space(s.last()) {
        lemma_trim_end(s.drop_last());
        let t = trim_end(s.drop_last());
        assert(s.drop_last().subrange(0, t.len() as int) =~= s.subrange(0, t.len() as int));
    } else {
        assert(s.subrange(0, s.len() as int) =~= s);
    }
}

/// A trimmed text neither starts nor ends with whitespace, and is a piece of
/// the text it came from.
pub proof fn lemma_trim(s: Seq<char>)
    ensures
        trim(s).len() <= s.len(),
        trim(s).len() > 0 ==> !is_white_space(trim(s)[0]) && !is_white_space(trim(s).last()),
{
    lemma_trim_start(s);
    lemma_trim_end(trim_start(s));
    let a = trim_start(s);
    let t = trim(s);
    if t.len() > 0 {
        assert(t[0] == a.subrange(0, t.len() as int)[0]);
    }
}

/// The texts `items` joined with `sep` between neighbours (what
/// `[String]::join` gives).
pub open spec fn join(items: Seq<Seq<char>>, sep: Seq<char>) -> Seq<char>
    decreases items.len(),
{
    if items.len() == 0 {
        Seq::empty()
    } else if items.len() == 1 {
        items[0]
    } else {
        join(items.drop_last(), sep) + sep + items.last()
    }
}

/// Executable [`join`].
pub fn join_strings(items: &Vec<String>, sep: &str) -> (r: String)
    ensures
        r@ == join(items.deep_view(), sep@),
{
    let ghost dv = items.deep_view();
    let mut r = String::new();
    for i in 0..items.len()
        invariant
            dv == items.deep_view(),
            dv.len() == items.len(),
            r@ == join(dv.take(i as int), sep@),
    {
        assert(dv.take(i + 1).drop_last() =~= dv.take(i as int));
        assert(dv[i as int] == items@[i as int]@);
        if i > 0 {
            r.append(sep);
        }
        r.append(items[i].as_str());
    }
    assert(dv.take(items.len() as int) =~= dv);
    r
}

/// The decimal digit for `d` (which is below ten).
pub open spec fn digit(d: nat) -> char {
    if d == 0 { '0' }
    else if d == 1 { '1' }
    else if d == 2 { '2' }
    else if d == 3 { '3' }
    else if d == 4 { '4' }
    else if d == 5 { '5' }
    else if d == 6 { '6' }
    else if d == 7 { '7' }
    else if d == 8 { '8' }
    else { '9' }
}

/// The decimal notation of `n`, without leading zeros (what `to_string`
/// gives for an unsigned integer).
pub open spec fn decimal(n: nat) -> Seq<char>
    decreases n,
{
    if n < 10 {
        seq![digit(n)]
    } else {
        decimal(n / 10).push(digit(n % 10))
    }
}

fn digit_char(d: u64) -> (c: char)
    requires
        d < 10,
    ensures
        c == digit(d as nat),
{
    if d == 0 { '0' }
    else if d == 1 { '1' }
    else if d == 2 { '2' }
    else if d == 3 { '3' }
    else if d == 4 { '4' }
    else if d == 5 { '5' }
    else if d == 6 { '6' }
    else if d == 7 { '7' }
    else if d == 8 { '8' }
    else { '9' }
}

/// Appends the decimal notation of `n` to `s`.
pub fn push_decimal(s: &mut String, n: u64)
    ensures
        final(s)@ == old(s)@ + decimal(n as nat),
    decreases n,
{
    if n < 10 {
        s.push(digit_char(n));
    } else {
        push_decimal(s, n / 10);
        s.push(digit_char(n % 10));
    }
}

} // verus!
