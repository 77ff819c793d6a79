//! Quoting of user text inside the SQL filters that select index rows.
//!
//! Note paths and vault paths end up inside single-quoted SQL string
//! literals (`vault = '...' AND path = '...'`).  [`esc`] doubles every single
//! quote, so the text can never close the literal early.
use vstd::prelude::*;
use vstd::string::StringExecFns;
use crate::text::chars_of;

verus! {

/// The escaped form of one character: a quote is doubled.
pub open spec fn escape_char(c: char) -> Seq<char> {
    if c == '\'' {
        seq!['\'', '\'']
    } else {
        seq![c]
    }
}

/// `s` with every single quote doubled.
pub open spec fn escape_sql(s: Seq<char>) -> Seq<char>
    decreases s.len(),
{
    if s.len() == 0 {
        Seq::empty()
    } else {
        escape_char(s[0]) + escape_sql(s.drop_first())
    }
}

/// Reads a single-quoted SQL literal whose opening quote is already read:
/// a doubled quote stands for one quote, a lone quote closes the literal.
/// Gives the literal's value and the text after the closing quote, or `None`
/// when the literal is never closed.
pub open spec fn read_literal(t: Seq<char>) -> Option<(Seq<char>, Seq<char>)>
    decreases t.len(),
{
    if t.len() == 0 {
        None
    } else if t[0] == '\'' {
        if t.len() >= 2 && t[1] == '\'' {
            match read_literal(t.subrange(2, t.len() as int)) {
                Some((v, rest)) => Some((seq!['\''] + v, rest)),
                None => None,
            }
        } else {
            Some((Seq::empty(), t.drop_first()))
        }
    } else {
        match read_literal(t.drop_first()) {
            Some((v, rest)) => Some((seq![t[0]] + v, rest)),
            None => None,
        }
    }
}

/// Escaping distributes over concatenation.
pub proof fn lemma_escape_concat(a: Seq<char>, b: Seq<char>)
    ensures
        escape_sql(a + b) == escape_sql(a) + escape_sql(b),
    decreases a.len(),
{
    if a.len() == 0 {
        assert(a + b =~= b);
    } else {
        assert((a + b).drop_first() =~= a.drop_first() + b);
        lemma_escape_concat(a.drop_first(), b);
        assert(escape_sql(a + b) =~= escape_char(a[0]) + (escape_sql(a.drop_first()) + escape_sql(
            b,
        )));
    }
}

/// Law: a literal made of escaped text and a closing quote is read back as
/// exactly that text, and reading goes on right after the closing quote.  No
/// text can end the literal early, so what is placed in a filter stays data.
/// (The text after the closing quote must not begin with a quote, which
/// would make the closing quote half of a doubled one; in every filter here
/// a space or nothing follows.)
pub proof fn lemma_escape_round_trip(s: Seq<char>, after: Seq<char>)
    requires
        !(after.len() > 0 && after[0] == '\''),
    ensures
        read_literal(escape_sql(s) + seq!['\''] + after) == Some((s, after)),
    decreases s.len(),
{
    let q = seq!['\''];
    let t = escape_sql(s) + q + after;
    if s.len() == 0 {
        assert(escape_sql(s) =~= Seq::<char>::empty());
        assert(t =~= q + after);
        assert(t.drop_first() =~= after);
    } else {
        lemma_escape_round_trip(s.drop_first(), after);
        let rest = escape_sql(s.drop_first()) + q + after;
        if s[0] == '\'' {
            assert(t =~= seq!['\'', '\''] + rest);
            assert(t.subrange(2, t.len() as int) =~= rest);
            assert(seq!['\''] + s.drop_first() =~= s);
        } else {
            assert(t =~= seq![s[0]] + rest);
            assert(t.drop_first() =~= rest);
            assert(seq![s[0]] + s.drop_first() =~= s);
        }
    }
}

/// `t` with every doubled quote `''` read as one quote, left to right (what
/// `t.replace("''", "'")` gives).
pub open spec fn undouble_quotes(t: Seq<char>) -> Seq<char>
    decreases t.len(),
{
    if t.len() == 0 {
        Seq::empty()
    } else if t.len() >= 2 && t[0] == '\'' && t[1] == '\'' {
        seq!['\''] + undouble_quotes(t.subrange(2, t.len() as int))
    } else {
        seq![t[0]] + undouble_quotes(t.drop_first())
    }
}

proof fn lemma_escape_len(s: Seq<char>)
    ensures
        escape_sql(s).len() >= s.len(),
        s.contains('\'') ==> escape_sql(s).len() > s.len(),
        !s.contains('\'') ==> escape_sql(s) == s,
    decreases s.len(),
{
    if s.len() > 0 {
        lemma_escape_len(s.drop_first());
        if s.drop_first().contains('\'') {
            let j = choose|j: int| 0 <= j < s.drop_first().len() && s.drop_first()[j] == '\'';
            assert(s[j + 1] == '\'');
        }
        if s[0] != '\'' && s.contains('\'') {
            let j = choose|j: int| 0 <= j < s.len() && s[j] == '\'';
            assert(s.drop_first()[j - 1] == '\'');
        }
        if !s.contains('\'') {
            assert(s[0] != '\'');
            assert forall|j: int| 0 <= j < s.drop_first().len() implies s.drop_first()[j] != '\'' by {
                assert(s.drop_first()[j] == s[j + 1]);
            }
            assert(seq![s[0]] + s.drop_first() =~= s);
        }
    }
}

/// Law: reading every doubled quote of the escaped text as one quote gives
/// back the text, and escaping changes a text exactly when it holds a quote.
pub proof fn lemma_escape_undouble(s: Seq<char>)
    ensures
        undouble_quotes(escape_sql(s)) == s,
        (escape_sql(s) == s) == !s.contains('\''),
    decreases s.len(),
{
    lemma_escape_len(s);
    if s.len() > 0 {
        lemma_escape_undouble(s.drop_first());
        let t = escape_sql(s);
        let rest = escape_sql(s.drop_first());
        if s[0] == '\'' {
            assert(t =~= seq!['\'', '\''] + rest);
            assert(t.subrange(2, t.len() as int) =~= rest);
            assert(seq!['\''] + s.drop_first() =~= s);
        } else {
            assert(t =~= seq![s[0]] + rest);
            assert(t.drop_first() =~= rest);
            assert(seq![s[0]] + s.drop_first() =~= s);
        }
    }
}

/// Doubles single quotes, so that `s` can sit inside a single-quoted SQL
/// string literal.
pub fn esc(s: &str) -> (r: String)
    ensures
        r@ == escape_sql(s@),
{
    let v = chars_of(s);
    let mut r = String::new();
    for i in 0..v.len()
        invariant
            v@ == s@,
            r@ == escape_sql(v@.take(i as int)),
    {
        let c = v[i];
        proof {
            lemma_escape_concat(v@.take(i as int), seq![c]);
            assert(v@.take(i + 1) =~= v@.take(i as int) + seq![c]);
            assert(seq![c].drop_first() =~= Seq::<char>::empty());
            assert(escape_sql(Seq::<char>::empty()) =~= Seq::<char>::empty());
            assert(escape_sql(seq![c]) =~= escape_char(c));
        }
        if c == '\'' {
            r.push('\'');
            r.push('\'');
        } else {
            r.push(c);
        }
        assert(r@ =~= escape_sql(v@.take(i + 1)));
    }
    assert(v@.take(v.len() as int) =~= v@);
    r
}

/// The filter that selects the rows of one vault:
/// `vault = '<dir>'`, with `dir` escaped.
pub fn vault_filter(dir: &str) -> (r: String)
    ensures
        r@ == "vault = '"@ + escape_sql(dir@) + "'"@,
{
    let mut r = String::new();
    r.append("vault = '");
    let d = esc(dir);
    r.append(d.as_str());
    r.append("'");
    r
}

/// The filter that selects the rows of one note of one vault:
/// `vault = '<dir>' AND path = '<path>'`, both escaped.
pub fn note_rows_filter(dir: &str, path: &str) -> (r: String)
    ensures
        r@ == "vault = '"@ + escape_sql(dir@) + "' AND path = '"@ + escape_sql(path@) + "'"@,
{
    let mut r = String::new();
    r.append("vault = '");
    let d = esc(dir);
    r.append(d.as_str());
    r.append("' AND path = '");
    let p = esc(path);
    r.append(p.as_str());
    r.append("'");
    r
}

/// The filter that selects the rows of one vault except those of one note:
/// `vault = '<dir>' AND path <> '<path>'`, both escaped.
pub fn other_notes_filter(dir: &str, path: &str) -> (r: String)
    ensures
        r@ == "vault = '"@ + escape_sql(dir@) + "' AND path <> '"@ + escape_sql(path@) + "'"@,
{
    let mut r = String::new();
    r.append("vault = '");
    let d = esc(dir);
    r.append(d.as_str());
    r.append("' AND path <> '");
    let p = esc(path);
    r.append(p.as_str());
    r.append("'");
    r
}

} // verus!
