//! The notes of a vault: which files count as notes, how they are listed,
//! which paths the backend may touch, and how a new note is named.
use vstd::prelude::*;
use vstd::string::StringExecFns;
use crate::text::{chars_of, copy_range, join, join_strings, occurs_at, string_from_chars, trim, trim_bounds};

verus! {

/// A note file of the vault.
pub struct FileEntry {
    /// Absolute path (the stable key of the note).
    pub path: String,
    /// File name, e.g. `ideas.md`.
    pub name: String,
    /// Vault-relative path with `/` separators, e.g. `notes/ideas.md`.
    pub rel: String,
}

/// Whether a file or directory name is hidden (starts with a dot); hidden
/// entries and everything below them are left out of the vault.
pub open spec fn hidden_name(name: Seq<char>) -> bool {
    name.len() > 0 && name[0] == '.'
}

/// Executable [`hidden_name`].
pub fn is_hidden(name: &str) -> (r: bool)
    ensures
        r == hidden_name(name@),
{
    let v = chars_of(name);
    v.len() > 0 && v[0] == '.'
}

/// Whether a file extension is `md` in any ASCII case.
pub open spec fn markdown_extension(ext: Seq<char>) -> bool {
    &&& ext.len() == 2
    &&& (ext[0] == 'm' || ext[0] == 'M')
    &&& (ext[1] == 'd' || ext[1] == 'D')
}

/// Whether a file with this extension (if any) is a note.
pub fn is_markdown(ext: Option<&str>) -> (r: bool)
    ensures
        r == (ext matches Some(e) && markdown_extension(e@)),
{
    match ext {
        None => false,
        Some(e) => {
            let v = chars_of(e);
            v.len() == 2 && (v[0] == 'm' || v[0] == 'M') && (v[1] == 'd' || v[1] == 'D')
        },
    }
}

/// `s` with every backslash turned into a slash.
pub open spec fn slashes(s: Seq<char>) -> Seq<char> {
    Seq::new(s.len(), |i: int| if s[i] == '\\' { '/' } else { s[i] })
}

/// A relative path written with `/` separators.
pub fn normalize_rel(rel: &str) -> (r: String)
    ensures
        r@ == slashes(rel@),
{
    let v = chars_of(rel);
    let mut out: Vec<char> = Vec::new();
    for i in 0..v.len()
        invariant
            out@ == slashes(v@.take(i as int)),
    {
        out.push(if v[i] == '\\' { '/' } else { v[i] });
        assert(out@ =~= slashes(v@.take(i + 1)));
    }
    assert(v@.take(v.len() as int) =~= v@);
    string_from_chars(&out)
}

/// Name for what `str::to_lowercase` gives (the Unicode lowercase mapping).
pub uninterp spec fn lowercase(s: Seq<char>) -> Seq<char>;

/// The ASCII lowercase form of `s`: `A`..`Z` become `a`..`z`, every other
/// character stays.
pub open spec fn ascii_lowercase(s: Seq<char>) -> Seq<char> {
    Seq::new(
        s.len(),
        |i: int| if 'A' <= s[i] <= 'Z' { ((s[i] as u32) + 32) as char } else { s[i] },
    )
}

/// Whether every character of `s` is ASCII.
pub open spec fn all_ascii(s: Seq<char>) -> bool {
    forall|i: int| 0 <= i < s.len() ==> (s[i] as u32) < 0x80
}

/// `str::to_lowercase`: the Unicode lowercase form of `s`.  The mapping is
/// named; for ASCII text the contract states it (`A`..`Z` to `a`..`z`, as
/// the documentation of `char::to_lowercase` gives for ASCII letters).
#[verifier::external_body]
fn to_lower(s: &str) -> (r: String)
    ensures
        r@ == lowercase(s@),
        all_ascii(s@) ==> r@ == ascii_lowercase(s@),
{
    s.to_lowercase()
}

/// Whether `a` comes before `b` or equals it in the lexicographic order of
/// code points (the order of `String`s, since UTF-8 keeps it).
pub open spec fn lex_le(a: Seq<char>, b: Seq<char>) -> bool
    decreases a.len(),
{
    if a.len() == 0 {
        true
    } else if b.len() == 0 {
        false
    } else if (a[0] as u32) < (b[0] as u32) {
        true
    } else if (a[0] as u32) > (b[0] as u32) {
        false
    } else {
        lex_le(a.drop_first(), b.drop_first())
    }
}

/// Executable [`lex_le`].
fn lex_le_exec(a: &Vec<char>, b: &Vec<char>) -> (r: bool)
    ensures
        r == lex_le(a@, b@),
{
    let mut i: usize = 0;
    assert(a@.skip(0) =~= a@);
    assert(b@.skip(0) =~= b@);
    while i < a.len()
        invariant
            i <= a.len(),
            i <= b.len(),
            lex_le(a@, b@) == lex_le(a@.skip(i as int), b@.skip(i as int)),
        decreases a.len() - i,
    {
        assert(a@.skip(i as int)[0] == a@[i as int]);
        if i >= b.len() {
            return false;
        }
        assert(b@.skip(i as int)[0] == b@[i as int]);
        let x = a[i] as u32;
        let y = b[i] as u32;
        if x < y {
            return true;
        }
        if x > y {
            return false;
        }
        assert(a@.skip(i as int).drop_first() =~= a@.skip(i + 1));
        assert(b@.skip(i as int).drop_first() =~= b@.skip(i + 1));
        i = i + 1;
    }
    assert(a@.skip(i as int) =~= Seq::<char>::empty());
    true
}

/// Where an entry with sort key `key` goes in a list sorted by key: after
/// every entry whose key is not greater.
pub open spec fn key_position(keys: Seq<Seq<char>>, key: Seq<char>, i: int) -> int
    decreases keys.len() - i,
{
    if i < 0 || i >= keys.len() || !lex_le(keys[i], key) {
        i
    } else {
        key_position(keys, key, i + 1)
    }
}

/// The positions `0..n` ordered by their keys, ties kept in order (a stable
/// sort): each position is put after the earlier ones whose key is not greater.
pub open spec fn sorted_positions(keys: Seq<Seq<char>>, n: int) -> Seq<int>
    decreases n,
{
    if n <= 0 {
        Seq::empty()
    } else {
        let prev = sorted_positions(keys, n - 1);
        let ks = Seq::new(prev.len(), |j: int| keys[prev[j]]);
        prev.insert(key_position(ks, keys[n - 1], 0), n - 1)
    }
}

/// The entries in the order of their keys (`keys[i]` is the key of entry
/// `i`), ties kept in order.
pub open spec fn sorted_by_keys(entries: Seq<FileEntry>, keys: Seq<Seq<char>>) -> Seq<FileEntry> {
    let order = sorted_positions(keys, entries.len() as int);
    Seq::new(order.len(), |j: int| entries[order[j]])
}

/// The sort keys of the note list: the lowercased relative paths.
pub open spec fn lower_rels(entries: Seq<FileEntry>) -> Seq<Seq<char>> {
    Seq::new(entries.len(), |i: int| lowercase(entries[i].rel@))
}

/// The entries sorted by lowercased relative path, ties kept in order (what
/// `sort_by` with a comparison of `rel.to_lowercase()` gives).
pub open spec fn sort_by_lower_rel(entries: Seq<FileEntry>) -> Seq<FileEntry> {
    sorted_by_keys(entries, lower_rels(entries))
}

/// A copy of an entry.
pub fn copy_entry(e: &FileEntry) -> (r: FileEntry)
    ensures
        r == *e,
{
    FileEntry { path: e.path.clone(), name: e.name.clone(), rel: e.rel.clone() }
}

/// Sorts entries by the given keys (`keys[i]` belongs to `entries[i]`) in
/// code-point order, keeping the order of entries with equal keys.
pub fn sort_by_keys(entries: &Vec<FileEntry>, keys: &Vec<String>) -> (r: Vec<FileEntry>)
    requires
        keys.len() == entries.len(),
    ensures
        r@ == sorted_by_keys(entries@, keys.deep_view()),
{
    let ghost kv = keys.deep_view();
    let mut key_vecs: Vec<Vec<char>> = Vec::new();
    for i in 0..entries.len()
        invariant
            kv == keys.deep_view(),
            keys.len() == entries.len(),
            key_vecs.len() == i,
            forall|j: int| 0 <= j < i ==> #[trigger] key_vecs@[j]@ == kv[j],
    {
        key_vecs.push(chars_of(keys[i].as_str()));
    }
    let mut order: Vec<usize> = Vec::new();
    for i in 0..entries.len()
        invariant
            kv == keys.deep_view(),
            key_vecs.len() == entries.len(),
            forall|j: int| 0 <= j < entries.len() ==> #[trigger] key_vecs@[j]@ == kv[j],
            order@.len() == sorted_positions(kv, i as int).len(),
            forall|j: int|
                0 <= j < order@.len() ==> #[trigger] order@[j] as int == sorted_positions(
                    kv,
                    i as int,
                )[j] && order@[j] < i,
    {
        let ghost prev = sorted_positions(kv, i as int);
        let ghost ks = Seq::new(prev.len(), |j: int| kv[prev[j]]);
        let mut p: usize = 0;
        while p < order.len() && lex_le_exec(&key_vecs[order[p]], &key_vecs[i])
            invariant
                p <= order.len(),
                kv == keys.deep_view(),
                prev == sorted_positions(kv, i as int),
                ks == Seq::new(prev.len(), |j: int| kv[prev[j]]),
                key_vecs.len() == entries.len(),
                forall|j: int| 0 <= j < entries.len() ==> #[trigger] key_vecs@[j]@ == kv[j],
                order@.len() == prev.len(),
                forall|j: int| 0 <= j < order@.len() ==> #[trigger] order@[j] as int == prev[j] && order@[j] < i,
                i < entries.len(),
                key_position(ks, kv[i as int], 0) == key_position(ks, kv[i as int], p as int),
            decreases order.len() - p,
        {
            assert(ks[p as int] == key_vecs@[order@[p as int] as int]@);
            p = p + 1;
        }
        proof {
            if p < order.len() {
                assert(ks[p as int] == key_vecs@[order@[p as int] as int]@);
            }
        }
        let ghost old_order = order@;
        order.insert(p, i);
        proof {
            let np = sorted_positions(kv, i + 1);
            assert(np == prev.insert(key_position(ks, kv[i as int], 0), i as int));
            assert forall|j: int| 0 <= j < order@.len() implies #[trigger] order@[j] as int == np[j]
                && order@[j] < i + 1 by {
                if j < p {
                    assert(order@[j] == old_order[j]);
                } else if j > p {
                    assert(order@[j] == old_order[j - 1]);
                }
            }
        }
    }
    let mut out: Vec<FileEntry> = Vec::new();
    for j in 0..order.len()
        invariant
            order@.len() == sorted_positions(kv, entries.len() as int).len(),
            forall|k: int|
                0 <= k < order@.len() ==> #[trigger] order@[k] as int == sorted_positions(
                    kv,
                    entries.len() as int,
                )[k] && order@[k] < entries.len(),
            out.len() == j,
            forall|k: int| 0 <= k < j ==> out@[k] == entries@[order@[k] as int],
    {
        out.push(copy_entry(&entries[order[j]]));
    }
    assert(out@ =~= sorted_by_keys(entries@, kv));
    out
}

/// Sorts note entries by their lowercased relative path, as the note list is
/// shown.
pub fn sort_entries(entries: &Vec<FileEntry>) -> (r: Vec<FileEntry>)
    ensures
        r@ == sort_by_lower_rel(entries@),
{
    let mut keys: Vec<String> = Vec::new();
    for i in 0..entries.len()
        invariant
            keys.len() == i,
            forall|j: int| 0 <= j < i ==> #[trigger] keys@[j]@ == lower_rels(entries@)[j],
    {
        keys.push(to_lower(entries[i].rel.as_str()));
    }
    assert(keys.deep_view() =~= lower_rels(entries@));
    sort_by_keys(entries, &keys)
}

/// The code-point order is transitive.
pub proof fn lemma_lex_le_transitive(a: Seq<char>, b: Seq<char>, c: Seq<char>)
    requires
        lex_le(a, b),
        lex_le(b, c),
    ensures
        lex_le(a, c),
    decreases a.len(),
{
    if a.len() > 0 && b.len() > 0 && c.len() > 0 && (a[0] as u32) == (b[0] as u32) && (b[0] as u32)
        == (c[0] as u32) {
        lemma_lex_le_transitive(a.drop_first(), b.drop_first(), c.drop_first());
    }
}

/// The code-point order is total.
pub proof fn lemma_lex_le_total(a: Seq<char>, b: Seq<char>)
    ensures
        lex_le(a, b) || lex_le(b, a),
    decreases a.len(),
{
    if a.len() > 0 && b.len() > 0 && (a[0] as u32) == (b[0] as u32) {
        lemma_lex_le_total(a.drop_first(), b.drop_first());
    }
}

proof fn lemma_key_position(ks: Seq<Seq<char>>, key: Seq<char>, i: int)
    requires
        0 <= i <= ks.len(),
    ensures
        i <= key_position(ks, key, i) <= ks.len(),
        forall|j: int| i <= j < key_position(ks, key, i) ==> lex_le(ks[j], key),
        key_position(ks, key, i) < ks.len() ==> !lex_le(ks[key_position(ks, key, i)], key),
    decreases ks.len() - i,
{
    if i < ks.len() && lex_le(ks[i], key) {
        lemma_key_position(ks, key, i + 1);
    }
}

/// The positions are a rearrangement of `0..n` along which the keys never
/// go down.
pub open spec fn sorted_rearrangement(keys: Seq<Seq<char>>, order: Seq<int>, n: int) -> bool {
    &&& order.len() == n
    &&& order.no_duplicates()
    &&& forall|j: int| 0 <= j < n ==> 0 <= #[trigger] order[j] < n
    &&& forall|j: int, k: int| 0 <= j < k < n ==> lex_le(keys[order[j]], keys[order[k]])
}

proof fn lemma_sorted_positions(keys: Seq<Seq<char>>, n: int)
    requires
        0 <= n <= keys.len(),
    ensures
        sorted_rearrangement(keys, sorted_positions(keys, n), n),
    decreases n,
{
    if n > 0 {
        lemma_sorted_positions(keys, n - 1);
        let prev = sorted_positions(keys, n - 1);
        let ks = Seq::new(prev.len(), |j: int| keys[prev[j]]);
        let key = keys[n - 1];
        lemma_key_position(ks, key, 0);
        let p = key_position(ks, key, 0);
        let r = prev.insert(p, n - 1);
        prev.insert_ensures(p, n - 1);
        if p < ks.len() {
            lemma_lex_le_total(ks[p], key);
        }
        assert forall|j: int, k: int| 0 <= j < k < n implies lex_le(keys[r[j]], keys[r[k]]) by {
            if k < p {
            } else if k == p {
                assert(ks[j] == keys[r[j]]);
            } else if j < p {
                assert(r[k] == prev[k - 1]);
                if p < ks.len() {
                    assert(lex_le(ks[j], key));
                    assert(lex_le(key, ks[p]));
                    lemma_lex_le_transitive(ks[j], key, ks[p]);
                    if k - 1 > p {
                        lemma_lex_le_transitive(ks[j], ks[p], ks[k - 1]);
                    }
                }
            } else if j == p {
                assert(r[k] == prev[k - 1]);
                assert(lex_le(key, ks[p]));
                if k - 1 > p {
                    lemma_lex_le_transitive(key, ks[p], ks[k - 1]);
                }
            } else {
                assert(r[j] == prev[j - 1]);
                assert(r[k] == prev[k - 1]);
            }
        }
        assert forall|j: int, k: int| 0 <= j < r.len() && 0 <= k < r.len() && j != k implies r[j]
            != r[k] by {
            if j != p && k != p {
                let jj = if j < p { j } else { j - 1 };
                let kk = if k < p { k } else { k - 1 };
                assert(r[j] == prev[jj] && r[k] == prev[kk]);
            } else if j == p {
                let kk = if k < p { k } else { k - 1 };
                assert(r[k] == prev[kk]);
            } else {
                let jj = if j < p { j } else { j - 1 };
                assert(r[j] == prev[jj]);
            }
        }
        assert forall|j: int| 0 <= j < n implies 0 <= #[trigger] r[j] < n by {
            if j < p {
            } else if j > p {
                assert(r[j] == prev[j - 1]);
            }
        }
    }
}

/// Law: a key that starts another comes first in the code-point order, and
/// a proper start of a key comes strictly first.
pub proof fn lemma_lex_le_prefix(a: Seq<char>, b: Seq<char>)
    requires
        a.len() <= b.len(),
        b.take(a.len() as int) == a,
    ensures
        lex_le(a, b),
        a.len() < b.len() ==> !lex_le(b, a),
    decreases a.len(),
{
    if a.len() > 0 {
        assert(b.take(a.len() as int)[0] == b[0]);
        assert(b.drop_first().take(a.drop_first().len() as int) =~= a.drop_first());
        lemma_lex_le_prefix(a.drop_first(), b.drop_first());
    }
}

/// Law: at the first position where two keys differ, the key with the
/// smaller code point there comes first, whatever the keys' lengths.
pub proof fn lemma_lex_le_first_difference(a: Seq<char>, b: Seq<char>, i: int)
    requires
        0 <= i < a.len(),
        i < b.len(),
        a.take(i) == b.take(i),
        (a[i] as u32) < (b[i] as u32),
    ensures
        lex_le(a, b),
        !lex_le(b, a),
    decreases i,
{
    if i > 0 {
        assert(a.take(i)[0] == a[0]);
        assert(b.take(i)[0] == b[0]);
        assert(a.drop_first().take(i - 1) =~= a.take(i).drop_first());
        assert(b.drop_first().take(i - 1) =~= b.take(i).drop_first());
        lemma_lex_le_first_difference(a.drop_first(), b.drop_first(), i - 1);
    }
}

/// Law: the note list comes out as a rearrangement of the entries given,
/// ordered by lowercased relative path.
pub proof fn lemma_sort_entries(entries: Seq<FileEntry>)
    ensures
        ({
            let keys = lower_rels(entries);
            let order = sorted_positions(keys, entries.len() as int);
            &&& sorted_rearrangement(keys, order, entries.len() as int)
            &&& sort_by_lower_rel(entries) == Seq::new(order.len(), |j: int| entries[order[j]])
        }),
{
    lemma_sorted_positions(lower_rels(entries), entries.len() as int);
}

/// Whether the path with components `p` lies in the directory with
/// components `root`: `root`'s components start `p` (what `Path::starts_with`
/// checks, whole components only).  A component is given by the bytes of its
/// platform string.
pub open spec fn component_prefix(root: Seq<Seq<u8>>, p: Seq<Seq<u8>>) -> bool {
    &&& root.len() <= p.len()
    &&& forall|i: int| 0 <= i < root.len() ==> root[i] == p[i]
}

/// Executable [`component_prefix`].
pub fn path_within(root: &Vec<Vec<u8>>, path: &Vec<Vec<u8>>) -> (r: bool)
    ensures
        r == component_prefix(root.deep_view(), path.deep_view()),
{
    if root.len() > path.len() {
        return false;
    }
    for i in 0..root.len()
        invariant
            root.len() <= path.len(),
            forall|j: int| 0 <= j < i ==> root.deep_view()[j] == path.deep_view()[j],
    {
        assert(root.deep_view()[i as int] =~= root@[i as int]@);
        assert(path.deep_view()[i as int] =~= path@[i as int]@);
        if !same_bytes(&root[i], &path[i]) {
            return false;
        }
    }
    true
}

/// Whether two byte strings are equal.
fn same_bytes(a: &Vec<u8>, b: &Vec<u8>) -> (r: bool)
    ensures
        r == (a@ == b@),
{
    if a.len() != b.len() {
        return false;
    }
    for i in 0..a.len()
        invariant
            a.len() == b.len(),
            forall|j: int| 0 <= j < i ==> a@[j] == b@[j],
    {
        if a[i] != b[i] {
            return false;
        }
    }
    assert(a@ =~= b@);
    true
}

/// Whether `r` is the error `msg`.
pub open spec fn is_err_msg(r: Result<(), String>, msg: Seq<char>) -> bool {
    r matches Err(m) && m@ == msg
}

/// Decides whether the backend may touch a path: only inside the open vault.
/// `root` holds the components of the vault's canonical root (`None` when no
/// vault is open), `canonical` the components of the canonical form of the
/// path, or the error of canonicalizing it.
pub fn confine(root: Option<&Vec<Vec<u8>>>, canonical: Result<&Vec<Vec<u8>>, &str>) -> (r: Result<(), String>)
    ensures
        root is None ==> is_err_msg(r, "no vault is open"@),
        root matches Some(rt) ==> match canonical {
            Err(e) => is_err_msg(r, e@),
            Ok(p) => if component_prefix(rt.deep_view(), p.deep_view()) {
                r is Ok
            } else {
                is_err_msg(r, "refused: path is outside the open vault"@)
            },
        },
{
    match root {
        None => Err("no vault is open".to_string()),
        Some(rt) => match canonical {
            Err(e) => Err(e.to_string()),
            Ok(p) => {
                if path_within(rt, p) {
                    Ok(())
                } else {
                    Err("refused: path is outside the open vault".to_string())
                }
            },
        },
    }
}

/// `s` without surrounding whitespace.
pub fn trimmed(s: &str) -> (r: String)
    ensures
        r@ == trim(s@),
{
    let v = chars_of(s);
    let (a, b) = trim_bounds(&v, 0, v.len());
    assert(v@.subrange(0, v.len() as int) =~= v@);
    string_from_chars(&copy_range(&v, a, b))
}

/// Whether `s` ends with `suffix`.
pub open spec fn ends_with(s: Seq<char>, suffix: Seq<char>) -> bool {
    occurs_at(s, suffix, s.len() - suffix.len())
}

fn ends_with_md(v: &Vec<char>) -> (r: bool)
    ensures
        r == ends_with(v@, ".md"@),
{
    proof {
        reveal_strlit(".md");
    }
    let n = v.len();
    let r = n >= 3 && v[n - 3] == '.' && v[n - 2] == 'm' && v[n - 1] == 'd';
    proof {
        let md = ".md"@;
        if r {
            assert forall|k: int| 0 <= k < md.len() implies v@[n - 3 + k] == md[k] by {}
        } else if ends_with(v@, md) {
            assert(v@[n - 3 + 0] == md[0]);
            assert(v@[n - 3 + 1] == md[1]);
            assert(v@[n - 3 + 2] == md[2]);
        }
    }
    r
}

/// `stem` with `.md` appended unless `lower` (its lowercase form) already
/// ends so.
pub open spec fn md_name(stem: Seq<char>, lower: Seq<char>) -> Seq<char> {
    if ends_with(lower, ".md"@) {
        stem
    } else {
        stem + ".md"@
    }
}

/// The file name a new note gets from the last component `stem` of the name
/// asked for: `.md` is appended unless its lowercase form already ends so.
pub open spec fn note_file_name_of(stem: Seq<char>) -> Seq<char> {
    md_name(stem, lowercase(stem))
}

/// Executable [`md_name`]: `lower` is the lowercase form of `stem`.
pub fn with_md_extension(stem: &str, lower: &str) -> (r: String)
    ensures
        r@ == md_name(stem@, lower@),
{
    let lv = chars_of(lower);
    let mut fname = stem.to_string();
    if !ends_with_md(&lv) {
        fname.append(".md");
    }
    fname
}

/// Names a new note.  `stem` is the last component of the trimmed name the
/// user gave (`None` when it has none, e.g. for `..`).
pub fn note_file_name(stem: Option<&str>) -> (r: Result<String, String>)
    ensures
        stem is None ==> (r matches Err(m) && m@ == "invalid name"@),
        stem matches Some(s) ==> if s@.len() == 0 {
            r matches Err(m) && m@ == "name is empty"@
        } else {
            r matches Ok(n) && n@ == note_file_name_of(s@) && (all_ascii(s@) ==> n@ == md_name(
                s@,
                ascii_lowercase(s@),
            ))
        },
{
    match stem {
        None => Err("invalid name".to_string()),
        Some(s) => {
            let v = chars_of(s);
            if v.len() == 0 {
                return Err("name is empty".to_string());
            }
            let lower = to_lower(s);
            Ok(with_md_extension(s, lower.as_str()))
        },
    }
}

/// Whether `s` is a plain file name: not empty, no `/`, `\\` or `:` (the
/// separators and drive marks of any platform), and neither `.` nor `..`.
pub open spec fn plain_component(s: Seq<char>) -> bool {
    &&& s.len() > 0
    &&& !s.contains('/')
    &&& !s.contains('\\')
    &&& !s.contains(':')
    &&& s != "."@
    &&& s != ".."@
}

/// Whether `p` can stand before `/` and a file name without making a
/// platform prefix: no `\\` or `:`, and it does not start with `/`.
pub open spec fn plain_prefix(p: Seq<char>) -> bool {
    &&& !p.contains('\\')
    &&& !p.contains(':')
    &&& !(p.len() > 0 && p[0] == '/')
}

/// The characters of an optional string.
pub open spec fn opt_chars(o: Option<String>) -> Option<Seq<char>> {
    match o {
        Some(s) => Some(s@),
        None => None,
    }
}

/// Whether `r` is `c` whenever `path` is `p`, `/` and a plain file name `c`
/// after a plain prefix `p`.
pub open spec fn names_last_after_slash(path: Seq<char>, r: Option<Seq<char>>) -> bool {
    forall|p: Seq<char>, c: Seq<char>|
        #![trigger p + seq!['/'] + c]
        path == p + seq!['/'] + c && plain_prefix(p) && plain_component(c) ==> r == Some(c)
}

/// Whether the path `t` ends in the parent directory `..`.
pub open spec fn ends_in_parent(t: Seq<char>) -> bool {
    t == ".."@ || ends_with(t, "/.."@)
}

/// `Path::file_name` of `path`, as text: the final component of the path,
/// if there is one.  Contract, as std documents it on every platform: a
/// plain file name is its own final component; after `/`, a plain file
/// name is the final component of the whole path; the empty path and a path
/// ending in `..` have none; any component returned is a non-empty piece of
/// the path without `/`.  Which other characters separate components
/// depends on the platform and is not stated.
#[verifier::external_body]
fn final_component(path: &str) -> (r: Option<String>)
    ensures
        r matches Some(s) ==> {
            &&& s@.len() > 0
            &&& !s@.contains('/')
            &&& exists|x: int, y: int| 0 <= x <= y <= path@.len() && s@ == path@.subrange(x, y)
        },
        plain_component(path@) ==> opt_chars(r) == Some(path@),
        names_last_after_slash(path@, opt_chars(r)),
        ends_in_parent(path@) || path@.len() == 0 ==> r is None,
{
    std::path::Path::new(path).file_name().and_then(|s| s.to_str()).map(|s| s.to_string())
}

/// The file name of a new note asked for as `name`: the final component of
/// the trimmed name, with `.md` added unless its lowercase form ends so.  A
/// plain name is kept (`ideas` gives `ideas.md`); of `dirs/name` only the
/// name is kept (`../../escape` gives `escape.md`); the empty name and one
/// ending in `..` are refused.  Whatever the platform, a name that is given
/// is a single path component: it holds no `/`, so the note lands directly
/// in the vault.
pub fn new_note_name(name: &str) -> (r: Result<String, String>)
    ensures
        r matches Ok(n) ==> {
            &&& n@.len() > 0
            &&& !n@.contains('/')
            &&& exists|x: int, y: int|
                0 <= x <= y <= trim(name@).len() && n@ == note_file_name_of(trim(name@).subrange(x, y))
        },
        r matches Err(m) ==> m@ == "invalid name"@ || m@ == "name is empty"@,
        plain_component(trim(name@)) ==> (r matches Ok(n) && n@ == note_file_name_of(trim(name@))
            && (all_ascii(trim(name@)) ==> n@ == md_name(trim(name@), ascii_lowercase(trim(name@))))),
        forall|p: Seq<char>, c: Seq<char>|
            #![trigger p + seq!['/'] + c]
            trim(name@) == p + seq!['/'] + c && plain_prefix(p) && plain_component(c) ==> (r matches Ok(
                n,
            ) && n@ == note_file_name_of(c) && (all_ascii(c) ==> n@ == md_name(c, ascii_lowercase(c)))),
        trim(name@).len() == 0 || ends_in_parent(trim(name@)) ==> (r matches Err(m) && m@
            == "invalid name"@),
{
    let t = trimmed(name);
    let stem = final_component(t.as_str());
    let r = match &stem {
        Some(s) => note_file_name(Some(s.as_str())),
        None => note_file_name(None),
    };
    proof {
        reveal_strlit(".md");
        if r is Ok {
            let s = stem->0;
            let n = r->Ok_0;
            assert(n@ == s@ || n@ == s@ + ".md"@);
            if n@.contains('/') {
                let j = choose|j: int| 0 <= j < n@.len() && n@[j] == '/';
                if j < s@.len() {
                    assert(s@[j] == '/');
                    assert(s@.contains('/'));
                } else {
                    assert(".md"@[j - s@.len()] == '/');
                }
            }
        }
    }
    r
}

/// The title of a note named `fname`: the name without a final `.md`.
pub open spec fn note_title(fname: Seq<char>) -> Seq<char> {
    if ends_with(fname, ".md"@) {
        fname.subrange(0, fname.len() - 3)
    } else {
        fname
    }
}

/// Law: a note's title is its file name with exactly the final `.md`
/// removed (`2024.01.15.md` is titled `2024.01.15`); a name not ending in
/// `.md` is its own title.
pub proof fn lemma_note_title(s: Seq<char>, f: Seq<char>)
    ensures
        note_title(s + ".md"@) == s,
        !ends_with(f, ".md"@) ==> note_title(f) == f,
{
    reveal_strlit(".md");
    let n = s + ".md"@;
    assert forall|k: int| 0 <= k < 3 implies n[s.len() + k] == ".md"@[k] by {}
    assert(ends_with(n, ".md"@));
    assert(n.subrange(0, n.len() - 3) =~= s);
}

/// What a new note starts with: its title as a heading, then a blank line.
pub fn note_seed(fname: &str) -> (r: String)
    ensures
        r@ == "# "@ + note_title(fname@) + "\n\n"@,
{
    proof {
        reveal_strlit(".md");
    }
    let v = chars_of(fname);
    let end = if ends_with_md(&v) {
        v.len() - 3
    } else {
        v.len()
    };
    let title = string_from_chars(&copy_range(&v, 0, end));
    assert(v@.subrange(0, v.len() as int) =~= v@);
    let mut r = String::new();
    r.append("# ");
    r.append(title.as_str());
    r.append("\n\n");
    r
}

/// The checks a new note must pass before it is written, in order: its
/// directory is the vault root, and no note of that name exists.
pub fn create_check(parent_is_root: bool, exists: bool) -> (r: Result<(), String>)
    ensures
        !parent_is_root ==> is_err_msg(r, "refused: path is outside the open vault"@),
        parent_is_root && exists ==> is_err_msg(r, "a note with that name already exists"@),
        parent_is_root && !exists ==> r is Ok,
{
    if !parent_is_root {
        return Err("refused: path is outside the open vault".to_string());
    }
    if exists {
        return Err("a note with that name already exists".to_string());
    }
    Ok(())
}

/// What the note list tool answers: the relative paths one per line, or a
/// notice when the vault has no notes.
pub fn notes_listing(rels: &Vec<String>) -> (r: String)
    ensures
        rels.len() == 0 ==> r@ == "(no notes found in the vault)"@,
        rels.len() > 0 ==> r@ == join(rels.deep_view(), "\n"@),
{
    if rels.len() == 0 {
        "(no notes found in the vault)".to_string()
    } else {
        join_strings(rels, "\n")
    }
}

/// Decides whether the tool server may read a note: its canonical path must
/// lie inside the vault's canonical root.
pub fn note_read_check(root: &Vec<Vec<u8>>, target: &Vec<Vec<u8>>) -> (r: Result<(), String>)
    ensures
        component_prefix(root.deep_view(), target.deep_view()) ==> r is Ok,
        !component_prefix(root.deep_view(), target.deep_view()) ==> is_err_msg(
            r,
            "refused: path is outside the vault"@,
        ),
{
    if path_within(root, target) {
        Ok(())
    } else {
        Err("refused: path is outside the vault".to_string())
    }
}

/// Whether a batch of file-system changes touched a note: some changed path
/// has the extension `md` (in any ASCII case).
pub fn touches_markdown(extensions: &Vec<Option<String>>) -> (r: bool)
    ensures
        r == exists|i: int|
            0 <= i < extensions.len() && (#[trigger] extensions@[i] matches Some(e)
                && markdown_extension(e@)),
{
    for i in 0..extensions.len()
        invariant
            forall|j: int|
                0 <= j < i ==> !(#[trigger] extensions@[j] matches Some(e) && markdown_extension(
                    e@,
                )),
    {
        let found = match &extensions[i] {
            Some(e) => is_markdown(Some(e.as_str())),
            None => false,
        };
        if found {
            return true;
        }
    }
    false
}

} // verus!
