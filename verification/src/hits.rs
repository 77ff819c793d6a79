//! Search results: picking one passage per note, and showing them as text.
use vstd::prelude::*;
use vstd::string::StringExecFns;
use crate::links::extract_links;
use crate::links::wiki_links;
use crate::text::{join, join_strings, str_eq};

verus! {

/// One search result: the best passage of one note.
pub struct Hit {
    /// Absolute path of the note.
    pub path: String,
    /// File name of the note.
    pub name: String,
    /// Vault-relative path of the note.
    pub rel: String,
    /// The passage.
    pub text: String,
}

/// The outbound `[[links]]` of one note.
pub struct NoteLinks {
    /// Vault-relative path of the note.
    pub rel: String,
    /// File name of the note.
    pub name: String,
    /// Link targets, in document order, each once.
    pub links: Vec<String>,
}

/// The text of one note, as read from the vault.
pub struct NoteText {
    /// Vault-relative path of the note.
    pub rel: String,
    /// File name of the note.
    pub name: String,
    /// Contents of the note.
    pub text: String,
}

/// A copy of a hit with the same contents.
pub fn copy_hit(h: &Hit) -> (r: Hit)
    ensures
        r == *h,
{
    Hit { path: h.path.clone(), name: h.name.clone(), rel: h.rel.clone(), text: h.text.clone() }
}

/// The paths of some hits.
pub open spec fn hit_paths(hs: Seq<Hit>) -> Seq<Seq<char>> {
    Seq::new(hs.len(), |i: int| hs[i].path@)
}

/// Whether a hit may be taken: it is not the excluded note, and its note has
/// no hit yet.
pub open spec fn admissible(h: Hit, exclude: Option<Seq<char>>, taken: Seq<Hit>) -> bool {
    &&& !(exclude matches Some(ex) && h.path@ == ex)
    &&& !hit_paths(taken).contains(h.path@)
}

/// The hits chosen from `rows` (best first) after `taken`: rows of the
/// excluded note and further rows of a note already taken are skipped; the
/// choice ends once `k` hits are taken.
pub open spec fn pick_hits(rows: Seq<Hit>, exclude: Option<Seq<char>>, k: nat, taken: Seq<Hit>) -> Seq<
    Hit,
>
    decreases rows.len(),
{
    if taken.len() >= k || rows.len() == 0 {
        taken
    } else if !admissible(rows[0], exclude, taken) {
        pick_hits(rows.drop_first(), exclude, k, taken)
    } else {
        pick_hits(rows.drop_first(), exclude, k, taken.push(rows[0]))
    }
}

/// The view of an optional path.
pub open spec fn opt_view(o: Option<&str>) -> Option<Seq<char>> {
    match o {
        Some(s) => Some(s@),
        None => None,
    }
}

/// Whether one of `taken` is for the note at `path`.
fn path_taken(taken: &Vec<Hit>, path: &String) -> (r: bool)
    ensures
        r == hit_paths(taken@).contains(path@),
{
    let ghost ps = hit_paths(taken@);
    for i in 0..taken.len()
        invariant
            ps == hit_paths(taken@),
            forall|j: int| 0 <= j < i ==> ps[j] != path@,
    {
        if taken[i].path == *path {
            assert(ps[i as int] == path@);
            return true;
        }
    }
    false
}

/// Picks the top `k` search results from rows ordered best first: one (the
/// best) passage per note, none of the excluded note.
pub fn read_hits(rows: &Vec<Hit>, exclude_path: Option<&str>, k: usize) -> (r: Vec<Hit>)
    ensures
        r@ == pick_hits(rows@, opt_view(exclude_path), k as nat, Seq::empty()),
        r.len() <= k,
{
    let ghost ex = opt_view(exclude_path);
    let mut out: Vec<Hit> = Vec::new();
    if k == 0 {
        return out;
    }
    let mut i: usize = 0;
    assert(rows@.skip(0) =~= rows@);
    while i < rows.len()
        invariant
            i <= rows.len(),
            ex == opt_view(exclude_path),
            out.len() < k,
            pick_hits(rows@, ex, k as nat, Seq::empty()) == pick_hits(
                rows@.skip(i as int),
                ex,
                k as nat,
                out@,
            ),
        decreases rows.len() - i,
    {
        let h = &rows[i];
        let ghost rest = rows@.skip(i as int);
        assert(rest.drop_first() =~= rows@.skip(i + 1));
        assert(rest[0] == *h);
        let excluded = match exclude_path {
            Some(x) => {
                str_eq(h.path.as_str(), x)
            },
            None => false,
        };
        let ghost before = out@;
        if !excluded && !path_taken(&out, &h.path) {
            assert(admissible(*h, ex, before));
            out.push(copy_hit(h));
            assert(out@ == before.push(*h));
            if out.len() >= k {
                assert(pick_hits(rows@.skip(i + 1), ex, k as nat, out@) == out@);
                return out;
            }
        } else {
            assert(!admissible(*h, ex, before));
        }
        i = i + 1;
    }
    assert(rows@.skip(i as int) =~= Seq::<Hit>::empty());
    out
}

/// What holds of hits taken so far: distinct notes, none the excluded one,
/// at most `k`.
pub open spec fn hits_ok(hs: Seq<Hit>, exclude: Option<Seq<char>>, k: nat) -> bool {
    &&& hit_paths(hs).no_duplicates()
    &&& forall|i: int| 0 <= i < hs.len() ==> !(exclude matches Some(ex) && #[trigger] hs[i].path@ == ex)
    &&& hs.len() <= k
}

proof fn lemma_pick_hits(rows: Seq<Hit>, exclude: Option<Seq<char>>, k: nat, taken: Seq<Hit>)
    requires
        hits_ok(taken, exclude, k),
    ensures
        hits_ok(pick_hits(rows, exclude, k, taken), exclude, k),
        pick_hits(rows, exclude, k, taken).len() >= taken.len(),
        pick_hits(rows, exclude, k, taken).subrange(0, taken.len() as int) == taken,
        forall|i: int|
            taken.len() <= i < pick_hits(rows, exclude, k, taken).len() ==> rows.contains(
                #[trigger] pick_hits(rows, exclude, k, taken)[i],
            ),
    decreases rows.len(),
{
    let r = pick_hits(rows, exclude, k, taken);
    assert(taken.subrange(0, taken.len() as int) =~= taken);
    if taken.len() >= k || rows.len() == 0 {
    } else if !admissible(rows[0], exclude, taken) {
        lemma_pick_hits(rows.drop_first(), exclude, k, taken);
        assert forall|i: int| taken.len() <= i < r.len() implies rows.contains(#[trigger] r[i]) by {
            let j = choose|j: int| 0 <= j < rows.drop_first().len() && rows.drop_first()[j] == r[i];
            assert(rows[j + 1] == r[i]);
        }
    } else {
        let t2 = taken.push(rows[0]);
        assert(hit_paths(t2) =~= hit_paths(taken).push(rows[0].path@));
        assert(hits_ok(t2, exclude, k));
        assert(t2.subrange(0, taken.len() as int) =~= taken);
        lemma_pick_hits(rows.drop_first(), exclude, k, t2);
        assert(r.subrange(0, taken.len() as int) =~= r.subrange(0, t2.len() as int).subrange(
            0,
            taken.len() as int,
        ));
        assert forall|i: int| taken.len() <= i < r.len() implies rows.contains(#[trigger] r[i]) by {
            if i == taken.len() {
                assert(r[i] == r.subrange(0, t2.len() as int)[i]);
                assert(rows[0] == r[i]);
            } else {
                let j = choose|j: int|
                    0 <= j < rows.drop_first().len() && rows.drop_first()[j] == r[i];
                assert(rows[j + 1] == r[i]);
            }
        }
    }
}

/// Whether `h` is the first of `rows` for its note (the best passage of the
/// note, rows being ordered best first).
pub open spec fn first_of_note(rows: Seq<Hit>, h: Hit) -> bool {
    exists|j: int|
        0 <= j < rows.len() && rows[j] == h && forall|m: int|
            0 <= m < j ==> (#[trigger] rows[m]).path@ != h.path@
}

proof fn lemma_first_of_note_extend(rows: Seq<Hit>, more: Seq<Hit>, h: Hit)
    requires
        first_of_note(rows, h),
    ensures
        first_of_note(rows + more, h),
{
    let j = choose|j: int|
        0 <= j < rows.len() && rows[j] == h && forall|m: int|
            0 <= m < j ==> (#[trigger] rows[m]).path@ != h.path@;
    let all = rows + more;
    assert(all[j] == h);
    assert forall|m: int| 0 <= m < j implies (#[trigger] all[m]).path@ != h.path@ by {
        assert(all[m] == rows[m]);
    }
}

proof fn lemma_pick_hits_best(
    pre: Seq<Hit>,
    rows: Seq<Hit>,
    exclude: Option<Seq<char>>,
    k: nat,
    taken: Seq<Hit>,
)
    requires
        forall|m: int|
            0 <= m < pre.len() ==> (exclude matches Some(ex) && (#[trigger] pre[m]).path@ == ex)
                || hit_paths(taken).contains(pre[m].path@),
        forall|i: int| 0 <= i < taken.len() ==> first_of_note(pre, #[trigger] taken[i]),
    ensures
        forall|i: int|
            0 <= i < pick_hits(rows, exclude, k, taken).len() ==> first_of_note(
                pre + rows,
                #[trigger] pick_hits(rows, exclude, k, taken)[i],
            ),
    decreases rows.len(),
{
    let r = pick_hits(rows, exclude, k, taken);
    if taken.len() >= k || rows.len() == 0 {
        assert forall|i: int| 0 <= i < r.len() implies first_of_note(pre + rows, #[trigger] r[i]) by {
            assert(r[i] == taken[i]);
            lemma_first_of_note_extend(pre, rows, r[i]);
        }
    } else {
        let pre2 = pre.push(rows[0]);
        assert(pre2 + rows.drop_first() =~= pre + rows);
        assert forall|i: int| 0 <= i < taken.len() implies first_of_note(pre2, #[trigger] taken[i]) by {
            lemma_first_of_note_extend(pre, seq![rows[0]], taken[i]);
            assert(pre + seq![rows[0]] =~= pre2);
        }
        if !admissible(rows[0], exclude, taken) {
            assert forall|m: int| 0 <= m < pre2.len() implies (exclude matches Some(ex) && (
            #[trigger] pre2[m]).path@ == ex) || hit_paths(taken).contains(pre2[m].path@) by {
                if m < pre.len() {
                    assert(pre2[m] == pre[m]);
                }
            }
            lemma_pick_hits_best(pre2, rows.drop_first(), exclude, k, taken);
            assert(r == pick_hits(rows.drop_first(), exclude, k, taken));
            assert forall|i: int| 0 <= i < r.len() implies first_of_note(pre + rows, #[trigger] r[i]) by {
                assert(first_of_note(pre2 + rows.drop_first(), r[i]));
            }
        } else {
            let t2 = taken.push(rows[0]);
            assert(hit_paths(t2) =~= hit_paths(taken).push(rows[0].path@));
            assert forall|m: int| 0 <= m < pre2.len() implies (exclude matches Some(ex) && (
            #[trigger] pre2[m]).path@ == ex) || hit_paths(t2).contains(pre2[m].path@) by {
                if m < pre.len() {
                    assert(pre2[m] == pre[m]);
                    if hit_paths(taken).contains(pre[m].path@) {
                        let q = choose|q: int|
                            0 <= q < hit_paths(taken).len() && hit_paths(taken)[q] == pre[m].path@;
                        assert(hit_paths(t2)[q] == pre[m].path@);
                    }
                } else {
                    assert(hit_paths(t2)[taken.len() as int] == rows[0].path@);
                }
            }
            assert(first_of_note(pre2, rows[0])) by {
                let j = pre.len() as int;
                assert(pre2[j] == rows[0]);
                assert forall|m: int| 0 <= m < j implies (#[trigger] pre2[m]).path@
                    != rows[0].path@ by {
                    assert(pre2[m] == pre[m]);
                }
            }
            assert forall|i: int| 0 <= i < t2.len() implies first_of_note(pre2, #[trigger] t2[i]) by {
                if i < taken.len() {
                    assert(t2[i] == taken[i]);
                }
            }
            lemma_pick_hits_best(pre2, rows.drop_first(), exclude, k, t2);
            assert(r == pick_hits(rows.drop_first(), exclude, k, t2));
            assert forall|i: int| 0 <= i < r.len() implies first_of_note(
                pre + rows,
                #[trigger] r[i],
            ) by {
                assert(first_of_note(pre2 + rows.drop_first(), r[i]));
            }
        }
    }
}

/// Law: the results of a search are for distinct notes, never for the
/// excluded note, at most `k` of them, and each is the best (first) of the
/// rows searched for its note.
pub proof fn lemma_read_hits(rows: Seq<Hit>, exclude: Option<Seq<char>>, k: nat)
    ensures
        hits_ok(pick_hits(rows, exclude, k, Seq::empty()), exclude, k),
        forall|i: int|
            0 <= i < pick_hits(rows, exclude, k, Seq::empty()).len() ==> rows.contains(
                #[trigger] pick_hits(rows, exclude, k, Seq::empty())[i],
            ),
        forall|i: int|
            0 <= i < pick_hits(rows, exclude, k, Seq::empty()).len() ==> first_of_note(
                rows,
                #[trigger] pick_hits(rows, exclude, k, Seq::empty())[i],
            ),
{
    let e = Seq::<Hit>::empty();
    assert(hit_paths(e) =~= Seq::<Seq<char>>::empty());
    lemma_pick_hits(rows, exclude, k, e);
    lemma_pick_hits_best(e, rows, exclude, k, e);
    assert(e + rows =~= rows);
}

proof fn lemma_pick_hits_complete(rows: Seq<Hit>, exclude: Option<Seq<char>>, k: nat, taken: Seq<Hit>)
    requires
        hits_ok(taken, exclude, k),
    ensures
        pick_hits(rows, exclude, k, taken).len() < k ==> forall|j: int|
            0 <= j < rows.len() && !(exclude matches Some(ex) && (#[trigger] rows[j]).path@ == ex)
                ==> hit_paths(pick_hits(rows, exclude, k, taken)).contains(rows[j].path@),
    decreases rows.len(),
{
    let r = pick_hits(rows, exclude, k, taken);
    if taken.len() >= k || rows.len() == 0 {
    } else {
        let rest = rows.drop_first();
        let t2 = if admissible(rows[0], exclude, taken) {
            taken.push(rows[0])
        } else {
            taken
        };
        if admissible(rows[0], exclude, taken) {
            assert(hit_paths(t2) =~= hit_paths(taken).push(rows[0].path@));
        }
        assert(hits_ok(t2, exclude, k));
        assert(r == pick_hits(rest, exclude, k, t2));
        lemma_pick_hits(rest, exclude, k, t2);
        lemma_pick_hits_complete(rest, exclude, k, t2);
        if r.len() < k {
            assert forall|j: int|
                0 <= j < rows.len() && !(exclude matches Some(ex) && (#[trigger] rows[j]).path@
                    == ex) implies hit_paths(r).contains(rows[j].path@) by {
                if j > 0 {
                    assert(rest[j - 1] == rows[j]);
                } else {
                    // the first row's note is among those taken before the rest
                    assert(hit_paths(t2).contains(rows[0].path@)) by {
                        if admissible(rows[0], exclude, taken) {
                            assert(hit_paths(t2)[taken.len() as int] == rows[0].path@);
                        } else {
                            let q = choose|q: int|
                                0 <= q < hit_paths(taken).len() && hit_paths(taken)[q]
                                    == rows[0].path@;
                            assert(hit_paths(t2)[q] == rows[0].path@);
                        }
                    }
                    let q = choose|q: int|
                        0 <= q < hit_paths(t2).len() && hit_paths(t2)[q] == rows[0].path@;
                    assert(r.subrange(0, t2.len() as int) == t2);
                    assert(r[q] == t2[q]);
                    assert(hit_paths(r)[q] == rows[0].path@);
                }
            }
        }
    }
}

/// Law: a search gives as many results as it can: fewer than `k` only when
/// every note of the rows searched (other than the excluded one) already has
/// its result, so the results number the smaller of `k` and the number of
/// such notes.
pub proof fn lemma_read_hits_complete(rows: Seq<Hit>, exclude: Option<Seq<char>>, k: nat)
    ensures
        pick_hits(rows, exclude, k, Seq::empty()).len() < k ==> forall|j: int|
            0 <= j < rows.len() && !(exclude matches Some(ex) && (#[trigger] rows[j]).path@ == ex)
                ==> hit_paths(pick_hits(rows, exclude, k, Seq::empty())).contains(rows[j].path@),
{
    let e = Seq::<Hit>::empty();
    assert(hit_paths(e) =~= Seq::<Seq<char>>::empty());
    lemma_pick_hits_complete(rows, exclude, k, e);
}

/// Whether `h` is one of the rows before position `j`.
pub open spec fn row_before(rows: Seq<Hit>, h: Hit, j: int) -> bool {
    exists|m: int| 0 <= m < j && rows[m] == h
}

proof fn lemma_pick_hits_earliest(
    rows: Seq<Hit>,
    exclude: Option<Seq<char>>,
    k: nat,
    taken: Seq<Hit>,
    j: int,
    b: int,
)
    requires
        hits_ok(taken, exclude, k),
        0 <= j < rows.len(),
        0 <= b <= pick_hits(rows, exclude, k, taken).len(),
        !(exclude matches Some(ex) && rows[j].path@ == ex),
        !hit_paths(pick_hits(rows, exclude, k, taken).take(b)).contains(rows[j].path@),
    ensures
        forall|i: int|
            taken.len() <= i < b ==> row_before(rows, #[trigger] pick_hits(rows, exclude, k, taken)[i], j),
    decreases rows.len(),
{
    let r = pick_hits(rows, exclude, k, taken);
    lemma_pick_hits(rows, exclude, k, taken);
    if taken.len() >= k || rows.len() == 0 {
    } else {
        let rest = rows.drop_first();
        let adm = admissible(rows[0], exclude, taken);
        let t2 = if adm {
            taken.push(rows[0])
        } else {
            taken
        };
        if adm {
            assert(hit_paths(t2) =~= hit_paths(taken).push(rows[0].path@));
        }
        assert(hits_ok(t2, exclude, k));
        assert(r == pick_hits(rest, exclude, k, t2));
        lemma_pick_hits(rest, exclude, k, t2);
        assert(r.subrange(0, t2.len() as int) == t2);
        if j == 0 {
            // the first row's note is taken before position `t2.len()`
            if b > taken.len() {
                if adm {
                    assert(r[taken.len() as int] == t2[taken.len() as int]);
                    assert(hit_paths(r.take(b))[taken.len() as int] == rows[0].path@);
                } else {
                    let q = choose|q: int|
                        0 <= q < hit_paths(taken).len() && hit_paths(taken)[q] == rows[0].path@;
                    assert(r[q] == t2[q]);
                    assert(hit_paths(r.take(b))[q] == rows[0].path@);
                }
            }
        } else {
            assert(rest[j - 1] == rows[j]);
            if b >= t2.len() {
                lemma_pick_hits_earliest(rest, exclude, k, t2, j - 1, b);
            }
            assert forall|i: int| taken.len() <= i < b implies row_before(rows, #[trigger] r[i], j) by {
                if i < t2.len() {
                    assert(r[i] == t2[i]);
                    assert(rows[0] == r[i]);
                } else {
                    assert(row_before(rest, r[i], j - 1));
                    let m = choose|m: int| 0 <= m < j - 1 && rest[m] == r[i];
                    assert(rows[m + 1] == r[i]);
                }
            }
        }
    }
}

/// Law: the results come in the order of the rows, and the notes chosen are
/// the earliest: every one of the first `b` results has its row before any
/// row (not of the excluded note) of a note that is not among those `b`.  So
/// each result's note appears in the rows before the next result's note.
pub proof fn lemma_read_hits_earliest(
    rows: Seq<Hit>,
    exclude: Option<Seq<char>>,
    k: nat,
    j: int,
    b: int,
)
    requires
        0 <= j < rows.len(),
        0 <= b <= pick_hits(rows, exclude, k, Seq::empty()).len(),
        !(exclude matches Some(ex) && rows[j].path@ == ex),
        !hit_paths(pick_hits(rows, exclude, k, Seq::empty()).take(b)).contains(rows[j].path@),
    ensures
        forall|i: int|
            0 <= i < b ==> row_before(rows, #[trigger] pick_hits(rows, exclude, k, Seq::empty())[i], j),
{
    let e = Seq::<Hit>::empty();
    assert(hit_paths(e) =~= Seq::<Seq<char>>::empty());
    lemma_pick_hits_earliest(rows, exclude, k, e, j, b);
}

/// How one hit is shown: its relative path in brackets, then its passage.
pub open spec fn hit_block(h: Hit) -> Seq<char> {
    "["@ + h.rel@ + "]\n"@ + h.text@
}

/// What a list of hits is shown as: the blocks separated by rules, or a
/// notice when there are none.
pub open spec fn hits_text(hs: Seq<Hit>) -> Seq<char> {
    if hs.len() == 0 {
        "(no matching notes)"@
    } else {
        join(Seq::new(hs.len(), |i: int| hit_block(hs[i])), "\n\n---\n\n"@)
    }
}

/// Shows search results as plain text for an agent.
pub fn format_hits(hits: &Vec<Hit>) -> (r: String)
    ensures
        r@ == hits_text(hits@),
{
    if hits.len() == 0 {
        return "(no matching notes)".to_string();
    }
    let mut blocks: Vec<String> = Vec::new();
    for i in 0..hits.len()
        invariant
            blocks.len() == i,
            forall|j: int| 0 <= j < i ==> #[trigger] blocks@[j]@ == hit_block(hits@[j]),
    {
        let mut b = String::new();
        b.append("[");
        b.append(hits[i].rel.as_str());
        b.append("]\n");
        b.append(hits[i].text.as_str());
        blocks.push(b);
    }
    assert(blocks.deep_view() =~= Seq::new(hits@.len(), |i: int| hit_block(hits@[i])));
    join_strings(&blocks, "\n\n---\n\n")
}

/// Whether `l` is the link list of the note `n`.
pub open spec fn links_of_note(l: NoteLinks, n: NoteText) -> bool {
    &&& l.rel == n.rel
    &&& l.name == n.name
    &&& l.links.deep_view() == wiki_links(n.text@)
}

/// The outbound links of every note of a vault, note by note.
pub fn vault_links(notes: &Vec<NoteText>) -> (r: Vec<NoteLinks>)
    ensures
        r.len() == notes.len(),
        forall|i: int| 0 <= i < r.len() ==> links_of_note(#[trigger] r@[i], notes@[i]),
{
    let mut out: Vec<NoteLinks> = Vec::new();
    for i in 0..notes.len()
        invariant
            out.len() == i,
            forall|j: int| 0 <= j < i ==> links_of_note(#[trigger] out@[j], notes@[j]),
    {
        let n = &notes[i];
        out.push(
            NoteLinks {
                rel: n.rel.clone(),
                name: n.name.clone(),
                links: extract_links(n.text.as_str()),
            },
        );
    }
    out
}

} // verus!
