//! Incremental sync of a vault's index.
//!
//! A manifest records, for every note of a vault, the modification time it
//! had when it was last embedded.  A sync compares it with the notes now on
//! disk: rows of notes that left the disk are deleted, notes that are new or
//! changed are (re-)embedded, unchanged notes are skipped, and the manifest is
//! replaced by the stamps now on disk.
use std::collections::HashMap;
use vstd::prelude::*;
use vstd::string::StringExecFns;
use crate::text::push_decimal;
use crate::text::decimal;
use crate::text::str_eq;

verus! {

/// A note's path and its modification time (seconds since the epoch).
pub struct FileStamp {
    /// Absolute path of the note.
    pub path: String,
    /// Modification time in seconds.
    pub mtime: i64,
}

/// What one sync has to do.
pub struct SyncPlan {
    /// Notes whose rows are to be deleted because they left the disk.
    pub removed: Vec<String>,
    /// Positions (in the list of notes on disk) of the notes to embed anew.
    pub embed: Vec<usize>,
    /// The manifest to keep after the sync.
    pub next: Vec<FileStamp>,
}

/// The map a list of stamps stands for; a later stamp for the same path
/// replaces an earlier one.
pub open spec fn stamps_map(s: Seq<FileStamp>) -> Map<Seq<char>, i64>
    decreases s.len(),
{
    if s.len() == 0 {
        Map::empty()
    } else {
        stamps_map(s.drop_last()).insert(s.last().path@, s.last().mtime)
    }
}

/// The paths of a list of stamps.
pub open spec fn stamp_paths(s: Seq<FileStamp>) -> Seq<Seq<char>> {
    Seq::new(s.len(), |i: int| s[i].path@)
}

/// The paths of the first `n` manifest entries whose note is not on disk.
pub open spec fn removed_upto(prev: Seq<FileStamp>, files: Seq<FileStamp>, n: int) -> Seq<Seq<char>>
    decreases n,
{
    if n <= 0 {
        Seq::empty()
    } else if stamp_paths(files).contains(prev[n - 1].path@) {
        removed_upto(prev, files, n - 1)
    } else {
        removed_upto(prev, files, n - 1).push(prev[n - 1].path@)
    }
}

/// The notes whose rows go: those of the manifest that are no longer on disk,
/// when there is an index table at all.
pub open spec fn removed_paths(prev: Seq<FileStamp>, files: Seq<FileStamp>, table_exists: bool) -> Seq<
    Seq<char>,
> {
    if table_exists {
        removed_upto(prev, files, prev.len() as int)
    } else {
        Seq::empty()
    }
}

/// Whether a note on disk is skipped: the table exists and the manifest holds
/// the same modification time for it.
pub open spec fn unchanged(prev: Map<Seq<char>, i64>, f: FileStamp, table_exists: bool) -> bool {
    table_exists && prev.contains_key(f.path@) && prev[f.path@] == f.mtime
}

/// The positions among the first `n` notes on disk of those to embed.
pub open spec fn embed_upto(prev: Map<Seq<char>, i64>, files: Seq<FileStamp>, table_exists: bool, n: int) -> Seq<
    usize,
>
    decreases n,
{
    if n <= 0 {
        Seq::empty()
    } else if unchanged(prev, files[n - 1], table_exists) {
        embed_upto(prev, files, table_exists, n - 1)
    } else {
        embed_upto(prev, files, table_exists, n - 1).push((n - 1) as usize)
    }
}

/// The positions of the notes on disk to embed, in order.
pub open spec fn embed_positions(prev: Seq<FileStamp>, files: Seq<FileStamp>, table_exists: bool) -> Seq<
    usize,
> {
    embed_upto(stamps_map(prev), files, table_exists, files.len() as int)
}

/// A copy of a stamp.
fn copy_stamp(f: &FileStamp) -> (r: FileStamp)
    ensures
        r == *f,
{
    FileStamp { path: f.path.clone(), mtime: f.mtime }
}

/// The position of the stamp for `path` in a list of stamps with distinct
/// paths.
fn position_of(s: &Vec<FileStamp>, path: &String) -> (r: Option<usize>)
    ensures
        r matches Some(i) ==> i < s.len() && s@[i as int].path@ == path@,
        r is None ==> !stamp_paths(s@).contains(path@),
{
    for i in 0..s.len()
        invariant
            forall|j: int| 0 <= j < i ==> s@[j].path@ != path@,
    {
        if s[i].path == *path {
            return Some(i);
        }
    }
    assert forall|j: int| 0 <= j < stamp_paths(s@).len() implies stamp_paths(s@)[j] != path@ by {
        assert(s@[j].path@ != path@);
    }
    None
}

/// The modification time a list of stamps records for `path`, if any (the
/// last stamp for it counts).
fn lookup(s: &Vec<FileStamp>, path: &String) -> (r: Option<i64>)
    ensures
        r matches Some(m) ==> stamps_map(s@).contains_key(path@) && stamps_map(s@)[path@] == m,
        r is None ==> !stamps_map(s@).contains_key(path@),
{
    let mut found: Option<i64> = None;
    for i in 0..s.len()
        invariant
            found matches Some(m) ==> stamps_map(s@.take(i as int)).contains_key(path@)
                && stamps_map(s@.take(i as int))[path@] == m,
            found is None ==> !stamps_map(s@.take(i as int)).contains_key(path@),
    {
        assert(s@.take(i + 1).drop_last() =~= s@.take(i as int));
        if s[i].path == *path {
            found = Some(s[i].mtime);
        }
    }
    assert(s@.take(s.len() as int) =~= s@);
    found
}

/// Plans a sync of a vault's index.
///
/// `prev` is the vault's manifest, `files` the notes now on disk in walk
/// order, `table_exists` whether the index table exists yet.
pub fn plan_sync(prev: &Vec<FileStamp>, files: &Vec<FileStamp>, table_exists: bool) -> (p: SyncPlan)
    ensures
        p.removed.deep_view() == removed_paths(prev@, files@, table_exists),
        p.embed@ == embed_positions(prev@, files@, table_exists),
        stamps_map(p.next@) == stamps_map(files@),
        stamp_paths(p.next@).no_duplicates(),
{
    let mut removed: Vec<String> = Vec::new();
    if table_exists {
        for i in 0..prev.len()
            invariant
                removed.deep_view() == removed_upto(prev@, files@, i as int),
        {
            let ghost before = removed.deep_view();
            match position_of(files, &prev[i].path) {
                Some(j) => {
                    assert(stamp_paths(files@)[j as int] == prev@[i as int].path@);
                },
                None => {
                    removed.push(prev[i].path.clone());
                    assert(removed.deep_view() =~= before.push(prev@[i as int].path@));
                },
            }
        }
    } else {
        assert(removed.deep_view() =~= Seq::<Seq<char>>::empty());
    }
    let mut embed: Vec<usize> = Vec::new();
    let mut next: Vec<FileStamp> = Vec::new();
    for i in 0..files.len()
        invariant
            embed@ == embed_upto(stamps_map(prev@), files@, table_exists, i as int),
            stamps_map(next@) == stamps_map(files@.take(i as int)),
            stamp_paths(next@).no_duplicates(),
    {
        let f = &files[i];
        assert(files@.take(i + 1).drop_last() =~= files@.take(i as int));
        let same = table_exists && match lookup(prev, &f.path) {
            Some(m) => m == f.mtime,
            None => false,
        };
        if !same {
            embed.push(i);
        }
        let ghost old_next = next@;
        match position_of(&next, &f.path) {
            Some(j) => {
                next.set(j, copy_stamp(f));
                proof {
                    assert(stamp_paths(next@) =~= stamp_paths(old_next));
                    lemma_stamps_map_set(old_next, j as int, *f);
                }
            },
            None => {
                next.push(copy_stamp(f));
                proof {
                    assert(stamp_paths(next@) =~= stamp_paths(old_next).push(f.path@));
                    assert(next@.drop_last() =~= old_next);
                }
            },
        }
    }
    assert(files@.take(files.len() as int) =~= files@);
    SyncPlan { removed, embed, next }
}

/// Replacing the stamp of a path that occurs once keeps the map's other
/// entries and updates that path.
proof fn lemma_stamps_map_set(s: Seq<FileStamp>, j: int, f: FileStamp)
    requires
        0 <= j < s.len(),
        s[j].path@ == f.path@,
        stamp_paths(s).no_duplicates(),
    ensures
        stamps_map(s.update(j, f)) == stamps_map(s).insert(f.path@, f.mtime),
    decreases s.len(),
{
    let t = s.update(j, f);
    if j == s.len() - 1 {
        assert(t.drop_last() =~= s.drop_last());
        assert(stamps_map(s).insert(f.path@, f.mtime) =~= stamps_map(s.drop_last()).insert(
            f.path@,
            f.mtime,
        ));
    } else {
        assert(t.drop_last() =~= s.drop_last().update(j, f));
        assert(stamp_paths(s.drop_last()) =~= stamp_paths(s).drop_last());
        lemma_stamps_map_set(s.drop_last(), j, f);
        assert(stamp_paths(s)[j] != stamp_paths(s)[s.len() - 1]);
        assert(stamps_map(t) =~= stamps_map(s).insert(f.path@, f.mtime));
    }
}

/// One step of bringing a vault's index up to date.
pub enum IndexStep {
    /// Delete the rows of a note that left the disk.
    Remove { path: String },
    /// Embed anew the note at this position of the notes on disk (after
    /// deleting its stale rows).
    Embed { position: usize },
    /// Add the rows embedded in this run to the index.
    Store,
    /// Replace the vault's entry of the manifest by the new stamps.
    SaveManifest,
}

/// The steps of a sync, in the order they run: removals, then embeddings,
/// then storing the new rows, and saving the manifest last, once every other
/// step has succeeded.  A run that stops at a failed step leaves the
/// manifest as it was, so the next run plans the same work again.
pub fn index_steps(plan: &SyncPlan) -> (r: Vec<IndexStep>)
    ensures
        r.len() == plan.removed.len() + plan.embed.len() + 2,
        forall|i: int|
            0 <= i < plan.removed.len() ==> (#[trigger] r@[i] matches IndexStep::Remove { path }
                && path == plan.removed@[i]),
        forall|j: int|
            0 <= j < plan.embed.len() ==> (#[trigger] r@[plan.removed.len() + j] matches IndexStep::Embed {
                position,
            } && position == plan.embed@[j]),
        r@[r.len() - 2] is Store,
        r@[r.len() - 1] is SaveManifest,
        forall|i: int| 0 <= i < r.len() - 1 ==> !(#[trigger] r@[i] is SaveManifest),
{
    let mut r: Vec<IndexStep> = Vec::new();
    for i in 0..plan.removed.len()
        invariant
            r.len() == i,
            forall|k: int|
                0 <= k < i ==> (#[trigger] r@[k] matches IndexStep::Remove { path } && path
                    == plan.removed@[k]),
    {
        r.push(IndexStep::Remove { path: plan.removed[i].clone() });
    }
    let n = plan.removed.len();
    for j in 0..plan.embed.len()
        invariant
            n == plan.removed.len(),
            r.len() == n + j,
            forall|k: int|
                0 <= k < n ==> (#[trigger] r@[k] matches IndexStep::Remove { path } && path
                    == plan.removed@[k]),
            forall|k: int|
                0 <= k < j ==> (#[trigger] r@[n + k] matches IndexStep::Embed { position }
                    && position == plan.embed@[k]),
    {
        r.push(IndexStep::Embed { position: plan.embed[j] });
        assert(r@[n + j] matches IndexStep::Embed { position } && position == plan.embed@[j as int]);
    }
    r.push(IndexStep::Store);
    r.push(IndexStep::SaveManifest);
    assert forall|i: int| 0 <= i < r.len() - 1 implies !(#[trigger] r@[i] is SaveManifest) by {
        if i < n {
        } else if i < n + plan.embed.len() {
            assert(r@[n + (i - n)] matches IndexStep::Embed { .. });
        }
    }
    r
}

/// The status line shown while note `i` (counting from zero) of `total` is
/// being embedded: `indexing <i+1>/<total>…`.
pub fn indexing_status(i: usize, total: usize) -> (r: String)
    requires
        i < total,
    ensures
        r@ == "indexing "@ + decimal(i as nat + 1) + "/"@ + decimal(total as nat) + "…"@,
{
    let mut r = String::new();
    r.append("indexing ");
    push_decimal(&mut r, (i + 1) as u64);
    r.append("/");
    push_decimal(&mut r, total as u64);
    r.append("…");
    r
}

/// A path has an entry in the map of a list of stamps exactly when some
/// stamp of the list is for it.
pub proof fn lemma_stamps_map_domain(s: Seq<FileStamp>, p: Seq<char>)
    ensures
        stamps_map(s).contains_key(p) <==> stamp_paths(s).contains(p),
    decreases s.len(),
{
    if s.len() > 0 {
        lemma_stamps_map_domain(s.drop_last(), p);
        let ps = stamp_paths(s);
        assert(stamp_paths(s.drop_last()) =~= ps.drop_last());
        if ps.contains(p) && p != s.last().path@ {
            let i = choose|i: int| 0 <= i < ps.len() && ps[i] == p;
            assert(ps.drop_last()[i] == p);
        }
        if stamp_paths(s.drop_last()).contains(p) {
            let i = choose|i: int| 0 <= i < ps.len() - 1 && ps.drop_last()[i] == p;
            assert(ps[i] == p);
        }
        if p == s.last().path@ {
            assert(ps[ps.len() - 1] == p);
        }
    }
}

/// With distinct paths, the map of a list of stamps gives each stamp's time.
pub proof fn lemma_stamps_map_distinct(s: Seq<FileStamp>, i: int)
    requires
        stamp_paths(s).no_duplicates(),
        0 <= i < s.len(),
    ensures
        stamps_map(s).contains_key(s[i].path@),
        stamps_map(s)[s[i].path@] == s[i].mtime,
    decreases s.len(),
{
    if i < s.len() - 1 {
        assert(stamp_paths(s.drop_last()) =~= stamp_paths(s).drop_last());
        lemma_stamps_map_distinct(s.drop_last(), i);
        assert(stamp_paths(s)[i] != stamp_paths(s)[s.len() - 1]);
    }
}

proof fn lemma_embed_settled(m: Map<Seq<char>, i64>, files: Seq<FileStamp>, n: int)
    requires
        0 <= n <= files.len(),
        stamp_paths(files).no_duplicates(),
        m == stamps_map(files),
    ensures
        embed_upto(m, files, true, n) == Seq::<usize>::empty(),
    decreases n,
{
    if n > 0 {
        lemma_stamps_map_distinct(files, n - 1);
        lemma_embed_settled(m, files, n - 1);
    }
}

proof fn lemma_removed_settled(prev: Seq<FileStamp>, files: Seq<FileStamp>, n: int)
    requires
        0 <= n <= prev.len(),
        stamps_map(prev) == stamps_map(files),
    ensures
        removed_upto(prev, files, n) == Seq::<Seq<char>>::empty(),
    decreases n,
{
    if n > 0 {
        let p = prev[n - 1].path@;
        assert(stamp_paths(prev)[n - 1] == p);
        lemma_stamps_map_domain(prev, p);
        lemma_stamps_map_domain(files, p);
        lemma_removed_settled(prev, files, n - 1);
    }
}

/// Law: syncing is settled by one run.  Once the manifest holds the stamps of
/// the notes on disk (as a sync leaves it) and the table exists, a sync with
/// nothing changed on disk embeds nothing and deletes nothing.
pub proof fn lemma_sync_settles(prev: Seq<FileStamp>, files: Seq<FileStamp>)
    requires
        stamp_paths(files).no_duplicates(),
        stamps_map(prev) == stamps_map(files),
    ensures
        embed_positions(prev, files, true) == Seq::<usize>::empty(),
        removed_paths(prev, files, true) == Seq::<Seq<char>>::empty(),
{
    lemma_embed_settled(stamps_map(prev), files, files.len() as int);
    lemma_removed_settled(prev, files, prev.len() as int);
}

proof fn lemma_embed_upto(m: Map<Seq<char>, i64>, files: Seq<FileStamp>, t: bool, n: int, x: int)
    requires
        0 <= n <= files.len(),
        files.len() <= usize::MAX,
        0 <= x <= usize::MAX,
    ensures
        embed_upto(m, files, t, n).contains(x as usize) <==> x < n && !unchanged(m, files[x], t),
        forall|a: int, b: int|
            0 <= a < b < embed_upto(m, files, t, n).len() ==> embed_upto(m, files, t, n)[a]
                < embed_upto(m, files, t, n)[b],
        forall|a: int|
            0 <= a < embed_upto(m, files, t, n).len() ==> embed_upto(m, files, t, n)[a] < n,
    decreases n,
{
    if n > 0 {
        lemma_embed_upto(m, files, t, n - 1, x);
        let r0 = embed_upto(m, files, t, n - 1);
        if !unchanged(m, files[n - 1], t) {
            let r1 = r0.push((n - 1) as usize);
            if r1.contains(x as usize) && x != n - 1 {
                let i = choose|i: int| 0 <= i < r1.len() && r1[i] == x as usize;
                assert(r0[i] == x as usize);
            }
            if r0.contains(x as usize) {
                let i = choose|i: int| 0 <= i < r0.len() && r0[i] == x as usize;
                assert(r1[i] == x as usize);
            }
            if x == n - 1 {
                assert(r1[r0.len() as int] == x as usize);
            }
        }
    }
}

/// Law: a sync embeds, in the order of the notes on disk and each once,
/// exactly the notes that are not unchanged: a note is skipped only when the
/// index table exists and the manifest's (last) stamp for its path has the
/// same modification time.
pub proof fn lemma_plan_embed(prev: Seq<FileStamp>, files: Seq<FileStamp>, table_exists: bool, x: int)
    requires
        files.len() <= usize::MAX,
        0 <= x < files.len(),
    ensures
        embed_positions(prev, files, table_exists).contains(x as usize) <==> !(table_exists
            && stamps_map(prev).contains_key(files[x].path@) && stamps_map(prev)[files[x].path@]
            == files[x].mtime),
        forall|a: int, b: int|
            0 <= a < b < embed_positions(prev, files, table_exists).len() ==> embed_positions(
                prev,
                files,
                table_exists,
            )[a] < embed_positions(prev, files, table_exists)[b],
        forall|a: int|
            0 <= a < embed_positions(prev, files, table_exists).len() ==> embed_positions(
                prev,
                files,
                table_exists,
            )[a] < files.len(),
{
    lemma_embed_upto(stamps_map(prev), files, table_exists, files.len() as int, x);
}

proof fn lemma_removed_upto(prev: Seq<FileStamp>, files: Seq<FileStamp>, n: int, p: Seq<char>)
    requires
        0 <= n <= prev.len(),
    ensures
        removed_upto(prev, files, n).contains(p) <==> (exists|j: int|
            0 <= j < n && (#[trigger] prev[j]).path@ == p) && !stamp_paths(files).contains(p),
    decreases n,
{
    if n > 0 {
        lemma_removed_upto(prev, files, n - 1, p);
        let q = prev[n - 1].path@;
        let r0 = removed_upto(prev, files, n - 1);
        if !stamp_paths(files).contains(q) {
            let r1 = r0.push(q);
            if r1.contains(p) && p != q {
                let i = choose|i: int| 0 <= i < r1.len() && r1[i] == p;
                assert(r0[i] == p);
            }
            if r0.contains(p) {
                let i = choose|i: int| 0 <= i < r0.len() && r0[i] == p;
                assert(r1[i] == p);
            }
            if p == q {
                assert(r1[r0.len() as int] == p);
            }
        }
        if exists|j: int| 0 <= j < n && (#[trigger] prev[j]).path@ == p {
            let j = choose|j: int| 0 <= j < n && (#[trigger] prev[j]).path@ == p;
            if j < n - 1 {
                assert(exists|j2: int| 0 <= j2 < n - 1 && (#[trigger] prev[j2]).path@ == p);
            }
        }
    }
}

/// Law: when the index table exists, a sync deletes the rows of a note
/// exactly when the manifest has an entry for it and no note on disk has
/// its path; before the table exists it deletes nothing.
pub proof fn lemma_plan_removed(prev: Seq<FileStamp>, files: Seq<FileStamp>, p: Seq<char>)
    ensures
        removed_paths(prev, files, true).contains(p) <==> stamp_paths(prev).contains(p)
            && !stamp_paths(files).contains(p),
        removed_paths(prev, files, false).len() == 0,
{
    lemma_removed_upto(prev, files, prev.len() as int, p);
    if stamp_paths(prev).contains(p) {
        let j = choose|j: int| 0 <= j < stamp_paths(prev).len() && stamp_paths(prev)[j] == p;
        assert(prev[j].path@ == p);
    }
    if exists|j: int| 0 <= j < prev.len() && (#[trigger] prev[j]).path@ == p {
        let j = choose|j: int| 0 <= j < prev.len() && (#[trigger] prev[j]).path@ == p;
        assert(stamp_paths(prev)[j] == p);
    }
}

proof fn lemma_embed_all(m: Map<Seq<char>, i64>, files: Seq<FileStamp>, n: int)
    requires
        0 <= n <= files.len(),
        files.len() <= usize::MAX,
    ensures
        embed_upto(m, files, false, n) == Seq::new(n as nat, |i: int| i as usize),
    decreases n,
{
    if n > 0 {
        lemma_embed_all(m, files, n - 1);
        assert(Seq::new((n - 1) as nat, |i: int| i as usize).push((n - 1) as usize) =~= Seq::new(
            n as nat,
            |i: int| i as usize,
        ));
    }
}

/// Law: before the index table exists, a sync embeds every note on disk, in
/// order, and deletes nothing.
pub proof fn lemma_first_sync_embeds_all(prev: Seq<FileStamp>, files: Seq<FileStamp>)
    requires
        files.len() <= usize::MAX,
    ensures
        embed_positions(prev, files, false) == Seq::new(files.len(), |i: int| i as usize),
        removed_paths(prev, files, false) == Seq::<Seq<char>>::empty(),
{
    lemma_embed_all(stamps_map(prev), files, files.len() as int);
}

/// The stamps of one vault, as the manifest file keeps them.
pub struct VaultStamps {
    /// The vault directory.
    pub dir: String,
    /// The stamps of its notes.
    pub stamps: Vec<FileStamp>,
}

/// The manifest a list of vault entries stands for: vault directory to the
/// map of its stamps; a later entry for the same directory replaces an
/// earlier one.
pub open spec fn manifest_map(m: Seq<VaultStamps>) -> Map<Seq<char>, Map<Seq<char>, i64>>
    decreases m.len(),
{
    if m.len() == 0 {
        Map::empty()
    } else {
        manifest_map(m.drop_last()).insert(m.last().dir@, stamps_map(m.last().stamps@))
    }
}

/// The stamps a manifest holds for `dir`: none when it has no entry for it.
pub open spec fn stamps_in(m: Map<Seq<char>, Map<Seq<char>, i64>>, dir: Seq<char>) -> Map<
    Seq<char>,
    i64,
> {
    if m.contains_key(dir) {
        m[dir]
    } else {
        Map::empty()
    }
}

/// Name for the stamps that the manifest text `text` holds for the vault
/// `dir`: what `serde_json::from_str` reads as a map from vault directory to
/// a map from note path to modification time, at `dir`; none when the text
/// is not such a map or has no entry for `dir`.
pub uninterp spec fn manifest_stamps(text: Seq<char>, dir: Seq<char>) -> Map<Seq<char>, i64>;

/// `serde_json::from_str::<HashMap<String, HashMap<String, i64>>>`, an empty
/// map when that fails, with its entries copied out.  Contract: for every
/// directory the entries give what the name [`manifest_stamps`] gives, and
/// the paths of each entry are distinct (they were the keys of a map).
#[verifier::external_body]
fn parse_manifest(text: &str) -> (r: Vec<VaultStamps>)
    ensures
        forall|d: Seq<char>| #[trigger] manifest_stamps(text@, d) == stamps_in(manifest_map(r@), d),
        forall|i: int| 0 <= i < r.len() ==> stamp_paths(#[trigger] r@[i].stamps@).no_duplicates(),
{
    let m: HashMap<String, HashMap<String, i64>> = serde_json::from_str(text).unwrap_or_default();
    m.into_iter()
        .map(|(dir, s)| VaultStamps {
            dir,
            stamps: s.into_iter().map(|(path, mtime)| FileStamp { path, mtime }).collect(),
        })
        .collect()
}

/// `serde_json::to_string` of the manifest as a `HashMap` from vault
/// directory to a `HashMap` from note path to modification time (collected
/// in order, so a later entry for a key replaces an earlier one).  Contract:
/// reading the text back gives that map, under the name [`manifest_stamps`].
#[verifier::external_body]
fn render_manifest(m: &Vec<VaultStamps>) -> (r: String)
    ensures
        forall|d: Seq<char>| #[trigger] manifest_stamps(r@, d) == stamps_in(manifest_map(m@), d),
{
    let map: HashMap<&str, HashMap<&str, i64>> = m
        .iter()
        .map(|v| (v.dir.as_str(), v.stamps.iter().map(|s| (s.path.as_str(), s.mtime)).collect()))
        .collect();
    serde_json::to_string(&map).unwrap_or_default()
}

/// A copy of a list of stamps.
fn copy_stamps(v: &Vec<FileStamp>) -> (r: Vec<FileStamp>)
    ensures
        r@ == v@,
{
    let mut r: Vec<FileStamp> = Vec::new();
    for i in 0..v.len()
        invariant
            r@ == v@.take(i as int),
    {
        r.push(copy_stamp(&v[i]));
        assert(r@ =~= v@.take(i + 1));
    }
    assert(v@.take(v.len() as int) =~= v@);
    r
}

/// The stamps a list of manifest entries keeps for the vault `dir`: those of
/// the last entry for `dir`, none when there is no such entry.
pub fn vault_stamps(m: &Vec<VaultStamps>, dir: &str) -> (r: Vec<FileStamp>)
    ensures
        stamps_map(r@) == stamps_in(manifest_map(m@), dir@),
        (forall|j: int| 0 <= j < m.len() ==> stamp_paths(#[trigger] m@[j].stamps@).no_duplicates())
            ==> stamp_paths(r@).no_duplicates(),
{
    let mut found: Vec<FileStamp> = Vec::new();
    let ghost distinct = forall|j: int| 0 <= j < m.len() ==> stamp_paths(#[trigger] m@[j].stamps@).no_duplicates();
    assert(stamps_map(found@) =~= Map::<Seq<char>, i64>::empty());
    assert(stamp_paths(found@) =~= Seq::<Seq<char>>::empty());
    assert(manifest_map(m@.take(0)) =~= Map::<Seq<char>, Map<Seq<char>, i64>>::empty());
    for i in 0..m.len()
        invariant
            distinct == forall|j: int| 0 <= j < m.len() ==> stamp_paths(#[trigger] m@[j].stamps@).no_duplicates(),
            stamps_map(found@) == stamps_in(manifest_map(m@.take(i as int)), dir@),
            distinct ==> stamp_paths(found@).no_duplicates(),
    {
        assert(m@.take(i + 1).drop_last() =~= m@.take(i as int));
        assert(m@.take(i + 1).last() == m@[i as int]);
        if str_eq(m[i].dir.as_str(), dir) {
            found = copy_stamps(&m[i].stamps);
            proof {
                if distinct {
                    assert(stamp_paths(m@[i as int].stamps@).no_duplicates());
                }
            }
        }
    }
    assert(m@.take(m.len() as int) =~= m@);
    found
}

/// The stamps the manifest text `text` keeps for the vault `dir`, each path
/// once.
pub fn read_manifest_stamps(text: &str, dir: &str) -> (r: Vec<FileStamp>)
    ensures
        stamps_map(r@) == manifest_stamps(text@, dir@),
        stamp_paths(r@).no_duplicates(),
{
    let m = parse_manifest(text);
    vault_stamps(&m, dir)
}

/// The manifest text `text` with the entry of the vault `dir` replaced by
/// the stamps `next`; the entries of other vaults are kept.
pub fn manifest_with(text: &str, dir: &str, next: &Vec<FileStamp>) -> (r: String)
    ensures
        manifest_stamps(r@, dir@) == stamps_map(next@),
        forall|d: Seq<char>| d != dir@ ==> #[trigger] manifest_stamps(r@, d) == manifest_stamps(text@, d),
{
    let mut m = parse_manifest(text);
    let ghost old_m = m@;
    m.push(VaultStamps { dir: dir.to_string(), stamps: copy_stamps(next) });
    assert(m@.drop_last() =~= old_m);
    let r = render_manifest(&m);
    assert(manifest_stamps(r@, dir@) == stamps_in(manifest_map(m@), dir@));
    assert forall|d: Seq<char>| d != dir@ implies #[trigger] manifest_stamps(r@, d) == manifest_stamps(
        text@,
        d,
    ) by {
        assert(manifest_stamps(r@, d) == stamps_in(manifest_map(m@), d));
        assert(manifest_stamps(text@, d) == stamps_in(manifest_map(old_m), d));
    }
    r
}

} // verus!
