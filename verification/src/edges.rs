//! Semantic edges of the knowledge map.
//!
//! For every note the caller supplies its candidate neighbours: the other
//! notes whose similarity reaches the threshold, in note order, each with an
//! integer key that orders them as their similarities do.  Each note keeps its
//! `k` most similar candidates (ties in note order), and the pairs are merged
//! into undirected edges, the first orientation met being kept.
use vstd::prelude::*;
use vstd::seq_lib::{to_multiset_build, to_multiset_insert};

verus! {

/// A candidate neighbour: a note position and its similarity key (a larger
/// key is a closer note).
#[derive(Clone, Copy)]
pub struct Candidate {
    /// Position of the neighbour among the notes.
    pub note: usize,
    /// Similarity key.
    pub key: u32,
}

/// An undirected edge of the map, given by note positions.
#[derive(Clone, Copy)]
pub struct EdgeRef {
    /// The note whose neighbour list produced the edge.
    pub s: usize,
    /// The neighbour.
    pub d: usize,
    /// The similarity key of the pair.
    pub key: u32,
}

/// Where a candidate with key `key` goes in a list sorted by decreasing key:
/// after every candidate whose key is at least `key`.
pub open spec fn insert_position(sorted: Seq<Candidate>, key: u32, i: int) -> int
    decreases sorted.len() - i,
{
    if i >= sorted.len() || i < 0 || sorted[i].key < key {
        i
    } else {
        insert_position(sorted, key, i + 1)
    }
}

/// The candidates sorted by decreasing key; candidates with equal keys keep
/// their order (a stable sort, as `sort_by` gives).
pub open spec fn sort_by_key_desc(s: Seq<Candidate>) -> Seq<Candidate>
    decreases s.len(),
{
    if s.len() == 0 {
        Seq::empty()
    } else {
        let sorted = sort_by_key_desc(s.drop_last());
        sorted.insert(insert_position(sorted, s.last().key, 0), s.last())
    }
}

/// Whether a list is sorted by decreasing key.
pub open spec fn sorted_desc(s: Seq<Candidate>) -> bool {
    forall|i: int, j: int| 0 <= i < j < s.len() ==> s[i].key >= s[j].key
}

proof fn lemma_insert_position(sorted: Seq<Candidate>, key: u32, i: int)
    requires
        0 <= i <= sorted.len(),
    ensures
        i <= insert_position(sorted, key, i) <= sorted.len(),
        forall|j: int| i <= j < insert_position(sorted, key, i) ==> sorted[j].key >= key,
        insert_position(sorted, key, i) < sorted.len() ==> sorted[insert_position(sorted, key, i)].key
            < key,
    decreases sorted.len() - i,
{
    if i < sorted.len() && sorted[i].key >= key {
        lemma_insert_position(sorted, key, i + 1);
    }
}

/// Law: sorting by key gives a list sorted by decreasing key that holds the
/// same candidates.
pub proof fn lemma_sort_by_key_desc(s: Seq<Candidate>)
    ensures
        sorted_desc(sort_by_key_desc(s)),
        sort_by_key_desc(s).to_multiset() == s.to_multiset(),
        sort_by_key_desc(s).len() == s.len(),
    decreases s.len(),
{
    if s.len() > 0 {
        let sorted = sort_by_key_desc(s.drop_last());
        lemma_sort_by_key_desc(s.drop_last());
        let c = s.last();
        lemma_insert_position(sorted, c.key, 0);
        let p = insert_position(sorted, c.key, 0);
        let r = sorted.insert(p, c);
        sorted.insert_ensures(p, c);
        assert forall|i: int, j: int| 0 <= i < j < r.len() implies r[i].key >= r[j].key by {
            if j < p {
            } else if j == p {
            } else if i < p {
                assert(r[j] == sorted[j - 1]);
                assert(sorted[p].key < c.key || p == sorted.len());
                if p < sorted.len() {
                    assert(sorted[i].key >= sorted[j - 1].key);
                }
            } else if i == p {
                assert(r[j] == sorted[j - 1]);
                assert(sorted[p].key >= sorted[j - 1].key);
            } else {
                assert(r[i] == sorted[i - 1]);
                assert(r[j] == sorted[j - 1]);
            }
        }
        to_multiset_insert(sorted, p, c);
        to_multiset_build(s.drop_last(), c);
        assert(s.drop_last().push(c) =~= s);
    } else {
        assert(s =~= Seq::<Candidate>::empty());
    }
}

/// Sorts candidates by decreasing key, keeping the order of equal keys.
pub fn sort_candidates(c: &Vec<Candidate>) -> (r: Vec<Candidate>)
    ensures
        r@ == sort_by_key_desc(c@),
{
    let mut r: Vec<Candidate> = Vec::new();
    for i in 0..c.len()
        invariant
            r@ == sort_by_key_desc(c@.take(i as int)),
    {
        let x = c[i];
        assert(c@.take(i + 1).drop_last() =~= c@.take(i as int));
        let mut p: usize = 0;
        while p < r.len() && r[p].key >= x.key
            invariant
                p <= r.len(),
                insert_position(r@, x.key, 0) == insert_position(r@, x.key, p as int),
            decreases r.len() - p,
        {
            p = p + 1;
        }
        r.insert(p, x);
    }
    assert(c@.take(c.len() as int) =~= c@);
    r
}

/// Whether the undirected pair `{a, b}` is among the edges.
pub open spec fn has_pair(edges: Seq<EdgeRef>, a: usize, b: usize) -> bool {
    exists|i: int|
        0 <= i < edges.len() && ((edges[i].s == a && edges[i].d == b) || (edges[i].s == b
            && edges[i].d == a))
}

/// The edges after adding the neighbours `nbrs` of note `src` to `edges`,
/// skipping pairs already present.
pub open spec fn add_neighbours(edges: Seq<EdgeRef>, src: usize, nbrs: Seq<Candidate>) -> Seq<EdgeRef>
    decreases nbrs.len(),
{
    if nbrs.len() == 0 {
        edges
    } else {
        let c = nbrs[0];
        let next = if has_pair(edges, src, c.note) {
            edges
        } else {
            edges.push(EdgeRef { s: src, d: c.note, key: c.key })
        };
        add_neighbours(next, src, nbrs.drop_first())
    }
}

/// The edges of notes `0..n`.
pub open spec fn edges_upto(cands: Seq<Seq<Candidate>>, k: nat, n: int) -> Seq<EdgeRef>
    decreases n,
{
    if n <= 0 {
        Seq::empty()
    } else {
        let sorted = sort_by_key_desc(cands[n - 1]);
        add_neighbours(
            edges_upto(cands, k, n - 1),
            (n - 1) as usize,
            sorted.take(if k < sorted.len() { k as int } else { sorted.len() as int }),
        )
    }
}

/// The candidate lists held by a vector of vectors.
pub open spec fn candidate_lists(v: Seq<Vec<Candidate>>) -> Seq<Seq<Candidate>> {
    Seq::new(v.len(), |i: int| v[i]@)
}

/// The semantic edges for the candidate lists of all notes.
pub open spec fn semantic_edge_refs(cands: Seq<Seq<Candidate>>, k: nat) -> Seq<EdgeRef> {
    edges_upto(cands, k, cands.len() as int)
}

/// Whether the pair `{a, b}` is among the edges.
fn pair_present(edges: &Vec<EdgeRef>, a: usize, b: usize) -> (r: bool)
    ensures
        r == has_pair(edges@, a, b),
{
    for i in 0..edges.len()
        invariant
            forall|j: int|
                0 <= j < i ==> !((edges@[j].s == a && edges@[j].d == b) || (edges@[j].s == b
                    && edges@[j].d == a)),
    {
        let e = edges[i];
        if (e.s == a && e.d == b) || (e.s == b && e.d == a) {
            return true;
        }
    }
    false
}

/// The undirected semantic edges of the knowledge map: each note's `k`
/// closest candidates (by decreasing key, ties in note order), each pair once.
pub fn semantic_edges(cands: &Vec<Vec<Candidate>>, k: usize) -> (r: Vec<EdgeRef>)
    ensures
        r@ == semantic_edge_refs(candidate_lists(cands@), k as nat),
{
    let ghost cv = candidate_lists(cands@);
    let mut edges: Vec<EdgeRef> = Vec::new();
    for i in 0..cands.len()
        invariant
            cv == candidate_lists(cands@),
            cv.len() == cands.len(),
            edges@ == edges_upto(cv, k as nat, i as int),
    {
        assert(cv[i as int] == cands@[i as int]@);
        let sorted = sort_candidates(&cands[i]);
        let take = if k < sorted.len() {
            k
        } else {
            sorted.len()
        };
        let ghost top = sorted@.take(take as int);
        let ghost goal = add_neighbours(edges@, i, top);
        assert(top.skip(0) =~= top);
        let mut t: usize = 0;
        while t < take
            invariant
                t <= take <= sorted.len(),
                top == sorted@.take(take as int),
                goal == add_neighbours(edges@, i, top.skip(t as int)),
            decreases take - t,
        {
            let c = sorted[t];
            assert(top.skip(t as int)[0] == c);
            assert(top.skip(t as int).drop_first() =~= top.skip(t + 1));
            if !pair_present(&edges, i, c.note) {
                edges.push(EdgeRef { s: i, d: c.note, key: c.key });
            }
            t = t + 1;
        }
        assert(top.skip(take as int) =~= Seq::<Candidate>::empty());
    }
    edges
}

/// No undirected pair occurs twice among the edges.
pub open spec fn pairs_distinct(es: Seq<EdgeRef>) -> bool {
    forall|i: int, j: int|
        0 <= i < j < es.len() ==> !((es[i].s == es[j].s && es[i].d == es[j].d) || (es[i].s
            == es[j].d && es[i].d == es[j].s))
}

/// Every edge comes from a candidate: its target, with its key, is a
/// candidate of its source note.
pub open spec fn edges_from_candidates(es: Seq<EdgeRef>, cands: Seq<Seq<Candidate>>) -> bool {
    forall|i: int|
        0 <= i < es.len() ==> {
            &&& (#[trigger] es[i]).s < cands.len()
            &&& cands[es[i].s as int].contains(Candidate { note: es[i].d, key: es[i].key })
        }
}

/// No edge joins a note to itself.
pub open spec fn no_loops(es: Seq<EdgeRef>) -> bool {
    forall|i: int| 0 <= i < es.len() ==> (#[trigger] es[i]).s != es[i].d
}

/// No candidate list names its own note.
pub open spec fn no_self_candidates(cands: Seq<Seq<Candidate>>) -> bool {
    forall|i: int, j: int| 0 <= i < cands.len() && 0 <= j < cands[i].len() ==> #[trigger] cands[i][j].note != i
}

proof fn lemma_add_neighbours(
    edges: Seq<EdgeRef>,
    src: usize,
    nbrs: Seq<Candidate>,
    cands: Seq<Seq<Candidate>>,
    ns: bool,
)
    requires
        pairs_distinct(edges),
        edges_from_candidates(edges, cands),
        ns ==> no_loops(edges),
        src < cands.len(),
        forall|j: int| 0 <= j < nbrs.len() ==> cands[src as int].contains(#[trigger] nbrs[j]),
        ns ==> forall|j: int| 0 <= j < nbrs.len() ==> (#[trigger] nbrs[j]).note != src,
    ensures
        pairs_distinct(add_neighbours(edges, src, nbrs)),
        edges_from_candidates(add_neighbours(edges, src, nbrs), cands),
        ns ==> no_loops(add_neighbours(edges, src, nbrs)),
    decreases nbrs.len(),
{
    if nbrs.len() > 0 {
        let c = nbrs[0];
        let next = if has_pair(edges, src, c.note) {
            edges
        } else {
            edges.push(EdgeRef { s: src, d: c.note, key: c.key })
        };
        if !has_pair(edges, src, c.note) {
            assert forall|i: int, j: int| 0 <= i < j < next.len() implies !((next[i].s == next[j].s
                && next[i].d == next[j].d) || (next[i].s == next[j].d && next[i].d
                == next[j].s)) by {
                if j == edges.len() {
                    assert(next[i] == edges[i]);
                    if (next[i].s == next[j].s && next[i].d == next[j].d) || (next[i].s
                        == next[j].d && next[i].d == next[j].s) {
                        assert(has_pair(edges, src, c.note));
                    }
                } else {
                    assert(next[i] == edges[i] && next[j] == edges[j]);
                }
            }
            assert(Candidate { note: c.note, key: c.key } == c);
            assert forall|i: int| 0 <= i < next.len() implies {
                &&& (#[trigger] next[i]).s < cands.len()
                &&& cands[next[i].s as int].contains(Candidate { note: next[i].d, key: next[i].key })
            } by {
                if i < edges.len() {
                    assert(next[i] == edges[i]);
                } else {
                    assert(nbrs[0] == c);
                }
            }
            if ns {
                assert forall|i: int| 0 <= i < next.len() implies (#[trigger] next[i]).s
                    != next[i].d by {
                    if i < edges.len() {
                        assert(next[i] == edges[i]);
                    } else {
                        assert(nbrs[0] == c);
                    }
                }
            }
        }
        assert forall|j: int| 0 <= j < nbrs.drop_first().len() implies cands[src as int].contains(
            #[trigger] nbrs.drop_first()[j],
        ) by {
            assert(nbrs.drop_first()[j] == nbrs[j + 1]);
        }
        if ns {
            assert forall|j: int| 0 <= j < nbrs.drop_first().len() implies (
            #[trigger] nbrs.drop_first()[j]).note != src by {
                assert(nbrs.drop_first()[j] == nbrs[j + 1]);
            }
        }
        lemma_add_neighbours(next, src, nbrs.drop_first(), cands, ns);
    }
}

proof fn lemma_edges_upto(cands: Seq<Seq<Candidate>>, k: nat, n: int)
    requires
        0 <= n <= cands.len(),
        cands.len() <= usize::MAX,
    ensures
        pairs_distinct(edges_upto(cands, k, n)),
        edges_from_candidates(edges_upto(cands, k, n), cands),
        no_self_candidates(cands) ==> no_loops(edges_upto(cands, k, n)),
    decreases n,
{
    if n > 0 {
        lemma_edges_upto(cands, k, n - 1);
        let ns = no_self_candidates(cands);
        let src = (n - 1) as usize;
        let list = cands[n - 1];
        let sorted = sort_by_key_desc(list);
        lemma_sort_by_key_desc(list);
        let top = sorted.take(if k < sorted.len() { k as int } else { sorted.len() as int });
        sorted.to_multiset_ensures();
        list.to_multiset_ensures();
        assert forall|j: int| 0 <= j < top.len() implies list.contains(#[trigger] top[j]) by {
            assert(top[j] == sorted[j]);
            assert(sorted.contains(sorted[j]));
            assert(sorted.to_multiset().count(sorted[j]) > 0);
            assert(list.to_multiset().count(sorted[j]) > 0);
        }
        if ns {
            assert forall|j: int| 0 <= j < top.len() implies (#[trigger] top[j]).note != src by {
                let x = top[j];
                assert(list.contains(x));
                let m = choose|m: int| 0 <= m < list.len() && list[m] == x;
                assert(cands[n - 1][m].note != n - 1);
            }
        }
        lemma_add_neighbours(edges_upto(cands, k, n - 1), src, top, cands, ns);
    }
}

/// Law: the semantic edges never hold an undirected pair twice, and every
/// edge joins a note to one of its own candidates; when no candidate list
/// names its own note, no edge is a loop.
pub proof fn lemma_semantic_edges(cands: Seq<Seq<Candidate>>, k: nat)
    requires
        cands.len() <= usize::MAX,
    ensures
        pairs_distinct(semantic_edge_refs(cands, k)),
        edges_from_candidates(semantic_edge_refs(cands, k), cands),
        no_self_candidates(cands) ==> no_loops(semantic_edge_refs(cands, k)),
{
    lemma_edges_upto(cands, k, cands.len() as int);
}

/// Whether `{a, b}` is the pair of note `src` and one of `nbrs`.
pub open spec fn pair_with_neighbour(src: usize, nbrs: Seq<Candidate>, a: usize, b: usize) -> bool {
    exists|j: int|
        0 <= j < nbrs.len() && ((a == src && b == (#[trigger] nbrs[j]).note) || (b == src && a
            == nbrs[j].note))
}

proof fn lemma_add_neighbours_pairs(
    edges: Seq<EdgeRef>,
    src: usize,
    nbrs: Seq<Candidate>,
    a: usize,
    b: usize,
)
    ensures
        has_pair(add_neighbours(edges, src, nbrs), a, b) == (has_pair(edges, a, b)
            || pair_with_neighbour(src, nbrs, a, b)),
    decreases nbrs.len(),
{
    if nbrs.len() > 0 {
        let c = nbrs[0];
        let e = EdgeRef { s: src, d: c.note, key: c.key };
        let next = if has_pair(edges, src, c.note) {
            edges
        } else {
            edges.push(e)
        };
        let rest = nbrs.drop_first();
        lemma_add_neighbours_pairs(next, src, rest, a, b);
        let hit0 = (a == src && b == c.note) || (b == src && a == c.note);
        // the pair of the first neighbour is present after it is handled
        if has_pair(edges, src, c.note) {
            if hit0 {
                let i = choose|i: int|
                    0 <= i < edges.len() && ((edges[i].s == src && edges[i].d == c.note) || (
                    edges[i].s == c.note && edges[i].d == src));
                assert(0 <= i < edges.len() && ((edges[i].s == a && edges[i].d == b) || (edges[i].s
                    == b && edges[i].d == a)));
            }
        } else {
            if has_pair(edges, a, b) {
                let i = choose|i: int|
                    0 <= i < edges.len() && ((edges[i].s == a && edges[i].d == b) || (edges[i].s
                        == b && edges[i].d == a));
                assert(next[i] == edges[i]);
            }
            if hit0 {
                assert(next[edges.len() as int] == e);
            }
            if has_pair(next, a, b) && !hit0 {
                let i = choose|i: int|
                    0 <= i < next.len() && ((next[i].s == a && next[i].d == b) || (next[i].s == b
                        && next[i].d == a));
                assert(i < edges.len());
                assert(next[i] == edges[i]);
            }
        }
        if pair_with_neighbour(src, rest, a, b) {
            let j = choose|j: int|
                0 <= j < rest.len() && ((a == src && b == (#[trigger] rest[j]).note) || (b == src
                    && a == rest[j].note));
            assert(nbrs[j + 1] == rest[j]);
        }
        if pair_with_neighbour(src, nbrs, a, b) && !hit0 {
            let j = choose|j: int|
                0 <= j < nbrs.len() && ((a == src && b == (#[trigger] nbrs[j]).note) || (b == src
                    && a == nbrs[j].note));
            assert(j > 0);
            assert(rest[j - 1] == nbrs[j]);
        }
        if hit0 {
            assert(nbrs[0] == c);
        }
    }
}

proof fn lemma_edges_upto_grow(cands: Seq<Seq<Candidate>>, k1: nat, k2: nat, n: int, a: usize, b: usize)
    requires
        k1 <= k2,
        0 <= n <= cands.len(),
        cands.len() <= usize::MAX,
        has_pair(edges_upto(cands, k1, n), a, b),
    ensures
        has_pair(edges_upto(cands, k2, n), a, b),
    decreases n,
{
    if n > 0 {
        let src = (n - 1) as usize;
        let sorted = sort_by_key_desc(cands[n - 1]);
        let t1 = sorted.take(if k1 < sorted.len() { k1 as int } else { sorted.len() as int });
        let t2 = sorted.take(if k2 < sorted.len() { k2 as int } else { sorted.len() as int });
        lemma_add_neighbours_pairs(edges_upto(cands, k1, n - 1), src, t1, a, b);
        lemma_add_neighbours_pairs(edges_upto(cands, k2, n - 1), src, t2, a, b);
        if has_pair(edges_upto(cands, k1, n - 1), a, b) {
            lemma_edges_upto_grow(cands, k1, k2, n - 1, a, b);
        } else {
            let j = choose|j: int|
                0 <= j < t1.len() && ((a == src && b == (#[trigger] t1[j]).note) || (b == src && a
                    == t1[j].note));
            assert(t2[j] == t1[j]);
        }
    }
}

/// Law: allowing more neighbours per note only adds edges: every pair that
/// is an edge for `k1` neighbours is one for `k2 >= k1`.
pub proof fn lemma_semantic_edges_grow(cands: Seq<Seq<Candidate>>, k1: nat, k2: nat, a: usize, b: usize)
    requires
        cands.len() <= usize::MAX,
        k1 <= k2,
        has_pair(semantic_edge_refs(cands, k1), a, b),
    ensures
        has_pair(semantic_edge_refs(cands, k2), a, b),
{
    lemma_edges_upto_grow(cands, k1, k2, cands.len() as int, a, b);
}

/// The candidates whose key is at least `t`, in order.
pub open spec fn kept(s: Seq<Candidate>, t: u32) -> Seq<Candidate>
    decreases s.len(),
{
    if s.len() == 0 {
        Seq::empty()
    } else {
        let r = kept(s.drop_last(), t);
        if s.last().key >= t {
            r.push(s.last())
        } else {
            r
        }
    }
}

/// The candidate lists of all notes, each cut to the keys of at least `t`.
pub open spec fn kept_lists(cands: Seq<Seq<Candidate>>, t: u32) -> Seq<Seq<Candidate>> {
    Seq::new(cands.len(), |i: int| kept(cands[i], t))
}

/// Whether `prefix` is the part of `sorted` with keys of at least `t`.
pub open spec fn split_at_key(sorted: Seq<Candidate>, prefix: Seq<Candidate>, t: u32) -> bool {
    &&& prefix.len() <= sorted.len()
    &&& prefix == sorted.take(prefix.len() as int)
    &&& forall|i: int| 0 <= i < prefix.len() ==> sorted[i].key >= t
    &&& forall|i: int| prefix.len() <= i < sorted.len() ==> sorted[i].key < t
}

proof fn lemma_insert_position_prefix(s: Seq<Candidate>, c: int, key: u32, i: int)
    requires
        0 <= i <= c <= s.len(),
        insert_position(s, key, i) <= c,
    ensures
        insert_position(s.take(c), key, i) == insert_position(s, key, i),
    decreases c - i,
{
    lemma_insert_position(s, key, i);
    if i < c && s[i].key >= key {
        assert(s.take(c)[i] == s[i]);
        lemma_insert_position_prefix(s, c, key, i + 1);
    } else if i < c {
        assert(s.take(c)[i] == s[i]);
    }
}

/// Sorting the candidates with keys of at least `t` gives the front of the
/// sorted candidates, up to the first key below `t`.
proof fn lemma_sort_kept(s: Seq<Candidate>, t: u32)
    ensures
        split_at_key(sort_by_key_desc(s), sort_by_key_desc(kept(s, t)), t),
    decreases s.len(),
{
    if s.len() == 0 {
        assert(sort_by_key_desc(s).take(0) =~= Seq::<Candidate>::empty());
    } else {
        let s1 = s.drop_last();
        let x = s.last();
        lemma_sort_kept(s1, t);
        lemma_sort_by_key_desc(s1);
        let big = sort_by_key_desc(s1);
        let small = sort_by_key_desc(kept(s1, t));
        let c = small.len() as int;
        let p = insert_position(big, x.key, 0);
        lemma_insert_position(big, x.key, 0);
        let nb = big.insert(p, x);
        assert(sort_by_key_desc(s) == nb);
        if x.key >= t {
            assert(kept(s, t) == kept(s1, t).push(x));
            assert(kept(s, t).drop_last() =~= kept(s1, t));
            if p > c {
                assert(big[c].key >= x.key);
            }
            lemma_insert_position_prefix(big, c, x.key, 0);
            assert(small =~= big.take(c));
            let ns = small.insert(p, x);
            assert(sort_by_key_desc(kept(s, t)) == ns);
            assert(ns =~= nb.take(c + 1));
            assert forall|i: int| 0 <= i < ns.len() implies nb[i].key >= t by {
                if i < p {
                    assert(nb[i] == big[i]);
                } else if i > p {
                    assert(nb[i] == big[i - 1]);
                }
            }
            assert forall|i: int| ns.len() <= i < nb.len() implies nb[i].key < t by {
                assert(nb[i] == big[i - 1]);
            }
        } else {
            assert(kept(s, t) == kept(s1, t));
            if p < c {
                assert(big[p].key < x.key);
            }
            assert(nb.take(c) =~= big.take(c));
            assert forall|i: int| c <= i < nb.len() implies nb[i].key < t by {
                if i < p {
                    assert(nb[i] == big[i]);
                } else if i > p {
                    assert(nb[i] == big[i - 1]);
                }
            }
            assert forall|i: int| 0 <= i < c implies nb[i].key >= t by {
                assert(nb[i] == big[i]);
            }
        }
    }
}

/// The neighbours note `m` is joined to.
pub open spec fn top_neighbours(cands: Seq<Seq<Candidate>>, k: nat, m: int) -> Seq<Candidate> {
    let sorted = sort_by_key_desc(cands[m]);
    sorted.take(if k < sorted.len() { k as int } else { sorted.len() as int })
}

proof fn lemma_edges_upto_prefix(
    c1: Seq<Seq<Candidate>>,
    k1: nat,
    c2: Seq<Seq<Candidate>>,
    k2: nat,
    n: int,
    a: usize,
    b: usize,
)
    requires
        0 <= n <= c1.len(),
        c1.len() == c2.len() <= usize::MAX,
        forall|m: int|
            0 <= m < c1.len() ==> top_neighbours(c1, k1, m).len() <= top_neighbours(c2, k2, m).len()
                && #[trigger] top_neighbours(c1, k1, m) == top_neighbours(c2, k2, m).take(
                top_neighbours(c1, k1, m).len() as int,
            ),
        has_pair(edges_upto(c1, k1, n), a, b),
    ensures
        has_pair(edges_upto(c2, k2, n), a, b),
    decreases n,
{
    if n > 0 {
        let src = (n - 1) as usize;
        let t1 = top_neighbours(c1, k1, n - 1);
        let t2 = top_neighbours(c2, k2, n - 1);
        lemma_add_neighbours_pairs(edges_upto(c1, k1, n - 1), src, t1, a, b);
        lemma_add_neighbours_pairs(edges_upto(c2, k2, n - 1), src, t2, a, b);
        if has_pair(edges_upto(c1, k1, n - 1), a, b) {
            lemma_edges_upto_prefix(c1, k1, c2, k2, n - 1, a, b);
        } else {
            let j = choose|j: int|
                0 <= j < t1.len() && ((a == src && b == (#[trigger] t1[j]).note) || (b == src && a
                    == t1[j].note));
            assert(t1[j] == t2.take(t1.len() as int)[j]);
            assert(t2[j] == t1[j]);
        }
    }
}

/// Law: a lower key threshold `t2 <= t1` and more neighbours `k2 >= k1` only
/// add edges: every pair that is an edge when each note keeps its `k1`
/// closest candidates with keys of at least `t1` (what
/// [`semantic_edges_above`] gives for `k1` and `t1`) is one for `k2` and `t2`.
pub proof fn lemma_semantic_edges_threshold(
    cands: Seq<Seq<Candidate>>,
    k1: nat,
    t1: u32,
    k2: nat,
    t2: u32,
    a: usize,
    b: usize,
)
    requires
        cands.len() <= usize::MAX,
        k1 <= k2,
        t2 <= t1,
        has_pair(semantic_edge_refs(kept_lists(cands, t1), k1), a, b),
    ensures
        has_pair(semantic_edge_refs(kept_lists(cands, t2), k2), a, b),
{
    let c1 = kept_lists(cands, t1);
    let c2 = kept_lists(cands, t2);
    assert forall|m: int| 0 <= m < c1.len() implies top_neighbours(c1, k1, m).len()
        <= top_neighbours(c2, k2, m).len() && #[trigger] top_neighbours(c1, k1, m)
        == top_neighbours(c2, k2, m).take(top_neighbours(c1, k1, m).len() as int) by {
        let l = cands[m];
        lemma_sort_kept(l, t1);
        lemma_sort_kept(l, t2);
        let big = sort_by_key_desc(l);
        let s1 = sort_by_key_desc(kept(l, t1));
        let s2 = sort_by_key_desc(kept(l, t2));
        if s1.len() > s2.len() {
            assert(big[s2.len() as int].key >= t1);
            assert(big[s2.len() as int].key < t2);
        }
        let n1 = if k1 < s1.len() { k1 as int } else { s1.len() as int };
        let n2 = if k2 < s2.len() { k2 as int } else { s2.len() as int };
        assert(c1[m] == kept(l, t1));
        assert(c2[m] == kept(l, t2));
        assert(s1.take(n1) =~= s2.take(n2).take(n1));
    }
    lemma_edges_upto_prefix(c1, k1, c2, k2, c1.len() as int, a, b);
}

/// The candidates with keys of at least `t`, in order.
fn keep_list(s: &Vec<Candidate>, t: u32) -> (r: Vec<Candidate>)
    ensures
        r@ == kept(s@, t),
{
    let mut r: Vec<Candidate> = Vec::new();
    for i in 0..s.len()
        invariant
            r@ == kept(s@.take(i as int), t),
    {
        assert(s@.take(i + 1).drop_last() =~= s@.take(i as int));
        assert(s@.take(i + 1).last() == s@[i as int]);
        if s[i].key >= t {
            r.push(s[i]);
        }
    }
    assert(s@.take(s.len() as int) =~= s@);
    r
}

/// The semantic edges when each note keeps only the candidates with keys of
/// at least `t` (a key that orders like the similarity threshold).
pub fn semantic_edges_above(cands: &Vec<Vec<Candidate>>, k: usize, t: u32) -> (r: Vec<EdgeRef>)
    ensures
        r@ == semantic_edge_refs(kept_lists(candidate_lists(cands@), t), k as nat),
{
    let mut kept_cands: Vec<Vec<Candidate>> = Vec::new();
    for i in 0..cands.len()
        invariant
            kept_cands.len() == i,
            forall|j: int| 0 <= j < i ==> (#[trigger] kept_cands@[j])@ == kept(cands@[j]@, t),
    {
        kept_cands.push(keep_list(&cands[i], t));
    }
    assert(candidate_lists(kept_cands@) =~= kept_lists(candidate_lists(cands@), t));
    semantic_edges(&kept_cands, k)
}

} // verus!
