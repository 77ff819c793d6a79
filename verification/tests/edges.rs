use commonplace::edges::{semantic_edges, semantic_edges_above, sort_candidates, Candidate};

fn c(note: usize, key: u32) -> Candidate {
    Candidate { note, key }
}

fn pairs(es: &[commonplace::edges::EdgeRef]) -> Vec<(usize, usize)> {
    es.iter().map(|e| (e.s, e.d)).collect()
}

#[test]
fn candidates_sort_by_key_descending_stably() {
    let sorted = sort_candidates(&vec![c(1, 5), c(2, 9), c(3, 5), c(4, 7), c(5, 9)]);
    let order: Vec<usize> = sorted.iter().map(|x| x.note).collect();
    assert_eq!(order, vec![2, 5, 4, 1, 3]);
}

#[test]
fn edges_take_top_k_and_dedup_undirected() {
    // note 0 is closest to 1 then 2; note 1 to 0 then 2; note 2 to 1 only
    let cands = vec![
        vec![c(1, 90), c(2, 80)],
        vec![c(0, 90), c(2, 85)],
        vec![c(1, 85)],
    ];
    let es = semantic_edges(&cands, 1);
    assert_eq!(pairs(&es), vec![(0, 1), (2, 1)]);
    let es2 = semantic_edges(&cands, 2);
    assert_eq!(pairs(&es2), vec![(0, 1), (0, 2), (1, 2)]);
    assert_eq!(es2[1].key, 80);
    assert!(semantic_edges(&cands, 0).is_empty());
    assert!(semantic_edges(&vec![], 3).is_empty());
}

#[test]
fn edges_law_on_values() {
    let cands = vec![
        vec![c(1, 3), c(2, 3), c(3, 1)],
        vec![c(0, 3), c(3, 2)],
        vec![c(0, 3), c(1, 1), c(3, 4)],
        vec![c(2, 4), c(1, 2), c(0, 1)],
    ];
    let es = semantic_edges(&cands, 2);
    for (i, a) in es.iter().enumerate() {
        assert_ne!(a.s, a.d);
        assert!(cands[a.s].iter().any(|x| x.note == a.d && x.key == a.key));
        for b in &es[..i] {
            assert!(!((a.s == b.s && a.d == b.d) || (a.s == b.d && a.d == b.s)));
        }
    }
}

fn unordered(es: &[commonplace::edges::EdgeRef]) -> Vec<(usize, usize)> {
    let mut v: Vec<(usize, usize)> = es.iter().map(|e| (e.s.min(e.d), e.s.max(e.d))).collect();
    v.sort();
    v
}

#[test]
fn more_neighbours_or_a_lower_threshold_only_add_edges() {
    let cands = vec![
        vec![c(1, 90), c(2, 50), c(3, 70)],
        vec![c(0, 90), c(3, 60)],
        vec![c(0, 50), c(3, 40)],
        vec![c(0, 70), c(1, 60), c(2, 40)],
    ];
    for (k1, t1) in [(1usize, 60u32), (1, 0), (2, 60), (0, 0)] {
        let small = unordered(&semantic_edges_above(&cands, k1, t1));
        for (k2, t2) in [(k1, t1), (k1 + 1, t1), (k1, 40), (3, 0)] {
            if k2 < k1 || t2 > t1 {
                continue;
            }
            let big = unordered(&semantic_edges_above(&cands, k2, t2));
            for p in &small {
                assert!(big.contains(p), "{p:?} missing for k={k2}, t={t2}");
            }
        }
    }
}

#[test]
fn edges_above_a_threshold_drop_weaker_candidates() {
    let cands = vec![
        vec![c(1, 90), c(2, 50), c(3, 70)],
        vec![c(0, 90), c(3, 60)],
        vec![c(0, 50), c(3, 40)],
        vec![c(0, 70), c(1, 60), c(2, 40)],
    ];
    // keys of at least 60: note 2 keeps nothing, so it gets no edge
    let es = semantic_edges_above(&cands, 2, 60);
    assert_eq!(pairs(&es), vec![(0, 1), (0, 3), (1, 3)]);
    // a threshold above every key leaves no edge at all
    assert!(semantic_edges_above(&cands, 3, 91).is_empty());
    // threshold 0 keeps everything: the same as no threshold
    assert_eq!(pairs(&semantic_edges_above(&cands, 2, 0)), pairs(&semantic_edges(&cands, 2)));
}
