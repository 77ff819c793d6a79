use commonplace::hits::{format_hits, read_hits, vault_links, Hit, NoteText};

fn hit(path: &str, text: &str) -> Hit {
    Hit { path: path.to_string(), name: format!("{path}.md"), rel: format!("n/{path}.md"), text: text.to_string() }
}

fn paths(hs: &[Hit]) -> Vec<&str> {
    hs.iter().map(|h| h.path.as_str()).collect()
}

#[test]
fn read_hits_keeps_best_passage_per_note() {
    let rows = vec![hit("a", "a1"), hit("b", "b1"), hit("a", "a2"), hit("c", "c1"), hit("b", "b2")];
    let got = read_hits(&rows, None, 10);
    assert_eq!(paths(&got), vec!["a", "b", "c"]);
    assert_eq!(got[0].text, "a1");
}

#[test]
fn read_hits_excludes_and_caps() {
    let rows = vec![hit("a", "a1"), hit("b", "b1"), hit("a", "a2"), hit("c", "c1"), hit("d", "d1")];
    assert_eq!(paths(&read_hits(&rows, Some("a"), 2)), vec!["b", "c"]);
    assert_eq!(paths(&read_hits(&rows, None, 2)), vec!["a", "b"]);
    // a limit of zero gives no hits
    assert!(read_hits(&rows, None, 0).is_empty());
    assert!(read_hits(&vec![], None, 0).is_empty());
    assert!(read_hits(&vec![hit("a", "x")], Some("a"), 3).is_empty());
}

#[test]
fn read_hits_law_on_values() {
    let rows = vec![hit("x", "1"), hit("x", "2"), hit("y", "3"), hit("z", "4"), hit("y", "5")];
    for k in 0..6 {
        let got = read_hits(&rows, Some("z"), k);
        let mut ps = paths(&got);
        assert!(got.len() <= k);
        assert!(!ps.contains(&"z"));
        ps.sort();
        ps.dedup();
        assert_eq!(ps.len(), got.len());
    }
}

#[test]
fn format_hits_text() {
    assert_eq!(format_hits(&vec![]), "(no matching notes)");
    assert_eq!(format_hits(&vec![hit("a", "alpha")]), "[n/a.md]\nalpha");
    assert_eq!(
        format_hits(&vec![hit("a", "alpha"), hit("b", "beta")]),
        "[n/a.md]\nalpha\n\n---\n\n[n/b.md]\nbeta"
    );
}

#[test]
fn vault_links_per_note() {
    let notes = vec![
        NoteText { rel: "a.md".to_string(), name: "a.md".to_string(), text: "to [[B]] and [[C]]".to_string() },
        NoteText { rel: "x/b.md".to_string(), name: "b.md".to_string(), text: "none".to_string() },
    ];
    let ls = vault_links(&notes);
    assert_eq!(ls.len(), 2);
    assert_eq!(ls[0].rel, "a.md");
    assert_eq!(ls[0].links, vec!["B", "C"]);
    assert_eq!(ls[1].name, "b.md");
    assert!(ls[1].links.is_empty());
}
