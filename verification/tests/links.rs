use commonplace::chunking::chunk;
use commonplace::links::extract_links;
use commonplace::sql::{esc, note_rows_filter, other_notes_filter, vault_filter};

#[test]
fn links_skip_unclosed_and_stray_brackets() {
    assert_eq!(extract_links("[[a [b]] then [[c]]"), vec!["c"]);
    assert_eq!(extract_links("[[open but never closed"), Vec::<String>::new());
    assert_eq!(extract_links("[[]] and [[   ]] and [[x]]"), vec!["x"]);
    assert_eq!(extract_links("[[a]][[b]]"), vec!["a", "b"]);
    // the fence marker may be indented, and a fence line itself has no links
    assert_eq!(extract_links("  ``` [[in fence line]]\n[[hidden]]\n```\n[[seen]]"), vec!["seen"]);
    // a carriage return before the line feed does not matter
    assert_eq!(extract_links("[[a]]\r\n```\r\n[[b]]\r\n```\r\n[[c]]"), vec!["a", "c"]);
}

#[test]
fn links_law_on_values() {
    let text = "[[ A ]] [[A]] [[b [x]]] [[\u{a0}c\u{3000}]] [[A]]\n[[d]]";
    let ls = extract_links(text);
    assert_eq!(ls, vec!["A", "c", "d"]);
    for (i, l) in ls.iter().enumerate() {
        assert!(!l.is_empty());
        assert!(!l.contains('['));
        assert_eq!(l.trim(), l);
        assert!(!ls[..i].contains(l));
    }
}

#[test]
fn esc_law_on_values() {
    for s in ["", "'", "''", "a'b'c", "'''x", "no quotes"] {
        let e = esc(s);
        // every run of quotes has even length, and undoubling gives s back
        let mut run = 0;
        for ch in e.chars().chain(std::iter::once('x')) {
            if ch == '\'' {
                run += 1;
            } else {
                assert_eq!(run % 2, 0);
                run = 0;
            }
        }
        assert_eq!(e.replace("''", "'"), s);
    }
}

#[test]
fn filters_quote_their_values() {
    assert_eq!(vault_filter("/v"), "vault = '/v'");
    assert_eq!(vault_filter("it's"), "vault = 'it''s'");
    assert_eq!(note_rows_filter("/v", "/v/a'b.md"), "vault = '/v' AND path = '/v/a''b.md'");
    assert_eq!(other_notes_filter("/v", "/v/a.md"), "vault = '/v' AND path <> '/v/a.md'");
}

#[test]
fn chunk_windows_overlap_and_trim() {
    let para = "x".repeat(1700);
    let cs = chunk(&format!("  {para}  \n\n{}", "y".repeat(31)));
    // windows start every 800 bytes and span 900
    assert_eq!(cs.len(), 4);
    assert_eq!(cs[0].len(), 900);
    assert_eq!(cs[1].len(), 900);
    assert_eq!(cs[2].len(), 100);
    assert_eq!(cs[3], "y".repeat(31));
    // exactly 30 characters is dropped, 31 kept
    assert!(chunk(&"z".repeat(30)).is_empty());
    assert_eq!(chunk(&"z".repeat(31)).len(), 1);
    // a paragraph of exactly 900 bytes is kept whole
    assert_eq!(chunk(&"q".repeat(900)), vec!["q".repeat(900)]);
}

#[test]
fn chunk_law_on_ascii_values() {
    let text = format!("{}\n\n{}\n\n\n\n{}", "a ".repeat(700), "short", "b".repeat(2401));
    for c in chunk(&text) {
        assert!(!c.is_empty() && c.chars().count() <= 900);
    }
}

#[test]
fn chunk_stretches_window_to_char_boundary() {
    // 899 ASCII bytes then a 3-byte character: the first window ends after it
    let text = format!("{}€{}", "a".repeat(899), "b".repeat(200));
    let cs = chunk(&text);
    assert_eq!(cs[0], format!("{}€", "a".repeat(899)));
    assert_eq!(cs[0].len(), 902);
}

#[test]
fn fenced_blocks_add_no_links_and_texts_join() {
    let s = "see [[A]] and [[B]]\nmore [[A]]";
    assert!(extract_links(&format!("```\n{s}\n```")).is_empty());
    assert_eq!(extract_links(&format!("  ```rust\n{s}\n```\n{s}")), extract_links(s));
    let a = "[[X]] [[A]]\n```\n[[hidden]]\n```";
    let b = "[[A]] [[Y]]";
    let mut want = extract_links(a);
    for l in extract_links(b) {
        if !want.contains(&l) {
            want.push(l);
        }
    }
    assert_eq!(extract_links(&format!("{a}\n{b}")), want);
}

#[test]
fn fences_and_joins_ignore_carriage_returns() {
    let s = "see [[A]]\r\nmore [[B]]\r";
    assert!(extract_links(&format!("```\n{s}\n```")).is_empty());
    assert_eq!(extract_links(&format!("```\r\n{s}\n```\r\n{s}")), extract_links(s));
    assert_eq!(extract_links("[[A]]\r\n[[B]]"), vec!["A", "B"]);
}
