use commonplace::chunking::chunk;
use commonplace::links::extract_links;
use commonplace::sql::esc;

#[test]
fn extract_links_finds_targets_dedups_and_skips_fences() {
    let t = "See [[Alpha]] and [[ Beta Note ]].\n\n\
             ```\n[[NotALink]]\n```\n\
             More [[Gamma]] then [[Alpha]] again.";
    let ls = extract_links(t);
    assert_eq!(ls, vec!["Alpha", "Beta Note", "Gamma"]); // order preserved, deduped
    assert!(!ls.iter().any(|x| x == "NotALink")); // inside a code fence
}

#[test]
fn extract_links_handles_no_links_and_multibyte() {
    assert!(extract_links("plain note, no links — café ☕").is_empty());
    // a multibyte char right before a link must not panic on slicing
    assert_eq!(extract_links("café [[Idée]]"), vec!["Idée"]);
}

#[test]
fn esc_doubles_single_quotes() {
    // SQL-string escaping for the index filters.
    assert_eq!(esc("plain"), "plain");
    assert_eq!(esc("a'b"), "a''b");
    // an injection attempt stays inert: quotes are doubled, so it can't
    // break out of the string literal.
    assert_eq!(esc("' OR 1=1; --"), "'' OR 1=1; --");
    assert_eq!(esc(r"C:\notes\a'b.md"), r"C:\notes\a''b.md");
}

#[test]
fn chunk_skips_tiny_and_caps_size() {
    assert!(chunk("").is_empty());
    assert!(chunk("short line").is_empty()); // < 30 chars -> dropped
    let para = "word ".repeat(400); // ~2000 chars, single paragraph
    let cs = chunk(&para);
    assert!(cs.len() > 1, "huge paragraph should split");
    for c in &cs {
        assert!(c.len() <= 900, "chunk exceeds cap: {}", c.len());
    }
}

#[test]
fn chunk_handles_multibyte_without_panic() {
    // long run of 2-byte chars; slicing must not panic and stays valid UTF-8
    let para = "é".repeat(900); // 1800 bytes
    let cs = chunk(&para);
    assert!(!cs.is_empty());
    for c in &cs {
        assert!(c.chars().all(|ch| ch == 'é' || ch == '\u{FFFD}'));
    }
}

#[test]
fn chunk_separates_paragraphs() {
    let text = "First paragraph that is definitely long enough to keep.\n\nSecond paragraph also clearly long enough to be kept.";
    let cs = chunk(text);
    assert_eq!(cs.len(), 2);
}

#[test]
fn chunk_window_starting_inside_a_character_is_decoded_lossily() {
    let para = format!("a{}", "€".repeat(400)); // 1201 bytes
    let cs = chunk(&para);
    assert_eq!(cs.len(), 2);
    // the first window is stretched to the character boundary after 900 bytes
    assert_eq!(cs[0], format!("a{}", "€".repeat(300)));
    // the second starts at byte 800, inside a character
    assert!(cs[1].starts_with('\u{FFFD}'));
    assert!(cs[1].ends_with("€€€"));
}

#[test]
fn chunks_are_pieces_of_the_note() {
    let text = format!("intro paragraph that is long enough to keep\n\n{}", "aé€😀".repeat(200));
    for c in chunk(&text) {
        assert!(!c.is_empty());
        assert!(text.contains(c.trim_start_matches('\u{FFFD}')));
        assert!(c.chars().count() <= 900);
    }
}
