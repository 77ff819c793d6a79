use commonplace::vault::{
    confine, create_check, is_hidden, is_markdown, normalize_rel, note_file_name, note_read_check,
    note_seed, notes_listing, path_within, sort_by_keys, sort_entries, touches_markdown, trimmed,
    with_md_extension, FileEntry,
};

fn comps(p: &str) -> Vec<Vec<u8>> {
    p.split('/').filter(|c| !c.is_empty()).map(|c| c.as_bytes().to_vec()).collect()
}

fn entry(rel: &str) -> FileEntry {
    FileEntry { path: format!("/v/{rel}"), name: rel.rsplit('/').next().unwrap().to_string(), rel: rel.to_string() }
}

#[test]
fn confine_refuses_when_no_vault_open() {
    // even an absolute system path is refused when no vault is open
    let p = comps("C:/Windows/System32/drivers/etc/hosts");
    assert!(confine(None, Ok(&p)).is_err());
    assert_eq!(confine(None, Ok(&p)).unwrap_err(), "no vault is open");
}

#[test]
fn confine_decides_by_whole_components() {
    let root = comps("/tmp/base/vault");
    // a note inside the vault is allowed
    assert!(confine(Some(&root), Ok(&comps("/tmp/base/vault/note.md"))).is_ok());
    // a sibling outside the vault is refused
    assert_eq!(
        confine(Some(&root), Ok(&comps("/tmp/base/secret.txt"))).unwrap_err(),
        "refused: path is outside the open vault"
    );
    // a traversal canonicalizes above the vault and is refused
    assert!(confine(Some(&root), Ok(&comps("/tmp/base/secret.txt"))).is_err());
    // a name that merely starts like the root is not inside it
    assert!(confine(Some(&root), Ok(&comps("/tmp/base/vault2/x.md"))).is_err());
    // a canonicalize failure is passed on
    assert_eq!(confine(Some(&root), Err("No such file")).unwrap_err(), "No such file");
    assert!(path_within(&root, &root));
}

#[test]
fn confine_compares_raw_component_bytes() {
    // components that are not UTF-8 and differ are not confused
    let root = vec![b"tmp".to_vec(), vec![0xff]];
    let inside = vec![b"tmp".to_vec(), vec![0xff], b"n.md".to_vec()];
    let other = vec![b"tmp".to_vec(), vec![0xfe], b"n.md".to_vec()];
    assert!(confine(Some(&root), Ok(&inside)).is_ok());
    assert!(confine(Some(&root), Ok(&other)).is_err());
}

#[test]
fn note_read_check_refuses_outside() {
    let root = comps("/v");
    assert!(note_read_check(&root, &comps("/v/a/b.md")).is_ok());
    assert_eq!(note_read_check(&root, &comps("/etc/passwd")).unwrap_err(), "refused: path is outside the vault");
}

#[test]
fn note_names_get_md_and_titles() {
    assert_eq!(note_file_name(Some("ideas")).unwrap(), "ideas.md");
    assert_eq!(note_file_name(Some("ideas.md")).unwrap(), "ideas.md");
    assert_eq!(note_file_name(Some("IDEAS.MD")).unwrap(), "IDEAS.MD");
    assert_eq!(note_file_name(Some("escape")).unwrap(), "escape.md");
    assert_eq!(note_file_name(None).unwrap_err(), "invalid name");
    assert_eq!(note_file_name(Some("")).unwrap_err(), "name is empty");
    assert_eq!(trimmed("   "), "");
    assert_eq!(trimmed("  ideas \t"), "ideas");
    assert_eq!(note_seed("ideas.md"), "# ideas\n\n");
    assert_eq!(note_seed("IDEAS.MD"), "# IDEAS.MD\n\n");
}

#[test]
fn create_check_order() {
    assert_eq!(create_check(false, true).unwrap_err(), "refused: path is outside the open vault");
    assert_eq!(create_check(true, true).unwrap_err(), "a note with that name already exists");
    assert!(create_check(true, false).is_ok());
}

#[test]
fn note_files_are_visible_markdown() {
    assert!(is_hidden(".git"));
    assert!(is_hidden(".obsidian"));
    assert!(!is_hidden("notes"));
    assert!(!is_hidden(""));
    assert!(is_markdown(Some("md")));
    assert!(is_markdown(Some("MD")));
    assert!(is_markdown(Some("mD")));
    assert!(!is_markdown(Some("markdown")));
    assert!(!is_markdown(Some("txt")));
    assert!(!is_markdown(None));
    assert_eq!(normalize_rel(r"notes\sub\ideas.md"), "notes/sub/ideas.md");
    assert_eq!(normalize_rel("a/b.md"), "a/b.md");
}

#[test]
fn watch_events_touching_notes() {
    assert!(touches_markdown(&vec![None, Some("txt".to_string()), Some("Md".to_string())]));
    assert!(!touches_markdown(&vec![None, Some("txt".to_string())]));
    assert!(!touches_markdown(&vec![]));
}

#[test]
fn entries_sort_by_lowercase_rel_stably() {
    let es = vec![entry("b.md"), entry("A.md"), entry("a.md"), entry("notes/C.md"), entry("Notes/b.md")];
    let sorted = sort_entries(&es);
    let rels: Vec<&str> = sorted.iter().map(|e| e.rel.as_str()).collect();
    // "A.md" and "a.md" have the same key and keep their order
    assert_eq!(rels, vec!["A.md", "a.md", "b.md", "Notes/b.md", "notes/C.md"]);
    assert_eq!(sorted.len(), es.len());
    assert!(sort_entries(&vec![]).is_empty());
}

#[test]
fn notes_listing_text() {
    assert_eq!(notes_listing(&vec![]), "(no notes found in the vault)");
    assert_eq!(notes_listing(&vec!["a.md".to_string(), "x/b.md".to_string()]), "a.md\nx/b.md");
}

#[test]
fn md_extension_follows_the_lowercase_form() {
    assert_eq!(with_md_extension("Plan", "plan"), "Plan.md");
    assert_eq!(with_md_extension("PLAN.MD", "plan.md"), "PLAN.MD");
    assert_eq!(with_md_extension("x.md", "x.txt"), "x.md.md");
}

#[test]
fn sort_by_keys_is_stable() {
    let es = vec![entry("c"), entry("a1"), entry("b"), entry("a2")];
    let keys: Vec<String> = vec!["k2".into(), "k1".into(), "k2".into(), "k1".into()];
    let got: Vec<String> = sort_by_keys(&es, &keys).into_iter().map(|e| e.rel).collect();
    assert_eq!(got, vec!["a1", "a2", "c", "b"]);
}

#[test]
fn new_note_names_are_single_components() {
    assert_eq!(commonplace::vault::new_note_name("ideas").unwrap(), "ideas.md");
    assert_eq!(commonplace::vault::new_note_name("  ideas.md ").unwrap(), "ideas.md");
    assert_eq!(commonplace::vault::new_note_name("../../escape").unwrap(), "escape.md");
    assert!(commonplace::vault::new_note_name("   ").is_err());
    assert!(commonplace::vault::new_note_name("..").is_err());
    assert_eq!(commonplace::vault::new_note_name("..").unwrap_err(), "invalid name");
    assert_eq!(commonplace::vault::new_note_name("   ").unwrap_err(), "invalid name");
    assert_eq!(commonplace::vault::new_note_name("notes/../..").unwrap_err(), "invalid name");
    assert_eq!(commonplace::vault::new_note_name("a/b/Plan.MD").unwrap(), "Plan.MD");
}
