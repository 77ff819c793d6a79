use commonplace::sync::{index_steps, IndexStep};
use commonplace::sync::{indexing_status, manifest_with, plan_sync, read_manifest_stamps, vault_stamps, FileStamp, VaultStamps};

fn st(path: &str, mtime: i64) -> FileStamp {
    FileStamp { path: path.to_string(), mtime }
}

fn next_pairs(next: &[FileStamp]) -> Vec<(String, i64)> {
    let mut v: Vec<(String, i64)> = next.iter().map(|f| (f.path.clone(), f.mtime)).collect();
    v.sort();
    v
}

#[test]
fn sync_embeds_new_and_changed_and_drops_removed() {
    let prev = vec![st("/v/a.md", 10), st("/v/gone.md", 5), st("/v/b.md", 20)];
    let files = vec![st("/v/a.md", 10), st("/v/b.md", 21), st("/v/new.md", 1)];
    let plan = plan_sync(&prev, &files, true);
    assert_eq!(plan.removed, vec!["/v/gone.md"]);
    assert_eq!(plan.embed, vec![1, 2]);
    assert_eq!(next_pairs(&plan.next), vec![
        ("/v/a.md".to_string(), 10),
        ("/v/b.md".to_string(), 21),
        ("/v/new.md".to_string(), 1)
    ]);
}

#[test]
fn sync_without_table_embeds_everything() {
    let prev = vec![st("/v/a.md", 10), st("/v/gone.md", 5)];
    let files = vec![st("/v/a.md", 10), st("/v/b.md", 3)];
    let plan = plan_sync(&prev, &files, false);
    assert!(plan.removed.is_empty());
    assert_eq!(plan.embed, vec![0, 1]);
}

#[test]
fn sync_settles_after_one_run() {
    let prev = vec![st("/v/old.md", 1)];
    let files = vec![st("/v/a.md", 10), st("/v/b.md", 20)];
    let first = plan_sync(&prev, &files, true);
    assert_eq!(first.embed, vec![0, 1]);
    let second = plan_sync(&first.next, &files, true);
    assert!(second.embed.is_empty());
    assert!(second.removed.is_empty());
    assert_eq!(next_pairs(&second.next), next_pairs(&first.next));
}

#[test]
fn sync_manifest_keeps_last_stamp_of_a_path() {
    let files = vec![st("/v/a.md", 1), st("/v/a.md", 2)];
    let plan = plan_sync(&vec![], &files, true);
    assert_eq!(next_pairs(&plan.next), vec![("/v/a.md".to_string(), 2)]);
    assert_eq!(plan.embed, vec![0, 1]);
}

#[test]
fn indexing_status_text() {
    assert_eq!(indexing_status(0, 3), "indexing 1/3…");
    assert_eq!(indexing_status(11, 120), "indexing 12/120…");
}

fn sorted(v: Vec<FileStamp>) -> Vec<(String, i64)> {
    let mut out: Vec<(String, i64)> = v.into_iter().map(|s| (s.path, s.mtime)).collect();
    out.sort();
    out
}

#[test]
fn manifest_reads_the_vault_entry() {
    let text = r#"{"/v":{"/v/a.md":10,"/v/b.md":20},"/w":{"/w/c.md":5}}"#;
    assert_eq!(
        sorted(read_manifest_stamps(text, "/v")),
        vec![("/v/a.md".to_string(), 10), ("/v/b.md".to_string(), 20)]
    );
    assert!(read_manifest_stamps(text, "/x").is_empty());
    assert!(read_manifest_stamps("not json", "/v").is_empty());
    assert!(read_manifest_stamps("", "/v").is_empty());
}

#[test]
fn manifest_with_replaces_one_vault() {
    let text = r#"{"/v":{"/v/a.md":10},"/w":{"/w/c.md":5}}"#;
    let next = vec![FileStamp { path: "/v/b.md".to_string(), mtime: 7 }];
    let out = manifest_with(text, "/v", &next);
    assert_eq!(sorted(read_manifest_stamps(&out, "/v")), vec![("/v/b.md".to_string(), 7)]);
    assert_eq!(sorted(read_manifest_stamps(&out, "/w")), vec![("/w/c.md".to_string(), 5)]);
    // a broken manifest is replaced by the one vault's entry
    let fresh = manifest_with("{", "/v", &next);
    assert_eq!(sorted(read_manifest_stamps(&fresh, "/v")), vec![("/v/b.md".to_string(), 7)]);
    assert!(read_manifest_stamps(&fresh, "/w").is_empty());
}

#[test]
fn vault_stamps_takes_the_last_entry_of_the_vault() {
    let m = vec![
        VaultStamps { dir: "/v".to_string(), stamps: vec![st("/v/a.md", 1)] },
        VaultStamps { dir: "/w".to_string(), stamps: vec![st("/w/b.md", 2)] },
        VaultStamps { dir: "/v".to_string(), stamps: vec![st("/v/c.md", 3)] },
    ];
    assert_eq!(sorted(vault_stamps(&m, "/v")), vec![("/v/c.md".to_string(), 3)]);
    assert_eq!(sorted(vault_stamps(&m, "/w")), vec![("/w/b.md".to_string(), 2)]);
    assert!(vault_stamps(&m, "/x").is_empty());
}

#[test]
fn index_steps_save_the_manifest_last() {
    let prev = vec![st("/v/gone.md", 1), st("/v/a.md", 5)];
    let files = vec![st("/v/a.md", 6), st("/v/b.md", 1)];
    let plan = plan_sync(&prev, &files, true);
    let steps = index_steps(&plan);
    assert_eq!(steps.len(), 5);
    assert!(matches!(&steps[0], IndexStep::Remove { path } if path == "/v/gone.md"));
    assert!(matches!(steps[1], IndexStep::Embed { position: 0 }));
    assert!(matches!(steps[2], IndexStep::Embed { position: 1 }));
    assert!(matches!(steps[3], IndexStep::Store));
    assert!(matches!(steps[4], IndexStep::SaveManifest));
}
