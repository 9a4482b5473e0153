use std::collections::{BTreeMap, BTreeSet};

use scp_core::ops::{
    collect_deletes, delete_extraneous_remote, execute_plan, find, plan_sync, plan_sync_opts, plan_transfer, remove_dir_all, CopyRule, Filter, LocalEntry,
    OverwritePolicy, PlanReason, SyncDirection, SyncOptions, TransferItem, TransferPlan, XferEvent,
};
use scp_core::transport::{Progress, Transport};
use scp_core::types::{Entry, Error, Result};

/// In-memory transport: object keys to contents, plus an explicit dir set.
/// Paths in `symlinks` are reported as symlinked directories.
#[derive(Default)]
struct FakeTransport {
    files: BTreeMap<String, Vec<u8>>,
    dirs: BTreeSet<String>,
    symlinks: BTreeSet<String>,
}

fn norm(p: &str) -> String {
    let t = p.trim_end_matches('/');
    if t.is_empty() {
        "/".into()
    } else {
        t.into()
    }
}

impl Transport for FakeTransport {
    fn list_dir(&mut self, path: &str) -> Result<Vec<Entry>> {
        let base = norm(path);
        let prefix = if base == "/" { "/".to_string() } else { format!("{base}/") };
        let mut out = Vec::new();
        for d in &self.dirs {
            if let Some(rest) = d.strip_prefix(&prefix) {
                if !rest.is_empty() && !rest.contains('/') {
                    out.push(Entry {
                        name: rest.into(),
                        is_dir: true,
                        size: 0,
                        mtime: None,
                        perms: None,
                        is_symlink: self.symlinks.contains(d),
                        uid: None,
                        gid: None,
                    });
                }
            }
        }
        for (k, v) in &self.files {
            if let Some(rest) = k.strip_prefix(&prefix) {
                if !rest.is_empty() && !rest.contains('/') {
                    out.push(Entry {
                        name: rest.into(),
                        is_dir: false,
                        size: v.len() as u64,
                        mtime: None,
                        perms: None,
                        is_symlink: false,
                        uid: None,
                        gid: None,
                    });
                }
            }
        }
        Ok(out)
    }

    fn download_progress(&mut self, remote: &str, _local: &str, progress: &mut dyn Progress) -> Result<u64> {
        let key = norm(remote);
        let data = self
            .files
            .get(&key)
            .ok_or_else(|| Error::Protocol(format!("no such file {key}")))?
            .clone();
        if !progress.progress(data.len() as u64, data.len() as u64) {
            return Err(Error::Cancelled);
        }
        Ok(data.len() as u64)
    }

    fn upload_progress(&mut self, _local: &str, remote: &str, progress: &mut dyn Progress) -> Result<u64> {
        if !progress.progress(0, 0) {
            return Err(Error::Cancelled);
        }
        self.files.insert(norm(remote), Vec::new());
        Ok(0)
    }

    fn mkdir(&mut self, path: &str) -> Result<()> {
        self.dirs.insert(norm(path));
        Ok(())
    }

    fn remove_file(&mut self, path: &str) -> Result<()> {
        let key = norm(path);
        if self.files.remove(&key).is_some() {
            return Ok(());
        }
        // Unlinking a symlinked directory removes the link node only.
        if self.symlinks.remove(&key) {
            self.dirs.remove(&key);
            return Ok(());
        }
        Err(Error::Protocol("no such file".into()))
    }

    fn remove_dir(&mut self, path: &str) -> Result<()> {
        self.dirs.remove(&norm(path));
        Ok(())
    }

    fn rename(&mut self, from: &str, to: &str) -> Result<()> {
        let data = self
            .files
            .remove(&norm(from))
            .ok_or_else(|| Error::Protocol("no such file".into()))?;
        self.files.insert(norm(to), data);
        Ok(())
    }
}

/// A server whose listings all fail.
struct Unlistable;

impl Transport for Unlistable {
    fn list_dir(&mut self, _path: &str) -> Result<Vec<Entry>> {
        Err(Error::Protocol("listing refused".into()))
    }

    fn download_progress(&mut self, _remote: &str, _local: &str, _progress: &mut dyn Progress) -> Result<u64> {
        Err(Error::Protocol("refused".into()))
    }

    fn upload_progress(&mut self, _local: &str, _remote: &str, _progress: &mut dyn Progress) -> Result<u64> {
        Err(Error::Protocol("refused".into()))
    }

    fn mkdir(&mut self, _path: &str) -> Result<()> {
        Err(Error::Protocol("refused".into()))
    }

    fn remove_file(&mut self, _path: &str) -> Result<()> {
        Err(Error::Protocol("refused".into()))
    }

    fn remove_dir(&mut self, _path: &str) -> Result<()> {
        Err(Error::Protocol("refused".into()))
    }

    fn rename(&mut self, _from: &str, _to: &str) -> Result<()> {
        Err(Error::Protocol("refused".into()))
    }
}

fn fake_with(files: &[(&str, &str)], dirs: &[&str]) -> FakeTransport {
    let mut t = FakeTransport::default();
    for (k, v) in files {
        t.files.insert(k.to_string(), v.as_bytes().to_vec());
    }
    for d in dirs {
        t.dirs.insert(d.to_string());
    }
    t
}

#[test]
fn remove_dir_all_unlinks_symlinked_dirs_without_recursing() {
    let mut t = fake_with(&[("/d/file", "x"), ("/elsewhere/secret", "s")], &["/d", "/elsewhere"]);
    // /d/link is a symlinked dir; its "target" /elsewhere must survive.
    t.dirs.insert("/d/link".into());
    t.symlinks.insert("/d/link".into());
    remove_dir_all(&mut t, "/d").unwrap();
    assert!(t.files.contains_key("/elsewhere/secret"), "deleted through a symlink!");
    assert!(!t.dirs.contains("/d"));
    assert!(!t.dirs.contains("/d/link"));
}

#[test]
fn remove_dir_all_clears_tree() {
    let mut t = fake_with(&[("/d/1", "x"), ("/d/sub/2", "y")], &["/d", "/d/sub"]);
    remove_dir_all(&mut t, "/d").unwrap();
    assert!(t.files.is_empty());
    assert!(t.dirs.is_empty());
}

#[test]
fn filter_masks_work() {
    let f = Filter::parse("*.tmp; .git/; node_modules/");
    assert!(f.excludes("a.tmp", false));
    assert!(f.excludes("A.TMP", false));
    assert!(!f.excludes("a.tmpx", false));
    assert!(f.excludes(".git", true));
    assert!(!f.excludes(".git", false)); // dir-only pattern
    assert!(f.excludes("node_modules", true));
    assert!(!f.excludes("main.rs", false));
    assert!(!Filter::empty().excludes("anything", true));
}

#[test]
fn find_matches_masks_recursively() {
    let mut t = fake_with(
        &[("/r/a.log", "1"), ("/r/sub/b.log", "2"), ("/r/sub/c.txt", "3")],
        &["/r", "/r/sub"],
    );
    let hits = find(&mut t, "/r", "*.log", 100, &mut || true).unwrap();
    let mut paths: Vec<&str> = hits.iter().map(|(p, _)| p.as_str()).collect();
    paths.sort();
    assert_eq!(paths, ["/r/a.log", "/r/sub/b.log"]);
}

#[test]
fn find_respects_the_limit_and_cancellation() {
    let mut t = fake_with(
        &[("/r/a.log", "1"), ("/r/b.log", "2"), ("/r/sub/c.log", "3")],
        &["/r", "/r/sub"],
    );
    let hits = find(&mut t, "/r", "*.log", 2, &mut || true).unwrap();
    assert_eq!(hits.len(), 2);
    let none = find(&mut t, "/r", "*.log", 100, &mut || false).unwrap();
    assert!(none.is_empty());
}

#[test]
fn find_with_zero_limit_returns_nothing() {
    let mut t = fake_with(&[("/r/a.log", "1")], &["/r"]);
    let hits = find(&mut t, "/missing", "*.log", 0, &mut || true).unwrap();
    assert!(hits.is_empty());
}

#[test]
fn remove_dir_all_leaves_siblings() {
    let mut t = fake_with(&[("/d/1", "x"), ("/dd/2", "y"), ("/e", "z")], &["/d", "/dd"]);
    remove_dir_all(&mut t, "/d").unwrap();
    assert!(t.files.contains_key("/dd/2"));
    assert!(t.files.contains_key("/e"));
    assert!(t.dirs.contains("/dd"));
}

fn file(name: &str, size: u64) -> LocalEntry {
    LocalEntry { name: name.into(), is_dir: false, size, mtime: None, children: Vec::new() }
}

fn dir(name: &str, children: Vec<LocalEntry>) -> LocalEntry {
    LocalEntry { name: name.into(), is_dir: true, size: 0, mtime: None, children }
}

#[test]
fn plan_sync_reports_without_copying_snapshot() {
    // Local: same.txt ("unchanged"), new.txt ("fresh"), sub/inner.txt ("i").
    let local = vec![file("same.txt", 9), file("new.txt", 5), dir("sub", vec![file("inner.txt", 1)])];
    let mut t = fake_with(&[("/r/same.txt", "unchanged")], &["/r"]);
    let before = t.files.clone();
    let plan = plan_sync(&mut t, &local, "/r", SyncDirection::Upload, &Filter::empty()).unwrap();
    assert_eq!(t.files, before, "plan must not copy anything");
    let rels: Vec<&str> = plan.items.iter().map(|i| i.rel.as_str()).collect();
    assert!(rels.contains(&"new.txt"));
    assert!(rels.contains(&"sub/inner.txt"));
    assert!(!rels.contains(&"same.txt"));
    assert!(plan.dirs.contains(&"sub".to_string()));
    assert!(plan.deletes.is_empty());
}

#[test]
fn sync_upload_plan_copies_missing_and_changed_only() {
    let local = vec![file("same.txt", 9), file("bigger.txt", 10), file("new.txt", 5)];
    let mut t = fake_with(&[("/r/same.txt", "unchanged"), ("/r/bigger.txt", "short")], &["/r"]);
    let plan = plan_transfer(&mut t, &local, "/r", SyncDirection::Upload, &Filter::empty(), CopyRule::Sync).unwrap();
    assert_eq!(plan.items.len(), 2);
    assert_eq!(plan.skipped, 1);
    let bigger = plan.items.iter().find(|i| i.rel == "bigger.txt").unwrap();
    assert_eq!(bigger.reason, Some(PlanReason::SizeDiffers));
    assert_eq!(bigger.size, 10);
    let new = plan.items.iter().find(|i| i.rel == "new.txt").unwrap();
    assert_eq!(new.reason, Some(PlanReason::Missing));
}

#[test]
fn upload_plan_counts_every_kept_file_left_alone() {
    let local = vec![
        file("same.txt", 9),
        file("x.tmp", 1),
        dir("sub", vec![file("inner.txt", 1), file("new.txt", 2)]),
        dir("cache.tmp", vec![file("c", 1)]),
    ];
    let mut t = fake_with(&[("/r/same.txt", "unchanged"), ("/r/sub/inner.txt", "i")], &["/r", "/r/sub"]);
    let plan = plan_transfer(&mut t, &local, "/r", SyncDirection::Upload, &Filter::parse("*.tmp"), CopyRule::Sync).unwrap();
    let rels: Vec<&str> = plan.items.iter().map(|i| i.rel.as_str()).collect();
    assert_eq!(rels, ["sub/new.txt"]);
    assert_eq!(plan.skipped, 2);
}

#[test]
fn sync_download_plan_then_nothing_left() {
    let mut t = fake_with(&[("/r/only-remote.txt", "hello")], &["/r"]);
    let plan = plan_transfer(&mut t, &Vec::new(), "/r", SyncDirection::Download, &Filter::empty(), CopyRule::Sync).unwrap();
    assert_eq!(plan.items.len(), 1);
    assert_eq!(plan.items[0].rel, "only-remote.txt");
    assert_eq!(plan.items[0].size, 5);
    // Once the file is local, a second plan has nothing to do.
    let local = vec![file("only-remote.txt", 5)];
    let again = plan_transfer(&mut t, &local, "/r", SyncDirection::Download, &Filter::empty(), CopyRule::Sync).unwrap();
    assert!(again.items.is_empty());
    assert_eq!(again.skipped, 1);
}

#[test]
fn skip_policy_keeps_existing_and_copies_new() {
    let local = vec![file("keep.bin", 8), file("fresh.bin", 3)];
    let mut t = fake_with(&[("/up/keep.bin", "OLDREMOTE")], &["/up"]);
    let plan = plan_transfer(&mut t, &local, "/up", SyncDirection::Upload, &Filter::empty(), CopyRule::Policy(OverwritePolicy::Skip)).unwrap();
    let rels: Vec<&str> = plan.items.iter().map(|i| i.rel.as_str()).collect();
    assert_eq!(rels, ["fresh.bin"]);
    let all = plan_transfer(&mut t, &local, "/up", SyncDirection::Upload, &Filter::empty(), CopyRule::Policy(OverwritePolicy::Overwrite)).unwrap();
    assert_eq!(all.items.len(), 2);
}

#[test]
fn plan_respects_filter() {
    let local = vec![file("keep.rs", 1), file("skip.tmp", 1), dir(".git", vec![file("config", 1)])];
    let mut t = FakeTransport::default();
    let plan = plan_transfer(&mut t, &local, "/up", SyncDirection::Upload, &Filter::parse("*.tmp; .git/"), CopyRule::Sync).unwrap();
    let rels: Vec<&str> = plan.items.iter().map(|i| i.rel.as_str()).collect();
    assert_eq!(rels, ["keep.rs"]);
}

#[test]
fn mirror_plan_lists_extraneous_entries() {
    let local = vec![file("a.txt", 1)];
    let mut t = fake_with(&[("/r/a.txt", "1"), ("/r/old.txt", "x")], &["/r"]);
    let plan = plan_sync_opts(&mut t, &local, "/r", SyncDirection::Upload, &Filter::empty(), &SyncOptions { delete: true }).unwrap();
    assert_eq!(plan.deletes, ["old.txt"]);
    let plain = plan_sync_opts(&mut t, &local, "/r", SyncDirection::Upload, &Filter::empty(), &SyncOptions { delete: false }).unwrap();
    assert!(plain.deletes.is_empty());
    // Downloading, local entries missing remotely are the ones to delete.
    let local2 = vec![file("a.txt", 1), file("stray.txt", 2)];
    let mut t2 = fake_with(&[("/r/a.txt", "1")], &["/r"]);
    let down = plan_sync_opts(&mut t2, &local2, "/r", SyncDirection::Download, &Filter::empty(), &SyncOptions { delete: true }).unwrap();
    assert_eq!(down.deletes, ["stray.txt"]);
}

#[test]
fn delete_extraneous_remote_removes_only_strays() {
    let local = vec![file("a.txt", 1)];
    let mut t = fake_with(&[("/r/a.txt", "1"), ("/r/old.txt", "x"), ("/r/gone/f", "y"), ("/other", "z")], &["/r", "/r/gone"]);
    delete_extraneous_remote(&mut t, &local, "/r", &Filter::empty()).unwrap();
    assert!(t.files.contains_key("/r/a.txt"));
    assert!(!t.files.contains_key("/r/old.txt"));
    assert!(!t.files.contains_key("/r/gone/f"));
    assert!(!t.dirs.contains("/r/gone"));
    assert!(t.files.contains_key("/other"));
}

#[test]
fn delete_extraneous_remote_reaches_nested_strays() {
    let local = vec![dir("sub", vec![file("kept.txt", 1)])];
    let mut t = fake_with(&[("/r/sub/kept.txt", "k"), ("/r/sub/x", "x"), ("/r/sub/deep/y", "y")], &["/r", "/r/sub", "/r/sub/deep"]);
    delete_extraneous_remote(&mut t, &local, "/r", &Filter::empty()).unwrap();
    assert!(t.files.contains_key("/r/sub/kept.txt"));
    assert!(!t.files.contains_key("/r/sub/x"));
    assert!(!t.files.contains_key("/r/sub/deep/y"));
    assert!(!t.dirs.contains("/r/sub/deep"));
    assert!(t.dirs.contains("/r/sub"));
}

#[test]
fn mirror_upload_plan_lists_nested_strays() {
    let local = vec![dir("sub", vec![file("kept.txt", 1)])];
    let mut t = fake_with(&[("/r/sub/kept.txt", "k"), ("/r/sub/x", "x")], &["/r", "/r/sub"]);
    let plan = plan_sync_opts(&mut t, &local, "/r", SyncDirection::Upload, &Filter::empty(), &SyncOptions { delete: true }).unwrap();
    assert_eq!(plan.deletes, ["sub/x"]);
}

#[test]
fn mirror_download_plan_lists_nested_strays() {
    let local = vec![dir("sub", vec![file("y", 1), file("z", 1)]), dir("gone", vec![file("w", 1)])];
    let mut t = fake_with(&[("/r/sub/z", "z")], &["/r", "/r/sub"]);
    let plan = plan_sync_opts(&mut t, &local, "/r", SyncDirection::Download, &Filter::empty(), &SyncOptions { delete: true }).unwrap();
    assert_eq!(plan.deletes, ["sub/y", "gone"]);
}

#[test]
fn collect_deletes_on_a_failed_download_listing_takes_every_kept_entry() {
    let local = vec![dir("sub", vec![file("a", 1)]), file("b.txt", 1), file("c.tmp", 1)];
    let d = collect_deletes(&mut Unlistable, &local, "/r", SyncDirection::Download, &Filter::parse("*.tmp"));
    assert_eq!(d, vec!["sub".to_string(), "b.txt".to_string()]);
}

#[test]
fn collect_deletes_keeps_excluded_entries() {
    let local = vec![dir("sub", vec![file("a.tmp", 1), file("b.txt", 1)]), file("c.tmp", 1)];
    let mut t = fake_with(&[], &["/r", "/r/sub"]);
    let d = collect_deletes(&mut t, &local, "/r", SyncDirection::Download, &Filter::parse("*.tmp"));
    assert_eq!(d, vec!["sub/b.txt".to_string()]);
}

fn two_item_plan() -> TransferPlan {
    TransferPlan {
        items: vec![
            TransferItem { rel: "a.txt".into(), size: 3, reason: None },
            TransferItem { rel: "sub/b.txt".into(), size: 4, reason: None },
        ],
        dirs: vec!["sub".into()],
        skipped: 0,
    }
}

#[test]
fn execute_plan_copies_in_order_and_sums_bytes() {
    let plan = two_item_plan();
    let mut seen: Vec<(String, String)> = Vec::new();
    let mut starts: Vec<String> = Vec::new();
    let mut xfer = |r: &str, l: &str, size: u64| -> Result<u64> {
        seen.push((r.to_string(), l.to_string()));
        Ok(size * 10)
    };
    let mut cb = |ev: XferEvent| -> bool {
        if let XferEvent::Start { name, .. } = ev {
            starts.push(name.to_string());
        }
        true
    };
    let n = execute_plan(&plan, "/r", "/l", true, &mut xfer, &mut cb).unwrap();
    assert_eq!(n, 70);
    assert_eq!(
        seen,
        vec![("/r/a.txt".to_string(), "/l/a.txt".to_string()), ("/r/sub/b.txt".to_string(), "/l/sub/b.txt".to_string())]
    );
    assert_eq!(starts, vec!["/r/a.txt".to_string(), "/r/sub/b.txt".to_string()]);
}

#[test]
fn execute_plan_cancel_stops_before_any_copy() {
    let plan = two_item_plan();
    let mut copies = 0;
    let mut xfer = |_r: &str, _l: &str, size: u64| -> Result<u64> {
        copies += 1;
        Ok(size)
    };
    let mut cb = |_ev: XferEvent| -> bool { false };
    let r = execute_plan(&plan, "/r", "/l", false, &mut xfer, &mut cb);
    assert!(matches!(r, Err(Error::Cancelled)));
    assert_eq!(copies, 0);
}

#[test]
fn execute_plan_stops_at_a_failed_copy() {
    let plan = two_item_plan();
    let mut copies = 0;
    let mut xfer = |_r: &str, _l: &str, _size: u64| -> Result<u64> {
        copies += 1;
        Err(Error::Io("disk full".into()))
    };
    let mut cb = |_ev: XferEvent| -> bool { true };
    let r = execute_plan(&plan, "/r", "/l", true, &mut xfer, &mut cb);
    assert!(matches!(r, Err(Error::Io(_))));
    assert_eq!(copies, 1);
}

#[test]
fn mirror_upload_plan_lists_every_top_level_stray() {
    let mut t = fake_with(&[("/r/keep.txt", "k"), ("/r/stray.txt", "s"), ("/r/x.tmp", "t")], &["/r", "/r/olddir"]);
    let local = vec![file("keep.txt", 1)];
    let plan = plan_sync_opts(&mut t, &local, "/r", SyncDirection::Upload, &Filter::parse("*.tmp"), &SyncOptions { delete: true }).unwrap();
    let mut d = plan.deletes.clone();
    d.sort();
    assert_eq!(d, vec!["olddir".to_string(), "stray.txt".to_string()]);
}
