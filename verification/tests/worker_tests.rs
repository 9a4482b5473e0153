use std::collections::{BTreeMap, BTreeSet};
use std::sync::mpsc;

use scp_core::ops::{OverwritePolicy, SyncDirection, XferEvent};
use scp_core::panes::REPORT_STEP;
use scp_core::pool::TransferPool;
use scp_core::transport::{Progress, Transport};
use scp_core::types::{Auth, Credentials, Entry, Error, ExecResult, Protocol, Result};
use scp_core::worker::{dir_job, file_job, no_session, outcome_event, sync_name, Cmd, DirOp, Event, FileOp, Ticker, Worker};

/// Flat in-memory server: files and directories by full path.
#[derive(Default)]
struct Fake {
    files: BTreeMap<String, u64>,
    dirs: BTreeSet<String>,
}

fn entry(name: &str, is_dir: bool, size: u64) -> Entry {
    Entry { name: name.into(), is_dir, size, mtime: None, perms: None, is_symlink: false, uid: None, gid: None }
}

impl Transport for Fake {
    fn list_dir(&mut self, path: &str) -> Result<Vec<Entry>> {
        if !self.dirs.contains(path) {
            return Err(Error::Protocol(format!("no such directory {path}")));
        }
        let prefix = format!("{}/", path.trim_end_matches('/'));
        let mut out = Vec::new();
        for d in &self.dirs {
            if let Some(rest) = d.strip_prefix(&prefix) {
                if !rest.is_empty() && !rest.contains('/') {
                    out.push(entry(rest, true, 0));
                }
            }
        }
        for (k, size) in &self.files {
            if let Some(rest) = k.strip_prefix(&prefix) {
                if !rest.contains('/') {
                    out.push(entry(rest, false, *size));
                }
            }
        }
        Ok(out)
    }

    fn download_progress(&mut self, _remote: &str, _local: &str, _progress: &mut dyn Progress) -> Result<u64> {
        Ok(0)
    }

    fn upload_progress(&mut self, _local: &str, remote: &str, _progress: &mut dyn Progress) -> Result<u64> {
        self.files.insert(remote.into(), 0);
        Ok(0)
    }

    fn mkdir(&mut self, path: &str) -> Result<()> {
        self.dirs.insert(path.into());
        Ok(())
    }

    fn remove_file(&mut self, path: &str) -> Result<()> {
        match self.files.remove(path) {
            Some(_) => Ok(()),
            None => Err(Error::Protocol("no such file".into())),
        }
    }

    fn remove_dir(&mut self, path: &str) -> Result<()> {
        self.dirs.remove(path);
        Ok(())
    }

    fn rename(&mut self, from: &str, to: &str) -> Result<()> {
        let size = self.files.remove(from).ok_or_else(|| Error::Protocol("no such file".into()))?;
        self.files.insert(to.into(), size);
        Ok(())
    }

    fn exec_command(&mut self, cmd: &str) -> Result<ExecResult> {
        Ok(ExecResult { exit_code: 0, stdout: format!("ran {cmd}"), stderr: String::new() })
    }
}

fn fake() -> Box<dyn Transport> {
    let mut f = Fake::default();
    f.dirs.insert("/r".into());
    f.dirs.insert("/r/sub".into());
    f.files.insert("/r/a.log".into(), 3);
    f.files.insert("/r/sub/b.log".into(), 4);
    Box::new(f)
}

fn connected() -> Worker<dyn Transport> {
    let mut w: Worker<dyn Transport> = Worker::new();
    assert!(w.connected(Ok(fake()), "/r".into(), true).is_none());
    w
}

fn creds() -> Credentials {
    Credentials::basic(Protocol::Sftp, "h".into(), 22, "u".into(), Auth::Password("p".into()))
}

#[test]
fn connect_lists_the_start_directory() {
    let mut w: Worker<dyn Transport> = Worker::new();
    match w.connected(Ok(fake()), "/r".into(), false) {
        Some(Event::Connected { path, entries }) => {
            assert_eq!(path, "/r");
            let mut names: Vec<String> = entries.into_iter().map(|e| e.name).collect();
            names.sort();
            assert_eq!(names, ["a.log", "sub"]);
        }
        _ => panic!("expected Connected"),
    }
    assert!(w.session.is_some());
}

#[test]
fn connect_failures_are_reported_unless_silent() {
    let mut w: Worker<dyn Transport> = Worker::new();
    match w.connected(Err(Error::UnknownHostKey { fingerprint: "SHA256:x".into() }), "/".into(), false) {
        Some(Event::HostKeyUnknown { fingerprint }) => assert_eq!(fingerprint, "SHA256:x"),
        _ => panic!("expected HostKeyUnknown"),
    }
    match w.connected(Err(Error::Auth("denied".into())), "/".into(), false) {
        Some(Event::Error(m)) => assert_eq!(m, "connect failed: authentication failed: denied"),
        _ => panic!("expected Error"),
    }
    assert!(w.connected(Err(Error::Auth("denied".into())), "/".into(), true).is_none());
    assert!(w.session.is_none());
    // A start directory that cannot be listed keeps the old session.
    match w.connected(Ok(fake()), "/missing".into(), false) {
        Some(Event::Error(m)) => assert!(m.starts_with("list failed: ")),
        _ => panic!("expected Error"),
    }
    assert!(w.session.is_none());
}

#[test]
fn browse_commands_report_their_outcome() {
    let mut w = connected();
    match w.browse::<()>(Cmd::Mkdir { path: "/r/new".into() }) {
        Some(Event::OpOk { message }) => assert_eq!(message, "Created /r/new"),
        _ => panic!("mkdir"),
    }
    match w.browse::<()>(Cmd::Rename { from: "/r/a.log".into(), to: "/r/z.log".into() }) {
        Some(Event::OpOk { message }) => assert_eq!(message, "Renamed to /r/z.log"),
        _ => panic!("rename"),
    }
    match w.browse::<()>(Cmd::Delete { path: "/r/z.log".into(), is_dir: false }) {
        Some(Event::OpOk { message }) => assert_eq!(message, "Deleted /r/z.log"),
        _ => panic!("delete"),
    }
    match w.browse::<()>(Cmd::Delete { path: "/r/nothing".into(), is_dir: false }) {
        Some(Event::Error(m)) => assert_eq!(m, "protocol error: no such file"),
        _ => panic!("delete missing"),
    }
    match w.browse::<()>(Cmd::Chmod { path: "/r/sub/b.log".into(), mode: 0o644 }) {
        Some(Event::Error(m)) => assert_eq!(m, "not implemented: permissions are not supported on this protocol"),
        _ => panic!("chmod"),
    }
    match w.browse::<()>(Cmd::Exec { cmd: "uptime".into() }) {
        Some(Event::ExecResult { exit_code, stdout, .. }) => {
            assert_eq!(exit_code, 0);
            assert_eq!(stdout, "ran uptime");
        }
        _ => panic!("exec"),
    }
    match w.browse::<()>(Cmd::CopyFile { src: "/r/sub/b.log".into(), dst: "/r/c.log".into() }) {
        Some(Event::Error(m)) => assert_eq!(m, "not implemented: copy is not supported on this protocol"),
        _ => panic!("copy"),
    }
    match w.browse::<()>(Cmd::Find { base: "/r".into(), mask: "*.LOG".into() }) {
        Some(Event::FindResults { base, mask, hits }) => {
            assert_eq!(base, "/r");
            assert_eq!(mask, "*.LOG");
            let paths: Vec<&str> = hits.iter().map(|(p, _)| p.as_str()).collect();
            assert_eq!(paths, ["/r/sub/b.log"]);
        }
        _ => panic!("find"),
    }
    match w.browse::<()>(Cmd::List { path: "/r/sub".into() }) {
        Some(Event::Listed { path, entries }) => {
            assert_eq!(path, "/r/sub");
            assert_eq!(entries.len(), 1);
        }
        _ => panic!("list"),
    }
    match w.browse::<()>(Cmd::Delete { path: "/r/sub".into(), is_dir: true }) {
        Some(Event::OpOk { message }) => assert_eq!(message, "Deleted /r/sub"),
        _ => panic!("delete dir"),
    }
    // Transfers are not browse commands.
    assert!(w.browse(Cmd::Download { id: 1, name: "a".into(), remote: "/r/a".into(), local: "a".into(), resume: 0, ctl: () }).is_none());
}

#[test]
fn chmod_reports_octal_mode() {
    struct Perms;
    impl Transport for Perms {
        fn list_dir(&mut self, _: &str) -> Result<Vec<Entry>> {
            Ok(Vec::new())
        }
        fn download_progress(&mut self, _: &str, _: &str, _: &mut dyn Progress) -> Result<u64> {
            Ok(0)
        }
        fn upload_progress(&mut self, _: &str, _: &str, _: &mut dyn Progress) -> Result<u64> {
            Ok(0)
        }
        fn mkdir(&mut self, _: &str) -> Result<()> {
            Ok(())
        }
        fn remove_file(&mut self, _: &str) -> Result<()> {
            Ok(())
        }
        fn remove_dir(&mut self, _: &str) -> Result<()> {
            Ok(())
        }
        fn rename(&mut self, _: &str, _: &str) -> Result<()> {
            Ok(())
        }
        fn set_permissions(&mut self, _: &str, _: u32) -> Result<()> {
            Ok(())
        }
    }
    let mut w: Worker<dyn Transport> = Worker::new();
    w.connected(Ok(Box::new(Perms) as Box<dyn Transport>), String::new(), true);
    match w.browse::<()>(Cmd::Chmod { path: "/f".into(), mode: 0o755 }) {
        Some(Event::OpOk { message }) => assert_eq!(message, "Permissions set to 755"),
        _ => panic!("chmod"),
    }
}

#[test]
fn commands_without_a_session_fail() {
    let mut w: Worker<dyn Transport> = Worker::new();
    match w.browse::<()>(Cmd::List { path: "/".into() }) {
        Some(Event::Error(m)) => assert_eq!(m, "not connected"),
        _ => panic!("list"),
    }
    match w.sync_plan(true, "/tmp/x".into(), &Vec::new(), "/r".into(), "", false) {
        Event::Error(m) => assert_eq!(m, "not connected"),
        _ => panic!("plan"),
    }
    match no_session(9) {
        Event::Failed { id, message } => {
            assert_eq!(id, 9);
            assert_eq!(message, "not connected");
        }
        _ => panic!("no session"),
    }
}

#[test]
fn sync_plan_runs_on_the_session() {
    let mut w = connected();
    match w.sync_plan(true, "/home/u/r".into(), &Vec::new(), "/r".into(), "*.tmp", false) {
        Event::SyncPlanReady { download, local, remote, plan } => {
            assert!(download);
            assert_eq!(local, "/home/u/r");
            assert_eq!(remote, "/r");
            let mut rels: Vec<&str> = plan.items.iter().map(|i| i.rel.as_str()).collect();
            rels.sort();
            assert_eq!(rels, ["a.log", "sub/b.log"]);
        }
        _ => panic!("plan"),
    }
}

#[test]
fn pool_workers_reconnect_with_kept_credentials() {
    let mut w: Worker<dyn Transport> = Worker::new();
    assert!(w.reconnect_with().is_none());
    w.adopt(Err(Error::Connect("refused".into())), creds());
    assert!(w.session.is_none());
    let c = w.reconnect_with().expect("credentials kept");
    assert_eq!(c.host, "h");
    w.reconnected(Ok(fake()));
    assert!(w.session.is_some());
    assert!(w.reconnect_with().is_none());
}

#[test]
fn outcomes_are_reported() {
    match outcome_event(3, "f".into(), true, Ok(42)) {
        Event::Done { id, name, bytes, download } => {
            assert_eq!((id, name.as_str(), bytes, download), (3, "f", 42, true));
        }
        _ => panic!("done"),
    }
    match outcome_event(3, "f".into(), false, Err(Error::Cancelled)) {
        Event::Cancelled { id, name } => assert_eq!((id, name.as_str()), (3, "f")),
        _ => panic!("cancelled"),
    }
    match outcome_event(3, "f".into(), false, Err(Error::Io("disk full".into()))) {
        Event::Failed { id, message } => assert_eq!((id, message.as_str()), (3, "io error: disk full")),
        _ => panic!("failed"),
    }
}

#[test]
fn jobs_are_prepared_from_commands() {
    let j = file_job(Cmd::Download { id: 1, name: "a".into(), remote: "/r/a".into(), local: "a".into(), resume: 10, ctl: 7u8 }).unwrap();
    assert!(j.download);
    assert_eq!(j.ctl, 7);
    assert!(matches!(j.op, FileOp::ResumeDownload { offset: 10, .. }));
    let j = file_job(Cmd::Upload { id: 2, name: "b".into(), local: "b".into(), remote: "/r/b".into(), resume: false, ctl: 0u8 }).unwrap();
    assert!(!j.download);
    assert!(matches!(j.op, FileOp::Upload { .. }));
    assert!(file_job(Cmd::<u8>::List { path: "/".into() }).is_none());

    let d = dir_job(Cmd::Sync { id: 5, download: true, local: "l".into(), remote: "/r".into(), excludes: "*.tmp".into(), ctl: 0u8 }).unwrap();
    assert_eq!(d.name, "Sync \u{2b07}");
    match d.op {
        DirOp::Sync { direction, filter, .. } => {
            assert_eq!(direction, SyncDirection::Download);
            assert!(filter.excludes("x.TMP", false));
        }
        _ => panic!("sync"),
    }
    let d = dir_job(Cmd::UploadDir { id: 6, name: "up".into(), local: "l".into(), remote: "/r".into(), excludes: String::new(), overwrite: 1, ctl: 0u8 }).unwrap();
    assert!(matches!(d.op, DirOp::UploadDir { policy: OverwritePolicy::Skip, .. }));
    assert_eq!(sync_name(false), "Sync \u{2b06}");
}

#[test]
fn ticker_paces_and_throttles() {
    let mut t = Ticker::new();
    // 1 MiB at 1024 KiB/s: one second of pause; the first step is reported.
    let (pause, ev) = t.bytes(4, 1 << 20, 4 << 20, 1024);
    assert_eq!(pause, 1_000_000);
    assert!(matches!(ev, Some(Event::Progress { id: 4, done: 1048576, total: 4194304 })));
    // A small step is paced but not reported.
    let (pause, ev) = t.bytes(4, (1 << 20) + 1024, 4 << 20, 1024);
    assert_eq!(pause, 976);
    assert!(ev.is_none());
    let (_, ev) = t.bytes(4, (1 << 20) + REPORT_STEP, 4 << 20, 0);
    assert!(ev.is_some());
    // A new file restarts the pacing and is announced.
    let (pause, ev) = t.xfer(4, &XferEvent::Start { name: "f", total: 9, download: true }, 0);
    assert_eq!(pause, 0);
    assert!(matches!(ev, Some(Event::FileStart { id: 4, total: 9, .. })));
    assert_eq!(t.speed_done, 0);
    assert!(matches!(t.xfer(4, &XferEvent::DoneFile, 0).1, Some(Event::FileDone { id: 4 })));
}

#[test]
fn pool_dispatches_round_robin_and_broadcasts_connect() {
    let (tx0, rx0) = mpsc::channel::<Cmd<()>>();
    let (tx1, rx1) = mpsc::channel::<Cmd<()>>();
    let pool = TransferPool::from_workers(vec![tx0, tx1]);
    assert_eq!(pool.len(), 2);
    pool.connect(creds());
    for rx in [&rx0, &rx1] {
        match rx.try_recv().unwrap() {
            Cmd::Connect { path, silent, .. } => {
                assert!(path.is_empty());
                assert!(silent);
            }
            _ => panic!("expected Connect"),
        }
    }
    for p in ["/a", "/b", "/c"] {
        pool.send(Cmd::Mkdir { path: p.into() });
    }
    let got0: Vec<String> = rx0.try_iter().map(|c| if let Cmd::Mkdir { path } = c { path } else { String::new() }).collect();
    let got1: Vec<String> = rx1.try_iter().map(|c| if let Cmd::Mkdir { path } = c { path } else { String::new() }).collect();
    assert_eq!(got0, ["/a", "/c"]);
    assert_eq!(got1, ["/b"]);
}
