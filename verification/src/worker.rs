//! The session worker: the commands a window sends to the thread that owns a
//! live connection, the events that thread answers with, and what each
//! command does to the session. The thread itself, its channels, the cancel
//! and pause flags and the sleeps of the speed cap belong to the caller,
//! which hands every result of that outside work back to the functions here.

use vstd::prelude::*;

use crate::ftp::{oct, u32_to_oct};
use crate::ops::{
    chain_clear, dir_chain, find, has_hit, is_hit, join_path, nested_match, parse_filter, path_of, sync_plan_ok,
    plan_sync_opts, remove_dir_all, top_match, Filter, LocalEntry, OverwritePolicy, SyncDirection,
    SyncOptions, SyncPlan, XferEvent,
};
use crate::panes::{pace, pace_delay, Throttle, REPORT_STEP};
use crate::text::{chars_of, owned, push_all, push_str, string_of};
use crate::transport::{changes_only, is_listing, same_outside, submap, RemoteNode, Transport};
use crate::types::{error_message, Credentials, Entry, Error, Result};

verus! {

/// A command for a session worker. `H` is the handle through which the
/// window cancels or pauses a transfer.
pub enum Cmd<H> {
    /// `silent` suppresses the `Connected` reply (used by pool workers).
    Connect { creds: Credentials, path: String, silent: bool },
    List { path: String },
    /// `resume` is the byte offset to continue from (0 = fresh download).
    Download { id: u64, name: String, remote: String, local: String, resume: u64, ctl: H },
    /// `resume` appends after the remote file's current size.
    Upload { id: u64, name: String, local: String, remote: String, resume: bool, ctl: H },
    DownloadDir {
        id: u64,
        name: String,
        remote: String,
        local: String,
        excludes: String,
        overwrite: i32,
        ctl: H,
    },
    UploadDir {
        id: u64,
        name: String,
        local: String,
        remote: String,
        excludes: String,
        overwrite: i32,
        ctl: H,
    },
    Sync { id: u64, download: bool, local: String, remote: String, excludes: String, ctl: H },
    /// Sync dry run; answered by `Event::SyncPlanReady`.
    SyncPlan {
        download: bool,
        local: String,
        remote: String,
        excludes: String,
        delete_extraneous: bool,
    },
    /// Run a remote command; answered by `Event::ExecResult`.
    Exec { cmd: String },
    /// Server-side copy; answered by `Event::OpOk`.
    CopyFile { src: String, dst: String },
    /// Recursive search; answered by `Event::FindResults`.
    Find { base: String, mask: String },
    Mkdir { path: String },
    Delete { path: String, is_dir: bool },
    Rename { from: String, to: String },
    Chmod { path: String, mode: u32 },
}

/// What a session worker reports back.
pub enum Event {
    Connected { path: String, entries: Vec<Entry> },
    Listed { path: String, entries: Vec<Entry> },
    /// A strict connect met a server whose key is not known yet.
    HostKeyUnknown { fingerprint: String },
    Progress { id: u64, done: u64, total: u64 },
    /// A multi-file operation moved on to a new file.
    FileStart { id: u64, file: String, total: u64 },
    FileDone { id: u64 },
    /// `download` tells which pane to refresh; for a sync `bytes` counts
    /// the files copied.
    Done { id: u64, name: String, bytes: u64, download: bool },
    Cancelled { id: u64, name: String },
    Failed { id: u64, message: String },
    /// A management operation finished.
    OpOk { message: String },
    SyncPlanReady { download: bool, local: String, remote: String, plan: SyncPlan },
    FindResults { base: String, mask: String, hits: Vec<(String, Entry)> },
    ExecResult { exit_code: i32, stdout: String, stderr: String },
    Error(String),
}

/// `prefix` followed by `s`.
fn prefixed(prefix: &str, s: &str) -> (r: String)
    ensures
        r@ == prefix@ + s@,
{
    let mut cs = chars_of(prefix);
    push_str(&mut cs, s);
    string_of(cs.as_slice())
}

/// `prefix` followed by the text of `e`.
fn error_text(prefix: &str, e: &Error) -> (r: String)
    ensures
        r@ == prefix@ + error_message(*e),
{
    let m = e.message();
    prefixed(prefix, m.as_str())
}

/// The report of a finished transfer: done with its byte count, cancelled,
/// or failed with the error's text.
pub open spec fn outcome_ok(id: u64, name: String, download: bool, res: Result<u64>, r: Event) -> bool {
    match res {
        Ok(b) => r == Event::Done { id, name, bytes: b, download },
        Err(Error::Cancelled) => r == Event::Cancelled { id, name },
        Err(e) => r matches Event::Failed { id: i, message } && i == id && message@ == error_message(
            e,
        ),
    }
}

/// How a finished transfer (or folder transfer, or sync) is reported.
pub fn outcome_event(id: u64, name: String, download: bool, res: Result<u64>) -> (r: Event)
    ensures
        outcome_ok(id, name, download, res, r),
{
    match res {
        Ok(bytes) => Event::Done { id, name, bytes, download },
        Err(Error::Cancelled) => Event::Cancelled { id, name },
        Err(e) => Event::Failed { id, message: e.message() },
    }
}

/// The report of job `id` asked of a worker without a session.
pub open spec fn no_session_ok(id: u64, r: Event) -> bool {
    r matches Event::Failed { id: i, message } && i == id && message@ == "not connected"@
}

/// The report of a transfer asked of a worker without a session.
pub fn no_session(id: u64) -> (r: Event)
    ensures
        no_session_ok(id, r),
{
    Event::Failed { id, message: owned("not connected") }
}

/// The title of a sync job: an arrow shows its direction.
pub fn sync_name(download: bool) -> (r: String)
    ensures
        r@ == (if download {
            "Sync \u{2b07}"@
        } else {
            "Sync \u{2b06}"@
        }),
{
    if download {
        owned("Sync \u{2b07}")
    } else {
        owned("Sync \u{2b06}")
    }
}

/// The direction a sync command names.
pub fn direction_of(download: bool) -> (r: SyncDirection)
    ensures
        r == (if download {
            SyncDirection::Download
        } else {
            SyncDirection::Upload
        }),
{
    if download {
        SyncDirection::Download
    } else {
        SyncDirection::Upload
    }
}

// ---------------------------------------------------------------------------
// Transfer jobs
// ---------------------------------------------------------------------------

/// The transport call a single-file transfer makes.
pub enum FileOp {
    Download { remote: String, local: String },
    /// Continue a download from byte `offset`, appending to the local file.
    ResumeDownload { remote: String, local: String, offset: u64 },
    Upload { local: String, remote: String },
    /// Append the local file's tail after the remote file's current size.
    AppendUpload { local: String, remote: String },
}

/// A single-file transfer, ready to run: the job's id and title, which way
/// it goes, the call to make and the handle that cancels or pauses it.
pub struct FileJob<H> {
    pub id: u64,
    pub name: String,
    pub download: bool,
    pub op: FileOp,
    pub ctl: H,
}

/// The transfer a `Download` or `Upload` command asks for: a download with
/// an offset resumes, an upload marked `resume` appends. Other commands are
/// no single-file transfer (`None`).
pub fn file_job<H>(cmd: Cmd<H>) -> (r: Option<FileJob<H>>)
    ensures
        match cmd {
            Cmd::Download { id, name, remote, local, resume, ctl } => r == Some(
                FileJob {
                    id,
                    name,
                    download: true,
                    op: if resume > 0 {
                        FileOp::ResumeDownload { remote, local, offset: resume }
                    } else {
                        FileOp::Download { remote, local }
                    },
                    ctl,
                },
            ),
            Cmd::Upload { id, name, local, remote, resume, ctl } => r == Some(
                FileJob {
                    id,
                    name,
                    download: false,
                    op: if resume {
                        FileOp::AppendUpload { local, remote }
                    } else {
                        FileOp::Upload { local, remote }
                    },
                    ctl,
                },
            ),
            _ => r.is_none(),
        },
{
    match cmd {
        Cmd::Download { id, name, remote, local, resume, ctl } => {
            let op = if resume > 0 {
                FileOp::ResumeDownload { remote, local, offset: resume }
            } else {
                FileOp::Download { remote, local }
            };
            Some(FileJob { id, name, download: true, op, ctl })
        },
        Cmd::Upload { id, name, local, remote, resume, ctl } => {
            let op = if resume {
                FileOp::AppendUpload { local, remote }
            } else {
                FileOp::Upload { local, remote }
            };
            Some(FileJob { id, name, download: false, op, ctl })
        },
        _ => None,
    }
}

/// What a multi-file job runs.
pub enum DirOp {
    DownloadDir { remote: String, local: String, filter: Filter, policy: OverwritePolicy },
    UploadDir { local: String, remote: String, filter: Filter, policy: OverwritePolicy },
    Sync { direction: SyncDirection, local: String, remote: String, filter: Filter },
}

/// A multi-file job (folder transfer or sync), ready to run.
pub struct DirJob<H> {
    pub id: u64,
    pub name: String,
    pub download: bool,
    pub op: DirOp,
    pub ctl: H,
}

/// The multi-file job a `DownloadDir`, `UploadDir` or `Sync` command asks
/// for: its exclusion masks parsed, its overwrite code read as a policy, a
/// sync titled by its direction. Other commands are no multi-file job.
pub fn dir_job<H>(cmd: Cmd<H>) -> (r: Option<DirJob<H>>)
    ensures
        match cmd {
            Cmd::DownloadDir { id, name, remote, local, excludes, overwrite, ctl } => r matches Some(j)
                && j.id == id && j.name == name && j.download && j.ctl == ctl && match j.op {
                DirOp::DownloadDir { remote: m, local: l, filter, policy } => m == remote && l == local
                    && filter@ == parse_filter(excludes@) && policy == policy_of(overwrite),
                _ => false,
            },
            Cmd::UploadDir { id, name, local, remote, excludes, overwrite, ctl } => r matches Some(j)
                && j.id == id && j.name == name && !j.download && j.ctl == ctl && match j.op {
                DirOp::UploadDir { local: l, remote: m, filter, policy } => m == remote && l == local
                    && filter@ == parse_filter(excludes@) && policy == policy_of(overwrite),
                _ => false,
            },
            Cmd::Sync { id, download, local, remote, excludes, ctl } => r matches Some(j) && j.id == id
                && j.name@ == (if download {
                "Sync \u{2b07}"@
            } else {
                "Sync \u{2b06}"@
            }) && j.download == download && j.ctl == ctl && match j.op {
                DirOp::Sync { direction, local: l, remote: m, filter } => m == remote && l == local
                    && filter@ == parse_filter(excludes@) && direction == (if download {
                    SyncDirection::Download
                } else {
                    SyncDirection::Upload
                }),
                _ => false,
            },
            _ => r.is_none(),
        },
{
    match cmd {
        Cmd::DownloadDir { id, name, remote, local, excludes, overwrite, ctl } => {
            let filter = Filter::parse(excludes.as_str());
            let policy = OverwritePolicy::from_code(overwrite);
            Some(DirJob { id, name, download: true, op: DirOp::DownloadDir { remote, local, filter, policy }, ctl })
        },
        Cmd::UploadDir { id, name, local, remote, excludes, overwrite, ctl } => {
            let filter = Filter::parse(excludes.as_str());
            let policy = OverwritePolicy::from_code(overwrite);
            Some(DirJob { id, name, download: false, op: DirOp::UploadDir { local, remote, filter, policy }, ctl })
        },
        Cmd::Sync { id, download, local, remote, excludes, ctl } => {
            let filter = Filter::parse(excludes.as_str());
            let direction = direction_of(download);
            let name = sync_name(download);
            Some(DirJob { id, name, download, op: DirOp::Sync { direction, local, remote, filter }, ctl })
        },
        _ => None,
    }
}

/// The policy an overwrite code names (see [`OverwritePolicy::from_code`]).
pub open spec fn policy_of(code: i32) -> OverwritePolicy {
    if code == 1 {
        OverwritePolicy::Skip
    } else if code == 2 {
        OverwritePolicy::OnlyNewer
    } else {
        OverwritePolicy::Overwrite
    }
}

// ---------------------------------------------------------------------------
// Progress of a running job
// ---------------------------------------------------------------------------

/// The pacing state of one running job: when progress was last reported to
/// the window, and where the speed cap last measured from.
#[derive(Debug, Clone, Copy)]
pub struct Ticker {
    pub ui: Throttle,
    pub speed_done: u64,
}

/// The speed cap's arithmetic fits in 64 bits.
pub open spec fn pace_fits(last_done: u64, done: u64, kbs: u64) -> bool {
    kbs > 0 && done > last_done ==> (done - last_done) * 1_000_000 <= u64::MAX && kbs * 1024
        <= u64::MAX
}

impl Ticker {
    pub fn new() -> (r: Self)
        ensures
            r.ui.last == 0,
            r.speed_done == 0,
    {
        Ticker { ui: Throttle::new(), speed_done: 0 }
    }

    /// Byte progress `(done, total)` of job `id` under a cap of `kbs` KiB/s:
    /// how long to pause (microseconds) so the cap holds, and the progress
    /// event to pass on when one is due.
    pub fn bytes(&mut self, id: u64, done: u64, total: u64, kbs: u64) -> (r: (u64, Option<Event>))
        requires
            pace_fits(old(self).speed_done, done, kbs),
        ensures
            r.0 == pace_delay(old(self).speed_done, done, kbs),
            final(self).speed_done == done,
            (done == total || done >= old(self).ui.last + REPORT_STEP) ==> r.1 == Some(
                Event::Progress { id, done, total },
            ) && final(self).ui.last == done,
            !(done == total || done >= old(self).ui.last + REPORT_STEP) ==> r.1.is_none()
                && final(self).ui.last == old(self).ui.last,
    {
        let (sleep, base) = pace(self.speed_done, done, kbs);
        self.speed_done = base;
        if self.ui.should_send(done, total) {
            (sleep, Some(Event::Progress { id, done, total }))
        } else {
            (sleep, None)
        }
    }

    /// One event of a multi-file job: a new file restarts the pacing and is
    /// announced, bytes go through [`Ticker::bytes`], a finished file is
    /// announced.
    pub fn xfer(&mut self, id: u64, ev: &XferEvent, kbs: u64) -> (r: (u64, Option<Event>))
        requires
            *ev matches XferEvent::Bytes { done, total } ==> pace_fits(old(self).speed_done, done, kbs),
        ensures
            match *ev {
                XferEvent::Start { name, total, .. } => {
                    &&& r.0 == 0
                    &&& r.1 matches Some(Event::FileStart { id: i, file, total: t }) && i == id
                        && file@ == name@ && t == total
                    &&& final(self).ui.last == 0
                    &&& final(self).speed_done == 0
                },
                XferEvent::Bytes { done, total } => {
                    &&& r.0 == pace_delay(old(self).speed_done, done, kbs)
                    &&& final(self).speed_done == done
                    &&& (done == total || done >= old(self).ui.last + REPORT_STEP) ==> r.1 == Some(
                        Event::Progress { id, done, total },
                    ) && final(self).ui.last == done
                    &&& !(done == total || done >= old(self).ui.last + REPORT_STEP) ==> r.1.is_none()
                        && final(self).ui.last == old(self).ui.last
                },
                XferEvent::DoneFile => r == (0u64, Some(Event::FileDone { id })) && *final(self)
                    == *old(self),
            },
    {
        match ev {
            XferEvent::Start { name, total, .. } => {
                self.ui = Throttle::new();
                self.speed_done = 0;
                (0, Some(Event::FileStart { id, file: owned(name), total: *total }))
            },
            XferEvent::Bytes { done, total } => self.bytes(id, *done, *total, kbs),
            XferEvent::DoneFile => (0, Some(Event::FileDone { id })),
        }
    }
}

// ---------------------------------------------------------------------------
// The worker's session
// ---------------------------------------------------------------------------

/// What a worker thread holds: its live session, if any, and (pool workers)
/// the credentials it reconnects with.
pub struct Worker<T: ?Sized> {
    pub session: Option<Box<T>>,
    pub creds: Option<Credentials>,
}

/// The reply to a browse command when a session exists: what the command
/// did to the remote tree (`before` to `after`) and what it reports. Errors
/// are reported with the text of the error that came back. `unlisted` is the
/// session's record of failed listings afterwards.
pub open spec fn browse_ok<H>(
    before: Map<Seq<char>, RemoteNode>,
    after: Map<Seq<char>, RemoteNode>,
    unlisted: Set<Seq<char>>,
    cmd: Cmd<H>,
    r: Event,
) -> bool {
    match cmd {
        Cmd::List { path } => after == before && match r {
            Event::Listed { path: p, entries } => p == path && is_listing(before, path@, entries@),
            Event::Error(m) => exists|e: Error| m@ == "list failed: "@ + #[trigger] error_message(e),
            _ => false,
        },
        Cmd::Mkdir { path } => changes_only(before, after, path@) && match r {
            Event::OpOk { message } => message@ == "Created "@ + path@ && after.contains_key(path@)
                && after[path@].is_dir,
            Event::Error(m) => after == before && exists|e: Error| m@ == #[trigger] error_message(e),
            _ => false,
        },
        Cmd::Delete { path, is_dir } => if is_dir {
            &&& submap(after, before)
            &&& same_outside(before, after, path@)
            &&& match r {
                Event::OpOk { message } => message@ == "Deleted "@ + path@ && !after.contains_key(
                    path@,
                ) && forall|names: Seq<Seq<char>>|
                    #[trigger] dir_chain(before, path@, names) ==> !after.contains_key(
                        path_of(path@, names),
                    ),
                Event::Error(m) => exists|e: Error| m@ == #[trigger] error_message(e),
                _ => false,
            }
        } else {
            match r {
                Event::OpOk { message } => message@ == "Deleted "@ + path@ && after == before.remove(
                    path@,
                ),
                Event::Error(m) => after == before && exists|e: Error| m@ == #[trigger] error_message(
                    e,
                ),
                _ => false,
            }
        },
        Cmd::Rename { from, to } => match r {
            Event::OpOk { message } => message@ == "Renamed to "@ + to@,
            Event::Error(m) => exists|e: Error| m@ == #[trigger] error_message(e),
            _ => false,
        },
        Cmd::Chmod { path, mode } => after == before && match r {
            Event::OpOk { message } => message@ == "Permissions set to "@ + oct(mode as nat),
            Event::Error(m) => exists|e: Error| m@ == #[trigger] error_message(e),
            _ => false,
        },
        Cmd::CopyFile { src, dst } => changes_only(before, after, dst@) && match r {
            Event::OpOk { message } => message@ == "Copied to "@ + dst@,
            Event::Error(m) => exists|e: Error| m@ == #[trigger] error_message(e),
            _ => false,
        },
        Cmd::Exec { cmd } => match r {
            Event::ExecResult { .. } => true,
            Event::Error(m) => exists|e: Error| m@ == "exec failed: "@ + #[trigger] error_message(e),
            _ => false,
        },
        Cmd::Find { base, mask } => after == before && match r {
            Event::FindResults { base: b, mask: k, hits } => {
                &&& b == base
                &&& k == mask
                &&& hits.len() <= 500
                &&& forall|i: int| 0 <= i < hits.len() ==> is_hit(before, base@, mask@, #[trigger] hits@[i])
                &&& hits.len() < 500 ==> forall|n: Seq<char>|
                    top_match(before, base@, mask@, n) ==> #[trigger] has_hit(hits@, join_path(base@, n))
                &&& hits.len() < 500 ==> forall|names: Seq<Seq<char>>|
                    nested_match(before, base@, mask@, names) && chain_clear(unlisted, base@, names)
                        ==> #[trigger] has_hit(hits@, path_of(base@, names))
            },
            Event::Error(m) => exists|e: Error| m@ == "find failed: "@ + #[trigger] error_message(e),
            _ => false,
        },
        _ => false,
    }
}

/// The commands a window browses and manages the remote side with.
pub open spec fn is_browse<H>(cmd: Cmd<H>) -> bool {
    ||| cmd is List
    ||| cmd is Mkdir
    ||| cmd is Delete
    ||| cmd is Rename
    ||| cmd is Chmod
    ||| cmd is CopyFile
    ||| cmd is Exec
    ||| cmd is Find
}

/// Is `cmd` a browse or management command?
fn browse_command<H>(cmd: &Cmd<H>) -> (r: bool)
    ensures
        r == is_browse(*cmd),
{
    match cmd {
        Cmd::List { .. } | Cmd::Mkdir { .. } | Cmd::Delete { .. } | Cmd::Rename { .. }
        | Cmd::Chmod { .. } | Cmd::CopyFile { .. } | Cmd::Exec { .. } | Cmd::Find { .. } => true,
        _ => false,
    }
}

/// The reply of a worker without a session.
pub open spec fn not_connected(r: Event) -> bool {
    r matches Event::Error(m) && m@ == "not connected"@
}

impl<T: Transport + ?Sized> Worker<T> {
    pub fn new() -> (r: Self)
        ensures
            r.session.is_none(),
            r.creds.is_none(),
    {
        Worker { session: None, creds: None }
    }

    /// A browse or management command: run it on the session and report
    /// the outcome. Other commands are not handled here (`None`).
    pub fn browse<H>(&mut self, cmd: Cmd<H>) -> (r: Option<Event>)
        ensures
            r.is_some() == is_browse(cmd),
            final(self).creds == old(self).creds,
            final(self).session.is_some() == old(self).session.is_some(),
            is_browse(cmd) && old(self).session.is_none() ==> not_connected(r->0),
            is_browse(cmd) && old(self).session.is_some() ==> browse_ok(
                old(self).session->0.tree(),
                final(self).session->0.tree(),
                final(self).session->0.unlisted(),
                cmd,
                r->0,
            ),
    {
        if !browse_command(&cmd) {
            return None;
        }
        match &mut self.session {
            None => Some(Event::Error(owned("not connected"))),
            Some(t) => Some(Self::run_browse(t, cmd)),
        }
    }


    /// The reply to a `Connect` from a window: on success the new session
    /// replaces the old one and (unless `silent`) the start directory is
    /// listed; a listing that fails keeps the old session. An unknown host
    /// key asks the window to confirm it. `silent` suppresses every reply.
    pub fn connected(&mut self, connected: Result<Box<T>>, path: String, silent: bool) -> (r:
        Option<Event>)
        ensures
            final(self).creds == old(self).creds,
            match connected {
                Ok(t) => if silent {
                    r.is_none() && final(self).session == Some(t)
                } else {
                    match r {
                        Some(Event::Connected { path: p, entries }) => {
                            &&& p == path
                            &&& is_listing(t.tree(), path@, entries@)
                            &&& final(self).session matches Some(s) && s.tree() == t.tree()
                        },
                        Some(Event::Error(m)) => {
                            &&& final(self).session == old(self).session
                            &&& exists|e: Error| m@ == "list failed: "@ + #[trigger] error_message(e)
                        },
                        _ => false,
                    }
                },
                Err(e) => {
                    &&& final(self).session == old(self).session
                    &&& silent ==> r.is_none()
                    &&& !silent ==> match e {
                        Error::UnknownHostKey { fingerprint } => r == Some(
                            Event::HostKeyUnknown { fingerprint },
                        ),
                        _ => r matches Some(Event::Error(m)) && m@ == "connect failed: "@
                            + error_message(e),
                    }
                },
            },
    {
        match connected {
            Ok(mut t) => {
                if silent {
                    self.session = Some(t);
                    None
                } else {
                    match t.list_dir(path.as_str()) {
                        Ok(entries) => {
                            self.session = Some(t);
                            Some(Event::Connected { path, entries })
                        },
                        Err(e) => Some(Event::Error(error_text("list failed: ", &e))),
                    }
                }
            },
            Err(e) => {
                if silent {
                    None
                } else {
                    match e {
                        Error::UnknownHostKey { fingerprint } => Some(
                            Event::HostKeyUnknown { fingerprint },
                        ),
                        _ => Some(Event::Error(error_text("connect failed: ", &e))),
                    }
                }
            },
        }
    }

    /// A pool worker's `Connect`: quiet; the outcome replaces the session
    /// (a failed connect leaves none) and the credentials are kept for
    /// reconnecting later.
    pub fn adopt(&mut self, connected: Result<Box<T>>, creds: Credentials)
        ensures
            final(self).creds == Some(creds),
            final(self).session == (match connected {
                Ok(t) => Some(t),
                Err(_) => None,
            }),
    {
        self.session = match connected {
            Ok(t) => Some(t),
            Err(_) => None,
        };
        self.creds = Some(creds);
    }

    /// Before a pool worker's transfer: the credentials to reconnect with,
    /// when the session is gone and some were kept.
    pub fn reconnect_with(&self) -> (r: Option<Credentials>)
        ensures
            r == (if self.session.is_none() {
                self.creds
            } else {
                None
            }),
    {
        if self.session.is_none() {
            match &self.creds {
                Some(c) => Some(c.duplicate()),
                None => None,
            }
        } else {
            None
        }
    }

    /// The outcome of a reconnect: a new session, or still none.
    pub fn reconnected(&mut self, connected: Result<Box<T>>)
        ensures
            final(self).creds == old(self).creds,
            final(self).session == (match connected {
                Ok(t) => Some(t),
                Err(_) => None,
            }),
    {
        self.session = match connected {
            Ok(t) => Some(t),
            Err(_) => None,
        };
    }

    /// A sync dry run on the session, given a snapshot of the local side:
    /// the planned copies and (with `delete_extraneous`) deletions, or the
    /// failure. Planning never changes the remote tree.
    pub fn sync_plan(
        &mut self,
        download: bool,
        local: String,
        snapshot: &Vec<LocalEntry>,
        remote: String,
        excludes: &str,
        delete_extraneous: bool,
    ) -> (r: Event)
        ensures
            final(self).creds == old(self).creds,
            old(self).session.is_none() ==> final(self).session.is_none() && not_connected(r),
            old(self).session.is_some() ==> {
                &&& final(self).session is Some
                &&& final(self).session->0.tree() == old(self).session->0.tree()
                &&& match r {
                    Event::SyncPlanReady { download: d, local: l, remote: m, plan } => {
                        &&& d == download
                        &&& l == local
                        &&& m == remote
                        &&& sync_plan_ok(
                            old(self).session->0.tree(),
                            final(self).session->0.unlisted(),
                            snapshot@,
                            remote@,
                            (if download { SyncDirection::Download } else { SyncDirection::Upload }),
                            parse_filter(excludes@),
                            delete_extraneous,
                            plan,
                        )
                    },
                    Event::Error(m) => download && exists|e: Error| m@ == "sync preview failed: "@
                        + #[trigger] error_message(e),
                    _ => false,
                }
            },
    {
        let dir = direction_of(download);
        let filter = Filter::parse(excludes);
        let opts = SyncOptions { delete: delete_extraneous };
        match &mut self.session {
            None => Event::Error(owned("not connected")),
            Some(t) => match plan_sync_opts(&mut **t, snapshot, remote.as_str(), dir, &filter, &opts) {
                Ok(plan) => Event::SyncPlanReady { download, local, remote, plan },
                Err(e) => Event::Error(error_text("sync preview failed: ", &e)),
            },
        }
    }

    fn run_browse<H>(t: &mut Box<T>, cmd: Cmd<H>) -> (r: Event)
        requires
            is_browse(cmd),
        ensures
            browse_ok(old(t).tree(), final(t).tree(), final(t).unlisted(), cmd, r),
    {
        match cmd {
            Cmd::List { path } => match t.list_dir(path.as_str()) {
                Ok(entries) => Event::Listed { path, entries },
                Err(e) => Event::Error(error_text("list failed: ", &e)),
            },
            Cmd::Mkdir { path } => match t.mkdir(path.as_str()) {
                Ok(()) => Event::OpOk { message: prefixed("Created ", path.as_str()) },
                Err(e) => Event::Error(e.message()),
            },
            Cmd::Delete { path, is_dir } => {
                let res = if is_dir {
                    remove_dir_all(&mut **t, path.as_str())
                } else {
                    t.remove_file(path.as_str())
                };
                match res {
                    Ok(()) => Event::OpOk { message: prefixed("Deleted ", path.as_str()) },
                    Err(e) => Event::Error(e.message()),
                }
            },
            Cmd::Rename { from, to } => match t.rename(from.as_str(), to.as_str()) {
                Ok(()) => Event::OpOk { message: prefixed("Renamed to ", to.as_str()) },
                Err(e) => Event::Error(e.message()),
            },
            Cmd::Chmod { path, mode } => match t.set_permissions(path.as_str(), mode) {
                Ok(()) => {
                    let mut cs = chars_of("Permissions set to ");
                    let o = u32_to_oct(mode);
                    push_all(&mut cs, &o);
                    Event::OpOk { message: string_of(cs.as_slice()) }
                },
                Err(e) => Event::Error(e.message()),
            },
            Cmd::CopyFile { src, dst } => match t.copy_file(src.as_str(), dst.as_str()) {
                Ok(_) => Event::OpOk { message: prefixed("Copied to ", dst.as_str()) },
                Err(e) => Event::Error(e.message()),
            },
            Cmd::Exec { cmd } => match t.exec_command(cmd.as_str()) {
                Ok(r) => Event::ExecResult { exit_code: r.exit_code, stdout: r.stdout, stderr: r.stderr },
                Err(e) => Event::Error(error_text("exec failed: ", &e)),
            },
            Cmd::Find { base, mask } => {
                let mut go = || -> (b: bool)
                    ensures
                        b,
                    { true };
                match find(&mut **t, base.as_str(), mask.as_str(), 500, &mut go) {
                    Ok(hits) => Event::FindResults { base, mask, hits },
                    Err(e) => Event::Error(error_text("find failed: ", &e)),
                }
            },
            _ => Event::Error(owned("not connected")),
        }
    }
}

} // verus!
