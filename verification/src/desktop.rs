//! The desktop front-end's session logic: how the connect form becomes
//! credentials, what a connect attempt reports to the UI, the records the UI
//! is sent, the sync manager, the session registry, the preferences record
//! and the bookkeeping of each session's transfer queue. Windows, threads,
//! channels and connections belong to the caller.

use vstd::prelude::*;

use crate::ops::{
    plan_sync_opts, sync_plan_ok, Filter, LocalEntry, PlanItem, PlanReason, SyncDirection,
    SyncOptions, SyncPlan,
};
use crate::transport::{RemoteNode, Transport};
use crate::text::{chars_of, owned, push_str, str_eq, string_of};
use crate::types::{error_message, Auth, Credentials, Entry, Error, HostKeyPolicy, JumpHost, Protocol};

verus! {

// ---------------------------------------------------------------------------
// Connect form
// ---------------------------------------------------------------------------

/// The connect dialog's fields.
#[derive(Debug, Clone)]
pub struct ConnectForm {
    pub protocol: String,
    pub host: String,
    pub port: u16,
    pub username: String,
    pub password: String,
    /// "password" | "key" | "agent"
    pub auth_mode: String,
    pub key_path: String,
    pub bucket: String,
    pub region: String,
    pub path: String,
    /// SFTP jump host (bastion / ProxyJump).
    pub use_jump: bool,
    pub jump_host: String,
    pub jump_port: u16,
    pub jump_user: String,
    pub jump_password: String,
    pub jump_auth_mode: String,
    pub jump_key_path: String,
}

/// The protocol a form names.
pub open spec fn protocol_named(s: Seq<char>) -> Option<Protocol> {
    if s == "sftp"@ {
        Some(Protocol::Sftp)
    } else if s == "ftp"@ {
        Some(Protocol::Ftp)
    } else if s == "ftps"@ {
        Some(Protocol::Ftps)
    } else if s == "s3"@ {
        Some(Protocol::S3)
    } else {
        None
    }
}

/// The protocol named `s`, or the message for an unknown one.
pub fn proto_from_str(s: &str) -> (r: core::result::Result<Protocol, String>)
    ensures
        match r {
            Ok(p) => protocol_named(s@) == Some(p),
            Err(m) => protocol_named(s@).is_none() && m@ == "unknown protocol: "@ + s@,
        },
{
    if str_eq(s, "sftp") {
        Ok(Protocol::Sftp)
    } else if str_eq(s, "ftp") {
        Ok(Protocol::Ftp)
    } else if str_eq(s, "ftps") {
        Ok(Protocol::Ftps)
    } else if str_eq(s, "s3") {
        Ok(Protocol::S3)
    } else {
        let mut cs = chars_of("unknown protocol: ");
        push_str(&mut cs, s);
        Err(string_of(cs.as_slice()))
    }
}

/// `s` when it is not empty.
pub open spec fn non_empty(s: String) -> Option<String> {
    if s@.len() > 0 {
        Some(s)
    } else {
        None
    }
}

fn non_empty_copy(s: &String) -> (r: Option<String>)
    ensures
        r == non_empty(*s),
{
    if s.as_str().is_empty() {
        None
    } else {
        Some(s.clone())
    }
}

/// The auth an auth-mode field selects: a key file (the password doubling
/// as its passphrase), the agent, or else the password.
pub open spec fn auth_for(mode: Seq<char>, password: String, key_path: String) -> Auth {
    if mode == "key"@ {
        Auth::KeyFile { path: key_path, passphrase: non_empty(password) }
    } else if mode == "agent"@ {
        Auth::Agent
    } else {
        Auth::Password(password)
    }
}

fn auth_from_mode(mode: &str, password: &String, key_path: &String) -> (r: Auth)
    ensures
        r == auth_for(mode@, *password, *key_path),
{
    if str_eq(mode, "key") {
        Auth::KeyFile { path: key_path.clone(), passphrase: non_empty_copy(password) }
    } else if str_eq(mode, "agent") {
        Auth::Agent
    } else {
        Auth::Password(password.clone())
    }
}

/// The bastion a form asks for: SFTP only, when enabled and named; port 0
/// means 22, and the bastion's key is trusted on first use.
pub open spec fn form_jump(f: ConnectForm) -> Option<JumpHost> {
    if f.use_jump && f.jump_host@.len() > 0 {
        Some(
            JumpHost {
                host: f.jump_host,
                port: if f.jump_port == 0 {
                    22
                } else {
                    f.jump_port
                },
                username: f.jump_user,
                auth: auth_for(f.jump_auth_mode@, f.jump_password, f.jump_key_path),
                host_key: HostKeyPolicy::AcceptNew,
            },
        )
    } else {
        None
    }
}

/// The credentials a form gives for protocol `p`.
pub open spec fn creds_from_form(f: ConnectForm, p: Protocol, host_key: HostKeyPolicy) -> Credentials {
    Credentials {
        protocol: p,
        host: f.host,
        port: f.port,
        username: f.username,
        auth: if p == Protocol::Sftp {
            auth_for(f.auth_mode@, f.password, f.key_path)
        } else {
            Auth::Password(f.password)
        },
        bucket: if p == Protocol::S3 {
            non_empty(f.bucket)
        } else {
            None
        },
        region: if p == Protocol::S3 {
            non_empty(f.region)
        } else {
            None
        },
        host_key,
        jump: if p == Protocol::Sftp {
            form_jump(f)
        } else {
            None
        },
    }
}

/// Credentials from the connect form; fails only on an unknown protocol.
pub fn build_creds(form: &ConnectForm, host_key: HostKeyPolicy) -> (r: core::result::Result<
    Credentials,
    String,
>)
    ensures
        match r {
            Ok(c) => protocol_named(form.protocol@) == Some(c.protocol) && c == creds_from_form(
                *form,
                c.protocol,
                host_key,
            ),
            Err(m) => protocol_named(form.protocol@).is_none() && m@ == "unknown protocol: "@
                + form.protocol@,
        },
{
    let protocol = match proto_from_str(form.protocol.as_str()) {
        Ok(p) => p,
        Err(m) => {
            return Err(m);
        },
    };
    let auth = if protocol == Protocol::Sftp {
        auth_from_mode(form.auth_mode.as_str(), &form.password, &form.key_path)
    } else {
        Auth::Password(form.password.clone())
    };
    let mut creds = Credentials::basic(
        protocol,
        form.host.clone(),
        form.port,
        form.username.clone(),
        auth,
    );
    creds.host_key = host_key;
    if protocol == Protocol::S3 {
        creds.bucket = non_empty_copy(&form.bucket);
        creds.region = non_empty_copy(&form.region);
    }
    if protocol == Protocol::Sftp && form.use_jump && !form.jump_host.as_str().is_empty() {
        let jauth = auth_from_mode(
            form.jump_auth_mode.as_str(),
            &form.jump_password,
            &form.jump_key_path,
        );
        creds.jump = Some(
            JumpHost {
                host: form.jump_host.clone(),
                port: if form.jump_port == 0 {
                    22
                } else {
                    form.jump_port
                },
                username: form.jump_user.clone(),
                auth: jauth,
                host_key: HostKeyPolicy::AcceptNew,
            },
        );
    }
    Ok(creds)
}

/// Host-key policy of a connect attempt: pinned to the fingerprint the user
/// approved, or strict when there is none yet.
pub fn host_key_for(trust_fingerprint: Option<String>) -> (r: HostKeyPolicy)
    ensures
        match trust_fingerprint {
            Some(fp) => r == HostKeyPolicy::AcceptFingerprint(fp),
            None => r == HostKeyPolicy::Strict,
        },
{
    match trust_fingerprint {
        Some(fp) => HostKeyPolicy::AcceptFingerprint(fp),
        None => HostKeyPolicy::Strict,
    }
}

/// The directory a new session opens: the form's, or "/".
pub fn start_path(path: &str) -> (r: String)
    ensures
        path@.len() == 0 ==> r@ == "/"@,
        path@.len() > 0 ==> r@ == path@,
{
    if path.is_empty() {
        owned("/")
    } else {
        owned(path)
    }
}

// ---------------------------------------------------------------------------
// Records sent to the UI
// ---------------------------------------------------------------------------

/// A directory entry as the UI receives it.
#[derive(Debug, Clone)]
pub struct EntryDto {
    pub name: String,
    pub is_dir: bool,
    pub is_symlink: bool,
    pub size: u64,
    pub mtime: Option<i64>,
    pub perms: Option<String>,
    pub uid: Option<u32>,
    pub gid: Option<u32>,
}

pub open spec fn entry_dto_of(e: Entry) -> EntryDto {
    EntryDto {
        name: e.name,
        is_dir: e.is_dir,
        is_symlink: e.is_symlink,
        size: e.size,
        mtime: e.mtime,
        perms: e.perms,
        uid: e.uid,
        gid: e.gid,
    }
}

impl EntryDto {
    pub fn from_entry(e: &Entry) -> (r: Self)
        ensures
            r == entry_dto_of(*e),
    {
        EntryDto {
            name: e.name.clone(),
            is_dir: e.is_dir,
            is_symlink: e.is_symlink,
            size: e.size,
            mtime: e.mtime,
            perms: crate::types::copy_opt_string(&e.perms),
            uid: e.uid,
            gid: e.gid,
        }
    }
}

/// The UI records of a listing, in order.
pub fn entry_dtos(entries: &Vec<Entry>) -> (r: Vec<EntryDto>)
    ensures
        r@.len() == entries@.len(),
        forall|i: int| 0 <= i < r@.len() ==> #[trigger] r@[i] == entry_dto_of(entries@[i]),
{
    let mut out: Vec<EntryDto> = Vec::new();
    let mut k: usize = 0;
    while k < entries.len()
        invariant
            k <= entries.len(),
            out@.len() == k,
            forall|i: int| 0 <= i < k ==> #[trigger] out@[i] == entry_dto_of(entries@[i]),
        decreases entries.len() - k,
    {
        out.push(EntryDto::from_entry(&entries[k]));
        k = k + 1;
    }
    out
}

/// Result of a connect attempt; drives the host-key trust prompt in the UI.
#[derive(Debug)]
pub enum ConnectResult {
    Connected { session_id: u32, entries: Vec<EntryDto>, path: String },
    UnknownHostKey { fingerprint: String },
    HostKeyMismatch { fingerprint: String },
    Error { message: String },
}

/// What the UI is told when connecting (or the first listing) failed: the
/// host-key cases carry the fingerprint for the prompt, the rest the message.
pub fn connect_failure(e: Error) -> (r: ConnectResult)
    ensures
        match e {
            Error::UnknownHostKey { fingerprint } => r == ConnectResult::UnknownHostKey {
                fingerprint,
            },
            Error::HostKeyMismatch { fingerprint } => r == ConnectResult::HostKeyMismatch {
                fingerprint,
            },
            _ => (r matches ConnectResult::Error { message } && message@ == error_message(e)),
        },
{
    match e {
        Error::UnknownHostKey { fingerprint } => ConnectResult::UnknownHostKey { fingerprint },
        Error::HostKeyMismatch { fingerprint } => ConnectResult::HostKeyMismatch { fingerprint },
        other => {
            let message = other.message();
            ConnectResult::Error { message }
        },
    }
}

/// Output of a remote command, as the UI receives it.
#[derive(Debug, Clone)]
pub struct ExecDto {
    pub exit_code: i32,
    pub stdout: String,
    pub stderr: String,
}

/// A trusted host, as the UI receives it.
#[derive(Debug, Clone)]
pub struct KnownHostDto {
    pub host: String,
    pub key_type: String,
}

/// One file of a sync preview, as the UI receives it.
#[derive(Debug, Clone)]
pub struct PlanItemDto {
    pub rel: String,
    pub size: u64,
    pub reason: String,
}

/// A sync preview, as the UI receives it.
#[derive(Debug, Clone)]
pub struct SyncPlanDto {
    pub items: Vec<PlanItemDto>,
    pub dirs: Vec<String>,
    pub deletes: Vec<String>,
}

pub open spec fn reason_label(r: PlanReason) -> Seq<char> {
    match r {
        PlanReason::Missing => "missing"@,
        PlanReason::SizeDiffers => "size differs"@,
        PlanReason::Newer => "newer"@,
    }
}

/// `dto` shows `plan`: each item with its reason's label, the same
/// directories and deletions.
pub open spec fn dto_shows(dto: SyncPlanDto, plan: SyncPlan) -> bool {
    &&& dto.items@.len() == plan.items@.len()
    &&& forall|i: int|
        0 <= i < dto.items@.len() ==> (#[trigger] dto.items@[i]).rel == plan.items@[i].rel
            && dto.items@[i].size == plan.items@[i].size && dto.items@[i].reason@ == reason_label(
            plan.items@[i].reason,
        )
    &&& dto.dirs == plan.dirs
    &&& dto.deletes == plan.deletes
}

/// `dto` shows a plan that meets [`sync_plan_ok`] for these arguments.
pub open spec fn shows_sync_plan(
    tree: Map<Seq<char>, RemoteNode>,
    unlisted: Set<Seq<char>>,
    local: Seq<LocalEntry>,
    remote: Seq<char>,
    direction: SyncDirection,
    delete: bool,
    dto: SyncPlanDto,
) -> bool {
    exists|p: SyncPlan|
        sync_plan_ok(tree, unlisted, local, remote, direction, Seq::empty(), delete, p) && #[trigger] dto_shows(
            dto,
            p,
        )
}

/// The UI record of a sync plan: each item with its reason's label.
pub fn plan_dto(plan: SyncPlan) -> (r: SyncPlanDto)
    ensures
        dto_shows(r, plan),
{
    let mut items: Vec<PlanItemDto> = Vec::new();
    let mut k: usize = 0;
    while k < plan.items.len()
        invariant
            k <= plan.items.len(),
            items@.len() == k,
            forall|i: int|
                0 <= i < k ==> (#[trigger] items@[i]).rel == plan.items@[i].rel && items@[i].size
                    == plan.items@[i].size && items@[i].reason@ == reason_label(
                    plan.items@[i].reason,
                ),
        decreases plan.items.len() - k,
    {
        let it: &PlanItem = &plan.items[k];
        let label = it.reason.label();
        items.push(PlanItemDto { rel: it.rel.clone(), size: it.size, reason: owned(label) });
        k = k + 1;
    }
    SyncPlanDto { items, dirs: plan.dirs, deletes: plan.deletes }
}

// ---------------------------------------------------------------------------
// Sync manager
// ---------------------------------------------------------------------------

/// The direction a sync request names.
pub open spec fn direction_named(s: Seq<char>) -> Option<SyncDirection> {
    if s == "upload"@ {
        Some(SyncDirection::Upload)
    } else if s == "download"@ {
        Some(SyncDirection::Download)
    } else {
        None
    }
}

pub fn parse_direction(s: &str) -> (r: core::result::Result<SyncDirection, String>)
    ensures
        match r {
            Ok(d) => direction_named(s@) == Some(d),
            Err(m) => direction_named(s@).is_none() && m@ == "unknown sync direction: "@ + s@,
        },
{
    if str_eq(s, "upload") {
        Ok(SyncDirection::Upload)
    } else if str_eq(s, "download") {
        Ok(SyncDirection::Download)
    } else {
        let mut cs = chars_of("unknown sync direction: ");
        push_str(&mut cs, s);
        Err(string_of(cs.as_slice()))
    }
}

/// Holds a session's credentials so a sync can open its own dedicated link.
#[derive(Debug)]
pub struct SyncManager {
    pub sid: u32,
    pub creds: Option<Credentials>,
}

impl SyncManager {
    pub fn new(sid: u32) -> (r: Self)
        ensures
            r.sid == sid,
            r.creds.is_none(),
    {
        SyncManager { sid, creds: None }
    }

    pub fn set_creds(&mut self, creds: Credentials)
        ensures
            final(self).sid == old(self).sid,
            final(self).creds == Some(creds),
    {
        self.creds = Some(creds);
    }

    /// What a sync request (preview or run) needs before connecting: its
    /// direction and the session's credentials. A bad direction is reported
    /// first, then a session that never connected.
    pub fn request(&self, direction: &str) -> (r: core::result::Result<
        (SyncDirection, Credentials),
        String,
    >)
        ensures
            match r {
                Ok((d, c)) => direction_named(direction@) == Some(d) && self.creds == Some(c),
                Err(m) => if direction_named(direction@).is_none() {
                    m@ == "unknown sync direction: "@ + direction@
                } else {
                    self.creds.is_none() && m@ == "not connected"@
                },
            },
    {
        let d = match parse_direction(direction) {
            Ok(d) => d,
            Err(m) => {
                return Err(m);
            },
        };
        match &self.creds {
            Some(c) => Ok((d, c.duplicate())),
            None => Err(owned("not connected")),
        }
    }

    /// Dry run: what a sync of the local folder (given as a snapshot) with
    /// the remote directory `remote` would copy and, in `mirror` mode,
    /// delete, without touching anything. `t` is the sync's own connection,
    /// opened with the credentials [`SyncManager::request`] hands out. A bad
    /// direction is reported first, then a session that never connected;
    /// then the preview or the planner's error.
    pub fn plan<T: Transport + ?Sized>(
        &self,
        t: &mut T,
        local: &Vec<LocalEntry>,
        remote: &str,
        direction: &str,
        mirror: bool,
    ) -> (r: core::result::Result<SyncPlanDto, String>)
        ensures
            final(t).tree() == old(t).tree(),
            direction_named(direction@).is_none() ==> (r matches Err(m) && m@
                == "unknown sync direction: "@ + direction@),
            direction_named(direction@).is_some() && self.creds.is_none() ==> (r matches Err(m) && m@
                == "not connected"@),
            direction_named(direction@) == Some(SyncDirection::Upload) && self.creds.is_some() ==> r is Ok,
            direction_named(direction@).is_some() && self.creds.is_some() ==> match r {
                Ok(dto) => shows_sync_plan(
                    old(t).tree(),
                    final(t).unlisted(),
                    local@,
                    remote@,
                    direction_named(direction@)->0,
                    mirror,
                    dto,
                ),
                Err(m) => exists|e: Error| m@ == #[trigger] error_message(e),
            },
    {
        let dir = match self.request(direction) {
            Ok((d, _creds)) => d,
            Err(m) => {
                return Err(m);
            },
        };
        let filter = Filter::empty();
        let opts = SyncOptions { delete: mirror };
        match plan_sync_opts(t, local, remote, dir, &filter, &opts) {
            Ok(plan) => {
                let ghost p = plan;
                let dto = plan_dto(plan);
                assert(filter@ == Seq::<(Seq<char>, bool)>::empty());
                assert(sync_plan_ok(
                    old(t).tree(),
                    final(t).unlisted(),
                    local@,
                    remote@,
                    direction_named(direction@)->0,
                    Seq::empty(),
                    mirror,
                    p,
                ) && dto_shows(dto, p));
                assert(shows_sync_plan(
                    old(t).tree(),
                    final(t).unlisted(),
                    local@,
                    remote@,
                    direction_named(direction@)->0,
                    mirror,
                    dto,
                ));
                Ok(dto)
            },
            Err(e) => Err(e.message()),
        }
    }
}

// ---------------------------------------------------------------------------
// Preferences record
// ---------------------------------------------------------------------------

/// The default for switches that start on.
pub fn yes() -> (r: bool)
    ensures
        r,
{
    true
}

/// The default number of parallel transfers.
pub fn two() -> (r: u32)
    ensures
        r == 2,
{
    2
}

/// The desktop app's preferences.
#[derive(Debug, Clone, Copy)]
pub struct Prefs {
    pub show_hidden: bool,
    pub confirm_delete: bool,
    pub confirm_overwrite: bool,
    pub atomic_uploads: bool,
    pub max_parallel: u32,
    /// Show Owner/Group columns on the remote pane.
    pub show_owner_group: bool,
}

impl Default for Prefs {
    fn default() -> (r: Self)
        ensures
            !r.show_hidden,
            r.confirm_delete,
            r.confirm_overwrite,
            r.atomic_uploads,
            r.max_parallel == 2,
            !r.show_owner_group,
    {
        Prefs {
            show_hidden: false,
            confirm_delete: yes(),
            confirm_overwrite: yes(),
            atomic_uploads: yes(),
            max_parallel: two(),
            show_owner_group: false,
        }
    }
}

// ---------------------------------------------------------------------------
// Transfer queue bookkeeping
// ---------------------------------------------------------------------------

/// Worker count used while no target is set.
pub const DEFAULT_PARALLEL: u64 = 2;

/// The bookkeeping of one session's transfer queue: the credentials the
/// workers connect with and their generation, job ids, the worker target and
/// count, the speed cap, the pause switch and each queued or running job's
/// cancel flag. The workers share it; the caller keeps it behind a lock.
#[derive(Debug)]
pub struct TransferManager {
    /// The session this queue belongs to; stamped onto every event.
    pub sid: u32,
    pub creds: Option<Credentials>,
    /// Bumped whenever the session (re)connects; each worker rebuilds its
    /// connection when this moves past the generation it built for.
    pub creds_gen: u64,
    pub next_id: u64,
    /// Desired number of live workers (0 means the default).
    pub target: u64,
    /// Current number of live workers.
    pub workers: u64,
    /// Transfer speed cap in KiB/s (0 = unlimited).
    pub speed_kbs: u64,
    /// When true, in-flight transfers wait at their next progress tick.
    pub paused: bool,
    /// Cancel flags of queued and running jobs, by id.
    pub cancels: std::collections::HashMap<u64, bool>,
}

/// The worker count a target asks for.
pub open spec fn effective(target: u64) -> u64 {
    if target == 0 {
        DEFAULT_PARALLEL
    } else {
        target
    }
}

/// `x + 1` wrapping at the type's bound, as the shared counters count.
pub open spec fn bump(x: u64) -> u64 {
    if x == u64::MAX {
        0
    } else {
        (x + 1) as u64
    }
}

/// Everything but the cancel flags and the worker count agrees.
pub open spec fn same_settings(a: TransferManager, b: TransferManager) -> bool {
    &&& a.sid == b.sid
    &&& a.creds == b.creds
    &&& a.creds_gen == b.creds_gen
    &&& a.next_id == b.next_id
    &&& a.target == b.target
    &&& a.speed_kbs == b.speed_kbs
    &&& a.paused == b.paused
}

/// What a worker does with the job it just took.
#[derive(Debug)]
pub enum JobStart {
    /// Cancelled while queued: report it and drop it.
    Cancelled,
    /// Rebuild the connection first, with these credentials (none: the job
    /// fails as "not connected"), remembering the generation.
    Reconnect { creds: Option<Credentials>, generation: u64 },
    /// Run it on the current connection.
    Run,
}

/// How a finished job is reported.
#[derive(Debug, Clone)]
pub enum JobOutcome {
    Done,
    Cancelled,
    Failed { message: String },
}

/// Connection-level failures: the worker drops its connection and rebuilds
/// it for the next job.
pub open spec fn spec_is_transient(e: Error) -> bool {
    e is Connect || e is Io
}

pub fn is_transient(e: &Error) -> (r: bool)
    ensures
        r == spec_is_transient(*e),
{
    match e {
        Error::Connect(_) => true,
        Error::Io(_) => true,
        _ => false,
    }
}

/// The report of a finished job, and whether the worker must drop its
/// connection.
pub fn job_outcome(result: core::result::Result<u64, Error>) -> (r: (JobOutcome, bool))
    ensures
        match result {
            Ok(_) => r.0 is Done && !r.1,
            Err(Error::Cancelled) => r.0 is Cancelled && !r.1,
            Err(e) => (r.0 matches JobOutcome::Failed { message } && message@ == error_message(e))
                && r.1 == spec_is_transient(e),
        },
{
    match result {
        Ok(_) => (JobOutcome::Done, false),
        Err(Error::Cancelled) => (JobOutcome::Cancelled, false),
        Err(e) => {
            let drop = is_transient(&e);
            (JobOutcome::Failed { message: e.message() }, drop)
        },
    }
}

/// `a * b`, or the largest value when that overflows.
pub open spec fn sat_mul(a: u64, b: u64) -> u64 {
    if a * b > u64::MAX {
        u64::MAX
    } else {
        (a * b) as u64
    }
}

fn saturating_mul(a: u64, b: u64) -> (r: u64)
    ensures
        r == sat_mul(a, b),
{
    match a.checked_mul(b) {
        Some(v) => v,
        None => u64::MAX,
    }
}

/// The speed cap's pause after progress reached `done`: the time the bytes
/// since `last_done` take at `kbs` KiB/s, in microseconds; none while no
/// bytes moved or without a cap.
pub open spec fn gate_delay(last_done: u64, done: u64, kbs: u64) -> u64 {
    if done > last_done && kbs > 0 {
        (sat_mul((done - last_done) as u64, 1_000_000) / (if sat_mul(kbs, 1024) == 0 {
            1
        } else {
            sat_mul(kbs, 1024)
        })) as u64
    } else {
        0
    }
}

/// The speed gate of a transfer: how long to sleep (microseconds) and the
/// new baseline. Only forward progress moves the baseline, so ticks that
/// report no bytes do not reset it.
pub fn speed_gate(last_done: u64, done: u64, kbs: u64) -> (r: (u64, u64))
    ensures
        r.0 == gate_delay(last_done, done, kbs),
        r.1 == (if done > last_done {
            done
        } else {
            last_done
        }),
{
    if done > last_done {
        let mut micros: u64 = 0;
        if kbs > 0 {
            let chunk = done - last_done;
            let rate = saturating_mul(kbs, 1024);
            let div: u64 = if rate == 0 {
                1
            } else {
                rate
            };
            micros = saturating_mul(chunk, 1_000_000) / div;
        }
        (micros, done)
    } else {
        (0, last_done)
    }
}

impl TransferManager {
    pub fn new(sid: u32) -> (r: Self)
        ensures
            r.sid == sid,
            r.creds.is_none(),
            r.creds_gen == 0,
            r.next_id == 0,
            r.target == 0,
            r.workers == 0,
            r.speed_kbs == 0,
            !r.paused,
            r.cancels@ == Map::<u64, bool>::empty(),
    {
        TransferManager {
            sid,
            creds: None,
            creds_gen: 0,
            next_id: 0,
            target: 0,
            workers: 0,
            speed_kbs: 0,
            paused: false,
            cancels: std::collections::HashMap::new(),
        }
    }

    /// The number of workers wanted.
    pub fn effective_target(&self) -> (r: u64)
        ensures
            r == effective(self.target),
    {
        if self.target == 0 {
            DEFAULT_PARALLEL
        } else {
            self.target
        }
    }

    /// Remember the session's credentials for the workers; bump the
    /// generation so each worker reconnects before its next job.
    pub fn set_creds(&mut self, creds: Credentials)
        ensures
            final(self).creds == Some(creds),
            final(self).creds_gen == bump(old(self).creds_gen),
            final(self).sid == old(self).sid,
            final(self).next_id == old(self).next_id,
            final(self).target == old(self).target,
            final(self).workers == old(self).workers,
            final(self).speed_kbs == old(self).speed_kbs,
            final(self).paused == old(self).paused,
            final(self).cancels@ == old(self).cancels@,
    {
        self.creds = Some(creds);
        self.creds_gen = self.creds_gen.wrapping_add(1);
    }

    /// Cap transfer speed in KiB/s (0 = unlimited).
    pub fn set_speed(&mut self, kbs: u64)
        ensures
            final(self).speed_kbs == kbs,
            final(self).sid == old(self).sid,
            final(self).creds == old(self).creds,
            final(self).creds_gen == old(self).creds_gen,
            final(self).next_id == old(self).next_id,
            final(self).target == old(self).target,
            final(self).workers == old(self).workers,
            final(self).paused == old(self).paused,
            final(self).cancels@ == old(self).cancels@,
    {
        self.speed_kbs = kbs;
    }

    /// Pause/resume: paused transfers wait at their next progress tick.
    pub fn set_paused(&mut self, paused: bool)
        ensures
            final(self).paused == paused,
            final(self).sid == old(self).sid,
            final(self).creds == old(self).creds,
            final(self).creds_gen == old(self).creds_gen,
            final(self).next_id == old(self).next_id,
            final(self).target == old(self).target,
            final(self).workers == old(self).workers,
            final(self).speed_kbs == old(self).speed_kbs,
            final(self).cancels@ == old(self).cancels@,
    {
        self.paused = paused;
    }

    /// Set the desired number of concurrent transfer workers (at least 1).
    pub fn set_max(&mut self, n: u32)
        ensures
            final(self).target == (if n == 0 {
                1
            } else {
                n as u64
            }),
            final(self).sid == old(self).sid,
            final(self).creds == old(self).creds,
            final(self).creds_gen == old(self).creds_gen,
            final(self).next_id == old(self).next_id,
            final(self).workers == old(self).workers,
            final(self).speed_kbs == old(self).speed_kbs,
            final(self).paused == old(self).paused,
            final(self).cancels@ == old(self).cancels@,
    {
        let m: u32 = if n < 1 {
            1
        } else {
            n
        };
        self.target = m as u64;
    }

    /// Cancel a queued or running transfer (unknown ids are ignored).
    pub fn cancel(&mut self, id: u64)
        ensures
            same_settings(*old(self), *final(self)),
            final(self).workers == old(self).workers,
            final(self).cancels@ == (if old(self).cancels@.contains_key(id) {
                old(self).cancels@.insert(id, true)
            } else {
                old(self).cancels@
            }),
    {
        if self.cancels.contains_key(&id) {
            self.cancels.insert(id, true);
        }
    }

    /// Whether job `id` has been cancelled.
    pub fn is_cancelled(&self, id: u64) -> (r: bool)
        ensures
            r == (self.cancels@.contains_key(id) && self.cancels@[id]),
    {
        match self.cancels.get(&id) {
            Some(c) => *c,
            None => false,
        }
    }

    /// Register a new job: its id (one past the last), a clear cancel flag,
    /// and how many workers to start so the pool reaches its target.
    pub fn enqueue(&mut self) -> (r: (u64, u64))
        ensures
            r.0 == bump(old(self).next_id),
            final(self).next_id == r.0,
            final(self).cancels@ == old(self).cancels@.insert(r.0, false),
            old(self).workers < effective(old(self).target) ==> r.1 == effective(old(self).target)
                - old(self).workers,
            old(self).workers >= effective(old(self).target) ==> r.1 == 0,
            final(self).workers == old(self).workers + r.1,
            final(self).sid == old(self).sid,
            final(self).creds == old(self).creds,
            final(self).creds_gen == old(self).creds_gen,
            final(self).target == old(self).target,
            final(self).speed_kbs == old(self).speed_kbs,
            final(self).paused == old(self).paused,
    {
        let id = self.next_id.wrapping_add(1);
        self.next_id = id;
        self.cancels.insert(id, false);
        let eff = self.effective_target();
        let mut spawn: u64 = 0;
        if self.workers < eff {
            spawn = eff - self.workers;
            self.workers = eff;
        }
        (id, spawn)
    }

    /// Before taking a job, a worker retires when the pool is above its
    /// target, never leaving it empty.
    pub fn worker_should_retire(&mut self) -> (r: bool)
        ensures
            r == (old(self).workers > effective(old(self).target) && old(self).workers > 1),
            r ==> final(self).workers == old(self).workers - 1,
            !r ==> final(self).workers == old(self).workers,
            same_settings(*old(self), *final(self)),
            final(self).cancels@ == old(self).cancels@,
    {
        let eff = self.effective_target();
        if self.workers > eff && self.workers > 1 {
            self.workers = self.workers - 1;
            true
        } else {
            false
        }
    }

    /// A worker whose queue closed leaves the pool.
    pub fn worker_gone(&mut self)
        ensures
            final(self).workers == (if old(self).workers == 0 {
                u64::MAX
            } else {
                (old(self).workers - 1) as u64
            }),
            same_settings(*old(self), *final(self)),
            final(self).cancels@ == old(self).cancels@,
    {
        self.workers = self.workers.wrapping_sub(1);
    }

    /// What a worker does with job `id`, given whether it holds a
    /// connection and the generation that connection was built for.
    pub fn job_start(&mut self, id: u64, connected: bool, my_gen: u64) -> (r: JobStart)
        ensures
            same_settings(*old(self), *final(self)),
            final(self).workers == old(self).workers,
            (old(self).cancels@.contains_key(id) && old(self).cancels@[id]) ==> (r is Cancelled
                && final(self).cancels@ == old(self).cancels@.remove(id)),
            !(old(self).cancels@.contains_key(id) && old(self).cancels@[id]) ==> {
                &&& final(self).cancels@ == old(self).cancels@
                &&& (!connected || old(self).creds_gen != my_gen) ==> r == JobStart::Reconnect {
                    creds: old(self).creds,
                    generation: old(self).creds_gen,
                }
                &&& (connected && old(self).creds_gen == my_gen) ==> r is Run
            },
    {
        if self.is_cancelled(id) {
            self.cancels.remove(&id);
            return JobStart::Cancelled;
        }
        if !connected || self.creds_gen != my_gen {
            let creds = match &self.creds {
                Some(c) => Some(c.duplicate()),
                None => None,
            };
            JobStart::Reconnect { creds, generation: self.creds_gen }
        } else {
            JobStart::Run
        }
    }

    /// A job left the queue (finished, failed or could not start).
    pub fn job_finished(&mut self, id: u64)
        ensures
            same_settings(*old(self), *final(self)),
            final(self).workers == old(self).workers,
            final(self).cancels@ == old(self).cancels@.remove(id),
    {
        self.cancels.remove(&id);
    }
}

// ---------------------------------------------------------------------------
// Session registry
// ---------------------------------------------------------------------------

/// One live server connection (a tab): its browse transport plus the
/// per-session transfer queue and sync manager.
#[derive(Debug)]
pub struct SessionState<T> {
    pub transport: Option<T>,
    pub transfers: TransferManager,
    pub sync: SyncManager,
}

impl<T> SessionState<T> {
    pub fn new(id: u32) -> (r: Self)
        ensures
            r.transport.is_none(),
            r.transfers.sid == id,
            r.transfers.creds.is_none(),
            r.transfers.creds_gen == 0,
            r.transfers.next_id == 0,
            r.transfers.target == 0,
            r.transfers.workers == 0,
            r.transfers.speed_kbs == 0,
            !r.transfers.paused,
            r.transfers.cancels@ == Map::<u64, bool>::empty(),
            r.sync.sid == id,
            r.sync.creds.is_none(),
    {
        SessionState { transport: None, transfers: TransferManager::new(id), sync: SyncManager::new(id) }
    }
}

/// Registry of the open sessions, keyed by id.
#[derive(Debug)]
pub struct Sessions<S> {
    pub map: std::collections::HashMap<u32, S>,
    pub next_id: u32,
    /// Parallel-transfer count applied to new sessions (0 = leave the default).
    pub default_parallel: u32,
}

/// The id after `x`, wrapping at the bound.
pub open spec fn next_u32(x: u32) -> u32 {
    if x == u32::MAX {
        0
    } else {
        (x + 1) as u32
    }
}

impl<S> Sessions<S> {
    pub fn new() -> (r: Self)
        ensures
            r.map@ == Map::<u32, S>::empty(),
            r.next_id == 0,
            r.default_parallel == 0,
    {
        Sessions { map: std::collections::HashMap::new(), next_id: 0, default_parallel: 0 }
    }

    pub fn get(&self, id: u32) -> (r: Option<&S>)
        ensures
            match r {
                Some(s) => self.map@.contains_key(id) && *s == self.map@[id],
                None => !self.map@.contains_key(id),
            },
    {
        self.map.get(&id)
    }

    /// Allocate a fresh session slot: the id after the last one, and the
    /// state `make` builds for it, told the parallel-transfer count to apply
    /// (none when no default is set).
    pub fn create<F: FnOnce(u32, Option<u32>) -> S>(&mut self, make: F) -> (r: u32)
        requires
            forall|id: u32, p: Option<u32>| #[trigger] make.requires((id, p)),
        ensures
            r == next_u32(old(self).next_id),
            final(self).next_id == r,
            final(self).default_parallel == old(self).default_parallel,
            exists|s: S|
                #![trigger old(self).map@.insert(r, s)]
                make.ensures(
                    (
                        r,
                        if old(self).default_parallel > 0 {
                            Some(old(self).default_parallel)
                        } else {
                            None
                        },
                    ),
                    s,
                ) && final(self).map@ == old(self).map@.insert(r, s),
    {
        let id = self.next_id.wrapping_add(1);
        self.next_id = id;
        let p = self.default_parallel;
        let par: Option<u32> = if p > 0 {
            Some(p)
        } else {
            None
        };
        let s = make(id, par);
        let ghost gs = s;
        self.map.insert(id, s);
        assert(self.map@ == old(self).map@.insert(id, gs));
        assert(make.ensures((id, par), gs));
        id
    }

    pub fn remove(&mut self, id: u32)
        ensures
            final(self).map@ == old(self).map@.remove(id),
            final(self).next_id == old(self).next_id,
            final(self).default_parallel == old(self).default_parallel,
    {
        self.map.remove(&id);
    }
}

} // verus!
