//! The dual-pane window's decisions: protocol and session labels, POSIX
//! path helpers, permission strings, navigation history, what counts as a
//! transfer conflict and what the user's choice does to each conflicting
//! item, and the pacing of progress reports and transfer speed. Widgets,
//! threads and files are the caller's.

use vstd::prelude::*;

use crate::ssh::{perm_bit, perm_spec};
use crate::text::{
    chars_of, dec, owned, push_str, rindex_of,
    rfind_char, slice_vec, string_of, trim_end_char, trim_end_char_chars,
};
use crate::types::{Credentials, Entry, Protocol};

verus! {

// ---------------------------------------------------------------------------
// Labels
// ---------------------------------------------------------------------------

/// Index into the protocol list: 0=SFTP, 1=FTP, 2=FTPS, 3=S3 (anything
/// else is SFTP).
pub fn proto_from_index(i: u32) -> (r: Protocol)
    ensures
        r == (if i == 1 {
            Protocol::Ftp
        } else if i == 2 {
            Protocol::Ftps
        } else if i == 3 {
            Protocol::S3
        } else {
            Protocol::Sftp
        }),
{
    match i {
        1 => Protocol::Ftp,
        2 => Protocol::Ftps,
        3 => Protocol::S3,
        _ => Protocol::Sftp,
    }
}

/// A tab's title: `user@host`, the bucket standing in for an empty host.
pub open spec fn session_label_spec(c: Credentials) -> Seq<char> {
    let target = if c.host@.len() == 0 {
        match c.bucket {
            Some(b) => b@,
            None => Seq::empty(),
        }
    } else {
        c.host@
    };
    if c.username@.len() == 0 {
        target
    } else {
        c.username@ + "@"@ + target
    }
}

pub fn session_label(creds: &Credentials) -> (r: String)
    ensures
        r@ == session_label_spec(*creds),
{
    let target = if creds.host.as_str().is_empty() {
        match &creds.bucket {
            Some(b) => b.clone(),
            None => String::new(),
        }
    } else {
        creds.host.clone()
    };
    if creds.username.as_str().is_empty() {
        target
    } else {
        let mut cs = chars_of(creds.username.as_str());
        push_str(&mut cs, "@");
        push_str(&mut cs, target.as_str());
        string_of(cs.as_slice())
    }
}

// ---------------------------------------------------------------------------
// POSIX paths
// ---------------------------------------------------------------------------

/// `base/name`, without doubling a trailing slash of `base`.
pub open spec fn join_posix_spec(base: Seq<char>, name: Seq<char>) -> Seq<char> {
    if base.len() > 0 && base.last() == '/' {
        base + name
    } else {
        base + "/"@ + name
    }
}

pub fn join_posix(base: &str, name: &str) -> (r: String)
    ensures
        r@ == join_posix_spec(base@, name@),
{
    let mut cs = chars_of(base);
    if !(cs.len() > 0 && cs[cs.len() - 1] == '/') {
        push_str(&mut cs, "/");
    }
    push_str(&mut cs, name);
    string_of(cs.as_slice())
}

/// The parent directory of a remote path; "/" for the root and top-level
/// entries.
pub open spec fn parent_posix_spec(path: Seq<char>) -> Seq<char> {
    if path == "/"@ {
        "/"@
    } else {
        let t = trim_end_char(path, '/');
        match rindex_of(t, '/') {
            Some(i) => if i == 0 {
                "/"@
            } else {
                t.subrange(0, i)
            },
            None => "/"@,
        }
    }
}

pub fn parent_posix(path: &str) -> (r: String)
    ensures
        r@ == parent_posix_spec(path@),
{
    if crate::text::str_eq(path, "/") {
        return owned("/");
    }
    let cs = chars_of(path);
    let t = trim_end_char_chars(&cs, '/');
    match rfind_char(&t, '/') {
        Some(i) => if i == 0 {
            owned("/")
        } else {
            string_of(slice_vec(&t, 0, i).as_slice())
        },
        None => owned("/"),
    }
}

/// One character of a single-quoted shell word.
pub open spec fn quote_char(c: char) -> Seq<char> {
    if c == '\'' {
        seq!['\'', '\\', '\'', '\'']
    } else {
        seq![c]
    }
}

pub open spec fn quote_body(s: Seq<char>) -> Seq<char>
    decreases s.len(),
{
    if s.len() == 0 {
        Seq::empty()
    } else {
        quote_body(s.drop_last()) + quote_char(s.last())
    }
}

/// Single-quote a string for a POSIX shell (wrap in '', escaping any
/// quotes as `'\''`).
pub fn shell_quote(s: &str) -> (r: String)
    ensures
        r@ == seq!['\''] + quote_body(s@) + seq!['\''],
{
    let cs = chars_of(s);
    let mut out: Vec<char> = Vec::new();
    out.push('\'');
    let mut k: usize = 0;
    assert(cs@.subrange(0, 0) =~= Seq::<char>::empty());
    while k < cs.len()
        invariant
            k <= cs.len(),
            out@ == seq!['\''] + quote_body(cs@.subrange(0, k as int)),
        decreases cs.len() - k,
    {
        assert(cs@.subrange(0, k + 1).drop_last() =~= cs@.subrange(0, k as int));
        let ghost before = out@;
        if cs[k] == '\'' {
            out.push('\'');
            out.push('\\');
            out.push('\'');
            out.push('\'');
        } else {
            out.push(cs[k]);
        }
        assert(out@ =~= before + quote_char(cs@[k as int]));
        k = k + 1;
    }
    out.push('\'');
    assert(cs@.subrange(0, cs@.len() as int) =~= cs@);
    string_of(out.as_slice())
}

// ---------------------------------------------------------------------------
// Permission strings
// ---------------------------------------------------------------------------

/// The mode bits a permission string sets: position `k` (of nine) sets bit
/// `8 - k` unless it shows `-`.
pub open spec fn mode_of(s: Seq<char>) -> u32
    decreases s.len(),
{
    if s.len() == 0 {
        0
    } else {
        let k = s.len() - 1;
        mode_of(s.drop_last()) | (if s.last() != '-' {
            perm_bit(k)
        } else {
            0u32
        })
    }
}

/// Parse "rwxr-xr-x" into permission bits (0o755); none unless the text is
/// nine bytes long.
pub fn parse_mode(perms: &str) -> (r: Option<u32>)
    ensures
        perms@.len() <= 9 && vstd::utf8::encode_utf8(perms@).len() == 9 ==> r == Some(mode_of(perms@)),
        vstd::utf8::encode_utf8(perms@).len() != 9 ==> r.is_none(),
{
    if perms.as_bytes().len() != 9 {
        return None;
    }
    let cs = chars_of(perms);
    if cs.len() > 9 {
        return None;
    }
    let mut mode: u32 = 0;
    let mut k: usize = 0;
    assert(cs@.subrange(0, 0) =~= Seq::<char>::empty());
    while k < cs.len()
        invariant
            k <= cs.len() <= 9,
            mode == mode_of(cs@.subrange(0, k as int)),
        decreases cs.len() - k,
    {
        let ghost pre = cs@.subrange(0, k + 1);
        assert(pre.drop_last() =~= cs@.subrange(0, k as int));
        assert(pre.last() == cs@[k as int]);
        if cs[k] != '-' {
            let bit: u32 = 1u32 << ((8 - k) as u32);
            assert(bit == perm_bit(k as int)) by {
                let kk = k as u32;
                assert(kk < 9);
                if kk == 0 {
                    assert(1u32 << 8u32 == 0o400u32) by (bit_vector);
                } else if kk == 1 {
                    assert(1u32 << 7u32 == 0o200u32) by (bit_vector);
                } else if kk == 2 {
                    assert(1u32 << 6u32 == 0o100u32) by (bit_vector);
                } else if kk == 3 {
                    assert(1u32 << 5u32 == 0o040u32) by (bit_vector);
                } else if kk == 4 {
                    assert(1u32 << 4u32 == 0o020u32) by (bit_vector);
                } else if kk == 5 {
                    assert(1u32 << 3u32 == 0o010u32) by (bit_vector);
                } else if kk == 6 {
                    assert(1u32 << 2u32 == 0o004u32) by (bit_vector);
                } else if kk == 7 {
                    assert(1u32 << 1u32 == 0o002u32) by (bit_vector);
                } else {
                    assert(1u32 << 0u32 == 0o001u32) by (bit_vector);
                }
            }
            mode = mode | bit;
        } else {
            assert(mode | 0u32 == mode) by (bit_vector);
        }
        k = k + 1;
    }
    assert(cs@.subrange(0, cs@.len() as int) =~= cs@);
    Some(mode)
}

/// Reading back the permission string of a mode gives its permission bits.
pub proof fn law_parse_mode_inverts_perm_string(mode: u32)
    ensures
        mode_of(perm_spec(mode)) == mode & 0o777u32,
{
    let s = perm_spec(mode);
    let b = |k: int| if mode & perm_bit(k) != 0 {
        perm_bit(k)
    } else {
        0u32
    };
    assert forall|n: int| 0 <= n <= 9 implies #[trigger] mode_of(s.subrange(0, n)) == (if n == 0 {
        0u32
    } else {
        mode_of(s.subrange(0, n - 1)) | b(n - 1)
    }) by {
        if n > 0 {
            assert(s.subrange(0, n).drop_last() =~= s.subrange(0, n - 1));
            let c = s[n - 1];
            if mode & perm_bit(n - 1) != 0 {
                assert(c != '-');
            } else {
                assert(c == '-');
            }
        }
    }
    assert(s.subrange(0, 9) =~= s);
    let m0 = mode_of(s.subrange(0, 0));
    let m1 = mode_of(s.subrange(0, 1));
    let m2 = mode_of(s.subrange(0, 2));
    let m3 = mode_of(s.subrange(0, 3));
    let m4 = mode_of(s.subrange(0, 4));
    let m5 = mode_of(s.subrange(0, 5));
    let m6 = mode_of(s.subrange(0, 6));
    let m7 = mode_of(s.subrange(0, 7));
    let m8 = mode_of(s.subrange(0, 8));
    let m9 = mode_of(s.subrange(0, 9));
    assert(m0 == 0);
    assert(m9 == (((((((((0u32 | b(0)) | b(1)) | b(2)) | b(3)) | b(4)) | b(5)) | b(6)) | b(7)) | b(8)));
    let x = mode;
    assert((((((((((0u32 | (if x & 0o400u32 != 0 { 0o400u32 } else { 0u32 })) | (if x & 0o200u32 != 0 { 0o200u32 } else { 0u32 })) | (if x & 0o100u32 != 0 { 0o100u32 } else { 0u32 })) | (if x & 0o040u32 != 0 { 0o040u32 } else { 0u32 })) | (if x & 0o020u32 != 0 { 0o020u32 } else { 0u32 })) | (if x & 0o010u32 != 0 { 0o010u32 } else { 0u32 })) | (if x & 0o004u32 != 0 { 0o004u32 } else { 0u32 })) | (if x & 0o002u32 != 0 { 0o002u32 } else { 0u32 })) | (if x & 0o001u32 != 0 { 0o001u32 } else { 0u32 })) == x & 0o777u32) by (bit_vector);
}

// ---------------------------------------------------------------------------
// Navigation history
// ---------------------------------------------------------------------------

/// A pane's back and forward stacks.
#[derive(Debug, Clone)]
pub struct History {
    pub back: Vec<String>,
    pub forward: Vec<String>,
}

impl History {
    pub fn new() -> (r: Self)
        ensures
            r.back@.len() == 0,
            r.forward@.len() == 0,
    {
        History { back: Vec::new(), forward: Vec::new() }
    }

    /// Leaving `current` by ordinary navigation: it becomes the way back,
    /// and the way forward is forgotten.
    pub fn record(&mut self, current: String)
        ensures
            final(self).back@ == old(self).back@.push(current),
            final(self).forward@.len() == 0,
    {
        self.back.push(current);
        self.forward.clear();
    }

    /// Go back from `current`: the previous location, with `current` kept
    /// as the way forward; nothing when there is no way back.
    pub fn go_back(&mut self, current: String) -> (r: Option<String>)
        ensures
            old(self).back@.len() == 0 ==> r.is_none() && final(self).back@ == old(self).back@
                && final(self).forward@ == old(self).forward@,
            old(self).back@.len() > 0 ==> r == Some(old(self).back@.last()) && final(self).back@
                == old(self).back@.drop_last() && final(self).forward@ == old(self).forward@.push(
                current,
            ),
    {
        match self.back.pop() {
            Some(prev) => {
                self.forward.push(current);
                Some(prev)
            },
            None => None,
        }
    }

    /// Go forward from `current`: the next location, with `current` kept as
    /// the way back; nothing when there is no way forward.
    pub fn go_forward(&mut self, current: String) -> (r: Option<String>)
        ensures
            old(self).forward@.len() == 0 ==> r.is_none() && final(self).back@ == old(self).back@
                && final(self).forward@ == old(self).forward@,
            old(self).forward@.len() > 0 ==> r == Some(old(self).forward@.last())
                && final(self).forward@ == old(self).forward@.drop_last() && final(self).back@
                == old(self).back@.push(current),
    {
        match self.forward.pop() {
            Some(next) => {
                self.back.push(current);
                Some(next)
            },
            None => None,
        }
    }
}

/// Going back and then forward again returns to where one was, with both
/// stacks as before.
pub proof fn law_back_then_forward(back: Seq<String>, forward: Seq<String>, current: String)
    requires
        back.len() > 0,
    ensures
        ({
            let prev = back.last();
            let back1 = back.drop_last();
            let forward1 = forward.push(current);
            &&& forward1.last() == current
            &&& back1.push(prev) == back
            &&& forward1.drop_last() == forward
        }),
{
    assert(back.drop_last().push(back.last()) =~= back);
    assert(forward.push(current).drop_last() =~= forward);
}

// ---------------------------------------------------------------------------
// Transfer conflicts
// ---------------------------------------------------------------------------

/// An upload of `e` meets something at the destination (the remote
/// listing): a folder of the same name, or a same-named file at least as
/// large.
pub open spec fn upload_conflict_spec(e: Entry, remote: Seq<Entry>) -> bool {
    exists|i: int|
        0 <= i < remote.len() && #[trigger] remote[i].name@ == e.name@ && if e.is_dir {
            remote[i].is_dir
        } else {
            !remote[i].is_dir && remote[i].size >= e.size
        }
}

pub fn upload_conflict(e: &Entry, remote: &Vec<Entry>) -> (r: bool)
    ensures
        r == upload_conflict_spec(*e, remote@),
{
    let mut k: usize = 0;
    while k < remote.len()
        invariant
            k <= remote.len(),
            forall|i: int|
                0 <= i < k ==> !(#[trigger] remote@[i].name@ == e.name@ && if e.is_dir {
                    remote@[i].is_dir
                } else {
                    !remote@[i].is_dir && remote@[i].size >= e.size
                }),
        decreases remote.len() - k,
    {
        let r = &remote[k];
        let same = crate::text::str_eq(r.name.as_str(), e.name.as_str());
        let hit = if e.is_dir {
            r.is_dir
        } else {
            !r.is_dir && r.size >= e.size
        };
        if same && hit {
            assert(remote@[k as int].name@ == e.name@);
            return true;
        }
        k = k + 1;
    }
    false
}

/// What the local filesystem says of a path.
#[derive(Debug, Clone, Copy)]
pub struct LocalStat {
    pub is_dir: bool,
    pub len: u64,
    pub mtime: Option<i64>,
}

/// A download of `e` meets something at the destination (the local path of
/// the same name): for a folder, a local folder; for a file, anything at
/// least as long.
pub open spec fn download_conflict_spec(e: Entry, local: Option<LocalStat>) -> bool {
    match local {
        Some(st) => if e.is_dir {
            st.is_dir
        } else {
            st.len >= e.size
        },
        None => false,
    }
}

pub fn download_conflict(e: &Entry, local: Option<LocalStat>) -> (r: bool)
    ensures
        r == download_conflict_spec(*e, local),
{
    match local {
        Some(st) => if e.is_dir {
            st.is_dir
        } else {
            st.len >= e.size
        },
        None => false,
    }
}

/// The prompt's headline for the conflicting items.
pub open spec fn conflict_message_spec(conflicts: Seq<Entry>) -> Seq<char> {
    if conflicts.len() == 1 {
        conflicts[0].name@ + " already exists at the destination."@
    } else {
        dec(conflicts.len()) + " items already exist at the destination."@
    }
}

pub fn conflict_message(conflicts: &Vec<Entry>) -> (r: String)
    requires
        conflicts@.len() > 0,
    ensures
        r@ == conflict_message_spec(conflicts@),
{
    if conflicts.len() == 1 {
        let mut cs = chars_of(conflicts[0].name.as_str());
        push_str(&mut cs, " already exists at the destination.");
        string_of(cs.as_slice())
    } else {
        let mut cs = crate::text::u64_to_dec(conflicts.len() as u64);
        push_str(&mut cs, " items already exist at the destination.");
        string_of(cs.as_slice())
    }
}

/// How a source file's time compares with its target's, as the prompt says.
pub open spec fn newer_hint_spec(src: Option<i64>, dst: Option<i64>) -> Seq<char> {
    match (src, dst) {
        (Some(s), Some(t)) => if s > t {
            " \u{2014} source is newer"@
        } else if s < t {
            " \u{2014} source is older"@
        } else {
            " \u{2014} same time"@
        },
        _ => ""@,
    }
}

pub fn newer_hint(src: Option<i64>, dst: Option<i64>) -> (r: &'static str)
    ensures
        r@ == newer_hint_spec(src, dst),
{
    match (src, dst) {
        (Some(s), Some(t)) => if s > t {
            " \u{2014} source is newer"
        } else if s < t {
            " \u{2014} source is older"
        } else {
            " \u{2014} same time"
        },
        _ => "",
    }
}

/// The source is strictly newer than its target (both times known).
pub open spec fn source_newer(src: Option<i64>, dst: Option<i64>) -> bool {
    match (src, dst) {
        (Some(s), Some(t)) => s > t,
        _ => false,
    }
}

/// The overwrite policy code a button of the conflict prompt stands for:
/// "Overwrite" (3) is 0, "Only newer" (2) is 2, "Skip existing" (1) is 1;
/// "Cancel" or a dismissed prompt is none.
pub fn policy_of_choice(choice: Option<i32>) -> (r: Option<i32>)
    ensures
        choice == Some(3i32) ==> r == Some(0i32),
        choice == Some(2i32) ==> r == Some(2i32),
        choice == Some(1i32) ==> r == Some(1i32),
        choice != Some(3i32) && choice != Some(2i32) && choice != Some(1i32) ==> r.is_none(),
{
    match choice {
        Some(3) => Some(0),
        Some(2) => Some(2),
        Some(1) => Some(1),
        _ => None,
    }
}

/// What happens to one conflicting item once a policy is chosen.
#[derive(Debug, Clone, Copy, PartialEq, Eq, Structural)]
pub enum ConflictAction {
    /// A folder: merge it, applying the policy to each file inside.
    MergeWith(i32),
    /// A file: transfer it (overwriting).
    Transfer,
    /// A file: leave it.
    Skip,
}

pub open spec fn conflict_action_spec(is_dir: bool, policy: i32, src: Option<i64>, dst: Option<i64>) -> ConflictAction {
    if is_dir {
        ConflictAction::MergeWith(policy)
    } else if policy == 1 {
        ConflictAction::Skip
    } else if policy == 2 && !source_newer(src, dst) {
        ConflictAction::Skip
    } else {
        ConflictAction::Transfer
    }
}

/// Folders always merge (skip still copies new files inside); a file is
/// dropped by "skip", and by "only newer" unless it is newer than its
/// target.
pub fn conflict_action(is_dir: bool, policy: i32, src: Option<i64>, dst: Option<i64>) -> (r:
    ConflictAction)
    ensures
        r == conflict_action_spec(is_dir, policy, src, dst),
{
    if is_dir {
        return ConflictAction::MergeWith(policy);
    }
    if policy == 1 {
        return ConflictAction::Skip;
    }
    if policy == 2 {
        let newer = match (src, dst) {
            (Some(s), Some(t)) => s > t,
            _ => false,
        };
        if !newer {
            return ConflictAction::Skip;
        }
    }
    ConflictAction::Transfer
}

/// How many of the conflicting files are newer than their targets.
pub open spec fn count_newer_spec(pairs: Seq<(Option<i64>, Option<i64>)>) -> nat
    decreases pairs.len(),
{
    if pairs.len() == 0 {
        0
    } else {
        count_newer_spec(pairs.drop_last()) + if source_newer(pairs.last().0, pairs.last().1) {
            1nat
        } else {
            0nat
        }
    }
}

pub fn count_newer(pairs: &Vec<(Option<i64>, Option<i64>)>) -> (r: usize)
    ensures
        r as nat == count_newer_spec(pairs@),
{
    let mut n: usize = 0;
    let mut k: usize = 0;
    assert(pairs@.subrange(0, 0) =~= Seq::<(Option<i64>, Option<i64>)>::empty());
    while k < pairs.len()
        invariant
            k <= pairs.len(),
            n as nat == count_newer_spec(pairs@.subrange(0, k as int)),
            n <= k,
        decreases pairs.len() - k,
    {
        assert(pairs@.subrange(0, k + 1).drop_last() =~= pairs@.subrange(0, k as int));
        let (s, t) = pairs[k];
        let newer = match (s, t) {
            (Some(a), Some(b)) => a > b,
            _ => false,
        };
        if newer {
            n = n + 1;
        }
        k = k + 1;
    }
    assert(pairs@.subrange(0, pairs@.len() as int) =~= pairs@);
    n
}

// ---------------------------------------------------------------------------
// Progress pacing
// ---------------------------------------------------------------------------

/// Bytes between two progress reports.
pub const REPORT_STEP: u64 = 262144;

/// Keeps a transfer's progress reports from flooding the UI.
#[derive(Debug, Clone, Copy)]
pub struct Throttle {
    pub last: u64,
}

impl Throttle {
    pub fn new() -> (r: Self)
        ensures
            r.last == 0,
    {
        Throttle { last: 0 }
    }

    /// Report when the transfer completed or moved a step past the last
    /// report.
    pub fn should_send(&mut self, done: u64, total: u64) -> (r: bool)
        ensures
            r == (done == total || done >= old(self).last + REPORT_STEP),
            r ==> final(self).last == done,
            !r ==> final(self).last == old(self).last,
    {
        if done == total || (done >= self.last && done - self.last >= REPORT_STEP) {
            self.last = done;
            true
        } else {
            false
        }
    }
}

/// The sleep (microseconds) that holds a transfer to `kbs` KiB/s after
/// progress moved from `last_done` to `done`, capped at one second; none
/// without a cap or forward progress.
pub open spec fn pace_delay(last_done: u64, done: u64, kbs: u64) -> int {
    if kbs > 0 && done > last_done {
        let micros = (done - last_done) * 1_000_000 / (kbs * 1024);
        if micros > 1_000_000 {
            1_000_000
        } else {
            micros
        }
    } else {
        0
    }
}

/// The speed cap of a worker's transfer: how long to sleep, and the new
/// baseline (always the latest progress).
pub fn pace(last_done: u64, done: u64, kbs: u64) -> (r: (u64, u64))
    requires
        kbs > 0 && done > last_done ==> (done - last_done) * 1_000_000 <= u64::MAX && kbs * 1024
            <= u64::MAX,
    ensures
        r.0 == pace_delay(last_done, done, kbs),
        r.1 == done,
{
    let mut sleep: u64 = 0;
    if kbs > 0 && done > last_done {
        let micros = (done - last_done) * 1_000_000 / (kbs * 1024);
        sleep = if micros > 1_000_000 {
            1_000_000
        } else {
            micros
        };
    }
    (sleep, done)
}

/// Parallel connections of a transfer pool: the requested number, kept
/// within 1 to 8.
pub fn pool_size(size: usize) -> (r: usize)
    ensures
        r == (if size < 1 {
            1
        } else if size > 8 {
            8
        } else {
            size
        }),
{
    if size < 1 {
        1
    } else if size > 8 {
        8
    } else {
        size
    }
}

/// The worker of a pool of `n` that the `counter`-th dispatch goes to
/// (round robin).
pub fn next_worker(counter: usize, n: usize) -> (r: usize)
    requires
        n > 0,
    ensures
        r == counter % n,
        r < n,
{
    counter % n
}

} // verus!
