//! The [`Transport`] abstraction every protocol backend implements, and the
//! model of the remote filesystem its contracts are stated over.
//!
//! A transport is seen as a finite map from remote paths to what a listing
//! reports for them (the *tree*). Listing never changes the tree; deleting a
//! file or directory removes exactly that path; uploads and directory
//! creation touch only the path they name. The multi-file operations in
//! [`crate::ops`] are proved against these promises.

use vstd::prelude::*;

use crate::ops::{dir_prefix, join_path};
use crate::text::{has_char, owned};
use crate::types::{Entry, Error, ExecResult, Result};

verus! {

/// What a listing reports for one remote path.
#[derive(Debug, Clone, Copy)]
pub struct RemoteNode {
    pub is_dir: bool,
    pub is_symlink: bool,
    pub size: u64,
    pub mtime: Option<i64>,
}

/// A single path component: not empty, no `/`, not `.` or `..`.
pub open spec fn valid_name(n: Seq<char>) -> bool {
    &&& n.len() > 0
    &&& !has_char(n, '/')
    &&& n != seq!['.']
    &&& n != seq!['.', '.']
}

/// `e` reports exactly what the tree holds in `node`.
pub open spec fn reports(e: Entry, node: RemoteNode) -> bool {
    &&& e.is_dir == node.is_dir
    &&& e.is_symlink == node.is_symlink
    &&& e.size == node.size
    &&& e.mtime == node.mtime
}

/// `es` is a listing of directory `dir` in `tree`: every entry names a child
/// present in the tree and reports it faithfully, and every child present
/// in the tree is listed.
pub open spec fn is_listing(tree: Map<Seq<char>, RemoteNode>, dir: Seq<char>, es: Seq<Entry>) -> bool {
    &&& forall|i: int|
        0 <= i < es.len() ==> {
            &&& valid_name(#[trigger] es[i].name@)
            &&& tree.contains_key(join_path(dir, es[i].name@))
            &&& reports(es[i], tree[join_path(dir, es[i].name@)])
        }
    &&& forall|n: Seq<char>|
        valid_name(n) && #[trigger] tree.contains_key(join_path(dir, n)) ==> exists|i: int|
            0 <= i < es.len() && es[i].name@ == n
}

/// `after` differs from `before` at most at path `p`.
pub open spec fn changes_only(
    before: Map<Seq<char>, RemoteNode>,
    after: Map<Seq<char>, RemoteNode>,
    p: Seq<char>,
) -> bool {
    forall|k: Seq<char>|
        k != p ==> (#[trigger] after.contains_key(k) == before.contains_key(k) && (
        after.contains_key(k) ==> after[k] == before[k]))
}

/// The kinds of call on a session that the record of calls keeps.
#[derive(Debug, Clone, Copy, PartialEq, Eq, Structural)]
pub enum CallKind {
    List,
    RemoveFile,
    RemoveDir,
}

/// One recorded call: its kind, the path it was given, and the error it
/// returned (none when it succeeded).
pub type CallRecord = (CallKind, Seq<char>, Option<Error>);

/// The error a call returned, if it failed.
pub open spec fn outcome<A>(r: Result<A>) -> Option<Error> {
    match r {
        Ok(_) => None,
        Err(e) => Some(e),
    }
}

/// Byte-progress receiver of a transfer: `(done, total)` after each chunk;
/// returning `false` cancels the transfer.
pub trait Progress {
    fn progress(&mut self, done: u64, total: u64) -> bool;
}

/// A live connection to a server. Every protocol backend implements this, so
/// callers only ever talk to the trait and never know which protocol is
/// underneath.
///
/// The contracts below are the promises an implementation makes about the
/// remote filesystem it reports as [`Transport::tree`]; nothing checks a
/// backend against them but its author.
pub trait Transport {
    /// The remote filesystem as this session reports it. A backend outside
    /// the verified code does not describe it: it is some unknown map.
    closed spec fn tree(&self) -> Map<Seq<char>, RemoteNode> {
        vstd::pervasive::arbitrary()
    }

    /// The paths whose listing has failed on this session: a record that
    /// only grows as listings fail. Unknown for a backend outside the
    /// verified code.
    closed spec fn unlisted(&self) -> Set<Seq<char>> {
        vstd::pervasive::arbitrary()
    }

    /// The listings and deletions made on this session, in order, with what
    /// each returned, when the session keeps that record
    /// ([`Transport::keeps_record`]).
    closed spec fn calls(&self) -> Seq<CallRecord> {
        vstd::pervasive::arbitrary()
    }

    /// Whether this session keeps the record of [`Transport::calls`]. A
    /// backend that never reaches a server has nothing to record; a backend
    /// outside the verified code is not held to keeping one.
    closed spec fn keeps_record(&self) -> bool {
        false
    }

    /// List the entries of a remote directory. A failure is recorded in
    /// [`Transport::unlisted`]; every listing in [`Transport::calls`].
    fn list_dir(&mut self, path: &str) -> (r: Result<Vec<Entry>>)
        ensures
            final(self).tree() == old(self).tree(),
            old(self).tree().dom().finite(),
            r matches Ok(es) ==> is_listing(old(self).tree(), path@, es@),
            r is Ok ==> final(self).unlisted() == old(self).unlisted(),
            r is Err ==> final(self).unlisted() == old(self).unlisted().insert(path@),
            final(self).keeps_record() == old(self).keeps_record(),
            old(self).keeps_record() ==> final(self).calls() == old(self).calls().push(
                (CallKind::List, path@, outcome(r)),
            ),
    ;

    /// Download a remote file to a local path, streaming progress. Returns
    /// bytes transferred.
    fn download_progress(&mut self, remote: &str, local: &str, progress: &mut dyn Progress) -> (r:
        Result<u64>)
        ensures
            final(self).tree() == old(self).tree(),
    ;

    /// Upload a local file, streaming progress. Returns bytes transferred.
    fn upload_progress(&mut self, local: &str, remote: &str, progress: &mut dyn Progress) -> (r:
        Result<u64>)
        ensures
            changes_only(old(self).tree(), final(self).tree(), remote@),
            r is Ok ==> final(self).tree().contains_key(remote@),
            r is Ok ==> !final(self).tree()[remote@].is_dir,
    ;

    /// Create a remote directory.
    fn mkdir(&mut self, path: &str) -> (r: Result<()>)
        ensures
            changes_only(old(self).tree(), final(self).tree(), path@),
            r is Ok ==> final(self).tree().contains_key(path@) && final(self).tree()[path@].is_dir,
            r is Err ==> final(self).tree() == old(self).tree(),
    ;

    /// Delete a remote file (or the link node of a symlink).
    fn remove_file(&mut self, path: &str) -> (r: Result<()>)
        ensures
            r is Ok ==> final(self).tree() == old(self).tree().remove(path@),
            r is Err ==> final(self).tree() == old(self).tree(),
            final(self).unlisted() == old(self).unlisted(),
            final(self).keeps_record() == old(self).keeps_record(),
            old(self).keeps_record() ==> final(self).calls() == old(self).calls().push(
                (CallKind::RemoveFile, path@, outcome(r)),
            ),
    ;

    /// Delete an (empty) remote directory.
    fn remove_dir(&mut self, path: &str) -> (r: Result<()>)
        ensures
            r is Ok ==> final(self).tree() == old(self).tree().remove(path@),
            r is Err ==> final(self).tree() == old(self).tree(),
            final(self).unlisted() == old(self).unlisted(),
            final(self).keeps_record() == old(self).keeps_record(),
            old(self).keeps_record() ==> final(self).calls() == old(self).calls().push(
                (CallKind::RemoveDir, path@, outcome(r)),
            ),
    ;

    /// Rename/move a remote file or directory.
    fn rename(&mut self, from: &str, to: &str) -> (r: Result<()>);

    /// Change unix permissions (e.g. 0o644). Not every protocol supports
    /// this; the default refuses.
    fn set_permissions(&mut self, path: &str, mode: u32) -> (r: Result<()>)
        ensures
            final(self).tree() == old(self).tree(),
        default_ensures
            r matches Err(Error::NotImplemented(m)) && m@
                == "permissions are not supported on this protocol"@,
    {
        Err(Error::NotImplemented(owned("permissions are not supported on this protocol")))
    }

    /// Resume a download from `offset` bytes, appending to the local file.
    /// The default refuses.
    fn download_resume(
        &mut self,
        remote: &str,
        local: &str,
        offset: u64,
        progress: &mut dyn Progress,
    ) -> (r: Result<u64>)
        ensures
            final(self).tree() == old(self).tree(),
        default_ensures
            r matches Err(Error::NotImplemented(m)) && m@ == "resume is not supported on this protocol"@,
    {
        Err(Error::NotImplemented(owned("resume is not supported on this protocol")))
    }

    /// Resume an upload: append the local file's tail after the remote
    /// file's current size. The default refuses.
    fn upload_resume(&mut self, local: &str, remote: &str, progress: &mut dyn Progress) -> (r:
        Result<u64>)
        ensures
            changes_only(old(self).tree(), final(self).tree(), remote@),
        default_ensures
            r matches Err(Error::NotImplemented(m)) && m@
                == "upload resume is not supported on this protocol"@,
    {
        Err(Error::NotImplemented(owned("upload resume is not supported on this protocol")))
    }

    /// Liveness probe / keepalive. Errors when the connection is dead.
    fn keepalive(&mut self) -> (r: Result<()>)
        ensures
            final(self).tree() == old(self).tree(),
        default_ensures
            r is Ok,
    {
        Ok(())
    }

    /// Execute a command on the remote server (SSH sessions only). The
    /// default refuses.
    fn exec_command(&mut self, cmd: &str) -> (r: Result<ExecResult>)
        default_ensures
            r matches Err(Error::NotImplemented(m)) && m@ == "exec is not supported on this protocol"@,
    {
        Err(Error::NotImplemented(owned("exec is not supported on this protocol")))
    }

    /// Server-side copy of a remote file to another remote path. The
    /// default refuses.
    fn copy_file(&mut self, src: &str, dst: &str) -> (r: Result<u64>)
        ensures
            changes_only(old(self).tree(), final(self).tree(), dst@),
        default_ensures
            r matches Err(Error::NotImplemented(m)) && m@ == "copy is not supported on this protocol"@,
    {
        Err(Error::NotImplemented(owned("copy is not supported on this protocol")))
    }

    /// Close the session. Default is a no-op.
    fn disconnect(&mut self) {
    }
}

// ---------------------------------------------------------------------------
// Subtrees
// ---------------------------------------------------------------------------

/// `k` lies strictly inside directory `p`.
pub open spec fn strictly_below(p: Seq<char>, k: Seq<char>) -> bool {
    let pre = dir_prefix(p);
    k.len() > pre.len() && k.subrange(0, pre.len() as int) == pre
}

/// The paths of `tree` strictly inside `p`.
pub open spec fn subtree(tree: Map<Seq<char>, RemoteNode>, p: Seq<char>) -> Set<Seq<char>> {
    tree.dom().filter(|k: Seq<char>| strictly_below(p, k))
}

/// How many paths of `tree` lie strictly inside `p`.
pub open spec fn subtree_size(tree: Map<Seq<char>, RemoteNode>, p: Seq<char>) -> nat {
    subtree(tree, p).len()
}

/// `p` or anything strictly inside it.
pub open spec fn within(p: Seq<char>, k: Seq<char>) -> bool {
    k == p || strictly_below(p, k)
}

/// `small` holds only paths of `big`, with the same nodes.
pub open spec fn submap(small: Map<Seq<char>, RemoteNode>, big: Map<Seq<char>, RemoteNode>) -> bool {
    forall|k: Seq<char>|
        #[trigger] small.contains_key(k) ==> big.contains_key(k) && small[k] == big[k]
}

/// Outside `p`'s subtree, `after` and `before` agree.
pub open spec fn same_outside(
    before: Map<Seq<char>, RemoteNode>,
    after: Map<Seq<char>, RemoteNode>,
    p: Seq<char>,
) -> bool {
    forall|k: Seq<char>|
        !within(p, k) ==> (#[trigger] after.contains_key(k) == before.contains_key(k) && (
        after.contains_key(k) ==> after[k] == before[k]))
}

/// A child `c = p/n` is inside `p`, is not inside itself, and everything
/// inside `c` is inside `p`.
pub proof fn lemma_child_below(p: Seq<char>, n: Seq<char>)
    requires
        valid_name(n),
    ensures
        strictly_below(p, join_path(p, n)),
        !strictly_below(join_path(p, n), join_path(p, n)),
        forall|k: Seq<char>| strictly_below(join_path(p, n), k) ==> strictly_below(p, k),
        forall|k: Seq<char>| within(join_path(p, n), k) ==> strictly_below(p, k),
{
    let pre = dir_prefix(p);
    let c = join_path(p, n);
    assert(c.subrange(0, pre.len() as int) =~= pre);
    assert(c.last() == n.last());
    assert(n.last() != '/') by {
        assert(n[n.len() - 1] == n.last());
    }
    let cpre = dir_prefix(c);
    assert(cpre == c.push('/'));
    assert forall|k: Seq<char>| strictly_below(c, k) implies strictly_below(p, k) by {
        assert(k.subrange(0, cpre.len() as int) == cpre);
        assert(k.subrange(0, pre.len() as int) =~= cpre.subrange(0, pre.len() as int));
        assert(cpre.subrange(0, pre.len() as int) =~= pre);
    }
}

/// Removing the subtree of a child strictly shrinks the subtree of the parent.
pub proof fn lemma_child_subtree_smaller(
    cur: Map<Seq<char>, RemoteNode>,
    orig: Map<Seq<char>, RemoteNode>,
    p: Seq<char>,
    n: Seq<char>,
)
    requires
        valid_name(n),
        orig.dom().finite(),
        submap(cur, orig),
        orig.contains_key(join_path(p, n)),
    ensures
        subtree_size(cur, join_path(p, n)) < subtree_size(orig, p),
{
    let c = join_path(p, n);
    lemma_child_below(p, n);
    let big = subtree(orig, p);
    let small = subtree(cur, c);
    orig.dom().lemma_len_filter(|k: Seq<char>| strictly_below(p, k));
    assert(big.contains(c));
    let rest = big.remove(c);
    assert(small.subset_of(rest));
    vstd::set_lib::lemma_len_subset(small, rest);
}

// ---------------------------------------------------------------------------
// Reconnection
// ---------------------------------------------------------------------------

/// Failures that may mean the session died (I/O, connection, protocol), as
/// opposed to ordinary refusals such as a missing file.
pub open spec fn spec_retryable(e: Error) -> bool {
    e is Io || e is Connect || e is Protocol
}

pub fn retryable(e: &Error) -> (r: bool)
    ensures
        r == spec_retryable(*e),
{
    match e {
        Error::Io(_) | Error::Connect(_) | Error::Protocol(_) => true,
        _ => false,
    }
}

/// What an auto-reconnecting session does after an operation failed.
#[derive(Debug, Clone, Copy, PartialEq, Eq, Structural)]
pub enum RetryAction {
    /// Report the failure unchanged.
    Surface,
    /// Probe the session with a keepalive first.
    Probe,
    /// The session is dead: reconnect and run the operation once more.
    Reconnect,
}

/// The next step after an operation failed with `e`; `probe` is the outcome
/// of the liveness probe once it has run.
pub open spec fn spec_after_failure(e: Error, probe: Option<bool>) -> RetryAction {
    if !spec_retryable(e) {
        RetryAction::Surface
    } else {
        match probe {
            None => RetryAction::Probe,
            Some(alive) => if alive {
                RetryAction::Surface
            } else {
                RetryAction::Reconnect
            },
        }
    }
}

pub fn after_failure(e: &Error, probe: Option<bool>) -> (r: RetryAction)
    ensures
        r == spec_after_failure(*e, probe),
{
    if !retryable(e) {
        RetryAction::Surface
    } else {
        match probe {
            None => RetryAction::Probe,
            Some(alive) => if alive {
                RetryAction::Surface
            } else {
                RetryAction::Reconnect
            },
        }
    }
}

/// Failures on a live session surface unchanged, and ordinary errors never
/// trigger a reconnect.
pub proof fn law_no_reconnect_on_live_or_ordinary(e: Error, probe: Option<bool>)
    ensures
        probe == Some(true) ==> spec_after_failure(e, probe) == RetryAction::Surface,
        !spec_retryable(e) ==> spec_after_failure(e, probe) == RetryAction::Surface,
        spec_after_failure(e, probe) == RetryAction::Reconnect ==> probe == Some(false),
{
}

} // verus!
