//! The transfer pool: a fixed set of worker threads, each with its own
//! connection, that transfers are handed to in turn so several files move
//! at once. Starting the threads is the caller's; the pool holds the
//! command channel of each.

use vstd::prelude::*;

use std::sync::atomic::AtomicUsize;
use std::sync::atomic::Ordering;
use std::sync::mpsc::Sender;
use std::sync::Arc;

use crate::types::Credentials;
use crate::worker::Cmd;

verus! {

/// `std::sync::mpsc::Sender`: the sending half of a worker's command
/// channel.
#[verifier::external_type_specification]
#[verifier::external_body]
#[verifier::reject_recursive_types(T)]
pub struct ExSender<T>(Sender<T>);

/// `Sender::send`: queue `msg` for the worker at the other end. A worker
/// that has gone away drops it; nothing is promised either way.
#[verifier::external_body]
fn post<T>(tx: &Sender<T>, msg: T) {
    let _ = tx.send(msg);
}

/// Round-robin pool of persistent transfer workers. The dispatch counter is
/// shared, so any thread holding the pool may hand out work.
#[verifier::reject_recursive_types(H)]
pub struct TransferPool<H> {
    txs: Vec<Sender<Cmd<H>>>,
    next: Arc<AtomicUsize>,
}

impl<H> TransferPool<H> {
    /// A pool always has a worker to send to.
    #[verifier::type_invariant]
    closed spec fn has_workers(self) -> bool {
        self.txs@.len() > 0
    }

    /// How many workers the pool dispatches to.
    pub closed spec fn size(self) -> nat {
        self.txs@.len()
    }

    /// A pool over the command channels of its workers (a window starts
    /// [`crate::panes::pool_size`] of them).
    pub fn from_workers(txs: Vec<Sender<Cmd<H>>>) -> (r: Self)
        requires
            txs.len() > 0,
        ensures
            r.size() == txs.len(),
    {
        TransferPool { txs, next: Arc::new(AtomicUsize::new(0)) }
    }

    /// How many workers the pool dispatches to.
    pub fn len(&self) -> (r: usize)
        ensures
            r == self.size(),
            r > 0,
    {
        proof {
            use_type_invariant(self);
        }
        self.txs.len()
    }

    /// Broadcast a silent connect with `creds` to every worker.
    pub fn connect(&self, creds: Credentials) {
        let mut i: usize = 0;
        while i < self.txs.len()
            invariant
                i <= self.txs.len(),
            decreases self.txs.len() - i,
        {
            let cmd = Cmd::Connect { creds: creds.duplicate(), path: String::new(), silent: true };
            post(&self.txs[i], cmd);
            i = i + 1;
        }
    }

    /// Hand `cmd` to the next worker in round-robin order: the worker the
    /// shared dispatch counter names ([`crate::panes::next_worker`]).
    pub fn send(&self, cmd: Cmd<H>) {
        proof {
            use_type_invariant(self);
        }
        let n = self.next.fetch_add(1, Ordering::Relaxed);
        let i = crate::panes::next_worker(n, self.txs.len());
        post(&self.txs[i], cmd);
    }
}

} // verus!
