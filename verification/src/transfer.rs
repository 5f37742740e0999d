//! The transfer engine's planning and dispatch bookkeeping.
//!
//! A batch of read or write requests is resolved against the mapping
//! table and cut into chunks of at most the host's vector-count ceiling;
//! each chunk stands for one vectored system call against the target
//! process. The embedding program performs the calls one chunk at a
//! time and reports the first failure, which aborts the whole operation:
//! no later chunk is handed out, and no retry is made.

use vstd::prelude::*;

use crate::mem_map::{spec_translate, MappingTable, RangeMapping};
use crate::{ConnectorError, TransferReason};

verus! {

/// One logical transfer: `len` bytes at the guest physical address
/// `guest_addr`. The caller's buffer is identified by position.
#[derive(Clone, Copy, Debug, PartialEq, Eq, Structural)]
pub struct TransferRequest {
    pub guest_addr: u64,
    pub len: usize,
}

/// One resolved descriptor pair: the same bytes at the translated host
/// address `host_addr`.
#[derive(Clone, Copy, Debug, PartialEq, Eq, Structural)]
pub struct ResolvedTransfer {
    pub host_addr: u64,
    pub len: usize,
}

/// Whether a request's whole span translates under the table rows `rs`.
pub open spec fn spec_resolves(rs: Seq<RangeMapping>, q: TransferRequest) -> bool {
    spec_translate(rs, q.guest_addr as int, q.len as int) is Some
}

/// What a request resolves to; meaningful only where `spec_resolves`.
pub open spec fn spec_resolve_val(rs: Seq<RangeMapping>, q: TransferRequest) -> ResolvedTransfer {
    match spec_translate(rs, q.guest_addr as int, q.len as int) {
        Some(h) => ResolvedTransfer { host_addr: h as u64, len: q.len },
        None => ResolvedTransfer { host_addr: 0, len: q.len },
    }
}

/// Every request of the batch resolves.
pub open spec fn spec_all_resolve(rs: Seq<RangeMapping>, reqs: Seq<TransferRequest>) -> bool {
    forall|i: int| 0 <= i < reqs.len() ==> spec_resolves(rs, #[trigger] reqs[i])
}

/// The requests of the batch, resolved, in order.
pub open spec fn spec_resolved(rs: Seq<RangeMapping>, reqs: Seq<TransferRequest>) -> Seq<
    ResolvedTransfer,
> {
    reqs.map_values(|q: TransferRequest| spec_resolve_val(rs, q))
}

/// The chunks of a plan, concatenated back into one sequence.
pub open spec fn spec_flatten(bs: Seq<Vec<ResolvedTransfer>>) -> Seq<ResolvedTransfer>
    decreases bs.len(),
{
    if bs.len() == 0 {
        Seq::empty()
    } else {
        bs[0]@ + spec_flatten(bs.drop_first())
    }
}

/// Appending a chunk appends its entries.
pub proof fn lemma_flatten_push(bs: Seq<Vec<ResolvedTransfer>>, v: Vec<ResolvedTransfer>)
    ensures
        spec_flatten(bs.push(v)) == spec_flatten(bs) + v@,
    decreases bs.len(),
{
    if bs.len() == 0 {
        assert(bs.push(v)[0] == v);
        assert(bs.push(v).drop_first() =~= Seq::<Vec<ResolvedTransfer>>::empty());
        assert(spec_flatten(Seq::<Vec<ResolvedTransfer>>::empty()) =~= Seq::<
            ResolvedTransfer,
        >::empty());
        assert(spec_flatten(bs.push(v)) =~= v@);
        assert(spec_flatten(bs) + v@ =~= v@);
    } else {
        assert(bs.push(v)[0] == bs[0]);
        assert(bs.push(v).drop_first() =~= bs.drop_first().push(v));
        lemma_flatten_push(bs.drop_first(), v);
        assert(spec_flatten(bs.push(v)) =~= spec_flatten(bs) + v@);
    }
}

/// The diagnostic reason for an operating-system error code from a
/// vectored transfer, by the Linux numbering: 14 (bad address), 12 (out
/// of memory), 1 (operation not permitted), 3 (no such process); every
/// other code is reported as an invalid argument.
pub open spec fn spec_map_os_error(code: i32) -> TransferReason {
    if code == 14 {
        TransferReason::InvalidAddress
    } else if code == 12 {
        TransferReason::AllocationFailed
    } else if code == 1 {
        TransferReason::PermissionDenied
    } else if code == 3 {
        TransferReason::ProcessNotFound
    } else {
        TransferReason::InvalidArgument
    }
}

/// Executable `spec_map_os_error`.
pub fn map_os_error(code: i32) -> (r: TransferReason)
    ensures
        r == spec_map_os_error(code),
{
    if code == 14 {
        TransferReason::InvalidAddress
    } else if code == 12 {
        TransferReason::AllocationFailed
    } else if code == 1 {
        TransferReason::PermissionDenied
    } else if code == 3 {
        TransferReason::ProcessNotFound
    } else {
        TransferReason::InvalidArgument
    }
}

/// The transfer engine: remembers the host's per-call vector-count
/// ceiling, queried once at construction.
pub struct TransferEngine {
    max_vectors: usize,
}

impl TransferEngine {
    /// The per-call ceiling.
    pub closed spec fn ceiling(&self) -> int {
        self.max_vectors as int
    }

    /// A usable engine dispatches at least one descriptor per call.
    pub open spec fn wf(&self) -> bool {
        self.ceiling() >= 1
    }

    /// Remembers the ceiling.
    pub fn new(max_vectors: usize) -> (r: TransferEngine)
        requires
            max_vectors >= 1,
        ensures
            r.ceiling() == max_vectors,
            r.wf(),
    {
        TransferEngine { max_vectors }
    }

    /// The remembered ceiling.
    pub fn max_vectors(&self) -> (r: usize)
        ensures
            r as int == self.ceiling(),
    {
        self.max_vectors
    }

    /// Resolves a request batch against the table and cuts it into
    /// chunks of at most the ceiling: the plan holds
    /// `ceil(n / ceiling)` chunks whose concatenation resolves the
    /// requests one for one, in order. A request outside the table
    /// fails the whole batch before anything is dispatched.
    pub fn plan(&self, table: &MappingTable, reqs: &Vec<TransferRequest>) -> (r: Result<
        TransferPlan,
        ConnectorError,
    >)
        requires
            self.wf(),
            table.wf(),
        ensures
            match r {
                Ok(p) => spec_all_resolve(table@, reqs@) && p.wf() && p.spec_failed() is None
                    && p.spec_next() == 0 && spec_flatten(p.spec_batches()) == spec_resolved(
                    table@,
                    reqs@,
                ) && p.spec_batches().len() == (reqs@.len() + self.ceiling() - 1) / self.ceiling()
                    && (forall|k: int|
                    0 <= k < p.spec_batches().len() ==> 1 <= (
                    #[trigger] p.spec_batches()[k])@.len() <= self.ceiling()) && (forall|k: int|
                    0 <= k < p.spec_batches().len() - 1 ==> (
                    #[trigger] p.spec_batches()[k])@.len() == self.ceiling()),
                Err(e) => e == ConnectorError::TransferFailed(TransferReason::InvalidAddress)
                    && !spec_all_resolve(table@, reqs@),
            },
    {
        let c = self.max_vectors;
        let n = reqs.len();
        let mut batches: Vec<Vec<ResolvedTransfer>> = Vec::new();
        let mut cur: Vec<ResolvedTransfer> = Vec::new();
        let mut i: usize = 0;
        proof {
            assert(spec_flatten(batches@) + cur@ =~= Seq::<ResolvedTransfer>::empty());
            assert(reqs@.take(0).map_values(
                |q: TransferRequest| spec_resolve_val(table@, q),
            ) =~= Seq::<ResolvedTransfer>::empty());
        }
        while i < n
            invariant
                self.wf(),
                table.wf(),
                c == self.ceiling(),
                n == reqs@.len(),
                i <= n,
                forall|j: int| 0 <= j < i ==> spec_resolves(table@, #[trigger] reqs@[j]),
                spec_flatten(batches@) + cur@ == reqs@.take(i as int).map_values(
                    |q: TransferRequest| spec_resolve_val(table@, q),
                ),
                forall|k: int|
                    0 <= k < batches@.len() ==> (#[trigger] batches@[k])@.len() == c,
                cur@.len() < c,
                batches@.len() == i as int / c as int,
                cur@.len() == i as int % c as int,
            decreases n - i,
        {
            let q = reqs[i];
            let ghost pre_flat = spec_flatten(batches@) + cur@;
            match table.translate(q.guest_addr, q.len as u64) {
                Some(h) => {
                    cur.push(ResolvedTransfer { host_addr: h, len: q.len });
                    proof {
                        assert(reqs@.take(i + 1).map_values(
                            |qq: TransferRequest| spec_resolve_val(table@, qq),
                        ) =~= reqs@.take(i as int).map_values(
                            |qq: TransferRequest| spec_resolve_val(table@, qq),
                        ).push(spec_resolve_val(table@, q)));
                        assert(spec_flatten(batches@) + cur@ =~= pre_flat.push(
                            spec_resolve_val(table@, q),
                        ));
                    }
                    if cur.len() == c {
                        proof {
                            lemma_flatten_push(batches@, cur);
                        }
                        let full = cur;
                        cur = Vec::new();
                        batches.push(full);
                        proof {
                            assert(spec_flatten(batches@) + cur@ =~= spec_flatten(batches@));
                            assert((i + 1) as int % c as int == 0 && (i + 1) as int / c as int == i
                                as int / c as int + 1) by (nonlinear_arith)
                                requires c >= 1, i >= 0, (i as int % c as int) == (c - 1);
                        }
                    } else {
                        proof {
                            assert((i + 1) as int % c as int == i as int % c as int + 1 && (i + 1)
                                as int / c as int == i as int / c as int) by (nonlinear_arith)
                                requires c >= 1, i >= 0, (i as int % c as int) < (c - 1);
                        }
                    }
                },
                None => {
                    return Err(ConnectorError::TransferFailed(TransferReason::InvalidAddress));
                },
            }
            i += 1;
        }
        proof {
            assert(reqs@.take(n as int) =~= reqs@);
        }
        if cur.len() > 0 {
            proof {
                lemma_flatten_push(batches@, cur);
                assert((n as int + c - 1) / c as int == n as int / c as int + 1)
                    by (nonlinear_arith)
                    requires c >= 1, n >= 0, (n as int % c as int) > 0;
            }
            let last = cur;
            batches.push(last);
            proof {
                assert(spec_flatten(batches@) =~= spec_resolved(table@, reqs@));
            }
        } else {
            proof {
                assert((n as int + c - 1) / c as int == n as int / c as int) by (nonlinear_arith)
                    requires c >= 1, n >= 0, (n as int % c as int) == 0;
                assert(spec_flatten(batches@) =~= spec_resolved(table@, reqs@));
            }
        }
        Ok(TransferPlan { batches, next: 0, failed: None })
    }
}

/// The per-operation dispatch state: the chunks to issue, how many have
/// been handed out, and the first reported failure, which stops the
/// operation.
pub struct TransferPlan {
    batches: Vec<Vec<ResolvedTransfer>>,
    next: usize,
    failed: Option<TransferReason>,
}

impl TransferPlan {
    /// The chunks of the plan.
    pub closed spec fn spec_batches(&self) -> Seq<Vec<ResolvedTransfer>> {
        self.batches@
    }

    /// How many chunks have been handed out.
    pub closed spec fn spec_next(&self) -> int {
        self.next as int
    }

    /// The first reported failure.
    pub closed spec fn spec_failed(&self) -> Option<TransferReason> {
        self.failed
    }

    /// The cursor never passes the end.
    pub open spec fn wf(&self) -> bool {
        0 <= self.spec_next() <= self.spec_batches().len()
    }

    /// How many chunks the plan holds.
    pub fn batch_count(&self) -> (r: usize)
        ensures
            r == self.spec_batches().len(),
    {
        self.batches.len()
    }

    /// How many chunks have been handed out so far.
    pub fn dispatched(&self) -> (r: usize)
        ensures
            r as int == self.spec_next(),
    {
        self.next
    }

    /// The chunk at position `i`.
    pub fn batch(&self, i: usize) -> (r: &Vec<ResolvedTransfer>)
        requires
            i < self.spec_batches().len(),
        ensures
            r == self.spec_batches()[i as int],
    {
        &self.batches[i]
    }

    /// Hands out the next chunk to dispatch, or nothing once all chunks
    /// are out or a failure was reported: after a failure, no further
    /// chunk is ever handed out.
    pub fn next_batch(&mut self) -> (r: Option<usize>)
        requires
            old(self).wf(),
        ensures
            final(self).wf(),
            final(self).spec_batches() == old(self).spec_batches(),
            final(self).spec_failed() == old(self).spec_failed(),
            match r {
                Some(i) => old(self).spec_failed() is None && i as int == old(self).spec_next()
                    && i < old(self).spec_batches().len() && final(self).spec_next() == old(
                    self,
                ).spec_next() + 1,
                None => (old(self).spec_failed() is Some || old(self).spec_next() == old(
                    self,
                ).spec_batches().len()) && final(self).spec_next() == old(self).spec_next(),
            },
    {
        if self.failed.is_some() {
            return None;
        }
        if self.next < self.batches.len() {
            let i = self.next;
            self.next = self.next + 1;
            Some(i)
        } else {
            None
        }
    }

    /// Records the first failing system call: the whole operation is
    /// aborted with the reason derived from the error code, and nothing
    /// of the batch is retried or dispatched further.
    pub fn report_failure(&mut self, os_code: i32)
        ensures
            final(self).spec_failed() == Some(spec_map_os_error(os_code)),
            final(self).spec_batches() == old(self).spec_batches(),
            final(self).spec_next() == old(self).spec_next(),
    {
        self.failed = Some(map_os_error(os_code));
    }

    /// The operation's result: the first failure's transfer error, or
    /// success.
    pub fn outcome(&self) -> (r: Result<(), ConnectorError>)
        ensures
            match self.spec_failed() {
                Some(t) => r == Err::<(), ConnectorError>(ConnectorError::TransferFailed(t)),
                None => r == Ok::<(), ConnectorError>(()),
            },
    {
        match self.failed {
            Some(t) => Err(ConnectorError::TransferFailed(t)),
            None => Ok(()),
        }
    }
}

} // verus!
