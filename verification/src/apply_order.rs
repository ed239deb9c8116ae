//! The order in which a reviewed CMP file is written back: every check before
//! the backup, the backup before any write, the outputs one after another,
//! the files written so far restored when one write fails, and, once all are
//! written, the records (cache, history, report) whose failures only warn.

use vstd::prelude::*;

verus! {

/// Where a write-back stands; each phase names the work to do next.
#[derive(Clone, Copy, Debug, PartialEq, Eq, Structural)]
pub enum ApplyPhase {
    /// Check the CMP file and render every output.
    Validate,
    /// Back up the task book.
    Backup,
    /// Write output `i`.
    Write(u64),
    /// Restore the first `k` outputs from their snapshots.
    Rollback(u64),
    /// Record the cache, the history and the report.
    Record,
    /// Applied.
    Done,
    /// Refused before anything was written.
    Refused,
    /// A write failed; the earlier files were restored, as far as possible.
    Failed,
}

/// The next phase after the work of `p`, which succeeded or not, for `n`
/// outputs.
pub open spec fn apply_next(p: ApplyPhase, ok: bool, n: nat) -> ApplyPhase {
    match p {
        ApplyPhase::Validate => if ok { ApplyPhase::Backup } else { ApplyPhase::Refused },
        ApplyPhase::Backup => if !ok {
            ApplyPhase::Refused
        } else if n == 0 {
            ApplyPhase::Record
        } else {
            ApplyPhase::Write(0)
        },
        ApplyPhase::Write(i) => if !ok {
            ApplyPhase::Rollback((i + 1) as u64)
        } else if i + 1 >= n {
            ApplyPhase::Record
        } else {
            ApplyPhase::Write((i + 1) as u64)
        },
        ApplyPhase::Rollback(_) => ApplyPhase::Failed,
        ApplyPhase::Record => ApplyPhase::Done,
        _ => p,
    }
}

/// The phase after the work of `p` for `n` outputs.
pub fn apply_step(p: ApplyPhase, ok: bool, n: u64) -> (r: ApplyPhase)
    requires
        p matches ApplyPhase::Write(i) ==> i < n,
    ensures
        r == apply_next(p, ok, n as nat),
        r matches ApplyPhase::Write(j) ==> j < n,
        r matches ApplyPhase::Rollback(k) ==> k <= n,
{
    match p {
        ApplyPhase::Validate => if ok { ApplyPhase::Backup } else { ApplyPhase::Refused },
        ApplyPhase::Backup => if !ok {
            ApplyPhase::Refused
        } else if n == 0 {
            ApplyPhase::Record
        } else {
            ApplyPhase::Write(0)
        },
        ApplyPhase::Write(i) => if !ok {
            ApplyPhase::Rollback(i + 1)
        } else if i + 1 >= n {
            ApplyPhase::Record
        } else {
            ApplyPhase::Write(i + 1)
        },
        ApplyPhase::Rollback(_) => ApplyPhase::Failed,
        ApplyPhase::Record => ApplyPhase::Done,
        _ => p,
    }
}

/// The phase reached from the start after works whose outcomes are `oks`.
pub open spec fn apply_run(oks: Seq<bool>, n: nat) -> ApplyPhase
    decreases oks.len(),
{
    if oks.len() == 0 {
        ApplyPhase::Validate
    } else {
        apply_next(apply_run(oks.drop_last(), n), oks.last(), n)
    }
}

/// A phase at which the task book may already have been written to.
pub open spec fn past_backup(p: ApplyPhase) -> bool {
    p is Write || p is Rollback || p is Record || p is Done || p is Failed
}

proof fn lemma_apply_run(oks: Seq<bool>, n: nat)
    requires
        n <= u64::MAX,
    ensures
        apply_run(oks, n) matches ApplyPhase::Write(i) ==> i < n,
        apply_run(oks, n) == ApplyPhase::Validate ==> oks.len() == 0,
        apply_run(oks, n) == ApplyPhase::Backup ==> oks.len() == 1 && oks[0],
        past_backup(apply_run(oks, n)) ==> oks.len() >= 2 && oks[0] && oks[1],
        apply_run(oks, n) matches ApplyPhase::Write(i) ==> oks.len() == i + 2 && forall|k: int| 0 <= k < oks.len() ==> #[trigger] oks[k],
        apply_run(oks, n) matches ApplyPhase::Rollback(j) ==> oks.len() == j + 2 && !oks.last()
            && forall|k: int| 0 <= k < oks.len() - 1 ==> #[trigger] oks[k],
    decreases oks.len(),
{
    if oks.len() > 0 {
        let d = oks.drop_last();
        lemma_apply_run(d, n);
        assert forall|k: int| 0 <= k < d.len() implies #[trigger] d[k] == oks[k] by {}
        assert(oks[oks.len() - 1] == oks.last());
        match apply_run(d, n) {
            ApplyPhase::Write(i) => {
                assert(i < 0xffff_ffff_ffff_ffffu64 ==> ((i + 1) as u64) == i + 1) by (bit_vector);
                assert(i < n);
                if oks.last() {
                    if i + 1 < n {
                        assert(apply_run(oks, n) == ApplyPhase::Write((i + 1) as u64));
                        assert forall|k: int| 0 <= k < oks.len() implies #[trigger] oks[k] by {
                            if k < d.len() {
                                assert(d[k]);
                            }
                        }
                    }
                } else {
                    assert(apply_run(oks, n) == ApplyPhase::Rollback((i + 1) as u64));
                    assert forall|k: int| 0 <= k < oks.len() - 1 implies #[trigger] oks[k] by {
                        assert(d[k]);
                    }
                }
            },
            ApplyPhase::Backup => {
                assert forall|k: int| 0 <= k < oks.len() implies #[trigger] oks[k] == (k < 1 || oks.last()) by {
                    if k < d.len() {
                        assert(d[k]);
                    }
                }
            },
            _ => {},
        }
    }
}

/// Nothing is written to the task book before every check and the backup
/// have succeeded; a failed write restores exactly the outputs written up to
/// and including it, after which the write-back has failed; and once every
/// output is written, nothing is rolled back: the records that follow end in
/// success whatever their outcome.
pub proof fn law_apply_order(oks: Seq<bool>, n: nat)
    requires
        n <= u64::MAX,
    ensures
        past_backup(apply_run(oks, n)) ==> oks[0] && oks[1],
        apply_run(oks, n) matches ApplyPhase::Rollback(j) ==> j == oks.len() - 2 && forall|k: int| 0 <= k < oks.len() - 1 ==> #[trigger] oks[k],
        apply_run(oks, n) matches ApplyPhase::Rollback(_) ==> apply_next(apply_run(oks, n), true, n) == ApplyPhase::Failed,
        apply_run(oks, n) == ApplyPhase::Record ==> forall|ok: bool| apply_next(ApplyPhase::Record, ok, n) == ApplyPhase::Done,
{
    lemma_apply_run(oks, n);
}

} // verus!
