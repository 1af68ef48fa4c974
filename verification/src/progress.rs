//! Progress of a run: how many files were dealt with, out of how many, and
//! how many bytes the replaced files held.

use crate::discovery::InodeGroups;
use vstd::prelude::*;

verus! {

/// Hundredths of a percent shown for `processed` files out of `total`,
/// rounded to the nearest hundredth (halves upwards). An empty run counts
/// as complete.
pub open spec fn percent_hundredths(processed: nat, total: nat) -> nat {
    if total == 0 {
        10000
    } else {
        (20000 * processed + total) / (2 * total)
    }
}

/// Counters of one run.
#[derive(Clone, Copy, Debug, PartialEq, Eq, Structural)]
pub struct DedupContext {
    pub dry_run: bool,
    pub total: usize,
    pub processed: usize,
    pub bytes_deduped: u128,
}

impl DedupContext {
    /// No more files are counted as processed than the run holds.
    pub open spec fn wf(&self) -> bool {
        self.processed <= self.total
    }

    /// A fresh context for a run over the inodes found: none processed yet,
    /// nothing saved.
    pub fn new(inode_to_paths: &InodeGroups, dry_run: bool) -> (ctx: DedupContext)
        requires
            inode_to_paths.wf(),
        ensures
            ctx.dry_run == dry_run,
            ctx.total == inode_to_paths.inodes().len(),
            ctx.processed == 0,
            ctx.bytes_deduped == 0,
    {
        DedupContext { dry_run, total: inode_to_paths.len(), processed: 0, bytes_deduped: 0 }
    }

    /// Counts `count` more files as processed.
    pub fn add_processed(&mut self, count: usize)
        requires
            old(self).processed + count <= old(self).total,
        ensures
            *final(self) == (DedupContext {
                processed: (old(self).processed + count) as usize,
                ..*old(self)
            }),
            final(self).wf(),
    {
        self.processed = self.processed + count;
    }

    /// Adds the size of a replaced file to the bytes saved.
    pub fn add_bytes(&mut self, size: u64)
        requires
            old(self).bytes_deduped + size <= u128::MAX,
        ensures
            *final(self) == (DedupContext {
                bytes_deduped: (old(self).bytes_deduped + size) as u128,
                ..*old(self)
            }),
    {
        self.bytes_deduped = self.bytes_deduped + size as u128;
    }

    /// The share of processed files, in hundredths of a percent.
    pub fn percent(&self) -> (h: u128)
        ensures
            h == percent_hundredths(self.processed as nat, self.total as nat),
            self.wf() ==> h <= 10000,
    {
        if self.total == 0 {
            10000
        } else {
            let p: u128 = self.processed as u128;
            let t: u128 = self.total as u128;
            let h: u128 = (20000 * p + t) / (2 * t);
            assert(p <= t ==> h <= 10000) by (nonlinear_arith)
                requires
                    h == (20000 * p + t) / (2 * t),
                    t > 0,
            ;
            h
        }
    }
}

/// The percentage shown is `100 * processed / total`, to the nearest
/// hundredth; an empty run shows 100 percent. Where the quotient has no
/// more than two decimals it is shown exactly.
pub proof fn lemma_percent(processed: nat, total: nat)
    ensures
        total == 0 ==> percent_hundredths(processed, total) == 10000,
        total > 0 ==> 2 * total * percent_hundredths(processed, total) <= 20000 * processed + total
            < 2 * total * (percent_hundredths(processed, total) + 1),
        total > 0 && (10000 * processed) % total == 0 ==> percent_hundredths(processed, total)
            * total == 10000 * processed,
        total > 0 && processed == total ==> percent_hundredths(processed, total) == 10000,
{
    if total > 0 {
        let n = 20000 * processed + total;
        let d = 2 * total;
        let h = percent_hundredths(processed, total);
        assert(h == n / d);
        assert(d * (n / d) <= n < d * (n / d + 1)) by (nonlinear_arith)
            requires
                d > 0,
                n >= 0,
        ;
        if (10000 * processed) % total == 0 {
            let q = (10000 * processed) / total;
            assert(q * total == 10000 * processed) by (nonlinear_arith)
                requires
                    total > 0,
                    (10000 * processed) % total == 0,
                    q == (10000 * processed) / total,
            ;
            assert(h == q) by (nonlinear_arith)
                requires
                    d * h <= n < d * (h + 1),
                    n == 2 * (q * total) + total,
                    d == 2 * total,
                    total > 0,
            ;
        }
        if processed == total {
            assert(h == 10000) by (nonlinear_arith)
                requires
                    d * h <= n < d * (h + 1),
                    n == 20001 * total,
                    d == 2 * total,
                    total > 0,
            ;
        }
    }
}

} // verus!
