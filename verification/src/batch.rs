use vstd::prelude::*;
use vstd::multiset::Multiset;

verus! {

/// How many entries of an outcome sequence report a fixed file.
pub open spec fn count_fixed(s: Seq<bool>) -> int
    decreases s.len(),
{
    if s.len() == 0 {
        0
    } else {
        count_fixed(s.drop_last()) + if s.last() {
            1int
        } else {
            0int
        }
    }
}

/// How many entries of an outcome sequence report a failed file.
pub open spec fn count_failed(s: Seq<bool>) -> int
    decreases s.len(),
{
    if s.len() == 0 {
        0
    } else {
        count_failed(s.drop_last()) + if s.last() {
            0int
        } else {
            1int
        }
    }
}

/// The pair of result counters one batch run shares across its per-file
/// tasks.  They only ever increase, by exactly one per recorded file.
pub struct BatchCounters {
    pub fixed: usize,
    pub failed: usize,
}

impl BatchCounters {
    pub fn new() -> (c: BatchCounters)
        ensures
            c.fixed == 0,
            c.failed == 0,
    {
        BatchCounters { fixed: 0, failed: 0 }
    }

    /// Record one file's outcome: exactly one of the two counters grows
    /// by one, so their sum counts the recorded files.
    pub fn record(&mut self, fixed: bool)
        requires
            old(self).fixed + old(self).failed < usize::MAX,
        ensures
            final(self).fixed + final(self).failed == old(self).fixed + old(self).failed + 1,
            final(self).fixed == old(self).fixed + if fixed {
                1int
            } else {
                0int
            },
            final(self).failed == old(self).failed + if fixed {
                0int
            } else {
                1int
            },
    {
        if fixed {
            self.fixed = self.fixed + 1;
        } else {
            self.failed = self.failed + 1;
        }
    }
}

/// Tally a whole batch of per-file outcomes, in completion order.
pub fn tally_outcomes(outcomes: &Vec<bool>) -> (c: BatchCounters)
    ensures
        c.fixed == count_fixed(outcomes@),
        c.failed == count_failed(outcomes@),
        c.fixed + c.failed == outcomes@.len(),
{
    let mut c = BatchCounters::new();
    let mut k: usize = 0;
    while k < outcomes.len()
        invariant
            k <= outcomes@.len(),
            c.fixed == count_fixed(outcomes@.take(k as int)),
            c.failed == count_failed(outcomes@.take(k as int)),
            c.fixed + c.failed == k,
        decreases outcomes@.len() - k,
    {
        let v = outcomes[k];
        c.record(v);
        proof {
            assert(outcomes@.take(k + 1).drop_last() =~= outcomes@.take(k as int));
            assert(outcomes@.take(k + 1).last() == v);
        }
        k = k + 1;
    }
    proof {
        assert(outcomes@.take(outcomes@.len() as int) =~= outcomes@);
    }
    c
}

/// Counter correctness: however the per-file tasks of one batch
/// interleave, every dispatched file lands in exactly one counter, so
/// fixed plus failed equals the number of files once the batch completes.
pub proof fn lemma_batch_total(s: Seq<bool>)
    ensures
        count_fixed(s) + count_failed(s) == s.len(),
    decreases s.len(),
{
    if s.len() > 0 {
        lemma_batch_total(s.drop_last());
    }
}

/// The counters count outcomes, not positions: an outcome sequence and
/// any reordering of it produce the same totals, so the order in which
/// concurrent tasks finish cannot change the report.
pub proof fn lemma_batch_order_irrelevant(s1: Seq<bool>, s2: Seq<bool>)
    requires
        s1.to_multiset() == s2.to_multiset(),
    ensures
        count_fixed(s1) == count_fixed(s2),
        count_failed(s1) == count_failed(s2),
{
    lemma_count_fixed_multiset(s1);
    lemma_count_fixed_multiset(s2);
    lemma_batch_total(s1);
    lemma_batch_total(s2);
    assert(s1.len() == s1.to_multiset().len()) by {
        broadcast use vstd::seq_lib::group_to_multiset_ensures;

    }
    assert(s2.len() == s2.to_multiset().len()) by {
        broadcast use vstd::seq_lib::group_to_multiset_ensures;

    }
}

/// The fixed count is the multiplicity of `true` among the outcomes.
proof fn lemma_count_fixed_multiset(s: Seq<bool>)
    ensures
        count_fixed(s) == s.to_multiset().count(true),
    decreases s.len(),
{
    broadcast use vstd::seq_lib::group_to_multiset_ensures;

    if s.len() == 0 {
        assert(s.to_multiset() =~= Multiset::empty());
    } else {
        lemma_count_fixed_multiset(s.drop_last());
        assert(s.drop_last().push(s.last()) =~= s);
        assert(s.drop_last().push(s.last()).to_multiset() =~= s.drop_last().to_multiset().insert(
            s.last()));
    }
}

} // verus!
