//! Counting the bytes that go into the compressor, for the progress line.
use vstd::prelude::*;

verus! {

/// The progress line is refreshed after every 256 KiB.
pub const UPDATE_INTERVAL: u64 = 262144;

/// Counts the bytes that pass through a writer and says when the progress
/// line is due for a refresh.
pub struct ByteCounter {
    count: u64,
    next_update: u64,
}

impl ByteCounter {
    /// Bytes counted so far.
    pub closed spec fn total(self) -> u64 {
        self.count
    }

    /// The count at which the progress line is next refreshed.
    pub closed spec fn next_refresh(self) -> u64 {
        self.next_update
    }

    /// A counter at zero; the first write refreshes the progress line.
    pub fn new() -> (c: Self)
        ensures
            c.total() == 0,
            c.next_refresh() == 0,
    {
        ByteCounter { count: 0, next_update: 0 }
    }

    /// Bytes counted so far.
    pub fn count(&self) -> (n: u64)
        ensures
            n == self.total(),
    {
        self.count
    }

    /// The count at which the progress line is next refreshed.
    pub fn next_refresh_at(&self) -> (n: u64)
        ensures
            n == self.next_refresh(),
    {
        self.next_update
    }

    /// Counts `written` more bytes; returns whether the progress line is due,
    /// and if so sets the next refresh 256 KiB further on.
    pub fn record(&mut self, written: u64) -> (refresh: bool)
        requires
            old(self).total() + written <= u64::MAX,
            old(self).total() + written >= old(self).next_refresh() ==> old(self).total() + written
                + UPDATE_INTERVAL <= u64::MAX,
        ensures
            final(self).total() == old(self).total() + written,
            refresh == (final(self).total() >= old(self).next_refresh()),
            refresh ==> final(self).next_refresh() == final(self).total() + UPDATE_INTERVAL,
            !refresh ==> final(self).next_refresh() == old(self).next_refresh(),
    {
        self.count = self.count + written;
        if self.count >= self.next_update {
            self.next_update = self.count + UPDATE_INTERVAL;
            true
        } else {
            false
        }
    }
}

/// The sum of a list of byte counts.
pub open spec fn sum_of(written: Seq<u64>) -> nat
    decreases written.len(),
{
    if written.len() == 0 {
        0
    } else {
        sum_of(written.drop_last()) + written.last() as nat
    }
}

/// A counter that starts at zero and records each write's count holds the
/// sum of the counts.
pub proof fn lemma_count_is_sum(counters: Seq<ByteCounter>, written: Seq<u64>)
    requires
        counters.len() == written.len() + 1,
        counters[0].total() == 0,
        forall|i: int|
            0 <= i < written.len() ==> #[trigger] counters[i + 1].total() == counters[i].total()
                + written[i],
    ensures
        counters.last().total() == sum_of(written),
    decreases written.len(),
{
    if written.len() > 0 {
        let n = written.len() as int - 1;
        assert forall|i: int| 0 <= i < written.drop_last().len() implies #[trigger] counters.drop_last()[i
            + 1].total() == counters.drop_last()[i].total() + written.drop_last()[i] by {
            assert(counters[i + 1].total() == counters[i].total() + written[i]);
        }
        lemma_count_is_sum(counters.drop_last(), written.drop_last());
        assert(counters[n + 1].total() == counters[n].total() + written[n]);
    }
}

} // verus!
