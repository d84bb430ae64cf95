use vstd::prelude::*;

verus! {

/// A batch is closed once the bytes written into it reach this many (25 MiB).
pub const BATCH_THRESHOLD: u64 = 25 * 1024 * 1024;

/// Sum of a sequence of byte counts.
pub open spec fn total(sizes: Seq<u64>) -> int
    decreases sizes.len(),
{
    if sizes.len() == 0 {
        0
    } else {
        total(sizes.drop_last()) + sizes.last()
    }
}

/// The files of every batch, in order, laid end to end.
pub open spec fn concat(batches: Seq<Seq<u64>>) -> Seq<u64>
    decreases batches.len(),
{
    if batches.len() == 0 {
        Seq::empty()
    } else {
        concat(batches.drop_last()) + batches.last()
    }
}

/// How files of the given sizes (each one's images plus the note itself) are
/// grouped: a file joins the open batch, and the batch is closed after the
/// first file that brings its total to the threshold. The last batch is the
/// open one, and may be empty.
pub open spec fn split_batches(sizes: Seq<u64>) -> Seq<Seq<u64>>
    decreases sizes.len(),
{
    if sizes.len() == 0 {
        seq![Seq::empty()]
    } else {
        let before = split_batches(sizes.drop_last());
        let open = before.last().push(sizes.last());
        let grown = before.update(before.len() - 1, open);
        if total(open) >= BATCH_THRESHOLD {
            grown.push(Seq::empty())
        } else {
            grown
        }
    }
}

/// The running state of the batch being filled: its index and the bytes
/// written into it so far.
pub struct BatchAccumulator {
    pub index: u64,
    pub total: u128,
}

impl BatchAccumulator {
    /// The state at the start of a run: batch 0, nothing written.
    pub fn new() -> (r: BatchAccumulator)
        ensures
            r.index == 0,
            r.total == 0,
    {
        BatchAccumulator { index: 0, total: 0 }
    }

    /// Records `bytes` more written into the current batch; returns the new total.
    pub fn add(&mut self, bytes: u64) -> (r: u128)
        requires
            old(self).total + bytes <= u128::MAX,
        ensures
            final(self).total == old(self).total + bytes,
            final(self).index == old(self).index,
            r == final(self).total,
    {
        self.total = self.total + bytes as u128;
        self.total
    }

    /// Whether the current batch has reached the threshold.
    pub fn should_rollover(&self) -> (r: bool)
        ensures
            r == (self.total >= BATCH_THRESHOLD),
    {
        self.total >= BATCH_THRESHOLD as u128
    }

    /// Called after each file: opens the next batch when the current one has
    /// reached the threshold, and says whether it did.
    pub fn finish_file(&mut self) -> (rolled: bool)
        requires
            old(self).index < u64::MAX,
        ensures
            rolled == (old(self).total >= BATCH_THRESHOLD),
            rolled ==> final(self).index == old(self).index + 1 && final(self).total == 0,
            !rolled ==> *final(self) == *old(self),
    {
        if self.should_rollover() {
            self.index = self.index + 1;
            self.total = 0;
            true
        } else {
            false
        }
    }
}

proof fn lemma_split_shape(sizes: Seq<u64>)
    ensures
        split_batches(sizes).len() >= 1,
        split_batches(sizes).len() <= sizes.len() + 1,
        total(split_batches(sizes).last()) < BATCH_THRESHOLD,
        forall|b: int|
            0 <= b < split_batches(sizes).len() - 1 ==> total(#[trigger] split_batches(sizes)[b])
                >= BATCH_THRESHOLD,
        forall|b: int|
            0 <= b < split_batches(sizes).len() - 1 ==> (#[trigger] split_batches(sizes)[b]).len()
                > 0 && total(split_batches(sizes)[b].drop_last()) < BATCH_THRESHOLD,
        concat(split_batches(sizes)) == sizes,
    decreases sizes.len(),
{
    if sizes.len() > 0 {
        let prev = sizes.drop_last();
        lemma_split_shape(prev);
        let before = split_batches(prev);
        let open = before.last().push(sizes.last());
        let grown = before.update(before.len() - 1, open);
        assert(open.drop_last() == before.last());
        assert(grown.drop_last() == before.drop_last());
        assert(concat(grown) == concat(before.drop_last()) + open);
        assert(concat(before) == concat(before.drop_last()) + before.last());
        assert(concat(grown) == sizes) by {
            assert(sizes == prev.push(sizes.last()));
            assert(concat(before.drop_last()) + open == (concat(before.drop_last()) + before.last()).push(sizes.last()));
        }
        if total(open) >= BATCH_THRESHOLD {
            let after = grown.push(Seq::<u64>::empty());
            assert(after.drop_last() == grown);
            assert(concat(after) == concat(grown) + Seq::<u64>::empty());
            assert(concat(grown) + Seq::<u64>::empty() == concat(grown));
        }
    } else {
        let one = seq![Seq::<u64>::empty()];
        assert(one.drop_last() == Seq::<Seq<u64>>::empty());
        assert(concat(one.drop_last()) == Seq::<u64>::empty());
        assert(concat(one) =~= Seq::<u64>::empty());
        assert(sizes =~= Seq::<u64>::empty());
    }
}

/// Groups files of the given sizes into batches, as a run does: each file is
/// added to the open batch, which is closed once it reaches the threshold.
pub fn plan_batches(sizes: &Vec<u64>) -> (r: Vec<Vec<u64>>)
    ensures
        r@.map_values(|b: Vec<u64>| b@) == split_batches(sizes@),
{
    let mut acc = BatchAccumulator::new();
    let mut closed: Vec<Vec<u64>> = Vec::new();
    let mut open: Vec<u64> = Vec::new();
    let mut i: usize = 0;
    proof {
        assert(sizes@.take(0) =~= Seq::<u64>::empty());
        assert(closed@.map_values(|b: Vec<u64>| b@).push(open@) =~= seq![Seq::<u64>::empty()]);
    }
    while i < sizes.len()
        invariant
            i <= sizes.len(),
            split_batches(sizes@.take(i as int)) == closed@.map_values(|b: Vec<u64>| b@).push(open@),
            acc.total == total(open@),
            acc.index == closed.len(),
            closed.len() <= i,
        decreases sizes.len() - i,
    {
        let size = sizes[i];
        let ghost prefix = sizes@.take(i as int);
        let ghost before = closed@.map_values(|b: Vec<u64>| b@).push(open@);
        let ghost closed_before = closed@.map_values(|b: Vec<u64>| b@);
        proof {
            lemma_split_shape(prefix);
            assert(before.last() == open@);
        }
        acc.add(size);
        open.push(size);
        proof {
            assert(sizes@.take(i + 1).drop_last() == prefix);
            assert(sizes@.take(i + 1).last() == size);
            assert(open@.drop_last() == before.last());
            assert(before.update(before.len() - 1, open@) =~= closed_before.push(open@));
        }
        if acc.finish_file() {
            closed.push(open);
            open = Vec::new();
            proof {
                assert(closed@.map_values(|b: Vec<u64>| b@) =~= closed_before.push(
                    closed@.last()@,
                ));
            }
        }
        i = i + 1;
    }
    closed.push(open);
    proof {
        assert(sizes@.take(sizes.len() as int) == sizes@);
        assert(closed@.map_values(|b: Vec<u64>| b@) =~= split_batches(sizes@));
    }
    closed
}

/// Every batch but the last holds at least the threshold in bytes, and the
/// last one holds less: a batch is only closed once it is full enough.
/// A closed batch was still below the threshold before its last file, so the
/// threshold starts a new batch and never splits a file from its images.
pub proof fn lemma_closed_batches_reach_threshold(sizes: Seq<u64>)
    ensures
        forall|b: int|
            0 <= b < split_batches(sizes).len() - 1 ==> total(#[trigger] split_batches(sizes)[b])
                >= BATCH_THRESHOLD,
        forall|b: int|
            0 <= b < split_batches(sizes).len() - 1 ==> (#[trigger] split_batches(sizes)[b]).len()
                > 0 && total(split_batches(sizes)[b].drop_last()) < BATCH_THRESHOLD,
        total(split_batches(sizes).last()) < BATCH_THRESHOLD,
{
    lemma_split_shape(sizes);
}

/// Every file lands in exactly one batch, and the batches keep the order in
/// which the files were handled.
pub proof fn lemma_each_file_in_one_batch(sizes: Seq<u64>)
    ensures
        concat(split_batches(sizes)) == sizes,
{
    lemma_split_shape(sizes);
}

} // verus!
