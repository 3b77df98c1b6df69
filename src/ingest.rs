use vstd::prelude::*;
use crate::splitter::{lemma_rechunk, record_views, split_records, RecordSplitter};
use crate::stats::{fold_records, empty_stats, process_part, step, MyData, StatsView};
use crate::StreamError;

verus! {

/// The records and the tail after feeding `chunks` one after another into
/// a splitter with nothing pending.
pub open spec fn feed_all(chunks: Seq<Seq<u8>>) -> (Seq<Seq<u8>>, Seq<u8>)
    decreases chunks.len(),
{
    if chunks.len() == 0 {
        (seq![], seq![])
    } else {
        let (recs, tail) = feed_all(chunks.drop_last());
        let next = split_records(tail + chunks.last());
        (recs + next.0, next.1)
    }
}

/// However a stream is cut into chunks, feeding them one by one yields the
/// same records, in the same order, and the same tail as feeding the whole
/// stream at once.
pub proof fn lemma_any_chunking(chunks: Seq<Seq<u8>>)
    ensures
        feed_all(chunks) == split_records(chunks.flatten()),
    decreases chunks.len(),
{
    if chunks.len() == 0 {
        assert(split_records(Seq::<u8>::empty()) == (Seq::<Seq<u8>>::empty(), Seq::<u8>::empty()));
    } else {
        let init = chunks.drop_last();
        lemma_any_chunking(init);
        chunks.lemma_flatten_and_flatten_alt_are_equivalent();
        init.lemma_flatten_and_flatten_alt_are_equivalent();
        assert(chunks.flatten() == init.flatten() + chunks.last());
        lemma_rechunk(init.flatten(), chunks.last());
    }
}

/// Once a fold has failed on a prefix, the fold of the whole fails the same way.
proof fn lemma_fold_prefix_err(st: StatsView, rs: Seq<Seq<u8>>, k: int)
    requires
        0 <= k <= rs.len(),
        fold_records(st, rs.subrange(0, k)) is Err,
    ensures
        fold_records(st, rs) == fold_records(st, rs.subrange(0, k)),
    decreases rs.len(),
{
    if k == rs.len() {
        assert(rs.subrange(0, k) =~= rs);
    } else {
        assert(rs.drop_last().subrange(0, k) =~= rs.subrange(0, k));
        lemma_fold_prefix_err(st, rs.drop_last(), k);
    }
}

/// Every record folded into `data` in order, up to the first failure.
fn fold_parts(recs: &Vec<Vec<u8>>, data: &mut MyData) -> (r: Result<(), StreamError>)
    requires
        old(data).wf(),
    ensures
        final(data).wf(),
        match fold_records(old(data)@, record_views(recs@)) {
        Ok(s) => r is Ok && final(data)@ == s,
        Err(e) => r == Err::<(), StreamError>(e),
    },
{
    let ghost st0 = data@;
    let ghost rv = record_views(recs@);
    let mut i: usize = 0;
    assert(rv.subrange(0, 0) =~= Seq::<Seq<u8>>::empty());
    while i < recs.len()
        invariant
            i <= recs@.len(),
            rv == record_views(recs@),
            st0 == old(data)@,
            data.wf(),
            fold_records(st0, rv.subrange(0, i as int)) == Ok::<StatsView, StreamError>(
                data@,
            ),
        decreases recs@.len() - i,
    {
        let ghost before = data@;
        proof {
            let pre = rv.subrange(0, i + 1);
            assert(pre.drop_last() =~= rv.subrange(0, i as int));
            assert(pre.last() == recs@[i as int]@);
            assert(fold_records(st0, pre) == step(before, recs@[i as int]@));
        }
        match process_part(recs[i].as_slice(), data) {
            Ok(()) => {},
            Err(e) => {
                proof {
                    lemma_fold_prefix_err(st0, rv, i + 1);
                }
                return Err(e);
            },
        }
        i += 1;
    }
    assert(rv.subrange(0, i as int) =~= rv);
    Ok(())
}

/// One run over a stream: the working buffer and the accumulator. The
/// caller reads the source and hands each chunk to `feed`, then calls
/// `finish` at the end of the stream; any error ends the run.
pub struct Ingest {
    splitter: RecordSplitter,
    data: MyData,
}

impl Ingest {
    pub closed spec fn pending(&self) -> Seq<u8> {
        self.splitter.pending()
    }

    pub closed spec fn stats(&self) -> StatsView {
        self.data@
    }

    pub closed spec fn cap(&self) -> nat {
        self.splitter.cap()
    }

    pub closed spec fn wf(&self) -> bool {
        self.splitter.wf() && self.data.wf()
    }

    /// A run with a working buffer of `capacity` bytes.
    pub fn new(capacity: usize) -> (r: Ingest)
        ensures
            r.wf(),
            r.pending() == Seq::<u8>::empty(),
            r.stats() == empty_stats(),
            r.cap() == capacity,
    {
        Ingest { splitter: RecordSplitter::new(capacity), data: MyData::new() }
    }

    /// How many more bytes the working buffer can take.
    pub fn free_space(&self) -> (r: usize)
        requires
            self.wf(),
        ensures
            r == self.cap() - self.pending().len(),
    {
        self.splitter.free_space()
    }

    /// Takes the next chunk of the stream and folds in every record that it
    /// completes. `BufferOverflow` when the pending bytes and the chunk do
    /// not fit in the buffer; otherwise the first error of the fold.
    pub fn feed(&mut self, chunk: &[u8]) -> (r: Result<(), StreamError>)
        requires
            old(self).wf(),
        ensures
            final(self).wf(),
            final(self).cap() == old(self).cap(),
            old(self).pending().len() + chunk@.len() > old(self).cap() ==> r == Err::<
                (),
                StreamError,
            >(StreamError::BufferOverflow) && final(self).pending() == old(self).pending()
                && final(self).stats() == old(self).stats(),
            old(self).pending().len() + chunk@.len() <= old(self).cap() ==> {
                let (recs, tail) = split_records(old(self).pending() + chunk@);
                &&& final(self).pending() == tail
                &&& match fold_records(old(self).stats(), recs) {
                    Ok(s) => r is Ok && final(self).stats() == s,
                    Err(e) => r == Err::<(), StreamError>(e),
                }
            },
    {
        let recs = match self.splitter.feed(chunk) {
            Ok(recs) => recs,
            Err(e) => return Err(e),
        };
        let r = fold_parts(&recs, &mut self.data);
        r
    }

    /// Ends the run: the pending bytes, if any, are the last record; then
    /// the average is set. `FinalizeOnEmptyInput` when no record was seen.
    pub fn finish(self) -> (r: Result<MyData, StreamError>)
        requires
            self.wf(),
        ensures
            match fold_records(
                self.stats(),
                if self.pending().len() > 0 {
                    seq![self.pending()]
                } else {
                    Seq::<Seq<u8>>::empty()
                },
            ) {
                Ok(s) => if s.count == 0 {
                    r == Err::<MyData, StreamError>(StreamError::FinalizeOnEmptyInput)
                } else {
                    r is Ok && r->Ok_0.wf() && r->Ok_0@ == (StatsView {
                        average: s.sum / s.count,
                        ..s
                    })
                },
                Err(e) => r == Err::<MyData, StreamError>(e),
            },
    {
        let mut splitter = self.splitter;
        let mut data = self.data;
        let ghost st0 = data@;
        let ghost p = splitter.pending();
        assert(fold_records(st0, Seq::<Seq<u8>>::empty()) == Ok::<StatsView, StreamError>(st0));
        match splitter.finish() {
            Some(last) => {
                assert(seq![p].drop_last() =~= Seq::<Seq<u8>>::empty());
                assert(fold_records(st0, seq![p]) == step(st0, last@));
                match process_part(last.as_slice(), &mut data) {
                    Ok(()) => {},
                    Err(e) => return Err(e),
                }
            },
            None => {},
        }
        match data.update_avg_product() {
            Ok(()) => Ok(data),
            Err(e) => Err(e),
        }
    }
}

} // verus!
