use vstd::prelude::*;
use crate::search::{
    copy_range, find_from, first_match_from, lemma_first_match_extend, lemma_first_match_props,
    lemma_first_match_shift, occurs_at,
};
use crate::StreamError;

verus! {

/// The two bytes `},` that close one record and open the next.
pub open spec fn delimiter() -> Seq<u8> {
    seq![125u8, 44u8]
}

/// Cuts `s` into the records it holds in full, each ending with its
/// delimiter, and the tail after the last delimiter.
pub open spec fn split_records(s: Seq<u8>) -> (Seq<Seq<u8>>, Seq<u8>)
    decreases s.len(),
{
    match first_match_from(s, delimiter(), 0) {
        Some(k) => if 0 <= k && k + 2 <= s.len() {
            let rest = split_records(s.subrange(k + 2, s.len() as int));
            (seq![s.subrange(0, k + 2)] + rest.0, rest.1)
        } else {
            (seq![], s)
        },
        None => (seq![], s),
    }
}

/// The byte contents of a list of records.
pub open spec fn record_views(v: Seq<Vec<u8>>) -> Seq<Seq<u8>> {
    v.map_values(|r: Vec<u8>| r@)
}

/// Every record of a whole stream: the delimited ones, then a non-empty tail
/// as the last record.
pub open spec fn stream_records(s: Seq<u8>) -> Seq<Seq<u8>> {
    let (recs, tail) = split_records(s);
    if tail.len() > 0 {
        recs.push(tail)
    } else {
        recs
    }
}

/// Nothing is lost and nothing is repeated: the records followed by the tail
/// give back the input, and the tail holds no delimiter.
pub proof fn lemma_split_lossless(s: Seq<u8>)
    ensures
        split_records(s).0.flatten() + split_records(s).1 == s,
        first_match_from(split_records(s).1, delimiter(), 0) is None,
        stream_records(s).flatten() == s,
    decreases s.len(),
{
    assert(delimiter().len() == 2);
    lemma_first_match_props(s, delimiter(), 0);
    let (recs, tail) = split_records(s);
    match first_match_from(s, delimiter(), 0) {
        Some(k) => {
            let rest = s.subrange(k + 2, s.len() as int);
            lemma_split_lossless(rest);
            let head = s.subrange(0, k + 2);
            assert((seq![head] + split_records(rest).0).drop_first() =~= split_records(rest).0);
            assert(recs.flatten() == head + split_records(rest).0.flatten());
            assert(tail == split_records(rest).1);
            assert(head + rest =~= s);
            assert(recs.flatten() + tail =~= head + (split_records(rest).0.flatten() + split_records(
                rest,
            ).1));
        },
        None => {
            assert(recs =~= Seq::<Seq<u8>>::empty());
            assert(tail == s);
            assert(recs.flatten() + tail =~= s);
        },
    }
    if tail.len() > 0 {
        recs.lemma_flatten_and_flatten_alt_are_equivalent();
        recs.push(tail).lemma_flatten_and_flatten_alt_are_equivalent();
        assert(recs.push(tail).drop_last() =~= recs);
    }
}

/// Splitting does not depend on how the stream was cut into chunks: cutting
/// `a` and then the tail of `a` followed by `b` yields exactly the records
/// and tail of cutting `a + b` at once.
pub proof fn lemma_rechunk(a: Seq<u8>, b: Seq<u8>)
    ensures
        split_records(a).0 + split_records(split_records(a).1 + b).0 == split_records(a + b).0,
        split_records(split_records(a).1 + b).1 == split_records(a + b).1,
    decreases a.len(),
{
    assert(delimiter().len() == 2);
    lemma_first_match_props(a, delimiter(), 0);
    match first_match_from(a, delimiter(), 0) {
        Some(k) => {
            lemma_first_match_extend(a, b, delimiter(), 0);
            let rest = a.subrange(k + 2, a.len() as int);
            lemma_rechunk(rest, b);
            assert((a + b).subrange(k + 2, (a + b).len() as int) =~= rest + b);
            assert((a + b).subrange(0, k + 2) =~= a.subrange(0, k + 2));
            assert(split_records(a).0 + split_records(split_records(a).1 + b).0 =~= seq![
                a.subrange(0, k + 2),
            ] + (split_records(rest).0 + split_records(split_records(rest).1 + b).0));
        },
        None => {
            assert(split_records(a).0 + split_records(a + b).0 =~= split_records(a + b).0);
        },
    }
}

/// The working buffer: bytes received but not yet cut into a record, held
/// within a fixed capacity.
pub struct RecordSplitter {
    buf: Vec<u8>,
    capacity: usize,
}

impl RecordSplitter {
    /// The bytes waiting for the rest of their record.
    pub closed spec fn pending(&self) -> Seq<u8> {
        self.buf@
    }

    pub closed spec fn cap(&self) -> nat {
        self.capacity as nat
    }

    pub closed spec fn wf(&self) -> bool {
        self.buf@.len() <= self.capacity
    }

    pub fn new(capacity: usize) -> (r: RecordSplitter)
        ensures
            r.wf(),
            r.pending() == Seq::<u8>::empty(),
            r.cap() == capacity,
    {
        RecordSplitter { buf: Vec::new(), capacity }
    }

    pub fn capacity(&self) -> (r: usize)
        ensures
            r == self.cap(),
    {
        self.capacity
    }

    /// How many more bytes the buffer can take.
    pub fn free_space(&self) -> (r: usize)
        requires
            self.wf(),
        ensures
            r == self.cap() - self.pending().len(),
    {
        self.capacity - self.buf.len()
    }

    /// Appends `chunk` to the pending bytes and hands out every record that
    /// is now complete; the rest stays pending. When the pending bytes and
    /// the chunk together do not fit in the buffer, nothing changes and the
    /// error is `BufferOverflow`.
    pub fn feed(&mut self, chunk: &[u8]) -> (r: Result<Vec<Vec<u8>>, StreamError>)
        requires
            old(self).wf(),
        ensures
            final(self).wf(),
            final(self).cap() == old(self).cap(),
            old(self).pending().len() + chunk@.len() > old(self).cap() <==> r is Err,
            match r {
                Ok(recs) => {
                    &&& record_views(recs@) == split_records(
                        old(self).pending() + chunk@,
                    ).0
                    &&& final(self).pending() == split_records(old(self).pending() + chunk@).1
                },
                Err(e) => e == StreamError::BufferOverflow && final(self).pending() == old(
                    self,
                ).pending(),
            },
    {
        if chunk.len() > self.capacity - self.buf.len() {
            return Err(StreamError::BufferOverflow);
        }
        let ghost pend = self.buf@;
        let ghost full = self.buf@ + chunk@;
        let mut data: Vec<u8> = Vec::new();
        std::mem::swap(&mut data, &mut self.buf);
        let mut i: usize = 0;
        while i < chunk.len()
            invariant
                i <= chunk@.len(),
                full == pend + chunk@,
                data@ == full.subrange(0, pend.len() + i),
            decreases chunk@.len() - i,
        {
            data.push(chunk[i]);
            i += 1;
            assert(data@ =~= full.subrange(0, pend.len() + i));
        }
        assert(data@ =~= full);
        let delim: [u8; 2] = [125u8, 44u8];
        assert(delim@ =~= delimiter());
        assert(delimiter().len() == 2);
        let mut recs: Vec<Vec<u8>> = Vec::new();
        let mut start: usize = 0;
        loop
            invariant
                data@ == full,
                full == old(self).buf@ + chunk@,
                delim@ == delimiter(),
                delimiter().len() == 2,
                full.len() <= self.capacity,
                self.capacity == old(self).capacity,
                start <= full.len(),
                record_views(recs@) + split_records(
                    full.subrange(start as int, full.len() as int),
                ).0 == split_records(full).0,
                split_records(full.subrange(start as int, full.len() as int)).1 == split_records(
                    full,
                ).1,
            decreases full.len() - start,
        {
            let ghost sub = full.subrange(start as int, full.len() as int);
            proof {
                lemma_first_match_shift(full, delimiter(), start as int, 0);
                lemma_first_match_props(full, delimiter(), start as int);
            }
            match find_from(data.as_slice(), delim.as_slice(), start) {
                Some(k) => {
                    let rec = copy_range(data.as_slice(), start, k + 2);
                    proof {
                        let rest = full.subrange(k + 2, full.len() as int);
                        assert(sub.subrange(0, k - start + 2) =~= rec@);
                        assert(sub.subrange(k - start + 2, sub.len() as int) =~= rest);
                        let old_view = record_views(recs@);
                        assert(old_view + split_records(sub).0 =~= old_view.push(rec@)
                            + split_records(rest).0);
                    }
                    let ghost old_recs = recs@;
                    recs.push(rec);
                    assert(record_views(recs@) =~= record_views(old_recs).push(rec@));
                    start = k + 2;
                },
                None => {
                    self.buf = copy_range(data.as_slice(), start, data.len());
                    assert(split_records(sub).0 =~= Seq::<Seq<u8>>::empty());
                    assert(self.buf@ == split_records(sub).1);
                    assert(record_views(recs@) + seq![] =~= record_views(recs@));
                    return Ok(recs);
                },
            }
        }
    }

    /// At the end of the stream: the pending bytes, if any, as the last
    /// record. The buffer is empty afterwards.
    pub fn finish(&mut self) -> (r: Option<Vec<u8>>)
        requires
            old(self).wf(),
        ensures
            final(self).wf(),
            final(self).cap() == old(self).cap(),
            final(self).pending() == Seq::<u8>::empty(),
            match r {
                Some(v) => old(self).pending().len() > 0 && v@ == old(self).pending(),
                None => old(self).pending().len() == 0,
            },
    {
        let mut data: Vec<u8> = Vec::new();
        std::mem::swap(&mut data, &mut self.buf);
        if data.len() > 0 {
            Some(data)
        } else {
            None
        }
    }
}

} // verus!
