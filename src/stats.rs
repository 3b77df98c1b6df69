use vstd::prelude::*;
use crate::decimal::Price;
use crate::extract::{decode_record, extract, RecordView};
use crate::search::copy_range;
use crate::StreamError;

verus! {

/// How many bytes of a product code a snapshot keeps.
pub const CODE_CAP: usize = 64;

/// How many bytes of a product name a snapshot keeps.
pub const NAME_CAP: usize = 256;

/// `s` cut down to at most `n` bytes.
pub open spec fn clamp(s: Seq<u8>, n: nat) -> Seq<u8> {
    if s.len() <= n {
        s
    } else {
        s.subrange(0, n as int)
    }
}

/// A product as the accumulator remembers it.
pub struct Snapshot {
    pub code: Seq<u8>,
    pub name: Seq<u8>,
    pub price: Price,
}

/// A snapshot: the price, with code and name cut to their caps.
pub open spec fn snapshot_of(code: Seq<u8>, name: Seq<u8>, price: Price) -> Snapshot {
    Snapshot { code: clamp(code, CODE_CAP as nat), name: clamp(name, NAME_CAP as nat), price }
}

/// The snapshot of a record.
pub open spec fn snapshot(r: RecordView) -> Snapshot {
    snapshot_of(r.code, r.name, r.price)
}

/// The accumulator, as the contracts see it.
pub struct StatsView {
    pub count: nat,
    pub sum: nat,
    pub warehouse: nat,
    pub carousel: nat,
    pub rrc: nat,
    pub min: Option<Snapshot>,
    pub max: Option<Snapshot>,
    pub average: nat,
}

pub open spec fn empty_stats() -> StatsView {
    StatsView {
        count: 0,
        sum: 0,
        warehouse: 0,
        carousel: 0,
        rrc: 0,
        min: None,
        max: None,
        average: 0,
    }
}

/// The minimum after seeing `c`: replaced only by a strictly lower price.
pub open spec fn next_min(cur: Option<Snapshot>, c: Snapshot) -> Option<Snapshot> {
    match cur {
        Some(m) => if c.price.units() < m.price.units() {
            Some(c)
        } else {
            cur
        },
        None => Some(c),
    }
}

/// The maximum after seeing `c`: replaced only by a strictly higher price.
pub open spec fn next_max(cur: Option<Snapshot>, c: Snapshot) -> Option<Snapshot> {
    match cur {
        Some(m) => if c.price.units() > m.price.units() {
            Some(c)
        } else {
            cur
        },
        None => Some(c),
    }
}

/// One record folded into the accumulator.
pub open spec fn absorb(st: StatsView, r: RecordView) -> StatsView {
    StatsView {
        count: st.count + 1,
        sum: st.sum + r.price.whole(),
        warehouse: st.warehouse + if r.stock == 1 {
            1nat
        } else {
            0nat
        },
        carousel: st.carousel + if r.stock == 0 && r.day > 0 {
            1nat
        } else {
            0nat
        },
        rrc: st.rrc + if r.stock == 0 && r.day == 0 {
            1nat
        } else {
            0nat
        },
        min: next_min(st.min, snapshot(r)),
        max: next_max(st.max, snapshot(r)),
        average: st.average,
    }
}

/// The records folded in, in order.
pub open spec fn absorb_all(st: StatsView, rs: Seq<RecordView>) -> StatsView
    decreases rs.len(),
{
    if rs.len() == 0 {
        st
    } else {
        absorb(absorb_all(st, rs.drop_last()), rs.last())
    }
}

/// One raw record handled: decoded and folded in, or the reason the run stops.
#[verifier::opaque]
pub open spec fn step(st: StatsView, rec: Seq<u8>) -> Result<StatsView, StreamError> {
    match decode_record(rec) {
        None => Err(StreamError::FieldDecode),
        Some(r) => if st.count + 1 > u64::MAX || st.sum + r.price.whole() > u64::MAX {
            Err(StreamError::CounterOverflow)
        } else {
            Ok(absorb(st, r))
        },
    }
}

/// Raw records handled in order; the first failure ends the fold.
pub open spec fn fold_records(st: StatsView, recs: Seq<Seq<u8>>) -> Result<
    StatsView,
    StreamError,
>
    decreases recs.len(),
{
    if recs.len() == 0 {
        Ok(st)
    } else {
        match fold_records(st, recs.drop_last()) {
            Ok(s) => step(s, recs.last()),
            Err(e) => Err(e),
        }
    }
}

/// A cut field keeps exactly its cap's worth of bytes, and always the
/// leading ones: never more than the cap, never less than what fits.
pub proof fn lemma_clamp_bound(s: Seq<u8>, n: nat)
    ensures
        clamp(s, n).len() == if s.len() <= n {
            s.len()
        } else {
            n
        },
        clamp(s, n) == s.subrange(0, clamp(s, n).len() as int),
{
    if s.len() <= n {
        assert(s.subrange(0, s.len() as int) =~= s);
    }
}

/// Decoded records, in order.
pub open spec fn decoded(recs: Seq<Seq<u8>>) -> Seq<RecordView> {
    recs.map_values(|r: Seq<u8>| decode_record(r)->0)
}

/// A fold that succeeds has decoded every record and folded the decoded
/// fields in, in order.
pub proof fn lemma_fold_is_absorb_all(st: StatsView, recs: Seq<Seq<u8>>)
    requires
        fold_records(st, recs) is Ok,
    ensures
        forall|i: int| 0 <= i < recs.len() ==> (#[trigger] decode_record(recs[i])) is Some,
        fold_records(st, recs)->Ok_0 == absorb_all(st, decoded(recs)),
    decreases recs.len(),
{
    reveal(step);
    if recs.len() > 0 {
        let init = recs.drop_last();
        lemma_fold_is_absorb_all(st, init);
        assert(decoded(recs).drop_last() =~= decoded(init));
        assert forall|i: int| 0 <= i < recs.len() implies (#[trigger] decode_record(recs[i])) is Some by {
            if i < recs.len() - 1 {
                assert(recs[i] == init[i]);
            }
        }
    }
}

/// The lowest and the highest price are right, and of several records with
/// that price the first one seen is kept.
pub proof fn lemma_min_max(rs: Seq<RecordView>)
    requires
        rs.len() > 0,
    ensures
        exists|j: int|
            0 <= j < rs.len() && absorb_all(empty_stats(), rs).min == Some(snapshot(rs[j]))
                && (forall|i: int| 0 <= i < rs.len() ==> rs[j].price.units() <= #[trigger] rs[i].price.units())
                && (forall|i: int| 0 <= i < j ==> rs[j].price.units() < #[trigger] rs[i].price.units()),
        exists|j: int|
            0 <= j < rs.len() && absorb_all(empty_stats(), rs).max == Some(snapshot(rs[j]))
                && (forall|i: int| 0 <= i < rs.len() ==> rs[j].price.units() >= #[trigger] rs[i].price.units())
                && (forall|i: int| 0 <= i < j ==> rs[j].price.units() > #[trigger] rs[i].price.units()),
    decreases rs.len(),
{
    let n = rs.len();
    let init = rs.drop_last();
    if n == 1 {
        assert(absorb_all(empty_stats(), init) == empty_stats());
        assert(absorb_all(empty_stats(), rs).min == Some(snapshot(rs[0])));
        assert(absorb_all(empty_stats(), rs).max == Some(snapshot(rs[0])));
    } else {
        lemma_min_max(init);
        let prev = absorb_all(empty_stats(), init);
        let jm = choose|j: int|
            0 <= j < init.len() && prev.min == Some(snapshot(init[j]))
                && (forall|i: int| 0 <= i < init.len() ==> init[j].price.units() <= #[trigger] init[i].price.units())
                && (forall|i: int| 0 <= i < j ==> init[j].price.units() < #[trigger] init[i].price.units());
        let jx = choose|j: int|
            0 <= j < init.len() && prev.max == Some(snapshot(init[j]))
                && (forall|i: int| 0 <= i < init.len() ==> init[j].price.units() >= #[trigger] init[i].price.units())
                && (forall|i: int| 0 <= i < j ==> init[j].price.units() > #[trigger] init[i].price.units());
        let last = rs[n - 1];
        assert(snapshot(init[jm]).price == init[jm].price);
        assert(forall|i: int| 0 <= i < init.len() ==> init[i] == rs[i]);
        if last.price.units() < init[jm].price.units() {
            assert(absorb_all(empty_stats(), rs).min == Some(snapshot(rs[n - 1])));
            assert(forall|i: int| 0 <= i < rs.len() ==> rs[n - 1].price.units() <= #[trigger] rs[i].price.units());
        } else {
            assert(absorb_all(empty_stats(), rs).min == Some(snapshot(rs[jm])));
            assert(forall|i: int| 0 <= i < rs.len() ==> rs[jm].price.units() <= #[trigger] rs[i].price.units());
        }
        assert(snapshot(init[jx]).price == init[jx].price);
        if last.price.units() > init[jx].price.units() {
            assert(absorb_all(empty_stats(), rs).max == Some(snapshot(rs[n - 1])));
            assert(forall|i: int| 0 <= i < rs.len() ==> rs[n - 1].price.units() >= #[trigger] rs[i].price.units());
        } else {
            assert(absorb_all(empty_stats(), rs).max == Some(snapshot(rs[jx])));
            assert(forall|i: int| 0 <= i < rs.len() ==> rs[jx].price.units() >= #[trigger] rs[i].price.units());
        }
    }
}

/// A product remembered for its price: code and name cut to their caps.
pub struct Product {
    pub name: Vec<u8>,
    pub code: Vec<u8>,
    pub price: Price,
}

impl View for Product {
    type V = Snapshot;

    open spec fn view(&self) -> Snapshot {
        Snapshot { code: self.code@, name: self.name@, price: self.price }
    }
}

impl Product {
    /// A snapshot of a product: the price, and the first `CODE_CAP` bytes of
    /// the code and `NAME_CAP` bytes of the name.
    pub fn new(price: Price, code_bytes: &[u8], name_bytes: &[u8]) -> (r: Product)
        ensures
            r@ == snapshot_of(code_bytes@, name_bytes@, price),
            r.code@.len() <= CODE_CAP,
            r.name@.len() <= NAME_CAP,
    {
        let cl = if code_bytes.len() < CODE_CAP {
            code_bytes.len()
        } else {
            CODE_CAP
        };
        let nl = if name_bytes.len() < NAME_CAP {
            name_bytes.len()
        } else {
            NAME_CAP
        };
        let code = copy_range(code_bytes, 0, cl);
        let name = copy_range(name_bytes, 0, nl);
        assert(code_bytes@.len() <= CODE_CAP ==> code@ =~= code_bytes@);
        assert(name_bytes@.len() <= NAME_CAP ==> name@ =~= name_bytes@);
        Product { name, code, price }
    }
}

/// The running statistics over the records of one stream.
pub struct MyData {
    /// The cheapest product seen, the first of equals.
    pub min: Option<Product>,
    /// The dearest product seen, the first of equals.
    pub max: Option<Product>,
    /// The average price, whole units, set once the stream has ended.
    pub price: u64,
    pub count: u64,
    /// The prices truncated toward zero, added up.
    pub sum: u64,
    /// Records with stock 1.
    pub warehouse: u64,
    /// Records with stock 0 and a positive day-delivery value.
    pub carousel: u64,
    /// Records with stock 0 and day-delivery 0.
    pub rrc: u64,
}

pub open spec fn opt_view(p: Option<Product>) -> Option<Snapshot> {
    match p {
        Some(q) => Some(q@),
        None => None,
    }
}

pub open spec fn snapshot_wf(p: Option<Product>) -> bool {
    match p {
        Some(q) => q.price.wf() && q.code@.len() <= CODE_CAP && q.name@.len() <= NAME_CAP,
        None => true,
    }
}

impl View for MyData {
    type V = StatsView;

    open spec fn view(&self) -> StatsView {
        StatsView {
            count: self.count as nat,
            sum: self.sum as nat,
            warehouse: self.warehouse as nat,
            carousel: self.carousel as nat,
            rrc: self.rrc as nat,
            min: opt_view(self.min),
            max: opt_view(self.max),
            average: self.price as nat,
        }
    }
}

impl MyData {
    pub open spec fn wf(&self) -> bool {
        &&& snapshot_wf(self.min)
        &&& snapshot_wf(self.max)
        &&& self.warehouse + self.carousel + self.rrc <= self.count
    }

    /// The accumulator before any record: all zero, no minimum, no maximum.
    pub fn new() -> (r: MyData)
        ensures
            r.wf(),
            r@ == empty_stats(),
    {
        MyData {
            min: None,
            max: None,
            price: 0,
            count: 0,
            sum: 0,
            warehouse: 0,
            carousel: 0,
            rrc: 0,
        }
    }

    /// Takes the record as the minimum when its price is strictly below the
    /// current one, or when there is none yet.
    pub fn update_min_product(&mut self, price: Price, code_bytes: &[u8], name_bytes: &[u8])
        requires
            price.wf(),
            snapshot_wf(old(self).min),
        ensures
            snapshot_wf(final(self).min),
            final(self)@ == (StatsView {
                min: next_min(old(self)@.min, snapshot_of(code_bytes@, name_bytes@, price)),
                ..old(self)@
            }),
            final(self).max == old(self).max,
    {
        let replace = match &self.min {
            Some(m) => price.is_less(&m.price),
            None => true,
        };
        if replace {
            self.min = Some(Product::new(price, code_bytes, name_bytes));
        }
    }

    /// Takes the record as the maximum when its price is strictly above the
    /// current one, or when there is none yet.
    pub fn update_max_product(&mut self, price: Price, code_bytes: &[u8], name_bytes: &[u8])
        requires
            price.wf(),
            snapshot_wf(old(self).max),
        ensures
            snapshot_wf(final(self).max),
            final(self)@ == (StatsView {
                max: next_max(old(self)@.max, snapshot_of(code_bytes@, name_bytes@, price)),
                ..old(self)@
            }),
            final(self).min == old(self).min,
    {
        let replace = match &self.max {
            Some(m) => m.price.is_less(&price),
            None => true,
        };
        if replace {
            self.max = Some(Product::new(price, code_bytes, name_bytes));
        }
    }

    /// Sets the average price, `sum / count` in whole units. With no record
    /// seen there is no average: `FinalizeOnEmptyInput`, and nothing changes.
    pub fn update_avg_product(&mut self) -> (r: Result<(), StreamError>)
        ensures
            r == (if old(self).count == 0 {
                Err::<(), StreamError>(StreamError::FinalizeOnEmptyInput)
            } else {
                Ok(())
            }),
            r is Err ==> *final(self) == *old(self),
            r is Ok ==> final(self)@ == (StatsView {
                average: old(self)@.sum / old(self)@.count,
                ..old(self)@
            }),
            final(self).min == old(self).min,
            final(self).max == old(self).max,
    {
        if self.count == 0 {
            return Err(StreamError::FinalizeOnEmptyInput);
        }
        self.price = self.sum / self.count;
        Ok(())
    }

    pub fn update_count(&mut self)
        requires
            old(self).count < u64::MAX,
        ensures
            final(self)@ == (StatsView { count: old(self)@.count + 1, ..old(self)@ }),
            final(self).min == old(self).min,
            final(self).max == old(self).max,
    {
        self.count = self.count + 1;
    }

    /// Adds the price truncated toward zero: `7.9` adds `7`.
    pub fn update_sum(&mut self, price: Price)
        requires
            price.wf(),
            old(self).sum + price.whole() <= u64::MAX,
        ensures
            final(self)@ == (StatsView { sum: old(self)@.sum + price.whole(), ..old(self)@ }),
            final(self).min == old(self).min,
            final(self).max == old(self).max,
    {
        self.sum = self.sum + price.whole_units();
    }

    pub fn update_warehouse(&mut self, stock: u8)
        requires
            old(self).warehouse < u64::MAX,
        ensures
            final(self)@ == (StatsView {
                warehouse: old(self)@.warehouse + if stock == 1 {
                    1nat
                } else {
                    0nat
                },
                ..old(self)@
            }),
            final(self).min == old(self).min,
            final(self).max == old(self).max,
    {
        if stock == 1 {
            self.warehouse = self.warehouse + 1;
        }
    }

    pub fn update_carousel(&mut self, stock: u8, day: u8)
        requires
            old(self).carousel < u64::MAX,
        ensures
            final(self)@ == (StatsView {
                carousel: old(self)@.carousel + if stock == 0 && day > 0 {
                    1nat
                } else {
                    0nat
                },
                ..old(self)@
            }),
            final(self).min == old(self).min,
            final(self).max == old(self).max,
    {
        if stock == 0 && day > 0 {
            self.carousel = self.carousel + 1;
        }
    }

    pub fn update_rrc(&mut self, stock: u8, day: u8)
        requires
            old(self).rrc < u64::MAX,
        ensures
            final(self)@ == (StatsView {
                rrc: old(self)@.rrc + if stock == 0 && day == 0 {
                    1nat
                } else {
                    0nat
                },
                ..old(self)@
            }),
            final(self).min == old(self).min,
            final(self).max == old(self).max,
    {
        if stock == 0 && day == 0 {
            self.rrc = self.rrc + 1;
        }
    }
}

/// Decodes one record and folds it into `data`. On failure `data` is left as
/// it was: `FieldDecode` when a numeric field does not decode,
/// `CounterOverflow` when the count or the sum would pass `u64`.
pub fn process_part(part: &[u8], data: &mut MyData) -> (r: Result<(), StreamError>)
    requires
        old(data).wf(),
    ensures
        final(data).wf(),
        match step(old(data)@, part@) {
            Ok(s) => r is Ok && final(data)@ == s,
            Err(e) => r == Err::<(), StreamError>(e) && final(data)@ == old(data)@,
        },
{
    reveal(step);
    let f = match extract(part) {
        Some(f) => f,
        None => return Err(StreamError::FieldDecode),
    };
    let w = f.price.whole_units();
    if data.count == u64::MAX || w > u64::MAX - data.sum {
        return Err(StreamError::CounterOverflow);
    }
    data.update_count();
    data.update_sum(f.price);
    data.update_warehouse(f.stock);
    data.update_carousel(f.stock, f.day);
    data.update_rrc(f.stock, f.day);
    data.update_min_product(f.price, f.code.as_slice(), f.name.as_slice());
    data.update_max_product(f.price, f.code.as_slice(), f.name.as_slice());
    Ok(())
}

} // verus!
