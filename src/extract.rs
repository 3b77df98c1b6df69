use vstd::prelude::*;
use crate::decimal::{parse_price, parse_u8, price_text, u8_text, Price};
use crate::search::{copy_range, find_from, first_match_from, lemma_first_match_props, occurs_at};

verus! {

// Field markers: `"Code":"`, `"Name":"`, `"Stock":"`, `"DayDelivery":"` and
// `"RetailPrice":`, each written out as its bytes.
pub open spec fn code_marker() -> Seq<u8> {
    seq![34u8, 67u8, 111u8, 100u8, 101u8, 34u8, 58u8, 34u8]
}

pub open spec fn name_marker() -> Seq<u8> {
    seq![34u8, 78u8, 97u8, 109u8, 101u8, 34u8, 58u8, 34u8]
}

pub open spec fn stock_marker() -> Seq<u8> {
    seq![34u8, 83u8, 116u8, 111u8, 99u8, 107u8, 34u8, 58u8, 34u8]
}

pub open spec fn day_marker() -> Seq<u8> {
    seq![34u8, 68u8, 97u8, 121u8, 68u8, 101u8, 108u8, 105u8, 118u8, 101u8, 114u8, 121u8, 34u8, 58u8, 34u8]
}

pub open spec fn price_marker() -> Seq<u8> {
    seq![34u8, 82u8, 101u8, 116u8, 97u8, 105u8, 108u8, 80u8, 114u8, 105u8, 99u8, 101u8, 34u8, 58u8]
}

fn code_marker_bytes() -> (r: [u8; 8])
    ensures
        r@ == code_marker(),
{
    let r: [u8; 8] = [34u8, 67u8, 111u8, 100u8, 101u8, 34u8, 58u8, 34u8];
    assert(r@ =~= code_marker());
    r
}

fn name_marker_bytes() -> (r: [u8; 8])
    ensures
        r@ == name_marker(),
{
    let r: [u8; 8] = [34u8, 78u8, 97u8, 109u8, 101u8, 34u8, 58u8, 34u8];
    assert(r@ =~= name_marker());
    r
}

fn stock_marker_bytes() -> (r: [u8; 9])
    ensures
        r@ == stock_marker(),
{
    let r: [u8; 9] = [34u8, 83u8, 116u8, 111u8, 99u8, 107u8, 34u8, 58u8, 34u8];
    assert(r@ =~= stock_marker());
    r
}

fn day_marker_bytes() -> (r: [u8; 15])
    ensures
        r@ == day_marker(),
{
    let r: [u8; 15] = [34u8, 68u8, 97u8, 121u8, 68u8, 101u8, 108u8, 105u8, 118u8, 101u8, 114u8, 121u8, 34u8, 58u8, 34u8];
    assert(r@ =~= day_marker());
    r
}

fn price_marker_bytes() -> (r: [u8; 14])
    ensures
        r@ == price_marker(),
{
    let r: [u8; 14] = [34u8, 82u8, 101u8, 116u8, 97u8, 105u8, 108u8, 80u8, 114u8, 105u8, 99u8, 101u8, 34u8, 58u8];
    assert(r@ =~= price_marker());
    r
}

/// Where a field's value starts: just after the first occurrence of its
/// marker, or at the start of the record when the marker is absent.
pub open spec fn value_start(s: Seq<u8>, m: Seq<u8>) -> int {
    match first_match_from(s, m, 0) {
        Some(i) => i + m.len(),
        None => 0,
    }
}

/// Where a value that starts at `start` ends: at the first `t` from there on,
/// or at the end of the record.
pub open spec fn value_end(s: Seq<u8>, start: int, t: u8) -> int {
    match first_match_from(s, seq![t], start) {
        Some(j) => j,
        None => s.len() as int,
    }
}

/// The raw bytes of the field that marker `m` introduces and `t` ends.
pub open spec fn field(s: Seq<u8>, m: Seq<u8>, t: u8) -> Seq<u8> {
    let a = value_start(s, m);
    s.subrange(a, value_end(s, a, t))
}

/// The fields of one record, as the contracts see them.
pub struct RecordView {
    pub code: Seq<u8>,
    pub name: Seq<u8>,
    pub stock: u8,
    pub day: u8,
    pub price: Price,
}

/// The fields of a record, or `None` when a numeric field does not decode.
pub open spec fn decode_record(rec: Seq<u8>) -> Option<RecordView> {
    let stock = u8_text(field(rec, stock_marker(), 34));
    let day = u8_text(field(rec, day_marker(), 34));
    let price = price_text(field(rec, price_marker(), 44));
    if stock is Some && day is Some && price is Some {
        Some(
            RecordView {
                code: field(rec, code_marker(), 34),
                name: field(rec, name_marker(), 34),
                stock: stock->0,
                day: day->0,
                price: price->0,
            },
        )
    } else {
        None
    }
}

/// The decoded fields of one record.
pub struct Fields {
    pub code: Vec<u8>,
    pub name: Vec<u8>,
    pub stock: u8,
    pub day: u8,
    pub price: Price,
}

impl View for Fields {
    type V = RecordView;

    open spec fn view(&self) -> RecordView {
        RecordView {
            code: self.code@,
            name: self.name@,
            stock: self.stock,
            day: self.day,
            price: self.price,
        }
    }
}

/// The raw bytes of the field that marker `m` introduces and `t` ends.
pub fn field_of(s: &[u8], m: &[u8], t: u8) -> (r: Vec<u8>)
    ensures
        r@ == field(s@, m@, t),
{
    proof {
        lemma_first_match_props(s@, m@, 0);
    }
    let n = s.len();
    let start: usize = match find_from(s, m, 0) {
        Some(i) => {
            assert(occurs_at(s@, m@, i as int));
            assert(i + m@.len() <= n);
            i + m.len()
        },
        None => 0,
    };
    let term: [u8; 1] = [t];
    assert(term@ =~= seq![t]);
    proof {
        lemma_first_match_props(s@, seq![t], start as int);
    }
    let end: usize = match find_from(s, term.as_slice(), start) {
        Some(j) => j,
        None => s.len(),
    };
    copy_range(s, start, end)
}

/// Locates and decodes the fields of one record. `None` when the stock,
/// day-delivery or price field does not decode.
pub fn extract(record: &[u8]) -> (r: Option<Fields>)
    ensures
        match r {
            Some(f) => decode_record(record@) == Some(f@) && f.price.wf(),
            None => decode_record(record@) is None,
        },
{
    let m = stock_marker_bytes();
    let stock = match parse_u8(field_of(record, m.as_slice(), 34).as_slice()) {
        Some(v) => v,
        None => return None,
    };
    let m = day_marker_bytes();
    let day = match parse_u8(field_of(record, m.as_slice(), 34).as_slice()) {
        Some(v) => v,
        None => return None,
    };
    let m = price_marker_bytes();
    let price = match parse_price(field_of(record, m.as_slice(), 44).as_slice()) {
        Some(v) => v,
        None => return None,
    };
    let m = code_marker_bytes();
    let code = field_of(record, m.as_slice(), 34);
    let m = name_marker_bytes();
    let name = field_of(record, m.as_slice(), 34);
    Some(Fields { code, name, stock, day, price })
}

} // verus!
