use catalog_stats::splitter::RecordSplitter;
use catalog_stats::stats::process_part;
use catalog_stats::{Ingest, MyData, Price, StreamError};

// The price runs to the next comma, so each record has a field after it.
const TWO: &str = "{\"Code\":\"A1\",\"Name\":\"Widget\",\"Stock\":\"1\",\"DayDelivery\":\"0\",\"RetailPrice\":10.5,\"Warranty\":\"12\"},{\"Code\":\"B2\",\"Name\":\"Gadget\",\"Stock\":\"0\",\"DayDelivery\":\"1\",\"RetailPrice\":20.0,\"Warranty\":\"12\"}";

// The same records with the price as the last field: the price text then
// takes in the closing brace and does not decode.
const TWO_PRICE_LAST: &str = "{\"Code\":\"A1\",\"Name\":\"Widget\",\"Stock\":\"1\",\"DayDelivery\":\"0\",\"RetailPrice\":10.5},{\"Code\":\"B2\",\"Name\":\"Gadget\",\"Stock\":\"0\",\"DayDelivery\":\"1\",\"RetailPrice\":20.0}";

fn run(input: &[u8], chunk: usize, capacity: usize) -> Result<MyData, StreamError> {
    let mut ing = Ingest::new(capacity);
    for c in input.chunks(chunk) {
        ing.feed(c)?;
    }
    ing.finish()
}

fn record(code: &str, name: &str, stock: &str, day: &str, price: &str) -> String {
    format!(
        "{{\"Code\":\"{}\",\"Name\":\"{}\",\"Stock\":\"{}\",\"DayDelivery\":\"{}\",\"RetailPrice\":{},\"Warranty\":\"12\"}}",
        code, name, stock, day, price
    )
}

#[test]
fn two_records_end_to_end() {
    let d = run(TWO.as_bytes(), 8196, 8196).unwrap();
    assert_eq!(d.count, 2);
    assert_eq!(d.sum, 30);
    assert_eq!(d.warehouse, 1);
    assert_eq!(d.carousel, 1);
    assert_eq!(d.rrc, 0);
    let min = d.min.as_ref().unwrap();
    assert_eq!(min.price, Price { mantissa: 105, scale: 1 });
    assert_eq!(min.code, b"A1".to_vec());
    assert_eq!(min.name, b"Widget".to_vec());
    let max = d.max.as_ref().unwrap();
    assert_eq!(max.price, Price { mantissa: 200, scale: 1 });
    assert_eq!(max.code, b"B2".to_vec());
    assert_eq!(d.price, 15);
}

#[test]
fn price_as_last_field_does_not_decode() {
    assert_eq!(run(TWO_PRICE_LAST.as_bytes(), 8196, 8196).err(), Some(StreamError::FieldDecode));
}

#[test]
fn chunk_size_does_not_matter() {
    let whole = run(TWO.as_bytes(), 8196, 8196).unwrap();
    for size in [1usize, 2, 3, 7, 50] {
        let d = run(TWO.as_bytes(), size, 8196).unwrap();
        assert_eq!(d.count, whole.count);
        assert_eq!(d.sum, whole.sum);
        assert_eq!(d.min.as_ref().unwrap().code, whole.min.as_ref().unwrap().code);
        assert_eq!(d.max.as_ref().unwrap().code, whole.max.as_ref().unwrap().code);
    }
}

fn split_all(input: &[u8], chunk: usize) -> Vec<Vec<u8>> {
    let mut s = RecordSplitter::new(1024);
    let mut out = Vec::new();
    for c in input.chunks(chunk) {
        out.extend(s.feed(c).unwrap());
    }
    if let Some(last) = s.finish() {
        out.push(last);
    }
    out
}

#[test]
fn records_same_for_any_chunking_and_lossless() {
    let input = b"{\"a\":1},{\"b\":2},{\"c\":3}".to_vec();
    let one = split_all(&input, input.len());
    assert_eq!(
        one,
        vec![b"{\"a\":1},".to_vec(), b"{\"b\":2},".to_vec(), b"{\"c\":3}".to_vec()]
    );
    for size in 1..input.len() {
        assert_eq!(split_all(&input, size), one);
    }
    assert_eq!(one.concat(), input);
}

#[test]
fn delimiter_split_across_chunks() {
    let mut s = RecordSplitter::new(64);
    assert_eq!(s.feed(b"{\"a\":1}").unwrap(), Vec::<Vec<u8>>::new());
    assert_eq!(s.feed(b",{\"b\"").unwrap(), vec![b"{\"a\":1},".to_vec()]);
    assert_eq!(s.finish(), Some(b"{\"b\"".to_vec()));
    assert_eq!(s.finish(), None);
}

#[test]
fn ties_keep_first_extremes() {
    let input = [
        record("X1", "first", "1", "0", "5"),
        record("X2", "second", "1", "0", "5.0"),
        record("X3", "high", "1", "0", "9"),
        record("X4", "high again", "1", "0", "9.00"),
        record("X5", "middle", "1", "0", "7"),
    ]
    .join(",");
    let d = run(input.as_bytes(), 13, 8196).unwrap();
    assert_eq!(d.min.as_ref().unwrap().code, b"X1".to_vec());
    assert_eq!(d.max.as_ref().unwrap().code, b"X3".to_vec());
    assert_eq!(d.count, 5);
    assert_eq!(d.sum, 35);
    assert_eq!(d.price, 7);
}

#[test]
fn long_code_and_name_are_cut_to_their_caps() {
    let code = "C".repeat(100);
    let name = "N".repeat(300);
    let input = record(&code, &name, "1", "0", "3");
    let d = run(input.as_bytes(), 8196, 8196).unwrap();
    let min = d.min.as_ref().unwrap();
    assert_eq!(min.code, vec![b'C'; 64]);
    assert_eq!(min.name, vec![b'N'; 256]);
    let short = record("S", "nm", "1", "0", "3");
    let d = run(short.as_bytes(), 8196, 8196).unwrap();
    assert_eq!(d.max.as_ref().unwrap().code, b"S".to_vec());
    assert_eq!(d.max.as_ref().unwrap().name, b"nm".to_vec());
}

#[test]
fn sum_drops_the_fraction_of_each_price() {
    let input = [record("A", "a", "1", "0", "7.9"), record("B", "b", "1", "0", "7.9")].join(",");
    let d = run(input.as_bytes(), 8196, 8196).unwrap();
    assert_eq!(d.sum, 14);
    assert_eq!(d.price, 7);
}

#[test]
fn non_numeric_stock_aborts() {
    let input = [record("A", "a", "1", "0", "1"), record("B", "b", "x", "0", "2")].join(",");
    assert_eq!(run(input.as_bytes(), 8196, 8196).err(), Some(StreamError::FieldDecode));
    let bad_day = record("A", "a", "1", "-1", "1");
    assert_eq!(run(bad_day.as_bytes(), 8196, 8196).err(), Some(StreamError::FieldDecode));
    let bad_price = record("A", "a", "1", "0", "abc");
    assert_eq!(run(bad_price.as_bytes(), 8196, 8196).err(), Some(StreamError::FieldDecode));
}

#[test]
fn record_larger_than_buffer_overflows() {
    let input = record("A", &"n".repeat(100), "1", "0", "1");
    assert_eq!(run(input.as_bytes(), 10, 64).err(), Some(StreamError::BufferOverflow));
    let mut s = RecordSplitter::new(4);
    assert_eq!(s.feed(b"abc").unwrap(), Vec::<Vec<u8>>::new());
    assert_eq!(s.feed(b"de").err(), Some(StreamError::BufferOverflow));
    assert_eq!(s.finish(), Some(b"abc".to_vec()));
}

#[test]
fn empty_stream_has_no_average() {
    assert_eq!(run(b"", 8, 64).err(), Some(StreamError::FinalizeOnEmptyInput));
}

#[test]
fn sum_past_u64_is_refused() {
    let big = "18446744073709551615";
    let one = record("A", "a", "1", "0", big);
    let d = run(one.as_bytes(), 8196, 8196).unwrap();
    assert_eq!(d.sum, u64::MAX);
    let two = [one.clone(), record("B", "b", "1", "0", "1")].join(",");
    assert_eq!(run(two.as_bytes(), 8196, 8196).err(), Some(StreamError::CounterOverflow));
}

#[test]
fn stock_and_day_classify_records() {
    let input = [
        record("A", "a", "1", "3", "1"),
        record("B", "b", "0", "2", "1"),
        record("C", "c", "0", "0", "1"),
        record("D", "d", "2", "0", "1"),
    ]
    .join(",");
    let d = run(input.as_bytes(), 8196, 8196).unwrap();
    assert_eq!((d.warehouse, d.carousel, d.rrc, d.count), (1, 1, 1, 4));
}

#[test]
fn process_part_leaves_data_on_failure() {
    let mut d = MyData::new();
    let good = record("A", "a", "1", "0", "4.5");
    assert_eq!(process_part(good.as_bytes(), &mut d), Ok(()));
    let bad = record("B", "b", "one", "0", "4.5");
    assert_eq!(process_part(bad.as_bytes(), &mut d), Err(StreamError::FieldDecode));
    assert_eq!(d.count, 1);
    assert_eq!(d.sum, 4);
    assert_eq!(d.update_avg_product(), Ok(()));
    assert_eq!(d.price, 4);
}
