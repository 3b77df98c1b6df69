use catalog_stats::decimal::{parse_price, parse_u8};
use catalog_stats::extract::{extract, field_of};
use catalog_stats::stats::MyData;
use catalog_stats::{Price, Product, StreamError};

#[test]
fn small_integers_parse_strictly() {
    assert_eq!(parse_u8(b"0"), Some(0));
    assert_eq!(parse_u8(b"+7"), Some(7));
    assert_eq!(parse_u8(b"007"), Some(7));
    assert_eq!(parse_u8(b"255"), Some(255));
    assert_eq!(parse_u8(b"256"), None);
    assert_eq!(parse_u8(b""), None);
    assert_eq!(parse_u8(b"+"), None);
    assert_eq!(parse_u8(b"-1"), None);
    assert_eq!(parse_u8(b"1a"), None);
}

#[test]
fn prices_parse_as_decimals() {
    assert_eq!(parse_price(b"10.5"), Some(Price { mantissa: 105, scale: 1 }));
    assert_eq!(parse_price(b"20"), Some(Price { mantissa: 20, scale: 0 }));
    assert_eq!(parse_price(b"+3.25"), Some(Price { mantissa: 325, scale: 2 }));
    assert_eq!(parse_price(b"5."), Some(Price { mantissa: 5, scale: 0 }));
    assert_eq!(parse_price(b".5"), Some(Price { mantissa: 5, scale: 1 }));
    assert_eq!(parse_price(b"."), None);
    assert_eq!(parse_price(b""), None);
    assert_eq!(parse_price(b"1.2.3"), None);
    assert_eq!(parse_price(b"1e5"), None);
    assert_eq!(parse_price(b"-2"), None);
    assert_eq!(parse_price(b"18446744073709551616"), None);
    assert_eq!(parse_price(b"0.0000000000000000001"), None);
}

#[test]
fn price_order_and_whole_part() {
    let a = Price { mantissa: 79, scale: 1 };
    let b = Price { mantissa: 800, scale: 2 };
    assert!(a.is_less(&b));
    assert!(!b.is_less(&a));
    assert!(!Price { mantissa: 5, scale: 0 }.is_less(&Price { mantissa: 50, scale: 1 }));
    assert_eq!(a.whole_units(), 7);
    assert_eq!(b.whole_units(), 8);
}

#[test]
fn fields_are_found_by_marker() {
    let rec = b"{\"Code\":\"Q9\",\"Name\":\"Lamp\",\"Stock\":\"0\",\"DayDelivery\":\"4\",\"RetailPrice\":12.75,\"Warranty\":\"6\"},";
    let f = extract(rec).unwrap();
    assert_eq!(f.code, b"Q9".to_vec());
    assert_eq!(f.name, b"Lamp".to_vec());
    assert_eq!(f.stock, 0);
    assert_eq!(f.day, 4);
    assert_eq!(f.price, Price { mantissa: 1275, scale: 2 });
    assert_eq!(field_of(b"xx\"K\":\"vv\"", b"\"K\":\"", b'"'), b"vv".to_vec());
    assert_eq!(field_of(b"xx\"K\":\"vv", b"\"K\":\"", b'"'), b"vv".to_vec());
}

#[test]
fn missing_marker_reads_from_record_start() {
    let rec = b"{\"Name\":\"Lamp\",\"Stock\":\"1\",\"DayDelivery\":\"0\",\"RetailPrice\":2,\"Warranty\":\"6\"}";
    let f = extract(rec).unwrap();
    assert_eq!(f.code, b"{".to_vec());
    assert_eq!(f.price, Price { mantissa: 2, scale: 0 });
    let no_stock = b"{\"Code\":\"A\",\"DayDelivery\":\"0\",\"RetailPrice\":2,\"Warranty\":\"6\"}";
    assert!(extract(no_stock).is_none());
}

#[test]
fn snapshots_keep_bounded_prefixes() {
    let p = Product::new(Price { mantissa: 1, scale: 0 }, &[b'c'; 70], &[b'n'; 10]);
    assert_eq!(p.code.len(), 64);
    assert_eq!(p.name, vec![b'n'; 10]);
    let mut d = MyData::new();
    d.update_min_product(Price { mantissa: 3, scale: 0 }, b"a", b"x");
    d.update_min_product(Price { mantissa: 3, scale: 0 }, b"b", b"y");
    d.update_min_product(Price { mantissa: 2, scale: 0 }, b"c", &[b'z'; 400]);
    let m = d.min.as_ref().unwrap();
    assert_eq!(m.code, b"c".to_vec());
    assert_eq!(m.name.len(), 256);
    d.update_max_product(Price { mantissa: 3, scale: 0 }, b"a", b"x");
    d.update_max_product(Price { mantissa: 3, scale: 0 }, b"b", b"y");
    assert_eq!(d.max.as_ref().unwrap().code, b"a".to_vec());
}

#[test]
fn counters_and_average() {
    let mut d = MyData::new();
    assert_eq!(d.update_avg_product(), Err(StreamError::FinalizeOnEmptyInput));
    d.update_count();
    d.update_count();
    d.update_count();
    d.update_sum(Price { mantissa: 79, scale: 1 });
    d.update_sum(Price { mantissa: 31, scale: 0 });
    assert_eq!(d.sum, 38);
    d.update_warehouse(1);
    d.update_warehouse(0);
    d.update_carousel(0, 2);
    d.update_carousel(1, 2);
    d.update_rrc(0, 0);
    d.update_rrc(0, 1);
    assert_eq!((d.warehouse, d.carousel, d.rrc), (1, 1, 1));
    assert_eq!(d.update_avg_product(), Ok(()));
    assert_eq!(d.price, 12);
}
