//! Component-level checks: the line parser, the record arithmetic, the
//! aggregation map and its merge, the arena, and the key order.

use rowagg::aggmap::AggMap;
use rowagg::arena::BumpAlloc;
use rowagg::output::{lex_le_bytes, mean_of, sort_entries};
use rowagg::parse::{find_byte_in, parse_record};
use rowagg::record::MeasurementRecord;

#[test]
fn parse_positive_value() {
    let data = b"X;12.3\n".to_vec();
    let p = parse_record(&data, 0, data.len()).unwrap();
    assert_eq!(&data[p.key_start..p.key_end], b"X");
    assert_eq!(p.value, 123);
    assert_eq!(p.next, 7);
}

#[test]
fn parse_negative_value() {
    let data = b"X;-4.5\n".to_vec();
    let p = parse_record(&data, 0, data.len()).unwrap();
    assert_eq!(&data[p.key_start..p.key_end], b"X");
    assert_eq!(p.value, -45);
}

#[test]
fn parse_zero_value() {
    let data = b"X;0.0\n".to_vec();
    let p = parse_record(&data, 0, data.len()).unwrap();
    assert_eq!(&data[p.key_start..p.key_end], b"X");
    assert_eq!(p.value, 0);
}

#[test]
fn parse_two_digit_and_three_digit_forms() {
    let data = b"st;45.6\n".to_vec();
    let p = parse_record(&data, 0, data.len()).unwrap();
    assert_eq!(p.value, 456);
    let data = b"st;-45.6\n".to_vec();
    let p = parse_record(&data, 0, data.len()).unwrap();
    assert_eq!(p.value, -456);
    let data = b"st;-99.9\n".to_vec();
    let p = parse_record(&data, 0, data.len()).unwrap();
    assert_eq!(p.value, -999);
}

#[test]
fn parse_without_trailing_newline() {
    let data = b"k;7.5".to_vec();
    let p = parse_record(&data, 0, data.len()).unwrap();
    assert_eq!(p.value, 75);
    assert_eq!(p.next, data.len());
}

#[test]
fn find_byte_reports_first_occurrence() {
    let data = b"ab;cd;e".to_vec();
    assert_eq!(find_byte_in(&data, b';', 0, data.len()), Some(2));
    assert_eq!(find_byte_in(&data, b';', 3, data.len()), Some(5));
    assert_eq!(find_byte_in(&data, b'x', 0, data.len()), None);
    assert_eq!(find_byte_in(&data, b';', 0, 2), None);
}

#[test]
fn record_statistics_accumulate() {
    let mut r = MeasurementRecord::new(120);
    r.add_value(80);
    r.add_value(-45);
    assert_eq!(r.count, 3);
    assert_eq!(r.sum, 155);
    assert_eq!(r.min, -45);
    assert_eq!(r.max, 120);
}

#[test]
fn record_combine_merges_both_sides() {
    let mut a = MeasurementRecord::new(10);
    a.add_value(20);
    let mut b = MeasurementRecord::new(-5);
    b.add_value(35);
    a.combine(&b);
    assert_eq!(a.count, 4);
    assert_eq!(a.sum, 60);
    assert_eq!(a.min, -5);
    assert_eq!(a.max, 35);
}

#[test]
fn mean_rounds_half_away_from_zero() {
    // sum 5 over two observations: 2.5 scaled rounds up to 3
    let mut r = MeasurementRecord::new(2);
    r.add_value(3);
    assert_eq!(mean_of(&r), 3);
    // sum -5 over two observations rounds to -3
    let mut r = MeasurementRecord::new(-2);
    r.add_value(-3);
    assert_eq!(mean_of(&r), -3);
}

#[test]
fn mean_lies_between_min_and_max() {
    let mut r = MeasurementRecord::new(-999);
    r.add_value(999);
    r.add_value(999);
    let m = mean_of(&r);
    assert!(r.min <= m && m <= r.max);
    assert_eq!(m, 333);
}

#[test]
fn map_update_counts_each_key() {
    let mut m = AggMap::new();
    m.update(b"alpha", 10);
    m.update(b"beta", -20);
    m.update(b"alpha", 30);
    assert_eq!(m.records_count(), 3);
    let mut es = sort_entries(m.entries());
    assert_eq!(es.len(), 2);
    let (k0, r0) = es.remove(0);
    assert_eq!(k0, b"alpha".to_vec());
    assert_eq!((r0.count, r0.sum, r0.min, r0.max), (2, 40, 10, 30));
    let (k1, r1) = es.remove(0);
    assert_eq!(k1, b"beta".to_vec());
    assert_eq!((r1.count, r1.sum, r1.min, r1.max), (1, -20, -20, -20));
}

#[test]
fn merging_empty_map_changes_nothing() {
    let mut m = AggMap::new();
    m.update(b"k", 7);
    let empty = AggMap::new();
    m.merge_into(&empty);
    let es = m.entries();
    assert_eq!(es.len(), 1);
    assert_eq!(es[0].0, b"k".to_vec());
    assert_eq!((es[0].1.count, es[0].1.sum), (1, 7));
    assert_eq!(m.records_count(), 1);

    let mut fresh = AggMap::new();
    fresh.merge_into(&m);
    let es = fresh.entries();
    assert_eq!(es.len(), 1);
    assert_eq!(es[0].0, b"k".to_vec());
    assert_eq!((es[0].1.count, es[0].1.sum, es[0].1.min, es[0].1.max), (1, 7, 7, 7));
}

#[test]
fn merge_combines_shared_keys() {
    let mut a = AggMap::new();
    a.update(b"x", 10);
    a.update(b"y", 1);
    let mut b = AggMap::new();
    b.update(b"x", -30);
    a.merge_into(&b);
    let es = sort_entries(a.entries());
    assert_eq!(es.len(), 2);
    assert_eq!(es[0].0, b"x".to_vec());
    assert_eq!((es[0].1.count, es[0].1.sum, es[0].1.min, es[0].1.max), (2, -20, -30, 10));
    assert_eq!(es[1].0, b"y".to_vec());
    assert_eq!(a.records_count(), 3);
}

#[test]
fn merge_is_commutative_on_the_final_statistics() {
    let mut a1 = AggMap::new();
    a1.update(b"p", 5);
    a1.update(b"q", 15);
    let mut b1 = AggMap::new();
    b1.update(b"q", -5);
    b1.update(b"r", 0);

    let mut left = AggMap::new();
    left.merge_into(&a1);
    left.merge_into(&b1);
    let mut right = AggMap::new();
    right.merge_into(&b1);
    right.merge_into(&a1);
    assert_eq!(sort_entries(left.entries()), sort_entries(right.entries()));
}

#[test]
fn arena_returns_the_stored_bytes() {
    let mut a = BumpAlloc::new();
    let r1 = a.alloc_slice(b"Hamburg");
    let r2 = a.alloc_slice(b"Berlin");
    assert_eq!(a.get(r1), &b"Hamburg"[..]);
    assert_eq!(a.get(r2), &b"Berlin"[..]);
}

#[test]
fn arena_rotation_keeps_old_allocations() {
    let mut a = BumpAlloc::with_capacity(8);
    let r1 = a.alloc_slice(b"abcd");
    let r2 = a.alloc_slice(b"efgh");
    // the next allocation does not fit and starts a new block
    let r3 = a.alloc_slice(b"ijkl");
    // an oversized request gets a block of its own
    let r4 = a.alloc_slice(b"mnopqrstuvwxyz");
    assert_eq!(a.get(r1), &b"abcd"[..]);
    assert_eq!(a.get(r2), &b"efgh"[..]);
    assert_eq!(a.get(r3), &b"ijkl"[..]);
    assert_eq!(a.get(r4), &b"mnopqrstuvwxyz"[..]);
}

#[test]
fn arena_alloc_bytes_zero_fills() {
    let mut a = BumpAlloc::with_capacity(16);
    let r = a.alloc_bytes(5);
    assert_eq!(a.get(r), &[0u8, 0, 0, 0, 0][..]);
    let s = a.alloc_slice(b"xy");
    assert_eq!(a.get(r), &[0u8, 0, 0, 0, 0][..]);
    assert_eq!(a.get(s), &b"xy"[..]);
}

#[test]
fn key_order_is_byte_wise_lexicographic() {
    let v = |s: &[u8]| s.to_vec();
    assert!(lex_le_bytes(&v(b""), &v(b"a")));
    assert!(lex_le_bytes(&v(b"a"), &v(b"a")));
    assert!(lex_le_bytes(&v(b"a"), &v(b"ab")));
    assert!(!lex_le_bytes(&v(b"ab"), &v(b"a")));
    assert!(lex_le_bytes(&v(b"Zed"), &v(b"ant")));
    assert!(!lex_le_bytes(&v(b"b"), &v(b"ab")));
}

#[test]
fn sort_entries_orders_by_key() {
    let e = |k: &[u8], n: i16| {
        (k.to_vec(), MeasurementRecord::new(n))
    };
    let out = sort_entries(vec![e(b"b", 1), e(b"ab", 2), e(b"a", 3), e(b"abc", 4)]);
    let keys: Vec<Vec<u8>> = out.into_iter().map(|p| p.0).collect();
    assert_eq!(keys, vec![b"a".to_vec(), b"ab".to_vec(), b"abc".to_vec(), b"b".to_vec()]);
}
