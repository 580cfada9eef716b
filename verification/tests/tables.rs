use qrt::bits::{has_bit16, has_bit64, set_bit16, set_bit64};
use qrt::table::{key_id, key_stream, stream_key, SeqTable, Table};
use qrt::text::append_decimal;
use qrt::time::{Duration, Instant};

#[test]
fn table_entries() {
    let mut t: Table<&str> = Table::new();
    assert_eq!(t.len(), 0);
    t.insert(7, "a");
    t.insert(9, "b");
    t.insert(7, "c");
    assert_eq!(t.len(), 2);
    assert_eq!(t.get(7), Some(&"c"));
    assert_eq!(t.get(8), None);
    assert!(t.contains_key(9));
    let mut keys = t.keys();
    keys.sort_unstable();
    assert_eq!(keys, vec![7, 9]);
    assert_eq!(t.remove(7), Some("c"));
    assert_eq!(t.remove(7), None);
    t.clear();
    assert_eq!(t.len(), 0);
}

#[test]
fn seq_table_entries() {
    let mut t: SeqTable<u8> = SeqTable::new();
    for k in [9u16, 2, 5] {
        t.insert(k, k as u8);
    }
    assert_eq!(t.keys(), vec![2, 5, 9]);
    assert_eq!(t.len(), 3);
    assert_eq!(t.get(5), Some(&5));
    assert!(!t.contains_key(3));
    assert_eq!(t.remove(5), Some(5));
    t.clear();
    assert_eq!(t.keys(), Vec::<u16>::new());
}

#[test]
fn stream_keys() {
    let k = stream_key(3, 0xdead_beef);
    assert_eq!(k, 0x3_dead_beef);
    assert_eq!(key_stream(k), 3);
    assert_eq!(key_id(k), 0xdead_beef);
}

#[test]
fn bit_masks() {
    assert_eq!(set_bit16(0b1, 2), 0b101);
    assert!(has_bit16(0b101, 2));
    assert!(!has_bit16(0b101, 1));
    assert_eq!(set_bit64(0, 63), 1 << 63);
    assert!(has_bit64(1 << 63, 63));
}

#[test]
fn decimal_numbers() {
    let mut s = String::from("n=");
    append_decimal(&mut s, 0);
    append_decimal(&mut s, 7);
    append_decimal(&mut s, u64::MAX);
    assert_eq!(s, "n=0718446744073709551615");
}

#[test]
fn times() {
    let t = Instant { nanos: 10 };
    assert_eq!(t.after(Duration { nanos: u64::MAX }).nanos, u64::MAX);
    assert_eq!(t.saturating_duration_since(Instant { nanos: 12 }).nanos, 0);
    assert_eq!(t.checked_sub(Duration { nanos: 11 }), None);
    assert_eq!(Duration::from_millis(3).as_micros(), 3000);
    assert_eq!(Duration::from_millis(5).half(), Duration::from_micros(2500));
}
