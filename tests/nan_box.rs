use nanbox::{is_nan, Entry, NanBox, Registry, CANONICAL_NAN, KEY_MASK};

fn key_of<T>(b: &NanBox<T>) -> u64 {
    b.raw() & KEY_MASK
}

fn float_entry<T>(reg: &Registry<T>, key: u64) -> Option<(u64, usize)> {
    match reg.get(key) {
        Some(Entry::F64 { float, refc }) => Some((*float, *refc)),
        _ => None,
    }
}

#[test]
fn plain_floats_round_trip_without_the_table() {
    let mut reg: Registry<String> = Registry::new();
    for v in [0.0f64, -0.0, 1.5, -2.25e300, f64::INFINITY, f64::NEG_INFINITY, 5e-324, f64::MAX] {
        let b = NanBox::new(v.to_bits(), &mut reg);
        assert_eq!(b.raw(), v.to_bits());
        assert_eq!(b.as_f64(&reg), Some(v.to_bits()));
        assert_eq!(reg.len(), 0);
        b.release(&mut reg);
        assert_eq!(reg.len(), 0);
    }
}

#[test]
fn nan_patterns_round_trip_bit_for_bit() {
    let mut reg: Registry<String> = Registry::new();
    let patterns = [
        0x7ff8_0000_0000_0000u64,
        0xfff8_0000_0000_0001,
        0x7ff0_0000_0000_0001,
        0x7ff4_0000_dead_beef,
        0xffff_ffff_ffff_ffff,
        0x7ff0_0001_0000_0000,
    ];
    let mut boxes = Vec::new();
    for p in patterns {
        assert!(f64::from_bits(p).is_nan());
        let b = NanBox::new(p, &mut reg);
        assert!(f64::from_bits(b.raw()).is_nan());
        assert_eq!(b.as_f64(&reg), Some(p));
        boxes.push(b);
    }
    assert_eq!(reg.len(), patterns.len() as u64);
    for (i, b) in boxes.iter().enumerate() {
        assert_eq!(key_of(b), i as u64);
        assert_eq!(b.as_f64(&reg), Some(patterns[i]));
    }
}

#[test]
fn nan_high_bits_are_kept_in_the_slot() {
    let mut reg: Registry<u8> = Registry::new();
    let b = NanBox::new(0xfff4_0000_0000_0007, &mut reg);
    assert_eq!(b.raw(), 0xfff4_0000_0000_0000);
    let c = NanBox::new(0x7ff0_0000_0000_0001, &mut reg);
    // the fraction lies wholly in the key bits: the quiet bit keeps it a NaN
    assert_eq!(c.raw(), 0x7ff8_0000_0000_0001);
    assert_eq!(c.as_f64(&reg), Some(0x7ff0_0000_0000_0001));
}

#[test]
fn value_identity_and_extraction_removes_the_entry() {
    let mut reg: Registry<String> = Registry::new();
    let b = NanBox::with_val("payload".to_string(), &mut reg);
    let key = key_of(&b);
    assert_eq!(b.raw() & !KEY_MASK, CANONICAL_NAN);
    assert_eq!(b.as_ref(&reg), Some(&"payload".to_string()));
    assert!(reg.contains_key(key));
    let t = b.into_inner(&mut reg).ok();
    assert_eq!(t, Some("payload".to_string()));
    assert!(!reg.contains_key(key));
    assert!(reg.get(key).is_none());
    assert_eq!(reg.len(), 0);
}

#[test]
fn type_separation() {
    let mut reg: Registry<u32> = Registry::new();
    let v = NanBox::with_val(42u32, &mut reg);
    assert_eq!(v.as_f64(&reg), None);
    let n = NanBox::new(f64::NAN.to_bits(), &mut reg);
    assert_eq!(n.as_ref(&reg), None);
    assert!(n.as_mut(&mut reg).is_none());
    let f = NanBox::new(3.0f64.to_bits(), &mut reg);
    assert_eq!(f.as_ref(&reg), None);
    assert_eq!(v.as_ref(&reg), Some(&42));
}

#[test]
fn shared_float_entry_is_evicted_after_last_release() {
    let mut reg: Registry<u8> = Registry::new();
    let nan = 0x7ff8_0000_0000_00abu64;
    let first = NanBox::new(nan, &mut reg);
    let key = key_of(&first);
    let mut clones = Vec::new();
    for n in 1..=5usize {
        let c = first.duplicate(&mut reg);
        assert_eq!(c.raw(), first.raw());
        assert_eq!(float_entry(&reg, key), Some((nan, n + 1)));
        clones.push(c);
    }
    assert_eq!(reg.len(), 1);
    first.release(&mut reg);
    assert_eq!(float_entry(&reg, key), Some((nan, 5)));
    let last = clones.pop().unwrap();
    for c in clones {
        c.release(&mut reg);
    }
    assert_eq!(float_entry(&reg, key), Some((nan, 1)));
    assert_eq!(last.as_f64(&reg), Some(nan));
    last.release(&mut reg);
    assert!(!reg.contains_key(key));
    assert_eq!(reg.len(), 0);
}

#[test]
fn cloned_payload_is_independent() {
    let mut reg: Registry<Vec<i32>> = Registry::new();
    let a = NanBox::with_val(vec![1, 2], &mut reg);
    let b = a.duplicate(&mut reg);
    assert_ne!(key_of(&a), key_of(&b));
    assert_eq!(reg.len(), 2);
    b.as_mut(&mut reg).unwrap().push(3);
    assert_eq!(b.as_ref(&reg), Some(&vec![1, 2, 3]));
    assert_eq!(a.as_ref(&reg), Some(&vec![1, 2]));
    b.release(&mut reg);
    assert_eq!(reg.len(), 1);
    assert_eq!(a.as_ref(&reg), Some(&vec![1, 2]));
}

#[test]
fn failed_extraction_keeps_the_float() {
    let mut reg: Registry<String> = Registry::new();
    let nan = 0xfff8_0000_1234_5678u64;
    let b = NanBox::new(nan, &mut reg);
    let raw = b.raw();
    assert_eq!(reg.len(), 1);
    let back = match b.into_inner(&mut reg) {
        Ok(_) => panic!("a float is no payload"),
        Err(back) => back,
    };
    assert_eq!(back.raw(), raw);
    assert_eq!(back.as_f64(&reg), Some(nan));
    assert_eq!(reg.len(), 1);
    assert_eq!(float_entry(&reg, key_of(&back)), Some((nan, 1)));
}

#[test]
fn failed_extraction_of_a_plain_float() {
    let mut reg: Registry<String> = Registry::new();
    let b = NanBox::new(2.5f64.to_bits(), &mut reg);
    let back = match b.into_inner(&mut reg) {
        Ok(_) => panic!("a float is no payload"),
        Err(back) => back,
    };
    assert_eq!(back.as_f64(&reg), Some(2.5f64.to_bits()));
    assert_eq!(reg.len(), 0);
}

#[test]
fn extraction_of_a_stale_key_fails() {
    let mut reg: Registry<String> = Registry::new();
    let b: NanBox<String> = NanBox::from_raw(CANONICAL_NAN | 9);
    assert_eq!(b.as_ref(&reg), None);
    assert_eq!(b.as_f64(&reg), None);
    assert!(b.into_inner(&mut reg).is_err());
    assert_eq!(reg.len(), 0);
}

#[test]
fn key_reuse_after_removal() {
    let mut reg: Registry<u8> = Registry::new();
    let a = NanBox::with_val(1u8, &mut reg);
    assert_eq!(key_of(&a), 0);
    assert_eq!(a.into_inner(&mut reg).ok(), Some(1));
    let b = NanBox::with_val(2u8, &mut reg);
    assert_eq!(key_of(&b), 0);
    let c = NanBox::with_val(3u8, &mut reg);
    let d = NanBox::new(f64::NAN.to_bits(), &mut reg);
    assert_eq!((key_of(&c), key_of(&d)), (1, 2));
    c.release(&mut reg);
    let e = NanBox::with_val(4u8, &mut reg);
    assert_eq!(key_of(&e), 1);
    let f = NanBox::with_val(5u8, &mut reg);
    assert_eq!(key_of(&f), 3);
}

#[test]
fn registry_operations() {
    let mut reg: Registry<u8> = Registry::new();
    assert_eq!(reg.allocate(Entry::Ptr(Box::new(7))), 0);
    assert_eq!(reg.allocate(Entry::F64 { float: CANONICAL_NAN, refc: 2 }), 1);
    assert_eq!(reg.len(), 2);
    assert!(matches!(reg.get(0), Some(Entry::Ptr(b)) if **b == 7));
    assert!(matches!(reg.remove(0), Some(Entry::Ptr(b)) if *b == 7));
    assert!(reg.remove(0).is_none());
    assert!(reg.get(5).is_none());
    assert!(reg.remove(1 << 40).is_none());
    assert_eq!(reg.allocate(Entry::Ptr(Box::new(8))), 0);
    assert_eq!(float_entry(&reg, 1), Some((CANONICAL_NAN, 2)));
}

#[test]
fn raw_accessors() {
    let mut reg: Registry<u8> = Registry::new();
    let mut b: NanBox<u8> = NanBox::from_raw(0x4000_0000_0000_0000);
    assert_eq!(b.raw(), 2.0f64.to_bits());
    assert_eq!(b.as_f64(&reg), Some(2.0f64.to_bits()));
    let mut v = NanBox::with_val(9u8, &mut reg);
    let bits = v.take_raw();
    assert_eq!(v.raw(), 0);
    assert_eq!(v.as_ref(&reg), None);
    v.release(&mut reg);
    assert_eq!(reg.len(), 1);
    let moved: NanBox<u8> = NanBox::from_raw(bits);
    assert_eq!(moved.as_ref(&reg), Some(&9));
    assert_eq!(b.take_raw(), 2.0f64.to_bits());
    moved.release(&mut reg);
    assert_eq!(reg.len(), 0);
}

#[test]
fn nan_test_on_bits() {
    assert!(is_nan(f64::NAN.to_bits()));
    assert!(is_nan(0xfff0_0000_0000_0001));
    assert!(!is_nan(f64::INFINITY.to_bits()));
    assert!(!is_nan(f64::NEG_INFINITY.to_bits()));
    assert!(!is_nan(1.0f64.to_bits()));
    assert!(!is_nan(0));
}

#[test]
fn plain_float_duplicate_is_a_copy() {
    let mut reg: Registry<u8> = Registry::new();
    let a = NanBox::new(7.0f64.to_bits(), &mut reg);
    let b = a.duplicate(&mut reg);
    assert_eq!(b.raw(), a.raw());
    assert_eq!(reg.len(), 0);
}
