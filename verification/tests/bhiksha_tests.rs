use kenlmrs::bhiksha::{chop_bits, ArrayBhiksha, BhikshaConfig, DontBhiksha, NodeRange};

#[test]
fn test_dont_bhiksha() {
    let bhiksha = DontBhiksha::new(255);
    assert_eq!(bhiksha.get_inline_bits(), 8);
}

#[test]
fn test_chop_bits() {
    let config = BhikshaConfig { pointer_bhiksha_bits: 8 };
    let chop = chop_bits(1000, 255, &config);
    assert!(chop <= 8);
}

#[test]
fn chop_bits_picks_least_cost() {
    // required = 8; cost(c) = (255 >> (8 - c)) * 64 - 1000 * c
    // c=0: 0, c=1: 64-1000, c=2: 192-2000, c=3: 448-3000, c=4: 960-4000,
    // c=5: 1984-5000, c=6: 4032-6000, c=7: 8128-7000, c=8: 16320-8000 -> minimum at 4
    let config = BhikshaConfig { pointer_bhiksha_bits: 8 };
    assert_eq!(chop_bits(1000, 255, &config), 4);
    assert_eq!(chop_bits(1000, 255, &BhikshaConfig::default()), 0);
}

#[test]
fn dont_bhiksha_reads_and_writes_pointers() {
    let b = DontBhiksha::new(1000);
    assert_eq!(DontBhiksha::size(5, 1000, &BhikshaConfig::default()), 0);
    assert_eq!(DontBhiksha::inline_bits(5, 1000, &BhikshaConfig::default()), 10);
    let mut base = vec![0u8; 32];
    b.write_next(&mut base, 3, 700);
    b.write_next(&mut base, 3 + 20, 999);
    let mut out = NodeRange { begin: 0, end: 0 };
    b.read_next(&base, 3, 20, &mut out);
    assert_eq!((out.begin, out.end), (700, 999));
    b.finished_loading(&BhikshaConfig::default());
}

#[test]
fn array_bhiksha_splits_pointers() {
    let config = BhikshaConfig { pointer_bhiksha_bits: 8 };
    // 1000 entries, pointers up to 255: 4 high bits go to the array, 4 stay inline
    assert_eq!(ArrayBhiksha::inline_bits(1000, 255, &config), 4);
    assert_eq!(ArrayBhiksha::size(1000, 255, &config), 8 * (1 + 16) + 7);
    let header = vec![0u8; 64];
    let mut a = ArrayBhiksha::new(&header, 1000, 255, &config);
    let mut base = vec![0u8; 16];
    a.write_next(&mut base, 0, 0, 1);
    a.write_next(&mut base, 4, 1, 6);
    let mut out = NodeRange { begin: 0, end: 0 };
    a.read_next(&base, 0, 0, 4, &mut out);
    assert_eq!(out.begin & 15, 1);
    assert_eq!(out.end & 15, 6);
}
