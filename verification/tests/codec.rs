use cacheline_ef::CachelineEf;

const L: usize = 44;

#[test]
fn test() {
    let max = (128 - L) * 256;
    let offset = rand::random::<u64>() % (1 << 40);
    let mut vals = [0u64; L];
    for _ in 0..1000000 {
        for v in &mut vals {
            *v = offset + rand::random::<u64>() % max as u64;
        }
        vals.sort_unstable();

        let lef = CachelineEf::try_new(&vals).unwrap();
        for i in 0..L {
            assert_eq!(lef.index(i), vals[i], "error; full list: {:?}", vals);
        }
    }
}

#[test]
fn size() {
    assert_eq!(std::mem::size_of::<CachelineEf>(), 64);
}

#[test]
fn single_value() {
    let c = CachelineEf::try_new(&[0]).unwrap();
    assert_eq!(c.reduced_offset(), 0);
    assert_eq!(c.high_boundaries()[0], 1);
    assert_eq!(c.high_boundaries()[1], 0);
    assert_eq!(c.low_bit(0), 0);
    assert_eq!(c.index(0), 0);
}

#[test]
fn low_bits_only() {
    let vals: Vec<u64> = (0..44).collect();
    let c = CachelineEf::try_new(&vals).unwrap();
    assert_eq!(c.reduced_offset(), 0);
    assert_eq!(c.high_boundaries()[0], 0x00000FFFFFFFFFFF);
    assert_eq!(c.high_boundaries()[1], 0);
    for i in 0..44 {
        assert_eq!(c.low_bit(i), i as u8);
        assert_eq!(c.index(i), i as u64);
    }
}

#[test]
fn high_bit_steps() {
    let vals: Vec<u64> = (0..44).map(|i| 256 * i).collect();
    let c = CachelineEf::try_new(&vals).unwrap();
    assert_eq!(c.reduced_offset(), 0);
    // Values 0..32 set the even positions of the low word; the remaining 12
    // (i = 32..44, positions 64..87) set the even bits 0..23 of the high word.
    assert_eq!(c.high_boundaries()[0], 0x5555555555555555);
    assert_eq!(c.high_boundaries()[1], 0x0000000000555555);
    for i in 0..44 {
        assert_eq!(c.low_bit(i), 0);
        assert_eq!(c.index(i), 256 * i as u64);
    }
}

#[test]
fn max_span() {
    let c = CachelineEf::try_new(&[0, 21504]).unwrap();
    assert_eq!(c.reduced_offset(), 0);
    assert_eq!(c.high_boundaries()[0], 1);
    assert_eq!(c.high_boundaries()[1], 1 << 21);
    assert_eq!(c.low_bit(0), 0);
    assert_eq!(c.low_bit(1), 0);
    assert_eq!(c.index(0), 0);
    assert_eq!(c.index(1), 21504);
}

#[test]
fn span_overflow_rejected() {
    assert!(CachelineEf::try_new(&[0, 21505]).is_none());
    assert!(CachelineEf::try_new(&[0, 21504]).is_some());
}

#[test]
fn offset_encoding() {
    let c = CachelineEf::try_new(&[1_000_000, 1_000_100]).unwrap();
    assert_eq!(c.reduced_offset(), 3906);
    assert_eq!(c.low_bit(0), 64);
    assert_eq!(c.low_bit(1), 164);
    assert_eq!(c.high_boundaries()[0], 0b11);
    assert_eq!(c.high_boundaries()[1], 0);
    assert_eq!(c.index(0), 1_000_000);
    assert_eq!(c.index(1), 1_000_100);
}

#[test]
fn bitmap_population() {
    for k in 1..=44usize {
        let vals: Vec<u64> = (0..k as u64).map(|i| 137 * i).collect();
        let c = CachelineEf::try_new(&vals).unwrap();
        let hb = c.high_boundaries();
        assert_eq!(hb[0].count_ones() + hb[1].count_ones(), k as u32);
    }
}

#[test]
fn unused_low_bits_stay_zero() {
    let c = CachelineEf::try_new(&[300, 301, 302]).unwrap();
    assert_eq!(c.low_bit(0), 44);
    assert_eq!(c.low_bit(1), 45);
    assert_eq!(c.low_bit(2), 46);
    for i in 3..44 {
        assert_eq!(c.low_bit(i), 0);
    }
}

#[test]
fn equal_values() {
    let vals = [7000u64; 44];
    let c = CachelineEf::try_new(&vals).unwrap();
    for i in 0..44 {
        assert_eq!(c.index(i), 7000);
    }
}
