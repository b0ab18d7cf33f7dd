use cacheline_ef::CachelineEfVec;

#[test]
fn round_trip_across_chunks() {
    let vals: Vec<u64> = (0..100).map(|i| 100 * i).collect();
    let v = CachelineEfVec::new(&vals);
    for i in 0..100 {
        assert_eq!(v.index(i), vals[i]);
        assert_eq!(v.index_unchecked(i), vals[i]);
    }
}

#[test]
fn length_matches_input() {
    let vals: Vec<u64> = (0..100).map(|i| 3 * i).collect();
    let v = CachelineEfVec::new(&vals);
    assert_eq!(v.len(), 100);
}

#[test]
fn byte_size_counts_chunks() {
    // 100 values fill three chunks of 64 bytes: ceil(100 / 44) = 3.
    let vals: Vec<u64> = (0..100).map(|i| 3 * i).collect();
    let v = CachelineEfVec::new(&vals);
    assert_eq!(v.size_in_bytes(), 64 * 3);

    let one = CachelineEfVec::new(&[5]);
    assert_eq!(one.size_in_bytes(), 64);

    let full: Vec<u64> = (0..44).collect();
    assert_eq!(CachelineEfVec::new(&full).size_in_bytes(), 64);

    let over: Vec<u64> = (0..45).collect();
    assert_eq!(CachelineEfVec::new(&over).size_in_bytes(), 128);
}

#[test]
fn empty_input() {
    let v = CachelineEfVec::try_new(&[]).unwrap();
    assert_eq!(v.len(), 0);
    assert_eq!(v.size_in_bytes(), 0);
}

#[test]
fn overflow_in_first_window() {
    assert!(CachelineEfVec::try_new(&[0, 21505]).is_none());
}

#[test]
fn overflow_in_later_window() {
    // The first window of 44 values is dense; the second spans too much.
    let mut vals: Vec<u64> = (0..44).collect();
    vals.push(43);
    vals.push(43 + 21505);
    assert!(CachelineEfVec::try_new(&vals).is_none());

    // Shrinking the span of the second window makes it build.
    let mut ok = vals.clone();
    ok.pop();
    ok.push(43 + 21504);
    assert!(CachelineEfVec::try_new(&ok).is_some());
}

#[test]
fn prefetch_changes_nothing() {
    let vals: Vec<u64> = (0..90).map(|i| 7 * i).collect();
    let v = CachelineEfVec::new(&vals);
    let before: Vec<u64> = (0..90).map(|i| v.index(i)).collect();
    for i in 0..90 {
        v.prefetch(i);
    }
    for i in 0..90 {
        assert_eq!(v.index(i), before[i]);
    }
}

#[test]
fn chunks_expose_the_records() {
    let vals: Vec<u64> = (0..100).map(|i| 10 * i).collect();
    let v = CachelineEfVec::new(&vals);
    let chunks = v.chunks();
    assert_eq!(chunks.len(), 3);
    assert_eq!(chunks[0].index(0), vals[0]);
    assert_eq!(chunks[1].index(0), vals[44]);
    assert_eq!(chunks[2].index(11), vals[99]);
}

#[test]
fn forty_bit_values() {
    let top = (1u64 << 40) - 1;
    let vals = [top - 21504, top - 300, top - 1, top, top];
    let v = CachelineEfVec::new(&vals);
    for (i, &x) in vals.iter().enumerate() {
        assert_eq!(v.index(i), x);
    }
}
