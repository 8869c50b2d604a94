use lsmrs::bloom::BloomFilter;
use lsmrs::hash::hash64;

fn key(i: usize) -> Vec<u8> {
    format!("key{:08}", i).into_bytes()
}

#[test]
fn inserted_keys_are_always_found() {
    let mut filter = BloomFilter::new(1000, 10);
    for i in 0..1000 {
        filter.insert(hash64(&key(i)));
    }
    for i in 0..1000 {
        assert!(filter.contains(hash64(&key(i))), "lost key {i}");
    }
}

#[test]
fn empty_filter_contains_nothing() {
    let filter = BloomFilter::new(1000, 10);
    for i in 0..1000 {
        assert!(!filter.contains(hash64(&key(i))));
    }
}

#[test]
fn zero_keys_is_usable() {
    let mut filter = BloomFilter::new(0, 10);
    assert!(!filter.contains(hash64(b"anything")));
    filter.insert(hash64(b"anything"));
    assert!(filter.contains(hash64(b"anything")));
}

#[test]
fn probe_count_follows_bits_per_key() {
    assert_eq!(BloomFilter::new(10, 10).num_probes(), 7);
    assert_eq!(BloomFilter::new(10, 4).num_probes(), 3);
    assert_eq!(BloomFilter::new(10, 1).num_probes(), 1);
    assert_eq!(BloomFilter::new(10, 0).num_probes(), 1);
}

#[test]
fn false_positive_rate_is_near_one_percent() {
    const N: usize = 10_000;
    let mut filter = BloomFilter::new(N, 10);
    for i in 0..N {
        filter.insert(hash64(&key(i)));
    }

    let positives = (N..N * 2)
        .filter(|&i| filter.contains(hash64(&key(i))))
        .count();
    let rate = positives as f64 / N as f64;

    assert!(rate < 0.03, "false positive rate {rate} is too high");
}

// The number of probes is the number of bits per key times ln 2, rounded, and at
// least one.
#[test]
fn probe_counts_match_the_formula() {
    for bits in 0..200usize {
        let expected = ((bits as f64 * std::f64::consts::LN_2).round() as u32).max(1);
        assert_eq!(BloomFilter::new(1, bits).num_probes(), expected.min(30), "{bits} bits");
    }
}

#[test]
fn sizes_are_whole_words() {
    assert_eq!(BloomFilter::new(0, 10).num_bits(), 64);
    assert_eq!(BloomFilter::new(6, 10).num_bits(), 64);
    assert_eq!(BloomFilter::new(7, 10).num_bits(), 128);
    assert_eq!(BloomFilter::new(1000, 10).words().len(), 157);
}

#[test]
fn a_filter_is_rebuilt_from_its_parts() {
    let mut filter = BloomFilter::new(100, 10);
    for i in 0..100 {
        filter.insert(hash64(&key(i)));
    }
    let rebuilt = BloomFilter::from_parts(
        filter.words().to_vec(),
        filter.num_bits(),
        filter.num_probes(),
    );
    for i in 0..1000 {
        let hash = hash64(&key(i));
        assert_eq!(rebuilt.contains(hash), filter.contains(hash));
    }
}

// A filter that claims more bits than its words hold answers as long as it is
// not asked for one of the missing ones.
#[test]
fn missing_bits_give_no_answer() {
    assert_eq!(BloomFilter::from_parts(vec![], 0, 1).check(5), None);
    assert_eq!(BloomFilter::from_parts(vec![], 0, 0).check(5), Some(true));
    assert_eq!(BloomFilter::from_parts(vec![0, 0], 100, 1).check(70), Some(false));

    let mut short = BloomFilter::from_parts(vec![0], 100, 1);
    assert_eq!(short.check(70), None);
    assert_eq!(short.check(5), Some(false));
    assert!(!short.contains(5));
    short.insert(5);
    assert_eq!(short.words(), [1 << 5]);
    assert!(short.contains(5));

    // The first probe that is not set decides, before a later one is missing.
    let stride = 64u64 << 32;
    assert_eq!(
        BloomFilter::from_parts(vec![0], 100, 2).check(stride | 5),
        Some(false)
    );
    assert_eq!(
        BloomFilter::from_parts(vec![1 << 5], 100, 2).check(stride | 5),
        None
    );
}
