use kepler::BloomFilter;

#[test]
fn bloom_add_then_contains() {
    let mut f = BloomFilter::new(3);
    f.add(b"hello");
    f.add(b"blue");
    assert!(f.contains(b"hello"));
    assert!(f.contains(b"blue"));
    assert_eq!(f.bit_size(), 30);
    assert_eq!(f.len(), 4);
}

#[test]
fn bloom_empty_rejects_everything() {
    let f = BloomFilter::new(0);
    assert!(!f.contains(b"anything"));
    assert_eq!(f.bit_size(), 0);
    assert_eq!(f.len(), 0);
}

#[test]
fn bloom_roundtrip_through_options() {
    let mut f = BloomFilter::new(2);
    f.add(b"fizz");
    f.add(b"buzz");
    let bits = f.as_slice().to_vec();
    let g = BloomFilter::options(bits, f.bit_size());
    assert!(g.contains(b"fizz"));
    assert!(g.contains(b"buzz"));
}

#[test]
fn bloom_bits_follow_the_hash() {
    // the probe positions must come from the 128-bit murmur hash: set
    // the expected bits by hand from an independent hash computation
    let mut f = BloomFilter::new(1);
    f.add(b"x");

    let mut src: &[u8] = b"x";
    let h = murmur3::murmur3_x64_128(&mut src, 0).unwrap();
    let hi = h as u64;
    let lo = (h >> 64) as u64;
    let mut expected = vec![0u8; 2];
    for i in 0..7u64 {
        let idx = (hi.wrapping_add(i.wrapping_mul(lo)) % 10) as usize;
        expected[idx / 8] |= 1 << (idx % 8);
    }
    assert_eq!(f.as_slice(), &expected[..]);
}
