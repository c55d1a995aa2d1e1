use pcisph::placement::isqrt;

#[test]
fn isqrt_rounds_down() {
    assert_eq!(isqrt(0), 0);
    assert_eq!(isqrt(1), 1);
    assert_eq!(isqrt(2), 1);
    assert_eq!(isqrt(3), 1);
    assert_eq!(isqrt(4), 2);
    assert_eq!(isqrt(8), 2);
    assert_eq!(isqrt(9), 3);
    assert_eq!(isqrt(500), 22);
    assert_eq!(isqrt(2000), 44);
    assert_eq!(isqrt(5625), 75);
    assert_eq!(isqrt(5624), 74);
    assert_eq!(isqrt(30_000), 173);
}

#[test]
fn isqrt_is_exact_on_large_counts() {
    assert_eq!(isqrt(16_777_216), 4096);
    assert_eq!(isqrt(16_777_215), 4095);
    assert_eq!(isqrt(4_294_836_225), 65_535);
    assert_eq!(isqrt(4_294_836_224), 65_534);
    let top = isqrt(usize::MAX) as u128;
    assert!(top * top <= usize::MAX as u128);
    assert!((top + 1) * (top + 1) > usize::MAX as u128);
}

#[test]
fn isqrt_brackets_every_small_count() {
    for n in 0..10_000_usize {
        let s = isqrt(n);
        assert!(s * s <= n);
        assert!((s + 1) * (s + 1) > n);
    }
}
