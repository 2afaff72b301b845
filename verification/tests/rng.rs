use distract_engine::rng::Rng;

#[test]
fn the_stream_is_xorshift64_star_seeded_through_a_multiply() {
    let mut rng = Rng::new(0);
    let mut x: u64 = 1;
    x ^= x >> 12;
    x ^= x << 25;
    x ^= x >> 27;
    assert_eq!(rng.next_u64(), x.wrapping_mul(0x2545_F491_4F6C_DD1D));
}

#[test]
fn the_same_seed_gives_the_same_stream() {
    let mut a = Rng::new(42);
    let mut b = Rng::new(42);
    for _ in 0..16 {
        assert_eq!(a.next_u64(), b.next_u64());
    }
}

#[test]
fn adjacent_seeds_diverge_at_once() {
    let mut a = Rng::new(1);
    let mut b = Rng::new(2);
    assert_ne!(a.next_u64(), b.next_u64());
}

#[test]
fn a_seed_of_zero_still_yields_a_live_stream() {
    let mut rng = Rng::new(0);
    let values: Vec<u64> = (0..8).map(|_| rng.next_u64()).collect();
    assert!(values.iter().all(|v| *v != 0));
}
