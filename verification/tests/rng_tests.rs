use genesis_sim::particle_store::SimRng;

#[test]
fn rng_deterministic() {
    let mut a = SimRng::new(999);
    let mut b = SimRng::new(999);
    for _ in 0..100 {
        assert_eq!(a.next_u32(), b.next_u32());
    }
}

#[test]
fn mulberry32_known_draws() {
    let mut rng = SimRng::new(42);
    assert_eq!(rng.next_u32(), 2581720956);
    assert_eq!(rng.next_u32(), 1925393290);
    assert_eq!(rng.next_u32(), 3661312704);
    let mut rng = SimRng::new(1);
    assert_eq!(rng.next_u32(), 2693262067);
    assert_eq!(rng.next_u32(), 11749833);
    assert_eq!(rng.next_u32(), 2265367787);
}

#[test]
fn default_seed_is_42() {
    let mut a = SimRng::default();
    let mut b = SimRng::new(42);
    for _ in 0..10 {
        assert_eq!(a.next_u32(), b.next_u32());
    }
}

#[test]
fn different_seeds_differ() {
    let mut a = SimRng::new(0);
    let mut b = SimRng::new(1);
    assert_eq!(a.next_u32(), 1144304738);
    assert_ne!(a.next_u32(), b.next_u32());
}
