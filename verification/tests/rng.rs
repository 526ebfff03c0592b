use martian_robots_verify::rng::Rng;

#[test]
fn a_seed_names_the_same_stream_every_time() {
    let draw = |seed| {
        let mut rng = Rng::from_seed(seed);
        (0..50).map(|_| rng.below(1000)).collect::<Vec<_>>()
    };
    assert_eq!(draw(1), draw(1));
    assert_ne!(draw(1), draw(2));
}

#[test]
fn below_stays_inside_its_bound() {
    let mut rng = Rng::from_seed(3);
    for bound in [1, 2, 3, 7, 50] {
        for _ in 0..200 {
            assert!(rng.below(bound) < bound);
        }
    }
    assert_eq!(rng.below(0), 0);
}

#[test]
fn the_stream_is_not_obviously_degenerate() {
    let mut rng = Rng::from_seed(11);
    let drawn: std::collections::BTreeSet<u32> = (0..200).map(|_| rng.below(100)).collect();
    assert!(drawn.len() > 50, "only {} distinct values", drawn.len());
}

#[test]
fn the_stream_is_splitmix64() {
    // The first output of SplitMix64 seeded with 0 is 0xe220a8397b1dcdaf.
    let mut rng = Rng::from_seed(0);
    assert_eq!(rng.below(u32::MAX), (0xe220_a839_7b1d_cdafu64 % u64::from(u32::MAX)) as u32);
}

#[test]
fn chance_and_pick_draw_from_the_same_stream() {
    let mut a = Rng::from_seed(9);
    let mut b = Rng::from_seed(9);
    assert_eq!(a.chance(3), b.below(3) == 0);
    let pool = ['a', 'b', 'c'];
    let picked = *a.pick(&pool);
    assert_eq!(picked, pool[b.below(3) as usize]);
}

#[test]
fn a_clock_reading_names_its_seed() {
    assert_eq!(Rng::seed_from_reading(Some((2, 5))), 2_000_000_005);
    assert_eq!(Rng::seed_from_reading(None), 0x2026_0922);
    let _ = Rng::seed_from_the_clock();
}
