use wasteland_tactics::rules::{hit_chance, roll_damage, roll_hit, GameRng, CHANCE_ONE};

/// A chance in units of 2^-28 as the single-precision probability it stands for.
fn prob(c: u32) -> f32 {
    c as f32 / CHANCE_ONE as f32
}

#[test]
fn hit_chance_falls_with_distance_and_is_zero_out_of_range() {
    assert_eq!(prob(hit_chance(0, 8, false)), 0.9);
    assert!(prob(hit_chance(4, 8, false)) < prob(hit_chance(1, 8, false)));
    assert_eq!(prob(hit_chance(9, 8, false)), 0.0);
    assert!(
        prob(hit_chance(8, 8, false)) >= 0.1,
        "never below the floor while in range"
    );
}

#[test]
fn cover_halves_hit_chance() {
    assert_eq!(prob(hit_chance(2, 8, true)), prob(hit_chance(2, 8, false)) * 0.5);
}

#[test]
fn seeded_rng_is_deterministic() {
    let mut a = GameRng::seeded(42);
    let mut b = GameRng::seeded(42);
    let ra: Vec<bool> = (0..20).map(|_| roll_hit(&mut a, CHANCE_ONE / 2)).collect();
    let rb: Vec<bool> = (0..20).map(|_| roll_hit(&mut b, CHANCE_ONE / 2)).collect();
    assert_eq!(ra, rb);
    assert!(
        ra.iter().any(|h| *h) && ra.iter().any(|h| !*h),
        "not degenerate"
    );
}

#[test]
fn damage_is_within_bounds() {
    let mut rng = GameRng::seeded(1);
    for _ in 0..200 {
        let d = roll_damage(&mut rng, 10, 25);
        assert!((10..=25).contains(&d));
    }
    assert!(!roll_hit(&mut rng, 0));
    assert!(roll_hit(&mut rng, CHANCE_ONE));
}

#[test]
fn the_seed_reaches_the_generator_and_clones_continue_the_stream() {
    let rolls = |rng: &mut GameRng| -> Vec<i32> { (0..32).map(|_| roll_damage(rng, 0, 1_000_000)).collect() };
    let mut a = GameRng::seeded(42);
    let mut b = GameRng::seeded(43);
    assert_ne!(rolls(&mut a), rolls(&mut b));
    let mut c = a.clone();
    assert_eq!(rolls(&mut a), rolls(&mut c));
}
