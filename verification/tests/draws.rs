use stylebench_fixture::random::Random;

/// StyleBench's generator with floating-point draws, as the benchmark writes it.
struct FloatRandom {
    seed: i32,
}

impl FloatRandom {
    fn new(seed: i32) -> Self {
        let mut seed = seed % 2147483647;
        if seed <= 0 {
            seed += 2147483646;
        }
        FloatRandom { seed }
    }

    fn next(&mut self) -> i32 {
        self.seed = ((self.seed as i64 * 16807) % 2147483647) as i32;
        self.seed
    }

    fn under_one(&mut self) -> f64 {
        (self.next() % 1_048_576) as f64 / 1_048_576.0
    }

    fn chance(&mut self, chance: f64) -> bool {
        if chance == 0.0 {
            return false;
        }
        self.under_one() < chance
    }

    fn number(&mut self, under: i32) -> i32 {
        if under <= 0 {
            return 0;
        }
        self.next() % under
    }

    fn number_square_weighted_to_low(&mut self, under: i32) -> i32 {
        if under <= 0 {
            return 0;
        }
        let random = self.under_one();
        ((random * random) * under as f64).floor() as i32
    }
}

#[test]
fn first_draws_of_seed_one() {
    let mut r = Random::new(1);
    assert_eq!(r.state(), 1);
    assert_eq!(r.next(), 16807);
    assert_eq!(r.next(), 282475249);
    assert_eq!(r.next(), 1622650073);
    assert_eq!(r.state(), 1622650073);
}

#[test]
fn seeds_fold_into_the_generator_range() {
    assert_eq!(Random::new(0).state(), 2147483646);
    assert_eq!(Random::new(-5).state(), 2147483641);
    assert_eq!(Random::new(2147483647).state(), 2147483646);
    assert_eq!(Random::new(i32::MIN).state(), 2147483645);
    assert_eq!(Random::new(2).state(), 2);
}

#[test]
fn seed_that_folds_to_zero_stays_at_zero() {
    let mut r = Random::new(-2147483646);
    assert_eq!(r.state(), 0);
    assert_eq!(r.next(), 0);
    assert_eq!(r.under_one(), 0);
    assert!(r.chance(1));
    assert_eq!(r.number(7), 0);
}

#[test]
fn next_matches_the_float_generator() {
    for seed in [1, 2, 7, 12345, -99, i32::MAX] {
        let mut a = Random::new(seed);
        let mut b = FloatRandom::new(seed);
        for _ in 0..1000 {
            assert_eq!(a.next(), b.next());
        }
    }
}

#[test]
fn under_one_is_the_numerator_of_the_float_draw() {
    let mut a = Random::new(3);
    let mut b = FloatRandom::new(3);
    for _ in 0..1000 {
        let k = a.under_one();
        assert!((0..1_048_576).contains(&k));
        assert_eq!(k as f64 / 1_048_576.0, b.under_one());
    }
}

#[test]
fn chance_in_parts_per_million_matches_float_chance() {
    let knobs: [(i32, f64); 7] = [
        (50000, 0.05),
        (500000, 0.5),
        (300000, 0.3),
        (20000, 0.02),
        (200000, 0.2),
        (100000, 0.1),
        (1000000, 1.0),
    ];
    for (ppm, p) in knobs {
        let mut a = Random::new(2);
        let mut b = FloatRandom::new(2);
        for _ in 0..5000 {
            assert_eq!(a.chance(ppm), b.chance(p));
        }
        assert_eq!(a.state(), b.seed);
    }
}

#[test]
fn zero_chance_draws_nothing() {
    let mut r = Random::new(9);
    let before = r.state();
    assert!(!r.chance(0));
    assert_eq!(r.state(), before);
}

#[test]
fn chance_fraction_is_an_exact_ratio() {
    // (maximum_depth - depth) / maximum_depth for a depth-4 tree at depth 1.
    let mut a = Random::new(2);
    let mut b = FloatRandom::new(2);
    for _ in 0..5000 {
        assert_eq!(a.chance_fraction(3, 4), b.chance(3.0 / 4.0));
    }
    // at the maximum depth nothing is drawn
    let mut r = Random::new(2);
    assert!(!r.chance_fraction(0, 4));
    assert_eq!(r.state(), 2);
}

#[test]
fn number_matches_the_float_generator() {
    for under in [1, 2, 3, 10, 256, 1000, i32::MAX] {
        let mut a = Random::new(5);
        let mut b = FloatRandom::new(5);
        for _ in 0..1000 {
            let x = a.number(under);
            assert!(0 <= x && x < under);
            assert_eq!(x, b.number(under));
        }
    }
}

#[test]
fn number_of_nothing_is_zero_without_a_draw() {
    let mut r = Random::new(4);
    assert_eq!(r.number(0), 0);
    assert_eq!(r.number(-3), 0);
    assert_eq!(r.state(), 4);
    assert_eq!(r.number_square_weighted_to_low(0), 0);
    assert_eq!(r.state(), 4);
}

#[test]
fn square_weighted_matches_the_float_generator() {
    for under in [1, 3, 6, 10, 20, 200, 1000, 65535, 1 << 20, 123456789, i32::MAX] {
        let mut a = Random::new(11);
        let mut b = FloatRandom::new(11);
        for _ in 0..3000 {
            let x = a.number_square_weighted_to_low(under);
            assert!(0 <= x && x < under);
            assert_eq!(x, b.number_square_weighted_to_low(under));
        }
    }
}

#[test]
fn square_weighted_values_for_seed_two() {
    let mut r = Random::new(2);
    // 2 * 16807 = 33614; 33614 / 2^20 squared times 10 is below 1
    assert_eq!(r.number_square_weighted_to_low(10), 0);
    let mut f = FloatRandom::new(2);
    f.next();
    let mut g = r.clone();
    assert_eq!(g.number_square_weighted_to_low(1000), {
        let mut h = FloatRandom { seed: f.seed };
        h.number_square_weighted_to_low(1000)
    });
}

#[test]
fn clone_draws_the_same_numbers() {
    let mut a = Random::new(77);
    a.next();
    let mut b = a.clone();
    for _ in 0..100 {
        assert_eq!(a.next(), b.next());
    }
}
