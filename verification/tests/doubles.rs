use stylebench_fixture::model::Config;
use stylebench_fixture::names::{random_class_name_from_range, random_id};
use stylebench_fixture::random::Random;

/// The class range maximum as the original computes it, in doubles.
fn float_range_maximum(index: i32, length: i32, count: i32) -> i32 {
    let range = (index + 1) as f64 / length as f64;
    (range * count as f64).round() as i32
}

/// The id pool as the original computes it, in doubles.
fn float_id_pool(ppm: i32, elements: i32) -> i32 {
    let chance = ppm as f64 / 1_000_000.0;
    ((chance * elements as f64) as i32).max(1)
}

fn class_name(count: i32, index: i32, length: i32) -> String {
    let mut cfg = Config::tiny();
    cfg.class_count = count;
    let mut rng = Random::new(5);
    random_class_name_from_range(&cfg, &mut rng, index, length)
}

fn expected_class_name(maximum: i32) -> String {
    let mut rng = Random::new(5);
    format!("class{}", rng.number_square_weighted_to_low(maximum))
}

fn id_name(ppm: i32, elements: i32) -> String {
    let mut cfg = Config::tiny();
    cfg.id_chance = ppm;
    cfg.element_count = elements;
    let mut rng = Random::new(3);
    random_id(&cfg, &mut rng)
}

fn expected_id_name(pool: i32) -> String {
    let mut rng = Random::new(3);
    format!("id{}", rng.number(pool))
}

#[test]
fn range_maximum_rounds_as_doubles_do() {
    assert_eq!(float_range_maximum(6, 10, 45), 31);
    assert_eq!(class_name(45, 6, 10), expected_class_name(31));
    for length in 1..12 {
        for index in 0..length {
            for count in [-7, 0, 1, 3, 5, 9, 45, 200, 1001, 2147483647, -2147483648] {
                let m = float_range_maximum(index, length, count);
                assert_eq!(class_name(count, index, length), expected_class_name(m), "{index} {length} {count}");
            }
        }
    }
}

#[test]
fn id_pool_truncates_as_doubles_do() {
    assert_eq!(float_id_pool(290000, 100), 28);
    assert_eq!(id_name(290000, 100), expected_id_name(28));
    for ppm in [0, 1, 50000, 70000, 290000, 570000, 1000000, 3333333, -50000, 2147483647] {
        for elements in [0, 1, 7, 100, 20000, 123457, -5, 2147483647] {
            let pool = float_id_pool(ppm, elements);
            assert_eq!(id_name(ppm, elements), expected_id_name(pool), "{ppm} {elements}");
        }
    }
}
