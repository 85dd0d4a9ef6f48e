use derivative_pricing::anti_thetic::AntiThetic;
use derivative_pricing::park_miller::{ParkMiller, RandomParkMiller, MODULUS};
use derivative_pricing::partition::partition_paths;
use derivative_pricing::random::Random;

#[test]
fn test_random_park_miller() {
    let mut rng = RandomParkMiller::new(1, 12345);

    let mut results = vec![0u64; 10];
    rng.get_uniforms(&mut results);

    assert_eq!(rng.get_dimensionality(), 1);
    assert_eq!(results.len(), 10);

    rng.reset_dimensionality(5);
    assert_eq!(rng.get_dimensionality(), 5);

    rng.set_seed(54321);
    rng.get_uniforms(&mut results);
}

#[test]
fn minimal_standard_sequence_from_seed_one() {
    let mut g = ParkMiller::new(1);
    assert_eq!(g.get_one_random_integer(), 16807);
    assert_eq!(g.get_one_random_integer(), 282475249);
    assert_eq!(g.get_one_random_integer(), 1622650073);
    assert_eq!(g.get_one_random_integer(), 984943658);
    assert_eq!(g.get_one_random_integer(), 1144108930);
}

#[test]
fn ten_thousandth_value_from_seed_one() {
    let mut g = ParkMiller::new(1);
    let mut last = 0;
    for _ in 0..10000 {
        last = g.get_one_random_integer();
    }
    assert_eq!(last, 1043618065);
}

#[test]
fn seed_zero_is_seed_one() {
    let mut a = ParkMiller::new(0);
    let mut b = ParkMiller::new(1);
    for _ in 0..5 {
        assert_eq!(a.get_one_random_integer(), b.get_one_random_integer());
    }
}

#[test]
fn large_seed_is_reduced_modulo() {
    let mut a = ParkMiller::new(MODULUS + 5);
    let mut b = ParkMiller::new(5);
    assert_eq!(a.get_one_random_integer(), b.get_one_random_integer());
    let mut c = ParkMiller::new(MODULUS);
    let mut d = ParkMiller::new(1);
    assert_eq!(c.get_one_random_integer(), d.get_one_random_integer());
}

#[test]
fn set_seed_restarts_and_max_is_modulus_less_one() {
    let mut g = ParkMiller::new(99);
    g.get_one_random_integer();
    g.set_seed(1);
    assert_eq!(g.get_one_random_integer(), 16807);
    assert_eq!(g.max(), 2147483646);
}

#[test]
fn largest_state_stays_in_range() {
    let mut g = ParkMiller::new(MODULUS - 1);
    let v = g.get_one_random_integer();
    // 16807 * (M - 1) mod M == M - 16807
    assert_eq!(v, MODULUS - 16807);
}

#[test]
fn vectors_are_consecutive_generator_values() {
    let mut rng = RandomParkMiller::new(3, 1);
    let mut v = vec![0u64; 3];
    rng.get_uniforms(&mut v);
    assert_eq!(v, vec![16807, 282475249, 1622650073]);
    rng.get_uniforms(&mut v);
    assert_eq!(v, vec![984943658, 1144108930, 470211272]);
}

#[test]
fn longer_buffer_keeps_its_tail() {
    let mut rng = RandomParkMiller::new(2, 1);
    let mut v = vec![7u64; 4];
    rng.get_uniforms(&mut v);
    assert_eq!(v, vec![16807, 282475249, 7, 7]);
}

#[test]
fn same_seed_same_draws() {
    let mut a = RandomParkMiller::new(4, 2024);
    let mut b = RandomParkMiller::new(4, 2024);
    let mut va = vec![0u64; 4];
    let mut vb = vec![0u64; 4];
    for _ in 0..50 {
        a.get_uniforms(&mut va);
        b.get_uniforms(&mut vb);
        assert_eq!(va, vb);
    }
}

#[test]
fn skip_equals_drawing_one_at_a_time() {
    for n in [0usize, 1, 2, 7] {
        let mut skipped = RandomParkMiller::new(3, 77);
        let mut drawn = RandomParkMiller::new(3, 77);
        let mut v = vec![0u64; 3];
        skipped.skip(n);
        for _ in 0..n {
            drawn.get_uniforms(&mut v);
        }
        let mut a = vec![0u64; 3];
        let mut b = vec![0u64; 3];
        skipped.get_uniforms(&mut a);
        drawn.get_uniforms(&mut b);
        assert_eq!(a, b);
    }
}

#[test]
fn reset_returns_to_last_seed() {
    let mut rng = RandomParkMiller::new(2, 5);
    let mut first = vec![0u64; 2];
    rng.get_uniforms(&mut first);
    rng.get_uniforms(&mut vec![0u64; 2]);
    rng.reset();
    let mut again = vec![0u64; 2];
    rng.get_uniforms(&mut again);
    assert_eq!(first, again);
}

#[test]
fn reset_dimensionality_restarts() {
    let mut rng = RandomParkMiller::new(2, 1);
    rng.get_uniforms(&mut vec![0u64; 2]);
    rng.reset_dimensionality(3);
    let mut v = vec![0u64; 3];
    rng.get_uniforms(&mut v);
    assert_eq!(v, vec![16807, 282475249, 1622650073]);
}

#[test]
fn antithetic_second_draw_mirrors_first() {
    let mut a = AntiThetic::new(RandomParkMiller::new(4, 1));
    a.set_seed(31);
    let mut u1 = vec![0u64; 4];
    let mut u2 = vec![0u64; 4];
    a.get_uniforms(&mut u1);
    a.get_uniforms(&mut u2);
    for i in 0..4 {
        assert_eq!(u2[i], MODULUS - u1[i]);
        let f1 = u1[i] as f64 / MODULUS as f64;
        let f2 = u2[i] as f64 / MODULUS as f64;
        assert!((f2 - (1.0 - f1)).abs() < 1e-12);
    }
}

#[test]
fn antithetic_fresh_draws_follow_inner_stream() {
    let mut a = AntiThetic::new(RandomParkMiller::new(2, 1));
    let mut v = vec![0u64; 2];
    a.get_uniforms(&mut v);
    assert_eq!(v, vec![16807, 282475249]);
    a.get_uniforms(&mut v);
    assert_eq!(v, vec![MODULUS - 16807, MODULUS - 282475249]);
    a.get_uniforms(&mut v);
    assert_eq!(v, vec![1622650073, 984943658]);
    assert_eq!(a.get_dimensionality(), 2);
}

#[test]
fn antithetic_skip_equals_drawing_one_at_a_time() {
    for start in 0..2usize {
        for n in 0..6usize {
            let mut skipped = AntiThetic::new(RandomParkMiller::new(3, 11));
            let mut drawn = AntiThetic::new(RandomParkMiller::new(3, 11));
            let mut v = vec![0u64; 3];
            for _ in 0..start {
                skipped.get_uniforms(&mut v);
                drawn.get_uniforms(&mut v);
            }
            skipped.skip(n);
            for _ in 0..n {
                drawn.get_uniforms(&mut v);
            }
            let mut a = vec![0u64; 3];
            let mut b = vec![0u64; 3];
            skipped.get_uniforms(&mut a);
            drawn.get_uniforms(&mut b);
            assert_eq!(a, b, "start {} skip {}", start, n);
        }
    }
}

#[test]
fn antithetic_reset_starts_with_fresh_draw() {
    let mut a = AntiThetic::new(RandomParkMiller::new(2, 1));
    let mut v = vec![0u64; 2];
    a.get_uniforms(&mut v);
    a.reset();
    a.get_uniforms(&mut v);
    assert_eq!(v, vec![16807, 282475249]);
    a.reset_dimensionality(1);
    a.get_uniforms(&mut v);
    assert_eq!(v, vec![16807, 282475249]);
    a.get_uniforms(&mut v);
    assert_eq!(v, vec![MODULUS - 16807, 282475249]);
}

#[test]
fn workers_draw_the_vectors_of_their_block() {
    let master = AntiThetic::new(RandomParkMiller::new(2, 9));
    let mut sequential = master.clone();
    let mut all = Vec::new();
    let mut v = vec![0u64; 2];
    for _ in 0..10 {
        sequential.get_uniforms(&mut v);
        all.push(v.clone());
    }
    let mut by_workers = Vec::new();
    for block in partition_paths(10, 3) {
        let mut worker = master.clone();
        worker.skip(block.first_path);
        for _ in 0..block.number_of_paths {
            worker.get_uniforms(&mut v);
            by_workers.push(v.clone());
        }
    }
    assert_eq!(all, by_workers);
}
