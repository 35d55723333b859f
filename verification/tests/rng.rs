use ferrum::worldgen::rng::{hash3, hash_coords, Rng, GOLDEN_GAMMA};

#[test]
fn rng_deterministic() {
    let mut a = Rng::new(42);
    let mut b = Rng::new(42);
    for _ in 0..100 {
        assert_eq!(a.next_u64(), b.next_u64());
    }
}

#[test]
fn hash_coords_stable() {
    assert_eq!(hash_coords(7, 10, -3, 5), hash_coords(7, 10, -3, 5));
    assert_ne!(hash_coords(7, 10, -3, 5), hash_coords(7, 10, -2, 5));
    assert_ne!(hash_coords(7, 10, -3, 5), hash_coords(8, 10, -3, 5));
}

fn splitmix_reference(state: &mut u64) -> u64 {
    *state = state.wrapping_add(0x9E3779B97F4A7C15);
    let mut z = *state;
    z = (z ^ (z >> 30)).wrapping_mul(0xBF58476D1CE4E5B9);
    z = (z ^ (z >> 27)).wrapping_mul(0x94D049BB133111EB);
    z ^ (z >> 31)
}

#[test]
fn splitmix_known_first_output() {
    let mut r = Rng::new(0);
    assert_eq!(r.next_u64(), 0xE220A8397B1DCDAF);
    assert_eq!(GOLDEN_GAMMA, 0x9E3779B97F4A7C15);
}

#[test]
fn splitmix_matches_reference_stream() {
    let mut r = Rng::new(123456789);
    let mut s = 123456789u64;
    for _ in 0..50 {
        assert_eq!(r.next_u64(), splitmix_reference(&mut s));
    }
}

#[test]
fn range_stays_within_bounds() {
    let mut r = Rng::new(99);
    for _ in 0..1000 {
        let v = r.range_i32(-3, 7);
        assert!((-3..=7).contains(&v));
    }
}

#[test]
fn range_formula_and_empty_range() {
    let mut r = Rng::new(5);
    let mut reference = Rng::new(5);
    let v = r.range_i32(10, 20);
    assert_eq!(v as u64, 10 + reference.next_u64() % 11);
    // An empty or single-value range gives min and draws nothing.
    let mut a = Rng::new(8);
    let mut b = Rng::new(8);
    assert_eq!(a.range_i32(4, 4), 4);
    assert_eq!(a.range_i32(9, 2), 9);
    assert_eq!(a.next_u64(), b.next_u64());
}

#[test]
fn hash3_depends_on_height() {
    assert_eq!(hash3(1, 2, 3, 4, 5), hash3(1, 2, 3, 4, 5));
    assert_ne!(hash3(1, 2, 3, 4, 5), hash3(1, 2, 4, 4, 5));
    assert_ne!(hash3(1, 2, 3, 4, 5), hash3(1, 2, 3, 4, 6));
}
