use flatten_towers::rng::{Rng, fisher_yates_shuffle_vec_inplace};
use flatten_towers::field::PlayingField;

#[test]
fn generator_stream_is_deterministic() {
    let mut a = Rng::new_with_seed([100, 200, 300, 400]);
    let mut b = Rng::new_with_seed([100, 200, 300, 400]);
    for _ in 0..32 {
        assert_eq!(a.next_i32(), b.next_i32());
    }
}

#[test]
fn generator_transition_first_step_is_bit_exact() {
    // one step of: t = s1 >> 9; s2 ^= s0; s3 ^= s1; s1 ^= s2; s0 ^= s3;
    // s2 ^= t; s3 = rotl(s3, 11); output rotl(s0 + s3, 7) + s0 read first
    let s = [1u32, 2u32, 3u32, 4u32];
    let mut gen = Rng::new_with_seed(s);
    let out = gen.next_i32();
    let expected_out = (1u32.wrapping_add(4).rotate_left(7).wrapping_add(1)) as i32;
    assert_eq!(out, expected_out);
    let t = s[1] >> 9;
    let s2 = s[2] ^ s[0];
    let s3 = s[3] ^ s[1];
    let s1 = s[1] ^ s2;
    let s0 = s[0] ^ s3;
    let s2 = s2 ^ t;
    let s3 = s3.rotate_left(11);
    assert_eq!([gen.s0, gen.s1, gen.s2, gen.s3], [s0, s1, s2, s3]);
}

#[test]
fn draws_stay_below_their_bound() {
    let mut gen = Rng::new_with_seed([9, 8, 7, 6]);
    for n in 1..40usize {
        let v = gen.next_below(n);
        assert!(v < n);
    }
}

#[test]
fn all_zero_seed_falls_back_to_the_default() {
    let zeroed = Rng::new_with_seed([0, 0, 0, 0]);
    let default = Rng::new_with_seed([1014776995, 476057059, 3301633994, 706340607]);
    assert_eq!(
        [zeroed.s0, zeroed.s1, zeroed.s2, zeroed.s3],
        [default.s0, default.s1, default.s2, default.s3]
    );
}

#[test]
fn shuffle_keeps_exactly_the_same_elements() {
    let mut dirs = vec![(1, 0), (-1, 0), (0, 1), (0, -1)];
    let mut gen = Rng::new_with_seed([5, 4, 3, 2]);
    fisher_yates_shuffle_vec_inplace(&mut dirs, &mut gen);
    assert_eq!(dirs.len(), 4);
    let mut sorted = dirs.clone();
    sorted.sort();
    assert_eq!(sorted, vec![(-1, 0), (0, -1), (0, 1), (1, 0)]);
}

#[test]
fn same_seed_generates_the_same_puzzle() {
    let mut a = PlayingField::new(9, 6, None);
    let mut b = PlayingField::new(9, 6, None);
    let mut ra = Rng::new_with_seed([77, 78, 79, 80]);
    let mut rb = Rng::new_with_seed([77, 78, 79, 80]);
    a.init_with_random_towers(&mut ra);
    b.init_with_random_towers(&mut rb);
    assert_eq!(a.towers, b.towers);
    assert_eq!(a.field, b.field);
    assert_eq!(a.field_solution, b.field_solution);
}

#[test]
fn different_seeds_usually_generate_different_puzzles() {
    let mut a = PlayingField::new(9, 6, None);
    let mut b = PlayingField::new(9, 6, None);
    let mut ra = Rng::new_with_seed([1, 1, 1, 1]);
    let mut rb = Rng::new_with_seed([2, 2, 2, 2]);
    a.init_with_random_towers(&mut ra);
    b.init_with_random_towers(&mut rb);
    assert_ne!(a.field_solution, b.field_solution);
}
