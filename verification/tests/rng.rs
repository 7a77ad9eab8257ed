use netflix_prize::numpy_rng::hashmix;
use netflix_prize::numpy_rng::mix;
use netflix_prize::numpy_rng::Pcg64;
use netflix_prize::numpy_rng::SeedSequence;
use netflix_prize::numpy_rng::INIT_A;
use netflix_prize::numpy_rng::MULT_A;

fn fraction(r: u64) -> f64 {
    r as f64 / 9007199254740992.0
}

#[test]
fn hashmix_advances_the_constant() {
    let mut c = INIT_A;
    let v = hashmix(42, &mut c);
    assert_eq!(c, INIT_A.wrapping_mul(MULT_A));
    let x = (42 ^ INIT_A).wrapping_mul(c);
    assert_eq!(v, x ^ (x >> 16));
}

#[test]
fn mix_is_a_wrapping_difference() {
    assert_eq!(mix(0, 0), 0);
    assert_eq!(mix(1, 0), 0xca01f9dd ^ 0xca01);
    let x = 0u32.wrapping_sub(0x4973f715);
    assert_eq!(mix(0, 1), x ^ (x >> 16));
}

#[test]
fn seed_sequence_states() {
    assert_eq!(
        SeedSequence::new(42).generate_state_u64(4),
        vec![0x9f1e2e6dcd540ab7, 0xd57873dc79fb94b6, 0x7d282a1b64d420b7, 0x336579714692d5ff]
    );
    assert_eq!(
        SeedSequence::new(0x1234567890ab).generate_state_u64(2),
        vec![0x0e67d876449d881f, 0x2ae7c354dc790975]
    );
    assert!(SeedSequence::new(42).generate_state_u64(0).is_empty());
}

#[test]
fn seeds_have_states_of_their_own() {
    let seeds = [0, 1, 42, 1 << 31, 1 << 32, 42 | (1 << 32), u32::MAX as u64, u64::MAX];
    for (i, a) in seeds.iter().enumerate() {
        for b in &seeds[i + 1..] {
            assert_ne!(
                SeedSequence::new(*a).generate_state_u64(2),
                SeedSequence::new(*b).generate_state_u64(2)
            );
        }
    }
}

#[test]
fn seeded_words() {
    let mut p = Pcg64::new(42);
    assert_eq!(p.next_u64(), 0xc621fbcd16d92688);
    let mut q = Pcg64::new(7);
    let halves: Vec<u32> = (0..4).map(|_| q.next_u32()).collect();
    assert_eq!(halves, vec![0xf1e54a8b, 0xa00641a9, 0xaf266a95, 0xe5afcdbc]);
    assert_eq!(q.choice(3), 1);
    assert_eq!(q.choice(1), 0);
    assert_eq!(q.next_u64(), 0x39a72dabd56a2742);
}

#[test]
fn halves_of_one_word() {
    let w = Pcg64::new(7).next_u64();
    let mut q = Pcg64::new(7);
    assert_eq!(q.next_u32(), w as u32);
    assert_eq!(q.next_u32(), (w >> 32) as u32);
}

#[test]
fn seeded_fractions() {
    let mut p = Pcg64::new(42);
    let got: Vec<f64> = (0..4).map(|_| fraction(p.random())).collect();
    assert_eq!(
        got,
        vec![0.7739560485559633, 0.4388784397520523, 0.8585979199113825, 0.6973680290593639]
    );
}

#[test]
fn seeded_choices() {
    let mut p = Pcg64::new(42);
    let got: Vec<u32> = (0..10).map(|_| p.choice(10)).collect();
    assert_eq!(got, vec![0, 7, 6, 4, 4, 8, 0, 6, 2, 0]);
}

#[test]
fn choices_stay_below_their_bound() {
    let mut p = Pcg64::new(1);
    for n in 1..200u32 {
        assert!(p.choice(n) < n);
    }
    // A bound that rejects nearly half of all draws.
    for _ in 0..64 {
        assert!(p.choice(0x8000_0001) < 0x8000_0001);
    }
}
