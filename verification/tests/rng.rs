//! The seeded generator and its chances.

use generalist::tasks::rate::{Rate, CUTOFF_FIFTEEN, CUTOFF_FIFTY, CUTOFF_FIVE, CUTOFF_FORTY};
use generalist::tasks::HarnessRng;

#[test]
fn stream_has_the_published_values() {
    // SplitMix64 from seed 0 and from seed 1234567.
    let mut r = HarnessRng::new(0);
    assert_eq!(r.next_u64(), 0xE220_A839_7B1D_CDAF);
    assert_eq!(r.next_u64(), 0x6E78_9E6A_A1B9_65F4);
    let mut r = HarnessRng::new(1234567);
    assert_eq!(r.next_u64(), 6457827717110365317);
    assert_eq!(r.next_u64(), 3203168211198807973);
}

#[test]
fn named_chances_are_those_of_their_fractions() {
    for (p, cutoff) in
        [(0.5, CUTOFF_FIFTY), (0.4, CUTOFF_FORTY), (0.15, CUTOFF_FIFTEEN), (0.05, CUTOFF_FIVE)]
    {
        let p: f64 = p;
        assert_eq!(Rate::from_bits(p.to_bits()), Some(Rate { cutoff }));
    }
}

#[test]
fn cutoffs_split_draws_as_the_fraction_does() {
    for p in [0.0f64, 1e-300, 0.05, 0.15, 0.25, 0.4, 0.5, 0.75, 0.999, 1.0] {
        let rate = Rate::from_bits(p.to_bits()).unwrap();
        let below = |x: u64| (x as f64 / u64::MAX as f64) < p;
        for d in 0..2000u64 {
            for x in [rate.cutoff.wrapping_sub(d), rate.cutoff.wrapping_add(d)] {
                assert_eq!(x < rate.cutoff, below(x), "{p} {x}");
            }
        }
    }
}

#[test]
fn chances_outside_the_unit_interval_are_refused() {
    assert!(Rate::from_bits(1.5f64.to_bits()).is_none());
    assert!(Rate::from_bits((-0.5f64).to_bits()).is_none());
    assert!(Rate::from_bits(f64::NAN.to_bits()).is_none());
    assert!(Rate::from_bits(f64::INFINITY.to_bits()).is_none());
}

#[test]
fn coin_follows_its_rate() {
    let mut rng = HarnessRng::new(5);
    let never = Rate { cutoff: 0 };
    let mut hits = 0;
    for _ in 0..1000 {
        assert!(!rng.prob(never));
        if rng.prob(Rate { cutoff: CUTOFF_FIFTY }) {
            hits += 1;
        }
    }
    assert!((400..600).contains(&hits));
}

#[test]
fn token_strings_stay_in_their_alphabet() {
    let mut rng = HarnessRng::new(9);
    for _ in 0..100 {
        let s = rng.token_string(b"xyz", 2, 8);
        assert!((2..8).contains(&s.len()));
        assert!(s.bytes().all(|b| b"xyz".contains(&b)));
    }
}

#[test]
fn deterministic_stream() {
    let mut a = HarnessRng::new(42);
    let mut b = HarnessRng::new(42);
    for _ in 0..100 {
        assert_eq!(a.next_u64(), b.next_u64());
    }
    let mut c = HarnessRng::new(43);
    assert_ne!(a.next_u64(), c.next_u64());
}

#[test]
fn ranges_and_shuffle() {
    let mut rng = HarnessRng::new(7);
    for _ in 0..1000 {
        let v = rng.range(4, 12);
        assert!((4..12).contains(&v));
    }
    let mut xs = vec![1, 2, 3, 4, 5];
    rng.shuffle(&mut xs);
    xs.sort();
    assert_eq!(xs, vec![1, 2, 3, 4, 5]);
}
