use visterm::ramp::{luma, RAMP, RAMP_LEN};
use visterm::rng::xorshift;

#[test]
fn luma_ends_of_the_ramp() {
    assert_eq!(luma(0), ' ');
    assert_eq!(luma(255), '$');
    assert_eq!(luma(128), 'x');
    assert_eq!(luma(1), ' ');
    assert_eq!(luma(4), '.');
}

#[test]
fn luma_matches_linear_scaling() {
    let ramp = " .'`^\",:;Il!i><~+_-?][}{1)(|\\/tfjrxnuvczXYUJCLQ0OZmwqpdbkhao*#MW&8%B@$".as_bytes();
    assert_eq!(ramp.len(), RAMP_LEN);
    for v in 0..=255u8 {
        let expected = ramp[(v as usize * (ramp.len() - 1)) / 255] as char;
        assert_eq!(luma(v), expected);
        assert_eq!(RAMP[(v as usize * 69) / 255], expected);
    }
}

#[test]
fn luma_gives_seventy_distinct_glyphs() {
    assert_eq!(RAMP_LEN, 70);
    let mut seen: Vec<char> = Vec::new();
    for v in 0..=255u8 {
        let c = luma(v);
        if !seen.contains(&c) {
            seen.push(c);
        }
    }
    assert_eq!(seen.len(), 70);
    assert!(seen.contains(&':'));
}

#[test]
fn luma_is_monotone() {
    let pos = |c: char| RAMP.iter().position(|&r| r == c).unwrap();
    for v in 0..255u8 {
        assert!(pos(luma(v)) <= pos(luma(v + 1)));
    }
}

#[test]
fn xorshift_known_step() {
    let mut s: u64 = 1;
    let r = xorshift(&mut s);
    assert_eq!(r, 1082269761);
    assert_eq!(s, 1082269761);
}

#[test]
fn xorshift_zero_is_fixed_and_nonzero_stays_nonzero() {
    let mut z: u64 = 0;
    assert_eq!(xorshift(&mut z), 0);
    let mut s: u64 = 0xDEAD_CAFE_BEEF_1337;
    let mut seen = std::collections::HashSet::new();
    for _ in 0..10_000 {
        let v = xorshift(&mut s);
        assert_ne!(v, 0);
        assert!(seen.insert(v));
    }
}
