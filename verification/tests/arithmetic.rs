use ghostlink::binary32::Binary32;

fn next(state: &mut u64) -> u32 {
    *state ^= *state << 13;
    *state ^= *state >> 7;
    *state ^= *state << 17;
    (*state >> 16) as u32
}

fn samples() -> Vec<u32> {
    let mut out: Vec<u32> = vec![
        0,
        1,
        2,
        0x007f_ffff,
        0x0080_0000,
        0x0080_0001,
        0x00ff_ffff,
        0x0100_0000,
        0x3f80_0000,
        0x3f7f_ffff,
        0x3f80_0001,
        0x4b7f_ffff,
        0x4b80_0000,
        0x7f7f_ffff,
        0x7f80_0000,
        0x7fc0_0000,
        0x7f80_0001,
        0x3400_0000,
        0x3dcc_cccd,
        0x3e4c_cccd,
        0x3f66_6666,
    ];
    let mut state: u64 = 0x9e37_79b9_7f4a_7c15;
    for _ in 0..150 {
        out.push(next(&mut state) & 0x7fff_ffff);
    }
    // Values of like size, where cancellation and rounding meet.
    for _ in 0..60 {
        out.push(0x4000_0000 + (next(&mut state) & 0x03ff_ffff));
    }
    let negative: Vec<u32> = out.iter().map(|b| b | 0x8000_0000).collect();
    out.extend(negative);
    out
}

fn same(ours: Binary32, native: f32) -> bool {
    if native.is_nan() {
        ours.is_nan()
    } else {
        ours.to_bits() == native.to_bits()
    }
}

#[test]
fn sums_agree_with_the_machine() {
    for &a in &samples() {
        for &b in &samples() {
            let r = Binary32::from_bits(a).add(Binary32::from_bits(b));
            let n = f32::from_bits(a) + f32::from_bits(b);
            assert!(same(r, n), "{a:#x} + {b:#x}");
        }
    }
}

#[test]
fn products_agree_with_the_machine() {
    for &a in &samples() {
        for &b in &samples() {
            let r = Binary32::from_bits(a).mul(Binary32::from_bits(b));
            let n = f32::from_bits(a) * f32::from_bits(b);
            assert!(same(r, n), "{a:#x} * {b:#x}");
        }
    }
}

#[test]
fn quotients_agree_with_the_machine() {
    for &a in &samples() {
        for &b in &samples() {
            let r = Binary32::from_bits(a).div(Binary32::from_bits(b));
            let n = f32::from_bits(a) / f32::from_bits(b);
            assert!(same(r, n), "{a:#x} / {b:#x}");
        }
    }
}

#[test]
fn comparisons_agree_with_the_machine() {
    for &a in &samples() {
        for &b in &samples() {
            let (x, y) = (Binary32::from_bits(a), Binary32::from_bits(b));
            let (p, q) = (f32::from_bits(a), f32::from_bits(b));
            assert_eq!(x.lt(y), p < q, "{a:#x} < {b:#x}");
            assert_eq!(x.le(y), p <= q, "{a:#x} <= {b:#x}");
            let larger = f32::from_bits(x.max(y).to_bits());
            let smaller = f32::from_bits(x.min(y).to_bits());
            assert!(larger == p.max(q) || (p.is_nan() && q.is_nan()));
            assert!(smaller == p.min(q) || (p.is_nan() && q.is_nan()));
        }
    }
}

#[test]
fn counts_agree_with_the_machine() {
    let mut state: u64 = 7;
    for shift in 0..64 {
        for _ in 0..20 {
            let n = (((next(&mut state) as u64) << 32) | next(&mut state) as u64) >> shift;
            let r = Binary32::from_count(n as usize);
            assert_eq!(r.to_bits(), (n as usize as f32).to_bits(), "{n}");
        }
    }
    for n in [0usize, 1, 16_777_215, 16_777_216, 16_777_217, 16_777_219, usize::MAX] {
        assert_eq!(Binary32::from_count(n).to_bits(), (n as f32).to_bits());
    }
}

#[test]
fn fractions_agree_with_literals() {
    assert_eq!(Binary32::fraction(125, 100).to_bits(), 1.25f32.to_bits());
    assert_eq!(Binary32::fraction(115, 100).to_bits(), 1.15f32.to_bits());
    assert_eq!(Binary32::fraction(105, 100).to_bits(), 1.05f32.to_bits());
    assert_eq!(Binary32::fraction(102, 100).to_bits(), 1.02f32.to_bits());
    assert_eq!(Binary32::fraction(2, 10).to_bits(), 0.2f32.to_bits());
    assert_eq!(Binary32::fraction(5, 10).to_bits(), 0.5f32.to_bits());
    assert_eq!(Binary32::fraction(9, 10).to_bits(), 0.9f32.to_bits());
    assert_eq!(Binary32::fraction(1, 10).to_bits(), 0.1f32.to_bits());
    assert_eq!(Binary32::fraction(1, 0x80_0000).to_bits(), f32::EPSILON.to_bits());
    assert_eq!(Binary32::largest().to_bits(), f32::MAX.to_bits());
    assert_eq!(Binary32::infinity().to_bits(), f32::INFINITY.to_bits());
    assert_eq!(Binary32::fraction(0, 3).to_bits(), 0.0f32.to_bits());
}

#[test]
fn clamping_agrees_with_the_machine() {
    let zero = Binary32::zero();
    let two = Binary32::from_count(2);
    for &a in &samples() {
        let r = Binary32::from_bits(a).clamp(zero, two);
        assert!(same(r, f32::from_bits(a).clamp(0.0, 2.0)), "{a:#x}");
    }
}

#[test]
fn fixed_places_agree_with_the_machine() {
    let mut patterns = samples();
    for x in [
        0.05f32, 0.25, 0.35, 0.75, 0.125, 0.375, 2.5, 0.95, 0.99, 9.96, 9.95, 33.0, 24.0, 0.005,
        0.015, 1e-30, 8388608.5, 16777216.0, 1e30, 123456.789,
    ] {
        patterns.push(x.to_bits());
        patterns.push((-x).to_bits());
    }
    for &a in &patterns {
        let mut one = String::new();
        Binary32::from_bits(a).push_fixed(&mut one, 1);
        assert_eq!(one, format!("{:.1}", f32::from_bits(a)));
        let mut two = String::from("x");
        Binary32::from_bits(a).push_fixed(&mut two, 2);
        assert_eq!(two, format!("x{:.2}", f32::from_bits(a)));
    }
}

#[test]
fn an_exact_sum_rounds_to_even() {
    // Half a unit in the last place above an even and above an odd significand.
    let half = Binary32::from_bits(0x3f00_0000);
    let even = Binary32::from_bits(0x4b80_0000);
    assert_eq!(even.add(half).to_bits(), 0x4b80_0000);
    let one = Binary32::from_count(1);
    let odd = Binary32::from_bits(0x4b80_0001);
    assert_eq!(even.add(one).to_bits(), 0x4b80_0000);
    assert_eq!(odd.add(one).to_bits(), 0x4b80_0002);
}
