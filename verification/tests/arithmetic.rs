use pathtracer::scalar::Scalar;

fn s(x: f32) -> Scalar {
    Scalar::from_bits(x.to_bits())
}

fn same(got: Scalar, want: f32) -> bool {
    let g = f32::from_bits(got.to_bits());
    if want.is_nan() {
        g.is_nan()
    } else {
        got.to_bits() == want.to_bits()
    }
}

struct Lcg(u64);

impl Lcg {
    fn next(&mut self) -> u32 {
        self.0 = self.0.wrapping_mul(6364136223846793005).wrapping_add(1442695040888963407);
        (self.0 >> 32) as u32
    }
}

const EDGES: [u32; 24] = [
    0x0000_0000, 0x8000_0000, 0x0000_0001, 0x8000_0001, 0x007f_ffff, 0x0080_0000, 0x0080_0001,
    0x00ff_ffff, 0x3f80_0000, 0xbf80_0000, 0x3f7f_ffff, 0x3f80_0001, 0x4000_0000, 0x3f00_0000,
    0x7f7f_ffff, 0xff7f_ffff, 0x7f80_0000, 0xff80_0000, 0x7fc0_0000, 0x7f80_0001, 0x3eaa_aaab,
    0x4049_0fdb, 0x0040_0000, 0x7f00_0000,
];

#[test]
fn product_matches_hardware_on_edges() {
    for &a in EDGES.iter() {
        for &b in EDGES.iter() {
            let want = f32::from_bits(a) * f32::from_bits(b);
            let got = Scalar::from_bits(a).mul(Scalar::from_bits(b));
            assert!(same(got, want), "{:#x} * {:#x}: got {:#x}, want {:#x}", a, b, got.to_bits(), want.to_bits());
        }
    }
}

#[test]
fn product_matches_hardware_on_a_sweep() {
    let mut g = Lcg(1);
    for _ in 0..200000 {
        let a = g.next();
        let b = g.next();
        let want = f32::from_bits(a) * f32::from_bits(b);
        let got = Scalar::from_bits(a).mul(Scalar::from_bits(b));
        assert!(same(got, want), "{:#x} * {:#x}", a, b);
    }
}

#[test]
fn product_of_small_numbers() {
    assert_eq!(s(1.5).mul(s(2.0)).to_bits(), 3.0f32.to_bits());
    assert_eq!(s(-0.5).mul(s(0.5)).to_bits(), (-0.25f32).to_bits());
}

#[test]
fn quotient_matches_hardware_on_edges() {
    for &a in EDGES.iter() {
        for &b in EDGES.iter() {
            let want = f32::from_bits(a) / f32::from_bits(b);
            let got = Scalar::from_bits(a).div(Scalar::from_bits(b));
            assert!(same(got, want), "{:#x} / {:#x}: got {:#x}, want {:#x}", a, b, got.to_bits(), want.to_bits());
        }
    }
}

#[test]
fn quotient_matches_hardware_on_a_sweep() {
    let mut g = Lcg(2);
    for _ in 0..200000 {
        let a = g.next();
        let b = g.next();
        let want = f32::from_bits(a) / f32::from_bits(b);
        let got = Scalar::from_bits(a).div(Scalar::from_bits(b));
        assert!(same(got, want), "{:#x} / {:#x}", a, b);
    }
}

#[test]
fn sum_matches_hardware_on_edges() {
    for &a in EDGES.iter() {
        for &b in EDGES.iter() {
            let want = f32::from_bits(a) + f32::from_bits(b);
            let got = Scalar::from_bits(a).add(Scalar::from_bits(b));
            assert!(same(got, want), "{:#x} + {:#x}: got {:#x}, want {:#x}", a, b, got.to_bits(), want.to_bits());
            let want = f32::from_bits(a) - f32::from_bits(b);
            let got = Scalar::from_bits(a).sub(Scalar::from_bits(b));
            assert!(same(got, want), "{:#x} - {:#x}: got {:#x}, want {:#x}", a, b, got.to_bits(), want.to_bits());
        }
    }
}

#[test]
fn sum_matches_hardware_on_a_sweep() {
    let mut g = Lcg(3);
    for _ in 0..200000 {
        let a = g.next();
        let b = g.next();
        let want = f32::from_bits(a) + f32::from_bits(b);
        let got = Scalar::from_bits(a).add(Scalar::from_bits(b));
        assert!(same(got, want), "{:#x} + {:#x}", a, b);
    }
}

#[test]
fn sum_matches_hardware_on_close_exponents() {
    let mut g = Lcg(4);
    for _ in 0..200000 {
        let a = g.next();
        let shift = (g.next() % 60) as i32 - 30;
        let e = ((a >> 23) & 0xff) as i32 + shift;
        if e < 0 || e > 254 {
            continue;
        }
        let b = (g.next() & 0x807f_ffff) | ((e as u32) << 23);
        let want = f32::from_bits(a) + f32::from_bits(b);
        let got = Scalar::from_bits(a).add(Scalar::from_bits(b));
        assert!(same(got, want), "{:#x} + {:#x}", a, b);
        let want = f32::from_bits(a) - f32::from_bits(b);
        let got = Scalar::from_bits(a).sub(Scalar::from_bits(b));
        assert!(same(got, want), "{:#x} - {:#x}", a, b);
    }
}

#[test]
fn root_matches_hardware_on_edges() {
    for &a in EDGES.iter() {
        let want = f32::from_bits(a).sqrt();
        let got = Scalar::from_bits(a).sqrt();
        assert!(same(got, want), "sqrt {:#x}: got {:#x}, want {:#x}", a, got.to_bits(), want.to_bits());
    }
}

#[test]
fn root_matches_hardware_on_a_sweep() {
    let mut g = Lcg(5);
    for _ in 0..200000 {
        let a = g.next() & 0x7fff_ffff;
        let want = f32::from_bits(a).sqrt();
        let got = Scalar::from_bits(a).sqrt();
        assert!(same(got, want), "sqrt {:#x}", a);
    }
}

#[test]
fn root_of_squares_is_exact() {
    assert_eq!(s(9.0).sqrt().to_bits(), 3.0f32.to_bits());
    assert_eq!(s(2.0).sqrt().to_bits(), 2.0f32.sqrt().to_bits());
    assert_eq!(s(-0.0).sqrt().to_bits(), (-0.0f32).to_bits());
    assert!(f32::from_bits(s(-1.0).sqrt().to_bits()).is_nan());
}

#[test]
fn integers_convert_as_hardware_does() {
    let mut g = Lcg(6);
    for i in [0i32, 1, -1, 2, 255, 500, 16777216, 16777217, 16777219, i32::MAX, i32::MIN, -16777217] {
        assert_eq!(Scalar::from_i32(i).to_bits(), (i as f32).to_bits(), "{}", i);
    }
    for _ in 0..100000 {
        let i = g.next() as i32;
        assert_eq!(Scalar::from_i32(i).to_bits(), (i as f32).to_bits(), "{}", i);
    }
}

#[test]
fn comparisons_match_hardware() {
    let mut g = Lcg(7);
    let mut pairs: Vec<(u32, u32)> = Vec::new();
    for &a in EDGES.iter() {
        for &b in EDGES.iter() {
            pairs.push((a, b));
        }
    }
    for _ in 0..100000 {
        pairs.push((g.next(), g.next()));
    }
    for (a, b) in pairs {
        let (x, y) = (f32::from_bits(a), f32::from_bits(b));
        let (p, q) = (Scalar::from_bits(a), Scalar::from_bits(b));
        assert_eq!(p.lt(q), x < y, "{:#x} < {:#x}", a, b);
        assert_eq!(p.le(q), x <= y, "{:#x} <= {:#x}", a, b);
        assert_eq!(p.gt(q), x > y, "{:#x} > {:#x}", a, b);
        assert_eq!(p.ge(q), x >= y, "{:#x} >= {:#x}", a, b);
        assert_eq!(p.equals(q), x == y, "{:#x} == {:#x}", a, b);
        let lo = f32::from_bits(p.min(q).to_bits());
        let hi = f32::from_bits(p.max(q).to_bits());
        assert!(lo == x.min(y) || (lo.is_nan() && x.min(y).is_nan()));
        assert!(hi == x.max(y) || (hi.is_nan() && x.max(y).is_nan()));
    }
}

#[test]
fn sign_operations_touch_only_the_sign_bit() {
    for &a in EDGES.iter() {
        assert_eq!(Scalar::from_bits(a).neg().to_bits(), a ^ 0x8000_0000);
        assert_eq!(Scalar::from_bits(a).abs().to_bits(), a & 0x7fff_ffff);
    }
}

#[test]
fn classification_matches_hardware() {
    for &a in EDGES.iter() {
        let x = f32::from_bits(a);
        let p = Scalar::from_bits(a);
        assert_eq!(p.is_nan(), x.is_nan());
        assert_eq!(p.is_infinite(), x.is_infinite());
        assert_eq!(p.is_finite(), x.is_finite());
        assert_eq!(p.is_negative(), x.is_sign_negative());
        assert_eq!(p.magnitude_bits(), a & 0x7fff_ffff);
    }
}

#[test]
fn bytes_convert_as_hardware_does() {
    let mut g = Lcg(8);
    for &a in EDGES.iter() {
        assert_eq!(Scalar::from_bits(a).to_byte(), f32::from_bits(a) as u8, "{:#x}", a);
    }
    for _ in 0..100000 {
        let a = g.next();
        assert_eq!(Scalar::from_bits(a).to_byte(), f32::from_bits(a) as u8, "{:#x}", a);
    }
    for i in 0..2600 {
        let x = i as f32 / 10.0;
        assert_eq!(s(x).to_byte(), x as u8);
    }
}
