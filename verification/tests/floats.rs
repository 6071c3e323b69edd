use reco::double::F64;
use reco::single::F32;

fn singles() -> Vec<u32> {
    let mut v = vec![
        0, 1, 2, 0x0000_0FFF, 0x007F_FFFF, 0x0080_0000, 0x0080_0001, 0x3EFF_FFFF, 0x3F00_0000,
        0x3F00_0001, 0x3F7F_FFFF, 0x3F80_0000, 0x3F80_0001, 0x3FC0_0000, 0x4020_0000, 0x4B00_0001,
        0x4B7F_FFFF, 0x4B80_0000, 0x4F7F_FFFF, 0x4F80_0000, 0x5F80_0000, 0x7F7F_FFFF, 0x7F80_0000,
        0x7FC0_0000,
    ];
    let mut seed: u64 = 0x9E37_79B9_7F4A_7C15;
    for _ in 0..60 {
        seed = seed.wrapping_mul(6364136223846793005).wrapping_add(1442695040888963407);
        v.push((seed >> 33) as u32);
        // numbers of ordinary size, too
        v.push(0x3F00_0000 + ((seed >> 20) as u32 & 0x03FF_FFFF));
    }
    let negative: Vec<u32> = v.iter().map(|b| b | 0x8000_0000).collect();
    v.extend(negative);
    v
}

fn doubles() -> Vec<u64> {
    let mut v = vec![
        0, 1, 0x000F_FFFF_FFFF_FFFF, 0x0010_0000_0000_0000, 0x36A0_0000_0000_0000,
        0x3690_0000_0000_0000, 0x3690_0000_0000_0001, 0x380F_FFFF_E000_0000, 0x3810_0000_0000_0000,
        0x3FDF_FFFF_FFFF_FFFF, 0x3FE0_0000_0000_0000, 0x3FF0_0000_0000_0000, 0x3FF0_0000_1000_0000,
        0x3FF0_0000_3000_0000, 0x4330_0000_0000_0001, 0x43E0_0000_0000_0000, 0x43F0_0000_0000_0000,
        0x47EF_FFFF_EFFF_FFFF, 0x47EF_FFFF_F000_0000, 0x7FEF_FFFF_FFFF_FFFF, 0x7FF0_0000_0000_0000,
        0x7FF8_0000_0000_0000,
    ];
    let mut seed: u64 = 0x0123_4567_89AB_CDEF;
    for _ in 0..60 {
        seed = seed.wrapping_mul(6364136223846793005).wrapping_add(1442695040888963407);
        v.push(seed >> 1);
        v.push(0x3FE0_0000_0000_0000 + (seed >> 8 & 0x007F_FFFF_FFFF_FFFF));
    }
    let negative: Vec<u64> = v.iter().map(|b| b | 0x8000_0000_0000_0000).collect();
    v.extend(negative);
    v
}

fn same(got: F32, want: f32, what: &str) {
    let got = f32::from_bits(got.to_bits());
    assert!(
        (got.is_nan() && want.is_nan()) || got.to_bits() == want.to_bits(),
        "{what}: {got} != {want}"
    );
}

fn same64(got: F64, want: f64, what: &str) {
    let got = f64::from_bits(got.to_bits());
    assert!(
        (got.is_nan() && want.is_nan()) || got.to_bits() == want.to_bits(),
        "{what}: {got} != {want}"
    );
}

#[test]
fn singles_compute_as_the_hardware_does() {
    for &a in &singles() {
        let (x, n) = (F32::from_bits(a), f32::from_bits(a));
        for &b in &singles() {
            let (y, m) = (F32::from_bits(b), f32::from_bits(b));
            same(x.add(y), n + m, &format!("{n} + {m}"));
            same(x.sub(y), n - m, &format!("{n} - {m}"));
            same(x.mul(y), n * m, &format!("{n} * {m}"));
            same(x.div(y), n / m, &format!("{n} / {m}"));
            assert_eq!(x.lt(y), n < m);
            assert_eq!(x.le(y), n <= m);
            if n != 0.0 || m != 0.0 {
                same(x.min(y), n.min(m), &format!("min {n} {m}"));
                same(x.max(y), n.max(m), &format!("max {n} {m}"));
            }
        }
    }
}

#[test]
fn single_functions_compute_as_the_hardware_does() {
    for &a in &singles() {
        let (x, n) = (F32::from_bits(a), f32::from_bits(a));
        same(x.sqrt(), n.sqrt(), &format!("sqrt {n}"));
        same(x.neg(), -n, &format!("neg {n}"));
        same(x.abs(), n.abs(), &format!("abs {n}"));
        same(x.floor(), n.floor(), &format!("floor {n}"));
        same(x.round(), n.round(), &format!("round {n}"));
        same(x.to_radians(), n.to_radians(), &format!("radians {n}"));
        same(x.to_degrees(), n.to_degrees(), &format!("degrees {n}"));
        same64(x.to_double(), n as f64, &format!("widen {n}"));
        assert_eq!(x.is_nan(), n.is_nan());
        assert_eq!(x.is_finite(), n.is_finite());
        assert_eq!(x.truncate_to_u32(), n as u32, "{n} as u32");
        assert_eq!(x.round_to_usize(), n.round() as usize, "{n} rounded");
        if !n.is_nan() {
            let (lo, hi) = (F32::from_bits(0xBF80_0000), F32::from_bits(0x3FC0_0000));
            same(x.clamp(lo, hi), n.clamp(-1.0, 1.5), &format!("clamp {n}"));
        }
    }
}

#[test]
fn doubles_compute_as_the_hardware_does() {
    for &a in &doubles() {
        let (x, n) = (F64::from_bits(a), f64::from_bits(a));
        for &b in &doubles() {
            let (y, m) = (F64::from_bits(b), f64::from_bits(b));
            same64(x.add(y), n + m, &format!("{n} + {m}"));
            same64(x.sub(y), n - m, &format!("{n} - {m}"));
            same64(x.mul(y), n * m, &format!("{n} * {m}"));
            same64(x.div(y), n / m, &format!("{n} / {m}"));
            assert_eq!(x.lt(y), n < m);
            assert_eq!(x.le(y), n <= m);
            if n != 0.0 || m != 0.0 {
                same64(x.min(y), n.min(m), &format!("min {n} {m}"));
                same64(x.max(y), n.max(m), &format!("max {n} {m}"));
            }
        }
    }
}

#[test]
fn double_functions_compute_as_the_hardware_does() {
    for &a in &doubles() {
        let (x, n) = (F64::from_bits(a), f64::from_bits(a));
        same64(x.sqrt(), n.sqrt(), &format!("sqrt {n}"));
        same64(x.neg(), -n, &format!("neg {n}"));
        same64(x.abs(), n.abs(), &format!("abs {n}"));
        same64(x.to_radians(), n.to_radians(), &format!("radians {n}"));
        same64(x.to_degrees(), n.to_degrees(), &format!("degrees {n}"));
        same(x.to_single(), n as f32, &format!("narrow {n}"));
        assert_eq!(x.is_nan(), n.is_nan());
        assert_eq!(x.is_finite(), n.is_finite());
        assert_eq!(x.truncate_to_u64(), n as u64, "{n} as u64");
        assert_eq!(x.round_to_u64(), n.round().max(0.0) as u64, "{n} rounded");
    }
}

#[test]
fn whole_numbers_convert_as_the_hardware_does() {
    let mut seed: u64 = 77;
    for shift in 0..64 {
        seed = seed.wrapping_mul(6364136223846793005).wrapping_add(1442695040888963407);
        for n in [seed >> shift, (1u64 << shift) - 1, 1u64 << shift, u64::MAX >> shift] {
            same(F32::from_whole(n), n as f32, &format!("{n}"));
            same64(F64::from_whole(n), n as f64, &format!("{n}"));
        }
    }
}
