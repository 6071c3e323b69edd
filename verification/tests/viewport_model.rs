//! The bounds of a view against the same steps in the machine's own numbers.
use reco::single::F32;
use reco::viewport::viewport_bounds;
use reco::world::ViewportPosition;

fn f(x: f32) -> F32 {
    F32::from_bits(x.to_bits())
}

fn g(x: F32) -> f32 {
    f32::from_bits(x.to_bits())
}

/// How far one may turn along the first coordinate.
fn range(points: &[(f32, f32)], margin: f32) -> (f32, f32) {
    let lowest = |v: &dyn Fn(&(f32, f32)) -> f32| points.iter().map(v).fold(f32::MAX, f32::min);
    let highest = |v: &dyn Fn(&(f32, f32)) -> f32| points.iter().map(v).fold(f32::MIN, f32::max);
    let (bottom, top) = (lowest(&|p| p.1), highest(&|p| p.1));
    let step = (top - bottom) / 20.0;
    let (mut lo, mut hi) = (f32::MIN, f32::MAX);
    for bin in 0..20 {
        let from = bottom + bin as f32 * step;
        let to = from + step;
        let inside: Vec<f32> =
            points.iter().filter(|p| p.1 >= from && p.1 < to).map(|p| p.0).collect();
        if inside.len() >= 4 {
            lo = lo.max(inside.iter().copied().fold(f32::MAX, f32::min) + margin);
            hi = hi.min(inside.iter().copied().fold(f32::MIN, f32::max) - margin);
        }
    }
    if lo == f32::MIN {
        lo = lowest(&|p| p.0) + margin;
    }
    if hi == f32::MAX {
        hi = highest(&|p| p.0) - margin;
    }
    if lo > hi {
        let middle = (lo + hi) * 0.5;
        (middle, middle)
    } else {
        (lo, hi)
    }
}

#[test]
fn bounds_are_those_the_machine_computes() {
    let mut seed: u64 = 99;
    let mut roll = || {
        seed = seed.wrapping_mul(6364136223846793005).wrapping_add(1442695040888963407);
        (seed >> 33) as f32 / (1u64 << 31) as f32
    };
    for round in 0..200 {
        let n = 1 + (roll() * 300.0) as usize;
        let size = if round % 2 == 0 { 1.0 } else { 0.3 };
        let positions: Vec<Option<ViewportPosition>> = (0..n)
            .map(|i| {
                let (yaw, pitch) = (f((roll() - 0.5) * 2.0 * size), f((roll() - 0.5) * size));
                let seen = ViewportPosition { yaw, pitch, fov_degrees: None };
                if i % 7 == 3 { None } else { Some(seen) }
            })
            .collect();
        let (across, up) = (roll() * 0.6, roll() * 0.4);
        let got = viewport_bounds(&positions, f(across), f(up));
        let points: Vec<(f32, f32)> =
            positions.iter().flatten().map(|p| (g(p.yaw), g(p.pitch))).collect();
        let turned: Vec<(f32, f32)> = points.iter().map(|p| (p.1, p.0)).collect();
        let (yaw, pitch) = (range(&points, across), range(&turned, up));
        assert_eq!((g(got.min_yaw), g(got.max_yaw)), yaw, "round {round}");
        assert_eq!((g(got.min_pitch), g(got.max_pitch)), pitch, "round {round}");
    }
}

/// A wider view may turn no further than a narrower one, also once nothing is
/// left to turn but the middle.
#[test]
fn a_wider_view_stays_within_a_narrower_one() {
    let mut seed: u64 = 5;
    let mut roll = || {
        seed = seed.wrapping_mul(6364136223846793005).wrapping_add(1442695040888963407);
        (seed >> 33) as f32 / (1u64 << 31) as f32
    };
    let mut collapsed = 0;
    for round in 0..100 {
        let positions: Vec<Option<ViewportPosition>> = (0..200)
            .map(|_| {
                let (yaw, pitch) = (f((roll() - 0.5) * 3.0), f((roll() - 0.5) * 2.0));
                Some(ViewportPosition { yaw, pitch, fov_degrees: None })
            })
            .collect();
        let near = roll() * 1.2;
        let far = near + roll();
        let narrow = viewport_bounds(&positions, f(near), f(near));
        let wide = viewport_bounds(&positions, f(far), f(far));
        collapsed += (wide.min_yaw == wide.max_yaw) as u32;
        assert!(g(narrow.min_yaw) <= g(wide.min_yaw) + 7.7e-6, "round {round}");
        assert!(g(wide.max_yaw) <= g(narrow.max_yaw) + 7.7e-6, "round {round}");
        assert!(g(narrow.min_pitch) <= g(wide.min_pitch) + 7.7e-6, "round {round}");
        assert!(g(wide.max_pitch) <= g(narrow.max_pitch) + 7.7e-6, "round {round}");
    }
    assert!(collapsed > 10, "{collapsed}");
}
