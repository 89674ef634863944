use painite::arith::Ask;
use painite::json::Json;
use painite::loader::{Loader, NoiseOrigin};
use painite::noise26::NoiseParameters26;
use painite::perlin26::{lerp, lerp2, lerp3, smoothstep, wrap, Layer, LayerNoise, NoiseStack, PerlinNoise, SmearedPerlinNoise};
use painite::volume::Volume;
use painite::xoroshiro::XoroshiroRandomSource;

fn d(bits: u64) -> f64 {
    f64::from_bits(bits)
}

fn s(bits: u32) -> f32 {
    f32::from_bits(bits)
}

fn single(v: f32) -> u64 {
    v.to_bits() as u64
}

/// Arithmetic as the machine does it; noises answer made-up smooth values.
fn machine(ask: Ask) -> u64 {
    match ask {
        Ask::Add64(a, b) => (d(a) + d(b)).to_bits(),
        Ask::Sub64(a, b) => (d(a) - d(b)).to_bits(),
        Ask::Mul64(a, b) => (d(a) * d(b)).to_bits(),
        Ask::Div64(a, b) => (d(a) / d(b)).to_bits(),
        Ask::Min64(a, b) => d(a).min(d(b)).to_bits(),
        Ask::Max64(a, b) => d(a).max(d(b)).to_bits(),
        Ask::Less64(a, b) => (d(a) < d(b)) as u64,
        Ask::LessEq64(a, b) => (d(a) <= d(b)) as u64,
        Ask::Equal64(a, b) => (d(a) == d(b)) as u64,
        Ask::Abs64(a) => d(a).abs().to_bits(),
        Ask::Floor64(a) => d(a).floor().to_bits(),
        Ask::Ceil64(a) => d(a).ceil().to_bits(),
        Ask::Sqrt64(a) => d(a).sqrt().to_bits(),
        Ask::Ln64(a) => d(a).ln().to_bits(),
        Ask::Pow64(a, b) => d(a).powf(d(b)).to_bits(),
        Ask::Exp64(a) => d(a).exp().to_bits(),
        Ask::Powi64(a, n) => d(a).powi(n).to_bits(),
        Ask::Neg64(a) => (-d(a)).to_bits(),
        Ask::FromInt64(i) => (i as f64).to_bits(),
        Ask::FromLong64(i) => (i as f64).to_bits(),
        Ask::ToInt64(a) => (d(a) as i32) as u32 as u64,
        Ask::ToLong64(a) => (d(a) as i64) as u64,
        Ask::Sin64(a) => d(a).sin().to_bits(),
        Ask::Cos64(a) => d(a).cos().to_bits(),
        Ask::Widen(a) => (s(a) as f64).to_bits(),
        Ask::Narrow(a) => single(d(a) as f32),
        Ask::Add32(a, b) => single(s(a) + s(b)),
        Ask::Sub32(a, b) => single(s(a) - s(b)),
        Ask::Mul32(a, b) => single(s(a) * s(b)),
        Ask::Div32(a, b) => single(s(a) / s(b)),
        Ask::Rem32(a, b) => single(s(a) % s(b)),
        Ask::Min32(a, b) => single(s(a).min(s(b))),
        Ask::Max32(a, b) => single(s(a).max(s(b))),
        Ask::Less32(a, b) => (s(a) < s(b)) as u64,
        Ask::LessEq32(a, b) => (s(a) <= s(b)) as u64,
        Ask::Equal32(a, b) => (s(a) == s(b)) as u64,
        Ask::Nan32(a) => s(a).is_nan() as u64,
        Ask::Abs32(a) => single(s(a).abs()),
        Ask::Neg32(a) => single(-s(a)),
        Ask::Signum32(a) => single(s(a).signum()),
        Ask::Sqrt32(a) => single(s(a).sqrt()),
        Ask::Round32(a) => single(s(a).round()),
        Ask::Powi32(a, n) => single(s(a).powi(n)),
        Ask::FromInt32(i) => single(i as f32),
        Ask::ToInt32(a) => (s(a) as i32) as u32 as u64,
        Ask::ToByte32(a) => (s(a) as u8) as u64,
        Ask::ToLong32(a) => (s(a) as i64) as u64,
        Ask::FromLong32(i) => single(i as f32),
        Ask::Noise { noise, x, y, z } => (0.5 * (d(x) * 0.11 + d(y) * 0.07 + d(z) * 0.05 + noise as f64).sin()).to_bits(),
        Ask::Blended { bx, by, bz, .. } => ((bx + 2 * by + 3 * bz) as f64 / 100.0).to_bits(),
        Ask::Island { cx, cz, .. } => ((cx + cz) as f64 / 64.0).to_bits(),
        Ask::Biome { .. } => 0,
        Ask::StackBound(_) => single(2.0),
        Ask::Stack { stack, x, y, z } => single((0.5 * (d(x) * 0.11 + d(y) * 0.07 + d(z) * 0.05 + stack as f64).sin()) as f32),
        Ask::StackBlock { stack, bx, by, bz, xz_scale, y_scale, amplitude } => {
            let v = (bx as f64 * d(xz_scale) * 0.11 + by as f64 * d(y_scale) * 0.07 + bz as f64 * d(xz_scale) * 0.05 + stack as f64).sin();
            single(v as f32 * 0.5 * s(amplitude))
        }
    }
}

fn b(v: f64) -> u64 {
    v.to_bits()
}

/// A stand-in for the hash of an octave's name.
fn octave(i: i32) -> (u64, u64) {
    let n = (i as u64).wrapping_mul(0x9E37_79B9_7F4A_7C15);
    (n ^ 0x1234_5678, n.rotate_left(29) ^ 0xABCD_EF01)
}

#[test]
fn wrap_is_identity_inside_range() {
    let w = |v: f64| d(wrap(&machine, b(v)));
    assert_eq!(w(123.5), 123.5);
    assert_eq!(w(-16777216.0), -16777216.0);
    assert_ne!(w(16777216.0), 16777216.0);
}

#[test]
fn smoothstep_endpoints() {
    let at = |v: f32| s(smoothstep(&machine, v.to_bits()));
    assert_eq!(at(0.0), 0.0);
    assert_eq!(at(1.0), 1.0);
    assert_eq!(at(0.5), 0.5);
}

#[test]
fn lerps_blend_corners() {
    let f = |v: f32| v.to_bits();
    assert_eq!(s(lerp(&machine, f(0.25), f(2.0), f(6.0))), 3.0);
    assert_eq!(s(lerp2(&machine, f(0.5), f(0.25), f(0.0), f(2.0), f(4.0), f(6.0))), 2.0);
    let v = [f(0.0), f(2.0), f(4.0), f(6.0), f(8.0), f(10.0), f(12.0), f(14.0)];
    assert_eq!(s(lerp3(&machine, f(0.5), f(0.25), f(0.5), &v)), 6.0);
}

/// Volumes: the corner grid at a fine y scale, a cave noise where every
/// point changes cell, block resolution, and smeared layers.
const VOLUMES: [([usize; 3], [i32; 3], [i32; 3], f64, f64, Option<f64>); 6] = [
    ([5, 49, 5], [-64, -64, 128], [4, 8, 4], 0.25, 0.125 / 160.0, Some(8.0 / 160.0)),
    ([5, 49, 5], [0, -64, 0], [4, 8, 4], 1.0, 1.0, None),
    ([3, 13, 2], [17, -3, -40], [1, 1, 1], 0.25, 0.25, None),
    ([5, 9, 5], [1000, 0, -1000], [4, 8, 4], 0.5, 3.0, Some(0.5)),
    ([2, 8, 2], [-99999, 200, 4321], [4, 8, 4], 0.6, 0.9, Some(0.25)),
    ([4, 24, 4], [-6000, -64, 1200], [4, 4, 4], 0.25, 0.0, None),
];

/// The walk over a volume gives, bit by bit, what each point gives.
#[test]
fn lanes_match_scalar() {
    let mut rng = XoroshiroRandomSource::from_legacy_seed(1234);
    let noise = PerlinNoise::new(&mut rng, &machine);
    for (size, min, step, xz, ys, fudge) in VOLUMES {
        let vol = Volume::new(size, min, step);
        let mut out = vec![0.5f32.to_bits(); vol.len()];
        noise.add_to_volume(&mut out, &vol, b(xz), b(ys), 0.7f32.to_bits(), fudge.map(b), &machine);
        let bad = vol
            .for_each()
            .iter()
            .zip(&out)
            .filter(|((x, y, z), got)| {
                let (x, y, z) = (b(*x as f64 * xz), b(*y as f64 * ys), b(*z as f64 * xz));
                let v = match fudge {
                    None => noise.get_volume_style(x, y, z, &machine),
                    Some(scale) => SmearedPerlinNoise { base: noise, fudge_y_scale: b(scale) }.get_volume_style(x, y, z, &machine),
                };
                (0.5f32 + 0.7 * s(v)).to_bits() != **got
            })
            .count();
        assert_eq!(bad, 0, "size {size:?} y_scale {ys} fudge {fudge:?}");
    }
}

#[test]
fn create_is_deterministic_and_bounded() {
    let p = NoiseParameters26::from_json(
        &Json::parse("{\"base_octave\": -7, \"octave_count\": 4, \"amplitude_modifiers\": [1.0, 1.0, 1.0, 1.0]}").unwrap(),
    )
    .unwrap();
    let root = XoroshiroRandomSource::from_legacy_seed(1234).fork_positional();
    let a = p.instantiate(&root, (1, 2), &octave, &machine);
    let c = p.instantiate(&root, (1, 2), &octave, &machine);
    assert_eq!(a.layers.len(), 8);
    for i in 0..200 {
        let (x, y, z) = (b(i as f64 * 3.7), b(i as f64 * 0.5), b(-(i as f64) * 2.1));
        let va = a.get(x, y, z, &machine);
        assert_eq!(va, c.get(x, y, z, &machine));
        assert!(s(va).abs() <= 2.0, "value {} out of range", s(va));
        assert!(s(va).abs() <= s(a.bound(&machine)));
    }
}

#[test]
fn noises_permute_every_byte() {
    let mut rng = XoroshiroRandomSource::from_legacy_seed(5);
    let noise = PerlinNoise::new(&mut rng, &machine);
    let mut seen = noise.perms.to_vec();
    seen.sort();
    assert_eq!(seen, (0..=255u8).collect::<Vec<u8>>());
    assert_ne!(noise.perms[..8], [0, 1, 2, 3, 4, 5, 6, 7]);
    assert!((0.0..256.0).contains(&d(noise.offset_x)));
    // On a lattice point every gradient is met at its foot or blended away.
    let (x, y, z) = (-d(noise.offset_x), -d(noise.offset_y), -d(noise.offset_z));
    assert_eq!(s(noise.get(b(x), b(y), b(z), &machine)), 0.0);
}

#[test]
fn stacks_fill_volumes_as_points() {
    let mut rng = XoroshiroRandomSource::from_legacy_seed(77);
    let stack = NoiseStack::create_fbm(&mut rng, -3, b(0.05), b(1.0), &machine);
    assert_eq!(stack.layers.len(), 4);
    assert_eq!((d(stack.layers[0].frequency), d(stack.layers[3].frequency)), (1.0, 0.125));
    assert_eq!(s(stack.layers[0].amplitude), (1.0 / 15.0) as f32);
    assert!(matches!(stack.layers[2].noise, LayerNoise::Smeared(n) if d(n.fudge_y_scale) == 0.05 * 0.25));
    let vol = Volume::new([3, 9, 2], [-4, 60, 8], [4, 8, 4]);
    let mut out = vec![0u32; vol.len()];
    stack.add_to_volume(&mut out, &vol, b(0.25), b(0.125), 1f32.to_bits(), &machine);
    for (i, (x, y, z)) in vol.for_each().into_iter().enumerate() {
        assert_eq!(stack.get_volume(x, y, z, b(0.25), b(0.125), 1f32.to_bits(), &machine), out[i]);
    }
    assert!(out.iter().any(|v| s(*v) != 0.0));
}

#[test]
fn planes_are_points_at_zero_height() {
    let mut rng = XoroshiroRandomSource::from_legacy_seed(8);
    let plain = PerlinNoise::new(&mut rng, &machine);
    let smeared = SmearedPerlinNoise::new(&mut rng, b(0.5), &machine);
    let (x, y) = (b(12.3), b(-4.5));
    assert_eq!(plain.get_2d(x, y, &machine), plain.get(x, 0, y, &machine));
    assert_eq!(LayerNoise::Smeared(smeared).get_2d(x, y, &machine), smeared.get(x, 0, y, &machine));
    let one = Layer { noise: LayerNoise::Perlin(plain), frequency: b(1.0), amplitude: 1f32.to_bits() };
    let stack = NoiseStack { layers: vec![one] };
    assert_eq!(s(stack.get_2d(x, y, &machine)), s(plain.get_2d(x, y, &machine)));
    assert_eq!(s(stack.get(x, y, x, &machine)), s(plain.get(x, y, x, &machine)));
}

#[test]
fn origins_make_their_stacks() {
    let loader = Loader::from_memory(1234, vec![(
        "noise".to_string(),
        "minecraft:heat".to_string(),
        Json::parse("{\"base_octave\": -7, \"octave_count\": 2, \"amplitude_modifiers\": [1.0, 1.0]}").unwrap(),
    )]);
    let root = loader.root_factory();
    assert_eq!(root, XoroshiroRandomSource::from_legacy_seed(1234).fork_positional());
    let mut loader = loader;
    loader.noise("heat").ok().expect("a noise");
    let made = loader.stacks()[0].make(&root, (1, 2), (3, 4), &octave, &machine).unwrap();
    assert_eq!(made.layers.len(), 4);
    let limit = |part: u8| NoiseOrigin::Blended { part, limit_smear: b(0.5), main_smear: b(0.25) }.make(&root, (1, 2), (3, 4), &octave, &machine).unwrap();
    assert_eq!((limit(0).layers.len(), limit(1).layers.len(), limit(2).layers.len()), (16, 16, 8));
    let (x, y, z) = (b(3.5), b(7.25), b(-2.0));
    assert_ne!(limit(0).get(x, y, z, &machine), limit(1).get(x, y, z, &machine));
}
