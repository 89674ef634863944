use painite::arith::Ask;
use painite::bitrandom::{next_int_bound, LegacyRandomSource};
use painite::bridge::{
    colours_of, columns_of, documents_of, indices_of, limits_of, mesh_code, plan_code, stage_of, ticket_code, water_id,
};
use painite::carvers26::{
    mth_cos, mth_sin, CanyonCarver, CanyonShape, Carver, CarverBiomeCache, CarverStage, CarvingMask, CaveCarver, ChunkPos, Ellipsoid,
    FloatProvider, HeightProvider as CaveHeights,
    IntProvider as CaveInts, SkipRule, CAPACITY, HALF_PI_32,
};
use painite::climate::{expected_bucket_size, quantize_coord, unquantize_coord, ParameterPoint, RTree, TargetPoint};
use painite::climate26::{quantize, BiomeError, ColumnSearch, RTree as ColumnTree};
use painite::biome26::BiomeStage;
use painite::df26::{Mode, Node};
use painite::json::{Json, LoadError};
use painite::loader::{full_id, Loader, NoiseOrigin};
use painite::lod26::QuartGrid;
use painite::noise26::{NoiseParameters26, Normalization};
use painite::oracle::{ChunkOracle, Oracle, OracleError, SurfaceOracle};
use painite::ores26::{
    max_radius, BitSet, HeightProvider as OreHeights, IntProvider as OreInts, Modifier, OreBatch, OreFeature, OreStage, PlacedOre, Region,
    RegionError, RuleTest, Section, Target, WorldgenRandom, Write, HEIGHT_LONGS, REGION_CHUNKS,
};
use painite::lodmesh26::Bounds;
use painite::rtree::{Parameter, Space};
use painite::scheduler::{Limits, Stage, Submitted};

fn d(bits: u64) -> f64 {
    f64::from_bits(bits)
}

fn s(bits: u32) -> f32 {
    f32::from_bits(bits)
}

fn single(v: f32) -> u64 {
    v.to_bits() as u64
}

/// Arithmetic as the machine does it; noises answer made-up smooth values.
fn machine(ask: Ask) -> u64 {
    match ask {
        Ask::Add64(a, b) => (d(a) + d(b)).to_bits(),
        Ask::Sub64(a, b) => (d(a) - d(b)).to_bits(),
        Ask::Mul64(a, b) => (d(a) * d(b)).to_bits(),
        Ask::Div64(a, b) => (d(a) / d(b)).to_bits(),
        Ask::Min64(a, b) => d(a).min(d(b)).to_bits(),
        Ask::Max64(a, b) => d(a).max(d(b)).to_bits(),
        Ask::Less64(a, b) => (d(a) < d(b)) as u64,
        Ask::LessEq64(a, b) => (d(a) <= d(b)) as u64,
        Ask::Equal64(a, b) => (d(a) == d(b)) as u64,
        Ask::Abs64(a) => d(a).abs().to_bits(),
        Ask::Floor64(a) => d(a).floor().to_bits(),
        Ask::Ceil64(a) => d(a).ceil().to_bits(),
        Ask::Sqrt64(a) => d(a).sqrt().to_bits(),
        Ask::Ln64(a) => d(a).ln().to_bits(),
        Ask::Pow64(a, b) => d(a).powf(d(b)).to_bits(),
        Ask::Exp64(a) => d(a).exp().to_bits(),
        Ask::Powi64(a, n) => d(a).powi(n).to_bits(),
        Ask::Neg64(a) => (-d(a)).to_bits(),
        Ask::FromInt64(i) => (i as f64).to_bits(),
        Ask::FromLong64(i) => (i as f64).to_bits(),
        Ask::ToInt64(a) => (d(a) as i32) as u32 as u64,
        Ask::ToLong64(a) => (d(a) as i64) as u64,
        Ask::Sin64(a) => d(a).sin().to_bits(),
        Ask::Cos64(a) => d(a).cos().to_bits(),
        Ask::Widen(a) => (s(a) as f64).to_bits(),
        Ask::Narrow(a) => single(d(a) as f32),
        Ask::Add32(a, b) => single(s(a) + s(b)),
        Ask::Sub32(a, b) => single(s(a) - s(b)),
        Ask::Mul32(a, b) => single(s(a) * s(b)),
        Ask::Div32(a, b) => single(s(a) / s(b)),
        Ask::Rem32(a, b) => single(s(a) % s(b)),
        Ask::Min32(a, b) => single(s(a).min(s(b))),
        Ask::Max32(a, b) => single(s(a).max(s(b))),
        Ask::Less32(a, b) => (s(a) < s(b)) as u64,
        Ask::LessEq32(a, b) => (s(a) <= s(b)) as u64,
        Ask::Equal32(a, b) => (s(a) == s(b)) as u64,
        Ask::Nan32(a) => s(a).is_nan() as u64,
        Ask::Abs32(a) => single(s(a).abs()),
        Ask::Neg32(a) => single(-s(a)),
        Ask::Signum32(a) => single(s(a).signum()),
        Ask::Sqrt32(a) => single(s(a).sqrt()),
        Ask::Round32(a) => single(s(a).round()),
        Ask::Powi32(a, n) => single(s(a).powi(n)),
        Ask::FromInt32(i) => single(i as f32),
        Ask::ToInt32(a) => (s(a) as i32) as u32 as u64,
        Ask::ToByte32(a) => (s(a) as u8) as u64,
        Ask::ToLong32(a) => (s(a) as i64) as u64,
        Ask::FromLong32(i) => single(i as f32),
        Ask::Noise { noise, x, y, z } => (0.5 * (d(x) * 0.11 + d(y) * 0.07 + d(z) * 0.05 + noise as f64).sin()).to_bits(),
        Ask::Blended { bx, by, bz, .. } => ((bx + 2 * by + 3 * bz) as f64 / 100.0).to_bits(),
        Ask::Island { cx, cz, .. } => ((cx + cz) as f64 / 64.0).to_bits(),
        Ask::Biome { .. } => 0,
        Ask::StackBound(_) => single(2.0),
        Ask::Stack { stack, x, y, z } => single((0.5 * (d(x) * 0.11 + d(y) * 0.07 + d(z) * 0.05 + stack as f64).sin()) as f32),
        Ask::StackBlock { stack, bx, by, bz, xz_scale, y_scale, amplitude } => {
            let v = (bx as f64 * d(xz_scale) * 0.11 + by as f64 * d(y_scale) * 0.07 + bz as f64 * d(xz_scale) * 0.05 + stack as f64).sin();
            single(v as f32 * 0.5 * s(amplitude))
        }
    }
}

fn bits(v: f32) -> u32 {
    v.to_bits()
}

fn wide(a: i64, b: i64) -> Parameter {
    Parameter::new(a, b)
}

fn point(p: [(i64, i64); 6], offset: i64) -> ParameterPoint {
    let at = |i: usize| wide(p[i].0, p[i].1);
    ParameterPoint::new(at(0), at(1), at(2), at(3), at(4), at(5), offset)
}

#[test]
fn quantize_round_trip() {
    // 0.5 * 10000 = 5000, 5000.0 / 10000 = 0.5
    let q = quantize_coord(bits(0.5), &machine);
    assert_eq!(q, 5000);
    assert_eq!(quantize(bits(-0.25), &machine), -2500);
    assert!((s(unquantize_coord(q, &machine)) - 0.5).abs() < 1e-6);
}

#[test]
fn parameter_distance_inside_zero() {
    let p = Parameter::new(-100, 100);
    assert_eq!(p.distance(-100), 0);
    assert_eq!(p.distance(0), 0);
    assert_eq!(p.distance(100), 0);
}

#[test]
fn parameter_distance_above_below() {
    let p = Parameter::new(-100, 100);
    assert_eq!(p.distance(150), 50); // 50 above max
    assert_eq!(p.distance(-150), 50); // 50 below min
    assert_eq!(p.distance(101), 1);
    assert_eq!(p.distance(-101), 1);
}

#[test]
fn parameter_span_with() {
    let a = Parameter::new(0, 10);
    let b = Parameter::new(5, 20);
    assert_eq!(a.span_with(Some(b)), Parameter::new(0, 20));
    assert_eq!(a.span_with(None), a);
}

#[test]
fn parameters_from_numbers() {
    let p = Parameter::point(bits(0.25), &machine);
    assert_eq!((p.min, p.max), (2500, 2500));
    let p = Parameter::span(bits(-0.25), bits(0.5), &machine);
    assert_eq!((p.min, p.max), (-2500, 5000));
    let t = TargetPoint::from_floats(bits(0.1), bits(0.2), bits(0.3), bits(0.4), bits(0.5), bits(-0.6), &machine);
    assert_eq!(t.to_array(), [1000, 2000, 3000, 4000, 5000, -6000, 0]);
}

#[test]
fn fitness_inside_target_is_offset_squared() {
    // ParameterPoint covering (0, 0, 0, 0, 0, 0); target inside.
    let pt = point([(-100, 100); 6], 17);
    let target = TargetPoint::new(0, 0, 0, 0, 0, 0);
    assert_eq!(pt.fitness(target), 17 * 17);
}

#[test]
fn fitness_outside_sums_squared_distances() {
    let pt = point([(0, 0); 6], 0);
    // target at (3, 4, 0, 0, 0, 0), distances (3, 4, 0, 0, 0, 0)
    // fitness = 9 + 16 + 0 + 0 + 0 + 0 + 0 = 25
    let target = TargetPoint::new(3, 4, 0, 0, 0, 0);
    assert_eq!(pt.fitness(target), 25);
}

/// Single-entry tree: any target returns that value.
#[test]
fn single_entry_tree() {
    let pt = point([(-100, 100); 6], 0);
    let tree: RTree<u32> = RTree::new(vec![(pt, 42)]);
    assert_eq!(*tree.find_value(TargetPoint::new(0, 0, 0, 0, 0, 0)), 42);
    assert_eq!(*tree.find_value(TargetPoint::new(99999, 0, 0, 0, 0, 0)), 42);
}

/// Two-entry tree: target inside one region's interval picks that one.
#[test]
fn two_entry_tree_picks_closer() {
    let p1 = point([(-100, -50), (0, 0), (0, 0), (0, 0), (0, 0), (0, 0)], 0);
    let p2 = point([(50, 100), (0, 0), (0, 0), (0, 0), (0, 0), (0, 0)], 0);
    let tree: RTree<u32> = RTree::new(vec![(p1, 1), (p2, 2)]);
    // target at temp=-75, inside p1
    assert_eq!(*tree.find_value(TargetPoint::new(-75, 0, 0, 0, 0, 0)), 1);
    // target at temp=75, inside p2
    assert_eq!(*tree.find_value(TargetPoint::new(75, 0, 0, 0, 0, 0)), 2);
    // target at temp=0 (between): equal distance to both edges.
    let mid = *tree.find_value(TargetPoint::new(0, 0, 0, 0, 0, 0));
    assert!(mid == 1 || mid == 2);
}

/// Larger tree: each registered point's own value comes back when queried
/// at its center.
#[test]
fn many_entries_self_lookup() {
    let mut entries: Vec<(ParameterPoint, u32)> = Vec::new();
    // A 3x3x3 grid of regions (27 entries, more than one bucket).
    let mut id: u32 = 0;
    for ti in -1_i64..=1 {
        for hi in -1_i64..=1 {
            for ci in -1_i64..=1 {
                let around = |v: i64| (v * 200 - 50, v * 200 + 50);
                let pt = point([around(ti), around(hi), around(ci), (0, 0), (0, 0), (0, 0)], 0);
                entries.push((pt, id));
                id += 1;
            }
        }
    }
    let tree: RTree<u32> = RTree::new(entries.clone());
    for (pt, expected) in &entries {
        let target = TargetPoint::new(
            pt.temperature.center(),
            pt.humidity.center(),
            pt.continentalness.center(),
            pt.erosion.center(),
            pt.depth.center(),
            pt.weirdness.center(),
        );
        let got = *tree.find_value(target);
        assert_eq!(got, *expected, "self-lookup mismatch: entry {} center sampled to {}", expected, got);
    }
}

/// expected_bucket_size at known points.
#[test]
fn expected_bucket_size_known_points() {
    // n=7: 6^floor(log6(6.99)) = 6^1 = 6
    assert_eq!(expected_bucket_size(7), 6);
    // n=36: log6(35.99) is just under 2, so floor = 1, 6^1 = 6.
    assert_eq!(expected_bucket_size(36), 6);
    // n=37: log6(36.99) is just over 2, floor = 2, 6^2 = 36
    assert_eq!(expected_bucket_size(37), 36);
    // n=2: log6(1.99) is 0.385, floor = 0, 6^0 = 1
    assert_eq!(expected_bucket_size(2), 1);
}

#[test]
fn columns_find_what_whole_searches_find() {
    let mut regions: Vec<(Space, u16)> = Vec::new();
    for i in 0..60i64 {
        let spread = |k: i64| {
            let v = (i * 7919 + k * 104729) % 20000 - 10000;
            wide(v, v + 800)
        };
        regions.push(([spread(1), spread(2), spread(3), spread(4), spread(5), spread(6), wide(0, 0)], i as u16));
    }
    let tree = ColumnTree::new(&regions).unwrap();
    let mut col = ColumnSearch::default();
    let base = [100, -2000, 3000, 0, 0, 500, 0];
    tree.column(&base, &mut col);
    for depth in [-9000, -100, 0, 44, 7000] {
        let target = [100, -2000, 3000, 0, depth, 500, 0];
        let leaf = tree.search(&target, None);
        assert_eq!(tree.search_in_column(&mut col, depth, None), leaf);
        let away = |r: &Space| (0..7).map(|k| r[k].distance(target[k]) * r[k].distance(target[k])).sum::<i64>();
        let nearest = regions.iter().map(|r| away(&r.0)).min().unwrap();
        let found = regions.iter().find(|r| r.1 == tree.value(leaf)).unwrap();
        assert_eq!(away(&found.0), nearest);
    }
    assert!(matches!(ColumnTree::new(&[]), Err(BiomeError::Empty)));
}

#[test]
fn mth_cos_is_sin_shifted() {
    // cos(0) reads table entry 16384, the same entry sin(pi/2) reads.
    let half_pi = (s(HALF_PI_32) as f64).to_bits();
    assert_eq!(mth_cos(&machine, 0), mth_sin(&machine, half_pi));
    assert_eq!(s(mth_sin(&machine, 0)), 0.0);
}

#[test]
fn mth_sin_table_endpoints() {
    let sin = |v: f32| s(mth_sin(&machine, (v as f64).to_bits()));
    let pi = std::f32::consts::PI;
    assert_eq!(sin(0.0), 0.0);
    assert!((sin(pi / 2.0) - 1.0).abs() < 1e-3);
    assert!((sin(pi) - 0.0).abs() < 1e-3);
}

#[test]
fn mask_runs_follow_visit_order() {
    let mut mask = CarvingMask::new(-63, 312);
    mask.carve(0, 10, 0);
    mask.carve(0, 11, 0);
    mask.carve(0, 20, 0);
    mask.carve(0, -63, 1);
    mask.carve(0, 312, 0);
    let runs = mask.runs();
    // Column (0,0) first: its two runs bottom-up, the top-of-column run
    // then column (0,1) even though its bit follows in the bit set.
    assert_eq!(runs, vec![(0, 0, 10, 11), (0, 0, 20, 20), (0, 0, 312, 312), (0, 1, -63, -63)]);
    assert_eq!(mask.count(), 5);
}

#[test]
fn masks_start_empty() {
    let mut mask = CarvingMask::new(-8, 8);
    assert!(mask.is_empty() && mask.runs().is_empty());
    mask.carve(15, -8, 15);
    assert!(mask.get(15, -8, 15) && !mask.get(15, -7, 15) && !mask.is_empty());
}

#[test]
fn very_biased_int_uses_three_draws() {
    let p = CaveInts::VeryBiasedToBottom { min: 0, max: 14 };
    let mut r = LegacyRandomSource::new(1);
    let v = p.sample(&mut r);
    assert!((0..=14).contains(&v));
    // The same value by three bounded draws.
    let mut again = LegacyRandomSource::new(1);
    let a = next_int_bound(&mut again, 15);
    let b = next_int_bound(&mut again, a + 1);
    let c = next_int_bound(&mut again, b + 1);
    assert_eq!(v, c);
    assert_eq!(r.seed, again.seed);
}

#[test]
fn providers_draw_inside_their_range() {
    let mut r = LegacyRandomSource::new(7);
    for _ in 0..50 {
        assert!((3..=9).contains(&CaveInts::Uniform { min: 3, max: 9 }.sample(&mut r)));
        assert!((3..=9).contains(&CaveInts::BiasedToBottom { min: 3, max: 9 }.sample(&mut r)));
        assert!((-5..=20).contains(&CaveHeights::Uniform { min: -5, max: 20 }.sample(&mut r)));
        assert!((-5..=20).contains(&CaveHeights::Trapezoid { min: -5, max: 20, plateau: 4 }.sample(&mut r)));
        let v = s(FloatProvider::Uniform { min: bits(1.0), max: bits(2.0) }.sample(&mut r, &machine));
        assert!((1.0..2.0).contains(&v));
        let v = s(FloatProvider::Trapezoid { min: bits(0.0), max: bits(6.0), plateau: bits(2.0) }.sample(&mut r, &machine));
        assert!((0.0..=6.0).contains(&v));
    }
    assert_eq!(CaveInts::Constant(8).sample(&mut r), 8);
    assert_eq!(CaveHeights::Constant(-3).sample(&mut r), -3);
    assert_eq!(FloatProvider::Constant(bits(0.5)).sample(&mut r, &machine), bits(0.5));
}

#[test]
fn legacy_random_has_the_known_sequence() {
    // The first draws of the 48-bit generator seeded with 42.
    let mut r = LegacyRandomSource::new(42);
    assert_eq!(r.next_long(), -5025562857975149833);
    let mut r = LegacyRandomSource::new(42);
    assert_eq!(next_int_bound(&mut r, 10), 0);
    assert_eq!(next_int_bound(&mut r, 10), 3);
    r.set_large_feature_seed(1, 2, 3);
    let mut again = LegacyRandomSource::new(9);
    again.set_large_feature_seed(1, 2, 3);
    assert_eq!(r.seed, again.seed);
}

fn carver_stage() -> CarverStage {
    let cave = CaveCarver {
        probability: bits(0.5),
        y: CaveHeights::Uniform { min: -40, max: 100 },
        count: CaveInts::VeryBiasedToBottom { min: 0, max: 14 },
        thickness: FloatProvider::Uniform { min: bits(1.0), max: bits(2.0) },
        weird_thickness_bias: false,
        room_vertical_radius_multiplier: FloatProvider::Constant(bits(1.0)),
        horizontal_radius_multiplier: FloatProvider::Uniform { min: bits(0.7), max: bits(1.4) },
        vertical_radius_multiplier: FloatProvider::Uniform { min: bits(0.8), max: bits(1.3) },
        start_vertical_radius_multiplier: FloatProvider::Constant(bits(1.0)),
        floor_level: FloatProvider::Uniform { min: bits(-1.0), max: bits(-0.4) },
    };
    CarverStage { carvers: vec![Carver::Cave(cave)], biome_carvers: vec![vec![0], vec![]], seed: 4242, min_y: -64, height: 384, uncarvable: vec![], grass: vec![], dirt: vec![] }
}

#[test]
fn caves_are_carved_from_the_chunks_around() {
    let stage = carver_stage();
    let (lo, hi) = stage.mask_bounds();
    assert!(-64 <= lo && hi <= 319);
    let mask = stage.build_mask(10, -4, &[0u16; 289], &machine);
    assert!(!mask.is_empty());
    let again = stage.build_mask(10, -4, &[0u16; 289], &machine);
    assert_eq!(mask.runs(), again.runs(), "the same chunk is carved the same way");
    let dry = stage.build_mask(10, -4, &[1u16; 289], &machine);
    assert!(dry.is_empty(), "a biome without carvers");
    for (x, z, bottom, top) in mask.runs() {
        assert!(x < 16 && z < 16 && lo <= bottom && bottom <= top && top <= hi);
    }
}

#[test]
fn biome_memory_forgets_the_oldest() {
    let mut cache = CarverBiomeCache::default();
    assert_eq!(cache.get((1, 2)), None);
    cache.insert((1, 2), 7);
    cache.insert((3, 4), 9);
    assert_eq!((cache.get((1, 2)), cache.get((3, 4))), (Some(7), Some(9)));
    for i in 0..CAPACITY as i32 {
        cache.insert((i, -1), 1);
    }
    assert_eq!(cache.get((1, 2)), None);
    assert_eq!(cache.get((5, -1)), Some(1));
}

#[test]
fn bitset_matches_java_semantics() {
    let mut b = BitSet::default();
    assert!(!b.set(5));
    assert!(b.set(5));
    assert!(!b.set(1000));
    assert!(b.set(1000));
    assert!(!b.set(64));
}

#[test]
fn max_radius_matches_vanilla_sizes() {
    assert_eq!(max_radius(17), 2);
    assert_eq!(max_radius(9), 2);
    assert_eq!(max_radius(33), 3);
    assert_eq!(max_radius(64), 5);
    assert_eq!(max_radius(3), 1);
}

#[test]
fn section_packed_reads_and_decodes_on_write() {
    // 4 bits, 16 per long: entries 0..16 in order.
    let raw: Vec<u64> = (0..256).map(|_| (0..16).fold(0u64, |w, i| w | (i as u64) << (4 * i))).collect();
    let palette: Vec<u16> = (100..116).collect();
    let mut s = Section::new(4, raw, palette).unwrap();
    assert_eq!(s.get(0), 100);
    assert_eq!(s.get(15), 115);
    assert_eq!(s.get(4095), 115);
    s.set(15, 7);
    assert_eq!(s.get(15), 7);
    assert_eq!(s.get(14), 114);
    let single = Section::new(0, vec![], vec![42]).unwrap();
    assert_eq!(single.get(4095), 42);
    let global = Section::new(15, vec![1 | 2 << 15 | 3 << 30; 1024], vec![]).unwrap();
    assert_eq!(global.get(0), 1);
    assert_eq!(global.get(1), 2);
    assert_eq!(global.get(2), 3);
    assert_eq!(global.get(4), 1);
}

#[test]
fn region_heights_and_slots() {
    let mut heights = vec![0i64; REGION_CHUNKS * HEIGHT_LONGS];
    // Column (x=3, z=2) of the centre slot 4: index 35, long 5, shift 0.
    heights[4 * HEIGHT_LONGS + 5] = 100;
    let mut r = Region::new(10, -3, -64, 384, &heights).unwrap();
    assert_eq!(r.ocean_floor_height(163, -46), 36);
    assert_eq!(r.ocean_floor_height(160, -48), -64);
    assert_eq!(r.slot_of(160, -48), Some(4));
    assert_eq!(r.slot_of(159, -49), Some(0));
    assert_eq!(r.slot_of(176, -32), Some(8));
    assert_eq!(r.slot_of(143, -48), None);
    assert_eq!(r.get(160, 0, -48), None);
    r.install(4, 4, Section::new(0, vec![], vec![9]).unwrap()).unwrap();
    assert_eq!(r.get(160, 0, -48), Some(9));
    assert_eq!(r.get(160, 16, -48), None);
    r.set(161, 1, -47, 3);
    assert_eq!(r.get(161, 1, -47), Some(u16::MAX - 3));
    assert_eq!(r.writes, vec![Write { slot: 4 | 4 << 4, packed: 1 << 8 | 1 << 4 | 1, state: 3 }]);
}

#[test]
fn sections_and_regions_are_refused_with_a_reason() {
    assert_eq!(Section::new(0, vec![], vec![]).err(), Some(RegionError::PaletteSize));
    assert_eq!(Section::new(17, vec![0; 4096], vec![]).err(), Some(RegionError::Bits));
    assert_eq!(Section::new(4, vec![0; 255], vec![1; 16]).err(), Some(RegionError::Storage));
    assert_eq!(Region::new(0, 0, 0, 16, &[0; 3]).err(), Some(RegionError::Heights));
    let mut r = Region::new(0, 0, 0, 16, &vec![0; REGION_CHUNKS * HEIGHT_LONGS]).unwrap();
    let one = || Section::new(0, vec![], vec![3]).unwrap();
    assert_eq!(r.install(9, 0, one()), Err(RegionError::OutOfRange));
    assert_eq!(r.install(0, 1, one()), Err(RegionError::OutOfRange));
    assert!(r.outside_build_height(16) && !r.outside_build_height(0));
    assert!(r.can_write(-16, 31) && !r.can_write(-17, 0));
}

/// Stone (palette id 1) everywhere, ore (2) replacing it in veins.
fn ore_stage(discard: f32) -> OreStage {
    OreStage {
        placed_ids: vec!["minecraft:ore".to_string()],
        placed: vec![PlacedOre {
            feature: OreFeature {
                targets: vec![Target { rule: RuleTest::Block(1), state: 2 }],
                size: 9,
                discard_chance: bits(discard),
            },
            placement: vec![
                Modifier::Count(OreInts::Constant(4)),
                Modifier::InSquare,
                Modifier::HeightRange(OreHeights::Uniform { min: 4, max: 12 }),
                Modifier::Biome,
            ],
            section_lo: 0,
            section_hi: 1,
        }],
        biome_has: vec![vec![true]],
        state_block: vec![0, 1, 2],
        state_air: vec![true, false, false],
        palette_block: vec![0, 1, 2],
        min_y: 0,
        section_count: 2,
    }
}

#[test]
fn ores_replace_what_their_rule_names() {
    let stage = ore_stage(0.0);
    // The ocean floor lies at 31 everywhere.
    let floors = (0..7).fold(0i64, |w, i| w | 31 << (9 * i));
    let mut region = Region::new(0, 0, 0, 32, &vec![floors; REGION_CHUNKS * HEIGHT_LONGS]).unwrap();
    for slot in 0..9 {
        for section in 0..2 {
            region.install(slot, section, Section::new(0, vec![], vec![1]).unwrap()).unwrap();
        }
    }
    let grid = QuartGrid { min: [-8, 0, -8], size: [20, 8, 20], ids: vec![0; 3200] };
    let batch = OreBatch { seeds: vec![12345, 777], placed: vec![0, 0], grid };
    assert_eq!(stage.plan(&batch), Some((0, 1)));
    assert_eq!(stage.section_count(), 2);
    stage.apply(&batch, &mut region, &machine);
    assert!(!region.writes.is_empty(), "veins were placed");
    assert!(region.writes.iter().all(|w| w.state == 2));
    let mut seen: Vec<(u32, u16)> = region.writes.iter().map(|w| (w.slot, w.packed)).collect();
    seen.sort();
    seen.dedup();
    assert_eq!(seen.len(), region.writes.len(), "no block twice");
    let none = OreBatch { seeds: vec![1], placed: vec![5], grid: QuartGrid { min: [0, 0, 0], size: [1, 1, 1], ids: vec![0] } };
    assert_eq!(stage.plan(&none), None, "no such feature");
}

#[test]
fn rules_test_blocks() {
    assert!(RuleTest::AlwaysTrue.test(5, 0));
    assert!(RuleTest::Tag(vec![false, true]).test(1, 0) && !RuleTest::Tag(vec![false, true]).test(2, 0));
    assert!(RuleTest::Block(7).test(7, 3) && !RuleTest::Block(7).test(8, 3));
}

#[test]
fn ore_providers_draw_inside_their_range() {
    let mut r = WorldgenRandom::from_seed(3);
    for _ in 0..50 {
        assert!((2..=6).contains(&OreInts::Uniform { min: 2, max: 6 }.sample(&mut r)));
        assert!((-5..=20).contains(&OreHeights::Uniform { min: -5, max: 20 }.sample(&mut r)));
        assert!((-5..=20).contains(&OreHeights::Trapezoid { min: -5, max: 20, plateau: 4 }.sample(&mut r)));
        assert!((0..10).contains(&r.next_int_bounded(10)));
        assert!((0.0..1.0).contains(&s(r.next_float(&machine))));
        assert!((0.0..1.0).contains(&d(r.next_double(&machine))));
    }
    assert_eq!(OreHeights::Uniform { min: 3, max: 1 }.bounds(), (3, 3));
    assert_eq!(OreHeights::Trapezoid { min: 3, max: 10, plateau: 1 }.bounds(), (3, 10));
    assert_eq!(OreHeights::Constant(4).bounds(), (4, 4));
}

#[test]
fn parses_header_and_lines() {
    let text = "# seed -5 settings minecraft:overworld min_y -64 height 384 position_seed 0\n\
                erosion 1 2 3 3f800000 1.0\n\
                noise:minecraft:erosion 1 2 3 bf800000 -1.0\n";
    let o = Oracle::parse(text).unwrap();
    assert_eq!(o.header.seed, -5);
    assert_eq!(o.header.height, 384);
    assert_eq!(o.samples.len(), 2);
    assert_eq!(s(o.samples[0].value()), 1.0);
    assert_eq!(o.samples[1].key, "noise:minecraft:erosion");
    assert_eq!(s(o.samples[1].value()), -1.0);
}

#[test]
fn rejects_short_line() {
    let text = "# seed 1 settings x min_y -64 height 384 position_seed 0\nerosion 1 2\n";
    assert!(Oracle::parse(text).is_err());
}

#[test]
fn oracle_errors_name_their_cause() {
    assert_eq!(Oracle::parse("").err(), Some(OracleError::Empty));
    assert_eq!(Oracle::parse("seed 1\n").err(), Some(OracleError::BadHeader));
    let head = "# seed 1 settings x min_y -64 height 384 position_seed 0\n";
    assert_eq!(Oracle::parse(&format!("{head}a 1 2 3 zz 1.0\n")).err(), Some(OracleError::Number));
    assert_eq!(Oracle::parse(&format!("{head}a 1\n")).err(), Some(OracleError::Fields));
    assert_eq!(ChunkOracle::parse("").err(), Some(OracleError::Empty));
    let head = "# seed 9 chunk 3 -4 min_y -64 height 384\n";
    assert_eq!(ChunkOracle::parse(&format!("{head}3f800000 1\n3f800000\n")).err(), Some(OracleError::Substance));
    assert_eq!(ChunkOracle::parse(&format!("{head}aq nothing\n")).err(), Some(OracleError::BadLine));
    assert_eq!(SurfaceOracle::parse("# seed 1 chunk 1 2\n").err(), Some(OracleError::Missing));
}

#[test]
fn chunk_oracles_hold_values_and_waters() {
    let text = "# seed 9 chunk 3 -4 min_y -64 height 384 sea_level 63\n\
                3f800000 1\n\
                bf800000 2\n\
                aq grid -1 -6 -1 3 3 skip 87\n\
                aq cell 4 10 -20 30 none\n\
                aq cell 5 11 -21 31 63 1\n\
                aq surface 4 8 70\n\
                aq probe 4 1 2 3 4 5 a\n";
    let o = ChunkOracle::parse(text).unwrap();
    assert_eq!((o.seed, o.chunk_x, o.chunk_z, o.min_y, o.height, o.sea_level), (9, 3, -4, -64, 384, Some(63)));
    assert_eq!(o.bits, vec![0x3f800000, 0xbf800000]);
    assert_eq!(o.substance, vec![1, 2]);
    assert_eq!(o.aq_grid, Some(([-1, -6, -1], 3, 3, 87)));
    assert_eq!(o.aq_cells, vec![(4, (10, -20, 30), None), (5, (11, -21, 31), Some((63, 1)))]);
    assert_eq!(o.aq_surfaces, vec![(4, 8, 70)]);
    assert_eq!(o.aq_probes, vec![(4, [(1, 2), (3, 4), (5, 10)])]);
}

#[test]
fn surface_oracles_hold_a_chunk() {
    let mut text = String::from(
        "# seed 9 chunk 3 -4 eligible 1 min_y 0 height 1 palette 2 biomes 1 quart_min_y 0 quart_count 1\n\
         palette {\"Name\":\"minecraft:air\"}\npalette stone\nbiome minecraft:plains\nheights 2 1 70 65\nbeard 1 -2 3\n",
    );
    text.push_str("quarts");
    for _ in 0..36 {
        text.push_str(" 0");
    }
    for i in 0..256 {
        text.push_str(&format!("\n{}", i % 2));
    }
    let o = SurfaceOracle::parse(&text).unwrap();
    assert_eq!((o.seed, o.chunk_x, o.chunk_z, o.eligible, o.min_y, o.height), (9, 3, -4, Some(true), 0, 1));
    assert_eq!(o.palette, vec!["{\"Name\":\"minecraft:air\"}", "stone"]);
    assert_eq!(o.biomes, vec!["minecraft:plains"]);
    assert_eq!((o.surface_height[18], o.floor_height[18], o.surface_height[0]), (70, 65, 0));
    assert_eq!(o.beard, Some(vec![1, -2, 3]));
    assert_eq!((o.quarts.len(), o.blocks.len(), o.blocks[3]), (36, 256, 1));
    let short = text.rsplit_once('\n').unwrap().0;
    assert_eq!(SurfaceOracle::parse(short).err(), Some(OracleError::Count));
}

#[test]
fn octaves_skip_zero_modifiers() {
    let one = 1f64.to_bits();
    let p = NoiseParameters26 {
        base_amplitude: one,
        base_octave: -9,
        octave_count: 5,
        normalize: Normalization::Enabled,
        amplitude_modifiers: vec![one, one, 0, one, one],
    };
    let (octaves, factor) = p.compile(&machine);
    assert_eq!(octaves.len(), 4);
    assert_eq!(octaves[2].octave_index, -6);
    assert_eq!(d(octaves[0].frequency), 2f64.powi(-9));
    assert!(d(factor) > 0.0);
    assert_eq!(p.layers(&machine).len(), 8);
}

fn json(text: &str) -> Json {
    Json::parse(text).expect("valid text")
}

#[test]
fn json_text_becomes_a_tree() {
    let v = json("{\"a\": [1, -2.5, true], \"b\": {\"c\": \"h\\u00f6hle\"}, \"d\": null}");
    let a = v.get("a").unwrap().as_array().unwrap();
    assert_eq!(a.len(), 3);
    assert_eq!(a[0].as_integer(), Some(1));
    assert_eq!(a[1].as_double().map(d), Some(-2.5));
    assert_eq!(a[1].as_integer(), None);
    assert_eq!(a[2].as_bool(), Some(true));
    assert_eq!(v.get("b").unwrap().get("c").unwrap().as_str(), Some("h\u{f6}hle"));
    assert!(v.get("nothing").is_none());
    assert!(v.get("b").unwrap().as_str().is_none());
    assert!(Json::parse("{\"a\": }").is_none());
    assert!(v.same(&v.copy()));
    assert!(!v.same(&json("{}")));
}

#[test]
fn noise_parameters_are_read() {
    let p = NoiseParameters26::from_json(&json(
        "{\"base_octave\": -7, \"octave_count\": 4, \"amplitude_modifiers\": [1.0, 1.0, 1.0, 1.0]}",
    ))
    .unwrap();
    assert_eq!((p.base_octave, p.octave_count, p.amplitude_modifiers.len()), (-7, 4, 4));
    assert_eq!(p.layers(&machine).len(), 8);
    assert!(NoiseParameters26::from_json(&json("{}")).is_err());
}

fn world() -> Loader {
    let doc = |kind: &str, id: &str, text: &str| (kind.to_string(), id.to_string(), json(text));
    let settings = "{\"legacy_random_source\": false, \"noise_router\": {\
        \"temperature\": \"minecraft:warmth\", \"vegetation\": 0.1, \"continents\": 0.0, \"erosion\": 0.0, \"depth\": 0.0, \"ridges\": 0.0}}";
    let biomes = "{\"values\": [\
        {\"biome\": \"minecraft:snow\", \"space\": [-10000, -1, -10000, 10000, -10000, 10000, -10000, 10000, -10000, 10000, -10000, 10000, 0]},\
        {\"biome\": \"plains\", \"space\": [0, 10000, -10000, 10000, -10000, 10000, -10000, 10000, -10000, 10000, -10000, 10000, 0]}]}";
    Loader::from_memory(77, vec![
        doc("noise", "minecraft:heat", "{\"base_octave\": -7, \"octave_count\": 2, \"amplitude_modifiers\": [1.0, 1.0]}"),
        doc("density_function", "minecraft:warmth", "{\"type\": \"minecraft:gradient\", \"axis\": \"x\", \"from_coordinate\": -100, \"to_coordinate\": 100, \"from_value\": -1.0, \"to_value\": 1.0}"),
        doc("density_function", "loop", "{\"type\": \"abs\", \"input\": \"minecraft:loop\"}"),
        doc("noise_settings", "minecraft:overworld", settings),
        doc("noise_settings", "minecraft:old", "{\"legacy_random_source\": true, \"noise_router\": {}}"),
        doc("biome_parameters", "minecraft:overworld", biomes),
    ])
}

fn parsed(text: &str) -> Result<f32, LoadError> {
    world().parse(&json(text), &machine).map(|n| s(n.eval(10, 20, 30, Mode::Point, &machine)))
}

#[test]
fn documents_become_functions() {
    assert_eq!(parsed("2.5").ok(), Some(2.5));
    assert_eq!(parsed("\"warmth\"").ok(), Some(-1.0 + 110.0 * (2.0 / 200.0)));
    assert_eq!(parsed("{\"type\": \"sub\", \"left\": 3, \"right\": \"minecraft:warmth\"}").ok(), Some(3.0 - (-1.0 + 110.0 * (2.0 / 200.0))));
    assert_eq!(parsed("{\"type\": \"pow\", \"base\": {\"type\": \"mul\", \"left\": {\"type\": \"abs\", \"input\": -2}, \"right\": {\"type\": \"abs\", \"input\": 1}}, \"exponent\": -2}").ok(), Some(0.25));
    assert_eq!(parsed("{\"type\": \"clamp\", \"input\": 7, \"min\": -1, \"max\": 1}").ok(), Some(1.0));
    assert_eq!(parsed("{\"type\": \"lerp\", \"alpha\": 0.5, \"first\": 2, \"second\": 4}").ok(), Some(3.0));
    let mut loader = world();
    let v = json("{\"type\": \"noise\", \"noise\": \"heat\", \"xz_scale\": 1.0, \"y_scale\": 0.5}");
    let n = loader.parse(&v, &machine).unwrap();
    assert!(matches!(&*n, Node::Noise { stack: 0, .. }));
    assert_eq!(loader.stacks().len(), 1);
    assert!(matches!(&loader.stacks()[0], NoiseOrigin::Named { name, parameters } if name == "minecraft:heat" && parameters.octave_count == 2));
    assert_eq!(loader.noise("minecraft:heat").ok(), Some(0), "read once");
    assert_eq!(loader.seed(), 77);
    assert_eq!(loader.ids_of("noise_settings"), vec!["minecraft:overworld", "minecraft:old"]);
    assert_eq!(full_id("plains"), "minecraft:plains");
    assert_eq!(full_id("a:b"), "a:b");
    assert!(loader.document("noise", "heat").is_ok());
    assert!(loader.noise_settings("old").is_ok());
}

#[test]
fn load_errors_name_their_cause() {
    let err = |text: &str| parsed(text).err();
    assert_eq!(err("true"), Some(LoadError::Unexpected));
    assert_eq!(err("{}"), Some(LoadError::MissingType));
    assert_eq!(err("{\"type\": \"nothing\"}"), Some(LoadError::UnknownType));
    assert_eq!(err("{\"type\": \"abs\"}"), Some(LoadError::MissingField));
    assert_eq!(err("{\"type\": \"constant\", \"argument\": \"x\"}"), Some(LoadError::NotNumber));
    assert_eq!(err("{\"type\": \"noise\"}"), Some(LoadError::NotText));
    assert_eq!(err("{\"type\": \"clamp\", \"input\": 7, \"min\": 1, \"max\": -1}"), Some(LoadError::EmptyClamp));
    let gradient = |axis: &str, tiling: &str, to: i32| {
        err(&format!(
            "{{\"type\": \"gradient\", \"axis\": \"{axis}\", \"tiling\": \"{tiling}\", \"from_coordinate\": 0, \"to_coordinate\": {to}, \"from_value\": 0, \"to_value\": 1}}"
        ))
    };
    assert_eq!(gradient("w", "repeat", 1), Some(LoadError::UnknownAxis));
    assert_eq!(gradient("x", "twice", 1), Some(LoadError::UnknownTiling));
    assert_eq!(gradient("x", "repeat", 0), Some(LoadError::EmptyGradient));
    assert_eq!(gradient("x", "repeat", 8), None);
    assert!(err("\"minecraft:loop\"").is_some(), "a function of itself");
    assert!(err("\"minecraft:nowhere\"").is_some());
    assert_eq!(world().router("minecraft:old", &machine).err(), Some(LoadError::Legacy));
}

#[test]
fn biomes_follow_the_climate() {
    let ids = vec!["minecraft:plains".to_string(), "minecraft:snow".to_string()];
    let stage = BiomeStage::load(&mut world(), &ids, -64, 128, &machine).unwrap();
    assert!(stage.is_sound());
    assert!(stage.is_affordable());
    assert_eq!(stage.biome_at_quart(-10, 0, 0, &machine), Some(1));
    assert_eq!(stage.biome_at_quart(10, 0, 0, &machine), Some(0));
    let chunk = stage.chunk_biomes(-1, 0, &machine).unwrap();
    assert_eq!(chunk.len(), 4 * 4 * 32);
    assert!(chunk.iter().all(|&b| b == 1));
    for z in 0..4 {
        for x in 0..4 {
            let here = chunk[(x + z * 4) * 32 + 5];
            assert_eq!(stage.biome_at_quart(x as i32 - 4, -11, z as i32, &machine), Some(here));
        }
    }
    assert_eq!(BiomeStage::load(&mut world(), &vec![], -64, 128, &machine).err(), Some(LoadError::UnknownBiome));
}

/// An anchor as the tests write it: a number, or one that fails.
fn anchor(j: &Json) -> Option<i32> {
    match j.get("absolute") {
        Some(v) => v.as_integer().map(|n| n as i32),
        None => None,
    }
}

/// A block state spelled by its block alone.
fn spelling(j: &Json) -> Option<String> {
    j.get("id").and_then(|v| v.as_str()).map(|s| format!("{{\"id\":\"{s}\"}}"))
}

fn carved_world(extra: &[(&str, &str, &str)]) -> Loader {
    let cave = "{\"type\": \"cave\", \"probability\": 0.15, \"y\": {\"type\": \"uniform\", \"min_inclusive\": {\"absolute\": -56}, \"max_inclusive\": {\"absolute\": 180}},\
        \"count\": {\"type\": \"very_biased_to_bottom\", \"min_inclusive\": 0, \"max_inclusive\": 14}, \"thickness\": {\"type\": \"minecraft:uniform\", \"min_inclusive\": 1.0, \"max_exclusive\": 2.0},\
        \"weird_thickness_bias\": true, \"room_vertical_radius_multiplier\": 1.0, \"horizontal_radius_multiplier\": 0.7, \"vertical_radius_multiplier\": 0.8, \"floor_level\": -0.7}";
    let canyon = "{\"type\": \"minecraft:canyon\", \"probability\": 0.01, \"y\": {\"absolute\": 20}, \"vertical_rotation\": {\"type\": \"trapezoid\", \"min\": -0.1, \"max\": 0.1, \"plateau\": 0.0},\
        \"shape\": {\"distance_factor\": 0.8, \"thickness\": 2, \"width_smoothness\": 3, \"horizontal_radius_factor\": 0.9, \"vertical_radius_default_factor\": 1.0, \"vertical_radius_center_factor\": 0.0, \"y_scale\": 3.0}}";
    let mut docs = vec![
        ("carver", "minecraft:cave", cave),
        ("carver", "minecraft:canyon", canyon),
        ("biome", "plains", "{\"carvers\": [\"cave\", \"minecraft:canyon\"]}"),
        ("biome", "desert", "{\"carvers\": \"minecraft:canyon\"}"),
        ("biome", "void", "{}"),
    ];
    docs.extend_from_slice(extra);
    Loader::from_memory(1, docs.into_iter().map(|(k, i, b)| (k.to_string(), i.to_string(), json(b))).collect())
}

fn names(l: &[&str]) -> Vec<String> {
    l.iter().map(|s| s.to_string()).collect()
}

#[test]
fn carvers_are_read_once_each() {
    let biomes = names(&["minecraft:plains", "minecraft:desert", "minecraft:void"]);
    let palette = names(&["{\"id\": \"minecraft:bedrock\"}", "{\"id\": \"grass_block\"}", "{\"id\": \"minecraft:dirt\"}"]);
    let stage = CarverStage::load(&carved_world(&[]), &biomes, &palette, 5, -64, 384, &anchor, &machine).ok().expect("carvers");
    assert_eq!(stage.carvers.len(), 2);
    assert_eq!(stage.biome_carvers, vec![vec![0, 1], vec![1], vec![]]);
    assert_eq!((stage.uncarvable.clone(), stage.grass.clone(), stage.dirt.clone()), (
        vec![true, false, false], vec![false, true, false], vec![false, false, true],
    ));
    assert!(stage.is_sound());
    match &stage.carvers[0] {
        Carver::Cave(c) => {
            assert_eq!(s(c.probability), 0.15);
            assert!(matches!(c.y, CaveHeights::Uniform { min: -56, max: 180 }));
            assert!(matches!(c.count, CaveInts::VeryBiasedToBottom { min: 0, max: 14 }));
            assert!(c.weird_thickness_bias);
            assert!(matches!(c.start_vertical_radius_multiplier, FloatProvider::Constant(v) if s(v) == 1.0));
        }
        _ => panic!("a cave was written"),
    }
    assert!(matches!(&stage.carvers[1], Carver::Canyon(c) if c.shape.width_smoothness == 3));
    let tagged = carved_world(&[("block_index", "overworld", "{\"tags\": {\"minecraft:uncarvable\": [\"dirt\"]}}")]);
    let stage = CarverStage::load(&tagged, &biomes, &palette, 5, -64, 384, &anchor, &machine).ok().expect("carvers");
    assert_eq!(stage.uncarvable, vec![false, false, true]);
}

#[test]
fn carver_errors_name_their_cause() {
    let load = |biome: &str, extra: &[(&str, &str, &str)]| {
        CarverStage::load(&carved_world(extra), &names(&[biome]), &vec![], 5, -64, 384, &anchor, &machine).err()
    };
    assert_eq!(load("nowhere", &[]), Some(LoadError::NotProvided));
    assert_eq!(load("odd", &[("biome", "odd", "{\"carvers\": 4}")]), Some(LoadError::Unexpected));
    assert_eq!(load("odd", &[("biome", "odd", "{\"carvers\": [{}]}")]), Some(LoadError::Unsupported));
    assert_eq!(load("odd", &[("biome", "odd", "{\"carvers\": \"lost\"}")]), Some(LoadError::NotProvided));
    let with = |body: &str| load("odd", &[("biome", "odd", "{\"carvers\": \"x\"}"), ("carver", "x", body)]);
    assert_eq!(with("{}"), Some(LoadError::MissingType));
    assert_eq!(with("{\"type\": \"cave\"}"), Some(LoadError::MissingField));
    assert_eq!(with("{\"type\": \"cave\", \"probability\": \"often\"}"), Some(LoadError::NotNumber));
    assert_eq!(with("{\"type\": \"cave\", \"probability\": 1, \"y\": 7}"), Some(LoadError::NotAnchor));
    assert_eq!(with("{\"type\": \"hole\", \"probability\": 1, \"y\": {\"absolute\": 3}}"), Some(LoadError::Unsupported));
    let palette = names(&["stone"]);
    let bad = CarverStage::load(&carved_world(&[]), &vec![], &palette, 5, -64, 384, &anchor, &machine).err();
    assert_eq!(bad, Some(LoadError::NotText));
}

fn ore_world(extra: &[(&str, &str, &str)]) -> Loader {
    let index = "{\"blocks\": [\"minecraft:air\", \"minecraft:stone\", \"minecraft:iron_ore\"], \"states\": [0, 1, 1, 2], \"air\": [0],\
        \"tags\": {\"stones\": [\"minecraft:stone\", \"minecraft:unknown\"]}}";
    let ore = "{\"type\": \"ore\", \"size\": 9, \"discard_chance_on_air_exposure\": 0.5, \"targets\": [\
        {\"target\": {\"predicate_type\": \"all_of\", \"rules\": [{\"predicate_type\": \"tag_match\", \"tag\": \"stones\"}, {\"predicate_type\": \"not\", \"rule\": {\"predicate_type\": \"block_match\", \"block\": \"air\"}}]},\
         \"state\": {\"id\": \"iron_ore\"}}]}";
    let placed = "{\"feature\": \"iron\", \"placement\": [{\"type\": \"count\", \"count\": 10}, {\"type\": \"in_square\"},\
        {\"type\": \"height_range\", \"height\": {\"type\": \"trapezoid\", \"min_inclusive\": {\"absolute\": -24}, \"max_inclusive\": {\"absolute\": 56}}}, {\"type\": \"rarity_filter\", \"chance\": 3}, {\"type\": \"biome\"}]}";
    let mut docs = vec![
        ("block_index", "minecraft:overworld", index),
        ("feature", "iron", ore),
        ("feature", "tree", "{\"type\": \"tree\"}"),
        ("placed_feature", "minecraft:iron_middle", placed),
        ("placed_feature", "minecraft:trees", "{\"feature\": \"tree\"}"),
        ("biome", "plains", "{\"features\": [[], [\"iron_middle\", \"minecraft:trees\"]]}"),
        ("biome", "void", "{\"features\": []}"),
    ];
    docs.extend_from_slice(extra);
    Loader::from_memory(1, docs.into_iter().map(|(k, i, b)| (k.to_string(), i.to_string(), json(b))).collect())
}

#[test]
fn ores_are_read_from_placed_features() {
    let mut palette = names(&["{\"id\":\"minecraft:stone\"}"]);
    let biomes = names(&["minecraft:plains", "minecraft:void"]);
    let stage = OreStage::load(&ore_world(&[]), &mut palette, &biomes, -64, 384, &anchor, &spelling, &machine).ok().expect("ores");
    assert_eq!(stage.placed_ids, vec!["minecraft:iron_middle"]);
    assert_eq!(palette, vec!["{\"id\":\"minecraft:stone\"}", "{\"id\":\"iron_ore\"}"]);
    assert_eq!(stage.biome_has, vec![vec![true], vec![false]]);
    assert_eq!((stage.state_block.clone(), stage.state_air.clone()), (vec![0, 1, 1, 2], vec![true, false, false, false]));
    assert_eq!(stage.palette_block, vec![1, 2]);
    assert_eq!((stage.min_y, stage.section_count()), (-64, 24));
    let ore = &stage.placed[0];
    assert_eq!((ore.feature.size, s(ore.feature.discard_chance), ore.feature.targets[0].state), (9, 0.5, 1));
    assert!(ore.feature.targets[0].rule.test(1, 0) && !ore.feature.targets[0].rule.test(0, 0));
    // -24 - 5 and 56 + 5, from -64 up.
    assert_eq!((ore.section_lo, ore.section_hi), (2, 7));
    assert_eq!(ore.placement.len(), 5);
    assert!(matches!(ore.placement[3], Modifier::Rarity(3)));
    assert!(stage.is_sound());
}

#[test]
fn ore_errors_name_their_cause() {
    let load = |biome: &str, extra: &[(&str, &str, &str)]| {
        OreStage::load(&ore_world(extra), &mut vec![], &names(&[biome]), -64, 384, &anchor, &spelling, &machine).err()
    };
    assert_eq!(load("plains", &[]), None);
    assert_eq!(load("nowhere", &[]), Some(LoadError::NotProvided));
    assert_eq!(load("odd", &[("biome", "odd", "{\"features\": [3]}")]), Some(LoadError::NotList));
    let index = |body: &str| load("plains", &[("block_index", "overworld", body)]);
    assert_eq!(index("{}"), Some(LoadError::NotList));
    assert_eq!(index("{\"blocks\": [4]}"), Some(LoadError::NotText));
    assert_eq!(index("{\"blocks\": [\"a\"], \"states\": [70000]}"), Some(LoadError::NotInteger));
    assert_eq!(index("{\"blocks\": [\"a\"], \"states\": [1]}"), Some(LoadError::OutOfRange));
    assert_eq!(index("{\"blocks\": [\"a\"], \"states\": [0], \"air\": [1]}"), Some(LoadError::OutOfRange));
    assert_eq!(index("{\"blocks\": [\"a\"], \"states\": [0], \"air\": []}"), Some(LoadError::MissingField));
    // An ore that cannot be read is left out.
    let mut palette = vec![];
    let odd = ore_world(&[("feature", "iron", "{\"type\": \"ore\", \"size\": 99, \"targets\": []}")]);
    let stage = OreStage::load(&odd, &mut palette, &vec![], -64, 384, &anchor, &spelling, &machine).ok().expect("ores");
    assert!(stage.placed.is_empty());
}

#[test]
fn calls_cross_the_border_as_numbers() {
    assert_eq!(stage_of(2), Some(Stage::Features));
    assert_eq!((stage_of(-1), stage_of(4), stage_of(300)), (None, None, None));
    assert_eq!(limits_of(-3, 9), Limits { max_features: 1, max_inflight: 9 });
    assert_eq!(ticket_code(Submitted { seq: 21, granted: true }), 43);
    assert_eq!(ticket_code(Submitted { seq: 21, granted: false }), 42);
    assert_eq!(colours_of(&vec![0x7f010203, -1]), vec![[1, 2, 3, 127], [255, 255, 255, 255]]);
    assert_eq!((water_id(12), water_id(-1), water_id(70000)), (12, u16::MAX, u16::MAX));
    assert_eq!(mesh_code(0, Bounds::empty()), 0);
    assert_eq!(mesh_code(64, Bounds { min_y: -2, max_y: 3 }), 64 | 0xfffe << 32 | 3 << 48);
    assert_eq!(indices_of(&vec![0, 65535]), Some(vec![0, 65535]));
    assert_eq!(indices_of(&vec![0, 65536]), None);
    assert_eq!((plan_code(Some((3, 5))), plan_code(None)), (3 | 5 << 16, -1));
    let c = columns_of(&vec![40000; 256], &vec![-1; 256], &vec![300; 256], &vec![7; 256]).unwrap();
    assert_eq!((c.heights[0], c.tops[9], c.depths[255], c.floors[1]), (32767, 0, 255, 7));
    assert!(columns_of(&vec![0; 255], &vec![0; 256], &vec![0; 256], &vec![0; 256]).is_none());
    let docs = documents_of(&names(&["noise"]), &names(&["a"]), &names(&["{\"x\": 1}"])).unwrap();
    assert_eq!((docs[0].0.as_str(), docs[0].1.as_str()), ("noise", "a"));
    assert_eq!(docs[0].2.get("x").and_then(|v| v.as_integer()), Some(1));
    assert!(documents_of(&names(&["noise"]), &names(&["a"]), &names(&["{"])).is_none());
    assert!(documents_of(&names(&["noise"]), &names(&[]), &names(&[])).is_none());
}

#[test]
fn canyons_are_cut_by_chance() {
    let canyon = |probability: f32| CarverStage {
        carvers: vec![Carver::Canyon(CanyonCarver {
            probability: bits(probability),
            y: CaveHeights::Uniform { min: 10, max: 67 },
            vertical_rotation: FloatProvider::Uniform { min: bits(-0.125), max: bits(0.125) },
            shape: CanyonShape {
                distance_factor: FloatProvider::Uniform { min: bits(0.75), max: bits(1.0) },
                thickness: FloatProvider::Trapezoid { min: bits(0.0), max: bits(6.0), plateau: bits(2.0) },
                width_smoothness: 3,
                horizontal_radius_factor: FloatProvider::Uniform { min: bits(0.75), max: bits(1.0) },
                vertical_radius_default_factor: bits(1.0),
                vertical_radius_center_factor: bits(0.0),
                y_scale: FloatProvider::Constant(bits(3.0)),
            },
        })],
        biome_carvers: vec![vec![0]],
        seed: 77,
        min_y: -64,
        height: 384,
        uncarvable: vec![],
        grass: vec![],
        dirt: vec![],
    };
    assert!(canyon(0.1).is_sound());
    let all = canyon(1.0).build_mask(3, 5, &[0u16; 289], &machine);
    assert!(!all.is_empty());
    assert!(canyon(1.0).build_mask(3, 5, &[0u16; 289], &machine).runs() == all.runs());
    let some = canyon(0.1).build_mask(3, 5, &[0u16; 289], &machine);
    for (x, z, bottom, top) in some.runs() {
        for y in bottom..=top {
            assert!(all.get(x as i32, y, z as i32), "what fewer canyons cut, all of them cut");
        }
    }
    assert!(canyon(-1.0).build_mask(3, 5, &[0u16; 289], &machine).is_empty());
    let mut odd = canyon(0.1);
    odd.biome_carvers = vec![vec![4]];
    assert!(!odd.is_sound(), "no such carver");
}

#[test]
fn ellipsoids_carve_what_they_hold() {
    let mut mask = CarvingMask::new(-63, 312);
    let ball = Ellipsoid { x: 8.5f64.to_bits(), y: 40.5f64.to_bits(), z: 8.5f64.to_bits(), wide: 3f64.to_bits(), tall: 2f64.to_bits() };
    ball.carve(&machine, ChunkPos { min_x: 0, min_z: 0 }, &SkipRule::Floor((-0.7f64).to_bits()), &mut mask);
    assert!(mask.get(8, 40, 8) && mask.get(10, 40, 8) && mask.get(8, 41, 8));
    assert!(!mask.get(12, 40, 8) && !mask.get(8, 44, 8), "outside");
    let before = mask.count();
    ball.carve(&machine, ChunkPos { min_x: 0, min_z: 0 }, &SkipRule::Floor((-0.7f64).to_bits()), &mut mask);
    assert_eq!(mask.count(), before, "carving again changes nothing");
    let mut far = CarvingMask::new(-63, 312);
    ball.carve(&machine, ChunkPos { min_x: 160, min_z: 0 }, &SkipRule::Floor((-0.7f64).to_bits()), &mut far);
    assert!(far.is_empty(), "another chunk");
}

#[test]
fn far_climates_are_measured_as_long_as_they_fit() {
    let far = 600_000_000i64;
    let at = |v: i64| [wide(v, v), wide(0, 0), wide(0, 0), wide(0, 0), wide(0, 0), wide(0, 0), wide(0, 0)];
    let tree = ColumnTree::new(&[(at(-far), 1), (at(0), 2), (at(far), 3)]).unwrap();
    let target = [far - 1, 0, 0, 0, 0, 0, 0];
    assert_eq!(tree.value(tree.search(&target, None)), 3);
    let mut col = ColumnSearch::default();
    tree.column(&target, &mut col);
    assert_eq!(tree.value(tree.search_in_column(&mut col, 0, None)), 3);
}

#[test]
fn a_search_without_a_start_needs_a_distance_below_the_largest() {
    // The squares add up to 2^63 - 1.
    let edge = [3037000499i64, 76996, 377, 25, 6, 0, 0];
    assert_eq!(edge.iter().map(|v| (*v as i128) * (*v as i128)).sum::<i128>(), i64::MAX as i128);
    let space = edge.map(|v| wide(v, v));
    let tree = ColumnTree::new(&[(space, 4), (space, 5)]).unwrap();
    assert_eq!(tree.find(&[0; 7], None), None);
    assert_eq!(tree.find(&[0; 7], Some(1)), Some(1));
    assert_eq!(tree.find(&[1, 0, 0, 0, 0, 0, 0], None), Some(0));
    let mut col = ColumnSearch::default();
    tree.column(&[0; 7], &mut col);
    assert_eq!(tree.find_in_column(&mut col, 0, None), None);
    assert_eq!(tree.find_in_column(&mut col, 1, None), Some(0));
}

#[test]
fn boxes_that_cannot_be_cut_are_refused() {
    // Three equal pieces whose sizes add up to 2^63 - 1, wrapped.
    let size = ((i64::MAX as u128) + (2u128 << 64)) / 3;
    assert_eq!((3 * size) as u64, i64::MAX as u64);
    let (a, b) = (size / 2, size - size / 2);
    let across = |w: u128| wide(-((w / 2) as i64), (w - w / 2) as i64);
    let space = [across(a), across(b), wide(0, 0), wide(0, 0), wide(0, 0), wide(0, 0), wide(0, 0)];
    let many: Vec<(Space, u16)> = (0..39).map(|i| (space, i)).collect();
    assert!(matches!(ColumnTree::new(&many), Err(BiomeError::TooWide)));
    assert!(ColumnTree::new(&many[..19]).is_ok());
}

#[test]
fn heights_are_drawn_from_wide_ranges() {
    let mut r = LegacyRandomSource::new(5);
    let deep = -1_000_000_000;
    for _ in 0..200 {
        let v = CaveHeights::Uniform { min: deep, max: 1_000_000_000 }.sample(&mut r);
        assert!((deep..=1_000_000_000).contains(&v));
        let v = CaveHeights::Trapezoid { min: 0, max: 10, plateau: -4 }.sample(&mut r);
        assert!((0..=10).contains(&v));
        let v = CaveHeights::BiasedToBottom { min: deep, max: 1_000_000_000, inner: 7 }.sample(&mut r);
        assert!((deep..1_000_000_000).contains(&v));
        let v = CaveHeights::VeryBiasedToBottom { min: 3, max: 9, inner: 0 }.sample(&mut r);
        assert!((3..=9).contains(&v));
    }
}

#[test]
fn ore_reach_is_computed_in_singles() {
    let reach = |size: i32| ((size as f32 / 16.0 * 2.0 + 1.0) / 2.0).ceil() as i32;
    let mut size = 1i32;
    while size < 0x4000_0000 {
        for near in -40..40 {
            for s in [size + near, -size + near, size + size / 2 + near] {
                assert_eq!(max_radius(s), reach(s), "{}", s);
            }
        }
        size *= 2;
    }
    for s in [0, i32::MAX, i32::MIN, i32::MAX - 63, i32::MAX - 64, i32::MAX - 65, i32::MAX - 191, i32::MAX - 192] {
        assert_eq!(max_radius(s), reach(s), "{}", s);
    }
}

#[test]
fn a_world_of_protected_blocks_has_nothing_to_carve() {
    let stage = CarverStage { min_y: -4, height: 8, ..carver_stage() };
    assert!(stage.is_sound());
    let mask = stage.build_mask(0, 0, &[0u16; 289], &machine);
    assert!(mask.is_empty());
    assert_eq!(mask.runs(), vec![]);
    assert!(!CarverStage { min_y: 0, height: 7, ..carver_stage() }.is_sound());
    assert!(CarverStage { min_y: 2_000_000_000, height: 384, ..carver_stage() }.is_sound());
    assert!(!CarverStage { min_y: i32::MAX - 100, height: 384, ..carver_stage() }.is_sound());
}
