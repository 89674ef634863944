use painite::aquifer26::{
    clamped_map, fill_chunk, grid_x, grid_y, map_range, similarity, Aquifer, AquiferConfig, Fluid, FluidPicker, FluidStatus, Substance,
};
use painite::arith::{interval, Ask};
use painite::beard26::{beard, bury, fast_inv_sqrt, kernel, Adjustment, Beardifier, Junction, Rigid, RADIUS};
use painite::bounds26::{depends_on_y, hull, monotone, times, BoundCtx};
use painite::carverapply::{CarvePalette, CarveStats, Edit};
use painite::carvers26::{CarverStage, CarvingMask};
use painite::df26::{binary, unary, Axis, Binary, Metric, Mode, Node, RoundKind, Spline, Tiling, Unary};
use painite::dfeval::PointCache;
use painite::dfrewrite::{SliceUniformAxes, ALL_AXES, AXIS_X, AXIS_Z};
use painite::fill26::{fill_fused, OverworldShape};
use painite::lod26::ChunkBlocks;
use painite::volume::{floor_div, floor_mod, Volume};
use painite::xoroshiro::{rotate, XoroshiroRandomSource};
use std::sync::Arc;

fn d(bits: u64) -> f64 {
    f64::from_bits(bits)
}

fn s(bits: u32) -> f32 {
    f32::from_bits(bits)
}

fn single(v: f32) -> u64 {
    v.to_bits() as u64
}

/// Arithmetic as the machine does it; noises answer made-up smooth values.
fn machine(ask: Ask) -> u64 {
    match ask {
        Ask::Add64(a, b) => (d(a) + d(b)).to_bits(),
        Ask::Sub64(a, b) => (d(a) - d(b)).to_bits(),
        Ask::Mul64(a, b) => (d(a) * d(b)).to_bits(),
        Ask::Div64(a, b) => (d(a) / d(b)).to_bits(),
        Ask::Min64(a, b) => d(a).min(d(b)).to_bits(),
        Ask::Max64(a, b) => d(a).max(d(b)).to_bits(),
        Ask::Less64(a, b) => (d(a) < d(b)) as u64,
        Ask::LessEq64(a, b) => (d(a) <= d(b)) as u64,
        Ask::Equal64(a, b) => (d(a) == d(b)) as u64,
        Ask::Abs64(a) => d(a).abs().to_bits(),
        Ask::Floor64(a) => d(a).floor().to_bits(),
        Ask::Ceil64(a) => d(a).ceil().to_bits(),
        Ask::Sqrt64(a) => d(a).sqrt().to_bits(),
        Ask::Ln64(a) => d(a).ln().to_bits(),
        Ask::Pow64(a, b) => d(a).powf(d(b)).to_bits(),
        Ask::Exp64(a) => d(a).exp().to_bits(),
        Ask::Powi64(a, n) => d(a).powi(n).to_bits(),
        Ask::Neg64(a) => (-d(a)).to_bits(),
        Ask::FromInt64(i) => (i as f64).to_bits(),
        Ask::FromLong64(i) => (i as f64).to_bits(),
        Ask::ToInt64(a) => (d(a) as i32) as u32 as u64,
        Ask::ToLong64(a) => (d(a) as i64) as u64,
        Ask::Sin64(a) => d(a).sin().to_bits(),
        Ask::Cos64(a) => d(a).cos().to_bits(),
        Ask::Widen(a) => (s(a) as f64).to_bits(),
        Ask::Narrow(a) => single(d(a) as f32),
        Ask::Add32(a, b) => single(s(a) + s(b)),
        Ask::Sub32(a, b) => single(s(a) - s(b)),
        Ask::Mul32(a, b) => single(s(a) * s(b)),
        Ask::Div32(a, b) => single(s(a) / s(b)),
        Ask::Rem32(a, b) => single(s(a) % s(b)),
        Ask::Min32(a, b) => single(s(a).min(s(b))),
        Ask::Max32(a, b) => single(s(a).max(s(b))),
        Ask::Less32(a, b) => (s(a) < s(b)) as u64,
        Ask::LessEq32(a, b) => (s(a) <= s(b)) as u64,
        Ask::Equal32(a, b) => (s(a) == s(b)) as u64,
        Ask::Nan32(a) => s(a).is_nan() as u64,
        Ask::Abs32(a) => single(s(a).abs()),
        Ask::Neg32(a) => single(-s(a)),
        Ask::Signum32(a) => single(s(a).signum()),
        Ask::Sqrt32(a) => single(s(a).sqrt()),
        Ask::Round32(a) => single(s(a).round()),
        Ask::Powi32(a, n) => single(s(a).powi(n)),
        Ask::FromInt32(i) => single(i as f32),
        Ask::ToInt32(a) => (s(a) as i32) as u32 as u64,
        Ask::ToByte32(a) => (s(a) as u8) as u64,
        Ask::ToLong32(a) => (s(a) as i64) as u64,
        Ask::FromLong32(i) => single(i as f32),
        Ask::Noise { noise, x, y, z } => (0.5 * (d(x) * 0.11 + d(y) * 0.07 + d(z) * 0.05 + noise as f64).sin()).to_bits(),
        Ask::Blended { bx, by, bz, .. } => ((bx + 2 * by + 3 * bz) as f64 / 100.0).to_bits(),
        Ask::Island { cx, cz, .. } => ((cx + cz) as f64 / 64.0).to_bits(),
        Ask::Biome { .. } => 0,
        Ask::StackBound(_) => single(2.0),
        Ask::Stack { stack, x, y, z } => single((0.5 * (d(x) * 0.11 + d(y) * 0.07 + d(z) * 0.05 + stack as f64).sin()) as f32),
        Ask::StackBlock { stack, bx, by, bz, xz_scale, y_scale, amplitude } => {
            let v = (bx as f64 * d(xz_scale) * 0.11 + by as f64 * d(y_scale) * 0.07 + bz as f64 * d(xz_scale) * 0.05 + stack as f64).sin();
            single(v as f32 * 0.5 * s(amplitude))
        }
    }
}

fn bits(v: f32) -> u32 {
    v.to_bits()
}

fn c(v: f32) -> Arc<Node> {
    Arc::new(Node::Constant(bits(v)))
}

fn un(op: Unary, input: Arc<Node>) -> Arc<Node> {
    Arc::new(Node::Unary { op, input })
}

fn bin(combine: Binary, left: Arc<Node>, right: Arc<Node>) -> Arc<Node> {
    Arc::new(Node::Binary { combine, left, right })
}

fn eval(n: &Node, x: i32, y: i32, z: i32, mode: Mode) -> f32 {
    s(n.eval(x, y, z, mode, &machine))
}

fn gradient(axis: Axis, from: i32, to: i32, value: f32, factor: f32) -> Node {
    Node::Gradient {
        axis,
        tiling: Tiling::ClampToEdge,
        from_coordinate: from,
        to_coordinate: to,
        from_value: bits(value),
        factor: bits(factor),
    }
}

#[test]
fn gradient_clamp_matches_formula() {
    let g = gradient(Axis::Y, -64, 320, 1.5, (-1.5f32 - 1.5) / 384.0);
    assert_eq!(eval(&g, 0, -64, 0, Mode::Point), 1.5);
    assert_eq!(eval(&g, 0, 320, 0, Mode::Point), -1.5);
    assert_eq!(eval(&g, 0, 1000, 0, Mode::Point), -1.5);
    assert_eq!(eval(&g, 0, 128, 0, Mode::Point), 1.5 + 192.0 * ((-1.5f32 - 1.5) / 384.0));
}

#[test]
fn lerp_short_circuits_at_ends() {
    let n = Node::Lerp { alpha: c(0.0), first: c(2.0), second: un(Unary::Reciprocal, c(0.0)) };
    assert_eq!(eval(&n, 0, 0, 0, Mode::Point), 2.0);
    let n = Node::Lerp { alpha: c(1.0), first: un(Unary::Reciprocal, c(0.0)), second: c(3.0) };
    assert_eq!(eval(&n, 0, 0, 0, Mode::Point), 3.0);
    let n = Node::Lerp { alpha: c(0.25), first: c(0.0), second: c(4.0) };
    assert_eq!(eval(&n, 0, 0, 0, Mode::Point), 1.0);
}

#[test]
fn mul_zero_short_circuit_only_on_point_path() {
    let n = bin(Binary::Mul, c(0.0), un(Unary::Reciprocal, c(0.0)));
    assert_eq!(eval(&n, 0, 0, 0, Mode::Point), 0.0);
    assert!(eval(&n, 0, 0, 0, Mode::Volume).is_nan());
}

#[test]
fn squeeze_and_quarter_negative() {
    let sq = un(Unary::Squeeze, c(2.0));
    assert_eq!(eval(&sq, 0, 0, 0, Mode::Point), 0.5 - 1.0 / 24.0);
    let q = un(Unary::QuarterNegative, c(-2.0));
    assert_eq!(eval(&q, 0, 0, 0, Mode::Point), -0.5);
    let q = un(Unary::QuarterNegative, c(-0.0));
    assert!(eval(&q, 0, 0, 0, Mode::Point).is_sign_negative());
}

#[test]
fn interval_select_strict_upper() {
    let n = Node::IntervalSelect {
        selector: c(0.5), thresholds: vec![bits(-0.5), bits(0.5)], functions: vec![c(1.0), c(2.0), c(3.0)],
    };
    assert_eq!(eval(&n, 0, 0, 0, Mode::Point), 3.0);
    let n = Node::IntervalSelect {
        selector: c(-1.0), thresholds: vec![bits(-0.5), bits(0.5)], functions: vec![c(1.0), c(2.0), c(3.0)],
    };
    assert_eq!(eval(&n, 0, 0, 0, Mode::Point), 1.0);
}

#[test]
fn spline_interval_and_extrapolation() {
    let lerp = |t: f32, a: f32, b: f32| a + t * (b - a);
    let sp = Spline::Multipoint {
        key: 0,
        coordinate: Arc::new(gradient(Axis::Y, 0, 10, 0.0, 0.1)),
        locations: vec![bits(0.0), bits(1.0)],
        values: vec![Spline::Constant(bits(0.0)), Spline::Constant(bits(1.0))],
        derivatives: vec![bits(0.0), bits(2.0)],
    };
    let at = |y: i32| s(sp.sample(0, y, 0, Mode::Point, &mut PointCache::disabled(), &machine));
    assert_eq!(at(5), 0.5 + 0.5 * 0.5 * lerp(0.5, -1.0, -2.0 + 1.0));
    assert_eq!(at(10), 1.0);
    // The interval before the first location, and after the last.
    assert_eq!(interval(&machine, &vec![bits(0.0), bits(1.0)], bits(-1.0)) as i32 - 1, -1);
    assert_eq!(interval(&machine, &vec![bits(0.0), bits(1.0)], bits(5.0)) as i32 - 1, 1);
}

#[test]
fn interpolated_is_exact_on_cell_corners_and_lerps_inside() {
    let g = Arc::new(gradient(Axis::X, 0, 64, 0.0, 1.0));
    let n = Node::Interpolated { cell_size_xz: 4, cell_size_y: 8, corners: g };
    assert_eq!(eval(&n, 8, 0, 0, Mode::Point), 8.0);
    assert_eq!(eval(&n, 9, 3, 2, Mode::Point), 9.0);
}

#[test]
fn find_top_surface_probes_downward() {
    let density = Arc::new(gradient(Axis::Y, 0, 100, 50.0, -1.0));
    let n = Node::FindTopSurface { density, upper_bound: c(100.0), lower_bound: -64, cell_height: 8 };
    assert_eq!(eval(&n, 0, 77, 0, Mode::Point), 48.0);
}

#[test]
fn unary_and_binary_operations_have_exact_values() {
    let u = |op: Unary, v: f32| s(unary(&machine, op, bits(v)));
    assert_eq!(u(Unary::Abs, -2.5), 2.5);
    assert_eq!(u(Unary::Square, 3.0), 9.0);
    assert_eq!(u(Unary::Cube, -2.0), -8.0);
    assert_eq!(u(Unary::HalfNegative, -3.0), -1.5);
    assert_eq!(u(Unary::Negate, 4.0), -4.0);
    assert_eq!(u(Unary::AddConst(bits(2.0)), 4.0), 6.0);
    assert_eq!(u(Unary::ConstMinus(bits(2.0)), 5.0), -3.0);
    assert_eq!(u(Unary::ConstOver(bits(10.0)), 5.0), 2.0);
    assert_eq!(u(Unary::Clamp(bits(-1.0), bits(1.0)), 7.0), 1.0);
    assert_eq!(u(Unary::Round(RoundKind::Floor), -1.5), -2.0);
    assert_eq!(u(Unary::Round(RoundKind::Ceil), -1.5), -1.0);
    assert_eq!(u(Unary::Round(RoundKind::Truncate), -1.5), -1.0);
    let b = |op: Binary, x: f32, y: f32| s(binary(&machine, op, bits(x), bits(y)));
    assert_eq!(b(Binary::Sub, 5.0, 8.0), -3.0);
    assert_eq!(b(Binary::Div, 5.0, 2.0), 2.5);
    assert_eq!(b(Binary::Pow, 2.0, 3.0), 8.0);
    assert_eq!(b(Binary::RoundTo(RoundKind::Floor), 7.5, 2.0), 6.0);
    assert!(b(Binary::Min, f32::NAN, 1.0).is_nan());
    assert!(b(Binary::Max, 1.0, f32::NAN).is_nan());
}

fn noise(stack: usize) -> Arc<Node> {
    Arc::new(Node::Noise {
        stack, xz_scale: 1f64.to_bits(), y_scale: 1f64.to_bits(), shift_x: None, shift_y: None, shift_z: None,
    })
}

fn cell(n: Arc<Node>) -> Arc<Node> {
    Arc::new(Node::Interpolated { cell_size_xz: 4, cell_size_y: 8, corners: n })
}

/// A final density of the overworld's form, with caves near its surface.
fn overworld() -> Arc<Node> {
    let height = Arc::new(gradient(Axis::Y, -64, 320, 1.0, -1.0 / 64.0));
    let main = bin(Binary::Add, height, Arc::new(Node::Cache { id: 3, cached: noise(1) }));
    let ridge = |i: usize| un(Unary::Abs, cell(noise(i)));
    let caves = bin(
        Binary::Add, cell(c(0.05)), un(Unary::MulConst(bits(1.5)), bin(Binary::Max, ridge(2), ridge(3))),
    );
    let noodle = Node::RangeChoice {
        choice: cell(noise(4)),
        min_inclusive: bits(-1_000_000.0),
        max_exclusive: bits(0.0),
        when_in_range: c(64.0),
        when_out_of_range: caves,
    };
    bin(
        Binary::Add, bin(Binary::Min, un(Unary::Squeeze, cell(main)), Arc::new(noodle)), Arc::new(Node::Beardifier),
    )
}

fn waters() -> AquiferConfig {
    AquiferConfig {
        barrier: noise(5),
        floodedness: noise(6),
        spread: noise(7),
        lava: noise(8),
        exclusion: c(-1.0),
        surface_level: c(70.0),
    }
}

fn aquifer(vol: &Volume) -> Aquifer {
    let config = waters();
    assert!(config.is_sound());
    let mut source = XoroshiroRandomSource::from_legacy_seed(99);
    let factory = source.fork_positional();
    Aquifer::new(config, factory, vol, FluidPicker { sea_level: 63, sea_fluid: Fluid::Water }, &machine)
}

#[test]
fn fluid_status_and_picker() {
    let p = FluidPicker { sea_level: 63, sea_fluid: Fluid::Water };
    assert_eq!(p.compute_fluid(0, -60, 0), FluidStatus { level: -54, fluid: Fluid::Lava });
    assert_eq!(p.compute_fluid(0, 10, 0).at(62), Fluid::Water);
    assert_eq!(p.compute_fluid(0, 10, 0).at(63), Fluid::Air);
}

#[test]
fn helpers_match_java() {
    assert_eq!(grid_y(-1), -1);
    assert_eq!(grid_y(-12), -1);
    assert_eq!(grid_y(-13), -2);
    assert_eq!(grid_x(-1), -1);
    let f = |v: f64| v.to_bits();
    assert_eq!(d(similarity(&machine, 100, 144)), -0.76);
    assert_eq!(d(clamped_map(&machine, f(80.0), f(0.0), f(64.0), f(1.0), f(0.0))), 0.0);
    assert_eq!(d(map_range(&machine, f(1.0), f(1.0), f(0.0), f(-0.3), f(0.8))), -0.3);
}

#[test]
fn substances_have_numbers() {
    assert_eq!(Substance::oracle_id(None), 0);
    assert_eq!(Substance::oracle_id(Some(Substance::Air)), 1);
    assert_eq!(Substance::oracle_id(Some(Substance::Water)), 2);
    assert_eq!(Substance::oracle_id(Some(Substance::Lava)), 3);
}

#[test]
fn aquifers_answer_by_density_and_height() {
    let vol = Volume::chunk(0, 0, -64, 384);
    let mut a = aquifer(&vol);
    assert_eq!(a.compute_substance(3, 50, 3, 0.5f64.to_bits(), &machine), None, "solid stays solid");
    let high = a.skip_sampling_above_y(&machine) + 1;
    assert_eq!(a.compute_substance(3, high.max(70), 3, (-0.5f64).to_bits(), &machine), Some(Substance::Air));
    let low = a.compute_substance(3, -60, 3, (-0.5f64).to_bits(), &machine);
    assert_eq!(low, Some(Substance::Lava), "lava lakes at the bottom");
    assert!(!a.update_scheduled());
    assert_eq!(a.counters().deep, 0, "none of these looked at aquifers");
    a.compute_substance(3, 40, 3, (-0.5f64).to_bits(), &machine);
    let first = a.counters();
    assert_eq!(first.deep, 1);
    assert!(first.status_computes >= 1);
    a.compute_substance(3, 40, 3, (-0.5f64).to_bits(), &machine);
    assert_eq!((a.counters().deep, a.counters().status_computes), (2, first.status_computes), "statuses are computed once");
    let probe = a.debug_probe(3, 50, 3, &machine);
    assert_eq!(s(probe[1]), -1.0);
    // The same question has the same answer, whatever was asked before.
    let mut b = aquifer(&vol);
    for y in (-50..60).rev() {
        let first = a.compute_substance(7, y, 9, (-0.01f64).to_bits(), &machine);
        assert_eq!(b.compute_substance(7, y, 9, (-0.01f64).to_bits(), &machine), first);
    }
    for y in -50..60 {
        let again = b.compute_substance(7, y, 9, (-0.01f64).to_bits(), &machine);
        assert_eq!(again, a.compute_substance(7, y, 9, (-0.01f64).to_bits(), &machine));
    }
}

#[test]
fn fused_fill_agrees_with_the_plain_one() {
    let density = overworld();
    let shape = OverworldShape::recognise(&density, &machine).expect("the overworld's form");
    assert_eq!((shape.cell_xz, shape.cell_y), (4, 8));
    let vol = Volume::chunk(1, -2, -64, 192);
    let k = kernel(&machine);
    let (plain, substances) = fill_chunk(&density, &mut aquifer(&vol), &vol, &machine);
    let (fused, kinds, stats) = fill_fused(&shape, &mut aquifer(&vol), &vol, None, &k, true, true, &machine);
    // Where the fluid must be scheduled, the fused fill says so in bit 4.
    assert_eq!(substances, kinds.iter().map(|k| k & 15).collect::<Vec<u8>>());
    assert!(kinds.iter().any(|k| k & 16 != 0));
    assert_eq!(stats.wrong_skip, None);
    assert_eq!((stats.cells, stats.air_cells_skipped, stats.solid_cells_skipped), (4 * 24 * 4, 0, 0));
    assert_eq!((stats.blocks_lerped, stats.corner_rows_skipped), (16 * 192 * 16, 0));
    assert_eq!(stats.aquifer_calls, fused.iter().filter(|d| !(s(**d) > 0.0)).count());
    let (_, quick, fast) = fill_fused(&shape, &mut aquifer(&vol), &vol, None, &k, false, true, &machine);
    assert_eq!(quick, kinds, "shortcuts change no block");
    assert!(fast.solid_cells_skipped > 0 && fast.blocks_lerped < stats.blocks_lerped);
    assert!(kinds.iter().any(|&v| v == 0) && kinds.iter().any(|&v| v == 1) && kinds.iter().any(|&v| v > 1));
    let differ = plain.iter().zip(&fused).filter(|(p, q)| (s(**p) > 0.0) != (s(**q) > 0.0)).count();
    assert_eq!(differ, 0, "solid is solid either way");
    assert!(plain == fused, "bit by bit");
    assert!(OverworldShape::recognise(&c(1.0), &machine).is_none());
}

#[test]
fn caches_change_no_value() {
    let density = overworld();
    let vol = Volume::new([4, 6, 4], [-3, 40, 5], [1, 2, 1]);
    let all = density.sample_volume(&vol, &machine);
    let mut pc = PointCache::new();
    for (i, (x, y, z)) in vol.for_each().into_iter().enumerate() {
        let direct = density.eval(x, y, z, Mode::Volume, &machine);
        assert_eq!(density.eval_with(x, y, z, Mode::Volume, &mut pc, &machine), direct);
        assert!((s(all[i]) - s(direct)).abs() < 1e-5, "at {x} {y} {z}");
        assert_eq!(vol.index_of_block(x, y, z), Some(i));
    }
    assert_eq!(vol.index_of_block(-3, 41, 5), None, "between two rows");
}

#[test]
fn functions_of_fewer_axes_are_sliced() {
    let flat = Arc::new(Node::Noise {
        stack: 1, xz_scale: 1f64.to_bits(), y_scale: 0f64.to_bits(), shift_x: None, shift_y: None, shift_z: None,
    });
    assert_eq!(flat.domain_axes(), AXIS_X | AXIS_Z);
    assert_eq!(c(1.0).domain_axes(), 0);
    let root = bin(Binary::Add, flat, Arc::new(gradient(Axis::Y, 0, 100, 0.0, 0.01)));
    assert_eq!(root.domain_axes(), ALL_AXES);
    let rewritten = SliceUniformAxes::new().rewrite(&root, ALL_AXES);
    let vol = Volume::new([3, 5, 3], [0, 0, 0], [1, 1, 1]);
    assert_eq!(root.sample_volume(&vol, &machine), rewritten.sample_volume(&vol, &machine));
    let sliced = |n: &Node| match n {
        Node::Binary { left, right, .. } => (matches!(**left, Node::Slice { along: Axis::Y, .. }), matches!(**right, Node::Slice { .. })),
        _ => (false, false),
    };
    assert_eq!(sliced(&root), (false, false));
    assert!(sliced(&rewritten).0, "the flat noise is cut along y");
    assert!(rewritten.is_sound());
}

#[test]
fn trees_are_checked_before_use() {
    let torn = Node::IntervalSelect { selector: c(0.0), thresholds: vec![bits(0.0)], functions: vec![c(1.0)] };
    assert!(!torn.is_sound(), "two functions are needed");
    assert!(overworld().is_sound());
    assert!(overworld().is_affordable((16, 384, 16), (1, 1, 1)));
}

#[test]
fn hull_and_mul_cover_sign_changes() {
    let pair = |i: (u32, u32)| (s(i.0), s(i.1));
    let i = |a: f32, b: f32| (bits(a), bits(b));
    assert_eq!(pair(times(&machine, i(-1.0, 2.0), i(-3.0, 0.5))), (-6.0, 3.0));
    assert_eq!(pair(hull(&machine, &vec![bits(1.0), bits(-2.0), bits(0.5)])), (-2.0, 1.0));
    assert_eq!(pair(times(&machine, i(f32::NAN, 1.0), i(1.0, 2.0))), (f32::NEG_INFINITY, f32::INFINITY));
}

#[test]
fn squeeze_bound_is_monotone() {
    let i = monotone(&machine, Unary::Squeeze, (bits(-2.0), bits(0.5)));
    assert_eq!(i.0, unary(&machine, Unary::Squeeze, bits(-1.0)));
    assert_eq!(i.1, unary(&machine, Unary::Squeeze, bits(0.5)));
}

#[test]
fn columns_stay_inside_their_bounds() {
    let n = bin(
        Binary::Min, un(Unary::Squeeze, Arc::new(gradient(Axis::Y, 0, 100, 1.0, -0.02))),
        bin(Binary::Mul, noise(2), c(3.0)),
    );
    assert!(depends_on_y(&n, &machine));
    assert!(!depends_on_y(&c(4.0), &machine));
    let mut ctx = BoundCtx::new();
    for (x, z) in [(0, 0), (5, -9), (100, 44)] {
        ctx.start_column(x, z, 20);
        let (lo, hi) = n.column_bounds(20, 60, &mut ctx, &machine);
        for y in 20..=60 {
            let v = eval(&n, x, y, z, Mode::Volume);
            assert!(s(lo) <= v && v <= s(hi), "{v} outside {} {}", s(lo), s(hi));
        }
    }
}

#[test]
fn math_matches_java() {
    // Bits printed by the same expressions on JDK 25.
    let root = |v: f64| fast_inv_sqrt(&machine, v.to_bits());
    assert_eq!(root(2.0), 0x3fe69f2aee57a7ac);
    assert_eq!(root(0.5), 0x3ff69f2aee57a7ac);
    assert_eq!(root(37.5), 0x3fc4df585eb9dc78);
    assert_eq!(root(1234.25), 0x3f9d257d38739544);
    let k = kernel(&machine);
    let idx = (1 + RADIUS) as usize * 576 + (3 + RADIUS) as usize * 24 + (-2 + RADIUS) as usize;
    assert_eq!(beard(&machine, 3, -2, 1, -2, &k), (f32::from_bits(0x3e9aedda) * s(k[idx])).to_bits());
    assert_eq!(bury(&machine, bits(3.0), bits(-5.0 / 2.0), bits(2.0)), 0x3e8999fe);
}

#[test]
fn kernel_spot_values() {
    // Centre and one corner, (float) Math.pow(Math.E, -d / 16).
    let k = kernel(&machine);
    assert_eq!(k[12 * 576 + 12 * 24 + 12], ((-0.25f64 / 16.0).exp() as f32).to_bits());
    assert_eq!(k[0], ((-(144.0 + 132.25 + 144.0) / 16.0f64).exp() as f32).to_bits());
}

#[test]
fn sparse_walk_matches_dense_sample() {
    let b = Beardifier {
        rigids: vec![
            Rigid { min: [3, 60, -5], max: [12, 68, 4], adjustment: Adjustment::BeardBox, ground_delta: 1 },
            Rigid { min: [-20, 40, 20], max: [-2, 50, 30], adjustment: Adjustment::Bury, ground_delta: 0 },
            Rigid { min: [8, 70, 8], max: [9, 72, 9], adjustment: Adjustment::Encapsulate, ground_delta: 0 },
            Rigid { min: [0, 0, 0], max: [1, 1, 1], adjustment: Adjustment::Nothing, ground_delta: 0 },
        ],
        junctions: vec![Junction { x: 13, ground_y: 61, z: 5 }],
        affected_min: [-44, 16, -29],
        affected_max: [37, 96, 54],
    };
    let vol = Volume::chunk(0, 0, -64, 384);
    let k = kernel(&machine);
    let (buf, reach) = b.sample_volume(&vol, &k, &machine).expect("reaches");
    let mut nonzero = 0;
    for (i, (x, y, z)) in vol.for_each().into_iter().enumerate() {
        assert_eq!(buf[i], b.sample(x, y, z, &k, &machine), "at {x} {y} {z}");
        if s(buf[i]) != 0.0 {
            nonzero += 1;
            let l = [x as usize, (y + 64) as usize, z as usize];
            assert!(reach.touches(l, l));
        }
    }
    assert!(nonzero > 1000, "{nonzero}");
}

#[test]
fn out_of_reach_is_none() {
    let k = kernel(&machine);
    let b = Beardifier::from_flat(&[1, 0, -100, 0, -100, -80, 20, -80, -76, 0, -76, -70, 10, -70, 3, 0]).unwrap();
    assert!(b.sample_volume(&Volume::chunk(0, 0, -64, 384), &k, &machine).is_none());
    assert!(Beardifier::from_flat(&[1, 0, 0, 0, 0, 0, 0, 0]).is_none());
}

#[test]
fn pieces_are_read_in_order() {
    let b = Beardifier::from_flat(&[1, 1, -9, -8, -7, 9, 8, 7, 1, 2, 3, 4, 5, 6, 2, -3, 10, 11, 12]).unwrap();
    assert_eq!((b.affected_min, b.affected_max), ([-9, -8, -7], [9, 8, 7]));
    assert_eq!((b.rigids[0].min, b.rigids[0].max), ([1, 2, 3], [4, 5, 6]));
    assert_eq!((b.rigids[0].adjustment, b.rigids[0].ground_delta), (Adjustment::BeardThin, -3));
    assert_eq!((b.junctions[0].x, b.junctions[0].ground_y, b.junctions[0].z), (10, 11, 12));
    assert!(Beardifier::from_flat(&[1, 0, 0, 0, 0, 0, 0, 0, 0, 0, 0, 0, 0, 0, 9, 0]).is_none(), "no such adjustment");
}

#[test]
fn structures_raise_the_ground() {
    let density = overworld();
    let shape = OverworldShape::recognise(&density, &machine).unwrap();
    let vol = Volume::chunk(0, 0, -64, 192);
    let k = kernel(&machine);
    let b = Beardifier::from_flat(&[1, 0, -12, 100, -12, 28, 130, 28, 0, 110, 0, 15, 118, 15, 4, 0]).unwrap();
    let (bare, _, _) = fill_fused(&shape, &mut aquifer(&vol), &vol, None, &k, false, false, &machine);
    let (built, _, _) = fill_fused(&shape, &mut aquifer(&vol), &vol, Some(&b), &k, false, false, &machine);
    let i = vol.index_of_block(8, 112, 8).unwrap();
    assert!(s(built[i]) > s(bare[i]));
    let far = vol.index_of_block(8, 0, 8).unwrap();
    assert_eq!(built[far], bare[far]);
}

#[test]
fn distances_and_blends() {
    let at = |metric: Metric| eval(&Node::DistanceToPoint { metric, x: 1, y: 2, z: 3 }, 4, 6, 3, Mode::Point);
    assert_eq!(at(Metric::Euclidean), 5.0);
    assert_eq!(at(Metric::EuclideanSquared), 25.0);
    assert_eq!(at(Metric::Manhattan), 7.0);
    assert_eq!(at(Metric::Chebyshev), 4.0);
    assert_eq!(eval(&Node::BlendAlpha, 0, 0, 0, Mode::Point), 1.0);
    assert_eq!(eval(&Node::BlendOffset, 0, 0, 0, Mode::Point), 0.0);
    assert_eq!(eval(&Node::BlendDensity(c(0.5)), 0, 0, 0, Mode::Point), 0.5);
    let r = Node::RangeChoice {
        choice: c(0.0), min_inclusive: bits(0.0), max_exclusive: bits(1.0), when_in_range: c(5.0), when_out_of_range: c(6.0),
    };
    assert_eq!(eval(&r, 0, 0, 0, Mode::Point), 5.0);
    let slice = Node::Slice { along: Axis::X, coordinate: 7, whole: Arc::new(gradient(Axis::X, 0, 64, 0.0, 1.0)) };
    assert_eq!(eval(&slice, 30, 0, 0, Mode::Point), 7.0);
}

#[test]
fn tiled_gradients_repeat_and_mirror() {
    let g = |tiling: Tiling, x: i32| {
        let n = Node::Gradient { axis: Axis::X, tiling, from_coordinate: 0, to_coordinate: 10, from_value: 0, factor: bits(1.0) };
        eval(&n, x, 0, 0, Mode::Point)
    };
    assert_eq!(g(Tiling::ClampToEdge, 13), 10.0);
    assert_eq!(g(Tiling::Repeat, 13), 3.0);
    assert_eq!(g(Tiling::Repeat, -3), 7.0);
    assert_eq!(g(Tiling::MirroredRepeat, 13), 7.0);
}

#[test]
fn volumes_index_along_y_first() {
    let v = Volume::chunk(-1, 2, -64, 384);
    assert_eq!((v.size, v.min, v.step), ([16, 384, 16], [-16, -64, 32], [1, 1, 1]));
    assert_eq!(v.len(), 98304);
    assert_eq!(v.index(1, 5, 2), (1 + 2 * 16) * 384 + 5);
    assert_eq!((v.block(0, 3), v.max_block(1)), (-13, 319));
    assert_eq!((floor_div(-1, 16), floor_mod(-1, 16)), (-1, 15));
    assert!(v.covers_rows(&Volume::new([16, 4, 16], [-16, 0, 32], [1, 1, 1])));
    assert!(!v.covers_rows(&Volume::new([16, 4, 16], [-16, 318, 32], [1, 1, 1])));
    assert!(Volume::new([0, 4, 1], [0, 0, 0], [1, 1, 1]).is_empty());
}

#[test]
fn random_sources_are_repeatable() {
    let mut a = XoroshiroRandomSource::from_legacy_seed(0);
    let mut b = XoroshiroRandomSource::from_legacy_seed(0);
    let first: Vec<u64> = (0..4).map(|_| a.next_long()).collect();
    assert_eq!(first, (0..4).map(|_| b.next_long()).collect::<Vec<u64>>());
    assert_eq!(first[0] as i64, 3038984756725240190);
    for bound in [1, 2, 7, 100, 65536] {
        assert!(a.next_int_bounded(bound) < bound);
    }
    let f = a.fork_positional();
    assert_eq!(f.at(1, 2, 3).next_long(), f.at(1, 2, 3).next_long());
    assert_ne!(f.at(1, 2, 3).next_long(), f.at(3, 2, 1).next_long());
    assert_eq!(rotate(1, 63), 1 << 63);
}

#[test]
fn carving_hollows_out_and_covers_dirt_again() {
    // Air, stone, water, lava, grass, dirt, bedrock.
    let palette = CarvePalette { air: 0, water: 2, lava: 3, fluid: vec![false, false, true, true, false, false, false] };
    let stage = CarverStage {
        carvers: vec![],
        biome_carvers: vec![],
        seed: 1,
        min_y: -64,
        height: 384,
        uncarvable: vec![false, false, false, false, false, false, true],
        grass: vec![false, false, false, false, true, false, false],
        dirt: vec![false, false, false, false, false, true, false],
    };
    let vol = Volume::chunk(0, 0, -64, 384);
    let mut a = aquifer(&vol);
    let h = (a.skip_sampling_above_y(&machine) + 1).max(70);
    let at = |x: usize, y: i32, z: usize| vol.index(x, (y + 64) as usize, z);
    let mut ids = vec![1u16; 16 * 384 * 16];
    ids[at(2, h + 3, 2)] = 4;
    ids[at(2, h + 2, 2)] = 5;
    ids[at(2, h + 1, 2)] = 5;
    ids[at(5, h, 5)] = 6;
    let plain = ids.clone();
    let mut chunk = ChunkBlocks { vol, surface_height: vec![h; 256], ids };
    let mut mask = CarvingMask::new(-63, 312);
    mask.carve(2, h + 3, 2);
    mask.carve(2, h + 2, 2);
    mask.carve(5, h, 5);
    mask.carve(7, -60, 7);
    let grass = |edits: &Vec<Edit>, _x: usize, _y: i32, _z: usize, fluid: bool| {
        if fluid || edits.is_empty() { None } else { Some(4u16) }
    };
    let (stats, edits) = stage.apply(&mut chunk, &palette, &mask, &mut a, &grass, &machine);
    assert_eq!(stats, CarveStats { aquifer_calls: 3, carved: 3, top_material_calls: 2 });
    assert_eq!(edits, vec![
        Edit::Carve { x: 2, y: h + 3, z: 2, id: 0 },
        Edit::Top { x: 2, y: h + 2, z: 2, id: 4 },
        Edit::Carve { x: 2, y: h + 2, z: 2, id: 0 },
        Edit::Top { x: 2, y: h + 1, z: 2, id: 4 },
        Edit::Carve { x: 7, y: -60, z: 7, id: 3 },
    ]);
    let mut expected = plain.clone();
    expected[at(2, h + 3, 2)] = 0;
    expected[at(2, h + 2, 2)] = 0;
    expected[at(2, h + 1, 2)] = 4;
    expected[at(7, -60, 7)] = 3;
    assert!(chunk.ids == expected, "bedrock stays, and so does what the mask leaves out");
    // No grass was met, so the dirt stays bare; an empty mask does nothing.
    let mut bare = ChunkBlocks { vol, surface_height: vec![h; 256], ids: plain.clone() };
    let mut low = CarvingMask::new(-63, 312);
    low.carve(2, h + 2, 2);
    let (stats, _) = stage.apply(&mut bare, &palette, &low, &mut a, &grass, &machine);
    assert_eq!((stats.carved, stats.top_material_calls), (1, 0));
    assert_eq!(bare.ids[at(2, h + 1, 2)], 5);
    let mut same = ChunkBlocks { vol, surface_height: vec![h; 256], ids: plain.clone() };
    let (stats, edits) = stage.apply(&mut same, &palette, &CarvingMask::new(-63, 312), &mut a, &grass, &machine);
    assert!(same.ids == plain && edits.is_empty());
    assert_eq!(stats, CarveStats { aquifer_calls: 0, carved: 0, top_material_calls: 0 });
}

#[test]
fn carved_fluids_are_marked_where_the_aquifer_says_so() {
    let palette = CarvePalette { air: 0, water: 2, lava: 3, fluid: vec![false, false, true, true] };
    let stage = CarverStage {
        carvers: vec![],
        biome_carvers: vec![],
        seed: 1,
        min_y: -64,
        height: 384,
        uncarvable: vec![false; 4],
        grass: vec![false; 4],
        dirt: vec![false; 4],
    };
    let vol = Volume::chunk(0, 0, -64, 384);
    let mut chunk = ChunkBlocks { vol, surface_height: vec![0; 256], ids: vec![1u16; 16 * 384 * 16] };
    let mut mask = CarvingMask::new(-63, 312);
    for x in 0..16 {
        for z in 0..16 {
            for y in -55..60 {
                mask.carve(x, y, z);
            }
        }
    }
    let (mut a, mut b) = (aquifer(&vol), aquifer(&vol));
    let bare = |_edits: &Vec<Edit>, _x: usize, _y: i32, _z: usize, _fluid: bool| -> Option<u16> { None };
    let (stats, edits) = stage.apply(&mut chunk, &palette, &mask, &mut a, &bare, &machine);
    let mut expected = Vec::new();
    for (x, z, bottom, top) in mask.runs() {
        for y in (bottom..=top).rev() {
            let id = match b.compute_substance(x as i32, y, z as i32, 0, &machine) {
                None => continue,
                Some(Substance::Air) => 0,
                Some(Substance::Water) => 2,
                Some(Substance::Lava) => 3,
            };
            expected.push(Edit::Carve { x, y, z, id });
            if b.update_scheduled() && id != 0 {
                expected.push(Edit::Mark { x, y, z });
            }
        }
    }
    assert_eq!(stats.aquifer_calls, 16 * 16 * 115);
    assert!(edits == expected);
}

/// The overworld's form with another toggle, and noodles only at some
/// heights.
fn toggled(toggle: Arc<Node>) -> Arc<Node> {
    let height = Arc::new(gradient(Axis::Y, -64, 320, 1.0, -1.0 / 64.0));
    let main = bin(Binary::Add, height, noise(1));
    let low = |i: usize| Arc::new(Node::RangeChoice {
        choice: Arc::new(gradient(Axis::Y, -64, 320, -64.0, 1.0)),
        min_inclusive: bits(-60.0),
        max_exclusive: bits(30.0),
        when_in_range: Arc::new(Node::Cache { id: i, cached: noise(i) }),
        when_out_of_range: c(0.0),
    });
    let ridge = |i: usize| un(Unary::Abs, cell(low(i)));
    let caves = bin(
        Binary::Add, cell(c(0.05)), un(Unary::MulConst(bits(1.5)), bin(Binary::Max, ridge(12), ridge(13))),
    );
    let noodle = Node::RangeChoice {
        choice: cell(toggle),
        min_inclusive: bits(-1_000_000.0),
        max_exclusive: bits(0.0),
        when_in_range: c(64.0),
        when_out_of_range: caves,
    };
    bin(
        Binary::Add, bin(Binary::Min, un(Unary::Squeeze, cell(main)), Arc::new(noodle)), Arc::new(Node::Beardifier),
    )
}

#[test]
fn fused_fills_agree_where_whole_rows_are_noodles() {
    let vol = Volume::chunk(2, 3, -64, 192);
    let k = kernel(&machine);
    // Noodles nowhere, everywhere, above a height, and by chance.
    for toggle in [c(1.0), c(-1.0), Arc::new(gradient(Axis::Y, -64, 320, 0.5, -1.0 / 64.0)), noise(4)] {
        let density = toggled(toggle);
        let shape = OverworldShape::recognise(&density, &machine).expect("the overworld's form");
        let (plain, substances) = fill_chunk(&density, &mut aquifer(&vol), &vol, &machine);
        let (fused, kinds, _) = fill_fused(&shape, &mut aquifer(&vol), &vol, None, &k, true, true, &machine);
        assert!(plain == fused, "bit by bit");
        assert_eq!(substances, kinds.iter().map(|k| k & !16).collect::<Vec<u8>>());
        assert!(kinds.iter().all(|k| k & 16 == 0 || k & 15 >= 2));
    }
}

#[test]
fn branches_by_rows_have_the_values_of_the_whole() {
    let vol = Volume::new([4, 70, 3], [5, -13, 9], [1, 1, 1]);
    let branch = bin(Binary::Add, cell(noise(2)), Arc::new(Node::Cache { id: 9, cached: noise(3) }));
    let whole = branch.sample_volume(&vol, &machine);
    // Taken in two bands of rows, apart from each other.
    let height = || Arc::new(gradient(Axis::Y, -64, 320, -64.0, 1.0));
    let band = |lo: f32, hi: f32, otherwise: Arc<Node>| Arc::new(Node::RangeChoice {
        choice: height(), min_inclusive: bits(lo), max_exclusive: bits(hi), when_in_range: branch.clone(), when_out_of_range: otherwise,
    });
    let mixed = band(-9.0, 2.0, band(31.0, 44.0, c(7.0))).sample_volume(&vol, &machine);
    for (i, (_, y, _)) in vol.for_each().into_iter().enumerate() {
        let inside = (-9..2).contains(&y) || (31..44).contains(&y);
        assert_eq!(mixed[i], if inside { whole[i] } else { bits(7.0) }, "row {y}");
    }
}

#[test]
fn splines_and_mixes_have_one_value_per_block() {
    let height: Arc<Node> = Arc::new(gradient(Axis::Y, -64, 320, -64.0, 1.0));
    let across = un(Unary::Abs, noise(4));
    let spline = Arc::new(Node::Spline(Spline::Multipoint {
        key: 1,
        coordinate: across.clone(),
        locations: vec![bits(0.1), bits(0.3)],
        values: vec![
            Spline::Constant(bits(2.0)),
            Spline::Multipoint {
                key: 2,
                coordinate: height.clone(),
                locations: vec![bits(0.0), bits(8.0)],
                values: vec![Spline::Constant(bits(-1.0)), Spline::Constant(bits(3.0))],
                derivatives: vec![bits(0.5), bits(0.0)],
            },
        ],
        derivatives: vec![bits(0.0), bits(1.0)],
    }));
    let share = un(Unary::Clamp(bits(0.0), bits(1.0)), bin(Binary::Mul, height, c(0.1)));
    let mix = Node::Lerp { alpha: share, first: spline.clone(), second: un(Unary::Negate, spline) };
    let vol = Volume::new([4, 20, 3], [-7, -5, 12], [1, 1, 1]);
    let whole = mix.sample_volume(&vol, &machine);
    for (i, (x, y, z)) in vol.for_each().into_iter().enumerate() {
        let one = Volume::new([1, 1, 1], [x, y, z], [1, 1, 1]);
        assert_eq!(mix.sample_volume(&one, &machine), vec![whole[i]], "{x} {y} {z}");
    }
    let root = Arc::new(mix);
    let sliced = SliceUniformAxes::new().rewrite(&root, ALL_AXES);
    assert_eq!(sliced.sample_volume(&vol, &machine), whole);
}

#[test]
fn mixes_from_one_value_stay_inside_their_bounds() {
    let share = un(Unary::Clamp(bits(0.0), bits(0.9)), Arc::new(gradient(Axis::Y, 0, 100, -0.2, 0.02)));
    let mix = Node::Lerp { alpha: share, first: c(-0.75), second: bin(Binary::Mul, noise(3), c(5.0)) };
    let mut ctx = BoundCtx::new();
    for (x, z) in [(0, 0), (7, -3), (-41, 88)] {
        ctx.start_column(x, z, 10);
        let (lo, hi) = mix.column_bounds(10, 40, &mut ctx, &machine);
        for y in 10..=40 {
            for mode in [Mode::Point, Mode::Volume] {
                let v = eval(&mix, x, y, z, mode);
                assert!(s(lo) <= v && v <= s(hi), "{v} outside {} {}", s(lo), s(hi));
            }
        }
    }
}
