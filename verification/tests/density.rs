use painite::arith::Ask;
use painite::bytecode::{parse_bytecode, ParseError};
use painite::density::{
    CornerGrid, DensityFunction, DfSpline, FunctionContext, LazyBlendedNoise, LazyEndIsland, MarkerKind, RarityValueMapper, WorldgenState,
};
use painite::opcode;

fn d(bits: u64) -> f64 {
    f64::from_bits(bits)
}

fn s(bits: u32) -> f32 {
    f32::from_bits(bits)
}

fn single(v: f32) -> u64 {
    v.to_bits() as u64
}

/// Arithmetic as the machine does it; noises answer made-up smooth values.
fn machine(ask: Ask) -> u64 {
    match ask {
        Ask::Add64(a, b) => (d(a) + d(b)).to_bits(),
        Ask::Sub64(a, b) => (d(a) - d(b)).to_bits(),
        Ask::Mul64(a, b) => (d(a) * d(b)).to_bits(),
        Ask::Div64(a, b) => (d(a) / d(b)).to_bits(),
        Ask::Min64(a, b) => d(a).min(d(b)).to_bits(),
        Ask::Max64(a, b) => d(a).max(d(b)).to_bits(),
        Ask::Less64(a, b) => (d(a) < d(b)) as u64,
        Ask::LessEq64(a, b) => (d(a) <= d(b)) as u64,
        Ask::Equal64(a, b) => (d(a) == d(b)) as u64,
        Ask::Abs64(a) => d(a).abs().to_bits(),
        Ask::Floor64(a) => d(a).floor().to_bits(),
        Ask::Ceil64(a) => d(a).ceil().to_bits(),
        Ask::Sqrt64(a) => d(a).sqrt().to_bits(),
        Ask::Ln64(a) => d(a).ln().to_bits(),
        Ask::Pow64(a, b) => d(a).powf(d(b)).to_bits(),
        Ask::Exp64(a) => d(a).exp().to_bits(),
        Ask::Powi64(a, n) => d(a).powi(n).to_bits(),
        Ask::Neg64(a) => (-d(a)).to_bits(),
        Ask::FromInt64(i) => (i as f64).to_bits(),
        Ask::FromLong64(i) => (i as f64).to_bits(),
        Ask::ToInt64(a) => (d(a) as i32) as u32 as u64,
        Ask::ToLong64(a) => (d(a) as i64) as u64,
        Ask::Sin64(a) => d(a).sin().to_bits(),
        Ask::Cos64(a) => d(a).cos().to_bits(),
        Ask::Widen(a) => (s(a) as f64).to_bits(),
        Ask::Narrow(a) => single(d(a) as f32),
        Ask::Add32(a, b) => single(s(a) + s(b)),
        Ask::Sub32(a, b) => single(s(a) - s(b)),
        Ask::Mul32(a, b) => single(s(a) * s(b)),
        Ask::Div32(a, b) => single(s(a) / s(b)),
        Ask::Rem32(a, b) => single(s(a) % s(b)),
        Ask::Min32(a, b) => single(s(a).min(s(b))),
        Ask::Max32(a, b) => single(s(a).max(s(b))),
        Ask::Less32(a, b) => (s(a) < s(b)) as u64,
        Ask::LessEq32(a, b) => (s(a) <= s(b)) as u64,
        Ask::Equal32(a, b) => (s(a) == s(b)) as u64,
        Ask::Nan32(a) => s(a).is_nan() as u64,
        Ask::Abs32(a) => single(s(a).abs()),
        Ask::Neg32(a) => single(-s(a)),
        Ask::Signum32(a) => single(s(a).signum()),
        Ask::Sqrt32(a) => single(s(a).sqrt()),
        Ask::Round32(a) => single(s(a).round()),
        Ask::Powi32(a, n) => single(s(a).powi(n)),
        Ask::FromInt32(i) => single(i as f32),
        Ask::ToInt32(a) => (s(a) as i32) as u32 as u64,
        Ask::ToByte32(a) => (s(a) as u8) as u64,
        Ask::ToLong32(a) => (s(a) as i64) as u64,
        Ask::FromLong32(i) => single(i as f32),
        Ask::Noise { noise, x, y, z } => (0.5 * (d(x) * 0.11 + d(y) * 0.07 + d(z) * 0.05 + noise as f64).sin()).to_bits(),
        Ask::Blended { bx, by, bz, .. } => ((bx + 2 * by + 3 * bz) as f64 / 100.0).to_bits(),
        Ask::Island { cx, cz, .. } => ((cx + cz) as f64 / 64.0).to_bits(),
        Ask::Biome { .. } => 0,
        Ask::StackBound(_) => single(2.0),
        Ask::Stack { stack, x, y, z } => single((0.5 * (d(x) * 0.11 + d(y) * 0.07 + d(z) * 0.05 + stack as f64).sin()) as f32),
        Ask::StackBlock { stack, bx, by, bz, xz_scale, y_scale, amplitude } => {
            let v = (bx as f64 * d(xz_scale) * 0.11 + by as f64 * d(y_scale) * 0.07 + bz as f64 * d(xz_scale) * 0.05 + stack as f64).sin();
            single(v as f32 * 0.5 * s(amplitude))
        }
    }
}

fn double_bits(v: f64) -> u64 {
    v.to_bits()
}

fn single_bits(v: f32) -> u32 {
    v.to_bits()
}

fn constant(v: f64) -> DensityFunction {
    DensityFunction::Constant(double_bits(v))
}

/// The value of the first registered noise at a point.
fn registered(x: f64, y: f64, z: f64) -> f64 {
    d(machine(Ask::Noise { noise: 0, x: double_bits(x), y: double_bits(y), z: double_bits(z) }))
}

fn rarity(mapper: RarityValueMapper, v: f64) -> f64 {
    d(mapper.apply(double_bits(v), &machine))
}

/// A function's numbers.
trait Values {
    fn value(&self, ctx: &FunctionContext, state: &WorldgenState) -> f64;
    fn low(&self) -> f64;
    fn high(&self) -> f64;
}

impl Values for DensityFunction {
    fn value(&self, ctx: &FunctionContext, state: &WorldgenState) -> f64 {
        d(self.compute(ctx, state, &machine))
    }

    fn low(&self) -> f64 {
        d(self.min_value(&machine))
    }

    fn high(&self) -> f64 {
        d(self.max_value(&machine))
    }
}

/// A spline's numbers.
trait Heights {
    fn height(&self, ctx: &FunctionContext, state: &WorldgenState) -> f32;
    fn lowest(&self) -> f32;
    fn highest(&self) -> f32;
}

impl Heights for DfSpline {
    fn height(&self, ctx: &FunctionContext, state: &WorldgenState) -> f32 {
        s(self.apply(ctx, state, &machine))
    }

    fn lowest(&self) -> f32 {
        s(self.min_value_of())
    }

    fn highest(&self) -> f32 {
        s(self.max_value_of())
    }
}

fn empty_state() -> WorldgenState {
    WorldgenState { seed: 42, noises: vec![] }
}

fn ctx(x: i32, y: i32, z: i32) -> FunctionContext {
    FunctionContext::new(x, y, z)
}

#[test]
fn constant_returns_value() {
    let df = constant(3.14);
    assert_eq!(df.value(&ctx(0, 0, 0), &empty_state()), 3.14);
    assert_eq!(df.low(), 3.14);
    assert_eq!(df.high(), 3.14);
}

#[test]
fn add_of_constants() {
    let df = DensityFunction::Add(
        Box::new(constant(3.0)),
        Box::new(constant(4.0)),
    );
    assert_eq!(df.value(&ctx(0, 0, 0), &empty_state()), 7.0);
    assert_eq!(df.low(), 7.0);
    assert_eq!(df.high(), 7.0);
}

#[test]
fn mul_short_circuits_on_zero() {
    // Second operand: unresolved noise → would return 0.0 normally,
    // but Mul must not evaluate it when first is already 0. We can't
    // directly observe the short-circuit; just verify correctness.
    let df = DensityFunction::Mul(
        Box::new(constant(0.0)),
        Box::new(constant(999.0)),
    );
    assert_eq!(df.value(&ctx(0, 0, 0), &empty_state()), 0.0);
}

#[test]
fn min_max_take_extremes() {
    let df_min = DensityFunction::Min(
        Box::new(constant(3.0)),
        Box::new(constant(7.0)),
    );
    let df_max = DensityFunction::Max(
        Box::new(constant(3.0)),
        Box::new(constant(7.0)),
    );
    assert_eq!(df_min.value(&ctx(0, 0, 0), &empty_state()), 3.0);
    assert_eq!(df_max.value(&ctx(0, 0, 0), &empty_state()), 7.0);
}

#[test]
fn mapped_abs_square_cube() {
    let input = |v: f64| constant(v);
    let state = empty_state();
    let c = ctx(0, 0, 0);
    assert_eq!(DensityFunction::Abs(Box::new(input(-5.0))).value(&c, &state), 5.0);
    assert_eq!(DensityFunction::Square(Box::new(input(4.0))).value(&c, &state), 16.0);
    assert_eq!(DensityFunction::Cube(Box::new(input(-2.0))).value(&c, &state), -8.0);
}

#[test]
fn half_quarter_negative() {
    let state = empty_state();
    let c = ctx(0, 0, 0);
    // Positive passes through.
    assert_eq!(DensityFunction::HalfNegative(Box::new(constant(4.0)))
        .value(&c, &state), 4.0);
    assert_eq!(DensityFunction::QuarterNegative(Box::new(constant(4.0)))
        .value(&c, &state), 4.0);
    // Negative is attenuated.
    assert_eq!(DensityFunction::HalfNegative(Box::new(constant(-4.0)))
        .value(&c, &state), -2.0);
    assert_eq!(DensityFunction::QuarterNegative(Box::new(constant(-4.0)))
        .value(&c, &state), -1.0);
}

#[test]
fn invert_and_squeeze() {
    let state = empty_state();
    let c = ctx(0, 0, 0);
    assert_eq!(DensityFunction::Invert(Box::new(constant(4.0)))
        .value(&c, &state), 0.25);
    // Squeeze at c=1: 1/2 - 1/24 = 11/24 ≈ 0.4583333...
    let at_one = DensityFunction::Squeeze(Box::new(constant(1.0)))
        .value(&c, &state);
    assert!((at_one - 11.0 / 24.0).abs() < 1e-12);
    // Squeeze at c=0 is 0.
    assert_eq!(DensityFunction::Squeeze(Box::new(constant(0.0)))
        .value(&c, &state), 0.0);
    // Squeeze saturates: input=5 gets clamped to 1 first, then 11/24.
    let saturated = DensityFunction::Squeeze(Box::new(constant(5.0)))
        .value(&c, &state);
    assert!((saturated - 11.0 / 24.0).abs() < 1e-12);
}

#[test]
fn clamp_saturates_at_bounds() {
    let state = empty_state();
    let c = ctx(0, 0, 0);
    let build = |v: f64| DensityFunction::Clamp {
        input: Box::new(constant(v)),
        min: double_bits(-1.0), max: double_bits(1.0),
    };
    assert_eq!(build(-5.0).value(&c, &state), -1.0);
    assert_eq!(build(0.5).value(&c, &state), 0.5);
    assert_eq!(build(5.0).value(&c, &state), 1.0);
}

#[test]
fn y_clamped_gradient_lerps_in_range() {
    let state = empty_state();
    let df = DensityFunction::YClampedGradient {
        from_y: 0, to_y: 100,
        from_value: double_bits(10.0), to_value: double_bits(20.0),
    };
    // At y=0 → fromValue.
    assert_eq!(df.value(&ctx(0, 0, 0), &state), 10.0);
    // At y=100 → toValue.
    assert_eq!(df.value(&ctx(0, 100, 0), &state), 20.0);
    // Midway → 15.
    assert_eq!(df.value(&ctx(0, 50, 0), &state), 15.0);
    // Below from → saturates at fromValue.
    assert_eq!(df.value(&ctx(0, -50, 0), &state), 10.0);
    // Above to → saturates at toValue.
    assert_eq!(df.value(&ctx(0, 200, 0), &state), 20.0);
}

#[test]
fn range_choice_dispatches_by_input() {
    let state = empty_state();
    let c = ctx(0, 0, 0);
    let build = |v: f64| DensityFunction::RangeChoice {
        input: Box::new(constant(v)),
        min_inclusive: double_bits(0.0), max_exclusive: double_bits(10.0),
        when_in_range: Box::new(constant(111.0)),
        when_out_of_range: Box::new(constant(999.0)),
    };
    assert_eq!(build(-1.0).value(&c, &state), 999.0); // below
    assert_eq!(build(0.0).value(&c, &state), 111.0);  // min_inclusive
    assert_eq!(build(5.0).value(&c, &state), 111.0);  // inside
    assert_eq!(build(10.0).value(&c, &state), 999.0); // max_exclusive (out)
    assert_eq!(build(99.0).value(&c, &state), 999.0); // far above
}

#[test]
fn marker_is_passthrough() {
    let state = empty_state();
    let df = DensityFunction::Marker {
        kind: MarkerKind::FlatCache,
        wrapped: Box::new(constant(42.0)),
    };
    assert_eq!(df.value(&ctx(0, 0, 0), &state), 42.0);
}

#[test]
fn noise_missing_returns_zero() {
    let state = empty_state(); // noises map is empty
    let df = DensityFunction::Noise {
        noise_name: "minecraft:does_not_exist".to_string(),
        xz_scale: double_bits(1.0), y_scale: double_bits(1.0),
    };
    assert_eq!(df.value(&ctx(123, 64, -45), &state), 0.0);
}

#[test]
fn noise_uses_registered_sampler() {
    // Sample independently to have a reference value.
    let expected = registered(100.0 * 0.5, 64.0 * 0.25, -45.0 * 0.5);
    let state = WorldgenState { seed: 7, noises: vec!["minecraft:test_noise".to_string()] };
    let df = DensityFunction::Noise {
        noise_name: "minecraft:test_noise".to_string(),
        xz_scale: double_bits(0.5), y_scale: double_bits(0.25),
    };
    let got = df.value(&ctx(100, 64, -45), &state);
    assert_eq!(got, expected);
}

/// Composed tree: square(add(y_gradient, const)).
#[test]
fn composed_tree() {
    let state = empty_state();
    let df = DensityFunction::Square(Box::new(
        DensityFunction::Add(
            Box::new(DensityFunction::YClampedGradient {
                from_y: 0, to_y: 10,
                from_value: double_bits(0.0), to_value: double_bits(3.0),
            }),
            Box::new(constant(1.0)),
        ),
    ));
    // At y=5: gradient = 1.5, +1 = 2.5, squared = 6.25.
    assert_eq!(df.value(&ctx(0, 5, 0), &state), 6.25);
}

/// Rarity mapper step functions at the boundary values.
#[test]
fn rarity_mapper_step_functions() {
    // Type1 (3D): {< -0.5 → 0.75, < 0 → 1.0, < 0.5 → 1.5, else 2.0}
    assert_eq!(rarity(RarityValueMapper::Type1, -1.0), 0.75);
    assert_eq!(rarity(RarityValueMapper::Type1, -0.6), 0.75);
    assert_eq!(rarity(RarityValueMapper::Type1, -0.4), 1.0);
    assert_eq!(rarity(RarityValueMapper::Type1, 0.0), 1.5);
    assert_eq!(rarity(RarityValueMapper::Type1, 0.3), 1.5);
    assert_eq!(rarity(RarityValueMapper::Type1, 0.9), 2.0);
    // Type2 (2D): {<-0.75 → 0.5, <-0.5 → 0.75, <0.5 → 1, <0.75 → 2, else 3}
    assert_eq!(rarity(RarityValueMapper::Type2, -1.0), 0.5);
    assert_eq!(rarity(RarityValueMapper::Type2, -0.6), 0.75);
    assert_eq!(rarity(RarityValueMapper::Type2, 0.0), 1.0);
    assert_eq!(rarity(RarityValueMapper::Type2, 0.6), 2.0);
    assert_eq!(rarity(RarityValueMapper::Type2, 0.9), 3.0);
    // Max rarities for bounds analysis.
    assert_eq!(d(RarityValueMapper::Type1.max_rarity()), 2.0);
    assert_eq!(d(RarityValueMapper::Type2.max_rarity()), 3.0);
}

/// Shift variants missing-noise fallback (no crash, returns 0).
#[test]
fn shift_variants_missing_noise_returns_zero() {
    let state = empty_state();
    let c = ctx(100, 64, -45);
    let shift = DensityFunction::Shift { noise_name: "missing".to_string() };
    let shift_a = DensityFunction::ShiftA { noise_name: "missing".to_string() };
    let shift_b = DensityFunction::ShiftB { noise_name: "missing".to_string() };
    assert_eq!(shift.value(&c, &state), 0.0);
    assert_eq!(shift_a.value(&c, &state), 0.0);
    assert_eq!(shift_b.value(&c, &state), 0.0);
}

/// Shift / ShiftA / ShiftB use the same sampler but with different
/// coord permutations. With a registered noise, check the computed
/// result matches `noise.getValue(a*0.25, b*0.25, c*0.25) * 4.0`
/// for each variant's specific (a, b, c).
#[test]
fn shift_variants_sample_correctly() {
    // Reference samples.
    let x = 100.0; let y = 64.0; let z = -45.0;
    let expected_shift   = registered(x * 0.25, y * 0.25, z * 0.25) * 4.0;
    let expected_shift_a = registered(x * 0.25, 0.0, z * 0.25) * 4.0;
    let expected_shift_b = registered(z * 0.25, x * 0.25, 0.0) * 4.0;
    let state = WorldgenState { seed: 7, noises: vec!["shift_noise".to_string()] };
    let c = ctx(100, 64, -45);
    assert_eq!(DensityFunction::Shift { noise_name: "shift_noise".to_string() }
        .value(&c, &state), expected_shift);
    assert_eq!(DensityFunction::ShiftA { noise_name: "shift_noise".to_string() }
        .value(&c, &state), expected_shift_a);
    assert_eq!(DensityFunction::ShiftB { noise_name: "shift_noise".to_string() }
        .value(&c, &state), expected_shift_b);
}

/// ShiftedNoise computes `noise.getValue(x*xz + shiftX, y*y + shiftY, z*xz + shiftZ)`.
/// With constant shifts (for determinism) verify the coord transform.
#[test]
fn shifted_noise_applies_shifts_and_scale() {
    // Block (100, 64, -45), xzScale=0.5, yScale=0.25, shifts (0.3, 0.1, -0.2).
    let bx = 100.0; let by = 64.0; let bz = -45.0;
    let xz = 0.5; let ys = 0.25;
    let sx = 0.3; let sy = 0.1; let sz = -0.2;
    let expected = registered(bx * xz + sx, by * ys + sy, bz * xz + sz);
    let state = WorldgenState { seed: 7, noises: vec!["main_noise".to_string()] };
    let df = DensityFunction::ShiftedNoise {
        shift_x: Box::new(constant(sx)),
        shift_y: Box::new(constant(sy)),
        shift_z: Box::new(constant(sz)),
        xz_scale: double_bits(xz), y_scale: double_bits(ys),
        noise_name: "main_noise".to_string(),
    };
    assert_eq!(df.value(&ctx(100, 64, -45), &state), expected);
}

/// WeirdScaledSampler: `rarity * abs(noise.getValue(x/r, y/r, z/r))`
/// where r = rarity_mapper(input.value(ctx)). Verify with a
/// constant input that pins rarity and a registered noise.
#[test]
fn weird_scaled_sampler_applies_rarity_and_abs() {
    // Input = 0.2 → Type1 mapper returns 1.5 (since 0.0 <= 0.2 < 0.5).
    let rarity = 1.5;
    let expected = rarity * registered(100.0 / rarity, 64.0 / rarity, -45.0 / rarity).abs();
    let state = WorldgenState { seed: 7, noises: vec!["weird_noise".to_string()] };
    let df = DensityFunction::WeirdScaledSampler {
        input: Box::new(constant(0.2)),
        noise_name: "weird_noise".to_string(),
        rarity_value_mapper: RarityValueMapper::Type1,
    };
    assert_eq!(df.value(&ctx(100, 64, -45), &state), expected);
    // min_value is always 0 (abs'd).
    assert_eq!(df.low(), 0.0);
    // max_value = maxRarity * noise.maxValue default (2.0).
    assert_eq!(df.high(), 2.0 * 2.0);
}

/// Spline with a single Constant returns that value unchanged
/// (degenerate case — no interpolation).
#[test]
fn spline_constant_returns_value() {
    let state = empty_state();
    let s = DfSpline::Constant(single_bits(3.5));
    assert_eq!(s.height(&ctx(0, 0, 0), &state), 3.5);
    assert_eq!(s.lowest(), 3.5);
    assert_eq!(s.highest(), 3.5);
}

/// Multipoint spline exact values at knots + Hermite cubic between.
/// With all derivatives=0, the cubic has slope 0 at every knot,
/// producing a smooth S-shape, not a line. Hand-computed reference
/// values at non-knot coordinates. Uses a y-gradient as
/// the coordinate so we can control input via blockY.
#[test]
fn spline_zero_derivatives_hermite_cubic() {
    let state = empty_state();
    let coord = DensityFunction::YClampedGradient {
        from_y: 0, to_y: 10, from_value: double_bits(0.0), to_value: double_bits(10.0),
    };
    let spline = DfSpline::new_multipoint(
        coord,
        vec![single_bits(0.0), single_bits(5.0), single_bits(10.0)],
        vec![DfSpline::Constant(single_bits(0.0)), DfSpline::Constant(single_bits(10.0)), DfSpline::Constant(single_bits(0.0))],
        vec![single_bits(0.0), single_bits(0.0), single_bits(0.0)],
        &machine,
    );
    // Knots match exactly.
    assert_eq!(spline.height(&ctx(0, 0, 0), &state), 0.0);
    assert_eq!(spline.height(&ctx(0, 5, 0), &state), 10.0);
    assert_eq!(spline.height(&ctx(0, 10, 0), &state), 0.0);
    // At coord=2 (t=0.4 in segment [0,5], y1=0, y2=10, d1=d2=0):
    //   a = -10, b = 10, lerp(0.4, 0, 10) = 4, lerp(0.4, -10, 10) = -2
    //   result = 4 + 0.4*0.6*-2 = 4 - 0.48 = 3.52
    assert!((spline.height(&ctx(0, 2, 0), &state) - 3.52).abs() < 1e-4,
            "got {}", spline.height(&ctx(0, 2, 0), &state));
    // At coord=7 (t=0.4 in segment [5,10], y1=10, y2=0, d1=d2=0):
    //   a = 10, b = -10, lerp(0.4, 10, 0) = 6, lerp(0.4, 10, -10) = 2
    //   result = 6 + 0.4*0.6*2 = 6 + 0.48 = 6.48
    assert!((spline.height(&ctx(0, 7, 0), &state) - 6.48).abs() < 1e-4,
            "got {}", spline.height(&ctx(0, 7, 0), &state));
}

/// Below the first knot: linear extension using first derivative.
/// Above the last knot: linear extension using last derivative.
#[test]
fn spline_linear_extension_outside_range() {
    let state = empty_state();
    let coord = constant(-5.0); // input below first knot (0)
    let spline = DfSpline::new_multipoint(
        coord,
        vec![single_bits(0.0), single_bits(10.0)],
        vec![DfSpline::Constant(single_bits(2.0)), DfSpline::Constant(single_bits(12.0))],
        vec![single_bits(1.0), single_bits(1.0)], // slope 1 on both ends
        &machine,
    );
    // At input=-5, knot 0 has value=2 and derivative=1 → 2 + 1*(-5 - 0) = -3.
    let got = spline.height(&ctx(0, 0, 0), &state);
    assert!((got - (-3.0)).abs() < 1e-5, "got {}", got);
}

/// Hermite cubic with nonzero derivatives at endpoints produces
/// the expected cubic curve. Hand-checked formula:
/// knots at 0 and 1 with y0=0, y1=1, d0=0, d1=0 → standard smoothstep
/// which is 3t² - 2t³.
#[test]
fn spline_hermite_smoothstep_shape() {
    // Coordinate: YClampedGradient y=0..10 → 0.0..1.0.
    let coord = DensityFunction::YClampedGradient {
        from_y: 0, to_y: 10, from_value: double_bits(0.0), to_value: double_bits(1.0),
    };
    let spline = DfSpline::new_multipoint(
        coord,
        vec![single_bits(0.0), single_bits(1.0)],
        vec![DfSpline::Constant(single_bits(0.0)), DfSpline::Constant(single_bits(1.0))],
        vec![single_bits(0.0), single_bits(0.0)],
        &machine,
    );
    // Between, zero derivatives: plain linear (not smoothstep — smoothstep
    // would need nonzero internal derivatives). Just verify monotone.
    let state = empty_state();
    let at_quarter = spline.height(&ctx(0, 2, 0), &state); // coord ≈ 0.2 → linear 0.2
    let at_half = spline.height(&ctx(0, 5, 0), &state);    // coord = 0.5 → 0.5
    let at_three_quarter = spline.height(&ctx(0, 7, 0), &state); // coord 0.7 → 0.7
    assert!(at_quarter < at_half);
    assert!(at_half < at_three_quarter);
    assert!((at_half - 0.5).abs() < 1e-5);
}

/// DensityFunction::Spline wrapping a constant returns its value as f64.
#[test]
fn spline_density_function_wrapper() {
    let state = empty_state();
    let df = DensityFunction::Spline(Box::new(DfSpline::Constant(single_bits(7.5))));
    assert_eq!(df.value(&ctx(0, 0, 0), &state), 7.5);
    assert_eq!(df.low(), 7.5);
    assert_eq!(df.high(), 7.5);
}

// --- Bytecode roundtrip tests ---

fn emit_constant(buf: &mut Vec<u8>, v: f64) {
    buf.push(opcode::CONSTANT);
    buf.extend_from_slice(&v.to_ne_bytes());
}

#[test]
fn bytecode_constant() {
    let mut buf = Vec::new();
    emit_constant(&mut buf, 3.14);
    let df = parse_bytecode(&buf, &machine).unwrap();
    assert_eq!(df.value(&ctx(0, 0, 0), &empty_state()), 3.14);
}

#[test]
fn bytecode_add_of_constants() {
    let mut buf = Vec::new();
    buf.push(opcode::ADD);
    emit_constant(&mut buf, 3.0);
    emit_constant(&mut buf, 4.0);
    let df = parse_bytecode(&buf, &machine).unwrap();
    assert_eq!(df.value(&ctx(0, 0, 0), &empty_state()), 7.0);
}

#[test]
fn bytecode_y_clamped_gradient() {
    let mut buf = Vec::new();
    buf.push(opcode::Y_CLAMPED_GRADIENT);
    buf.extend_from_slice(&0_i32.to_ne_bytes());
    buf.extend_from_slice(&100_i32.to_ne_bytes());
    buf.extend_from_slice(&0.0_f64.to_ne_bytes());
    buf.extend_from_slice(&10.0_f64.to_ne_bytes());
    let df = parse_bytecode(&buf, &machine).unwrap();
    assert_eq!(df.value(&ctx(0, 50, 0), &empty_state()), 5.0);
}

#[test]
fn bytecode_noise_with_name() {
    let name = "minecraft:bytecode_test";
    let mut buf = Vec::new();
    buf.push(opcode::NOISE);
    buf.extend_from_slice(&(name.len() as u16).to_ne_bytes());
    buf.extend_from_slice(name.as_bytes());
    buf.extend_from_slice(&1.0_f64.to_ne_bytes());
    buf.extend_from_slice(&1.0_f64.to_ne_bytes());
    let df = parse_bytecode(&buf, &machine).unwrap();
    match df {
        DensityFunction::Noise { noise_name, xz_scale, y_scale } => {
            assert_eq!(noise_name, name);
            assert_eq!(d(xz_scale), 1.0);
            assert_eq!(d(y_scale), 1.0);
        }
        _ => panic!("wrong variant"),
    }
}

#[test]
fn bytecode_spline_constant() {
    let mut buf = Vec::new();
    buf.push(opcode::SPLINE);
    buf.push(opcode::SPLINE_CONSTANT);
    buf.extend_from_slice(&7.5_f32.to_ne_bytes());
    let df = parse_bytecode(&buf, &machine).unwrap();
    assert_eq!(df.value(&ctx(0, 0, 0), &empty_state()), 7.5);
}

#[test]
fn bytecode_truncation_is_error() {
    // ADD tag with only one operand should fail cleanly.
    let mut buf = Vec::new();
    buf.push(opcode::ADD);
    emit_constant(&mut buf, 1.0);
    let r = parse_bytecode(&buf, &machine);
    assert!(r.is_err(), "should fail");
}

#[test]
fn bytecode_unknown_opcode_is_error() {
    let buf = vec![0xFF];
    let r = parse_bytecode(&buf, &machine);
    assert!(r.is_err());
}

/// Bounds on mapped variants. They are loose for `Abs` and `Square`: the
/// lower one is `max(0, input.min_value)`.
/// So `Abs(Constant(-3)).low() == 0`, not 3, even though the
/// actual output is always 3; this matters for `RangeChoice`/`Min`/`Max` short-circuit logic.
#[test]
fn bounds_on_constant_inputs() {
    let build = |v: f64| Box::new(constant(v));
    assert_eq!(DensityFunction::Abs(build(-3.0)).low(), 0.0);
    assert_eq!(DensityFunction::Abs(build(-3.0)).high(), 3.0);
    assert_eq!(DensityFunction::Square(build(-3.0)).low(), 0.0);
    assert_eq!(DensityFunction::Square(build(-3.0)).high(), 9.0);
    assert_eq!(DensityFunction::Cube(build(2.0)).low(), 8.0);
}

/// Bytes of a name.
fn emit_name(buf: &mut Vec<u8>, name: &str) {
    buf.extend_from_slice(&(name.len() as u16).to_ne_bytes());
    buf.extend_from_slice(name.as_bytes());
}

#[test]
fn every_kind_of_node_parses() {
    let state = WorldgenState { seed: 7, noises: vec!["n".to_string()] };
    let mut buf = vec![opcode::INTERVAL_SELECT];
    emit_constant(&mut buf, 0.5);
    buf.extend_from_slice(&2u16.to_ne_bytes());
    buf.extend_from_slice(&0.0f64.to_ne_bytes());
    buf.extend_from_slice(&1.0f64.to_ne_bytes());
    // The first function: a choice by range over a clamp.
    buf.push(opcode::RANGE_CHOICE);
    buf.push(opcode::CLAMP);
    emit_constant(&mut buf, 9.0);
    buf.extend_from_slice(&0.0f64.to_ne_bytes());
    buf.extend_from_slice(&1.0f64.to_ne_bytes());
    buf.extend_from_slice(&0.0f64.to_ne_bytes());
    buf.extend_from_slice(&0.5f64.to_ne_bytes());
    buf.push(opcode::END_ISLAND);
    buf.push(opcode::BLENDED_NOISE);
    buf.extend_from_slice(&[0; 40]);
    // The second: a marked sum of a spline and a search for the surface.
    buf.extend_from_slice(&[opcode::MARKER, opcode::MARKER_CACHE_ONCE, opcode::ADD, opcode::SPLINE, opcode::SPLINE_MULTIPOINT]);
    emit_constant(&mut buf, 1.0);
    buf.extend_from_slice(&2u16.to_ne_bytes());
    for v in [0.0f32, 2.0, 0.0, 0.0] {
        buf.extend_from_slice(&v.to_ne_bytes());
    }
    for v in [4.0f32, 8.0] {
        buf.push(opcode::SPLINE_CONSTANT);
        buf.extend_from_slice(&v.to_ne_bytes());
    }
    buf.push(opcode::FIND_TOP_SURFACE);
    emit_constant(&mut buf, 1.0);
    emit_constant(&mut buf, 20.0);
    buf.extend_from_slice(&(-8i32).to_ne_bytes());
    buf.extend_from_slice(&8i32.to_ne_bytes());
    // The third: a shifted noise and a scaled sampler.
    buf.extend_from_slice(&[opcode::MAX, opcode::SHIFTED_NOISE, opcode::SHIFT_A]);
    emit_name(&mut buf, "n");
    emit_constant(&mut buf, 0.0);
    emit_constant(&mut buf, 0.0);
    buf.extend_from_slice(&1.0f64.to_ne_bytes());
    buf.extend_from_slice(&1.0f64.to_ne_bytes());
    emit_name(&mut buf, "n");
    buf.push(opcode::WEIRD_SCALED_SAMPLER);
    emit_constant(&mut buf, 0.2);
    emit_name(&mut buf, "n");
    buf.push(opcode::RARITY_TYPE1);
    let df = parse_bytecode(&buf, &machine).ok().expect("a tree");
    // 0.5 lies below the second threshold: the spline gives 6 halfway, the
    // surface is found at 16.
    assert_eq!(df.value(&ctx(0, 0, 0), &state), 22.0);
    assert!(matches!(&df, DensityFunction::IntervalSelect { thresholds, functions, .. } if thresholds.len() == 2 && functions.len() == 3));
    for cut in 0..buf.len() {
        assert!(parse_bytecode(&buf[..cut], &machine).is_err(), "cut at {cut}");
    }
    assert!(matches!(
        parse_bytecode(&[opcode::MARKER, 9, opcode::END_ISLAND], &machine),
        Err(ParseError::UnknownMarker(9))
    ));
    assert!(matches!(
        parse_bytecode(&[opcode::SPLINE, 9], &machine),
        Err(ParseError::UnknownSplineOpcode { opcode: 9, offset: 1 })
    ));
    assert!(matches!(parse_bytecode(&[0xfe], &machine), Err(ParseError::UnknownOpcode { opcode: 0xfe, offset: 0 })));
    let mut empty = vec![opcode::SPLINE, opcode::SPLINE_MULTIPOINT];
    emit_constant(&mut empty, 1.0);
    empty.extend_from_slice(&0u16.to_ne_bytes());
    assert!(matches!(parse_bytecode(&empty, &machine), Err(ParseError::EmptySpline)));
    let mut rare = vec![opcode::WEIRD_SCALED_SAMPLER];
    emit_constant(&mut rare, 0.2);
    emit_name(&mut rare, "n");
    rare.push(7);
    assert!(matches!(parse_bytecode(&rare, &machine), Err(ParseError::UnknownRarity(7))));
}

#[test]
fn bytecode_errors_name_their_cause() {
    assert!(matches!(parse_bytecode(&[], &machine), Err(ParseError::TruncatedByte)));
    assert!(matches!(parse_bytecode(&[opcode::CONSTANT, 1, 2], &machine), Err(ParseError::TruncatedDouble)));
    assert!(matches!(parse_bytecode(&[opcode::NOISE, 1], &machine), Err(ParseError::TruncatedShort)));
    assert!(matches!(parse_bytecode(&[opcode::NOISE, 5, 0, b'a'], &machine), Err(ParseError::TruncatedName(_))));
    assert!(matches!(parse_bytecode(&[opcode::NOISE, 1, 0, 0xff], &machine), Err(ParseError::InvalidName)));
    assert!(matches!(parse_bytecode(&[opcode::Y_CLAMPED_GRADIENT, 1], &machine), Err(ParseError::TruncatedInt)));
    assert!(matches!(parse_bytecode(&[opcode::SPLINE, opcode::SPLINE_CONSTANT, 0], &machine), Err(ParseError::TruncatedSingle)));
    let mut long = vec![opcode::CONSTANT];
    long.extend_from_slice(&[0; 9]);
    assert!(matches!(parse_bytecode(&long, &machine), Err(ParseError::Trailing { parsed: 9, .. })));
}

#[test]
fn names_are_read_as_text() {
    let name = "minecraft:h\u{f6}hle";
    let mut buf = vec![opcode::NOISE];
    buf.extend_from_slice(&(name.len() as u16).to_ne_bytes());
    buf.extend_from_slice(name.as_bytes());
    buf.extend_from_slice(&[0; 16]);
    match parse_bytecode(&buf, &machine) {
        Ok(DensityFunction::Noise { noise_name, .. }) => assert_eq!(noise_name, name),
        _ => panic!("a noise was written"),
    }
}

#[test]
fn batches_compute_what_points_do() {
    let state = WorldgenState { seed: 7, noises: vec!["n".to_string()] };
    let noise = || Box::new(DensityFunction::Noise { noise_name: "n".to_string(), xz_scale: double_bits(0.5), y_scale: double_bits(0.25) });
    let df = DensityFunction::Max(
        Box::new(DensityFunction::Mul(noise(), Box::new(constant(0.0)))),
        Box::new(DensityFunction::RangeChoice {
            input: noise(),
            min_inclusive: double_bits(0.0),
            max_exclusive: double_bits(1.0),
            when_in_range: Box::new(DensityFunction::Squeeze(noise())),
            when_out_of_range: Box::new(DensityFunction::Shift { noise_name: "n".to_string() }),
        }),
    );
    let xs: Vec<i32> = (0..40).collect();
    let ys: Vec<i32> = (0..40).map(|i| i * 3 - 50).collect();
    let zs: Vec<i32> = (0..40).map(|i| -i).collect();
    let all = df.compute_batch(&xs, &ys, &zs, &state, &machine);
    assert_eq!(all.len(), 40);
    for i in 0..40 {
        assert_eq!(d(all[i]), df.value(&ctx(xs[i], ys[i], zs[i]), &state), "point {i}");
    }
}

#[test]
fn interpolated_markers_read_the_corner_buffers() {
    let state = empty_state();
    let gradient = DensityFunction::YClampedGradient { from_y: 0, to_y: 16, from_value: double_bits(0.0), to_value: double_bits(16.0) };
    let df = DensityFunction::Add(
        Box::new(DensityFunction::Marker { kind: MarkerKind::Interpolated, wrapped: Box::new(gradient) }),
        Box::new(constant(1.0)),
    );
    let mut inputs = Vec::new();
    df.enumerate_di_inputs(&mut inputs);
    assert_eq!(inputs.len(), 1);
    let grid = CornerGrid { min: (0, 0, 0), cell: (4, 8, 4), dims: (2, 3, 2) };
    // Corners as the wrapped function has them, one per grid point.
    let mut corners = vec![0u64; 12];
    for x in 0..2 {
        for y in 0..3 {
            for z in 0..2 {
                corners[y * 4 + z * 2 + x] = inputs[0].compute(&ctx(x as i32 * 4, y as i32 * 8, z as i32 * 4), &state, &machine);
            }
        }
    }
    let bufs = vec![corners];
    let mut counter = 0;
    let got = df.compute_with_di_lerp(&ctx(2, 5, 3), &state, &bufs, &grid, &mut counter, &machine);
    assert_eq!(d(got), 6.0);
    assert_eq!(counter, 1);
}

#[test]
fn blended_and_island_leaves_ask_the_world() {
    let state = empty_state();
    let b = LazyBlendedNoise::new(0, 0, 0, 0, 0);
    assert_eq!(d(b.sample(1, 2, 3, &machine)), 0.14);
    assert_eq!(LazyEndIsland::new(), LazyEndIsland::default());
    let df = DensityFunction::EndIsland(LazyEndIsland::new());
    assert!(df.low() <= df.value(&ctx(0, 0, 0), &state) && df.value(&ctx(0, 0, 0), &state) <= df.high());
}

#[test]
fn batches_take_the_same_shortcuts_as_points() {
    let state = empty_state();
    // Zero times one over zero.
    let product = DensityFunction::Mul(Box::new(constant(0.0)), Box::new(DensityFunction::Invert(Box::new(constant(0.0)))));
    assert_eq!(d(product.compute_batch(&[1], &[2], &[3], &state, &machine)[0]), 0.0);
    assert_eq!(product.value(&ctx(1, 2, 3), &state), 0.0);
    let gradient = DensityFunction::YClampedGradient { from_y: -3, to_y: 7, from_value: double_bits(0.1), to_value: double_bits(0.7) };
    let sum = DensityFunction::Add(Box::new(gradient), Box::new(constant(-0.3)));
    for y in -5..10 {
        assert_eq!(sum.compute_batch(&[0], &[y], &[0], &state, &machine)[0], sum.compute(&ctx(0, y, 0), &state, &machine));
    }
}

#[test]
fn a_surface_search_without_headway_looks_at_the_top() {
    let state = empty_state();
    let surface = |density: f64, cell_height: i32| DensityFunction::FindTopSurface {
        density: Box::new(constant(density)),
        upper_bound: Box::new(constant(64.0)),
        lower_bound: -64,
        cell_height,
    };
    assert_eq!(surface(1.0, -8).value(&ctx(0, 0, 0), &state), 64.0);
    assert_eq!(surface(-1.0, -8).value(&ctx(0, 0, 0), &state), -64.0);
    assert_eq!(surface(1.0, 8).value(&ctx(0, 0, 0), &state), 64.0);
}
