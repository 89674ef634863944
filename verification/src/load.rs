//! What data pack documents say: density functions and their noises.

use vstd::prelude::*;
use crate::arith::{holds, low, reply, Ask, HALF_32, ONE_32, QUARTER};
use crate::df26::{wrapped, Axis, Binary, Metric, RoundKind, Tiling, Unary, FOUR_32, TWO_32};
use crate::dfmodel::{Func, Knots};
use crate::json::{field_from, LoadError, Tree};
use crate::noise26::{doubles, integer_in, parameters_in, Parameters};

verus! {

/// 684.412, the scale of the blended terrain noise.
pub const BLENDED_SCALE: u64 = 0x4085_634B_C6A7_EF9E;

/// 3, as a single.
pub const THREE_32: u32 = 0x4040_0000;

/// Where a noise stack comes from.
pub ghost enum Origin {
    /// A noise by its name.
    Named { name: Seq<char>, parameters: Parameters },
    /// The lower limit, the upper limit and the main noise of the blended
    /// terrain noise, smeared along y.
    Blended { part: int, limit_smear: u64, main_smear: u64 },
}

/// Documents, and what was read of them so far.
pub ghost struct Reading {
    /// Kind, full name and content.
    pub docs: Seq<(Seq<char>, Seq<char>, Tree)>,
    pub functions: Seq<(Seq<char>, Func)>,
    pub origins: Seq<Origin>,
    pub loading: Seq<Seq<char>>,
    /// Inputs of caches and the caches made of them.
    pub caches: Seq<(Tree, Func)>,
    /// Coordinates of splines.
    pub coordinates: Seq<Tree>,
}

/// A name with its namespace.
pub open spec fn full_name(id: Seq<char>) -> Seq<char> {
    if id.contains(':') { id } else { "minecraft:"@ + id }
}

/// The last of the first `n` documents of a kind with a name.
pub open spec fn find_doc(docs: Seq<(Seq<char>, Seq<char>, Tree)>, kind: Seq<char>, name: Seq<char>, n: nat) -> Option<Tree>
    decreases n,
{
    if n == 0 {
        None
    } else if docs[n - 1].0 == kind && docs[n - 1].1 == name {
        Some(docs[n - 1].2)
    } else {
        find_doc(docs, kind, name, (n - 1) as nat)
    }
}

/// The first function with a name, from the `k`-th on.
pub open spec fn known_function(s: Seq<(Seq<char>, Func)>, name: Seq<char>, k: int) -> Option<Func>
    decreases s.len() - k,
{
    if k < 0 || k >= s.len() {
        None
    } else if s[k].0 == name {
        Some(s[k].1)
    } else {
        known_function(s, name, k + 1)
    }
}

/// The first stack of a named noise, from the `k`-th on.
pub open spec fn known_stack(s: Seq<Origin>, name: Seq<char>, k: int) -> Option<int>
    decreases s.len() - k,
{
    if k < 0 || k >= s.len() {
        None
    } else if s[k] is Named && s[k]->name == name {
        Some(k)
    } else {
        known_stack(s, name, k + 1)
    }
}

/// The first cache of an input, from the `k`-th on.
pub open spec fn known_cache(s: Seq<(Tree, Func)>, input: Tree, k: int) -> Option<Func>
    decreases s.len() - k,
{
    if k < 0 || k >= s.len() {
        None
    } else if s[k].0 == input {
        Some(s[k].1)
    } else {
        known_cache(s, input, k + 1)
    }
}

/// The first place of a coordinate, from the `k`-th on; the end without
/// one.
pub open spec fn place_of_coordinate(s: Seq<Tree>, t: Tree, k: int) -> int
    decreases s.len() - k,
{
    if k < 0 || k >= s.len() {
        s.len() as int
    } else if s[k] == t {
        k
    } else {
        place_of_coordinate(s, t, k + 1)
    }
}

/// Names without one of them.
pub open spec fn without_name(s: Seq<Seq<char>>, name: Seq<char>, n: nat) -> Seq<Seq<char>>
    decreases n,
{
    if n == 0 {
        Seq::empty()
    } else {
        let rest = without_name(s, name, (n - 1) as nat);
        if s[n - 1] == name { rest } else { rest.push(s[n - 1]) }
    }
}

impl Reading {
    pub open spec fn doc(self, kind: Seq<char>, name: Seq<char>) -> Option<Tree> {
        find_doc(self.docs, kind, name, self.docs.len())
    }

    /// With a spline coordinate registered.
    pub open spec fn with_coordinate(self, t: Tree) -> Reading {
        if place_of_coordinate(self.coordinates, t, 0) < self.coordinates.len() {
            self
        } else {
            Reading { coordinates: self.coordinates.push(t), ..self }
        }
    }
}

/// A function that was read, or why not, and the reading afterwards.
pub type Read = (Result<Func, LoadError>, Reading);

/// The stack of a noise, made on first use.
pub open spec fn noise_read(st: Reading, id: Seq<char>) -> (Result<usize, LoadError>, Reading) {
    let name = full_name(id);
    match known_stack(st.origins, name, 0) {
        Some(k) => (Ok(k as usize), st),
        None => match st.doc("noise"@, name) {
            None => (Err(LoadError::NotProvided), st),
            Some(t) => match parameters_in(t) {
                Err(e) => (Err(e), st),
                Ok(parameters) => (
                    Ok(st.origins.len() as usize),
                    Reading { origins: st.origins.push(Origin::Named { name, parameters }), ..st },
                ),
            },
        },
    }
}

/// The number of a field, as a double and as a single.
pub open spec fn double_in(o: Tree, key: Seq<char>) -> Option<u64> {
    match o.get(key) {
        Some(x) => x.as_double(),
        None => None,
    }
}

pub open spec fn single_in<F: Fn(Ask) -> u64>(f: F, o: Tree, key: Seq<char>) -> Option<u32> {
    match double_in(o, key) {
        Some(v) => Some(low(f, Ask::Narrow(v))),
        None => None,
    }
}

/// The text of a field.
pub open spec fn text_in(o: Tree, key: Seq<char>) -> Option<Seq<char>> {
    match o.get(key) {
        Some(x) => x.as_text(),
        None => None,
    }
}

/// The list of a field.
pub open spec fn list_in(o: Tree, key: Seq<char>) -> Option<Seq<Tree>> {
    match o.get(key) {
        Some(x) => x.as_list(),
        None => None,
    }
}

/// A type without the game's namespace.
pub open spec fn plain_type(ty: Seq<char>) -> Seq<char> {
    let p = "minecraft:"@;
    if p.len() <= ty.len() && ty.take(p.len() as int) == p { ty.skip(p.len() as int) } else { ty }
}

/// An operation on one input by name.
pub open spec fn unary_named(ty: Seq<char>) -> Option<Unary> {
    if ty == "abs"@ {
        Some(Unary::Abs)
    } else if ty == "square"@ {
        Some(Unary::Square)
    } else if ty == "cube"@ {
        Some(Unary::Cube)
    } else if ty == "sqrt"@ {
        Some(Unary::Sqrt)
    } else if ty == "half_negative"@ {
        Some(Unary::HalfNegative)
    } else if ty == "quarter_negative"@ {
        Some(Unary::QuarterNegative)
    } else if ty == "reciprocal"@ {
        Some(Unary::Reciprocal)
    } else if ty == "negate"@ {
        Some(Unary::Negate)
    } else if ty == "squeeze"@ {
        Some(Unary::Squeeze)
    } else if ty == "log"@ {
        Some(Unary::Log)
    } else if ty == "sign"@ {
        Some(Unary::Sign)
    } else {
        None
    }
}

/// An operation on two inputs by name.
pub open spec fn binary_named(ty: Seq<char>) -> Option<Binary> {
    if ty == "add"@ {
        Some(Binary::Add)
    } else if ty == "sub"@ {
        Some(Binary::Sub)
    } else if ty == "mul"@ {
        Some(Binary::Mul)
    } else if ty == "div"@ {
        Some(Binary::Div)
    } else if ty == "min"@ {
        Some(Binary::Min)
    } else if ty == "max"@ {
        Some(Binary::Max)
    } else {
        None
    }
}

/// A way of rounding by name.
pub open spec fn rounding_named(ty: Seq<char>) -> Option<RoundKind> {
    if ty == "floor"@ {
        Some(RoundKind::Floor)
    } else if ty == "round"@ {
        Some(RoundKind::Round)
    } else if ty == "ceil"@ {
        Some(RoundKind::Ceil)
    } else if ty == "truncate"@ {
        Some(RoundKind::Truncate)
    } else {
        None
    }
}

pub open spec fn axis_named(s: Seq<char>) -> Option<Axis> {
    if s == "x"@ {
        Some(Axis::X)
    } else if s == "y"@ {
        Some(Axis::Y)
    } else if s == "z"@ {
        Some(Axis::Z)
    } else {
        None
    }
}

pub open spec fn metric_named(s: Seq<char>) -> Option<Metric> {
    if s == "euclidean"@ {
        Some(Metric::Euclidean)
    } else if s == "euclidean_squared"@ {
        Some(Metric::EuclideanSquared)
    } else if s == "manhattan"@ {
        Some(Metric::Manhattan)
    } else if s == "chebyshev"@ {
        Some(Metric::Chebyshev)
    } else {
        None
    }
}

/// The tiling of a gradient: held at the edges without a word.
pub open spec fn tiling_in(o: Tree) -> Option<Tiling> {
    match text_in(o, "tiling"@) {
        None => Some(Tiling::ClampToEdge),
        Some(t) => if t == "clamp_to_edge"@ {
            Some(Tiling::ClampToEdge)
        } else if t == "repeat"@ {
            Some(Tiling::Repeat)
        } else if t == "mirrored_repeat"@ {
            Some(Tiling::MirroredRepeat)
        } else {
            None
        },
    }
}

pub open spec fn constant_of(n: Func) -> Option<u32> {
    match n {
        Func::Constant(c) => Some(c),
        _ => None,
    }
}

pub open spec fn unary_func(op: Unary, input: Func) -> Func {
    Func::Unary { op, input: Box::new(input) }
}

/// Two sides combined, a constant side folded in; the left one first.
pub open spec fn paired<F: Fn(Ask) -> u64>(f: F, op: Binary, l: Func, r: Func) -> Func {
    match (constant_of(l), constant_of(r)) {
        (Some(c), _) => unary_func(
            match op {
                Binary::Add => Unary::AddConst(c),
                Binary::Sub => Unary::ConstMinus(c),
                Binary::Mul => Unary::MulConst(c),
                Binary::Div => Unary::ConstOver(c),
                Binary::Min => Unary::MinConst(c),
                _ => Unary::MaxConst(c),
            },
            r,
        ),
        (None, Some(c)) => unary_func(
            match op {
                Binary::Add => Unary::AddConst(c),
                Binary::Sub => Unary::AddConst(low(f, Ask::Neg32(c))),
                Binary::Mul => Unary::MulConst(c),
                Binary::Div => Unary::MulConst(low(f, Ask::Div32(ONE_32, c))),
                Binary::Min => Unary::MinConst(c),
                _ => Unary::MaxConst(c),
            },
            l,
        ),
        _ => Func::Binary { combine: op, left: Box::new(l), right: Box::new(r) },
    }
}

/// A power; of exponents that are constant, a half, one, two and three have
/// functions of their own.
pub open spec fn raised<F: Fn(Ask) -> u64>(f: F, base: Func, exponent: Func) -> Func {
    match (constant_of(base), constant_of(exponent)) {
        (Some(c), _) => unary_func(Unary::PowBase(reply(f, Ask::Widen(c))), exponent),
        (None, Some(e)) => {
            let a = low(f, Ask::Abs32(e));
            if holds(f, Ask::Equal32(a, ONE_32)) && !holds(f, Ask::Equal32(a, HALF_32)) {
                base
            } else {
                let special = if holds(f, Ask::Equal32(a, HALF_32)) {
                    Unary::Sqrt
                } else if holds(f, Ask::Equal32(a, TWO_32)) {
                    Unary::Square
                } else if holds(f, Ask::Equal32(a, THREE_32)) {
                    Unary::Cube
                } else {
                    Unary::PowExp(reply(f, Ask::Widen(a)))
                };
                let n = unary_func(special, base);
                if holds(f, Ask::LessEq32(0, e)) { n } else { unary_func(Unary::Reciprocal, n) }
            }
        },
        _ => Func::Binary { combine: Binary::Pow, left: Box::new(base), right: Box::new(exponent) },
    }
}

/// Whether a function is the constant one.
pub open spec fn is_one<F: Fn(Ask) -> u64>(f: F, n: Func) -> bool {
    match constant_of(n) {
        Some(c) => holds(f, Ask::Equal32(c, ONE_32)),
        None => false,
    }
}

/// Whether a function is the constant zero.
pub open spec fn is_nothing(n: Func) -> bool {
    match constant_of(n) {
        Some(c) => c == 0 || c == 0x8000_0000,
        None => false,
    }
}

pub open spec fn plain_noise(stack: usize, xz_scale: u64, y_scale: u64) -> Func {
    Func::Noise { stack, xz_scale, y_scale, shift_x: None, shift_y: None, shift_z: None }
}

/// The gradient of an object.
pub open spec fn gradient_in<F: Fn(Ask) -> u64>(f: F, o: Tree) -> Result<Func, LoadError> {
    match text_in(o, "axis"@) {
        None => Err(LoadError::NotText),
        Some(a) => match axis_named(a) {
            None => Err(LoadError::UnknownAxis),
            Some(axis) => match tiling_in(o) {
                None => Err(LoadError::UnknownTiling),
                Some(tiling) => match (integer_in(o, "from_coordinate"@), integer_in(o, "to_coordinate"@)) {
                    (Some(from), Some(to)) => if from == to {
                        Err(LoadError::EmptyGradient)
                    } else {
                        match (single_in(f, o, "from_value"@), single_in(f, o, "to_value"@)) {
                            (Some(low_value), Some(high)) => {
                                let rise = low(f, Ask::Sub32(high, low_value));
                                let run = low(f, Ask::FromInt32(wrapped(to - from)));
                                Ok(
                                    Func::Gradient {
                                        axis,
                                        tiling,
                                        from_coordinate: from,
                                        to_coordinate: to,
                                        from_value: low_value,
                                        factor: low(f, Ask::Div32(rise, run)),
                                    },
                                )
                            },
                            _ => Err(LoadError::NotNumber),
                        }
                    },
                    _ => Err(LoadError::NotInteger),
                },
            },
        },
    }
}

/// The distance function of an object.
pub open spec fn distance_in(o: Tree) -> Result<Func, LoadError> {
    match text_in(o, "metric"@) {
        None => Err(LoadError::NotText),
        Some(m) => match metric_named(m) {
            None => Err(LoadError::UnknownMetric),
            Some(metric) => match list_in(o, "point"@) {
                None => Err(LoadError::NotList),
                Some(p) => if p.len() != 3 {
                    Err(LoadError::PointSize)
                } else {
                    match (p[0].as_integer(), p[1].as_integer(), p[2].as_integer()) {
                        (Some(x), Some(y), Some(z)) => Ok(
                            Func::DistanceToPoint {
                                metric,
                                x: wrapped(x as int),
                                y: wrapped(y as int),
                                z: wrapped(z as int),
                            },
                        ),
                        _ => Err(LoadError::NotInteger),
                    }
                },
            },
        },
    }
}

/// The blended terrain noise of an object, made of ordinary functions.
pub open spec fn blended_in<F: Fn(Ask) -> u64>(f: F, st: Reading, o: Tree) -> Read {
    match (
        double_in(o, "xz_scale"@),
        double_in(o, "y_scale"@),
        double_in(o, "xz_factor"@),
        double_in(o, "y_factor"@),
        double_in(o, "smear_scale_multiplier"@),
    ) {
        (Some(xz_scale), Some(y_scale), Some(xz_factor), Some(y_factor), Some(smear)) => {
            let xz = reply(f, Ask::Mul64(BLENDED_SCALE, xz_scale));
            let y = reply(f, Ask::Mul64(BLENDED_SCALE, y_scale));
            let limit_smear = reply(f, Ask::Mul64(y, smear));
            let main_smear = reply(f, Ask::Div64(limit_smear, y_factor));
            let n = st.origins.len();
            let main = plain_noise(
                (n + 2) as usize,
                reply(f, Ask::Div64(xz, xz_factor)),
                reply(f, Ask::Div64(y, y_factor)),
            );
            let choice = unary_func(Unary::Clamp(0, ONE_32), unary_func(Unary::AddConst(HALF_32), main));
            (
                Ok(
                    Func::Lerp {
                        alpha: Box::new(choice),
                        first: Box::new(plain_noise(n as usize, xz, y)),
                        second: Box::new(plain_noise((n + 1) as usize, xz, y)),
                    },
                ),
                Reading {
                    origins: st.origins.push(Origin::Blended { part: 0, limit_smear, main_smear }).push(
                        Origin::Blended { part: 1, limit_smear, main_smear }).push(
                        Origin::Blended { part: 2, limit_smear, main_smear }),
                    ..st
                },
            )
        },
        _ => (Err(LoadError::NotNumber), st),
    }
}

/// Thresholds never decrease.
pub open spec fn rising<F: Fn(Ask) -> u64>(f: F, t: Seq<u32>) -> bool {
    forall|i: int| 0 <= i < t.len() - 1 ==> !holds(f, Ask::Less32(t[i + 1], #[trigger] t[i]))
}

/// Locations increase.
pub open spec fn climbing<F: Fn(Ask) -> u64>(f: F, t: Seq<u32>) -> bool {
    forall|i: int| 0 <= i < t.len() - 1 ==> !holds(f, Ask::LessEq32(t[i + 1], #[trigger] t[i]))
}

/// Doubles as singles.
pub open spec fn narrowed<F: Fn(Ask) -> u64>(f: F, s: Seq<u64>) -> Seq<u32> {
    Seq::new(s.len(), |i: int| low(f, Ask::Narrow(s[i])))
}

/// What a document, or a part of one, says of a function: a number is a
/// constant, a text refers to another document. `depth` references may
/// follow each other.
pub open spec fn read<F: Fn(Ask) -> u64>(f: F, st: Reading, v: Tree, depth: nat) -> Read
    decreases 2 * depth + 1, v, 9nat,
{
    match v {
        Tree::Number { value, .. } => (Ok(Func::Constant(low(f, Ask::Narrow(value)))), st),
        Tree::Text(s) => reference(f, st, s, depth),
        Tree::Object(_) => object(f, st, v, depth),
        _ => (Err(LoadError::Unexpected), st),
    }
}

/// What another document says of a function; it is read once.
pub open spec fn reference<F: Fn(Ask) -> u64>(f: F, st: Reading, id: Seq<char>, depth: nat) -> Read
    decreases 2 * depth, Tree::Null, 0nat,
{
    let name = full_name(id);
    match known_function(st.functions, name, 0) {
        Some(n) => (Ok(n), st),
        None => if st.loading.contains(name) || depth == 0 {
            (Err(LoadError::Cycle), st)
        } else {
            let begun = Reading { loading: st.loading.push(name), ..st };
            match st.doc("density_function"@, name) {
                None => (Err(LoadError::NotProvided), begun),
                Some(t) => match read(f, begun, t, (depth - 1) as nat) {
                    (Err(e), s) => (Err(e), s),
                    (Ok(n), s) => (
                        Ok(n),
                        Reading {
                            loading: without_name(s.loading, name, s.loading.len()),
                            functions: s.functions.push((name, n)),
                            ..s
                        },
                    ),
                },
            }
        },
    }
}

/// A field read as a function.
pub open spec fn child<F: Fn(Ask) -> u64>(f: F, st: Reading, o: Tree, key: Seq<char>, depth: nat) -> Read
    decreases 2 * depth + 1, o, 1nat,
{
    match o {
        Tree::Object(fields) => field_read(f, st, fields, key, depth),
        _ => (Err(LoadError::MissingField), st),
    }
}

pub open spec fn field_read<F: Fn(Ask) -> u64>(f: F, st: Reading, fields: Seq<(Seq<char>, Tree)>, key: Seq<char>, depth: nat) -> Read
    decreases 2 * depth + 1, fields, 0nat,
{
    match field_from(fields, key, 0) {
        Some(k) => if 0 <= k < fields.len() { read(f, st, fields[k].1, depth) } else { (Err(LoadError::MissingField), st) },
        None => (Err(LoadError::MissingField), st),
    }
}

/// A field read as a function, if it is there.
pub open spec fn maybe_child<F: Fn(Ask) -> u64>(f: F, st: Reading, o: Tree, key: Seq<char>, depth: nat) -> (
    Result<Option<Func>, LoadError>,
    Reading,
)
    decreases 2 * depth + 1, o, 2nat,
{
    if o.get(key) is None {
        (Ok(None), st)
    } else {
        match child(f, st, o, key, depth) {
            (Ok(n), s) => (Ok(Some(n)), s),
            (Err(e), s) => (Err(e), s),
        }
    }
}

/// A shift: nothing where it is the constant zero.
pub open spec fn shift_read<F: Fn(Ask) -> u64>(f: F, st: Reading, o: Tree, key: Seq<char>, depth: nat) -> (
    Result<Option<Box<Func>>, LoadError>,
    Reading,
)
    decreases 2 * depth + 1, o, 3nat,
{
    match maybe_child(f, st, o, key, depth) {
        (Ok(Some(n)), s) => (Ok(if is_nothing(n) { None } else { Some(Box::new(n)) }), s),
        (Ok(None), s) => (Ok(None), s),
        (Err(e), s) => (Err(e), s),
    }
}

/// Two fields read as functions, in order.
pub open spec fn pair_read<F: Fn(Ask) -> u64>(f: F, st: Reading, o: Tree, a: Seq<char>, b: Seq<char>, depth: nat) -> (
    Result<(Func, Func), LoadError>,
    Reading,
)
    decreases 2 * depth + 1, o, 2nat,
{
    match child(f, st, o, a, depth) {
        (Err(e), s) => (Err(e), s),
        (Ok(p), s) => match child(f, s, o, b, depth) {
            (Err(e), t) => (Err(e), t),
            (Ok(q), t) => (Ok((p, q)), t),
        },
    }
}

/// A noise with its shifts.
pub open spec fn noise_func<F: Fn(Ask) -> u64>(f: F, st: Reading, o: Tree, depth: nat) -> Read
    decreases 2 * depth + 1, o, 4nat,
{
    match text_in(o, "noise"@) {
        None => (Err(LoadError::NotText), st),
        Some(name) => match noise_read(st, name) {
            (Err(e), s) => (Err(e), s),
            (Ok(stack), s) => match shift_read(f, s, o, "shift_x"@, depth) {
                (Err(e), t) => (Err(e), t),
                (Ok(shift_x), t) => match shift_read(f, t, o, "shift_y"@, depth) {
                    (Err(e), u) => (Err(e), u),
                    (Ok(shift_y), u) => match shift_read(f, u, o, "shift_z"@, depth) {
                        (Err(e), w) => (Err(e), w),
                        (Ok(shift_z), w) => match (double_in(o, "xz_scale"@), double_in(o, "y_scale"@)) {
                            (Some(xz_scale), Some(y_scale)) => (
                                Ok(Func::Noise { stack, xz_scale, y_scale, shift_x, shift_y, shift_z }),
                                w,
                            ),
                            _ => (Err(LoadError::NotNumber), w),
                        },
                    },
                },
            },
        },
    }
}

/// One of the shift noises.
pub open spec fn shift_func(st: Reading, o: Tree, ty: Seq<char>) -> Read {
    match text_in(o, "noise"@) {
        None => (Err(LoadError::NotText), st),
        Some(name) => match noise_read(st, name) {
            (Err(e), s) => (Err(e), s),
            (Ok(stack), s) => (
                Ok(
                    if ty == "shift_b"@ {
                        Func::ShiftB(stack)
                    } else {
                        unary_func(
                            Unary::MulConst(FOUR_32),
                            plain_noise(stack, QUARTER, if ty == "shift"@ { QUARTER } else { 0 }),
                        )
                    },
                ),
                s,
            ),
        },
    }
}

/// A rounded function, to a multiple that is not one.
pub open spec fn rounded_func<F: Fn(Ask) -> u64>(f: F, st: Reading, o: Tree, kind: RoundKind, depth: nat) -> Read
    decreases 2 * depth + 1, o, 4nat,
{
    match child(f, st, o, "input"@, depth) {
        (Err(e), s) => (Err(e), s),
        (Ok(input), s) => match maybe_child(f, s, o, "multiple"@, depth) {
            (Err(e), t) => (Err(e), t),
            (Ok(None), t) => (Ok(unary_func(Unary::Round(kind), input)), t),
            (Ok(Some(m)), t) => (
                Ok(
                    if is_one(f, m) {
                        unary_func(Unary::Round(kind), input)
                    } else {
                        Func::Binary { combine: Binary::RoundTo(kind), left: Box::new(input), right: Box::new(m) }
                    },
                ),
                t,
            ),
        },
    }
}

/// The choice between two functions by range.
pub open spec fn range_func<F: Fn(Ask) -> u64>(f: F, st: Reading, o: Tree, depth: nat) -> Read
    decreases 2 * depth + 1, o, 4nat,
{
    match child(f, st, o, "input"@, depth) {
        (Err(e), s) => (Err(e), s),
        (Ok(choice), s) => match (single_in(f, o, "min_inclusive"@), single_in(f, o, "max_exclusive"@)) {
            (Some(min_inclusive), Some(max_exclusive)) => match pair_read(
                f, s, o, "when_in_range"@, "when_out_of_range"@, depth) {
                (Err(e), t) => (Err(e), t),
                (Ok((p, q)), t) => (
                    Ok(
                        Func::RangeChoice {
                            choice: Box::new(choice),
                            min_inclusive,
                            max_exclusive,
                            when_in_range: Box::new(p),
                            when_out_of_range: Box::new(q),
                        },
                    ),
                    t,
                ),
            },
            _ => (Err(LoadError::NotNumber), s),
        },
    }
}

/// The first `n` of a list read as functions.
pub open spec fn list_read<F: Fn(Ask) -> u64>(f: F, st: Reading, l: Seq<Tree>, n: nat, depth: nat) -> (
    Result<Seq<Func>, LoadError>,
    Reading,
)
    decreases 2 * depth + 1, l, n,
{
    if n == 0 || n > l.len() {
        (Ok(Seq::empty()), st)
    } else {
        match list_read(f, st, l, (n - 1) as nat, depth) {
            (Err(e), s) => (Err(e), s),
            (Ok(before), s) => match read(f, s, l[n - 1], depth) {
                (Err(e), t) => (Err(e), t),
                (Ok(x), t) => (Ok(before.push(x)), t),
            },
        }
    }
}

/// The list of a field read as functions.
pub open spec fn functions_read<F: Fn(Ask) -> u64>(f: F, st: Reading, o: Tree, depth: nat) -> (
    Result<Seq<Func>, LoadError>,
    Reading,
)
    decreases 2 * depth + 1, o, 1nat,
{
    match o {
        Tree::Object(fields) => field_list_read(f, st, fields, depth),
        _ => (Err(LoadError::NotList), st),
    }
}

pub open spec fn field_list_read<F: Fn(Ask) -> u64>(f: F, st: Reading, fields: Seq<(Seq<char>, Tree)>, depth: nat) -> (
    Result<Seq<Func>, LoadError>,
    Reading,
)
    decreases 2 * depth + 1, fields, 0nat,
{
    match field_from(fields, "functions"@, 0) {
        Some(k) => if 0 <= k < fields.len() { tree_list_read(f, st, fields[k].1, depth) } else { (Err(LoadError::NotList), st) },
        None => (Err(LoadError::NotList), st),
    }
}

pub open spec fn tree_list_read<F: Fn(Ask) -> u64>(f: F, st: Reading, t: Tree, depth: nat) -> (
    Result<Seq<Func>, LoadError>,
    Reading,
)
    decreases 2 * depth + 1, t, 0nat,
{
    match t {
        Tree::List(l) => list_read(f, st, l, l.len(), depth),
        _ => (Err(LoadError::NotList), st),
    }
}

/// The choice between functions by thresholds.
pub open spec fn select_func<F: Fn(Ask) -> u64>(f: F, st: Reading, o: Tree, depth: nat) -> Read
    decreases 2 * depth + 1, o, 4nat,
{
    match child(f, st, o, "input"@, depth) {
        (Err(e), s) => (Err(e), s),
        (Ok(selector), s) => match list_in(o, "thresholds"@) {
            None => (Err(LoadError::NotList), s),
            Some(l) => match doubles(l) {
                None => (Err(LoadError::NotNumber), s),
                Some(d) => {
                    let thresholds = narrowed(f, d);
                    match functions_read(f, s, o, depth) {
                        (Err(e), t) => (Err(e), t),
                        (Ok(functions), t) => if functions.len() < 2 || thresholds.len() + 1 != functions.len() {
                            (Err(LoadError::ThresholdCount), t)
                        } else if !rising(f, thresholds) {
                            (Err(LoadError::ThresholdOrder), t)
                        } else {
                            (Ok(Func::IntervalSelect { selector: Box::new(selector), thresholds, functions }), t)
                        },
                    }
                },
            },
        },
    }
}

/// A cache: one per input.
pub open spec fn cache_func<F: Fn(Ask) -> u64>(f: F, st: Reading, o: Tree, depth: nat) -> Read
    decreases 2 * depth + 1, o, 4nat,
{
    match o.get("input"@) {
        None => (Err(LoadError::MissingField), st),
        Some(input) => match known_cache(st.caches, input, 0) {
            Some(n) => (Ok(n), st),
            None => match child(f, st, o, "input"@, depth) {
                (Err(e), s) => (Err(e), s),
                (Ok(x), s) => {
                    let n = Func::Cache { id: s.caches.len() as usize, cached: Box::new(x) };
                    (Ok(n), Reading { caches: s.caches.push((input, n)), ..s })
                },
            },
        },
    }
}

/// Cell interpolation.
pub open spec fn cells_func<F: Fn(Ask) -> u64>(f: F, st: Reading, o: Tree, depth: nat) -> Read
    decreases 2 * depth + 1, o, 4nat,
{
    match (integer_in(o, "cell_size_xz"@), integer_in(o, "cell_size_y"@)) {
        (Some(cell_size_xz), Some(cell_size_y)) => if cell_size_xz <= 0 || cell_size_y <= 0 {
            (Err(LoadError::CellSize), st)
        } else {
            match child(f, st, o, "input"@, depth) {
                (Err(e), s) => (Err(e), s),
                (Ok(x), s) => (Ok(Func::Interpolated { cell_size_xz, cell_size_y, corners: Box::new(x) }), s),
            }
        },
        _ => (Err(LoadError::NotInteger), st),
    }
}

/// A slice.
pub open spec fn slice_func<F: Fn(Ask) -> u64>(f: F, st: Reading, o: Tree, depth: nat) -> Read
    decreases 2 * depth + 1, o, 4nat,
{
    match text_in(o, "axis"@) {
        None => (Err(LoadError::NotText), st),
        Some(a) => match axis_named(a) {
            None => (Err(LoadError::UnknownAxis), st),
            Some(along) => match integer_in(o, "coordinate"@) {
                None => (Err(LoadError::NotInteger), st),
                Some(coordinate) => match child(f, st, o, "input"@, depth) {
                    (Err(e), s) => (Err(e), s),
                    (Ok(x), s) => (Ok(Func::Slice { along, coordinate, whole: Box::new(x) }), s),
                },
            },
        },
    }
}

/// A surface, sliced at height zero.
pub open spec fn surface_func<F: Fn(Ask) -> u64>(f: F, st: Reading, o: Tree, depth: nat) -> Read
    decreases 2 * depth + 1, o, 4nat,
{
    match integer_in(o, "cell_height"@) {
        None => (Err(LoadError::NotInteger), st),
        Some(cell_height) => if cell_height <= 0 {
            (Err(LoadError::CellSize), st)
        } else {
            match pair_read(f, st, o, "density"@, "upper_bound"@, depth) {
                (Err(e), s) => (Err(e), s),
                (Ok((d, u)), s) => match integer_in(o, "lower_bound"@) {
                    None => (Err(LoadError::NotInteger), s),
                    Some(lower_bound) => (
                        Ok(
                            Func::Slice {
                                along: Axis::Y,
                                coordinate: 0,
                                whole: Box::new(
                                    Func::FindTopSurface {
                                        density: Box::new(d),
                                        upper_bound: Box::new(u),
                                        lower_bound,
                                        cell_height,
                                    },
                                ),
                            },
                        ),
                        s,
                    ),
                },
            }
        },
    }
}

/// A clamp.
pub open spec fn clamp_func<F: Fn(Ask) -> u64>(f: F, st: Reading, o: Tree, depth: nat) -> Read
    decreases 2 * depth + 1, o, 4nat,
{
    match (single_in(f, o, "min"@), single_in(f, o, "max"@)) {
        (Some(min), Some(max)) => if holds(f, Ask::Less32(max, min)) {
            (Err(LoadError::EmptyClamp), st)
        } else {
            match child(f, st, o, "input"@, depth) {
                (Err(e), s) => (Err(e), s),
                (Ok(x), s) => (Ok(unary_func(Unary::Clamp(min, max), x)), s),
            }
        },
        _ => (Err(LoadError::NotNumber), st),
    }
}

/// An interpolation between two functions.
pub open spec fn lerp_func<F: Fn(Ask) -> u64>(f: F, st: Reading, o: Tree, depth: nat) -> Read
    decreases 2 * depth + 1, o, 4nat,
{
    match child(f, st, o, "alpha"@, depth) {
        (Err(e), s) => (Err(e), s),
        (Ok(a), s) => match pair_read(f, s, o, "first"@, "second"@, depth) {
            (Err(e), t) => (Err(e), t),
            (Ok((p, q)), t) => (Ok(Func::Lerp { alpha: Box::new(a), first: Box::new(p), second: Box::new(q) }), t),
        },
    }
}

/// A spline: a number, or knots over a coordinate.
pub open spec fn spline_read<F: Fn(Ask) -> u64>(f: F, st: Reading, v: Tree, depth: nat) -> (Result<Knots, LoadError>, Reading)
    decreases 2 * depth + 1, v, 4nat,
{
    match v {
        Tree::Number { value, .. } => (Ok(Knots::Constant(low(f, Ask::Narrow(value)))), st),
        Tree::Object(fields) => match child(f, st, v, "coordinate"@, depth) {
            (Err(e), s) => (Err(e), s),
            (Ok(c), s) => {
                let t = v.get("coordinate"@).unwrap();
                points_read(f, s.with_coordinate(t), fields, place_of_coordinate(s.coordinates, t, 0) as usize, c, depth)
            },
        },
        _ => (Err(LoadError::Unexpected), st),
    }
}

pub open spec fn points_read<F: Fn(Ask) -> u64>(
    f: F, st: Reading, fields: Seq<(Seq<char>, Tree)>, key: usize, c: Func, depth: nat,
) -> (Result<Knots, LoadError>, Reading)
    decreases 2 * depth + 1, fields, 1nat,
{
    match field_from(fields, "points"@, 0) {
        Some(k) => if 0 <= k < fields.len() {
            match fields_points_read(f, st, fields[k].1, depth) {
                (Err(e), s) => (Err(e), s),
                (Ok(p), s) => if p.len() == 0 {
                    (Err(LoadError::NoKnots), s)
                } else if !climbing(f, locations_of(p)) {
                    (Err(LoadError::KnotOrder), s)
                } else {
                    (
                        Ok(
                            Knots::Multipoint {
                                key,
                                coordinate: Box::new(c),
                                locations: locations_of(p),
                                values: values_of(p),
                                derivatives: slopes_of(p),
                            },
                        ),
                        s,
                    )
                },
            }
        } else {
            (Err(LoadError::NotList), st)
        },
        None => (Err(LoadError::NotList), st),
    }
}

/// Location, value and slope of knots.
pub open spec fn locations_of(p: Seq<(u32, Knots, u32)>) -> Seq<u32> {
    Seq::new(p.len(), |i: int| p[i].0)
}

pub open spec fn values_of(p: Seq<(u32, Knots, u32)>) -> Seq<Knots> {
    Seq::new(p.len(), |i: int| p[i].1)
}

pub open spec fn slopes_of(p: Seq<(u32, Knots, u32)>) -> Seq<u32> {
    Seq::new(p.len(), |i: int| p[i].2)
}

pub open spec fn fields_points_read<F: Fn(Ask) -> u64>(f: F, st: Reading, v: Tree, depth: nat) -> (
    Result<Seq<(u32, Knots, u32)>, LoadError>,
    Reading,
)
    decreases 2 * depth + 1, v, 1nat,
{
    match v {
        Tree::List(l) => knots_read(f, st, l, l.len(), depth),
        _ => (Err(LoadError::NotList), st),
    }
}

/// The first `n` knots of a list.
pub open spec fn knots_read<F: Fn(Ask) -> u64>(f: F, st: Reading, l: Seq<Tree>, n: nat, depth: nat) -> (
    Result<Seq<(u32, Knots, u32)>, LoadError>,
    Reading,
)
    decreases 2 * depth + 1, l, n,
{
    if n == 0 || n > l.len() {
        (Ok(Seq::empty()), st)
    } else {
        match knots_read(f, st, l, (n - 1) as nat, depth) {
            (Err(e), s) => (Err(e), s),
            (Ok(before), s) => match knot_read(f, s, l[n - 1], depth) {
                (Err(e), t) => (Err(e), t),
                (Ok(x), t) => (Ok(before.push(x)), t),
            },
        }
    }
}

/// One knot.
pub open spec fn knot_read<F: Fn(Ask) -> u64>(f: F, st: Reading, p: Tree, depth: nat) -> (
    Result<(u32, Knots, u32), LoadError>,
    Reading,
)
    decreases 2 * depth + 1, p, 5nat,
{
    match p {
        Tree::Object(fields) => match (single_in(f, p, "location"@), single_in(f, p, "derivative"@)) {
            (Some(location), Some(slope)) => match value_read(f, st, fields, depth) {
                (Err(e), s) => (Err(e), s),
                (Ok(k), s) => (Ok((location, k, slope)), s),
            },
            _ => (Err(LoadError::NotNumber), st),
        },
        _ => (Err(LoadError::Unexpected), st),
    }
}

pub open spec fn value_read<F: Fn(Ask) -> u64>(f: F, st: Reading, fields: Seq<(Seq<char>, Tree)>, depth: nat) -> (
    Result<Knots, LoadError>,
    Reading,
)
    decreases 2 * depth + 1, fields, 0nat,
{
    match field_from(fields, "value"@, 0) {
        Some(k) => if 0 <= k < fields.len() {
            spline_read(f, st, fields[k].1, depth)
        } else {
            (Err(LoadError::MissingField), st)
        },
        None => (Err(LoadError::MissingField), st),
    }
}

/// The spline of an object.
pub open spec fn spline_func<F: Fn(Ask) -> u64>(f: F, st: Reading, o: Tree, depth: nat) -> Read
    decreases 2 * depth + 1, o, 4nat,
{
    match o {
        Tree::Object(fields) => spline_field(f, st, fields, depth),
        _ => (Err(LoadError::MissingField), st),
    }
}

pub open spec fn spline_field<F: Fn(Ask) -> u64>(f: F, st: Reading, fields: Seq<(Seq<char>, Tree)>, depth: nat) -> Read
    decreases 2 * depth + 1, fields, 0nat,
{
    match field_from(fields, "spline"@, 0) {
        Some(k) => if 0 <= k < fields.len() {
            match spline_read(f, st, fields[k].1, depth) {
                (Err(e), s) => (Err(e), s),
                (Ok(sp), s) => (Ok(Func::Spline(sp)), s),
            }
        } else {
            (Err(LoadError::MissingField), st)
        },
        None => (Err(LoadError::MissingField), st),
    }
}

/// A function by its type.
pub open spec fn object<F: Fn(Ask) -> u64>(f: F, st: Reading, o: Tree, depth: nat) -> Read
    decreases 2 * depth + 1, o, 6nat,
{
    match text_in(o, "type"@) {
        None => (Err(LoadError::MissingType), st),
        Some(t) => typed(f, st, o, plain_type(t), depth),
    }
}

/// A function of a type.
pub open spec fn typed<F: Fn(Ask) -> u64>(f: F, st: Reading, o: Tree, ty: Seq<char>, depth: nat) -> Read
    decreases 2 * depth + 1, o, 5nat,
{
    if ty == "constant"@ {
        match single_in(f, o, "argument"@) {
            Some(c) => (Ok(Func::Constant(c)), st),
            None => (Err(LoadError::NotNumber), st),
        }
    } else if binary_named(ty) is Some {
        match pair_read(f, st, o, "left"@, "right"@, depth) {
            (Err(e), s) => (Err(e), s),
            (Ok((l, r)), s) => (Ok(paired(f, binary_named(ty).unwrap(), l, r)), s),
        }
    } else if unary_named(ty) is Some {
        match child(f, st, o, "input"@, depth) {
            (Err(e), s) => (Err(e), s),
            (Ok(x), s) => (Ok(unary_func(unary_named(ty).unwrap(), x)), s),
        }
    } else if ty == "pow"@ {
        match pair_read(f, st, o, "base"@, "exponent"@, depth) {
            (Err(e), s) => (Err(e), s),
            (Ok((b, x)), s) => (Ok(raised(f, b, x)), s),
        }
    } else if rounding_named(ty) is Some {
        rounded_func(f, st, o, rounding_named(ty).unwrap(), depth)
    } else if ty == "noise"@ {
        noise_func(f, st, o, depth)
    } else if ty == "shift"@ || ty == "shift_a"@ || ty == "shift_b"@ {
        shift_func(st, o, ty)
    } else if ty == "gradient"@ {
        (gradient_in(f, o), st)
    } else if ty == "lerp"@ {
        lerp_func(f, st, o, depth)
    } else if ty == "clamp"@ {
        clamp_func(f, st, o, depth)
    } else if ty == "range_choice"@ {
        range_func(f, st, o, depth)
    } else if ty == "interval_select"@ {
        select_func(f, st, o, depth)
    } else if ty == "cache"@ {
        cache_func(f, st, o, depth)
    } else if ty == "blend_density"@ {
        match child(f, st, o, "input"@, depth) {
            (Err(e), s) => (Err(e), s),
            (Ok(x), s) => (Ok(Func::BlendDensity(Box::new(x))), s),
        }
    } else if ty == "blend_alpha"@ {
        (Ok(Func::BlendAlpha), st)
    } else if ty == "blend_offset"@ {
        (Ok(Func::BlendOffset), st)
    } else if ty == "beardifier"@ {
        (Ok(Func::Beardifier), st)
    } else if ty == "interpolated"@ {
        cells_func(f, st, o, depth)
    } else if ty == "slice"@ {
        slice_func(f, st, o, depth)
    } else if ty == "find_top_surface"@ {
        surface_func(f, st, o, depth)
    } else if ty == "distance_to_point"@ {
        (distance_in(o), st)
    } else if ty == "spline"@ {
        spline_func(f, st, o, depth)
    } else if ty == "old_blended_noise"@ {
        blended_in(f, st, o)
    } else if ty == "end_outer_islands"@ {
        (Err(LoadError::Unsupported), st)
    } else {
        (Err(LoadError::UnknownType), st)
    }
}

} // verus!
