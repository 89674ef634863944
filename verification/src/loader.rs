//! Reads density functions out of data pack documents.

use std::sync::Arc;
use vstd::prelude::*;
use vstd::string::*;
use crate::arith::{answers, holds, low, Ask, HALF_32, ONE_32, QUARTER};
use crate::df26::{wrap, Axis, Binary, Metric, Node, RoundKind, Spline, Tiling, Unary, FOUR_32, TWO_32};
use crate::dfcache::{agrees, agrees_spline, inner};
use crate::dfmodel::{
    all_knots_of, extends, func_of, funcs_of, knots_of, lemma_agrees_grows, lemma_agrees_spline_grows, lemma_funcs, maybe_func,
    Func, Knots,
};
use crate::dfrewrite::{lemma_funcs_prefix, lemma_knots_prefix, rewritten, share, Axes, SliceUniformAxes};
use crate::json::{field_from, fields, lemma_fields, lemma_trees, tree, trees, Json, LoadError, Tree};
use crate::load::{
    axis_named, binary_named, blended_in, cache_func, cells_func, child, clamp_func, climbing, constant_of, distance_in,
    double_in, field_list_read, field_read, fields_points_read, find_doc, full_name, functions_read, gradient_in, knot_read,
    knots_read, known_cache, known_function, known_stack, lerp_func, list_in, list_read, locations_of, maybe_child,
    metric_named, narrowed, noise_func, noise_read, object, pair_read, paired, place_of_coordinate, points_read, plain_noise,
    plain_type, raised, range_func, read, reference, rising, rounded_func, rounding_named, select_func, shift_func, shift_read,
    single_in, slice_func, slopes_of, spline_field, spline_func, spline_read, surface_func, text_in, tiling_in, tree_list_read,
    typed, unary_func, unary_named, value_read, values_of, without_name, Origin, Reading, BLENDED_SCALE, THREE_32,
};
use crate::noise26::{get_integer, read_doubles, NoiseParameters26};
use crate::text::same_text;

verus! {

/// Where a noise stack comes from.
#[derive(Debug)]
pub enum NoiseOrigin {
    /// A noise by its full name.
    Named { name: String, parameters: NoiseParameters26 },
    /// A part of the blended terrain noise: the lower limit, the upper
    /// limit and the main noise, smeared along y.
    Blended { part: u8, limit_smear: u64, main_smear: u64 },
}

impl View for NoiseOrigin {
    type V = Origin;

    open spec fn view(&self) -> Origin {
        match *self {
            NoiseOrigin::Named { name, parameters } => Origin::Named { name: name@, parameters: parameters@ },
            NoiseOrigin::Blended { part, limit_smear, main_smear } => Origin::Blended {
                part: part as int,
                limit_smear,
                main_smear,
            },
        }
    }
}

/// Reads documents and keeps what was read.
pub struct Loader {
    docs: Vec<(String, String, Arc<Json>)>,
    seed: i64,
    functions: Vec<(String, Arc<Node>)>,
    origins: Vec<NoiseOrigin>,
    loading: Vec<String>,
    caches: Vec<(Json, Arc<Node>)>,
    coordinates: Vec<Json>,
}

/// A name with its namespace.
pub fn full_id(id: &str) -> (r: String)
    ensures
        r@ == full_name(id@),
{
    if has_colon(id) { id.to_string() } else { "minecraft:".to_string().concat(id) }
}

fn has_colon(id: &str) -> (r: bool)
    ensures
        r == id@.contains(':'),
{
    let n: usize = id.unicode_len();
    let mut i: usize = 0;
    while i < n
        invariant
            i <= n,
            n == id@.len(),
            forall|k: int| 0 <= k < i ==> id@[k] != ':',
        decreases n - i,
    {
        if id.get_char(i) == ':' {
            return true;
        }
        i += 1;
    }
    false
}

impl View for Loader {
    type V = Reading;

    closed spec fn view(&self) -> Reading {
        Reading {
            docs: self.docs@.map_values(|d: (String, String, Arc<Json>)| (d.0@, d.1@, tree(*d.2))),
            functions: self.functions@.map_values(|p: (String, Arc<Node>)| (p.0@, func_of(*p.1))),
            origins: self.origins@.map_values(|o: NoiseOrigin| o@),
            loading: self.loading@.map_values(|s: String| s@),
            caches: self.caches@.map_values(|p: (Json, Arc<Node>)| (tree(p.0), func_of(*p.1))),
            coordinates: self.coordinates@.map_values(|j: Json| tree(j)),
        }
    }
}

/// The input of a cache.
spec fn input_of(n: Node) -> Node {
    match n {
        Node::Cache { cached, .. } => *cached,
        _ => n,
    }
}

/// The function of a result.
pub open spec fn outcome(r: Result<Arc<Node>, LoadError>) -> Result<Func, LoadError> {
    match r {
        Ok(n) => Ok(func_of(*n)),
        Err(e) => Err(e),
    }
}

impl Loader {
    /// The inputs of the caches, by id.
    pub closed spec fn inputs(&self) -> Map<usize, Node> {
        Map::new(|id: usize| id < self.caches@.len(), |id: usize| input_of(*self.caches@[id as int].1))
    }

    /// Every cache has the id of its place, and everything agrees on their
    /// inputs.
    pub closed spec fn wf(&self) -> bool {
        &&& self.docs@.len() < usize::MAX
        &&& forall|i: int|
            0 <= i < self.caches@.len() ==> {
                &&& *(#[trigger] self.caches@[i]).1 matches Node::Cache { id, .. } && id == i
                &&& agrees(*self.caches@[i].1, self.inputs())
            }
        &&& forall|i: int| 0 <= i < self.functions@.len() ==> agrees(*(#[trigger] self.functions@[i]).1, self.inputs())
    }

    /// What a step keeps: documents, and caches already there.
    pub open spec fn went_on(&self, o: &Loader) -> bool {
        self.wf() && extends(o.inputs(), self.inputs()) && self.world_seed() == o.world_seed()
    }

    pub closed spec fn world_seed(&self) -> i64 {
        self.seed
    }

    /// A result agrees with the caches.
    pub open spec fn admits(&self, r: Result<Arc<Node>, LoadError>) -> bool {
        r matches Ok(n) ==> agrees(*n, self.inputs())
    }

    /// The stack of a noise, made on first use.
    pub fn noise(&mut self, id: &str) -> (r: Result<usize, LoadError>)
        requires
            old(self).wf(),
        ensures
            (r, final(self)@) == noise_read(old(self)@, id@),
            final(self).went_on(old(self)),
            final(self).inputs() == old(self).inputs(),
    {
        let name: String = full_id(id);
        let mut k: usize = 0;
        while k < self.origins.len()
            invariant
                k <= self.origins@.len(),
                *self == *old(self),
                old(self).wf(),
                name@ == full_name(id@),
                known_stack(self@.origins, name@, 0) == known_stack(self@.origins, name@, k as int),
            decreases self.origins.len() - k,
        {
            proof { assert(self@.origins[k as int] == self.origins@[k as int]@); }
            match &self.origins[k] {
                NoiseOrigin::Named { name: other, .. } => {
                    if same_text(other.as_str(), name.as_str()) {
                        return Ok(k);
                    }
                },
                NoiseOrigin::Blended { .. } => {},
            }
            k += 1;
        }
        let parameters = match self.find_document("noise", name.as_str()) {
            None => return Err(LoadError::NotProvided),
            Some(t) => match NoiseParameters26::from_json(&*t) {
                Err(e) => return Err(e),
                Ok(p) => p,
            },
        };
        let n: usize = self.origins.len();
        self.origins.push(NoiseOrigin::Named { name, parameters });
        proof {
            assert(self@.origins =~= old(self)@.origins.push(self.origins@[n as int]@));
            assert(self@.docs =~= old(self)@.docs);
            assert(self.inputs() =~= old(self).inputs());
        }
        Ok(n)
    }

    /// The document of a kind with a full name.
    fn find_document(&self, kind: &str, name: &str) -> (r: Option<Arc<Json>>)
        ensures
            r is Some <==> self@.doc(kind@, name@) is Some,
            r matches Some(t) ==> self@.doc(kind@, name@) == Some(tree(*t)),
    {
        let mut n: usize = self.docs.len();
        while n > 0
            invariant
                n <= self.docs@.len(),
                find_doc(self@.docs, kind@, name@, n as nat) == self@.doc(kind@, name@),
            decreases n,
        {
            proof { assert(self@.docs[n - 1] == (self.docs@[n - 1].0@, self.docs@[n - 1].1@, tree(*self.docs@[n - 1].2))); }
            if same_text(self.docs[n - 1].0.as_str(), kind) && same_text(self.docs[n - 1].1.as_str(), name) {
                return Some(share(&self.docs[n - 1].2));
            }
            n -= 1;
        }
        None
    }
}

/// A field found lies among the fields.
pub proof fn lemma_field_bounds(fields: Seq<(Seq<char>, Tree)>, name: Seq<char>, k: int)
    requires
        0 <= k,
    ensures
        field_from(fields, name, k) matches Some(j) ==> k <= j < fields.len(),
    decreases fields.len() - k,
{
    if k < fields.len() && fields[k].0 != name {
        lemma_field_bounds(fields, name, k + 1);
    }
}

/// A child is what its field says.
proof fn lemma_child<F: Fn(Ask) -> u64>(f: F, st: Reading, o: Tree, key: Seq<char>, depth: nat)
    ensures
        child(f, st, o, key, depth) == (match o.get(key) {
            Some(t) => read(f, st, t, depth),
            None => (Err(LoadError::MissingField), st),
        }),
{
    match o {
        Tree::Object(fields) => {
            lemma_field_bounds(fields, key, 0);
            assert(child(f, st, o, key, depth) == field_read(f, st, fields, key, depth));
        },
        _ => {},
    }
}

/// The number of a field, as a double and as a single.
pub(crate) fn get_double(o: &Json, key: &str) -> (r: Option<u64>)
    ensures
        r == double_in(tree(*o), key@),
{
    match o.get(key) {
        Some(x) => x.as_double(),
        None => None,
    }
}

pub(crate) fn get_single<F: Fn(Ask) -> u64>(f: &F, o: &Json, key: &str) -> (r: Option<u32>)
    requires
        answers(*f),
    ensures
        r == single_in(*f, tree(*o), key@),
{
    match get_double(o, key) {
        Some(v) => Some(f(Ask::Narrow(v)) as u32),
        None => None,
    }
}

/// The text of a field.
pub(crate) fn get_text<'a>(o: &'a Json, key: &str) -> (r: Option<&'a str>)
    ensures
        r is Some <==> text_in(tree(*o), key@) is Some,
        r matches Some(s) ==> text_in(tree(*o), key@) == Some(s@),
{
    match o.get(key) {
        Some(x) => x.as_str(),
        None => None,
    }
}

/// A constant function.
fn constant_in(n: &Node) -> (r: Option<u32>)
    ensures
        r == constant_of(func_of(*n)),
{
    match n {
        Node::Constant(c) => Some(*c),
        _ => None,
    }
}

fn one_input(op: Unary, n: Arc<Node>) -> (r: Arc<Node>)
    ensures
        func_of(*r) == unary_func(op, func_of(*n)),
        forall|m: Map<usize, Node>| agrees(*n, m) ==> #[trigger] agrees(*r, m),
{
    Arc::new(Node::Unary { op, input: n })
}

/// Two sides combined, a constant side folded in.
fn combine_sides<F: Fn(Ask) -> u64>(f: &F, op: Binary, l: Arc<Node>, r: Arc<Node>) -> (n: Arc<Node>)
    requires
        answers(*f),
    ensures
        func_of(*n) == paired(*f, op, func_of(*l), func_of(*r)),
        forall|m: Map<usize, Node>| agrees(*l, m) && agrees(*r, m) ==> #[trigger] agrees(*n, m),
{
    let (a, b): (Option<u32>, Option<u32>) = (constant_in(&*l), constant_in(&*r));
    if let Some(c) = a {
        let one = match op {
            Binary::Add => Unary::AddConst(c),
            Binary::Sub => Unary::ConstMinus(c),
            Binary::Mul => Unary::MulConst(c),
            Binary::Div => Unary::ConstOver(c),
            Binary::Min => Unary::MinConst(c),
            _ => Unary::MaxConst(c),
        };
        return one_input(one, r);
    }
    if let Some(c) = b {
        let one = match op {
            Binary::Add => Unary::AddConst(c),
            Binary::Sub => Unary::AddConst(f(Ask::Neg32(c)) as u32),
            Binary::Mul => Unary::MulConst(c),
            Binary::Div => Unary::MulConst(f(Ask::Div32(ONE_32, c)) as u32),
            Binary::Min => Unary::MinConst(c),
            _ => Unary::MaxConst(c),
        };
        return one_input(one, l);
    }
    Arc::new(Node::Binary { combine: op, left: l, right: r })
}

/// A power.
fn raise<F: Fn(Ask) -> u64>(f: &F, base: Arc<Node>, exponent: Arc<Node>) -> (n: Arc<Node>)
    requires
        answers(*f),
    ensures
        func_of(*n) == raised(*f, func_of(*base), func_of(*exponent)),
        forall|m: Map<usize, Node>| agrees(*base, m) && agrees(*exponent, m) ==> #[trigger] agrees(*n, m),
{
    if let Some(c) = constant_in(&*base) {
        return one_input(Unary::PowBase(f(Ask::Widen(c))), exponent);
    }
    if let Some(e) = constant_in(&*exponent) {
        let a: u32 = f(Ask::Abs32(e)) as u32;
        let half: bool = f(Ask::Equal32(a, HALF_32)) != 0;
        if f(Ask::Equal32(a, ONE_32)) != 0 && !half {
            return base;
        }
        let special = if half {
            Unary::Sqrt
        } else if f(Ask::Equal32(a, TWO_32)) != 0 {
            Unary::Square
        } else if f(Ask::Equal32(a, THREE_32)) != 0 {
            Unary::Cube
        } else {
            Unary::PowExp(f(Ask::Widen(a)))
        };
        let n = one_input(special, base);
        return if f(Ask::LessEq32(0, e)) != 0 { n } else { one_input(Unary::Reciprocal, n) };
    }
    Arc::new(Node::Binary { combine: Binary::Pow, left: base, right: exponent })
}

fn find_unary(ty: &str) -> (r: Option<Unary>)
    ensures
        r == unary_named(ty@),
{
    if same_text(ty, "abs") {
        Some(Unary::Abs)
    } else if same_text(ty, "square") {
        Some(Unary::Square)
    } else if same_text(ty, "cube") {
        Some(Unary::Cube)
    } else if same_text(ty, "sqrt") {
        Some(Unary::Sqrt)
    } else if same_text(ty, "half_negative") {
        Some(Unary::HalfNegative)
    } else if same_text(ty, "quarter_negative") {
        Some(Unary::QuarterNegative)
    } else if same_text(ty, "reciprocal") {
        Some(Unary::Reciprocal)
    } else if same_text(ty, "negate") {
        Some(Unary::Negate)
    } else if same_text(ty, "squeeze") {
        Some(Unary::Squeeze)
    } else if same_text(ty, "log") {
        Some(Unary::Log)
    } else if same_text(ty, "sign") {
        Some(Unary::Sign)
    } else {
        None
    }
}

fn find_binary(ty: &str) -> (r: Option<Binary>)
    ensures
        r == binary_named(ty@),
{
    if same_text(ty, "add") {
        Some(Binary::Add)
    } else if same_text(ty, "sub") {
        Some(Binary::Sub)
    } else if same_text(ty, "mul") {
        Some(Binary::Mul)
    } else if same_text(ty, "div") {
        Some(Binary::Div)
    } else if same_text(ty, "min") {
        Some(Binary::Min)
    } else if same_text(ty, "max") {
        Some(Binary::Max)
    } else {
        None
    }
}

fn find_rounding(ty: &str) -> (r: Option<RoundKind>)
    ensures
        r == rounding_named(ty@),
{
    if same_text(ty, "floor") {
        Some(RoundKind::Floor)
    } else if same_text(ty, "round") {
        Some(RoundKind::Round)
    } else if same_text(ty, "ceil") {
        Some(RoundKind::Ceil)
    } else if same_text(ty, "truncate") {
        Some(RoundKind::Truncate)
    } else {
        None
    }
}

fn parse_axis(s: &str) -> (r: Option<Axis>)
    ensures
        r == axis_named(s@),
{
    if same_text(s, "x") {
        Some(Axis::X)
    } else if same_text(s, "y") {
        Some(Axis::Y)
    } else if same_text(s, "z") {
        Some(Axis::Z)
    } else {
        None
    }
}

fn find_metric(s: &str) -> (r: Option<Metric>)
    ensures
        r == metric_named(s@),
{
    if same_text(s, "euclidean") {
        Some(Metric::Euclidean)
    } else if same_text(s, "euclidean_squared") {
        Some(Metric::EuclideanSquared)
    } else if same_text(s, "manhattan") {
        Some(Metric::Manhattan)
    } else if same_text(s, "chebyshev") {
        Some(Metric::Chebyshev)
    } else {
        None
    }
}

fn find_tiling(o: &Json) -> (r: Option<Tiling>)
    ensures
        r == tiling_in(tree(*o)),
{
    match get_text(o, "tiling") {
        None => Some(Tiling::ClampToEdge),
        Some(t) => {
            if same_text(t, "clamp_to_edge") {
                Some(Tiling::ClampToEdge)
            } else if same_text(t, "repeat") {
                Some(Tiling::Repeat)
            } else if same_text(t, "mirrored_repeat") {
                Some(Tiling::MirroredRepeat)
            } else {
                None
            }
        },
    }
}

/// The gradient of an object.
fn gradient_node<F: Fn(Ask) -> u64>(f: &F, o: &Json) -> (r: Result<Arc<Node>, LoadError>)
    requires
        answers(*f),
    ensures
        outcome(r) == gradient_in(*f, tree(*o)),
        r matches Ok(n) ==> forall|m: Map<usize, Node>| #[trigger] agrees(*n, m),
{
    let axis = match get_text(o, "axis") {
        None => return Err(LoadError::NotText),
        Some(a) => match parse_axis(a) {
            None => return Err(LoadError::UnknownAxis),
            Some(a) => a,
        },
    };
    let tiling = match find_tiling(o) {
        None => return Err(LoadError::UnknownTiling),
        Some(t) => t,
    };
    let (from, to): (i32, i32) = match (get_integer(o, "from_coordinate"), get_integer(o, "to_coordinate")) {
        (Some(a), Some(b)) => (a, b),
        _ => return Err(LoadError::NotInteger),
    };
    if from == to {
        return Err(LoadError::EmptyGradient);
    }
    let (low_value, high): (u32, u32) = match (get_single(f, o, "from_value"), get_single(f, o, "to_value")) {
        (Some(a), Some(b)) => (a, b),
        _ => return Err(LoadError::NotNumber),
    };
    let rise: u32 = f(Ask::Sub32(high, low_value)) as u32;
    let run: u32 = f(Ask::FromInt32(wrap(to as i128 - from as i128))) as u32;
    let factor: u32 = f(Ask::Div32(rise, run)) as u32;
    Ok(
        Arc::new(
            Node::Gradient { axis, tiling, from_coordinate: from, to_coordinate: to, from_value: low_value, factor },
        ),
    )
}

/// The distance function of an object.
fn distance_node(o: &Json) -> (r: Result<Arc<Node>, LoadError>)
    ensures
        outcome(r) == distance_in(tree(*o)),
        r matches Ok(n) ==> forall|m: Map<usize, Node>| #[trigger] agrees(*n, m),
{
    let metric = match get_text(o, "metric") {
        None => return Err(LoadError::NotText),
        Some(m) => match find_metric(m) {
            None => return Err(LoadError::UnknownMetric),
            Some(m) => m,
        },
    };
    let p = match o.get("point") {
        None => return Err(LoadError::NotList),
        Some(v) => match v.as_array() {
            None => return Err(LoadError::NotList),
            Some(p) => p,
        },
    };
    proof { lemma_trees(p@, p@.len()); }
    if p.len() != 3 {
        return Err(LoadError::PointSize);
    }
    match (p[0].as_integer(), p[1].as_integer(), p[2].as_integer()) {
        (Some(x), Some(y), Some(z)) => Ok(
            Arc::new(Node::DistanceToPoint { metric, x: wrap(x as i128), y: wrap(y as i128), z: wrap(z as i128) }),
        ),
        _ => Err(LoadError::NotInteger),
    }
}

impl Loader {
    /// An inline function, a constant, or a reference.
    fn parse_at<F: Fn(Ask) -> u64>(&mut self, v: &Json, f: &F, depth: usize) -> (r: Result<Arc<Node>, LoadError>)
        requires
            answers(*f),
            old(self).wf(),
        ensures
            (outcome(r), final(self)@) == read(*f, old(self)@, tree(*v), depth as nat),
            final(self).went_on(old(self)),
            final(self).admits(r),
        decreases 2 * depth + 1, *v, 9nat,
    {
        match v {
            Json::Number { value, .. } => Ok(Arc::new(Node::Constant(f(Ask::Narrow(*value)) as u32))),
            Json::Text(s) => self.reference(s.as_str(), f, depth),
            Json::Object(_) => self.parse_object(v, f, depth),
            _ => Err(LoadError::Unexpected),
        }
    }

    fn reference<F: Fn(Ask) -> u64>(&mut self, id: &str, f: &F, depth: usize) -> (r: Result<Arc<Node>, LoadError>)
        requires
            answers(*f),
            old(self).wf(),
        ensures
            (outcome(r), final(self)@) == reference(*f, old(self)@, id@, depth as nat),
            final(self).went_on(old(self)),
            final(self).admits(r),
        decreases 2 * depth, Json::Null, 0nat,
    {
        let name: String = full_id(id);
        let mut k: usize = 0;
        while k < self.functions.len()
            invariant
                k <= self.functions@.len(),
                *self == *old(self),
                old(self).wf(),
                name@ == full_name(id@),
                known_function(self@.functions, name@, 0) == known_function(self@.functions, name@, k as int),
            decreases self.functions.len() - k,
        {
            proof { assert(self@.functions[k as int] == (self.functions@[k as int].0@, func_of(*self.functions@[k as int].1))); }
            if same_text(self.functions[k].0.as_str(), name.as_str()) {
                return Ok(share(&self.functions[k].1));
            }
            k += 1;
        }
        if self.is_loading(name.as_str()) || depth == 0 {
            return Err(LoadError::Cycle);
        }
        let doc = self.find_document("density_function", name.as_str());
        self.loading.push(name.clone());
        let ghost begun = self@;
        proof {
            assert(begun =~= (Reading { loading: old(self)@.loading.push(name@), ..old(self)@ })) by {
                assert(begun.loading =~= old(self)@.loading.push(name@));
                assert(begun.docs =~= old(self)@.docs);
            }
            assert(self.inputs() =~= old(self).inputs());
        }
        let t = match doc {
            None => return Err(LoadError::NotProvided),
            Some(t) => t,
        };
        let n = match self.parse_at(&*t, f, depth - 1) {
            Err(e) => return Err(e),
            Ok(n) => n,
        };
        let ghost mid = *self;
        self.forget_loading(name.as_str());
        let ghost before = self.functions@;
        self.functions.push((name, share(&n)));
        proof {
            assert(self.inputs() =~= mid.inputs());
            assert(self@.functions =~= mid@.functions.push((full_name(id@), func_of(*n))));
        }
        Ok(n)
    }

    /// Whether a function is being read.
    fn is_loading(&self, name: &str) -> (r: bool)
        ensures
            r == self@.loading.contains(name@),
    {
        let mut k: usize = 0;
        while k < self.loading.len()
            invariant
                k <= self.loading@.len(),
                forall|i: int| 0 <= i < k ==> #[trigger] self@.loading[i] != name@,
            decreases self.loading.len() - k,
        {
            proof { assert(self@.loading[k as int] == self.loading@[k as int]@); }
            if same_text(self.loading[k].as_str(), name) {
                return true;
            }
            k += 1;
        }
        false
    }

    /// A function is no longer being read.
    fn forget_loading(&mut self, name: &str)
        requires
            old(self).wf(),
        ensures
            final(self)@ == (Reading {
                loading: without_name(old(self)@.loading, name@, old(self)@.loading.len()),
                ..old(self)@
            }),
            final(self).wf(),
            final(self).inputs() == old(self).inputs(),
            final(self).functions == old(self).functions,
            final(self).caches == old(self).caches,
            final(self).seed == old(self).seed,
    {
        let mut rest: Vec<String> = Vec::new();
        let mut k: usize = 0;
        let ghost all = self@.loading;
        proof { assert(rest@.map_values(|s: String| s@) =~= without_name(all, name@, 0)); }
        while k < self.loading.len()
            invariant
                k <= self.loading@.len(),
                *self == *old(self),
                all == self@.loading,
                rest@.map_values(|s: String| s@) == without_name(all, name@, k as nat),
            decreases self.loading.len() - k,
        {
            proof { assert(all[k as int] == self.loading@[k as int]@); }
            let ghost before = rest@;
            if !same_text(self.loading[k].as_str(), name) {
                rest.push(self.loading[k].clone());
                proof {
                    assert(rest@.map_values(|s: String| s@) =~= before.map_values(|s: String| s@).push(all[k as int]));
                }
            }
            k += 1;
        }
        self.loading = rest;
        proof { assert(self.inputs() =~= old(self).inputs()); }
    }

    fn child<F: Fn(Ask) -> u64>(&mut self, o: &Json, key: &str, f: &F, depth: usize) -> (r: Result<Arc<Node>, LoadError>)
        requires
            answers(*f),
            old(self).wf(),
        ensures
            (outcome(r), final(self)@) == child(*f, old(self)@, tree(*o), key@, depth as nat),
            final(self).went_on(old(self)),
            final(self).admits(r),
        decreases 2 * depth + 1, *o, 1nat,
    {
        proof { lemma_child(*f, self@, tree(*o), key@, depth as nat); }
        match o.get(key) {
            None => Err(LoadError::MissingField),
            Some(v) => self.parse_at(v, f, depth),
        }
    }

    fn maybe_child<F: Fn(Ask) -> u64>(&mut self, o: &Json, key: &str, f: &F, depth: usize) -> (r: Result<Option<Arc<Node>>, LoadError>)
        requires
            answers(*f),
            old(self).wf(),
        ensures
            ({
                let (x, s) = maybe_child(*f, old(self)@, tree(*o), key@, depth as nat);
                &&& s == final(self)@
                &&& match r {
                    Ok(Some(n)) => x == Ok::<Option<Func>, LoadError>(Some(func_of(*n))),
                    Ok(None) => x == Ok::<Option<Func>, LoadError>(None),
                    Err(e) => x == Err::<Option<Func>, LoadError>(e),
                }
            }),
            final(self).went_on(old(self)),
            r matches Ok(Some(n)) ==> agrees(*n, final(self).inputs()),
        decreases 2 * depth + 1, *o, 2nat,
    {
        if o.get(key).is_none() {
            return Ok(None);
        }
        match self.child(o, key, f, depth) {
            Ok(n) => Ok(Some(n)),
            Err(e) => Err(e),
        }
    }

    fn shift<F: Fn(Ask) -> u64>(&mut self, o: &Json, key: &str, f: &F, depth: usize) -> (r: Result<Option<Arc<Node>>, LoadError>)
        requires
            answers(*f),
            old(self).wf(),
        ensures
            ({
                let (x, s) = shift_read(*f, old(self)@, tree(*o), key@, depth as nat);
                &&& s == final(self)@
                &&& match r {
                    Ok(n) => x == Ok::<Option<Box<Func>>, LoadError>(maybe_func(n)),
                    Err(e) => x == Err::<Option<Box<Func>>, LoadError>(e),
                }
            }),
            final(self).went_on(old(self)),
            r matches Ok(Some(n)) ==> agrees(*n, final(self).inputs()),
        decreases 2 * depth + 1, *o, 3nat,
    {
        match self.maybe_child(o, key, f, depth) {
            Ok(Some(n)) => {
                let nothing: bool = match constant_in(&*n) {
                    Some(c) => c == 0 || c == 0x8000_0000,
                    None => false,
                };
                if nothing { Ok(None) } else { Ok(Some(n)) }
            },
            Ok(None) => Ok(None),
            Err(e) => Err(e),
        }
    }

    fn pair<F: Fn(Ask) -> u64>(&mut self, o: &Json, a: &str, b: &str, f: &F, depth: usize) -> (r: Result<(Arc<Node>, Arc<Node>), LoadError>)
        requires
            answers(*f),
            old(self).wf(),
        ensures
            ({
                let (x, s) = pair_read(*f, old(self)@, tree(*o), a@, b@, depth as nat);
                &&& s == final(self)@
                &&& match r {
                    Ok((p, q)) => x == Ok::<(Func, Func), LoadError>((func_of(*p), func_of(*q))),
                    Err(e) => x == Err::<(Func, Func), LoadError>(e),
                }
            }),
            final(self).went_on(old(self)),
            r matches Ok((p, q)) ==> agrees(*p, final(self).inputs()) && agrees(*q, final(self).inputs()),
        decreases 2 * depth + 1, *o, 2nat,
    {
        let p = match self.child(o, a, f, depth) {
            Ok(p) => p,
            Err(e) => return Err(e),
        };
        let ghost i = self.inputs();
        match self.child(o, b, f, depth) {
            Ok(q) => {
                proof { lemma_agrees_grows(inner(p), i, self.inputs()); }
                Ok((p, q))
            },
            Err(e) => Err(e),
        }
    }

    fn noise_node<F: Fn(Ask) -> u64>(&mut self, o: &Json, f: &F, depth: usize) -> (r: Result<Arc<Node>, LoadError>)
        requires
            answers(*f),
            old(self).wf(),
        ensures
            (outcome(r), final(self)@) == noise_func(*f, old(self)@, tree(*o), depth as nat),
            final(self).went_on(old(self)),
            final(self).admits(r),
        decreases 2 * depth + 1, *o, 4nat,
    {
        let name = match get_text(o, "noise") {
            None => return Err(LoadError::NotText),
            Some(n) => n,
        };
        let stack: usize = match self.noise(name) {
            Ok(s) => s,
            Err(e) => return Err(e),
        };
        let x = match self.shift(o, "shift_x", f, depth) {
            Ok(x) => x,
            Err(e) => return Err(e),
        };
        let ghost i = self.inputs();
        let y = match self.shift(o, "shift_y", f, depth) {
            Ok(y) => y,
            Err(e) => return Err(e),
        };
        let ghost j = self.inputs();
        let z = match self.shift(o, "shift_z", f, depth) {
            Ok(z) => z,
            Err(e) => return Err(e),
        };
        proof {
            if x is Some {
                lemma_agrees_grows(inner(x->Some_0), i, self.inputs());
            }
            if y is Some {
                lemma_agrees_grows(inner(y->Some_0), j, self.inputs());
            }
        }
        match (get_double(o, "xz_scale"), get_double(o, "y_scale")) {
            (Some(xz_scale), Some(y_scale)) => Ok(
                Arc::new(Node::Noise { stack, xz_scale, y_scale, shift_x: x, shift_y: y, shift_z: z }),
            ),
            _ => Err(LoadError::NotNumber),
        }
    }

    fn shift_node<F: Fn(Ask) -> u64>(&mut self, o: &Json, ty: &str, f: &F, depth: usize) -> (r: Result<Arc<Node>, LoadError>)
        requires
            answers(*f),
            old(self).wf(),
        ensures
            (outcome(r), final(self)@) == shift_func(old(self)@, tree(*o), ty@),
            final(self).went_on(old(self)),
            final(self).admits(r),
        decreases 2 * depth + 1, *o, 4nat,
    {
        let name = match get_text(o, "noise") {
            None => return Err(LoadError::NotText),
            Some(n) => n,
        };
        let stack: usize = match self.noise(name) {
            Ok(s) => s,
            Err(e) => return Err(e),
        };
        if same_text(ty, "shift_b") {
            return Ok(Arc::new(Node::ShiftB(stack)));
        }
        let y_scale: u64 = if same_text(ty, "shift") { QUARTER } else { 0 };
        Ok(one_input(Unary::MulConst(FOUR_32), plain_noise_node(stack, QUARTER, y_scale)))
    }

    fn rounded_node<F: Fn(Ask) -> u64>(&mut self, o: &Json, kind: RoundKind, f: &F, depth: usize) -> (r: Result<Arc<Node>, LoadError>)
        requires
            answers(*f),
            old(self).wf(),
        ensures
            (outcome(r), final(self)@) == rounded_func(*f, old(self)@, tree(*o), kind, depth as nat),
            final(self).went_on(old(self)),
            final(self).admits(r),
        decreases 2 * depth + 1, *o, 4nat,
    {
        let input = match self.child(o, "input", f, depth) {
            Ok(x) => x,
            Err(e) => return Err(e),
        };
        let ghost i = self.inputs();
        match self.maybe_child(o, "multiple", f, depth) {
            Err(e) => Err(e),
            Ok(None) => {
                proof { lemma_agrees_grows(inner(input), i, self.inputs()); }
                Ok(one_input(Unary::Round(kind), input))
            },
            Ok(Some(m)) => {
                proof { lemma_agrees_grows(inner(input), i, self.inputs()); }
                let plain: bool = match constant_in(&*m) {
                    Some(c) => f(Ask::Equal32(c, ONE_32)) != 0,
                    None => false,
                };
                if plain {
                    Ok(one_input(Unary::Round(kind), input))
                } else {
                    Ok(Arc::new(Node::Binary { combine: Binary::RoundTo(kind), left: input, right: m }))
                }
            },
        }
    }

    fn range_node<F: Fn(Ask) -> u64>(&mut self, o: &Json, f: &F, depth: usize) -> (r: Result<Arc<Node>, LoadError>)
        requires
            answers(*f),
            old(self).wf(),
        ensures
            (outcome(r), final(self)@) == range_func(*f, old(self)@, tree(*o), depth as nat),
            final(self).went_on(old(self)),
            final(self).admits(r),
        decreases 2 * depth + 1, *o, 4nat,
    {
        let choice = match self.child(o, "input", f, depth) {
            Ok(x) => x,
            Err(e) => return Err(e),
        };
        let ghost i = self.inputs();
        let (min_inclusive, max_exclusive): (u32, u32) = match (
            get_single(f, o, "min_inclusive"),
            get_single(f, o, "max_exclusive"),
        ) {
            (Some(a), Some(b)) => (a, b),
            _ => return Err(LoadError::NotNumber),
        };
        match self.pair(o, "when_in_range", "when_out_of_range", f, depth) {
            Err(e) => Err(e),
            Ok((p, q)) => {
                proof { lemma_agrees_grows(inner(choice), i, self.inputs()); }
                Ok(
                    Arc::new(
                        Node::RangeChoice { choice, min_inclusive, max_exclusive, when_in_range: p, when_out_of_range: q },
                    ),
                )
            },
        }
    }

    fn cells_node<F: Fn(Ask) -> u64>(&mut self, o: &Json, f: &F, depth: usize) -> (r: Result<Arc<Node>, LoadError>)
        requires
            answers(*f),
            old(self).wf(),
        ensures
            (outcome(r), final(self)@) == cells_func(*f, old(self)@, tree(*o), depth as nat),
            final(self).went_on(old(self)),
            final(self).admits(r),
        decreases 2 * depth + 1, *o, 4nat,
    {
        let (xz, y): (i32, i32) = match (get_integer(o, "cell_size_xz"), get_integer(o, "cell_size_y")) {
            (Some(a), Some(b)) => (a, b),
            _ => return Err(LoadError::NotInteger),
        };
        if xz <= 0 || y <= 0 {
            return Err(LoadError::CellSize);
        }
        match self.child(o, "input", f, depth) {
            Err(e) => Err(e),
            Ok(x) => Ok(Arc::new(Node::Interpolated { cell_size_xz: xz, cell_size_y: y, corners: x })),
        }
    }

    fn slice_node<F: Fn(Ask) -> u64>(&mut self, o: &Json, f: &F, depth: usize) -> (r: Result<Arc<Node>, LoadError>)
        requires
            answers(*f),
            old(self).wf(),
        ensures
            (outcome(r), final(self)@) == slice_func(*f, old(self)@, tree(*o), depth as nat),
            final(self).went_on(old(self)),
            final(self).admits(r),
        decreases 2 * depth + 1, *o, 4nat,
    {
        let along = match get_text(o, "axis") {
            None => return Err(LoadError::NotText),
            Some(a) => match parse_axis(a) {
                None => return Err(LoadError::UnknownAxis),
                Some(a) => a,
            },
        };
        let coordinate: i32 = match get_integer(o, "coordinate") {
            None => return Err(LoadError::NotInteger),
            Some(c) => c,
        };
        match self.child(o, "input", f, depth) {
            Err(e) => Err(e),
            Ok(x) => Ok(Arc::new(Node::Slice { along, coordinate, whole: x })),
        }
    }

    fn surface_node<F: Fn(Ask) -> u64>(&mut self, o: &Json, f: &F, depth: usize) -> (r: Result<Arc<Node>, LoadError>)
        requires
            answers(*f),
            old(self).wf(),
        ensures
            (outcome(r), final(self)@) == surface_func(*f, old(self)@, tree(*o), depth as nat),
            final(self).went_on(old(self)),
            final(self).admits(r),
        decreases 2 * depth + 1, *o, 4nat,
    {
        let cell_height: i32 = match get_integer(o, "cell_height") {
            None => return Err(LoadError::NotInteger),
            Some(c) => c,
        };
        if cell_height <= 0 {
            return Err(LoadError::CellSize);
        }
        let (d, u) = match self.pair(o, "density", "upper_bound", f, depth) {
            Err(e) => return Err(e),
            Ok(p) => p,
        };
        let lower_bound: i32 = match get_integer(o, "lower_bound") {
            None => return Err(LoadError::NotInteger),
            Some(b) => b,
        };
        let surface = Arc::new(Node::FindTopSurface { density: d, upper_bound: u, lower_bound, cell_height });
        proof {
            assert(agrees(*surface, self.inputs()));
            assert(func_of(*surface) == (Func::FindTopSurface {
                density: Box::new(func_of(*d)),
                upper_bound: Box::new(func_of(*u)),
                lower_bound,
                cell_height,
            }));
        }
        Ok(Arc::new(Node::Slice { along: Axis::Y, coordinate: 0, whole: surface }))
    }

    fn clamp_node<F: Fn(Ask) -> u64>(&mut self, o: &Json, f: &F, depth: usize) -> (r: Result<Arc<Node>, LoadError>)
        requires
            answers(*f),
            old(self).wf(),
        ensures
            (outcome(r), final(self)@) == clamp_func(*f, old(self)@, tree(*o), depth as nat),
            final(self).went_on(old(self)),
            final(self).admits(r),
        decreases 2 * depth + 1, *o, 4nat,
    {
        let (min, max): (u32, u32) = match (get_single(f, o, "min"), get_single(f, o, "max")) {
            (Some(a), Some(b)) => (a, b),
            _ => return Err(LoadError::NotNumber),
        };
        if f(Ask::Less32(max, min)) != 0 {
            return Err(LoadError::EmptyClamp);
        }
        match self.child(o, "input", f, depth) {
            Err(e) => Err(e),
            Ok(x) => Ok(one_input(Unary::Clamp(min, max), x)),
        }
    }

    fn lerp_node<F: Fn(Ask) -> u64>(&mut self, o: &Json, f: &F, depth: usize) -> (r: Result<Arc<Node>, LoadError>)
        requires
            answers(*f),
            old(self).wf(),
        ensures
            (outcome(r), final(self)@) == lerp_func(*f, old(self)@, tree(*o), depth as nat),
            final(self).went_on(old(self)),
            final(self).admits(r),
        decreases 2 * depth + 1, *o, 4nat,
    {
        let a = match self.child(o, "alpha", f, depth) {
            Ok(x) => x,
            Err(e) => return Err(e),
        };
        let ghost i = self.inputs();
        match self.pair(o, "first", "second", f, depth) {
            Err(e) => Err(e),
            Ok((p, q)) => {
                proof { lemma_agrees_grows(inner(a), i, self.inputs()); }
                Ok(Arc::new(Node::Lerp { alpha: a, first: p, second: q }))
            },
        }
    }

    fn cache_node<F: Fn(Ask) -> u64>(&mut self, o: &Json, f: &F, depth: usize) -> (r: Result<Arc<Node>, LoadError>)
        requires
            answers(*f),
            old(self).wf(),
        ensures
            (outcome(r), final(self)@) == cache_func(*f, old(self)@, tree(*o), depth as nat),
            final(self).went_on(old(self)),
            final(self).admits(r),
        decreases 2 * depth + 1, *o, 4nat,
    {
        let input = match o.get("input") {
            None => return Err(LoadError::MissingField),
            Some(v) => v,
        };
        let mut k: usize = 0;
        while k < self.caches.len()
            invariant
                k <= self.caches@.len(),
                *self == *old(self),
                old(self).wf(),
                known_cache(self@.caches, tree(*input), 0) == known_cache(self@.caches, tree(*input), k as int),
                tree(*o).get("input"@) == Some(tree(*input)),
            decreases self.caches.len() - k,
        {
            proof { assert(self@.caches[k as int] == (tree(self.caches@[k as int].0), func_of(*self.caches@[k as int].1))); }
            if self.caches[k].0.same(input) {
                return Ok(share(&self.caches[k].1));
            }
            k += 1;
        }
        let x = match self.child(o, "input", f, depth) {
            Ok(x) => x,
            Err(e) => return Err(e),
        };
        let ghost mid = *self;
        let id: usize = self.caches.len();
        let n = Arc::new(Node::Cache { id, cached: x });
        self.caches.push((input.copy(), share(&n)));
        proof {
            assert(self@.caches =~= mid@.caches.push((tree(*input), func_of(*n))));
            let (a, b) = (mid.inputs(), self.inputs());
            assert(extends(a, b)) by {
                assert forall|j: usize| #[trigger] a.contains_key(j) implies b.contains_key(j) && a[j] == b[j] by {
                    assert(self.caches@[j as int] == mid.caches@[j as int]);
                }
            }
            lemma_agrees_grows(inner(x), a, b);
            assert(b[id] == inner(x));
            assert(agrees(*n, b));
            assert forall|i: int| 0 <= i < self.caches@.len() implies {
                &&& *(#[trigger] self.caches@[i]).1 matches Node::Cache { id, .. } && id == i
                &&& agrees(*self.caches@[i].1, b)
            } by {
                if i < mid.caches@.len() {
                    assert(self.caches@[i] == mid.caches@[i]);
                    lemma_agrees_grows(inner(mid.caches@[i].1), a, b);
                }
            }
            assert forall|i: int| 0 <= i < self.functions@.len() implies agrees(*(#[trigger] self.functions@[i]).1, b) by {
                assert(self.functions@[i] == mid.functions@[i]);
                lemma_agrees_grows(inner(mid.functions@[i].1), a, b);
            }
        }
        Ok(n)
    }

    /// A list read as functions.
    fn list<F: Fn(Ask) -> u64>(&mut self, l: &Vec<Json>, f: &F, depth: usize) -> (r: Result<Vec<Arc<Node>>, LoadError>)
        requires
            answers(*f),
            old(self).wf(),
        ensures
            ({
                let t = trees(l@, l@.len());
                let (x, s) = list_read(*f, old(self)@, t, t.len(), depth as nat);
                &&& s == final(self)@
                &&& match r {
                    Ok(v) => x == Ok::<Seq<Func>, LoadError>(funcs_of(v@, v@.len())),
                    Err(e) => x == Err::<Seq<Func>, LoadError>(e),
                }
            }),
            final(self).went_on(old(self)),
            r matches Ok(v) ==> forall|i: int| 0 <= i < v@.len() ==> agrees(*#[trigger] v@[i], final(self).inputs()),
        decreases 2 * depth + 1, l@, 0nat,
    {
        let ghost t = trees(l@, l@.len());
        proof { lemma_trees(l@, l@.len()); }
        let mut out: Vec<Arc<Node>> = Vec::new();
        let mut i: usize = 0;
        proof { assert(funcs_of(out@, 0) =~= Seq::empty()); }
        while i < l.len()
            invariant
                i <= l@.len(),
                answers(*f),
                t == trees(l@, l@.len()),
                t.len() == l@.len(),
                forall|k: int| 0 <= k < t.len() ==> #[trigger] t[k] == tree(l@[k]),
                out@.len() == i,
                list_read(*f, old(self)@, t, i as nat, depth as nat) == (Ok::<Seq<Func>, LoadError>(funcs_of(out@, i as nat)), self@),
                self.went_on(old(self)),
                forall|k: int| 0 <= k < i ==> agrees(*#[trigger] out@[k], self.inputs()),
            decreases l.len() - i,
        {
            let ghost o = self.inputs();
            let ghost before = out@;
            let ghost st = self@;
            proof {
                assert(decreases_to!(l@ => l@[i as int]));
                assert(t[i as int] == tree(l@[i as int]));
            }
            let n = match self.parse_at(&l[i], f, depth) {
                Ok(n) => n,
                Err(e) => {
                    proof {
                        assert(list_read(*f, old(self)@, t, (i + 1) as nat, depth as nat) == (Err::<Seq<Func>, LoadError>(e), self@));
                        lemma_list_fails(*f, old(self)@, t, (i + 1) as nat, t.len(), depth as nat);
                    }
                    return Err(e);
                },
            };
            out.push(n);
            proof {
                assert forall|k: int| 0 <= k < i + 1 implies agrees(*#[trigger] out@[k], self.inputs()) by {
                    if k < i {
                        assert(out@[k] == before[k]);
                        lemma_agrees_grows(inner(before[k]), o, self.inputs());
                    }
                }
                lemma_funcs_prefix(before, out@, i as nat);
                assert(funcs_of(out@, (i + 1) as nat) == funcs_of(out@, i as nat).push(func_of(*out@[i as int])));
            }
            i += 1;
        }
        Ok(out)
    }

    fn select_node<F: Fn(Ask) -> u64>(&mut self, o: &Json, f: &F, depth: usize) -> (r: Result<Arc<Node>, LoadError>)
        requires
            answers(*f),
            old(self).wf(),
        ensures
            (outcome(r), final(self)@) == select_func(*f, old(self)@, tree(*o), depth as nat),
            final(self).went_on(old(self)),
            final(self).admits(r),
        decreases 2 * depth + 1, *o, 4nat,
    {
        let selector = match self.child(o, "input", f, depth) {
            Ok(x) => x,
            Err(e) => return Err(e),
        };
        let ghost i = self.inputs();
        let l = match o.get("thresholds") {
            None => return Err(LoadError::NotList),
            Some(v) => match v.as_array() {
                None => return Err(LoadError::NotList),
                Some(l) => l,
            },
        };
        let wide: Vec<u64> = match read_doubles(l) {
            None => return Err(LoadError::NotNumber),
            Some(d) => d,
        };
        let thresholds: Vec<u32> = narrow_all(f, &wide);
        proof { lemma_functions(*f, self@, tree(*o), depth as nat); }
        let fl = match o.get("functions") {
            None => return Err(LoadError::NotList),
            Some(v) => match v.as_array() {
                None => return Err(LoadError::NotList),
                Some(l) => l,
            },
        };
        let functions: Vec<Arc<Node>> = match self.list(fl, f, depth) {
            Err(e) => return Err(e),
            Ok(v) => v,
        };
        proof {
            lemma_agrees_grows(inner(selector), i, self.inputs());
            lemma_funcs(functions@, functions@.len());
        }
        if functions.len() < 2 || thresholds.len() != functions.len() - 1 {
            return Err(LoadError::ThresholdCount);
        }
        if !never_falling(f, &thresholds) {
            return Err(LoadError::ThresholdOrder);
        }
        Ok(Arc::new(Node::IntervalSelect { selector, thresholds, functions }))
    }

    /// The key of a spline coordinate.
    fn coordinate_key(&mut self, c: &Json) -> (r: usize)
        requires
            old(self).wf(),
        ensures
            r == place_of_coordinate(old(self)@.coordinates, tree(*c), 0),
            final(self)@ == old(self)@.with_coordinate(tree(*c)),
            final(self).went_on(old(self)),
            final(self).inputs() == old(self).inputs(),
    {
        let mut k: usize = 0;
        while k < self.coordinates.len()
            invariant
                k <= self.coordinates@.len(),
                *self == *old(self),
                old(self).wf(),
                place_of_coordinate(self@.coordinates, tree(*c), 0) == place_of_coordinate(
                    self@.coordinates, tree(*c), k as int),
            decreases self.coordinates.len() - k,
        {
            proof { assert(self@.coordinates[k as int] == tree(self.coordinates@[k as int])); }
            if self.coordinates[k].same(c) {
                return k;
            }
            k += 1;
        }
        self.coordinates.push(c.copy());
        proof {
            assert(self@.coordinates =~= old(self)@.coordinates.push(tree(*c)));
            assert(self.inputs() =~= old(self).inputs());
        }
        k
    }

    /// A spline: a number, or knots over a coordinate.
    fn parse_spline<F: Fn(Ask) -> u64>(&mut self, v: &Json, f: &F, depth: usize) -> (r: Result<Spline, LoadError>)
        requires
            answers(*f),
            old(self).wf(),
        ensures
            ({
                let (x, s) = spline_read(*f, old(self)@, tree(*v), depth as nat);
                &&& s == final(self)@
                &&& match r {
                    Ok(k) => x == Ok::<Knots, LoadError>(knots_of(k)),
                    Err(e) => x == Err::<Knots, LoadError>(e),
                }
            }),
            final(self).went_on(old(self)),
            r matches Ok(k) ==> agrees_spline(k, final(self).inputs()),
        decreases 2 * depth + 1, *v, 4nat,
    {
        match v {
            Json::Number { value, .. } => return Ok(Spline::Constant(f(Ask::Narrow(*value)) as u32)),
            Json::Object(_) => {},
            _ => return Err(LoadError::Unexpected),
        }
        let coordinate = match self.child(v, "coordinate", f, depth) {
            Ok(c) => c,
            Err(e) => return Err(e),
        };
        let ghost i = self.inputs();
        proof { lemma_child(*f, old(self)@, tree(*v), "coordinate"@, depth as nat); }
        let key: usize = match v.get("coordinate") {
            Some(c) => self.coordinate_key(c),
            None => 0,
        };
        let ghost st = self@;
        proof { lemma_points(*f, st, tree(*v), key, func_of(inner(coordinate)), depth as nat); }
        let l = match v.get("points") {
            None => return Err(LoadError::NotList),
            Some(p) => match p.as_array() {
                None => return Err(LoadError::NotList),
                Some(l) => l,
            },
        };
        let (locations, values, derivatives) = match self.knots(l, f, depth) {
            Err(e) => return Err(e),
            Ok(p) => p,
        };
        if locations.len() == 0 {
            return Err(LoadError::NoKnots);
        }
        if !always_rising(f, &locations) {
            return Err(LoadError::KnotOrder);
        }
        proof { lemma_agrees_grows(inner(coordinate), i, self.inputs()); }
        Ok(Spline::Multipoint { key, coordinate, locations, values, derivatives })
    }

    /// The knots of a list.
    fn knots<F: Fn(Ask) -> u64>(&mut self, l: &Vec<Json>, f: &F, depth: usize) -> (r: Result<(Vec<u32>, Vec<Spline>, Vec<u32>), LoadError>)
        requires
            answers(*f),
            old(self).wf(),
        ensures
            ({
                let t = trees(l@, l@.len());
                let (x, s) = knots_read(*f, old(self)@, t, t.len(), depth as nat);
                &&& s == final(self)@
                &&& match r {
                    Ok((a, b, c)) => x is Ok && a@ == locations_of(x->Ok_0) && c@ == slopes_of(x->Ok_0) && all_knots_of(
                        b@, b@.len()) == values_of(x->Ok_0),
                    Err(e) => x == Err::<Seq<(u32, Knots, u32)>, LoadError>(e),
                }
            }),
            final(self).went_on(old(self)),
            r matches Ok((a, b, c)) ==> forall|i: int| 0 <= i < b@.len() ==> agrees_spline(#[trigger] b@[i], final(self).inputs()),
        decreases 2 * depth + 1, l@, 0nat,
    {
        let ghost t = trees(l@, l@.len());
        proof { lemma_trees(l@, l@.len()); }
        let mut locations: Vec<u32> = Vec::new();
        let mut values: Vec<Spline> = Vec::new();
        let mut slopes: Vec<u32> = Vec::new();
        let mut i: usize = 0;
        let ghost mut p: Seq<(u32, Knots, u32)> = Seq::empty();
        proof {
            assert(all_knots_of(values@, 0) =~= values_of(p));
            assert(locations@ =~= locations_of(p));
            assert(slopes@ =~= slopes_of(p));
        }
        while i < l.len()
            invariant
                i <= l@.len(),
                answers(*f),
                t == trees(l@, l@.len()),
                t.len() == l@.len(),
                forall|k: int| 0 <= k < t.len() ==> #[trigger] t[k] == tree(l@[k]),
                p.len() == i,
                locations@ == locations_of(p),
                slopes@ == slopes_of(p),
                values@.len() == i,
                all_knots_of(values@, i as nat) == values_of(p),
                knots_read(*f, old(self)@, t, i as nat, depth as nat) == (Ok::<Seq<(u32, Knots, u32)>, LoadError>(p), self@),
                self.went_on(old(self)),
                forall|k: int| 0 <= k < i ==> agrees_spline(#[trigger] values@[k], self.inputs()),
            decreases l.len() - i,
        {
            let ghost o = self.inputs();
            let ghost before = values@;
            let ghost q = p;
            proof {
                assert(decreases_to!(l@ => l@[i as int]));
                assert(t[i as int] == tree(l@[i as int]));
            }
            let (location, value, slope) = match self.knot(&l[i], f, depth) {
                Ok(k) => k,
                Err(e) => {
                    proof {
                        assert(knots_read(*f, old(self)@, t, (i + 1) as nat, depth as nat) == (
                            Err::<Seq<(u32, Knots, u32)>, LoadError>(e),
                            self@,
                        ));
                        lemma_knots_fail(*f, old(self)@, t, (i + 1) as nat, t.len(), depth as nat);
                    }
                    return Err(e);
                },
            };
            locations.push(location);
            values.push(value);
            slopes.push(slope);
            proof {
                p = q.push((location, knots_of(value), slope));
                assert(locations@ =~= locations_of(p));
                assert(slopes@ =~= slopes_of(p));
                assert forall|k: int| 0 <= k < i + 1 implies agrees_spline(#[trigger] values@[k], self.inputs()) by {
                    if k < i {
                        assert(values@[k] == before[k]);
                        lemma_agrees_spline_grows(before[k], o, self.inputs());
                    }
                }
                lemma_knots_prefix(before, values@, i as nat);
                assert(all_knots_of(values@, (i + 1) as nat) == all_knots_of(values@, i as nat).push(knots_of(values@[i as int])));
                assert(all_knots_of(values@, (i + 1) as nat) =~= values_of(p));
            }
            i += 1;
        }
        Ok((locations, values, slopes))
    }

    /// One knot.
    fn knot<F: Fn(Ask) -> u64>(&mut self, p: &Json, f: &F, depth: usize) -> (r: Result<(u32, Spline, u32), LoadError>)
        requires
            answers(*f),
            old(self).wf(),
        ensures
            ({
                let (x, s) = knot_read(*f, old(self)@, tree(*p), depth as nat);
                &&& s == final(self)@
                &&& match r {
                    Ok((a, b, c)) => x == Ok::<(u32, Knots, u32), LoadError>((a, knots_of(b), c)),
                    Err(e) => x == Err::<(u32, Knots, u32), LoadError>(e),
                }
            }),
            final(self).went_on(old(self)),
            r matches Ok((a, b, c)) ==> agrees_spline(b, final(self).inputs()),
        decreases 2 * depth + 1, *p, 5nat,
    {
        match p {
            Json::Object(_) => {},
            _ => return Err(LoadError::Unexpected),
        }
        let (location, slope): (u32, u32) = match (get_single(f, p, "location"), get_single(f, p, "derivative")) {
            (Some(a), Some(b)) => (a, b),
            _ => return Err(LoadError::NotNumber),
        };
        proof { lemma_value(*f, self@, tree(*p), depth as nat); }
        match p.get("value") {
            None => Err(LoadError::MissingField),
            Some(v) => match self.parse_spline(v, f, depth) {
                Err(e) => Err(e),
                Ok(k) => Ok((location, k, slope)),
            },
        }
    }

    fn spline_node<F: Fn(Ask) -> u64>(&mut self, o: &Json, f: &F, depth: usize) -> (r: Result<Arc<Node>, LoadError>)
        requires
            answers(*f),
            old(self).wf(),
        ensures
            (outcome(r), final(self)@) == spline_func(*f, old(self)@, tree(*o), depth as nat),
            final(self).went_on(old(self)),
            final(self).admits(r),
        decreases 2 * depth + 1, *o, 4nat,
    {
        proof { lemma_spline(*f, self@, tree(*o), depth as nat); }
        match o.get("spline") {
            None => Err(LoadError::MissingField),
            Some(v) => match self.parse_spline(v, f, depth) {
                Err(e) => Err(e),
                Ok(k) => Ok(Arc::new(Node::Spline(k))),
            },
        }
    }

    fn parse_old_blended<F: Fn(Ask) -> u64>(&mut self, o: &Json, f: &F, depth: usize) -> (r: Result<Arc<Node>, LoadError>)
        requires
            answers(*f),
            old(self).wf(),
        ensures
            (outcome(r), final(self)@) == blended_in(*f, old(self)@, tree(*o)),
            final(self).went_on(old(self)),
            final(self).admits(r),
        decreases 2 * depth + 1, *o, 4nat,
    {
        let (xz_scale, y_scale): (u64, u64) = match (get_double(o, "xz_scale"), get_double(o, "y_scale")) {
            (Some(a), Some(b)) => (a, b),
            _ => return Err(LoadError::NotNumber),
        };
        let (xz_factor, y_factor): (u64, u64) = match (get_double(o, "xz_factor"), get_double(o, "y_factor")) {
            (Some(a), Some(b)) => (a, b),
            _ => return Err(LoadError::NotNumber),
        };
        let smear: u64 = match get_double(o, "smear_scale_multiplier") {
            Some(s) => s,
            None => return Err(LoadError::NotNumber),
        };
        let xz: u64 = f(Ask::Mul64(BLENDED_SCALE, xz_scale));
        let y: u64 = f(Ask::Mul64(BLENDED_SCALE, y_scale));
        let limit_smear: u64 = f(Ask::Mul64(y, smear));
        let main_smear: u64 = f(Ask::Div64(limit_smear, y_factor));
        let n: usize = self.origins.len();
        self.origins.push(NoiseOrigin::Blended { part: 0, limit_smear, main_smear });
        let n1: usize = self.origins.len();
        self.origins.push(NoiseOrigin::Blended { part: 1, limit_smear, main_smear });
        let n2: usize = self.origins.len();
        self.origins.push(NoiseOrigin::Blended { part: 2, limit_smear, main_smear });
        proof {
            let a = old(self)@.origins;
            assert(self@.origins =~= a.push(Origin::Blended { part: 0, limit_smear, main_smear }).push(
                Origin::Blended { part: 1, limit_smear, main_smear }).push(
                Origin::Blended { part: 2, limit_smear, main_smear }));
            assert(self.inputs() =~= old(self).inputs());
        }
        let mx: u64 = f(Ask::Div64(xz, xz_factor));
        let my: u64 = f(Ask::Div64(y, y_factor));
        let main = plain_noise_node(n2, mx, my);
        proof { assert(agrees(*main, self.inputs())); }
        let sum = one_input(Unary::AddConst(HALF_32), main);
        proof { assert(agrees(*sum, self.inputs())); }
        let choice = one_input(Unary::Clamp(0, ONE_32), sum);
        let first = plain_noise_node(n, xz, y);
        let second = plain_noise_node(n1, xz, y);
        proof {
            assert(agrees(*choice, self.inputs()));
            assert(agrees(*first, self.inputs()) && agrees(*second, self.inputs()));
        }
        Ok(Arc::new(Node::Lerp { alpha: choice, first, second }))
    }

    /// A function by its type.
    fn parse_object<F: Fn(Ask) -> u64>(&mut self, o: &Json, f: &F, depth: usize) -> (r: Result<Arc<Node>, LoadError>)
        requires
            answers(*f),
            old(self).wf(),
        ensures
            (outcome(r), final(self)@) == object(*f, old(self)@, tree(*o), depth as nat),
            final(self).went_on(old(self)),
            final(self).admits(r),
        decreases 2 * depth + 1, *o, 6nat,
    {
        match get_text(o, "type") {
            None => Err(LoadError::MissingType),
            Some(t) => {
                let ty: String = strip_namespace(t);
                self.typed(o, ty.as_str(), f, depth)
            },
        }
    }

    fn typed<F: Fn(Ask) -> u64>(&mut self, o: &Json, ty: &str, f: &F, depth: usize) -> (r: Result<Arc<Node>, LoadError>)
        requires
            answers(*f),
            old(self).wf(),
        ensures
            (outcome(r), final(self)@) == typed(*f, old(self)@, tree(*o), ty@, depth as nat),
            final(self).went_on(old(self)),
            final(self).admits(r),
        decreases 2 * depth + 1, *o, 5nat,
    {
        if same_text(ty, "constant") {
            return match get_single(f, o, "argument") {
                Some(c) => Ok(Arc::new(Node::Constant(c))),
                None => Err(LoadError::NotNumber),
            };
        }
        if let Some(op) = find_binary(ty) {
            return match self.pair(o, "left", "right", f, depth) {
                Err(e) => Err(e),
                Ok((l, r)) => Ok(combine_sides(f, op, l, r)),
            };
        }
        if let Some(op) = find_unary(ty) {
            return match self.child(o, "input", f, depth) {
                Err(e) => Err(e),
                Ok(x) => Ok(one_input(op, x)),
            };
        }
        if same_text(ty, "pow") {
            return match self.pair(o, "base", "exponent", f, depth) {
                Err(e) => Err(e),
                Ok((b, x)) => Ok(raise(f, b, x)),
            };
        }
        if let Some(kind) = find_rounding(ty) {
            return self.rounded_node(o, kind, f, depth);
        }
        if same_text(ty, "noise") {
            return self.noise_node(o, f, depth);
        }
        if same_text(ty, "shift") || same_text(ty, "shift_a") || same_text(ty, "shift_b") {
            return self.shift_node(o, ty, f, depth);
        }
        if same_text(ty, "gradient") {
            return gradient_node(f, o);
        }
        if same_text(ty, "lerp") {
            return self.lerp_node(o, f, depth);
        }
        if same_text(ty, "clamp") {
            return self.clamp_node(o, f, depth);
        }
        if same_text(ty, "range_choice") {
            return self.range_node(o, f, depth);
        }
        if same_text(ty, "interval_select") {
            return self.select_node(o, f, depth);
        }
        if same_text(ty, "cache") {
            return self.cache_node(o, f, depth);
        }
        if same_text(ty, "blend_density") {
            return match self.child(o, "input", f, depth) {
                Err(e) => Err(e),
                Ok(x) => Ok(Arc::new(Node::BlendDensity(x))),
            };
        }
        if same_text(ty, "blend_alpha") {
            return Ok(Arc::new(Node::BlendAlpha));
        }
        if same_text(ty, "blend_offset") {
            return Ok(Arc::new(Node::BlendOffset));
        }
        if same_text(ty, "beardifier") {
            return Ok(Arc::new(Node::Beardifier));
        }
        if same_text(ty, "interpolated") {
            return self.cells_node(o, f, depth);
        }
        if same_text(ty, "slice") {
            return self.slice_node(o, f, depth);
        }
        if same_text(ty, "find_top_surface") {
            return self.surface_node(o, f, depth);
        }
        if same_text(ty, "distance_to_point") {
            return distance_node(o);
        }
        if same_text(ty, "spline") {
            return self.spline_node(o, f, depth);
        }
        if same_text(ty, "old_blended_noise") {
            return self.parse_old_blended(o, f, depth);
        }
        if same_text(ty, "end_outer_islands") {
            return Err(LoadError::Unsupported);
        }
        Err(LoadError::UnknownType)
    }
}

fn plain_noise_node(stack: usize, xz_scale: u64, y_scale: u64) -> (r: Arc<Node>)
    ensures
        func_of(*r) == plain_noise(stack, xz_scale, y_scale),
        forall|m: Map<usize, Node>| #[trigger] agrees(*r, m),
{
    let r = Arc::new(Node::Noise { stack, xz_scale, y_scale, shift_x: None, shift_y: None, shift_z: None });
    proof {
        assert(maybe_func(None::<Arc<Node>>) is None);
    }
    r
}

/// Doubles as singles.
fn narrow_all<F: Fn(Ask) -> u64>(f: &F, v: &Vec<u64>) -> (r: Vec<u32>)
    requires
        answers(*f),
    ensures
        r@ == narrowed(*f, v@),
{
    let mut r: Vec<u32> = Vec::new();
    let mut i: usize = 0;
    while i < v.len()
        invariant
            i <= v@.len(),
            answers(*f),
            r@.len() == i,
            forall|k: int| 0 <= k < i ==> #[trigger] r@[k] == low(*f, Ask::Narrow(v@[k])),
        decreases v.len() - i,
    {
        r.push(f(Ask::Narrow(v[i])) as u32);
        i += 1;
    }
    proof { assert(r@ =~= narrowed(*f, v@)); }
    r
}

/// Whether thresholds never decrease.
fn never_falling<F: Fn(Ask) -> u64>(f: &F, t: &Vec<u32>) -> (r: bool)
    requires
        answers(*f),
    ensures
        r == rising(*f, t@),
{
    let mut i: usize = 1;
    while i < t.len()
        invariant
            1 <= i,
            i <= t@.len() || t@.len() == 0,
            answers(*f),
            forall|k: int| 0 <= k < i - 1 ==> !holds(*f, Ask::Less32(t@[k + 1], #[trigger] t@[k])),
        decreases t.len() - i,
    {
        if f(Ask::Less32(t[i], t[i - 1])) != 0 {
            proof { assert(holds(*f, Ask::Less32(t@[(i - 1) + 1], t@[i - 1]))); }
            return false;
        }
        i += 1;
    }
    true
}

/// Whether locations increase.
fn always_rising<F: Fn(Ask) -> u64>(f: &F, t: &Vec<u32>) -> (r: bool)
    requires
        answers(*f),
    ensures
        r == climbing(*f, t@),
{
    let mut i: usize = 1;
    while i < t.len()
        invariant
            1 <= i,
            i <= t@.len() || t@.len() == 0,
            answers(*f),
            forall|k: int| 0 <= k < i - 1 ==> !holds(*f, Ask::LessEq32(t@[k + 1], #[trigger] t@[k])),
        decreases t.len() - i,
    {
        if f(Ask::LessEq32(t[i], t[i - 1])) != 0 {
            proof { assert(holds(*f, Ask::LessEq32(t@[(i - 1) + 1], t@[i - 1]))); }
            return false;
        }
        i += 1;
    }
    true
}

/// A type without the game's namespace.
fn strip_namespace(t: &str) -> (r: String)
    ensures
        r@ == plain_type(t@),
{
    let n: usize = t.unicode_len();
    proof {
        reveal_strlit("minecraft:");
    }
    if n >= 10 {
        let head: &str = t.substring_char(0, 10);
        proof { assert(t@.take(10) =~= t@.subrange(0, 10)); }
        if same_text(head, "minecraft:") {
            let rest: &str = t.substring_char(10, n);
            proof { assert(t@.skip(10) =~= t@.subrange(10, n as int)); }
            return rest.to_string();
        }
    }
    t.to_string()
}

proof fn lemma_list_fails<F: Fn(Ask) -> u64>(f: F, st: Reading, l: Seq<Tree>, m: nat, n: nat, depth: nat)
    requires
        m <= n <= l.len(),
        list_read(f, st, l, m, depth).0 is Err,
    ensures
        list_read(f, st, l, n, depth) == list_read(f, st, l, m, depth),
    decreases n,
{
    if m < n {
        lemma_list_fails(f, st, l, m, (n - 1) as nat, depth);
    }
}

proof fn lemma_knots_fail<F: Fn(Ask) -> u64>(f: F, st: Reading, l: Seq<Tree>, m: nat, n: nat, depth: nat)
    requires
        m <= n <= l.len(),
        knots_read(f, st, l, m, depth).0 is Err,
    ensures
        knots_read(f, st, l, n, depth) == knots_read(f, st, l, m, depth),
    decreases n,
{
    if m < n {
        lemma_knots_fail(f, st, l, m, (n - 1) as nat, depth);
    }
}

/// The functions of a selection are those of its list.
proof fn lemma_functions<F: Fn(Ask) -> u64>(f: F, st: Reading, o: Tree, depth: nat)
    ensures
        functions_read(f, st, o, depth) == (match list_in(o, "functions"@) {
            Some(l) => list_read(f, st, l, l.len(), depth),
            None => (Err(LoadError::NotList), st),
        }),
{
    match o {
        Tree::Object(fields) => {
            lemma_field_bounds(fields, "functions"@, 0);
            assert(functions_read(f, st, o, depth) == field_list_read(f, st, fields, depth));
            match field_from(fields, "functions"@, 0) {
                Some(k) => {
                    assert(field_list_read(f, st, fields, depth) == tree_list_read(f, st, fields[k].1, depth));
                },
                None => {},
            }
        },
        _ => {},
    }
}

/// The knots of a spline are those of its list.
proof fn lemma_points<F: Fn(Ask) -> u64>(f: F, st: Reading, o: Tree, key: usize, c: Func, depth: nat)
    requires
        o is Object,
    ensures
        list_in(o, "points"@) is None ==> points_read(f, st, o->Object_0, key, c, depth) == (
            Err::<Knots, LoadError>(LoadError::NotList),
            st,
        ),
        list_in(o, "points"@) matches Some(l) ==> points_read(f, st, o->Object_0, key, c, depth) == (match knots_read(
            f, st, l, l.len(), depth) {
            (Err(e), s) => (Err(e), s),
            (Ok(p), s) => if p.len() == 0 {
                (Err(LoadError::NoKnots), s)
            } else if !climbing(f, locations_of(p)) {
                (Err(LoadError::KnotOrder), s)
            } else {
                (
                    Ok(
                        Knots::Multipoint {
                            key,
                            coordinate: Box::new(c),
                            locations: locations_of(p),
                            values: values_of(p),
                            derivatives: slopes_of(p),
                        },
                    ),
                    s,
                )
            },
        }),
{
    let fields = o->Object_0;
    lemma_field_bounds(fields, "points"@, 0);
    match field_from(fields, "points"@, 0) {
        Some(k) => {
            let t = fields[k].1;
            assert(fields_points_read(f, st, t, depth) == (match t {
                Tree::List(l) => knots_read(f, st, l, l.len(), depth),
                _ => (Err(LoadError::NotList), st),
            }));
        },
        None => {},
    }
}

/// The value of a knot is that of its field.
proof fn lemma_value<F: Fn(Ask) -> u64>(f: F, st: Reading, o: Tree, depth: nat)
    requires
        o is Object,
    ensures
        value_read(f, st, o->Object_0, depth) == (match o.get("value"@) {
            Some(t) => spline_read(f, st, t, depth),
            None => (Err(LoadError::MissingField), st),
        }),
{
    lemma_field_bounds(o->Object_0, "value"@, 0);
}

/// The spline of an object is that of its field.
proof fn lemma_spline<F: Fn(Ask) -> u64>(f: F, st: Reading, o: Tree, depth: nat)
    ensures
        spline_func(f, st, o, depth) == (match o.get("spline"@) {
            Some(t) => match spline_read(f, st, t, depth) {
                (Err(e), s) => (Err(e), s),
                (Ok(sp), s) => (Ok(Func::Spline(sp)), s),
            },
            None => (Err(LoadError::MissingField), st),
        }),
{
    match o {
        Tree::Object(fields) => {
            lemma_field_bounds(fields, "spline"@, 0);
            assert(spline_func(f, st, o, depth) == spline_field(f, st, fields, depth));
        },
        _ => {},
    }
}

/// How many references may follow each other: every document once, and one
/// that is missing.
pub open spec fn reach(st: Reading) -> nat {
    st.docs.len() + 1
}

/// The names of the documents of a kind among the first `n`.
pub open spec fn names_of(docs: Seq<(Seq<char>, Seq<char>, Tree)>, kind: Seq<char>, n: nat) -> Seq<Seq<char>>
    decreases n,
{
    if n == 0 {
        Seq::empty()
    } else {
        let rest = names_of(docs, kind, (n - 1) as nat);
        if docs[n - 1].0 == kind { rest.push(docs[n - 1].1) } else { rest }
    }
}

/// The texts of strings.
pub open spec fn texts(v: Seq<String>) -> Seq<Seq<char>> {
    v.map_values(|s: String| s@)
}

/// A reading of documents before anything was read.
pub open spec fn unread(docs: Seq<(Seq<char>, Seq<char>, Tree)>) -> Reading {
    Reading {
        docs,
        functions: Seq::empty(),
        origins: Seq::empty(),
        loading: Seq::empty(),
        caches: Seq::empty(),
        coordinates: Seq::empty(),
    }
}

/// A function read and rewritten as a root.
pub open spec fn root_read<F: Fn(Ask) -> u64>(f: F, st: Reading, t: Tree) -> (Result<Func, LoadError>, Reading) {
    match read(f, st, t, reach(st)) {
        (Ok(n), s) => (Ok(rewritten(n, Axes::every())), s),
        (Err(e), s) => (Err(e), s),
    }
}

/// The first `n` fields read as roots.
pub open spec fn roots_read<F: Fn(Ask) -> u64>(f: F, st: Reading, fields: Seq<(Seq<char>, Tree)>, n: nat) -> (
    Result<Seq<(Seq<char>, Func)>, LoadError>,
    Reading,
)
    decreases n,
{
    if n == 0 {
        (Ok(Seq::empty()), st)
    } else {
        match roots_read(f, st, fields, (n - 1) as nat) {
            (Err(e), s) => (Err(e), s),
            (Ok(before), s) => match root_read(f, s, fields[n - 1].1) {
                (Err(e), t) => (Err(e), t),
                (Ok(x), t) => (Ok(before.push((fields[n - 1].0, x))), t),
            },
        }
    }
}

/// The functions of a noise router, by their keys.
pub open spec fn router_read<F: Fn(Ask) -> u64>(f: F, st: Reading, id: Seq<char>) -> (
    Result<Seq<(Seq<char>, Func)>, LoadError>,
    Reading,
) {
    match st.doc("noise_settings"@, full_name(id)) {
        None => (Err(LoadError::NotProvided), st),
        Some(t) => {
            let legacy = match t.get("legacy_random_source"@) {
                Some(Tree::Bool(b)) => b,
                _ => false,
            };
            if legacy {
                (Err(LoadError::Legacy), st)
            } else {
                match t.get("noise_router"@) {
                    Some(Tree::Object(fields)) => roots_read(f, st, fields, fields.len()),
                    _ => (Err(LoadError::MissingField), st),
                }
            }
        },
    }
}

/// Reading keeps the documents.
proof fn lemma_roots_fail<F: Fn(Ask) -> u64>(f: F, st: Reading, fields: Seq<(Seq<char>, Tree)>, m: nat, n: nat)
    requires
        m <= n <= fields.len(),
        roots_read(f, st, fields, m).0 is Err,
    ensures
        roots_read(f, st, fields, n) == roots_read(f, st, fields, m),
    decreases n,
{
    if m < n {
        lemma_roots_fail(f, st, fields, m, (n - 1) as nat);
    }
}

/// Functions that share their caches' inputs.
pub open spec fn all_agree(v: Seq<(String, Arc<Node>)>, inputs: Map<usize, Node>) -> bool {
    forall|i: int| 0 <= i < v.len() ==> agrees(*(#[trigger] v[i]).1, inputs)
}

/// Functions whose caches can be told apart by their numbers.
pub open spec fn hold_together(v: Seq<(String, Arc<Node>)>) -> bool {
    exists|inputs: Map<usize, Node>| #[trigger] all_agree(v, inputs)
}

/// The functions by their keys.
pub open spec fn named_funcs(v: Seq<(String, Arc<Node>)>) -> Seq<(Seq<char>, Func)> {
    v.map_values(|p: (String, Arc<Node>)| (p.0@, func_of(*p.1)))
}

impl Loader {
    /// A loader over documents: each a kind (`density_function`, `noise`,
    /// `noise_settings`, ...), an identifier and its content.
    pub fn from_memory(seed: i64, documents: Vec<(String, String, Json)>) -> (r: Loader)
        requires
            documents@.len() < usize::MAX,
        ensures
            r.wf(),
            r.world_seed() == seed,
            r@ == unread(
                documents@.map_values(|d: (String, String, Json)| (d.0@, full_name(d.1@), tree(d.2))),
            ),
    {
        let ghost all = documents@;
        let mut rest: Vec<(String, String, Json)> = documents;
        let n: usize = rest.len();
        let mut docs: Vec<(String, String, Arc<Json>)> = Vec::new();
        let mut i: usize = 0;
        proof { assert(all.skip(0) =~= all); }
        while i < n
            invariant
                i <= n,
                n == all.len(),
                rest@ == all.skip(i as int),
                docs@.len() == i,
                forall|k: int|
                    0 <= k < i ==> (#[trigger] docs@[k]).0@ == all[k].0@ && docs@[k].1@ == full_name(all[k].1@) && tree(
                        *docs@[k].2) == tree(all[k].2),
            decreases n - i,
        {
            let (kind, id, json) = rest.remove(0);
            proof {
                assert(all.skip(i as int)[0] == all[i as int]);
                assert(all.skip(i as int).remove(0) =~= all.skip(i + 1));
            }
            docs.push((kind, full_id(id.as_str()), Arc::new(json)));
            i += 1;
        }
        let r = Loader {
            docs,
            seed,
            functions: Vec::new(),
            origins: Vec::new(),
            loading: Vec::new(),
            caches: Vec::new(),
            coordinates: Vec::new(),
        };
        proof {
            assert(r@.docs =~= all.map_values(|d: (String, String, Json)| (d.0@, full_name(d.1@), tree(d.2))));
            assert(r@.functions =~= Seq::empty());
            assert(r@.origins =~= Seq::empty());
            assert(r@.loading =~= Seq::empty());
            assert(r@.caches =~= Seq::empty());
            assert(r@.coordinates =~= Seq::empty());
        }
        r
    }

    /// The world seed.
    pub fn seed(&self) -> (r: i64)
        ensures
            r == self.world_seed(),
    {
        self.seed
    }

    /// Any document by kind and identifier.
    pub fn document(&self, kind: &str, id: &str) -> (r: Result<Arc<Json>, LoadError>)
        ensures
            match r {
                Ok(j) => self@.doc(kind@, full_name(id@)) == Some(tree(*j)),
                Err(e) => e == LoadError::NotProvided && self@.doc(kind@, full_name(id@)) is None,
            },
    {
        let name: String = full_id(id);
        match self.find_document(kind, name.as_str()) {
            Some(j) => Ok(j),
            None => Err(LoadError::NotProvided),
        }
    }

    /// The noise settings of a world.
    pub fn noise_settings(&self, settings_id: &str) -> (r: Result<Arc<Json>, LoadError>)
        ensures
            match r {
                Ok(j) => self@.doc("noise_settings"@, full_name(settings_id@)) == Some(tree(*j)),
                Err(e) => e == LoadError::NotProvided && self@.doc("noise_settings"@, full_name(settings_id@)) is None,
            },
    {
        self.document("noise_settings", settings_id)
    }

    /// Every identifier of a kind, in the order in which they came.
    pub fn ids_of(&self, kind: &str) -> (r: Vec<String>)
        ensures
            texts(r@) == names_of(self@.docs, kind@, self@.docs.len()),
    {
        let mut r: Vec<String> = Vec::new();
        let mut i: usize = 0;
        proof { assert(texts(r@) =~= Seq::empty()); }
        while i < self.docs.len()
            invariant
                i <= self.docs@.len(),
                texts(r@) == names_of(self@.docs, kind@, i as nat),
            decreases self.docs.len() - i,
        {
            let ghost before = r@;
            proof { assert(self@.docs[i as int] == (self.docs@[i as int].0@, self.docs@[i as int].1@, tree(*self.docs@[i as int].2))); }
            if same_text(self.docs[i].0.as_str(), kind) {
                r.push(self.docs[i].1.clone());
                proof { assert(texts(r@) =~= texts(before).push(self@.docs[i as int].1)); }
            }
            i += 1;
        }
        r
    }

    /// How many noise stacks the functions read so far use, and where each
    /// comes from.
    pub fn stacks(&self) -> (r: &Vec<NoiseOrigin>)
        ensures
            self@.origins == r@.map_values(|o: NoiseOrigin| o@),
    {
        &self.origins
    }

    /// An inline function, a constant, or a reference.
    pub fn parse<F: Fn(Ask) -> u64>(&mut self, v: &Json, f: &F) -> (r: Result<Arc<Node>, LoadError>)
        requires
            answers(*f),
            old(self).wf(),
        ensures
            (outcome(r), final(self)@) == read(*f, old(self)@, tree(*v), reach(old(self)@)),
            final(self).went_on(old(self)),
            final(self).admits(r),
    {
        let depth: usize = self.docs.len() + 1;
        self.parse_at(v, f, depth)
    }

    /// The density function registered under an identifier.
    pub fn function<F: Fn(Ask) -> u64>(&mut self, id: &str, f: &F) -> (r: Result<Arc<Node>, LoadError>)
        requires
            answers(*f),
            old(self).wf(),
        ensures
            (outcome(r), final(self)@) == reference(*f, old(self)@, id@, reach(old(self)@)),
            final(self).went_on(old(self)),
            final(self).admits(r),
    {
        let depth: usize = self.docs.len() + 1;
        self.reference(id, f, depth)
    }

    /// A function read and rewritten as a root.
    pub(crate) fn root<F: Fn(Ask) -> u64>(&mut self, v: &Json, rule: &mut SliceUniformAxes, f: &F) -> (r: Result<Arc<Node>, LoadError>)
        requires
            answers(*f),
            old(self).wf(),
            old(rule).follows(old(self).inputs()),
        ensures
            (outcome(r), final(self)@) == root_read(*f, old(self)@, tree(*v)),
            final(self).went_on(old(self)),
            final(rule).follows(final(self).inputs()),
            extends(old(rule).outputs(), final(rule).outputs()),
            r matches Ok(n) ==> agrees(*n, final(rule).outputs()),
    {
        let r = self.parse(v, f);
        proof { rule.lemma_follows_more(old(self).inputs(), self.inputs()); }
        match r {
            Err(e) => Err(e),
            Ok(n) => {
                let out = rule.rewrite_below(&n, Axes::all(), Ghost(self.inputs()));
                Ok(out)
            },
        }
    }

    /// Every function of a noise router, by key.
    pub fn router<F: Fn(Ask) -> u64>(&mut self, settings_id: &str, f: &F) -> (r: Result<Vec<(String, Arc<Node>)>, LoadError>)
        requires
            answers(*f),
            old(self).wf(),
        ensures
            ({
                let (x, s) = router_read(*f, old(self)@, settings_id@);
                &&& s == final(self)@
                &&& match r {
                    Ok(v) => x == Ok::<Seq<(Seq<char>, Func)>, LoadError>(named_funcs(v@)),
                    Err(e) => x == Err::<Seq<(Seq<char>, Func)>, LoadError>(e),
                }
            }),
            final(self).went_on(old(self)),
            r matches Ok(v) ==> hold_together(v@),
    {
        let json = match self.noise_settings(settings_id) {
            Err(e) => return Err(e),
            Ok(j) => j,
        };
        let legacy: bool = match json.get("legacy_random_source") {
            Some(Json::Bool(b)) => *b,
            _ => false,
        };
        if legacy {
            return Err(LoadError::Legacy);
        }
        let router = match json.get("noise_router") {
            Some(Json::Object(o)) => o,
            _ => return Err(LoadError::MissingField),
        };
        let ghost fs = fields(router@, router@.len());
        proof { lemma_fields(router@, router@.len()); }
        let mut out: Vec<(String, Arc<Node>)> = Vec::new();
        let mut rule = SliceUniformAxes::new();
        let mut i: usize = 0;
        proof { assert(named_funcs(out@) =~= Seq::empty()); }
        while i < router.len()
            invariant
                i <= router@.len(),
                answers(*f),
                fs.len() == router@.len(),
                forall|k: int| 0 <= k < fs.len() ==> (#[trigger] fs[k]).0 == router@[k].0@ && fs[k].1 == tree(router@[k].1),
                out@.len() == i,
                roots_read(*f, old(self)@, fs, i as nat) == (
                    Ok::<Seq<(Seq<char>, Func)>, LoadError>(named_funcs(out@)),
                    self@,
                ),
                router_read(*f, old(self)@, settings_id@) == roots_read(*f, old(self)@, fs, fs.len()),
                self.went_on(old(self)),
                rule.follows(self.inputs()),
                forall|k: int| 0 <= k < i ==> agrees(*(#[trigger] out@[k]).1, rule.outputs()),
            decreases router.len() - i,
        {
            let ghost before = out@;
            let ghost o = rule.outputs();
            proof { assert(fs[i as int].1 == tree(router@[i as int].1)); }
            let n = match self.root(&router[i].1, &mut rule, f) {
                Ok(n) => n,
                Err(e) => {
                    proof { lemma_roots_fail(*f, old(self)@, fs, (i + 1) as nat, fs.len()); }
                    return Err(e);
                },
            };
            let key: String = router[i].0.clone();
            out.push((key, n));
            proof {
                assert(named_funcs(out@) =~= named_funcs(before).push((fs[i as int].0, func_of(inner(n)))));
                assert forall|k: int| 0 <= k < i + 1 implies agrees(*(#[trigger] out@[k]).1, rule.outputs()) by {
                    if k < i {
                        assert(out@[k] == before[k]);
                        lemma_agrees_grows(inner(before[k].1), o, rule.outputs());
                    }
                }
            }
            i += 1;
        }
        proof {
            assert(all_agree(out@, rule.outputs()));
            assert(hold_together(out@));
        }
        Ok(out)
    }
}

} // verus!
