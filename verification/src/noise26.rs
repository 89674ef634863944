//! Noise parameters and the layers they make.

use vstd::prelude::*;
use crate::arith::{answers, holds, low, reply, Ask, HALF, ONE, TWO, ZERO};
use crate::df26::{wrap, wrapped};
use crate::dfrewrite::is_zero;
use crate::json::{lemma_trees, tree, trees, Json, LoadError, Tree};
use crate::text::same_text;

verus! {

/// How much faster the second noise of an octave runs: 1.0181268882175227.
pub const INPUT_FACTOR: u64 = 0x3FF0_4A3F_6B81_28FE;

/// The standard deviation of a noise: 0.2702247831245211.
pub const STANDARD_DEVIATION: u64 = 0x3FD1_4B5C_E385_AA29;

/// The standard deviation aimed for: 0.3333333333333333.
pub const TARGET_DEVIATION: u64 = 0x3FD5_5555_5555_5555;

/// 0.1.
pub const TENTH: u64 = 0x3FB9_9999_9999_999A;

#[derive(Clone, Copy, Debug, PartialEq, Eq, Structural)]
pub enum Normalization {
    Disabled,
    Enabled,
    Legacy,
}

/// The parameters of a noise.
#[derive(Debug)]
pub struct NoiseParameters26 {
    pub base_amplitude: u64,
    pub base_octave: i32,
    pub octave_count: i32,
    pub normalize: Normalization,
    pub amplitude_modifiers: Vec<u64>,
}

/// The parameters as a value.
pub ghost struct Parameters {
    pub base_amplitude: u64,
    pub base_octave: i32,
    pub octave_count: i32,
    pub normalize: Normalization,
    pub modifiers: Seq<u64>,
}

impl View for NoiseParameters26 {
    type V = Parameters;

    open spec fn view(&self) -> Parameters {
        Parameters {
            base_amplitude: self.base_amplitude,
            base_octave: self.base_octave,
            octave_count: self.octave_count,
            normalize: self.normalize,
            modifiers: self.amplitude_modifiers@,
        }
    }
}

/// The doubles of a list; nothing where an element is no number.
pub open spec fn doubles(l: Seq<Tree>) -> Option<Seq<u64>> {
    if forall|i: int| 0 <= i < l.len() ==> (#[trigger] l[i]).as_double() is Some {
        Some(Seq::new(l.len(), |i: int| l[i].as_double().unwrap()))
    } else {
        None
    }
}

/// The doubles of a list.
pub(crate) fn read_doubles(l: &Vec<Json>) -> (r: Option<Vec<u64>>)
    ensures
        r is Some <==> doubles(trees(l@, l@.len())) is Some,
        r matches Some(v) ==> doubles(trees(l@, l@.len())) == Some(v@),
{
    let ghost t = trees(l@, l@.len());
    proof { lemma_trees(l@, l@.len()); }
    let mut r: Vec<u64> = Vec::new();
    let mut i: usize = 0;
    while i < l.len()
        invariant
            i <= l@.len(),
            t == trees(l@, l@.len()),
            t.len() == l@.len(),
            forall|k: int| 0 <= k < t.len() ==> #[trigger] t[k] == tree(l@[k]),
            r@.len() == i,
            forall|k: int| 0 <= k < i ==> (#[trigger] t[k]).as_double() == Some(r@[k]),
        decreases l.len() - i,
    {
        proof { assert(t[i as int] == tree(l@[i as int])); }
        match l[i].as_double() {
            Some(v) => r.push(v),
            None => {
                proof { assert(t[i as int].as_double() is None); }
                return None;
            },
        }
        i += 1;
    }
    proof { assert(doubles(t).unwrap() =~= r@); }
    Some(r)
}

/// The amplitude that a document asks for, one without a word.
pub open spec fn base_amplitude_in(t: Tree) -> Option<u64> {
    match t.get("base_amplitude"@) {
        Some(x) => x.as_double(),
        None => Some(ONE),
    }
}

/// How many octaves a document asks for, one without a word.
pub open spec fn octave_count_in(t: Tree) -> Option<i32> {
    match t.get("octave_count"@) {
        Some(x) => match x.as_integer() {
            Some(v) => Some(wrapped(v as int)),
            None => None,
        },
        None => Some(1),
    }
}

pub open spec fn normalization_in(t: Tree) -> Option<Normalization> {
    match t.get("normalize"@) {
        None => Some(Normalization::Enabled),
        Some(Tree::Bool(true)) => Some(Normalization::Enabled),
        Some(Tree::Bool(false)) => Some(Normalization::Disabled),
        Some(Tree::Text(s)) => if s == "legacy"@ { Some(Normalization::Legacy) } else { None },
        _ => None,
    }
}

pub open spec fn modifiers_in(t: Tree) -> Result<Seq<u64>, LoadError> {
    match t.get("amplitude_modifiers"@) {
        None => Ok(Seq::empty()),
        Some(a) => match a.as_list() {
            None => Err(LoadError::NotList),
            Some(l) => match doubles(l) {
                None => Err(LoadError::NotNumber),
                Some(m) => Ok(m),
            },
        },
    }
}

/// The integer of a field.
pub open spec fn integer_in(t: Tree, key: Seq<char>) -> Option<i32> {
    match t.get(key) {
        Some(x) => match x.as_integer() {
            Some(v) => Some(wrapped(v as int)),
            None => None,
        },
        None => None,
    }
}

pub(crate) fn get_integer(j: &Json, key: &str) -> (r: Option<i32>)
    ensures
        r == integer_in(tree(*j), key@),
{
    match j.get(key) {
        Some(x) => match x.as_integer() {
            Some(v) => Some(wrap(v as i128)),
            None => None,
        },
        None => None,
    }
}

/// What a document says of a noise.
pub open spec fn parameters_in(t: Tree) -> Result<Parameters, LoadError> {
    if !(t is Object) {
        Err(LoadError::Unexpected)
    } else {
        match base_amplitude_in(t) {
            None => Err(LoadError::NotNumber),
            Some(base_amplitude) => match integer_in(t, "base_octave"@) {
                None => Err(LoadError::NotInteger),
                Some(base_octave) => match octave_count_in(t) {
                    None => Err(LoadError::NotInteger),
                    Some(octave_count) => match normalization_in(t) {
                        None => Err(LoadError::Normalization),
                        Some(normalize) => match modifiers_in(t) {
                            Err(e) => Err(e),
                            Ok(modifiers) => if modifiers.len() != 0 && modifiers.len() != octave_count {
                                Err(LoadError::ModifierCount)
                            } else {
                                Ok(Parameters { base_amplitude, base_octave, octave_count, normalize, modifiers })
                            },
                        },
                    },
                },
            },
        }
    }
}

impl NoiseParameters26 {
    /// Read the document of a noise.
    pub fn from_json(v: &Json) -> (r: Result<NoiseParameters26, LoadError>)
        ensures
            match r {
                Ok(p) => parameters_in(tree(*v)) == Ok::<Parameters, LoadError>(p@),
                Err(e) => parameters_in(tree(*v)) == Err::<Parameters, LoadError>(e),
            },
    {
        match v {
            Json::Object(_) => {},
            _ => return Err(LoadError::Unexpected),
        }
        let base_amplitude: u64 = match v.get("base_amplitude") {
            None => ONE,
            Some(x) => match x.as_double() {
                Some(a) => a,
                None => return Err(LoadError::NotNumber),
            },
        };
        let base_octave: i32 = match get_integer(v, "base_octave") {
            Some(b) => b,
            None => return Err(LoadError::NotInteger),
        };
        let octave_count: i32 = match v.get("octave_count") {
            None => 1,
            Some(x) => match x.as_integer() {
                Some(c) => wrap(c as i128),
                None => return Err(LoadError::NotInteger),
            },
        };
        let normalize = match v.get("normalize") {
            None => Normalization::Enabled,
            Some(Json::Bool(b)) => if *b { Normalization::Enabled } else { Normalization::Disabled },
            Some(Json::Text(s)) => {
                if !same_text(s.as_str(), "legacy") {
                    return Err(LoadError::Normalization);
                }
                Normalization::Legacy
            },
            Some(_) => return Err(LoadError::Normalization),
        };
        let amplitude_modifiers: Vec<u64> = match v.get("amplitude_modifiers") {
            None => Vec::new(),
            Some(a) => match a.as_array() {
                None => return Err(LoadError::NotList),
                Some(l) => match read_doubles(l) {
                    None => return Err(LoadError::NotNumber),
                    Some(m) => m,
                },
            },
        };
        if amplitude_modifiers.len() != 0 && (octave_count < 0 || amplitude_modifiers.len() != octave_count as usize) {
            return Err(LoadError::ModifierCount);
        }
        Ok(NoiseParameters26 { base_amplitude, base_octave, octave_count, normalize, amplitude_modifiers })
    }
}

/// One octave of a noise.
#[derive(Clone, Copy, Debug)]
pub struct OctaveInfo {
    pub octave_index: i32,
    pub frequency: u64,
    pub amplitude: u64,
}

impl Parameters {
    /// One modifier per octave, or none at all.
    pub open spec fn wf(self) -> bool {
        0 <= self.octave_count && (self.modifiers.len() == 0 || self.modifiers.len() == self.octave_count)
    }

    pub open spec fn modifier(self, i: int) -> u64 {
        if self.modifiers.len() == 0 { ONE } else { self.modifiers[i] }
    }

    /// The amplitude of the first octave.
    pub open spec fn first_amplitude<F: Fn(Ask) -> u64>(self, f: F) -> u64 {
        if self.normalize is Disabled {
            self.base_amplitude
        } else {
            let n = self.octave_count;
            let up = reply(f, Ask::Powi64(HALF, (-(n - 1)) as i32));
            let all = reply(f, Ask::Sub64(reply(f, Ask::Powi64(HALF, (-n) as i32)), ONE));
            reply(f, Ask::Mul64(self.base_amplitude, reply(f, Ask::Div64(up, all))))
        }
    }

    /// Frequency and amplitude of the `i`-th octave: doubled and halved
    /// from one to the next.
    pub open spec fn wave<F: Fn(Ask) -> u64>(self, f: F, i: nat) -> (u64, u64)
        decreases i,
    {
        if i == 0 {
            (reply(f, Ask::Powi64(TWO, self.base_octave)), self.first_amplitude(f))
        } else {
            let (q, a) = self.wave(f, (i - 1) as nat);
            (reply(f, Ask::Mul64(q, TWO)), reply(f, Ask::Mul64(a, HALF)))
        }
    }

    /// The octaves among the first `n` whose modifier is not zero.
    pub open spec fn octaves<F: Fn(Ask) -> u64>(self, f: F, n: nat) -> Seq<OctaveInfo>
        decreases n,
    {
        if n == 0 {
            Seq::empty()
        } else {
            let before = self.octaves(f, (n - 1) as nat);
            let m = self.modifier(n - 1);
            let (q, a) = self.wave(f, (n - 1) as nat);
            if is_zero(m) {
                before
            } else {
                before.push(
                    OctaveInfo {
                        octave_index: wrapped(self.base_octave + (n - 1)),
                        frequency: q,
                        amplitude: reply(f, Ask::Mul64(a, m)),
                    },
                )
            }
        }
    }

    /// The first and the last octave whose modifier is not zero, among the
    /// first `n`.
    pub open spec fn span(self, n: nat) -> (i32, i32)
        decreases n,
    {
        if n == 0 {
            (i32::MAX, i32::MIN)
        } else {
            let (a, b) = self.span((n - 1) as nat);
            let i = (n - 1) as i32;
            if is_zero(self.modifier(n - 1)) {
                (a, b)
            } else {
                (if i < a { i } else { a }, if i > b { i } else { b })
            }
        }
    }

    /// The factor of a legacy noise.
    pub open spec fn parity_factor<F: Fn(Ask) -> u64>(self, f: F) -> u64 {
        let (a, b) = self.span(self.octave_count as nat);
        let span = reply(f, Ask::FromInt64(wrapped(b - a)));
        let part = reply(f, Ask::Div64(ONE, reply(f, Ask::Add64(span, ONE))));
        let expected = reply(f, Ask::Mul64(TENTH, reply(f, Ask::Add64(ONE, part))));
        let half = reply(f, Ask::Mul64(self.base_amplitude, HALF));
        reply(f, Ask::Div64(reply(f, Ask::Mul64(half, TARGET_DEVIATION)), expected))
    }

    /// The octaves and the factor that normalizes them.
    pub open spec fn compiled<F: Fn(Ask) -> u64>(self, f: F) -> (Seq<OctaveInfo>, u64) {
        let o = self.octaves(f, self.octave_count as nat);
        let factor = normalizing(f, total(f, o, o.len()), o);
        (
            o,
            if self.normalize is Legacy && !holds(f, Ask::Equal64(factor, ZERO)) { self.parity_factor(f) } else { factor },
        )
    }
}

/// The sum of the first amplitudes.
pub open spec fn total<F: Fn(Ask) -> u64>(f: F, o: Seq<OctaveInfo>, n: nat) -> u64
    decreases n,
{
    if n == 0 {
        0x8000_0000_0000_0000
    } else {
        reply(f, Ask::Add64(total(f, o, (n - 1) as nat), reply(f, Ask::Abs64(o[n - 1].amplitude))))
    }
}

/// The variance of the first octaves.
pub open spec fn variance<F: Fn(Ask) -> u64>(f: F, o: Seq<OctaveInfo>, n: nat) -> u64
    decreases n,
{
    if n == 0 {
        ZERO
    } else {
        let d = reply(f, Ask::Mul64(STANDARD_DEVIATION, reply(f, Ask::Abs64(o[n - 1].amplitude))));
        reply(f, Ask::Add64(variance(f, o, (n - 1) as nat), reply(f, Ask::Mul64(d, d))))
    }
}

/// The factor that gives octaves the deviation aimed for.
pub open spec fn normalizing<F: Fn(Ask) -> u64>(f: F, target: u64, o: Seq<OctaveInfo>) -> u64 {
    let deviation = reply(f, Ask::Sqrt64(variance(f, o, o.len())));
    if holds(f, Ask::Equal64(deviation, ZERO)) {
        ZERO
    } else {
        let sum = reply(f, Ask::Mul64(deviation, reply(f, Ask::Sqrt64(TWO))));
        reply(f, Ask::Div64(reply(f, Ask::Mul64(target, TARGET_DEVIATION)), sum))
    }
}

/// One layer of a noise stack: which of the two noises of an octave, how
/// fast it runs and how much it counts.
#[derive(Clone, Copy, Debug)]
pub struct LayerPlan {
    pub octave_index: i32,
    pub second: bool,
    pub frequency: u64,
    pub amplitude: u32,
}

/// The two layers of each of the first `n` octaves.
pub open spec fn layered<F: Fn(Ask) -> u64>(f: F, o: Seq<OctaveInfo>, factor: u64, n: nat) -> Seq<LayerPlan>
    decreases n,
{
    if n == 0 {
        Seq::empty()
    } else {
        let x = o[n - 1];
        let amplitude = low(f, Ask::Narrow(reply(f, Ask::Mul64(factor, x.amplitude))));
        layered(f, o, factor, (n - 1) as nat).push(
            LayerPlan { octave_index: x.octave_index, second: false, frequency: x.frequency, amplitude }).push(
            LayerPlan {
                octave_index: x.octave_index,
                second: true,
                frequency: reply(f, Ask::Mul64(x.frequency, INPUT_FACTOR)),
                amplitude,
            },
        )
    }
}

impl NoiseParameters26 {
    fn modifier(&self, i: usize) -> (r: u64)
        requires
            self@.wf(),
            i < self.octave_count,
        ensures
            r == self@.modifier(i as int),
    {
        if self.amplitude_modifiers.len() == 0 { ONE } else { self.amplitude_modifiers[i] }
    }

    fn build_octaves<F: Fn(Ask) -> u64>(&self, f: &F) -> (r: Vec<OctaveInfo>)
        requires
            answers(*f),
            self@.wf(),
        ensures
            r@ == self@.octaves(*f, self.octave_count as nat),
    {
        let mut frequency: u64 = f(Ask::Powi64(TWO, self.base_octave));
        let mut amplitude: u64 = self.base_amplitude;
        if self.normalize != Normalization::Disabled {
            let n: i32 = self.octave_count;
            let up: u64 = f(Ask::Powi64(HALF, -(n - 1)));
            let p: u64 = f(Ask::Powi64(HALF, -n));
            let all: u64 = f(Ask::Sub64(p, ONE));
            let q: u64 = f(Ask::Div64(up, all));
            amplitude = f(Ask::Mul64(self.base_amplitude, q));
        }
        let mut r: Vec<OctaveInfo> = Vec::new();
        let mut i: usize = 0;
        let n: usize = self.octave_count as usize;
        while i < n
            invariant
                i <= n,
                n == self.octave_count,
                answers(*f),
                self@.wf(),
                (frequency, amplitude) == self@.wave(*f, i as nat),
                r@ == self@.octaves(*f, i as nat),
            decreases n - i,
        {
            let m: u64 = self.modifier(i);
            if !(m == 0 || m == 0x8000_0000_0000_0000) {
                let a: u64 = f(Ask::Mul64(amplitude, m));
                r.push(OctaveInfo { octave_index: wrap(self.base_octave as i128 + i as i128), frequency, amplitude: a });
            }
            frequency = f(Ask::Mul64(frequency, TWO));
            amplitude = f(Ask::Mul64(amplitude, HALF));
            i += 1;
        }
        r
    }

    fn normalization_factor<F: Fn(Ask) -> u64>(f: &F, target: u64, o: &Vec<OctaveInfo>) -> (r: u64)
        requires
            answers(*f),
        ensures
            r == normalizing(*f, target, o@),
    {
        let mut v: u64 = ZERO;
        let mut i: usize = 0;
        while i < o.len()
            invariant
                i <= o@.len(),
                answers(*f),
                v == variance(*f, o@, i as nat),
            decreases o.len() - i,
        {
            let a: u64 = f(Ask::Abs64(o[i].amplitude));
            let d: u64 = f(Ask::Mul64(STANDARD_DEVIATION, a));
            let s: u64 = f(Ask::Mul64(d, d));
            v = f(Ask::Add64(v, s));
            i += 1;
        }
        let deviation: u64 = f(Ask::Sqrt64(v));
        if f(Ask::Equal64(deviation, ZERO)) != 0 {
            ZERO
        } else {
            let root: u64 = f(Ask::Sqrt64(TWO));
            let sum: u64 = f(Ask::Mul64(deviation, root));
            let t: u64 = f(Ask::Mul64(target, TARGET_DEVIATION));
            f(Ask::Div64(t, sum))
        }
    }

    fn parity_normalization_factor<F: Fn(Ask) -> u64>(&self, f: &F) -> (r: u64)
        requires
            answers(*f),
            self@.wf(),
        ensures
            r == self@.parity_factor(*f),
    {
        let (mut first, mut last): (i32, i32) = (i32::MAX, i32::MIN);
        let mut i: usize = 0;
        let n: usize = self.octave_count as usize;
        while i < n
            invariant
                i <= n,
                n == self.octave_count,
                self@.wf(),
                (first, last) == self@.span(i as nat),
            decreases n - i,
        {
            let m: u64 = self.modifier(i);
            if !(m == 0 || m == 0x8000_0000_0000_0000) {
                if (i as i32) < first {
                    first = i as i32;
                }
                if (i as i32) > last {
                    last = i as i32;
                }
            }
            i += 1;
        }
        let span: u64 = f(Ask::FromInt64(wrap(last as i128 - first as i128)));
        let next: u64 = f(Ask::Add64(span, ONE));
        let part: u64 = f(Ask::Div64(ONE, next));
        let sum: u64 = f(Ask::Add64(ONE, part));
        let expected: u64 = f(Ask::Mul64(TENTH, sum));
        let half: u64 = f(Ask::Mul64(self.base_amplitude, HALF));
        let aim: u64 = f(Ask::Mul64(half, TARGET_DEVIATION));
        f(Ask::Div64(aim, expected))
    }

    /// The octaves and the factor that normalizes them.
    pub fn compile<F: Fn(Ask) -> u64>(&self, f: &F) -> (r: (Vec<OctaveInfo>, u64))
        requires
            answers(*f),
            self@.wf(),
        ensures
            (r.0@, r.1) == self@.compiled(*f),
    {
        let o: Vec<OctaveInfo> = self.build_octaves(f);
        let mut target: u64 = 0x8000_0000_0000_0000;
        let mut i: usize = 0;
        while i < o.len()
            invariant
                i <= o@.len(),
                answers(*f),
                target == total(*f, o@, i as nat),
            decreases o.len() - i,
        {
            let a: u64 = f(Ask::Abs64(o[i].amplitude));
            target = f(Ask::Add64(target, a));
            i += 1;
        }
        let mut factor: u64 = NoiseParameters26::normalization_factor(f, target, &o);
        if self.normalize == Normalization::Legacy && f(Ask::Equal64(factor, ZERO)) == 0 {
            factor = self.parity_normalization_factor(f);
        }
        (o, factor)
    }

    /// The layers of the noise, in the order in which they are summed.
    pub fn layers<F: Fn(Ask) -> u64>(&self, f: &F) -> (r: Vec<LayerPlan>)
        requires
            answers(*f),
            self@.wf(),
        ensures
            r@ == layered(*f, self@.compiled(*f).0, self@.compiled(*f).1, self@.compiled(*f).0.len()),
    {
        let (o, factor): (Vec<OctaveInfo>, u64) = self.compile(f);
        let mut r: Vec<LayerPlan> = Vec::new();
        let mut i: usize = 0;
        while i < o.len()
            invariant
                i <= o@.len(),
                answers(*f),
                r@ == layered(*f, o@, factor, i as nat),
            decreases o.len() - i,
        {
            let x = o[i];
            let p: u64 = f(Ask::Mul64(factor, x.amplitude));
            let amplitude: u32 = f(Ask::Narrow(p)) as u32;
            let fast: u64 = f(Ask::Mul64(x.frequency, INPUT_FACTOR));
            r.push(LayerPlan { octave_index: x.octave_index, second: false, frequency: x.frequency, amplitude });
            r.push(LayerPlan { octave_index: x.octave_index, second: true, frequency: fast, amplitude });
            i += 1;
        }
        r
    }
}

} // verus!
