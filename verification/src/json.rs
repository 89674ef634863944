//! JSON documents.

use vstd::prelude::*;
use crate::text::same_text;

verus! {

/// Why a document could not be read.
#[derive(Clone, Copy, Debug, PartialEq, Eq, Structural)]
pub enum LoadError {
    /// There is no such document.
    NotProvided,
    /// Functions refer to each other in a circle.
    Cycle,
    /// A document or a part of one is of no kind that fits there.
    Unexpected,
    /// A function has no type.
    MissingType,
    /// There is no such type of function.
    UnknownType,
    /// The type of function is known and not supported.
    Unsupported,
    /// A field is missing.
    MissingField,
    /// A field is missing or no number.
    NotNumber,
    /// A field is missing or no integer.
    NotInteger,
    /// A field is missing or no text.
    NotText,
    /// A field is missing or no list.
    NotList,
    UnknownAxis,
    UnknownTiling,
    UnknownMetric,
    /// A gradient starts where it ends.
    EmptyGradient,
    /// A clamp's maximum lies below its minimum.
    EmptyClamp,
    /// There is not one threshold fewer than there are functions.
    ThresholdCount,
    /// Thresholds decrease.
    ThresholdOrder,
    /// A cell size is not positive.
    CellSize,
    /// A point has not three coordinates.
    PointSize,
    /// A spline has no knots.
    NoKnots,
    /// A spline's locations do not increase.
    KnotOrder,
    /// A noise has a wrong normalization.
    Normalization,
    /// A noise has not one modifier per octave.
    ModifierCount,
    /// The world uses the legacy random source.
    Legacy,
    /// A height is no anchor.
    NotAnchor,
    /// A biome is not among those of the world.
    UnknownBiome,
    /// A climate box has not thirteen bounds.
    SpaceSize,
    /// There are no climate boxes.
    NoBiomes,
    /// There are more climate boxes, or farther out, than distances can be
    /// measured for.
    OutOfRange,
}

/// A document as a value. Of a number it holds the double it reads as, and
/// the integer where it is one.
pub ghost enum Tree {
    Null,
    Bool(bool),
    Number { value: u64, integer: Option<i64> },
    Text(Seq<char>),
    List(Seq<Tree>),
    Object(Seq<(Seq<char>, Tree)>),
}

/// The first field with a name, from the `k`-th on.
pub open spec fn field_from(fields: Seq<(Seq<char>, Tree)>, name: Seq<char>, k: int) -> Option<int>
    decreases fields.len() - k,
{
    if k < 0 || k >= fields.len() {
        None
    } else if fields[k].0 == name {
        Some(k)
    } else {
        field_from(fields, name, k + 1)
    }
}

impl Tree {
    /// The field of an object.
    pub open spec fn get(self, name: Seq<char>) -> Option<Tree> {
        match self {
            Tree::Object(fields) => match field_from(fields, name, 0) {
                Some(k) => Some(fields[k].1),
                None => None,
            },
            _ => None,
        }
    }

    pub open spec fn as_text(self) -> Option<Seq<char>> {
        match self {
            Tree::Text(s) => Some(s),
            _ => None,
        }
    }

    pub open spec fn as_double(self) -> Option<u64> {
        match self {
            Tree::Number { value, .. } => Some(value),
            _ => None,
        }
    }

    pub open spec fn as_integer(self) -> Option<i64> {
        match self {
            Tree::Number { integer, .. } => integer,
            _ => None,
        }
    }

    pub open spec fn as_bool(self) -> Option<bool> {
        match self {
            Tree::Bool(b) => Some(b),
            _ => None,
        }
    }

    pub open spec fn as_list(self) -> Option<Seq<Tree>> {
        match self {
            Tree::List(s) => Some(s),
            _ => None,
        }
    }
}

/// A document.
pub enum Json {
    Null,
    Bool(bool),
    Number { value: u64, integer: Option<i64> },
    Text(String),
    List(Vec<Json>),
    Object(Vec<(String, Json)>),
}

/// The value of a document.
pub open spec fn tree(j: Json) -> Tree
    decreases j,
{
    match j {
        Json::Null => Tree::Null,
        Json::Bool(b) => Tree::Bool(b),
        Json::Number { value, integer } => Tree::Number { value, integer },
        Json::Text(s) => Tree::Text(s@),
        Json::List(l) => Tree::List(trees(l@, l@.len())),
        Json::Object(o) => Tree::Object(fields(o@, o@.len())),
    }
}

/// The values of the first `n` documents.
pub open spec fn trees(s: Seq<Json>, n: nat) -> Seq<Tree>
    decreases s, n,
{
    if n == 0 || n > s.len() { Seq::empty() } else { trees(s, (n - 1) as nat).push(tree(s[n - 1])) }
}

/// The values of the first `n` fields.
pub open spec fn fields(s: Seq<(String, Json)>, n: nat) -> Seq<(Seq<char>, Tree)>
    decreases s, n,
{
    if n == 0 || n > s.len() { Seq::empty() } else { fields(s, (n - 1) as nat).push((s[n - 1].0@, tree(s[n - 1].1))) }
}

pub proof fn lemma_trees(s: Seq<Json>, n: nat)
    requires
        n <= s.len(),
    ensures
        trees(s, n).len() == n,
        forall|i: int| 0 <= i < n ==> #[trigger] trees(s, n)[i] == tree(s[i]),
    decreases n,
{
    if n > 0 {
        lemma_trees(s, (n - 1) as nat);
    }
}

pub proof fn lemma_fields(s: Seq<(String, Json)>, n: nat)
    requires
        n <= s.len(),
    ensures
        fields(s, n).len() == n,
        forall|i: int| 0 <= i < n ==> (#[trigger] fields(s, n)[i]).0 == s[i].0@ && fields(s, n)[i].1 == tree(s[i].1),
    decreases n,
{
    if n > 0 {
        lemma_fields(s, (n - 1) as nat);
    }
}

/// A document of `serde_json`.
#[verifier::external_type_specification]
#[verifier::external_body]
pub struct ExValue(serde_json::Value);

/// What `serde_json` says of a text that is no document.
#[verifier::external_type_specification]
#[verifier::external_body]
pub struct ExError(serde_json::Error);

/// What a `serde_json::Value` holds.
pub uninterp spec fn tree_of(v: serde_json::Value) -> Tree;

/// What `serde_json::from_str` reads a text as; nothing where it fails.
pub uninterp spec fn tree_in(text: Seq<char>) -> Option<Tree>;

/// `serde_json::from_str` into a `Value`: the same text always gives the
/// same document, or always fails.
#[verifier::external_body]
fn read_value(text: &str) -> (r: Result<serde_json::Value, serde_json::Error>)
    ensures
        r is Ok <==> tree_in(text@) is Some,
        r matches Ok(v) ==> tree_in(text@) == Some(tree_of(v)),
{
    serde_json::from_str::<serde_json::Value>(text)
}

/// `Value::as_bool`: the truth value of a boolean, nothing of anything else.
#[verifier::external_body]
fn value_bool(v: &serde_json::Value) -> (r: Option<bool>)
    ensures
        r == tree_of(*v).as_bool(),
{
    v.as_bool()
}

/// `Value::as_f64`, as bits: the double that a number reads as, nothing of
/// anything else.
#[verifier::external_body]
fn value_double(v: &serde_json::Value) -> (r: Option<u64>)
    ensures
        r == tree_of(*v).as_double(),
{
    v.as_f64().map(|x| x.to_bits())
}

/// `Value::as_i64`: the number where it is an integer of that range.
#[verifier::external_body]
fn value_integer(v: &serde_json::Value) -> (r: Option<i64>)
    ensures
        r == tree_of(*v).as_integer(),
{
    v.as_i64()
}

/// `Value::as_str`: the characters of a text, nothing of anything else.
#[verifier::external_body]
fn value_text(v: &serde_json::Value) -> (r: Option<String>)
    ensures
        r is Some <==> tree_of(*v) is Text,
        r matches Some(s) ==> tree_of(*v) == Tree::Text(s@),
{
    v.as_str().map(String::from)
}

/// `Value::as_array`: how many elements a list has.
#[verifier::external_body]
fn value_count(v: &serde_json::Value) -> (r: Option<usize>)
    ensures
        r is Some <==> tree_of(*v) is List,
        r matches Some(n) ==> n == tree_of(*v)->List_0.len(),
{
    v.as_array().map(|a| a.len())
}

/// `Value::get` by position: an element of a list.
#[verifier::external_body]
fn value_element(v: &serde_json::Value, i: usize) -> (r: Option<&serde_json::Value>)
    ensures
        r is Some <==> (tree_of(*v) is List && i < tree_of(*v)->List_0.len()),
        r matches Some(e) ==> tree_of(*e) == tree_of(*v)->List_0[i as int],
{
    v.get(i)
}

/// `Value::as_object` and the keys of the map: the names of an object's
/// fields, each once.
#[verifier::external_body]
fn value_names(v: &serde_json::Value) -> (r: Option<Vec<String>>)
    ensures
        r is Some <==> tree_of(*v) is Object,
        r matches Some(names) ==> {
            let f = tree_of(*v)->Object_0;
            &&& names@.len() == f.len()
            &&& forall|k: int| 0 <= k < f.len() ==> (#[trigger] names@[k])@ == f[k].0
            &&& forall|j: int, k: int| 0 <= j < f.len() && 0 <= k < f.len() && j != k ==> (#[trigger] f[j]).0 != (#[trigger] f[k]).0
        },
{
    v.as_object().map(|m| m.keys().cloned().collect())
}

/// `Value::get` by name: a field of an object.
#[verifier::external_body]
fn value_field<'a>(v: &'a serde_json::Value, name: &str) -> (r: Option<&'a serde_json::Value>)
    ensures
        r is Some <==> tree_of(*v).get(name@) is Some,
        r matches Some(e) ==> tree_of(*v).get(name@) == Some(tree_of(*e)),
{
    v.get(name)
}

/// A field is the first with its name where names are used once.
proof fn lemma_field(f: Seq<(Seq<char>, Tree)>, k: int, from: int)
    requires
        0 <= from <= k < f.len(),
        forall|i: int, j: int| 0 <= i < f.len() && 0 <= j < f.len() && i != j ==> (#[trigger] f[i]).0 != (#[trigger] f[j]).0,
    ensures
        field_from(f, f[k].0, from) == Some(k),
    decreases k - from,
{
    if from < k {
        assert(f[from].0 != f[k].0);
        lemma_field(f, k, from + 1);
    }
}

impl Json {
    /// The document that a text holds; nothing where it holds none.
    pub fn parse(text: &str) -> (r: Option<Json>)
        ensures
            r is Some <==> tree_in(text@) is Some,
            r matches Some(j) ==> tree_in(text@) == Some(tree(j)),
    {
        match read_value(text) {
            Ok(v) => Some(Json::from_value(&v)),
            Err(_) => None,
        }
    }

    fn from_value(v: &serde_json::Value) -> (r: Json)
        ensures
            tree(r) == tree_of(*v),
        decreases tree_of(*v),
    {
        if let Some(b) = value_bool(v) {
            return Json::Bool(b);
        }
        if let Some(value) = value_double(v) {
            return Json::Number { value, integer: value_integer(v) };
        }
        if let Some(s) = value_text(v) {
            return Json::Text(s);
        }
        if let Some(n) = value_count(v) {
            let ghost l = tree_of(*v)->List_0;
            let mut out: Vec<Json> = Vec::new();
            let mut i: usize = 0;
            while i < n
                invariant
                    i <= n,
                    tree_of(*v) == Tree::List(l),
                    n == l.len(),
                    out@.len() == i,
                    forall|k: int| 0 <= k < i ==> tree(#[trigger] out@[k]) == l[k],
                decreases n - i,
            {
                match value_element(v, i) {
                    Some(e) => {
                        proof {
                            assert(decreases_to!(tree_of(*v) => l));
                            assert(decreases_to!(l => l[i as int]));
                        }
                        out.push(Json::from_value(e));
                    },
                    None => out.push(Json::Null),
                }
                i += 1;
            }
            proof {
                lemma_trees(out@, out@.len());
                assert(trees(out@, out@.len()) =~= l);
            }
            return Json::List(out);
        }
        if let Some(names) = value_names(v) {
            let ghost f = tree_of(*v)->Object_0;
            let mut out: Vec<(String, Json)> = Vec::new();
            let mut i: usize = 0;
            while i < names.len()
                invariant
                    i <= names@.len(),
                    tree_of(*v) == Tree::Object(f),
                    names@.len() == f.len(),
                    forall|k: int| 0 <= k < f.len() ==> (#[trigger] names@[k])@ == f[k].0,
                    forall|j: int, k: int|
                        0 <= j < f.len() && 0 <= k < f.len() && j != k ==> (#[trigger] f[j]).0 != (#[trigger] f[k]).0,
                    out@.len() == i,
                    forall|k: int| 0 <= k < i ==> (#[trigger] out@[k]).0@ == f[k].0 && tree(out@[k].1) == f[k].1,
                decreases names.len() - i,
            {
                proof {
                    lemma_field(f, i as int, 0);
                    assert(names@[i as int]@ == f[i as int].0);
                }
                match value_field(v, names[i].as_str()) {
                    Some(e) => {
                        proof {
                            assert(decreases_to!(tree_of(*v) => f));
                            assert(decreases_to!(f => f[i as int]));
                            assert(decreases_to!(f[i as int] => f[i as int].1));
                        }
                        let name: String = names[i].as_str().to_string();
                        out.push((name, Json::from_value(e)));
                    },
                    None => out.push((String::new(), Json::Null)),
                }
                i += 1;
            }
            proof {
                lemma_fields(out@, out@.len());
                assert(fields(out@, out@.len()) =~= f);
            }
            return Json::Object(out);
        }
        Json::Null
    }

    /// A field of an object.
    pub fn get(&self, name: &str) -> (r: Option<&Json>)
        ensures
            r is Some <==> tree(*self).get(name@) is Some,
            r matches Some(j) ==> tree(*self).get(name@) == Some(tree(*j)),
            r matches Some(j) ==> decreases_to!(*self => *j),
    {
        match self {
            Json::Object(o) => {
                let ghost f = fields(o@, o@.len());
                proof { lemma_fields(o@, o@.len()); }
                let mut i: usize = 0;
                while i < o.len()
                    invariant
                        i <= o@.len(),
                        *self matches Json::Object(g) && g == *o,
                        f.len() == o@.len(),
                        forall|k: int| 0 <= k < f.len() ==> (#[trigger] f[k]).0 == o@[k].0@ && f[k].1 == tree(o@[k].1),
                        f == fields(o@, o@.len()),
                        field_from(f, name@, 0) == field_from(f, name@, i as int),
                    decreases o.len() - i,
                {
                    if same_text(o[i].0.as_str(), name) {
                        proof {
                            assert(decreases_to!(*self => self->Object_0));
                            assert(decreases_to!(o@ => o@[i as int]));
                            assert(decreases_to!(o@[i as int] => o@[i as int].1));
                        }
                        return Some(&o[i].1);
                    }
                    i += 1;
                }
                None
            },
            _ => None,
        }
    }

    /// The characters of a text.
    pub fn as_str(&self) -> (r: Option<&str>)
        ensures
            r is Some <==> tree(*self).as_text() is Some,
            r matches Some(s) ==> tree(*self).as_text() == Some(s@),
    {
        match self {
            Json::Text(s) => Some(s.as_str()),
            _ => None,
        }
    }

    /// The double that a number reads as.
    pub fn as_double(&self) -> (r: Option<u64>)
        ensures
            r == tree(*self).as_double(),
    {
        match self {
            Json::Number { value, .. } => Some(*value),
            _ => None,
        }
    }

    /// The integer that a number is.
    pub fn as_integer(&self) -> (r: Option<i64>)
        ensures
            r == tree(*self).as_integer(),
    {
        match self {
            Json::Number { integer, .. } => *integer,
            _ => None,
        }
    }

    pub fn as_bool(&self) -> (r: Option<bool>)
        ensures
            r == tree(*self).as_bool(),
    {
        match self {
            Json::Bool(b) => Some(*b),
            _ => None,
        }
    }

    /// The elements of a list.
    pub fn as_array(&self) -> (r: Option<&Vec<Json>>)
        ensures
            r is Some <==> tree(*self).as_list() is Some,
            r matches Some(l) ==> tree(*self).as_list() == Some(trees(l@, l@.len())),
            r matches Some(l) ==> decreases_to!(*self => l@),
    {
        match self {
            Json::List(l) => Some(l),
            _ => None,
        }
    }

    /// A copy of the document.
    pub fn copy(&self) -> (r: Json)
        ensures
            tree(r) == tree(*self),
        decreases *self,
    {
        match self {
            Json::Null => Json::Null,
            Json::Bool(b) => Json::Bool(*b),
            Json::Number { value, integer } => Json::Number { value: *value, integer: *integer },
            Json::Text(s) => Json::Text(s.clone()),
            Json::List(l) => {
                let mut out: Vec<Json> = Vec::new();
                let mut i: usize = 0;
                while i < l.len()
                    invariant
                        i <= l@.len(),
                        *self matches Json::List(g) && g == *l,
                        out@.len() == i,
                        forall|k: int| 0 <= k < i ==> tree(#[trigger] out@[k]) == tree(l@[k]),
                    decreases l.len() - i,
                {
                    proof {
                        assert(decreases_to!(*self => self->List_0));
                        assert(decreases_to!(l@ => l@[i as int]));
                    }
                    out.push(l[i].copy());
                    i += 1;
                }
                proof {
                    lemma_trees(out@, out@.len());
                    lemma_trees(l@, l@.len());
                    assert(trees(out@, out@.len()) =~= trees(l@, l@.len()));
                }
                Json::List(out)
            },
            Json::Object(o) => {
                let mut out: Vec<(String, Json)> = Vec::new();
                let mut i: usize = 0;
                while i < o.len()
                    invariant
                        i <= o@.len(),
                        *self matches Json::Object(g) && g == *o,
                        out@.len() == i,
                        forall|k: int| 0 <= k < i ==> (#[trigger] out@[k]).0@ == o@[k].0@ && tree(out@[k].1) == tree(o@[k].1),
                    decreases o.len() - i,
                {
                    proof {
                        assert(decreases_to!(*self => self->Object_0));
                        assert(decreases_to!(o@ => o@[i as int]));
                        assert(decreases_to!(o@[i as int] => o@[i as int].1));
                    }
                    let name: String = o[i].0.clone();
                    let value: Json = o[i].1.copy();
                    out.push((name, value));
                    i += 1;
                }
                proof {
                    lemma_fields(out@, out@.len());
                    lemma_fields(o@, o@.len());
                    assert(fields(out@, out@.len()) =~= fields(o@, o@.len()));
                }
                Json::Object(out)
            },
        }
    }

    /// Whether two documents are the same.
    pub fn same(&self, o: &Json) -> (r: bool)
        ensures
            r == (tree(*self) == tree(*o)),
        decreases *self,
    {
        match (self, o) {
            (Json::Null, Json::Null) => true,
            (Json::Bool(a), Json::Bool(b)) => *a == *b,
            (Json::Number { value, integer }, Json::Number { value: v, integer: i }) => *value == *v && match (integer, i) {
                (Some(a), Some(b)) => *a == *b,
                (None, None) => true,
                _ => false,
            },
            (Json::Text(a), Json::Text(b)) => same_text(a.as_str(), b.as_str()),
            (Json::List(a), Json::List(b)) => {
                let ghost (s, t) = (trees(a@, a@.len()), trees(b@, b@.len()));
                proof {
                    lemma_trees(a@, a@.len());
                    lemma_trees(b@, b@.len());
                }
                if a.len() != b.len() {
                    return false;
                }
                let mut k: usize = 0;
                while k < a.len()
                    invariant
                        k <= a@.len(),
                        a@.len() == b@.len(),
                        *self matches Json::List(g) && g == *a,
                        s == trees(a@, a@.len()) && t == trees(b@, b@.len()),
                        tree(*self) == Tree::List(s) && tree(*o) == Tree::List(t),
                        s.len() == a@.len() && t.len() == b@.len(),
                        forall|i: int| 0 <= i < s.len() ==> #[trigger] s[i] == tree(a@[i]),
                        forall|i: int| 0 <= i < t.len() ==> #[trigger] t[i] == tree(b@[i]),
                        forall|i: int| 0 <= i < k ==> #[trigger] s[i] == t[i],
                    decreases a.len() - k,
                {
                    proof {
                        assert(decreases_to!(*self => self->List_0));
                        assert(decreases_to!(a@ => a@[k as int]));
                        assert(s[k as int] == tree(a@[k as int]) && t[k as int] == tree(b@[k as int]));
                    }
                    if !a[k].same(&b[k]) {
                        return false;
                    }
                    k += 1;
                }
                proof { assert(s =~= t); }
                true
            },
            (Json::Object(a), Json::Object(b)) => {
                let ghost (s, t) = (fields(a@, a@.len()), fields(b@, b@.len()));
                proof {
                    lemma_fields(a@, a@.len());
                    lemma_fields(b@, b@.len());
                }
                if a.len() != b.len() {
                    return false;
                }
                let mut k: usize = 0;
                while k < a.len()
                    invariant
                        k <= a@.len(),
                        a@.len() == b@.len(),
                        *self matches Json::Object(g) && g == *a,
                        s == fields(a@, a@.len()) && t == fields(b@, b@.len()),
                        tree(*self) == Tree::Object(s) && tree(*o) == Tree::Object(t),
                        s.len() == a@.len() && t.len() == b@.len(),
                        forall|i: int| 0 <= i < s.len() ==> (#[trigger] s[i]).0 == a@[i].0@ && s[i].1 == tree(a@[i].1),
                        forall|i: int| 0 <= i < t.len() ==> (#[trigger] t[i]).0 == b@[i].0@ && t[i].1 == tree(b@[i].1),
                        forall|i: int| 0 <= i < k ==> #[trigger] s[i] == t[i],
                    decreases a.len() - k,
                {
                    proof {
                        assert(decreases_to!(*self => self->Object_0));
                        assert(decreases_to!(a@ => a@[k as int]));
                        assert(decreases_to!(a@[k as int] => a@[k as int].1));
                        assert(s[k as int].0 == a@[k as int].0@ && t[k as int].0 == b@[k as int].0@);
                    }
                    if !same_text(a[k].0.as_str(), b[k].0.as_str()) || !a[k].1.same(&b[k].1) {
                        return false;
                    }
                    proof { assert(s[k as int] == t[k as int]); }
                    k += 1;
                }
                proof { assert(s =~= t); }
                true
            },
            _ => false,
        }
    }
}

} // verus!
