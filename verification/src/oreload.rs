//! Reading a world's ores from its documents.

use vstd::prelude::*;
use crate::arith::{answers, low, Ask};
use crate::biome26::biome_place;
use crate::carvers26::{is_between, is_slope};
use crate::carverload::{anchor_in, anchored, anchors, block_name, block_of, first_place, get_short, get_short_or, kind_in, lemma_first_place, read_anchor, read_kind, short_in, short_or};
use crate::df26::{wrap, wrapped};
use crate::json::{fields, field_from, lemma_fields, lemma_trees, tree, trees, Json, LoadError, Tree};
use crate::load::{double_in, full_name, list_in, text_in, Reading};
use crate::loader::{full_id, get_double, get_text, lemma_field_bounds, names_of, texts, Loader};
use crate::ores26::{max_radius, placeable, radius_of, HeightProvider, IntProvider, Modifier, OreFeature, OreStage, PlacedOre, RuleTest, Target, NO_BLOCK, WRITTEN_BASE};
use crate::text::{position_of, same_text};

verus! {

/// A test as a value.
pub ghost enum Rule {
    AlwaysTrue,
    Tag(Seq<bool>),
    Block(u16),
    Height { min: i32, max: i32 },
    Not(Box<Rule>),
    AllOf(Seq<Rule>),
    AnyOf(Seq<Rule>),
}

pub open spec fn rule_of(r: RuleTest) -> Rule
    decreases r,
{
    match r {
        RuleTest::AlwaysTrue => Rule::AlwaysTrue,
        RuleTest::Tag(m) => Rule::Tag(m@),
        RuleTest::Block(b) => Rule::Block(b),
        RuleTest::Height { min, max } => Rule::Height { min, max },
        RuleTest::Not(x) => Rule::Not(Box::new(rule_of(*x))),
        RuleTest::AllOf(v) => Rule::AllOf(rules_of(v@, v@.len())),
        RuleTest::AnyOf(v) => Rule::AnyOf(rules_of(v@, v@.len())),
    }
}

/// The first `n` tests.
pub open spec fn rules_of(v: Seq<RuleTest>, n: nat) -> Seq<Rule>
    decreases v, n,
{
    if n == 0 || n > v.len() { Seq::empty() } else { rules_of(v, (n - 1) as nat).push(rule_of(v[n - 1])) }
}

/// The blocks of a world and its tags.
pub ghost struct Blocks {
    pub names: Seq<Seq<char>>,
    pub tags: Seq<(Seq<char>, Seq<bool>)>,
}

/// The index of a block, by its name; the last one of a name counts.
pub open spec fn block_number(names: Seq<Seq<char>>, name: Seq<char>) -> Option<u16> {
    match biome_place(names, name, names.len()) {
        None => None,
        Some(i) => Some((i % 0x1_0000) as u16),
    }
}

/// The members of a tag; the last one of a name counts.
pub open spec fn tag_from(tags: Seq<(Seq<char>, Seq<bool>)>, name: Seq<char>, n: nat) -> Option<Seq<bool>>
    decreases n,
{
    if n == 0 {
        None
    } else if tags[n - 1].0 == name {
        Some(tags[n - 1].1)
    } else {
        tag_from(tags, name, (n - 1) as nat)
    }
}

/// A test that a document describes.
pub open spec fn rule_in(ix: Blocks, t: Tree) -> Result<Rule, LoadError>
    decreases t, 9nat,
{
    match text_in(t, "predicate_type"@) {
        None => Err(LoadError::MissingType),
        Some(s) => {
            let k = full_name(s);
            if k == "minecraft:always_true"@ {
                Ok(Rule::AlwaysTrue)
            } else if k == "minecraft:tag_match"@ {
                match text_in(t, "tag"@) {
                    None => Err(LoadError::NotText),
                    Some(tag) => match tag_from(ix.tags, full_name(tag), ix.tags.len()) {
                        None => Err(LoadError::NotProvided),
                        Some(m) => Ok(Rule::Tag(m)),
                    },
                }
            } else if k == "minecraft:block_match"@ {
                match text_in(t, "block"@) {
                    None => Err(LoadError::NotText),
                    Some(b) => match block_number(ix.names, full_name(b)) {
                        None => Err(LoadError::NotProvided),
                        Some(i) => Ok(Rule::Block(i)),
                    },
                }
            } else if k == "minecraft:height_match"@ {
                match (short_in(t, "min_inclusive"@), short_in(t, "max_inclusive"@)) {
                    (Some(min), Some(max)) => Ok(Rule::Height { min, max }),
                    _ => Err(LoadError::NotInteger),
                }
            } else if k == "minecraft:not"@ {
                match t {
                    Tree::Object(fs) => match rule_field(ix, fs) {
                        Err(e) => Err(e),
                        Ok(r) => Ok(Rule::Not(Box::new(r))),
                    },
                    _ => Err(LoadError::MissingField),
                }
            } else if k == "minecraft:all_of"@ || k == "minecraft:any_of"@ {
                match t {
                    Tree::Object(fs) => match rules_field(ix, fs) {
                        Err(e) => Err(e),
                        Ok(l) => Ok(if k == "minecraft:all_of"@ { Rule::AllOf(l) } else { Rule::AnyOf(l) }),
                    },
                    _ => Err(LoadError::NotList),
                }
            } else {
                Err(LoadError::Unsupported)
            }
        },
    }
}

/// The test of a field.
pub open spec fn rule_field(ix: Blocks, fs: Seq<(Seq<char>, Tree)>) -> Result<Rule, LoadError>
    decreases fs, 0nat,
{
    match field_from(fs, "rule"@, 0) {
        None => Err(LoadError::MissingField),
        Some(k) => if 0 <= k < fs.len() { rule_in(ix, fs[k].1) } else { Err(LoadError::MissingField) },
    }
}

/// The tests of a field.
pub open spec fn rules_field(ix: Blocks, fs: Seq<(Seq<char>, Tree)>) -> Result<Seq<Rule>, LoadError>
    decreases fs, 0nat,
{
    match field_from(fs, "rules"@, 0) {
        None => Err(LoadError::NotList),
        Some(k) => if 0 <= k < fs.len() { rules_listed(ix, fs[k].1) } else { Err(LoadError::NotList) },
    }
}

pub open spec fn rules_listed(ix: Blocks, t: Tree) -> Result<Seq<Rule>, LoadError>
    decreases t, 1nat,
{
    match t {
        Tree::List(l) => rules_in(ix, l, l.len()),
        _ => Err(LoadError::NotList),
    }
}

/// The first `n` tests of a list.
pub open spec fn rules_in(ix: Blocks, l: Seq<Tree>, n: nat) -> Result<Seq<Rule>, LoadError>
    decreases l, n,
{
    if n == 0 || n > l.len() {
        Ok(Seq::empty())
    } else {
        match rules_in(ix, l, (n - 1) as nat) {
            Err(e) => Err(e),
            Ok(before) => match rule_in(ix, l[n - 1]) {
                Err(e) => Err(e),
                Ok(r) => Ok(before.push(r)),
            },
        }
    }
}

/// A failure among the first tests fails the list.
proof fn lemma_rules_fail(ix: Blocks, l: Seq<Tree>, m: nat, n: nat)
    requires
        m <= n <= l.len(),
        rules_in(ix, l, m) is Err,
    ensures
        rules_in(ix, l, n) == rules_in(ix, l, m),
    decreases n,
{
    if m < n {
        lemma_rules_fail(ix, l, m, (n - 1) as nat);
    }
}

/// The nested tests of a document.
proof fn lemma_rule_fields(ix: Blocks, t: Tree)
    requires
        text_in(t, "predicate_type"@) is Some,
    ensures
        t is Object,
        t.get("rule"@) matches Some(x) ==> rule_field(ix, t->Object_0) == rule_in(ix, x),
        t.get("rule"@) is None ==> rule_field(ix, t->Object_0) == Err::<Rule, LoadError>(LoadError::MissingField),
        t.get("rules"@) matches Some(x) ==> rules_field(ix, t->Object_0) == (match x {
            Tree::List(l) => rules_in(ix, l, l.len()),
            _ => Err(LoadError::NotList),
        }),
        t.get("rules"@) is None ==> rules_field(ix, t->Object_0) == Err::<Seq<Rule>, LoadError>(LoadError::NotList),
{
    let fs = t->Object_0;
    lemma_field_bounds(fs, "rule"@, 0);
    lemma_field_bounds(fs, "rules"@, 0);
    if let Some(x) = t.get("rules"@) {
        assert(rules_field(ix, fs) == rules_listed(ix, x));
    }
}

/// The blocks of a world and its tags.
struct BlockIndex {
    names: Vec<String>,
    tags: Vec<(String, Vec<bool>)>,
}

/// Tags as values.
pub open spec fn tag_values(v: Seq<(String, Vec<bool>)>) -> Seq<(Seq<char>, Seq<bool>)> {
    v.map_values(|p: (String, Vec<bool>)| (p.0@, p.1@))
}

impl View for BlockIndex {
    type V = Blocks;

    closed spec fn view(&self) -> Blocks {
        Blocks { names: texts(self.names@), tags: tag_values(self.tags@) }
    }
}

/// The last place of a name.
fn last_place(names: &Vec<String>, name: &str) -> (r: Option<usize>)
    ensures
        match r {
            None => biome_place(texts(names@), name@, names@.len()) is None,
            Some(i) => biome_place(texts(names@), name@, names@.len()) == Some(i as int) && i < names@.len(),
        },
{
    let mut n: usize = names.len();
    while n > 0
        invariant
            n <= names@.len(),
            biome_place(texts(names@), name@, names@.len()) == biome_place(texts(names@), name@, n as nat),
        decreases n,
    {
        proof { assert(texts(names@)[n - 1] == names@[n - 1]@); }
        if same_text(names[n - 1].as_str(), name) {
            return Some(n - 1);
        }
        n -= 1;
    }
    None
}

/// A copy of some flags.
fn copy_flags(v: &Vec<bool>) -> (r: Vec<bool>)
    ensures
        r@ == v@,
{
    let mut r: Vec<bool> = Vec::new();
    while r.len() < v.len()
        invariant
            r@.len() <= v@.len(),
            forall|i: int| 0 <= i < r@.len() ==> #[trigger] r@[i] == v@[i],
        decreases v.len() - r.len(),
    {
        let b: bool = v[r.len()];
        r.push(b);
    }
    proof { assert(r@ =~= v@); }
    r
}

impl BlockIndex {
    fn number(&self, name: &str) -> (r: Option<u16>)
        ensures
            r == block_number(self@.names, name@),
    {
        match last_place(&self.names, name) {
            None => None,
            Some(i) => Some((i % 0x1_0000) as u16),
        }
    }

    fn tag(&self, name: &str) -> (r: Option<Vec<bool>>)
        ensures
            match r {
                None => tag_from(self@.tags, name@, self@.tags.len()) is None,
                Some(v) => tag_from(self@.tags, name@, self@.tags.len()) == Some(v@),
            },
    {
        let mut n: usize = self.tags.len();
        while n > 0
            invariant
                n <= self.tags@.len(),
                tag_from(self@.tags, name@, self@.tags.len()) == tag_from(self@.tags, name@, n as nat),
            decreases n,
        {
            proof { assert(self@.tags[n - 1] == (self.tags@[n - 1].0@, self.tags@[n - 1].1@)); }
            if same_text(self.tags[n - 1].0.as_str(), name) {
                return Some(copy_flags(&self.tags[n - 1].1));
            }
            n -= 1;
        }
        None
    }

    /// Read a test.
    fn load_rule(&self, t: &Json) -> (r: Result<RuleTest, LoadError>)
        ensures
            match r {
                Ok(x) => rule_in(self@, tree(*t)) == Ok::<Rule, LoadError>(rule_of(x)),
                Err(e) => rule_in(self@, tree(*t)) == Err::<Rule, LoadError>(e),
            },
        decreases *t, 1nat,
    {
        let kind = match get_text(t, "predicate_type") {
            None => return Err(LoadError::MissingType),
            Some(k) => full_id(k),
        };
        let k: &str = kind.as_str();
        if same_text(k, "minecraft:always_true") {
            Ok(RuleTest::AlwaysTrue)
        } else if same_text(k, "minecraft:tag_match") {
            let tag = match get_text(t, "tag") {
                None => return Err(LoadError::NotText),
                Some(s) => full_id(s),
            };
            match self.tag(tag.as_str()) {
                None => Err(LoadError::NotProvided),
                Some(m) => Ok(RuleTest::Tag(m)),
            }
        } else if same_text(k, "minecraft:block_match") {
            let block = match get_text(t, "block") {
                None => return Err(LoadError::NotText),
                Some(s) => full_id(s),
            };
            match self.number(block.as_str()) {
                None => Err(LoadError::NotProvided),
                Some(i) => Ok(RuleTest::Block(i)),
            }
        } else if same_text(k, "minecraft:height_match") {
            match (get_short(t, "min_inclusive"), get_short(t, "max_inclusive")) {
                (Some(min), Some(max)) => Ok(RuleTest::Height { min, max }),
                _ => Err(LoadError::NotInteger),
            }
        } else if same_text(k, "minecraft:not") {
            proof { lemma_rule_fields(self@, tree(*t)); }
            match t.get("rule") {
                None => Err(LoadError::MissingField),
                Some(x) => match self.load_rule(x) {
                    Err(e) => Err(e),
                    Ok(r) => Ok(RuleTest::Not(Box::new(r))),
                },
            }
        } else if same_text(k, "minecraft:all_of") || same_text(k, "minecraft:any_of") {
            proof { lemma_rule_fields(self@, tree(*t)); }
            let l = match t.get("rules") {
                None => return Err(LoadError::NotList),
                Some(x) => match x.as_array() {
                    None => return Err(LoadError::NotList),
                    Some(l) => l,
                },
            };
            match self.load_rules(l) {
                Err(e) => Err(e),
                Ok(v) => if same_text(k, "minecraft:all_of") {
                    Ok(RuleTest::AllOf(v))
                } else {
                    Ok(RuleTest::AnyOf(v))
                },
            }
        } else {
            Err(LoadError::Unsupported)
        }
    }

    fn load_rules(&self, l: &Vec<Json>) -> (r: Result<Vec<RuleTest>, LoadError>)
        ensures
            match r {
                Ok(v) => rules_in(self@, trees(l@, l@.len()), l@.len()) == Ok::<Seq<Rule>, LoadError>(rules_of(v@, v@.len())),
                Err(e) => rules_in(self@, trees(l@, l@.len()), l@.len()) == Err::<Seq<Rule>, LoadError>(e),
            },
            trees(l@, l@.len()).len() == l@.len(),
        decreases l@, 0nat,
    {
        let ghost ts = trees(l@, l@.len());
        proof { lemma_trees(l@, l@.len()); }
        let mut v: Vec<RuleTest> = Vec::new();
        let mut i: usize = 0;
        while i < l.len()
            invariant
                i <= l@.len(),
                ts == trees(l@, l@.len()),
                ts.len() == l@.len(),
                forall|k: int| 0 <= k < l@.len() ==> #[trigger] ts[k] == tree(l@[k]),
                v@.len() == i,
                rules_in(self@, ts, i as nat) == Ok::<Seq<Rule>, LoadError>(rules_of(v@, v@.len())),
            decreases l.len() - i,
        {
            proof {
                assert(ts[i as int] == tree(l@[i as int]));
                assert(decreases_to!(l@ => l@[i as int]));
            }
            let ghost before = v@;
            match self.load_rule(&l[i]) {
                Err(e) => {
                    proof { lemma_rules_fail(self@, ts, (i + 1) as nat, ts.len()); }
                    return Err(e);
                },
                Ok(x) => {
                    v.push(x);
                    proof {
                        lemma_rules_prefix(v@, before, i as nat);
                    }
                },
            }
            i += 1;
        }
        Ok(v)
    }
}

/// The first tests stay the same where more follow.
proof fn lemma_rules_prefix(v: Seq<RuleTest>, w: Seq<RuleTest>, n: nat)
    requires
        n <= w.len() <= v.len(),
        forall|i: int| 0 <= i < n ==> #[trigger] v[i] == w[i],
    ensures
        rules_of(v, n) == rules_of(w, n),
    decreases n,
{
    if n > 0 {
        lemma_rules_prefix(v, w, (n - 1) as nat);
    }
}

/// An ore as a value.
pub ghost struct Ore {
    pub targets: Seq<(Rule, u16)>,
    pub size: i32,
    pub discard_chance: u32,
}

pub open spec fn targets_of(v: Seq<Target>) -> Seq<(Rule, u16)> {
    v.map_values(|t: Target| (rule_of(t.rule), t.state))
}

pub open spec fn ore_of(o: OreFeature) -> Ore {
    Ore { targets: targets_of(o.targets@), size: o.size, discard_chance: o.discard_chance }
}

/// What a block state is told to be spelled like.
pub open spec fn is_spelled<C: Fn(&Json) -> Option<String>>(c: C, t: Tree, s: Option<Seq<char>>) -> bool {
    exists|j: Json, r: Option<String>| tree(j) == t && #[trigger] call_ensures(c, (&j,), r) && spelled(r) == s
}

pub open spec fn spelled(r: Option<String>) -> Option<Seq<char>> {
    match r {
        None => None,
        Some(s) => Some(s@),
    }
}

/// The one spelling of a block state, if it is one.
pub open spec fn canonical<C: Fn(&Json) -> Option<String>>(c: C, t: Tree) -> Option<Seq<char>> {
    choose|s: Option<Seq<char>>| is_spelled(c, t, s)
}

/// Every block state has one spelling, always the same.
pub open spec fn spells<C: Fn(&Json) -> Option<String>>(c: C) -> bool {
    &&& forall|j: Json| #[trigger] call_requires(c, (&j,))
    &&& forall|j: Json, r: Option<String>| #[trigger] call_ensures(c, (&j,), r) ==> spelled(r) == canonical(c, tree(j))
}

/// The palette id of a block state: the one it has, or a new one at the
/// end.
pub open spec fn interned<C: Fn(&Json) -> Option<String>>(c: C, p: Seq<Seq<char>>, t: Tree) -> (Result<u16, LoadError>, Seq<Seq<char>>) {
    match canonical(c, t) {
        None => (Err(LoadError::Unexpected), p),
        Some(s) => match first_place(p, s, p.len()) {
            Some(i) => if i <= 0xffff { (Ok(i as u16), p) } else { (Err(LoadError::OutOfRange), p) },
            None => if p.len() <= 0xffff { (Ok(p.len() as u16), p.push(s)) } else { (Err(LoadError::OutOfRange), p) },
        },
    }
}

fn intern<C: Fn(&Json) -> Option<String>>(c: &C, palette: &mut Vec<String>, t: &Json) -> (r: Result<u16, LoadError>)
    requires
        spells(*c),
    ensures
        (r, texts(final(palette)@)) == interned(*c, texts(old(palette)@), tree(*t)),
{
    let name = match c(t) {
        None => return Err(LoadError::Unexpected),
        Some(s) => s,
    };
    proof { lemma_first_place(palette@, name@, palette@.len()); }
    match position_of(palette, name.as_str()) {
        Some(i) => if i <= 0xffff { Ok(i as u16) } else { Err(LoadError::OutOfRange) },
        None => {
            let n: usize = palette.len();
            if n <= 0xffff {
                let ghost before = palette@;
                palette.push(name);
                proof { assert(texts(palette@) =~= texts(before).push(name@)); }
                Ok(n as u16)
            } else {
                Err(LoadError::OutOfRange)
            }
        },
    }
}

/// The targets of an ore from the `i`-th on, after some, and the palette.
pub open spec fn targets_from<C: Fn(&Json) -> Option<String>>(
    c: C, ix: Blocks, p: Seq<Seq<char>>, l: Seq<Tree>, i: int, acc: Seq<(Rule, u16)>,
) -> (Result<Seq<(Rule, u16)>, LoadError>, Seq<Seq<char>>)
    decreases l.len() - i,
{
    if i < 0 || i >= l.len() {
        (Ok(acc), p)
    } else {
        match l[i].get("target"@) {
            None => (Err(LoadError::MissingField), p),
            Some(t) => match rule_in(ix, t) {
                Err(e) => (Err(e), p),
                Ok(rule) => match l[i].get("state"@) {
                    None => (Err(LoadError::MissingField), p),
                    Some(s) => match interned(c, p, s) {
                        (Err(e), q) => (Err(e), q),
                        (Ok(state), q) => targets_from(c, ix, q, l, i + 1, acc.push((rule, state))),
                    },
                },
            },
        }
    }
}

/// An ore that a document describes.
pub open spec fn feature_in<F: Fn(Ask) -> u64, C: Fn(&Json) -> Option<String>>(f: F, c: C, ix: Blocks, p: Seq<Seq<char>>, t: Tree) -> (
    Result<Ore, LoadError>,
    Seq<Seq<char>>,
) {
    match short_in(t, "size"@) {
        None => (Err(LoadError::NotInteger), p),
        Some(size) => if size < 0 || size > 64 {
            (Err(LoadError::OutOfRange), p)
        } else {
            let chance = match double_in(t, "discard_chance_on_air_exposure"@) {
                None => 0u64,
                Some(d) => d,
            };
            match list_in(t, "targets"@) {
                None => (Err(LoadError::NotList), p),
                Some(l) => match targets_from(c, ix, p, l, 0, Seq::empty()) {
                    (Err(e), q) => (Err(e), q),
                    (Ok(targets), q) => (Ok(Ore { targets, size, discard_chance: low(f, Ask::Narrow(chance)) }), q),
                },
            }
        },
    }
}

impl BlockIndex {
    fn load_feature<F: Fn(Ask) -> u64, C: Fn(&Json) -> Option<String>>(&self, palette: &mut Vec<String>, t: &Json, c: &C, f: &F) -> (r: Result<
        OreFeature,
        LoadError,
    >)
        requires
            answers(*f),
            spells(*c),
        ensures
            ({
                let (x, q) = feature_in(*f, *c, self@, texts(old(palette)@), tree(*t));
                &&& q == texts(final(palette)@)
                &&& match r {
                    Ok(o) => x == Ok::<Ore, LoadError>(ore_of(o)),
                    Err(e) => x == Err::<Ore, LoadError>(e),
                }
            }),
            r matches Ok(o) ==> 0 <= o.size <= 64,
    {
        let size: i32 = match get_short(t, "size") {
            None => return Err(LoadError::NotInteger),
            Some(n) => n,
        };
        if size < 0 || size > 64 {
            return Err(LoadError::OutOfRange);
        }
        let chance: u64 = match get_double(t, "discard_chance_on_air_exposure") {
            None => 0,
            Some(d) => d,
        };
        let l = match t.get("targets") {
            None => return Err(LoadError::NotList),
            Some(v) => match v.as_array() {
                None => return Err(LoadError::NotList),
                Some(l) => l,
            },
        };
        let discard_chance: u32 = f(Ask::Narrow(chance)) as u32;
        let ghost ts = trees(l@, l@.len());
        let ghost p = texts(palette@);
        proof { lemma_trees(l@, l@.len()); }
        let mut targets: Vec<Target> = Vec::new();
        let mut i: usize = 0;
        proof { assert(targets_of(targets@) =~= Seq::empty()); }
        while i < l.len()
            invariant
                i <= l@.len(),
                spells(*c),
                ts.len() == l@.len(),
                forall|k: int| 0 <= k < l@.len() ==> #[trigger] ts[k] == tree(l@[k]),
                targets_from(*c, self@, p, ts, 0, Seq::empty()) == targets_from(
                    *c, self@, texts(palette@), ts, i as int, targets_of(targets@)),
                short_in(tree(*t), "size"@) == Some(size),
                0 <= size <= 64,
                list_in(tree(*t), "targets"@) == Some(ts),
                p == texts(old(palette)@),
            decreases l.len() - i,
        {
            proof { assert(ts[i as int] == tree(l@[i as int])); }
            let ghost before = targets@;
            let rule = match l[i].get("target") {
                None => return Err(LoadError::MissingField),
                Some(x) => match self.load_rule(x) {
                    Err(e) => return Err(e),
                    Ok(r) => r,
                },
            };
            let state: u16 = match l[i].get("state") {
                None => return Err(LoadError::MissingField),
                Some(x) => match intern(c, palette, x) {
                    Err(e) => return Err(e),
                    Ok(n) => n,
                },
            };
            targets.push(Target { rule, state });
            proof { assert(targets_of(targets@) =~= targets_of(before).push((rule_of(rule), state))); }
            i += 1;
        }
        Ok(OreFeature { targets, size, discard_chance })
    }
}

/// A provider of integers: a number, or one by its type.
pub open spec fn count_in(t: Tree) -> Result<IntProvider, LoadError> {
    match t.as_integer() {
        Some(n) => Ok(IntProvider::Constant(wrapped(n as int))),
        None => match kind_in(t) {
            None => Err(LoadError::MissingType),
            Some(k) => if k == "minecraft:constant"@ {
                match short_in(t, "value"@) {
                    Some(v) => Ok(IntProvider::Constant(v)),
                    None => Err(LoadError::NotInteger),
                }
            } else if k == "minecraft:uniform"@ {
                match (short_in(t, "min_inclusive"@), short_in(t, "max_inclusive"@)) {
                    (Some(min), Some(max)) => Ok(IntProvider::Uniform { min, max }),
                    _ => Err(LoadError::NotInteger),
                }
            } else {
                Err(LoadError::Unsupported)
            },
        },
    }
}

fn load_int_provider(t: &Json) -> (r: Result<IntProvider, LoadError>)
    ensures
        r == count_in(tree(*t)),
{
    if let Some(n) = t.as_integer() {
        return Ok(IntProvider::Constant(wrap(n as i128)));
    }
    let kind = match read_kind(t) {
        None => return Err(LoadError::MissingType),
        Some(k) => k,
    };
    if same_text(kind.as_str(), "minecraft:constant") {
        match get_short(t, "value") {
            Some(v) => Ok(IntProvider::Constant(v)),
            None => Err(LoadError::NotInteger),
        }
    } else if same_text(kind.as_str(), "minecraft:uniform") {
        match (get_short(t, "min_inclusive"), get_short(t, "max_inclusive")) {
            (Some(min), Some(max)) => Ok(IntProvider::Uniform { min, max }),
            _ => Err(LoadError::NotInteger),
        }
    } else {
        Err(LoadError::Unsupported)
    }
}

/// A provider of heights: an anchor, or one by its type.
pub open spec fn heights_in<A: Fn(&Json) -> Option<i32>>(a: A, t: Tree) -> Result<HeightProvider, LoadError> {
    match kind_in(t) {
        None => match anchored(a, t) {
            None => Err(LoadError::NotAnchor),
            Some(y) => Ok(HeightProvider::Constant(y)),
        },
        Some(k) => if k == "minecraft:constant"@ {
            match anchor_in(a, t, "value"@) {
                Err(e) => Err(e),
                Ok(y) => Ok(HeightProvider::Constant(y)),
            }
        } else if k == "minecraft:uniform"@ || k == "minecraft:trapezoid"@ {
            match anchor_in(a, t, "min_inclusive"@) {
                Err(e) => Err(e),
                Ok(min) => match anchor_in(a, t, "max_inclusive"@) {
                    Err(e) => Err(e),
                    Ok(max) => if k == "minecraft:uniform"@ {
                        Ok(HeightProvider::Uniform { min, max })
                    } else {
                        Ok(HeightProvider::Trapezoid { min, max, plateau: short_or(t, "plateau"@, 0) })
                    },
                },
            }
        } else {
            Err(LoadError::Unsupported)
        },
    }
}

fn load_height_provider<A: Fn(&Json) -> Option<i32>>(a: &A, t: &Json) -> (r: Result<HeightProvider, LoadError>)
    requires
        anchors(*a),
    ensures
        r == heights_in(*a, tree(*t)),
{
    let kind = match read_kind(t) {
        None => return match a(t) {
            None => Err(LoadError::NotAnchor),
            Some(y) => Ok(HeightProvider::Constant(y)),
        },
        Some(k) => k,
    };
    let k: &str = kind.as_str();
    if same_text(k, "minecraft:constant") {
        return match read_anchor(a, t, "value") {
            Err(e) => Err(e),
            Ok(y) => Ok(HeightProvider::Constant(y)),
        };
    }
    let uniform: bool = same_text(k, "minecraft:uniform");
    if !uniform && !same_text(k, "minecraft:trapezoid") {
        return Err(LoadError::Unsupported);
    }
    let min: i32 = match read_anchor(a, t, "min_inclusive") {
        Err(e) => return Err(e),
        Ok(y) => y,
    };
    let max: i32 = match read_anchor(a, t, "max_inclusive") {
        Err(e) => return Err(e),
        Ok(y) => y,
    };
    if uniform {
        Ok(HeightProvider::Uniform { min, max })
    } else {
        Ok(HeightProvider::Trapezoid { min, max, plateau: get_short_or(t, "plateau", 0) })
    }
}

/// A step of a placement.
pub open spec fn modifier_in<A: Fn(&Json) -> Option<i32>>(a: A, t: Tree) -> Result<Modifier, LoadError> {
    match kind_in(t) {
        None => Err(LoadError::MissingType),
        Some(k) => if k == "minecraft:count"@ {
            match t.get("count"@) {
                None => Err(LoadError::MissingField),
                Some(v) => match count_in(v) {
                    Err(e) => Err(e),
                    Ok(n) => Ok(Modifier::Count(n)),
                },
            }
        } else if k == "minecraft:in_square"@ {
            Ok(Modifier::InSquare)
        } else if k == "minecraft:height_range"@ {
            match t.get("height"@) {
                None => Err(LoadError::MissingField),
                Some(v) => match heights_in(a, v) {
                    Err(e) => Err(e),
                    Ok(h) => Ok(Modifier::HeightRange(h)),
                },
            }
        } else if k == "minecraft:biome"@ {
            Ok(Modifier::Biome)
        } else if k == "minecraft:rarity_filter"@ {
            match short_in(t, "chance"@) {
                None => Err(LoadError::NotInteger),
                Some(n) => Ok(Modifier::Rarity(n)),
            }
        } else {
            Err(LoadError::Unsupported)
        },
    }
}

fn load_modifier<A: Fn(&Json) -> Option<i32>>(a: &A, t: &Json) -> (r: Result<Modifier, LoadError>)
    requires
        anchors(*a),
    ensures
        r == modifier_in(*a, tree(*t)),
{
    let kind = match read_kind(t) {
        None => return Err(LoadError::MissingType),
        Some(k) => k,
    };
    let k: &str = kind.as_str();
    if same_text(k, "minecraft:count") {
        match t.get("count") {
            None => Err(LoadError::MissingField),
            Some(v) => match load_int_provider(v) {
                Err(e) => Err(e),
                Ok(n) => Ok(Modifier::Count(n)),
            },
        }
    } else if same_text(k, "minecraft:in_square") {
        Ok(Modifier::InSquare)
    } else if same_text(k, "minecraft:height_range") {
        match t.get("height") {
            None => Err(LoadError::MissingField),
            Some(v) => match load_height_provider(a, v) {
                Err(e) => Err(e),
                Ok(h) => Ok(Modifier::HeightRange(h)),
            },
        }
    } else if same_text(k, "minecraft:biome") {
        Ok(Modifier::Biome)
    } else if same_text(k, "minecraft:rarity_filter") {
        match get_short(t, "chance") {
            None => Err(LoadError::NotInteger),
            Some(n) => Ok(Modifier::Rarity(n)),
        }
    } else {
        Err(LoadError::Unsupported)
    }
}

/// The steps of a placement from the `i`-th on, after some.
pub open spec fn steps_from<A: Fn(&Json) -> Option<i32>>(a: A, l: Seq<Tree>, i: int, acc: Seq<Modifier>) -> Result<Seq<Modifier>, LoadError>
    decreases l.len() - i,
{
    if i < 0 || i >= l.len() {
        Ok(acc)
    } else {
        match modifier_in(a, l[i]) {
            Err(e) => Err(e),
            Ok(m) => steps_from(a, l, i + 1, acc.push(m)),
        }
    }
}

pub open spec fn placement_in<A: Fn(&Json) -> Option<i32>>(a: A, t: Tree) -> Result<Seq<Modifier>, LoadError> {
    match list_in(t, "placement"@) {
        None => Err(LoadError::NotList),
        Some(l) => steps_from(a, l, 0, Seq::empty()),
    }
}

fn load_placement<A: Fn(&Json) -> Option<i32>>(a: &A, t: &Json) -> (r: Result<Vec<Modifier>, LoadError>)
    requires
        anchors(*a),
    ensures
        match r {
            Ok(v) => placement_in(*a, tree(*t)) == Ok::<Seq<Modifier>, LoadError>(v@),
            Err(e) => placement_in(*a, tree(*t)) == Err::<Seq<Modifier>, LoadError>(e),
        },
{
    let l = match t.get("placement") {
        None => return Err(LoadError::NotList),
        Some(v) => match v.as_array() {
            None => return Err(LoadError::NotList),
            Some(l) => l,
        },
    };
    let ghost ts = trees(l@, l@.len());
    proof { lemma_trees(l@, l@.len()); }
    let mut out: Vec<Modifier> = Vec::new();
    let mut i: usize = 0;
    while i < l.len()
        invariant
            i <= l@.len(),
            anchors(*a),
            ts.len() == l@.len(),
            forall|k: int| 0 <= k < l@.len() ==> #[trigger] ts[k] == tree(l@[k]),
            list_in(tree(*t), "placement"@) == Some(ts),
            steps_from(*a, ts, 0, Seq::empty()) == steps_from(*a, ts, i as int, out@),
        decreases l.len() - i,
    {
        proof { assert(ts[i as int] == tree(l@[i as int])); }
        match load_modifier(a, &l[i]) {
            Err(e) => return Err(e),
            Ok(m) => out.push(m),
        }
        i += 1;
    }
    Ok(out)
}

/// The texts of a list; nothing where an element is none.
pub open spec fn all_texts(l: Seq<Tree>) -> Option<Seq<Seq<char>>> {
    if forall|i: int| 0 <= i < l.len() ==> (#[trigger] l[i]).as_text() is Some {
        Some(Seq::new(l.len(), |i: int| l[i].as_text().unwrap()))
    } else {
        None
    }
}

fn read_texts(l: &Vec<Json>) -> (r: Option<Vec<String>>)
    ensures
        match r {
            None => all_texts(trees(l@, l@.len())) is None,
            Some(v) => all_texts(trees(l@, l@.len())) == Some(texts(v@)),
        },
{
    let ghost ts = trees(l@, l@.len());
    proof { lemma_trees(l@, l@.len()); }
    let mut out: Vec<String> = Vec::new();
    let mut i: usize = 0;
    while i < l.len()
        invariant
            i <= l@.len(),
            ts.len() == l@.len(),
            forall|k: int| 0 <= k < l@.len() ==> #[trigger] ts[k] == tree(l@[k]),
            ts == trees(l@, l@.len()),
            out@.len() == i,
            forall|k: int| 0 <= k < i ==> (#[trigger] ts[k]).as_text() == Some(out@[k]@),
        decreases l.len() - i,
    {
        proof { assert(ts[i as int] == tree(l@[i as int])); }
        match &l[i] {
            Json::Text(s) => out.push(s.clone()),
            _ => return None,
        }
        i += 1;
    }
    proof { assert(texts(out@) =~= Seq::new(ts.len(), |k: int| ts[k].as_text().unwrap())); }
    Some(out)
}

/// A number that fits sixteen bits.
pub open spec fn small_in(t: Tree) -> Option<u16> {
    match t.as_integer() {
        None => None,
        Some(n) => if 0 <= n <= 0xffff { Some(n as u16) } else { None },
    }
}

/// The numbers of a list; nothing where an element is none that fits.
pub open spec fn all_small(l: Seq<Tree>) -> Option<Seq<u16>> {
    if forall|i: int| 0 <= i < l.len() ==> small_in(#[trigger] l[i]) is Some {
        Some(Seq::new(l.len(), |i: int| small_in(l[i]).unwrap()))
    } else {
        None
    }
}

fn read_small(l: &Vec<Json>) -> (r: Option<Vec<u16>>)
    ensures
        match r {
            None => all_small(trees(l@, l@.len())) is None,
            Some(v) => all_small(trees(l@, l@.len())) == Some(v@),
        },
{
    let ghost ts = trees(l@, l@.len());
    proof { lemma_trees(l@, l@.len()); }
    let mut out: Vec<u16> = Vec::new();
    let mut i: usize = 0;
    while i < l.len()
        invariant
            i <= l@.len(),
            ts.len() == l@.len(),
            forall|k: int| 0 <= k < l@.len() ==> #[trigger] ts[k] == tree(l@[k]),
            ts == trees(l@, l@.len()),
            out@.len() == i,
            forall|k: int| 0 <= k < i ==> small_in(#[trigger] ts[k]) == Some(out@[k]),
        decreases l.len() - i,
    {
        proof { assert(ts[i as int] == tree(l@[i as int])); }
        match l[i].as_integer() {
            Some(n) if 0 <= n && n <= 0xffff => out.push(n as u16),
            _ => return None,
        }
        i += 1;
    }
    proof { assert(out@ =~= Seq::new(ts.len(), |k: int| small_in(ts[k]).unwrap())); }
    Some(out)
}

/// Every element names a state.
pub open spec fn states_named(l: Seq<Tree>, states: nat) -> bool {
    forall|i: int| 0 <= i < l.len() ==> ((#[trigger] l[i]).as_integer() matches Some(n) && 0 <= n < states)
}

/// Which of the states a list names.
pub open spec fn named_states(l: Seq<Tree>, states: nat, n: int) -> Seq<bool> {
    Seq::new(states, |s: int| exists|i: int| 0 <= i < n && ((#[trigger] l[i]).as_integer() matches Some(x) && x == s))
}

fn read_states(l: &Vec<Json>, states: usize) -> (r: Option<Vec<bool>>)
    ensures
        match r {
            None => !states_named(trees(l@, l@.len()), states as nat),
            Some(v) => states_named(trees(l@, l@.len()), states as nat) && v@ == named_states(
                trees(l@, l@.len()), states as nat, l@.len() as int),
        },
{
    let ghost ts = trees(l@, l@.len());
    proof { lemma_trees(l@, l@.len()); }
    let mut out: Vec<bool> = no_flags(states);
    let mut i: usize = 0;
    proof { assert(out@ =~= named_states(ts, states as nat, 0)); }
    while i < l.len()
        invariant
            i <= l@.len(),
            ts.len() == l@.len(),
            forall|k: int| 0 <= k < l@.len() ==> #[trigger] ts[k] == tree(l@[k]),
            ts == trees(l@, l@.len()),
            out@ == named_states(ts, states as nat, i as int),
            forall|k: int| 0 <= k < i ==> ((#[trigger] ts[k]).as_integer() matches Some(n) && 0 <= n < states),
        decreases l.len() - i,
    {
        proof { assert(ts[i as int] == tree(l@[i as int])); }
        let n: i64 = match l[i].as_integer() {
            None => return None,
            Some(n) => n,
        };
        if n < 0 || n as u64 >= states as u64 {
            return None;
        }
        let ghost before = out@;
        out[n as usize] = true;
        proof {
            assert forall|s: int| 0 <= s < states implies #[trigger] out@[s] == named_states(ts, states as nat, i + 1)[s] by {
                if s == n {
                    assert(ts[i as int].as_integer() == Some(n));
                } else {
                    assert(out@[s] == before[s]);
                    if out@[s] {
                        let k = choose|k: int| 0 <= k < i && ((#[trigger] ts[k]).as_integer() matches Some(x) && x == s);
                        assert(ts[k].as_integer() is Some);
                    } else if named_states(ts, states as nat, i + 1)[s] {
                        let k = choose|k: int| 0 <= k < i + 1 && ((#[trigger] ts[k]).as_integer() matches Some(x) && x == s);
                        assert(k == i || before[s]);
                        assert(s == n);
                    }
                }
            }
            assert(out@ =~= named_states(ts, states as nat, i + 1));
        }
        i += 1;
    }
    Some(out)
}

/// Flags that all say no.
fn no_flags(n: usize) -> (r: Vec<bool>)
    ensures
        r@ == Seq::new(n as nat, |i: int| false),
{
    let mut r: Vec<bool> = Vec::new();
    while r.len() < n
        invariant
            r@.len() <= n,
            forall|i: int| 0 <= i < r@.len() ==> !#[trigger] r@[i],
        decreases n - r.len(),
    {
        r.push(false);
    }
    proof { assert(r@ =~= Seq::new(n as nat, |i: int| false)); }
    r
}

/// The members of a tag among the blocks, from the `i`-th on.
pub open spec fn members_from(names: Seq<Seq<char>>, l: Seq<Tree>, i: int, acc: Seq<bool>) -> Result<Seq<bool>, LoadError>
    decreases l.len() - i,
{
    if i < 0 || i >= l.len() {
        Ok(acc)
    } else {
        match l[i].as_text() {
            None => Err(LoadError::NotText),
            Some(s) => members_from(
                names,
                l,
                i + 1,
                match block_number(names, s) {
                    None => acc,
                    Some(b) => acc.update(b as int, true),
                },
            ),
        }
    }
}

/// The tags of a world from the `i`-th on, after some.
pub open spec fn tags_from(names: Seq<Seq<char>>, fs: Seq<(Seq<char>, Tree)>, i: int, acc: Seq<(Seq<char>, Seq<bool>)>) -> Result<
    Seq<(Seq<char>, Seq<bool>)>,
    LoadError,
>
    decreases fs.len() - i,
{
    if i < 0 || i >= fs.len() {
        Ok(acc)
    } else {
        match fs[i].1.as_list() {
            None => Err(LoadError::NotList),
            Some(l) => match members_from(names, l, 0, Seq::new(names.len(), |b: int| false)) {
                Err(e) => Err(e),
                Ok(m) => tags_from(names, fs, i + 1, acc.push((full_name(fs[i].0), m))),
            },
        }
    }
}

impl BlockIndex {
    fn members(&self, l: &Vec<Json>) -> (r: Result<Vec<bool>, LoadError>)
        ensures
            match r {
                Ok(v) => members_from(
                    self@.names, trees(l@, l@.len()), 0, Seq::new(self@.names.len(), |b: int| false)) == Ok::<Seq<bool>, LoadError>(v@),
                Err(e) => members_from(
                    self@.names, trees(l@, l@.len()), 0, Seq::new(self@.names.len(), |b: int| false)) == Err::<Seq<bool>, LoadError>(e),
            },
    {
        let ghost ts = trees(l@, l@.len());
        proof { lemma_trees(l@, l@.len()); }
        let mut out: Vec<bool> = no_flags(self.names.len());
        let ghost start = out@;
        let mut i: usize = 0;
        while i < l.len()
            invariant
                i <= l@.len(),
                ts.len() == l@.len(),
                forall|k: int| 0 <= k < l@.len() ==> #[trigger] ts[k] == tree(l@[k]),
                out@.len() == self.names@.len(),
                self@.names == texts(self.names@),
                members_from(self@.names, ts, 0, start) == members_from(self@.names, ts, i as int, out@),
                ts == trees(l@, l@.len()),
                start == Seq::new(self@.names.len(), |b: int| false),
            decreases l.len() - i,
        {
            proof { assert(ts[i as int] == tree(l@[i as int])); }
            let s = match l[i].as_str() {
                None => return Err(LoadError::NotText),
                Some(s) => s,
            };
            if let Some(k) = last_place(&self.names, s) {
                let ghost before = out@;
                out[k % 0x1_0000] = true;
                proof { assert(out@ =~= before.update((k % 0x1_0000) as int, true)); }
            }
            i += 1;
        }
        Ok(out)
    }

    /// Add the tags.
    fn load_tags(&mut self, o: &Vec<(String, Json)>) -> (r: Option<LoadError>)
        requires
            old(self)@.tags.len() == 0,
        ensures
            final(self)@.names == old(self)@.names,
            match r {
                None => tags_from(old(self)@.names, fields(o@, o@.len()), 0, Seq::empty()) == Ok::<
                    Seq<(Seq<char>, Seq<bool>)>,
                    LoadError,
                >(final(self)@.tags),
                Some(e) => tags_from(old(self)@.names, fields(o@, o@.len()), 0, Seq::empty()) == Err::<
                    Seq<(Seq<char>, Seq<bool>)>,
                    LoadError,
                >(e),
            },
    {
        let ghost fs = fields(o@, o@.len());
        proof { lemma_fields(o@, o@.len()); }
        let mut i: usize = 0;
        proof { assert(self@.tags =~= Seq::empty()); }
        while i < o.len()
            invariant
                i <= o@.len(),
                fs == fields(o@, o@.len()),
                fs.len() == o@.len(),
                forall|k: int| 0 <= k < fs.len() ==> (#[trigger] fs[k]).0 == o@[k].0@ && fs[k].1 == tree(o@[k].1),
                self.names == old(self).names,
                self@.names == texts(self.names@),
                tags_from(old(self)@.names, fs, 0, Seq::empty()) == tags_from(old(self)@.names, fs, i as int, self@.tags),
            decreases o.len() - i,
        {
            let ghost before = *self;
            proof { assert(fs[i as int].0 == o@[i as int].0@); }
            let l = match o[i].1.as_array() {
                None => return Some(LoadError::NotList),
                Some(l) => l,
            };
            let m = match self.members(l) {
                Err(e) => return Some(e),
                Ok(m) => m,
            };
            let name: String = full_id(o[i].0.as_str());
            self.tags.push((name, m));
            proof { assert(self@.tags =~= before@.tags.push((full_name(o@[i as int].0@), m@))); }
            i += 1;
        }
        None
    }
}

/// What the block index of a world says: blocks and tags, the block of
/// each state, and the states that are air.
pub open spec fn index_in(st: Reading) -> Result<(Blocks, Seq<u16>, Seq<bool>), LoadError> {
    match st.doc("block_index"@, full_name("minecraft:overworld"@)) {
        None => Err(LoadError::NotProvided),
        Some(t) => match list_in(t, "blocks"@) {
            None => Err(LoadError::NotList),
            Some(b) => match all_texts(b) {
                None => Err(LoadError::NotText),
                Some(names) => match list_in(t, "states"@) {
                    None => Err(LoadError::NotList),
                    Some(s) => match all_small(s) {
                        None => Err(LoadError::NotInteger),
                        Some(states) => if exists|i: int| 0 <= i < states.len() && #[trigger] states[i] >= names.len() {
                            Err(LoadError::OutOfRange)
                        } else {
                            match list_in(t, "air"@) {
                                None => Err(LoadError::NotList),
                                Some(l) => if !states_named(l, states.len()) {
                                    Err(LoadError::OutOfRange)
                                } else {
                                    match t.get("tags"@) {
                                        Some(Tree::Object(fs)) => match tags_from(names, fs, 0, Seq::empty()) {
                                            Err(e) => Err(e),
                                            Ok(tags) => Ok(
                                                (Blocks { names, tags }, states, named_states(l, states.len(), l.len() as int)),
                                            ),
                                        },
                                        _ => Err(LoadError::MissingField),
                                    }
                                },
                            }
                        },
                    },
                },
            },
        },
    }
}

/// A block index, read.
struct IndexRead {
    index: BlockIndex,
    states: Vec<u16>,
    air: Vec<bool>,
}

fn load_index(loader: &Loader) -> (r: Result<IndexRead, LoadError>)
    ensures
        match r {
            Ok(x) => index_in(loader@) == Ok::<(Blocks, Seq<u16>, Seq<bool>), LoadError>((x.index@, x.states@, x.air@)),
            Err(e) => index_in(loader@) == Err::<(Blocks, Seq<u16>, Seq<bool>), LoadError>(e),
        },
{
    let t = match loader.document("block_index", "minecraft:overworld") {
        Err(e) => return Err(e),
        Ok(t) => t,
    };
    let names = match t.get("blocks") {
        None => return Err(LoadError::NotList),
        Some(v) => match v.as_array() {
            None => return Err(LoadError::NotList),
            Some(l) => match read_texts(l) {
                None => return Err(LoadError::NotText),
                Some(n) => n,
            },
        },
    };
    let states = match t.get("states") {
        None => return Err(LoadError::NotList),
        Some(v) => match v.as_array() {
            None => return Err(LoadError::NotList),
            Some(l) => match read_small(l) {
                None => return Err(LoadError::NotInteger),
                Some(n) => n,
            },
        },
    };
    let mut i: usize = 0;
    proof { assert(texts(names@).len() == names@.len()); }
    while i < states.len()
        invariant
            i <= states@.len(),
            forall|k: int| 0 <= k < i ==> #[trigger] states@[k] < names@.len(),
            texts(names@).len() == names@.len(),
            loader@.doc("block_index"@, full_name("minecraft:overworld"@)) == Some(tree(*t)),
            list_in(tree(*t), "blocks"@) is Some && all_texts(list_in(tree(*t), "blocks"@)->0) == Some(texts(names@)),
            list_in(tree(*t), "states"@) is Some && all_small(list_in(tree(*t), "states"@)->0) == Some(states@),
        decreases states.len() - i,
    {
        if states[i] as usize >= names.len() {
            return Err(LoadError::OutOfRange);
        }
        i += 1;
    }
    let air = match t.get("air") {
        None => return Err(LoadError::NotList),
        Some(v) => match v.as_array() {
            None => return Err(LoadError::NotList),
            Some(l) => {
                proof { lemma_trees(l@, l@.len()); }
                match read_states(l, states.len()) {
                    None => return Err(LoadError::OutOfRange),
                    Some(n) => n,
                }
            },
        },
    };
    let mut index = BlockIndex { names, tags: Vec::new() };
    match t.get("tags") {
        Some(Json::Object(o)) => match index.load_tags(o) {
            Some(e) => return Err(e),
            None => {},
        },
        _ => return Err(LoadError::MissingField),
    }
    Ok(IndexRead { index, states, air })
}

/// A placed ore as a value: the ore, its steps, and the sections it can
/// touch.
pub ghost struct Placed {
    pub ore: Ore,
    pub steps: Seq<Modifier>,
    pub lo: int,
    pub hi: int,
}

pub open spec fn placed_of(p: PlacedOre) -> Placed {
    Placed { ore: ore_of(p.feature), steps: p.placement@, lo: p.section_lo as int, hi: p.section_hi as int }
}

pub open spec fn all_placed(v: Seq<PlacedOre>) -> Seq<Placed> {
    v.map_values(|p: PlacedOre| placed_of(p))
}

/// The lowest and the highest height that can be drawn.
pub open spec fn reach_of(h: HeightProvider) -> (i32, i32) {
    match h {
        HeightProvider::Constant(y) => (y, y),
        HeightProvider::Uniform { min, max } => (min, if max > min { max } else { min }),
        HeightProvider::Trapezoid { min, max, .. } => (min, if max > min { max } else { min }),
    }
}

/// The heights of the first step that draws one, from the `i`-th on.
pub open spec fn heights_from(steps: Seq<Modifier>, i: int) -> Option<(i32, i32)>
    decreases steps.len() - i,
{
    if i < 0 || i >= steps.len() {
        None
    } else {
        match steps[i] {
            Modifier::HeightRange(h) => Some(reach_of(h)),
            _ => heights_from(steps, i + 1),
        }
    }
}

/// The section of a height above the bottom.
pub open spec fn section_above(d: int) -> int {
    if d < 0 { 0 } else { d / 16 }
}

/// The sections that an ore can touch.
pub open spec fn band(steps: Seq<Modifier>, size: int, min_y: int, height: int) -> (int, int) {
    let (low, high) = match heights_from(steps, 0) {
        Some(r) => (r.0 as int, r.1 as int),
        None => (min_y, min_y + height - 1),
    };
    let reach = 3 + radius_of(size);
    let last = height / 16 - 1;
    let top = section_above(high + reach - min_y);
    let hi = if top < last { top } else { last };
    let lo = section_above(low - reach - min_y);
    (if lo < hi { lo } else { hi }, hi)
}

fn section_at(d: i64) -> (r: usize)
    requires
        d <= 0x3_0000_0000,
    ensures
        r == section_above(d as int),
{
    if d < 0 { 0 } else { (d / 16) as usize }
}

fn band_of(steps: &Vec<Modifier>, size: i32, min_y: i32, height: i32) -> (r: (usize, usize))
    requires
        0 <= size <= 64,
        height >= 16,
    ensures
        (r.0 as int, r.1 as int) == band(steps@, size as int, min_y as int, height as int),
{
    let mut low: i64 = min_y as i64;
    let mut high: i64 = min_y as i64 + height as i64 - 1;
    let mut i: usize = 0;
    let mut found: bool = false;
    while i < steps.len() && !found
        invariant
            i <= steps@.len(),
            -0x8000_0000 <= low <= 0x7fff_ffff,
            -0x8000_0000 <= high <= 0xffff_ffff,
            !found ==> heights_from(steps@, 0) == heights_from(steps@, i as int) && low == min_y && high == min_y + height - 1,
            found ==> (heights_from(steps@, 0) matches Some(h) && h.0 == low && h.1 == high),
        decreases steps.len() - i, if found { 0int } else { 1int },
    {
        if let Modifier::HeightRange(h) = &steps[i] {
            let b: (i32, i32) = h.bounds();
            low = b.0 as i64;
            high = b.1 as i64;
            found = true;
        } else {
            i += 1;
        }
    }
    let reach: i64 = 3 + max_radius(size) as i64;
    let last: usize = (height / 16 - 1) as usize;
    let top: usize = section_at(high + reach - min_y as i64);
    let hi: usize = if top < last { top } else { last };
    let lo: usize = section_at(low - reach - min_y as i64);
    (if lo < hi { lo } else { hi }, hi)
}

/// A placed feature: an ore, or nothing where it is none that can be read.
pub open spec fn placed_in<F: Fn(Ask) -> u64, A: Fn(&Json) -> Option<i32>, C: Fn(&Json) -> Option<String>>(
    f: F, a: A, c: C, st: Reading, ix: Blocks, p: Seq<Seq<char>>, id: Seq<char>, min_y: int, height: int,
) -> (Result<Option<Placed>, LoadError>, Seq<Seq<char>>) {
    match st.doc("placed_feature"@, full_name(id)) {
        None => (Err(LoadError::NotProvided), p),
        Some(d) => match text_in(d, "feature"@) {
            None => (Ok(None), p),
            Some(feature) => match st.doc("feature"@, full_name(feature)) {
                None => (Ok(None), p),
                Some(t) => if kind_in(t) != Some("minecraft:ore"@) {
                    (Ok(None), p)
                } else {
                    match feature_in(f, c, ix, p, t) {
                        (Err(_), q) => (Ok(None), q),
                        (Ok(ore), q) => match placement_in(a, d) {
                            Err(_) => (Ok(None), q),
                            Ok(steps) => {
                                let (lo, hi) = band(steps, ore.size as int, min_y, height);
                                (Ok(Some(Placed { ore, steps, lo, hi })), q)
                            },
                        },
                    }
                },
            },
        },
    }
}

/// The ores among some placed features from the `i`-th on, after some: their
/// names, the ores, and the palette.
pub open spec fn ores_from<F: Fn(Ask) -> u64, A: Fn(&Json) -> Option<i32>, C: Fn(&Json) -> Option<String>>(
    f: F, a: A, c: C, st: Reading, ix: Blocks, p: Seq<Seq<char>>, min_y: int, height: int, all: Seq<Seq<char>>, i: int,
    ids: Seq<Seq<char>>, acc: Seq<Placed>,
) -> (Result<(Seq<Seq<char>>, Seq<Placed>), LoadError>, Seq<Seq<char>>)
    decreases all.len() - i,
{
    if i < 0 || i >= all.len() {
        (Ok((ids, acc)), p)
    } else {
        match placed_in(f, a, c, st, ix, p, all[i], min_y, height) {
            (Err(e), q) => (Err(e), q),
            (Ok(None), q) => ores_from(f, a, c, st, ix, q, min_y, height, all, i + 1, ids, acc),
            (Ok(Some(o)), q) => ores_from(f, a, c, st, ix, q, min_y, height, all, i + 1, ids.push(all[i]), acc.push(o)),
        }
    }
}

/// The ores that a step of a biome names, from the `i`-th on.
pub open spec fn marked_from(ids: Seq<Seq<char>>, l: Seq<Tree>, i: int, has: Seq<bool>) -> Seq<bool>
    decreases l.len() - i,
{
    if i < 0 || i >= l.len() {
        has
    } else {
        match l[i].as_text() {
            None => marked_from(ids, l, i + 1, has),
            Some(s) => match biome_place(ids, full_name(s), ids.len()) {
                None => marked_from(ids, l, i + 1, has),
                Some(k) => marked_from(ids, l, i + 1, has.update(k, true)),
            },
        }
    }
}

/// The ores that the steps of a biome name, from the `i`-th on.
pub open spec fn steps_marked(ids: Seq<Seq<char>>, l: Seq<Tree>, i: int, has: Seq<bool>) -> Result<Seq<bool>, LoadError>
    decreases l.len() - i,
{
    if i < 0 || i >= l.len() {
        Ok(has)
    } else {
        match l[i].as_list() {
            None => Err(LoadError::NotList),
            Some(s) => steps_marked(ids, l, i + 1, marked_from(ids, s, 0, has)),
        }
    }
}

/// Which ores a biome has.
pub open spec fn biome_ores(st: Reading, ids: Seq<Seq<char>>, biome: Seq<char>) -> Result<Seq<bool>, LoadError> {
    match st.doc("biome"@, full_name(biome)) {
        None => Err(LoadError::NotProvided),
        Some(t) => match list_in(t, "features"@) {
            None => Err(LoadError::NotList),
            Some(l) => steps_marked(ids, l, 0, Seq::new(ids.len(), |i: int| false)),
        },
    }
}

/// Which ores the biomes have, from the `i`-th on, after some.
pub open spec fn biomes_from(st: Reading, ids: Seq<Seq<char>>, biomes: Seq<Seq<char>>, i: int, acc: Seq<Seq<bool>>) -> Result<
    Seq<Seq<bool>>,
    LoadError,
>
    decreases biomes.len() - i,
{
    if i < 0 || i >= biomes.len() {
        Ok(acc)
    } else {
        match biome_ores(st, ids, biomes[i]) {
            Err(e) => Err(e),
            Ok(has) => biomes_from(st, ids, biomes, i + 1, acc.push(has)),
        }
    }
}

fn mark_step(ids: &Vec<String>, l: &Vec<Json>, has: &mut Vec<bool>)
    requires
        old(has)@.len() == ids@.len(),
    ensures
        final(has)@.len() == ids@.len(),
        final(has)@ == marked_from(texts(ids@), trees(l@, l@.len()), 0, old(has)@),
{
    let ghost ts = trees(l@, l@.len());
    proof { lemma_trees(l@, l@.len()); }
    let mut i: usize = 0;
    while i < l.len()
        invariant
            i <= l@.len(),
            ts.len() == l@.len(),
            forall|k: int| 0 <= k < l@.len() ==> #[trigger] ts[k] == tree(l@[k]),
            has@.len() == ids@.len(),
            marked_from(texts(ids@), ts, 0, old(has)@) == marked_from(texts(ids@), ts, i as int, has@),
        decreases l.len() - i,
    {
        proof {
            assert(ts[i as int] == tree(l@[i as int]));
            assert(texts(ids@).len() == ids@.len());
        }
        if let Some(s) = l[i].as_str() {
            let name: String = full_id(s);
            if let Some(k) = last_place(ids, name.as_str()) {
                let ghost before = has@;
                has[k] = true;
                proof { assert(has@ =~= before.update(k as int, true)); }
            }
        }
        i += 1;
    }
}

fn load_biome_ores(loader: &Loader, ids: &Vec<String>, biome: &str) -> (r: Result<Vec<bool>, LoadError>)
    ensures
        match r {
            Ok(v) => biome_ores(loader@, texts(ids@), biome@) == Ok::<Seq<bool>, LoadError>(v@) && v@.len() == ids@.len(),
            Err(e) => biome_ores(loader@, texts(ids@), biome@) == Err::<Seq<bool>, LoadError>(e),
        },
{
    let t = match loader.document("biome", biome) {
        Err(e) => return Err(e),
        Ok(t) => t,
    };
    let l = match t.get("features") {
        None => return Err(LoadError::NotList),
        Some(v) => match v.as_array() {
            None => return Err(LoadError::NotList),
            Some(l) => l,
        },
    };
    let ghost ts = trees(l@, l@.len());
    proof { lemma_trees(l@, l@.len()); }
    let mut has: Vec<bool> = no_flags(ids.len());
    let ghost start = has@;
    proof { assert(texts(ids@).len() == ids@.len()); }
    let mut i: usize = 0;
    while i < l.len()
        invariant
            i <= l@.len(),
            ts.len() == l@.len(),
            forall|k: int| 0 <= k < l@.len() ==> #[trigger] ts[k] == tree(l@[k]),
            has@.len() == ids@.len(),
            steps_marked(texts(ids@), ts, 0, start) == steps_marked(texts(ids@), ts, i as int, has@),
            start == Seq::new(texts(ids@).len(), |i: int| false),
            loader@.doc("biome"@, full_name(biome@)) == Some(tree(*t)),
            list_in(tree(*t), "features"@) == Some(ts),
        decreases l.len() - i,
    {
        proof { assert(ts[i as int] == tree(l@[i as int])); }
        match l[i].as_array() {
            None => return Err(LoadError::NotList),
            Some(step) => mark_step(ids, step, &mut has),
        }
        i += 1;
    }
    Ok(has)
}

/// The block of each palette entry.
pub open spec fn palette_blocks(names: Seq<Seq<char>>, p: Seq<Seq<char>>) -> Seq<u16> {
    p.map_values(
        |entry: Seq<char>|
            match block_name(entry) {
                None => NO_BLOCK,
                Some(b) => match block_number(names, b) {
                    None => NO_BLOCK,
                    Some(n) => n,
                },
            },
    )
}

/// A stage as a value.
pub ghost struct Stage {
    pub ids: Seq<Seq<char>>,
    pub placed: Seq<Placed>,
    pub biome_has: Seq<Seq<bool>>,
    pub states: Seq<u16>,
    pub air: Seq<bool>,
    pub palette: Seq<u16>,
    pub min_y: int,
    pub sections: int,
}

pub open spec fn flag_lists(v: Seq<Vec<bool>>) -> Seq<Seq<bool>> {
    v.map_values(|l: Vec<bool>| l@)
}

/// A world's ores, or why they cannot be read, and the palette.
pub open spec fn ores_in<F: Fn(Ask) -> u64, A: Fn(&Json) -> Option<i32>, C: Fn(&Json) -> Option<String>>(
    f: F, a: A, c: C, st: Reading, p: Seq<Seq<char>>, biomes: Seq<Seq<char>>, min_y: int, height: int,
) -> (Result<Stage, LoadError>, Seq<Seq<char>>) {
    match index_in(st) {
        Err(e) => (Err(e), p),
        Ok((ix, states, air)) => {
            let all = names_of(st.docs, "placed_feature"@, st.docs.len());
            match ores_from(f, a, c, st, ix, p, min_y, height, all, 0, Seq::empty(), Seq::empty()) {
                (Err(e), q) => (Err(e), q),
                (Ok((ids, placed)), q) => match biomes_from(st, ids, biomes, 0, Seq::empty()) {
                    Err(e) => (Err(e), q),
                    Ok(biome_has) => if states.len() >= WRITTEN_BASE {
                        (Err(LoadError::OutOfRange), q)
                    } else {
                        (
                            Ok(
                                Stage {
                                    ids,
                                    placed,
                                    biome_has,
                                    states,
                                    air,
                                    palette: palette_blocks(ix.names, q),
                                    min_y,
                                    sections: height / 16,
                                },
                            ),
                            q,
                        )
                    },
                },
            }
        },
    }
}

impl View for OreStage {
    type V = Stage;

    open spec fn view(&self) -> Stage {
        Stage {
            ids: texts(self.placed_ids@),
            placed: all_placed(self.placed@),
            biome_has: flag_lists(self.biome_has@),
            states: self.state_block@,
            air: self.state_air@,
            palette: self.palette_block@,
            min_y: self.min_y as int,
            sections: self.section_count as int,
        }
    }
}

impl BlockIndex {
    fn load_placed<F: Fn(Ask) -> u64, A: Fn(&Json) -> Option<i32>, C: Fn(&Json) -> Option<String>>(
        &self, loader: &Loader, palette: &mut Vec<String>, id: &str, min_y: i32, height: i32, a: &A, c: &C, f: &F,
    ) -> (r: Result<Option<PlacedOre>, LoadError>)
        requires
            answers(*f),
            anchors(*a),
            spells(*c),
            height >= 16,
        ensures
            ({
                let (x, q) = placed_in(*f, *a, *c, loader@, self@, texts(old(palette)@), id@, min_y as int, height as int);
                &&& q == texts(final(palette)@)
                &&& match r {
                    Ok(Some(p)) => x == Ok::<Option<Placed>, LoadError>(Some(placed_of(p))),
                    Ok(None) => x == Ok::<Option<Placed>, LoadError>(None),
                    Err(e) => x == Err::<Option<Placed>, LoadError>(e),
                }
            }),
    {
        let doc = match loader.document("placed_feature", id) {
            Err(e) => return Err(e),
            Ok(d) => d,
        };
        let feature_id = match get_text(&doc, "feature") {
            None => return Ok(None),
            Some(s) => s,
        };
        let t = match loader.document("feature", feature_id) {
            Err(_) => return Ok(None),
            Ok(t) => t,
        };
        match read_kind(&t) {
            None => return Ok(None),
            Some(k) => if !same_text(k.as_str(), "minecraft:ore") {
                return Ok(None);
            },
        }
        let feature = match self.load_feature(palette, &t, c, f) {
            Err(_) => return Ok(None),
            Ok(o) => o,
        };
        let placement = match load_placement(a, &doc) {
            Err(_) => return Ok(None),
            Ok(p) => p,
        };
        let (section_lo, section_hi): (usize, usize) = band_of(&placement, feature.size, min_y, height);
        Ok(Some(PlacedOre { feature, placement, section_lo, section_hi }))
    }

    /// The blocks of a palette.
    fn blocks_of(&self, palette: &Vec<String>) -> (r: Vec<u16>)
        ensures
            r@ == palette_blocks(self@.names, texts(palette@)),
    {
        let mut r: Vec<u16> = Vec::new();
        while r.len() < palette.len()
            invariant
                r@.len() <= palette@.len(),
                forall|i: int| 0 <= i < r@.len() ==> #[trigger] r@[i] == palette_blocks(self@.names, texts(palette@))[i],
            decreases palette.len() - r.len(),
        {
            let i: usize = r.len();
            proof { assert(texts(palette@)[i as int] == palette@[i as int]@); }
            let n: u16 = match block_of(palette[i].as_str()) {
                None => NO_BLOCK,
                Some(b) => match self.number(b.as_str()) {
                    None => NO_BLOCK,
                    Some(n) => n,
                },
            };
            r.push(n);
        }
        proof { assert(r@ =~= palette_blocks(self@.names, texts(palette@))); }
        r
    }
}

impl OreStage {
    /// Read a world's ores: its block index, every placed feature that is an
    /// ore, and which of them each biome has. The ores' states are added to
    /// the palette. `a` gives the height that an anchor names, `c` the one
    /// spelling of a block state.
    pub fn load<F: Fn(Ask) -> u64, A: Fn(&Json) -> Option<i32>, C: Fn(&Json) -> Option<String>>(
        loader: &Loader, palette: &mut Vec<String>, biome_ids: &Vec<String>, min_y: i32, height: i32, a: &A, c: &C, f: &F,
    ) -> (r: Result<OreStage, LoadError>)
        requires
            answers(*f),
            anchors(*a),
            spells(*c),
            height >= 16,
        ensures
            ({
                let (x, q) = ores_in(
                    *f, *a, *c, loader@, texts(old(palette)@), texts(biome_ids@), min_y as int, height as int,
                );
                &&& q == texts(final(palette)@)
                &&& match r {
                    Ok(s) => x == Ok::<Stage, LoadError>(s@),
                    Err(e) => x == Err::<Stage, LoadError>(e),
                }
            }),
    {
        let ghost p = texts(palette@);
        let read = match load_index(loader) {
            Err(e) => return Err(e),
            Ok(x) => x,
        };
        let index: BlockIndex = read.index;
        let all: Vec<String> = loader.ids_of("placed_feature");
        let ghost names = texts(all@);
        let mut placed_ids: Vec<String> = Vec::new();
        let mut placed: Vec<PlacedOre> = Vec::new();
        let mut i: usize = 0;
        proof {
            assert(texts(placed_ids@) =~= Seq::empty());
            assert(all_placed(placed@) =~= Seq::empty());
        }
        while i < all.len()
            invariant
                i <= all@.len(),
                names == texts(all@),
                names.len() == all@.len(),
                answers(*f),
                anchors(*a),
                spells(*c),
                height >= 16,
                placed_ids@.len() == placed@.len(),
                p == texts(old(palette)@),
                index_in(loader@) == Ok::<(Blocks, Seq<u16>, Seq<bool>), LoadError>((index@, read.states@, read.air@)),
                names == names_of(loader@.docs, "placed_feature"@, loader@.docs.len()),
                ores_from(
                    *f, *a, *c, loader@, index@, p, min_y as int, height as int, names, 0, Seq::empty(), Seq::empty(),
                ) == ores_from(
                    *f,
                    *a,
                    *c,
                    loader@,
                    index@,
                    texts(palette@),
                    min_y as int,
                    height as int,
                    names,
                    i as int,
                    texts(placed_ids@),
                    all_placed(placed@),
                ),
            decreases all.len() - i,
        {
            let ghost (ids_before, placed_before) = (placed_ids@, placed@);
            proof { assert(names[i as int] == all@[i as int]@); }
            match index.load_placed(loader, palette, all[i].as_str(), min_y, height, a, c, f) {
                Err(e) => return Err(e),
                Ok(None) => {},
                Ok(Some(o)) => {
                    let id: String = all[i].clone();
                    placed_ids.push(id);
                    placed.push(o);
                    proof {
                        assert(texts(placed_ids@) =~= texts(ids_before).push(names[i as int]));
                        assert(all_placed(placed@) =~= all_placed(placed_before).push(placed_of(o)));
                    }
                },
            }
            i += 1;
        }
        let ghost ids = texts(placed_ids@);
        let mut biome_has: Vec<Vec<bool>> = Vec::new();
        let ghost biomes = texts(biome_ids@);
        let mut b: usize = 0;
        proof { assert(flag_lists(biome_has@) =~= Seq::empty()); }
        while b < biome_ids.len()
            invariant
                b <= biome_ids@.len(),
                biomes == texts(biome_ids@),
                biomes.len() == biome_ids@.len(),
                ids == texts(placed_ids@),
                p == texts(old(palette)@),
                names == names_of(loader@.docs, "placed_feature"@, loader@.docs.len()),
                index_in(loader@) == Ok::<(Blocks, Seq<u16>, Seq<bool>), LoadError>((index@, read.states@, read.air@)),
                ores_from(
                    *f, *a, *c, loader@, index@, p, min_y as int, height as int, names, 0, Seq::empty(), Seq::empty(),
                ) == (Ok::<(Seq<Seq<char>>, Seq<Placed>), LoadError>((ids, all_placed(placed@))), texts(palette@)),
                biomes_from(loader@, ids, biomes, 0, Seq::empty()) == biomes_from(
                    loader@, ids, biomes, b as int, flag_lists(biome_has@)),
            decreases biome_ids.len() - b,
        {
            let ghost before = biome_has@;
            proof { assert(biomes[b as int] == biome_ids@[b as int]@); }
            match load_biome_ores(loader, &placed_ids, biome_ids[b].as_str()) {
                Err(e) => return Err(e),
                Ok(has) => {
                    biome_has.push(has);
                    proof { assert(flag_lists(biome_has@) =~= flag_lists(before).push(has@)); }
                },
            }
            b += 1;
        }
        let palette_block: Vec<u16> = index.blocks_of(palette);
        if read.states.len() >= WRITTEN_BASE as usize {
            return Err(LoadError::OutOfRange);
        }
        Ok(OreStage {
            placed_ids,
            placed,
            biome_has,
            state_block: read.states,
            state_air: read.air,
            palette_block,
            min_y,
            section_count: (height / 16) as usize,
        })
    }
}

fn can_step(m: &Modifier) -> (r: bool)
    ensures
        r == (match *m {
            Modifier::Count(c) => c.wf(),
            Modifier::HeightRange(h) => h.wf(),
            _ => true,
        }),
{
    match m {
        Modifier::Count(IntProvider::Uniform { min, max }) => *min <= *max && (*max as i64) - (*min as i64) < i32::MAX as i64,
        Modifier::HeightRange(HeightProvider::Uniform { min, max }) => is_between(*min, *max),
        Modifier::HeightRange(HeightProvider::Trapezoid { min, max, plateau }) => is_slope(*min, *max, *plateau),
        _ => true,
    }
}

fn can_place(p: &PlacedOre) -> (r: bool)
    ensures
        r == placeable(*p),
{
    if p.feature.size < 0 || p.feature.size > 64 {
        return false;
    }
    let mut i: usize = 0;
    while i < p.placement.len()
        invariant
            0 <= p.feature.size <= 64,
            i <= p.placement@.len(),
            forall|k: int| 0 <= k < i ==> match #[trigger] p.placement@[k] {
                Modifier::Count(c) => c.wf(),
                Modifier::HeightRange(h) => h.wf(),
                _ => true,
            },
        decreases p.placement.len() - i,
    {
        if !can_step(&p.placement[i]) {
            proof {
                let m = p.placement@[i as int];
                assert(!match m {
                    Modifier::Count(c) => c.wf(),
                    Modifier::HeightRange(h) => h.wf(),
                    _ => true,
                });
            }
            return false;
        }
        i += 1;
    }
    true
}

impl OreStage {
    /// Whether every ore can be placed: numbers are drawn from ranges that
    /// are not empty, and each biome knows of every ore.
    pub fn is_sound(&self) -> (r: bool)
        ensures
            r == self.wf(),
    {
        let mut i: usize = 0;
        while i < self.placed.len()
            invariant
                i <= self.placed@.len(),
                forall|k: int| 0 <= k < i ==> placeable(#[trigger] self.placed@[k]),
            decreases self.placed.len() - i,
        {
            if !can_place(&self.placed[i]) {
                proof { assert(!placeable(self.placed@[i as int])); }
                return false;
            }
            i += 1;
        }
        let mut b: usize = 0;
        while b < self.biome_has.len()
            invariant
                b <= self.biome_has@.len(),
                forall|k: int| 0 <= k < self.placed@.len() ==> placeable(#[trigger] self.placed@[k]),
                forall|k: int| 0 <= k < b ==> (#[trigger] self.biome_has@[k])@.len() == self.placed@.len(),
            decreases self.biome_has.len() - b,
        {
            if self.biome_has[b].len() != self.placed.len() {
                proof { assert(self.biome_has@[b as int]@.len() != self.placed@.len()); }
                return false;
            }
            b += 1;
        }
        true
    }
}

} // verus!
