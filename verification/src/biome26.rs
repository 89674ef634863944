//! The biome stage: which biome a place has, by its climate.

use std::sync::Arc;
use vstd::prelude::*;
use crate::arith::{answers, Ask};
use crate::bounds26::blank;
use crate::climate::{quantize_coord, quantized};
use crate::climate26::{buildable, law_search_finds, tree_over, BiomeError, ColumnSearch, RTree};
use crate::df26::{affordable, lattice, sampled, sound, wrap, wrapped, Lattice, Mode, Node, Slab};
use crate::dfcache::{agrees, fresh, law_cache_is_neutral, truthful, value_at};
use crate::dfeval::{PointCache, SampleCtx};
use crate::dfmodel::{func_of, Func};
use crate::dfrewrite::share;
use crate::dfsample::steps;
use crate::json::{lemma_trees, tree, trees, Json, LoadError, Tree};
use crate::load::{full_name, list_in, text_in, Reading};
use crate::loader::{all_agree, full_id, named_funcs, router_read, texts, Loader};
use crate::rtree::{found, number, Parameter, Space};
use crate::text::same_text;
use crate::volume::Volume;

verus! {

/// The last place of a name among the first `n`.
pub open spec fn biome_place(ids: Seq<Seq<char>>, name: Seq<char>, n: nat) -> Option<int>
    decreases n,
{
    if n == 0 {
        None
    } else if ids[n - 1] == name {
        Some(n - 1)
    } else {
        biome_place(ids, name, (n - 1) as nat)
    }
}

/// The integers of a list; nothing where an element is none.
pub open spec fn longs(l: Seq<Tree>) -> Option<Seq<i64>> {
    if forall|i: int| 0 <= i < l.len() ==> (#[trigger] l[i]).as_integer() is Some {
        Some(Seq::new(l.len(), |i: int| l[i].as_integer().unwrap()))
    } else {
        None
    }
}

/// Six ranges and an offset.
pub open spec fn space_of(v: Seq<i64>) -> Seq<Parameter> {
    seq![
        Parameter { min: v[0], max: v[1] },
        Parameter { min: v[2], max: v[3] },
        Parameter { min: v[4], max: v[5] },
        Parameter { min: v[6], max: v[7] },
        Parameter { min: v[8], max: v[9] },
        Parameter { min: v[10], max: v[11] },
        Parameter { min: v[12], max: v[12] },
    ]
}

/// A climate box and its biome.
pub open spec fn box_read(t: Tree, ids: Seq<Seq<char>>) -> Result<(Seq<Parameter>, u16), LoadError> {
    match text_in(t, "biome"@) {
        None => Err(LoadError::NotText),
        Some(id) => match biome_place(ids, full_name(id), ids.len()) {
            None => Err(LoadError::UnknownBiome),
            Some(b) => match list_in(t, "space"@) {
                None => Err(LoadError::NotList),
                Some(l) => if l.len() != 13 {
                    Err(LoadError::SpaceSize)
                } else {
                    match longs(l) {
                        None => Err(LoadError::NotInteger),
                        Some(v) => Ok((space_of(v), (b % 0x1_0000) as u16)),
                    }
                },
            },
        },
    }
}

/// The first `n` climate boxes of a list.
pub open spec fn boxes_read(l: Seq<Tree>, ids: Seq<Seq<char>>, n: nat) -> Result<Seq<(Seq<Parameter>, u16)>, LoadError>
    decreases n,
{
    if n == 0 {
        Ok(Seq::empty())
    } else {
        match boxes_read(l, ids, (n - 1) as nat) {
            Err(e) => Err(e),
            Ok(before) => match box_read(l[n - 1], ids) {
                Err(e) => Err(e),
                Ok(x) => Ok(before.push(x)),
            },
        }
    }
}

/// The climate boxes of a world.
pub open spec fn regions_read(st: Reading, ids: Seq<Seq<char>>) -> Result<Seq<(Seq<Parameter>, u16)>, LoadError> {
    match st.doc("biome_parameters"@, full_name("minecraft:overworld"@)) {
        None => Err(LoadError::NotProvided),
        Some(t) => match list_in(t, "values"@) {
            None => Err(LoadError::NotList),
            Some(l) => match boxes_read(l, ids, l.len()) {
                Err(e) => Err(e),
                Ok(b) => if b.len() == 0 {
                    Err(LoadError::NoBiomes)
                } else if !buildable(b.map_values(|p: (Seq<Parameter>, u16)| p.0)) {
                    Err(LoadError::OutOfRange)
                } else {
                    Ok(b)
                },
            },
        },
    }
}

/// The first function under a key, from the `k`-th on.
pub open spec fn keyed(s: Seq<(Seq<char>, Func)>, key: Seq<char>, k: int) -> Option<Func>
    decreases s.len() - k,
{
    if k < 0 || k >= s.len() {
        None
    } else if s[k].0 == key {
        Some(s[k].1)
    } else {
        keyed(s, key, k + 1)
    }
}

/// The six climate functions of a router.
pub open spec fn six_climates(s: Seq<(Seq<char>, Func)>) -> Option<Seq<Func>> {
    match (
        keyed(s, "temperature"@, 0),
        keyed(s, "vegetation"@, 0),
        keyed(s, "continents"@, 0),
        keyed(s, "erosion"@, 0),
        keyed(s, "depth"@, 0),
        keyed(s, "ridges"@, 0),
    ) {
        (Some(a), Some(b), Some(c), Some(d), Some(e), Some(g)) => Some(seq![a, b, c, d, e, g]),
        _ => None,
    }
}

/// What a world's documents say of its biomes: boxes, their biomes, and the
/// climate functions.
pub open spec fn stage_read<F: Fn(Ask) -> u64>(f: F, st: Reading, ids: Seq<Seq<char>>) -> (
    Result<(Seq<(Seq<Parameter>, u16)>, Seq<Func>), LoadError>,
    Reading,
) {
    match regions_read(st, ids) {
        Err(e) => (Err(e), st),
        Ok(b) => match router_read(f, st, "minecraft:overworld"@) {
            (Err(e), s) => (Err(e), s),
            (Ok(r), s) => match six_climates(r) {
                None => (Err(LoadError::MissingField), s),
                Some(c) => (Ok((b, c)), s),
            },
        },
    }
}

/// Decides the biomes of a world.
pub struct BiomeStage {
    tree: RTree,
    temperature: Arc<Node>,
    humidity: Arc<Node>,
    continentalness: Arc<Node>,
    erosion: Arc<Node>,
    depth: Arc<Node>,
    weirdness: Arc<Node>,
    min_y: i32,
    height: i32,
}

/// The index of a biome.
fn find_biome(ids: &Vec<String>, name: &str) -> (r: Option<usize>)
    ensures
        r is Some <==> biome_place(texts(ids@), name@, ids@.len()) is Some,
        r matches Some(i) ==> biome_place(texts(ids@), name@, ids@.len()) == Some(i as int),
{
    let mut n: usize = ids.len();
    while n > 0
        invariant
            n <= ids@.len(),
            biome_place(texts(ids@), name@, n as nat) == biome_place(texts(ids@), name@, ids@.len()),
        decreases n,
    {
        proof { assert(texts(ids@)[n - 1] == ids@[n - 1]@); }
        if same_text(ids[n - 1].as_str(), name) {
            return Some(n - 1);
        }
        n -= 1;
    }
    None
}

/// The integers of a list.
fn read_longs(l: &Vec<Json>) -> (r: Option<Vec<i64>>)
    ensures
        r is Some <==> longs(trees(l@, l@.len())) is Some,
        r matches Some(v) ==> longs(trees(l@, l@.len())) == Some(v@),
{
    let ghost t = trees(l@, l@.len());
    proof { lemma_trees(l@, l@.len()); }
    let mut r: Vec<i64> = Vec::new();
    let mut i: usize = 0;
    while i < l.len()
        invariant
            i <= l@.len(),
            t == trees(l@, l@.len()),
            t.len() == l@.len(),
            forall|k: int| 0 <= k < t.len() ==> #[trigger] t[k] == tree(l@[k]),
            r@.len() == i,
            forall|k: int| 0 <= k < i ==> (#[trigger] t[k]).as_integer() == Some(r@[k]),
        decreases l.len() - i,
    {
        proof { assert(t[i as int] == tree(l@[i as int])); }
        match l[i].as_integer() {
            Some(v) => r.push(v),
            None => {
                proof { assert(t[i as int].as_integer() is None); }
                return None;
            },
        }
        i += 1;
    }
    proof { assert(longs(t).unwrap() =~= r@); }
    Some(r)
}

/// A climate box and its biome.
fn read_box(v: &Json, ids: &Vec<String>) -> (r: Result<(Space, u16), LoadError>)
    ensures
        match r {
            Ok((s, b)) => box_read(tree(*v), texts(ids@)) == Ok::<(Seq<Parameter>, u16), LoadError>((s@, b)),
            Err(e) => box_read(tree(*v), texts(ids@)) == Err::<(Seq<Parameter>, u16), LoadError>(e),
        },
{
    let id = match v.get("biome") {
        None => return Err(LoadError::NotText),
        Some(x) => match x.as_str() {
            None => return Err(LoadError::NotText),
            Some(s) => s,
        },
    };
    let full: String = full_id(id);
    let b: usize = match find_biome(ids, full.as_str()) {
        None => return Err(LoadError::UnknownBiome),
        Some(b) => b,
    };
    let l = match v.get("space") {
        None => return Err(LoadError::NotList),
        Some(x) => match x.as_array() {
            None => return Err(LoadError::NotList),
            Some(l) => l,
        },
    };
    proof { lemma_trees(l@, l@.len()); }
    if l.len() != 13 {
        return Err(LoadError::SpaceSize);
    }
    let n: Vec<i64> = match read_longs(l) {
        None => return Err(LoadError::NotInteger),
        Some(n) => n,
    };
    let space: Space = [
        Parameter { min: n[0], max: n[1] },
        Parameter { min: n[2], max: n[3] },
        Parameter { min: n[4], max: n[5] },
        Parameter { min: n[6], max: n[7] },
        Parameter { min: n[8], max: n[9] },
        Parameter { min: n[10], max: n[11] },
        Parameter { min: n[12], max: n[12] },
    ];
    proof { assert(space@ =~= space_of(n@)); }
    Ok((space, (b % 0x1_0000) as u16))
}

proof fn lemma_boxes_fail(l: Seq<Tree>, ids: Seq<Seq<char>>, m: nat, n: nat)
    requires
        m <= n <= l.len(),
        boxes_read(l, ids, m) is Err,
    ensures
        boxes_read(l, ids, n) == boxes_read(l, ids, m),
    decreases n,
{
    if m < n {
        lemma_boxes_fail(l, ids, m, (n - 1) as nat);
    }
}

/// Boxes and biomes as values.
pub open spec fn pairs(v: Seq<(Space, u16)>) -> Seq<(Seq<Parameter>, u16)> {
    v.map_values(|p: (Space, u16)| (p.0@, p.1))
}

fn read_boxes(l: &Vec<Json>, ids: &Vec<String>) -> (r: Result<Vec<(Space, u16)>, LoadError>)
    ensures
        ({
            let x = boxes_read(trees(l@, l@.len()), texts(ids@), l@.len());
            match r {
                Ok(v) => x == Ok::<Seq<(Seq<Parameter>, u16)>, LoadError>(pairs(v@)),
                Err(e) => x == Err::<Seq<(Seq<Parameter>, u16)>, LoadError>(e),
            }
        }),
{
    let ghost t = trees(l@, l@.len());
    proof { lemma_trees(l@, l@.len()); }
    let mut out: Vec<(Space, u16)> = Vec::new();
    let mut i: usize = 0;
    proof { assert(pairs(out@) =~= Seq::empty()); }
    while i < l.len()
        invariant
            i <= l@.len(),
            t == trees(l@, l@.len()),
            t.len() == l@.len(),
            forall|k: int| 0 <= k < t.len() ==> #[trigger] t[k] == tree(l@[k]),
            boxes_read(t, texts(ids@), i as nat) == Ok::<Seq<(Seq<Parameter>, u16)>, LoadError>(pairs(out@)),
        decreases l.len() - i,
    {
        proof { assert(t[i as int] == tree(l@[i as int])); }
        let ghost before = out@;
        match read_box(&l[i], ids) {
            Err(e) => {
                proof { lemma_boxes_fail(t, texts(ids@), (i + 1) as nat, t.len()); }
                return Err(e);
            },
            Ok(b) => {
                out.push(b);
                proof { assert(pairs(out@) =~= pairs(before).push((b.0@, b.1))); }
            },
        }
        i += 1;
    }
    Ok(out)
}

/// The function under a key.
fn under_key(r: &Vec<(String, Arc<Node>)>, key: &str, Ghost(inputs): Ghost<Map<usize, Node>>) -> (n: Option<Arc<Node>>)
    requires
        all_agree(r@, inputs),
    ensures
        n is Some <==> keyed(named_funcs(r@), key@, 0) is Some,
        n matches Some(x) ==> keyed(named_funcs(r@), key@, 0) == Some(func_of(*x)) && agrees(*x, inputs),
{
    let ghost s = named_funcs(r@);
    let mut k: usize = 0;
    while k < r.len()
        invariant
            k <= r@.len(),
            s == named_funcs(r@),
            all_agree(r@, inputs),
            keyed(s, key@, 0) == keyed(s, key@, k as int),
        decreases r.len() - k,
    {
        proof { assert(s[k as int] == (r@[k as int].0@, func_of(*r@[k as int].1))); }
        if same_text(r[k].0.as_str(), key) {
            return Some(share(&r[k].1));
        }
        k += 1;
    }
    None
}

/// The samples of the first `n` climate functions, and what they keep.
pub open spec fn samples<F: Fn(Ask) -> u64>(f: F, nodes: Seq<Node>, v: Lattice, n: nat) -> (Seq<Seq<u32>>, Seq<Slab>)
    decreases n,
{
    if n == 0 {
        (Seq::empty(), Seq::empty())
    } else {
        let (before, c) = samples(f, nodes, v, (n - 1) as nat);
        let (b, d) = sampled(f, nodes[n - 1], v, c);
        (before.push(b), d)
    }
}

/// The place of the `k`-th lookup of a chunk, section by section, then
/// along x, y and z.
#[verifier::opaque]
pub open spec fn lookup_place(v: Lattice, k: int) -> int {
    v.place((k / 16) % 4, (k / 64) * 4 + (k / 4) % 4, k % 4)
}

/// The climate of a column, its depth left at zero.
#[verifier::opaque]
pub open spec fn column_climate<F: Fn(Ask) -> u64>(f: F, s: Seq<Seq<u32>>, v: Lattice, n: int) -> Seq<i64> {
    Seq::new(7, |a: int| if a == 4 || a == 6 { 0 } else { quantized(f, s[a][v.place(n % 4, 0, n / 4)]) })
}

/// The depth of the `k`-th lookup.
#[verifier::opaque]
pub open spec fn lookup_depth<F: Fn(Ask) -> u64>(f: F, s: Seq<Seq<u32>>, v: Lattice, k: int) -> i64 {
    quantized(f, s[4][lookup_place(v, k)])
}

/// The column of the `k`-th lookup.
pub open spec fn lookup_column(k: int) -> int {
    (k / 16) % 4 + (k % 4) * 4
}

/// The climate of the `k`-th lookup: depth varies along the column, the
/// rest does not.
pub open spec fn lookup_target<F: Fn(Ask) -> u64>(f: F, s: Seq<Seq<u32>>, v: Lattice, k: int) -> Seq<i64> {
    column_climate(f, s, v, lookup_column(k)).update(4, lookup_depth(f, s, v, k))
}

/// What the first `n` lookups end with; each starts from the one before.
pub open spec fn lookups<F: Fn(Ask) -> u64>(f: F, regions: Seq<Seq<Parameter>>, s: Seq<Seq<u32>>, v: Lattice, n: nat) -> Option<int>
    decreases n,
{
    if n == 0 {
        None
    } else {
        found(
            regions,
            tree_over(regions),
            lookup_target(f, s, v, n - 1),
            lookups(f, regions, s, v, (n - 1) as nat),
        )
    }
}

impl BiomeStage {
    /// The climate boxes and their biomes.
    pub closed spec fn regions(&self) -> Seq<Seq<Parameter>> {
        self.tree.regions()
    }

    pub closed spec fn biomes(&self) -> Seq<u16> {
        self.tree.biomes()
    }

    /// The climate functions: temperature, humidity, continentalness,
    /// erosion, depth and weirdness.
    pub closed spec fn nodes(&self) -> Seq<Node> {
        seq![*self.temperature, *self.humidity, *self.continentalness, *self.erosion, *self.depth, *self.weirdness]
    }

    /// The lowest block and the height of the world.
    pub closed spec fn extent(&self) -> (i32, i32) {
        (self.min_y, self.height)
    }

    /// The tree is built, and the functions share their caches' inputs.
    pub closed spec fn wf(&self) -> bool {
        &&& self.tree.wf()
        &&& exists|inputs: Map<usize, Node>| #[trigger] shares(self.nodes(), inputs)
    }

    /// Every function can be evaluated.
    pub open spec fn sound(&self) -> bool {
        forall|i: int| 0 <= i < 6 ==> sound(#[trigger] self.nodes()[i])
    }

    /// Read a world's biomes; `biome_ids` are the full names of biomes by
    /// index. The documents hold the climate boxes with the game's
    /// quantized numbers, and the noise router that the fill uses.
    pub fn load<F: Fn(Ask) -> u64>(loader: &mut Loader, biome_ids: &Vec<String>, min_y: i32, height: i32, f: &F) -> (r: Result<
        BiomeStage,
        LoadError,
    >)
        requires
            answers(*f),
            old(loader).wf(),
        ensures
            ({
                let (x, s) = stage_read(*f, old(loader)@, texts(biome_ids@));
                &&& (match r {
                    Ok(b) => {
                        &&& b.wf()
                        &&& b.extent() == (min_y, height)
                        &&& x is Ok
                        &&& b.regions() == x->Ok_0.0.map_values(|p: (Seq<Parameter>, u16)| p.0)
                        &&& b.biomes() == x->Ok_0.0.map_values(|p: (Seq<Parameter>, u16)| p.1)
                        &&& b.nodes().map_values(|n: Node| func_of(n)) == x->Ok_0.1
                    },
                    Err(e) => x is Err && x->Err_0 == e,
                })
                &&& s == final(loader)@
            }),
            final(loader).went_on(old(loader)),
    {
        let doc = match loader.document("biome_parameters", "minecraft:overworld") {
            Err(e) => return Err(e),
            Ok(d) => d,
        };
        let l = match doc.get("values") {
            None => return Err(LoadError::NotList),
            Some(v) => match v.as_array() {
                None => return Err(LoadError::NotList),
                Some(l) => l,
            },
        };
        proof { lemma_trees(l@, l@.len()); }
        let boxes: Vec<(Space, u16)> = match read_boxes(l, biome_ids) {
            Err(e) => return Err(e),
            Ok(b) => b,
        };
        let ghost b = pairs(boxes@);
        proof {
            assert(b.map_values(|p: (Seq<Parameter>, u16)| p.0) =~= boxes@.map_values(|p: (Space, u16)| p.0@));
            assert(b.map_values(|p: (Seq<Parameter>, u16)| p.1) =~= boxes@.map_values(|p: (Space, u16)| p.1));
        }
        let tree = match RTree::new(boxes.as_slice()) {
            Err(BiomeError::Empty) => return Err(LoadError::NoBiomes),
            Err(BiomeError::TooWide) => return Err(LoadError::OutOfRange),
            Ok(t) => t,
        };
        let router = match loader.router("minecraft:overworld", f) {
            Err(e) => return Err(e),
            Ok(r) => r,
        };
        let ghost inputs = choose|inputs: Map<usize, Node>| #[trigger] all_agree(router@, inputs);
        match (
            under_key(&router, "temperature", Ghost(inputs)),
            under_key(&router, "vegetation", Ghost(inputs)),
            under_key(&router, "continents", Ghost(inputs)),
            under_key(&router, "erosion", Ghost(inputs)),
            under_key(&router, "depth", Ghost(inputs)),
            under_key(&router, "ridges", Ghost(inputs)),
        ) {
            (Some(temperature), Some(humidity), Some(continentalness), Some(erosion), Some(depth), Some(weirdness)) => {
                let r = BiomeStage {
                    tree,
                    temperature,
                    humidity,
                    continentalness,
                    erosion,
                    depth,
                    weirdness,
                    min_y,
                    height,
                };
                proof {
                    assert(shares(r.nodes(), inputs));
                    assert(r.nodes().map_values(|n: Node| func_of(n)) =~= six_climates(named_funcs(router@)).unwrap());
                }
                Ok(r)
            },
            _ => Err(LoadError::MissingField),
        }
    }

    /// Whether every function can be evaluated.
    pub fn is_sound(&self) -> (r: bool)
        ensures
            r == self.sound(),
    {
        let r: bool = self.temperature.is_sound() && self.humidity.is_sound() && self.continentalness.is_sound()
            && self.erosion.is_sound() && self.depth.is_sound() && self.weirdness.is_sound();
        proof {
            let n = self.nodes();
            if r {
                assert(self.sound());
            } else if self.sound() {
                assert(sound(n[0]) && sound(n[1]) && sound(n[2]) && sound(n[3]) && sound(n[4]) && sound(n[5]));
            }
        }
        r
    }

    fn climate_at<F: Fn(Ask) -> u64>(
        n: &Node, x: i32, y: i32, z: i32, pc: &mut PointCache, f: &F, Ghost(inputs): Ghost<Map<usize, Node>>,
    ) -> (r: i64)
        requires
            answers(*f),
            sound(*n),
            agrees(*n, inputs),
            old(pc).wf(),
            truthful(*f, old(pc)@, inputs),
            old(pc)@.slabs == Seq::<Slab>::empty(),
        ensures
            r == quantized(*f, value_at(*f, *n, x, y, z, blank())),
            final(pc).wf(),
            truthful(*f, final(pc)@, inputs),
            final(pc)@.slabs == Seq::<Slab>::empty(),
    {
        let v: u32 = n.eval_with(x, y, z, Mode::Point, pc, f);
        proof {
            law_cache_is_neutral(*f, *n, x, y, z, old(pc)@, inputs);
            assert(fresh(old(pc)@) == fresh(blank()));
        }
        quantize_coord(v, f)
    }

    /// The climate at a block.
    pub open spec fn climate<F: Fn(Ask) -> u64>(&self, f: F, x: i32, y: i32, z: i32) -> Seq<i64> {
        Seq::new(7, |i: int| if i < 6 { quantized(f, value_at(f, self.nodes()[i], x, y, z, blank())) } else { 0 })
    }

    fn node_at(&self, i: usize) -> (r: &Node)
        requires
            i < 6,
        ensures
            *r == self.nodes()[i as int],
    {
        if i == 0 {
            &*self.temperature
        } else if i == 1 {
            &*self.humidity
        } else if i == 2 {
            &*self.continentalness
        } else if i == 3 {
            &*self.erosion
        } else if i == 4 {
            &*self.depth
        } else {
            &*self.weirdness
        }
    }

    fn climate_of<F: Fn(Ask) -> u64>(&self, x: i32, y: i32, z: i32, f: &F) -> (target: [i64; 7])
        requires
            answers(*f),
            self.wf(),
            self.sound(),
        ensures
            target@ == self.climate(*f, x, y, z),
    {
        let ghost inputs = choose|inputs: Map<usize, Node>| #[trigger] shares(self.nodes(), inputs);
        let mut pc = PointCache::new();
        let mut target: [i64; 7] = [0;7];
        let mut i: usize = 0;
        while i < 6
            invariant
                i <= 6,
                answers(*f),
                self.sound(),
                shares(self.nodes(), inputs),
                pc.wf(),
                truthful(*f, pc@, inputs),
                pc@.slabs == Seq::<Slab>::empty(),
                forall|k: int| 0 <= k < i ==> #[trigger] target@[k] == self.climate(*f, x, y, z)[k],
                target@[6] == 0,
            decreases 6 - i,
        {
            proof {
                assert(sound(self.nodes()[i as int]));
                assert(agrees(self.nodes()[i as int], inputs));
            }
            let v: i64 = BiomeStage::climate_at(self.node_at(i), x, y, z, &mut pc, f, Ghost(inputs));
            target[i] = v;
            i += 1;
        }
        proof { assert(target@ =~= self.climate(*f, x, y, z)); }
        target
    }

    /// The biome of a quart: one climate sample and one search. Nothing
    /// where the climate lies so far out that the search ends with no box.
    pub fn biome_at_quart<F: Fn(Ask) -> u64>(&self, quart_x: i32, quart_y: i32, quart_z: i32, f: &F) -> (r: Option<u16>)
        requires
            answers(*f),
            self.wf(),
            self.sound(),
        ensures
            ({
                let t = self.climate(*f, wrapped(quart_x * 4), wrapped(quart_y * 4), wrapped(quart_z * 4));
                match found(self.regions(), tree_over(self.regions()), t, None) {
                    Some(l) => 0 <= l < self.biomes().len() && r == Some(self.biomes()[l]),
                    None => r is None,
                }
            }),
    {
        let (x, y, z): (i32, i32, i32) = (wrap(quart_x as i128 * 4), wrap(quart_y as i128 * 4), wrap(quart_z as i128 * 4));
        let target: [i64; 7] = self.climate_of(x, y, z, f);
        proof { self.tree.lemma_counts(); }
        match self.tree.find(&target, None) {
            Some(leaf) => Some(self.tree.value(leaf)),
            None => None,
        }
    }
}

/// Functions share their caches' inputs.
pub open spec fn shares(n: Seq<Node>, inputs: Map<usize, Node>) -> bool {
    forall|i: int| 0 <= i < n.len() ==> agrees(#[trigger] n[i], inputs)
}

/// The `k`-th lookup's biome stands at its place.
pub open spec fn settled<F: Fn(Ask) -> u64>(
    f: F, regions: Seq<Seq<Parameter>>, biomes: Seq<u16>, s: Seq<Seq<u32>>, v: Lattice, out: Seq<u16>, k: int,
) -> bool {
    lookups(f, regions, s, v, (k + 1) as nat) matches Some(l) && 0 <= l < biomes.len() && out[lookup_place(v, k)] == biomes[l]
}

/// No lookup goes to a place.
pub open spec fn untouched(v: Lattice, n: int, i: int) -> bool {
    forall|k: int| 0 <= k < n ==> #[trigger] lookup_place(v, k) != i
}

/// Lookups go to places of their own, inside the chunk.
proof fn lemma_lookup(v: Lattice, k: int)
    requires
        v.sx == 4,
        v.sz == 4,
        0 <= k < (v.sy / 4) * 64,
    ensures
        0 <= lookup_place(v, k) < v.count(),
        lookup_place(v, k) % v.sy == (k / 64) * 4 + (k / 4) % 4,
        lookup_place(v, k) / v.sy == (k / 16) % 4 + (k % 4) * 4,
        0 <= lookup_column(k) < 16,
{
    reveal(lookup_place);
    let (x, y, z) = ((k / 16) % 4, (k / 64) * 4 + (k / 4) % 4, k % 4);
    assert(0 <= y < v.sy);
    vstd::arithmetic::div_mod::lemma_fundamental_div_mod_converse(y + (x + z * 4) * v.sy, v.sy, x + z * 4, y);
    assert(0 <= (x + z * 4) * v.sy && y + (x + z * 4) * v.sy < 16 * v.sy) by (nonlinear_arith)
        requires
            0 <= x + z * 4 <= 15,
            0 <= y < v.sy,
    ;
    assert(4 * v.sy * 4 == 16 * v.sy);
}

proof fn lemma_digits(k: int)
    requires
        k >= 0,
    ensures
        k == (k / 64) * 64 + ((k / 16) % 4) * 16 + ((k / 4) % 4) * 4 + k % 4,
{
    assert(k / 16 == (k / 64) * 4 + (k / 16) % 4);
    assert(k / 4 == (k / 16) * 4 + (k / 4) % 4);
    assert(k == (k / 4) * 4 + k % 4);
}

proof fn lemma_lookups_apart(v: Lattice, a: int, b: int)
    requires
        v.sx == 4,
        v.sz == 4,
        0 <= a < (v.sy / 4) * 64,
        0 <= b < (v.sy / 4) * 64,
        lookup_place(v, a) == lookup_place(v, b),
    ensures
        a == b,
{
    lemma_lookup(v, a);
    lemma_lookup(v, b);
    lemma_digits(a);
    lemma_digits(b);
    let (ya, yb) = (lookup_place(v, a) % v.sy, lookup_place(v, b) % v.sy);
    assert(ya == yb);
    assert(ya / 4 == a / 64 && ya % 4 == (a / 4) % 4);
    assert(yb / 4 == b / 64 && yb % 4 == (b / 4) % 4);
    assert((a / 16) % 4 == (b / 16) % 4 && a % 4 == b % 4);
}

/// A lookup reads its climate where its biome goes: the column that its
/// place lies in, at the foot of it, and the depth at the place itself. The
/// climate has temperature, humidity, continentalness and erosion first, and
/// weirdness after the depth.
pub proof fn law_lookups_read_their_own_place<F: Fn(Ask) -> u64>(f: F, s: Seq<Seq<u32>>, v: Lattice, k: int)
    requires
        v.sx == 4,
        v.sz == 4,
        0 <= k < (v.sy / 4) * 64,
    ensures
        ({
            let (at, t) = (lookup_place(v, k), lookup_target(f, s, v, k));
            let foot = (at / v.sy) * v.sy;
            &&& 0 <= at < 16 * v.sy
            &&& t.len() == 7
            &&& t[0] == quantized(f, s[0][foot]) && t[1] == quantized(f, s[1][foot]) && t[2] == quantized(f, s[2][foot])
            &&& t[3] == quantized(f, s[3][foot]) && t[4] == quantized(f, s[4][at]) && t[5] == quantized(f, s[5][foot]) && t[6] == 0
        }),
{
    lemma_lookup(v, k);
    reveal(column_climate);
    reveal(lookup_depth);
    let n = lookup_column(k);
    assert(lookup_place(v, k) / v.sy == n);
    assert(n % 4 + (n / 4) * 4 == n);
    assert(v.place(n % 4, 0, n / 4) == n * v.sy);
    assert(4 * v.sy * 4 == 16 * v.sy);
}

/// The memos of sixteen columns, each for its climate.
#[verifier::opaque]
spec fn ready_columns<F: Fn(Ask) -> u64>(tree: RTree, columns: Seq<ColumnSearch>, f: F, sv: Seq<Seq<u32>>, v: Lattice) -> bool {
    &&& columns.len() == 16
    &&& forall|c: int|
        0 <= c < 16 ==> tree.ready(#[trigger] columns[c]) && columns[c].column_target() == column_climate(f, sv, v, c)
}

impl BiomeStage {
    /// The quarts of a chunk.
    pub open spec fn quarts(&self, chunk_x: i32, chunk_z: i32) -> Lattice {
        Lattice {
            sx: 4,
            sy: self.extent().1 as int / 4,
            sz: 4,
            x: chunk_x * 16,
            y: self.extent().0 as int,
            z: chunk_z * 16,
            tx: 4,
            ty: 4,
            tz: 4,
        }
    }

    /// Every climate function can be sampled over a chunk.
    pub open spec fn fits(&self) -> bool {
        let q = self.extent().1 as int / 4;
        forall|i: int| 0 <= i < 6 ==> affordable(#[trigger] self.nodes()[i], (4, q, 4), (4, 4, 4))
    }

    /// Whether every climate function can be sampled over a chunk.
    pub fn is_affordable(&self) -> (r: bool)
        requires
            self.sound(),
            self.extent().1 >= 4,
        ensures
            r == self.fits(),
    {
        let q: u128 = (self.height / 4) as u128;
        let mut i: usize = 0;
        while i < 6
            invariant
                i <= 6,
                self.sound(),
                q == self.extent().1 as int / 4,
                forall|k: int| 0 <= k < i ==> affordable(#[trigger] self.nodes()[k], (4, q as int, 4), (4, 4, 4)),
            decreases 6 - i,
        {
            proof { assert(sound(self.nodes()[i as int])); }
            if !self.node_at(i).is_affordable((4, q, 4), (4, 4, 4)) {
                proof { assert(!affordable(self.nodes()[i as int], (4, q as int, 4), (4, 4, 4))); }
                return false;
            }
            i += 1;
        }
        true
    }

    /// The biome index per quart of a chunk, along y, then x, then z.
    /// Lookups go section by section, along x, y and z, and each starts
    /// from the one before. Nothing where the climate of the first lies so
    /// far out that its search ends with no box; quarts above the last whole
    /// section are left at zero.
    pub fn chunk_biomes<F: Fn(Ask) -> u64>(&self, chunk_x: i32, chunk_z: i32, f: &F) -> (r: Option<Vec<u16>>)
        requires
            answers(*f),
            self.wf(),
            self.sound(),
            self.fits(),
            self.extent().1 >= 4,
            i32::MIN <= chunk_x * 16 <= i32::MAX,
            i32::MIN <= chunk_z * 16 <= i32::MAX,
        ensures
            ({
                let v = self.quarts(chunk_x, chunk_z);
                let s = samples(*f, self.nodes(), v, 6).0;
                let n = (v.sy / 4) * 64;
                &&& r is None <==> n > 0 && lookups(*f, self.regions(), s, v, 1) is None
                &&& r matches Some(b) ==> {
                    &&& b@.len() == v.count()
                    &&& forall|k: int|
                        0 <= k < n ==> #[trigger] settled(*f, self.regions(), self.biomes(), s, v, b@, k)
                    &&& forall|i: int| 0 <= i < b@.len() && untouched(v, n, i) ==> #[trigger] b@[i] == 0
                }
            }),
    {
        let q: usize = (self.height / 4) as usize;
        let size: [usize; 3] = [4, q, 4];
        let min: [i32; 3] = [chunk_x * 16, self.min_y, chunk_z * 16];
        let step: [i32; 3] = [4, 4, 4];
        let vol = Volume::new(size, min, step);
        let ghost v = self.quarts(chunk_x, chunk_z);
        proof { assert(lattice(vol) == v); }
        let s: Vec<Vec<u32>> = self.sample_all(&vol, f);
        let ghost sv = samples(*f, self.nodes(), v, 6).0;
        let total: usize = s[0].len();
        let columns: Vec<ColumnSearch> = self.start_columns(&vol, &s, f, Ghost(sv));
        self.look_up(&vol, &s[4], columns, f, Ghost(sv))
    }

    fn sample_all<F: Fn(Ask) -> u64>(&self, vol: &Volume, f: &F) -> (r: Vec<Vec<u32>>)
        requires
            answers(*f),
            self.sound(),
            self.fits(),
            vol.wf(),
            vol.size@[0] == 4 && vol.size@[1] == self.extent().1 as int / 4 && vol.size@[2] == 4,
            steps(*vol) == (4int, 4int, 4int),
        ensures
            r@.len() == 6,
            samples(*f, self.nodes(), lattice(*vol), 6).0.len() == 6,
            forall|i: int| 0 <= i < 6 ==> (#[trigger] r@[i])@ == samples(*f, self.nodes(), lattice(*vol), 6).0[i],
            forall|i: int| 0 <= i < 6 ==> (#[trigger] r@[i])@.len() == vol.count(),
            vol.fits(),
    {
        let mut ctx = SampleCtx::default();
        let mut r: Vec<Vec<u32>> = Vec::new();
        let ghost v = lattice(*vol);
        let mut i: usize = 0;
        proof { assert(affordable(self.nodes()[0], (4, vol.size@[1] as int, 4), (4, 4, 4))); }
        while i < 6
            invariant
                i <= 6,
                answers(*f),
                self.sound(),
                self.fits(),
                vol.wf(),
                v == lattice(*vol),
                vol.size@[0] == 4 && vol.size@[1] == self.extent().1 as int / 4 && vol.size@[2] == 4,
                steps(*vol) == (4int, 4int, 4int),
                ctx.wf(),
                r@.len() == i,
                samples(*f, self.nodes(), v, i as nat).0.len() == i,
                samples(*f, self.nodes(), v, i as nat).1 == ctx@,
                forall|k: int| 0 <= k < i ==> (#[trigger] r@[k])@ == samples(*f, self.nodes(), v, i as nat).0[k],
                forall|k: int| 0 <= k < i ==> (#[trigger] r@[k])@.len() == vol.count(),
            decreases 6 - i,
        {
            proof {
                assert(sound(self.nodes()[i as int]));
                assert(affordable(self.nodes()[i as int], (4, vol.size@[1] as int, 4), (4, 4, 4)));
            }
            let b: Vec<u32> = self.node_at(i).sample_volume_with(vol, &mut ctx, f);
            r.push(b);
            i += 1;
        }
        r
    }

    fn start_columns<F: Fn(Ask) -> u64>(&self, vol: &Volume, s: &Vec<Vec<u32>>, f: &F, Ghost(sv): Ghost<Seq<Seq<u32>>>) -> (cols: Vec<ColumnSearch>)
        requires
            answers(*f),
            self.wf(),
            vol.fits(),
            vol.size@[0] == 4 && vol.size@[2] == 4,
            s@.len() == 6 && sv.len() == 6,
            forall|i: int| 0 <= i < 6 ==> (#[trigger] s@[i])@ == sv[i],
            forall|i: int| 0 <= i < 6 ==> (#[trigger] s@[i])@.len() == vol.count(),
        ensures
            cols@.len() == 16,
            forall|c: int|
                0 <= c < 16 ==> self.tree.ready(#[trigger] cols@[c]) && cols@[c].column_target() == column_climate(
                    *f, sv, lattice(*vol), c),
    {
        let ghost v = lattice(*vol);
        let mut cols: Vec<ColumnSearch> = Vec::new();
        let mut n: usize = 0;
        while n < 16
            invariant
                n <= 16,
                answers(*f),
                self.wf(),
                vol.fits(),
                v == lattice(*vol),
                vol.size@[0] == 4 && vol.size@[2] == 4,
                s@.len() == 6 && sv.len() == 6,
                forall|i: int| 0 <= i < 6 ==> (#[trigger] s@[i])@ == sv[i],
                forall|i: int| 0 <= i < 6 ==> (#[trigger] s@[i])@.len() == vol.count(),
                cols@.len() == n,
                forall|c: int|
                    0 <= c < n ==> self.tree.ready(#[trigger] cols@[c]) && cols@[c].column_target() == column_climate(*f, sv, v, c),
            decreases 16 - n,
        {
            let i: usize = vol.index(n % 4, 0, n / 4);
            proof {
                assert(s@[0]@ == sv[0] && s@[1]@ == sv[1] && s@[2]@ == sv[2] && s@[3]@ == sv[3] && s@[5]@ == sv[5]);
            }
            let target: [i64; 7] = [
                quantize_coord(s[0][i], f),
                quantize_coord(s[1][i], f),
                quantize_coord(s[2][i], f),
                quantize_coord(s[3][i], f),
                0,
                quantize_coord(s[5][i], f),
                0,
            ];
            proof {
                reveal(column_climate);
                assert(target@ =~= column_climate(*f, sv, v, n as int));
            }
            let mut col = ColumnSearch::default();
            self.tree.column(&target, &mut col);
            cols.push(col);
            n += 1;
        }
        cols
    }

    /// One lookup with the memo of its column.
    fn look_one<F: Fn(Ask) -> u64>(
        &self, columns: &mut Vec<ColumnSearch>, c: usize, depth: i64, last: Option<usize>, f: &F,
        Ghost(g): Ghost<(Seq<Seq<u32>>, Lattice)>,
    ) -> (leaf: Option<usize>)
        requires
            self.tree.wf(),
            c < 16,
            last matches Some(l) ==> l < self.regions().len(),
            ready_columns(self.tree, old(columns)@, *f, g.0, g.1),
        ensures
            ready_columns(self.tree, final(columns)@, *f, g.0, g.1),
            found(
                self.regions(), tree_over(self.regions()), column_climate(*f, g.0, g.1, c as int).update(4, depth), number(last),
            ) == number(leaf),
            leaf matches Some(l) ==> l < self.regions().len(),
    {
        proof { reveal(ready_columns); }
        let ghost before = columns@;
        let mut col = columns.remove(c);
        proof { assert(col == before[c as int]); }
        let leaf: Option<usize> = self.tree.find_in_column(&mut col, depth, last);
        columns.insert(c, col);
        proof {
            assert forall|m: int| 0 <= m < 16 implies self.tree.ready(#[trigger] columns@[m]) && columns@[m].column_target()
                == column_climate(*f, g.0, g.1, m) by {
                if m != c {
                    assert(columns@[m] == before[m]);
                }
            }
        }
        leaf
    }

    fn look_up<F: Fn(Ask) -> u64>(&self, vol: &Volume, depths: &Vec<u32>, given: Vec<ColumnSearch>, f: &F, Ghost(sv): Ghost<Seq<Seq<u32>>>) -> (r: Option<Vec<u16>>)
        requires
            answers(*f),
            self.wf(),
            vol.fits(),
            vol.size@[0] == 4 && vol.size@[2] == 4,
            sv.len() == 6,
            depths@ == sv[4],
            depths@.len() == vol.count(),
            given@.len() == 16,
            forall|c: int|
                0 <= c < 16 ==> self.tree.ready(#[trigger] given@[c]) && given@[c].column_target() == column_climate(
                    *f, sv, lattice(*vol), c),
        ensures
            ({
                let v = lattice(*vol);
                let n = (v.sy / 4) * 64;
                &&& r is None <==> n > 0 && lookups(*f, self.regions(), sv, v, 1) is None
                &&& r matches Some(b) ==> {
                    &&& b@.len() == v.count()
                    &&& forall|k: int|
                        0 <= k < n ==> #[trigger] settled(*f, self.regions(), self.biomes(), sv, v, b@, k)
                    &&& forall|i: int| 0 <= i < b@.len() && untouched(v, n, i) ==> #[trigger] b@[i] == 0
                }
            }),
    {
        let ghost v = lattice(*vol);
        let ghost n = (v.sy / 4) * 64;
        let mut columns: Vec<ColumnSearch> = given;
        let count: usize = vol.len();
        let mut out: Vec<u16> = Vec::new();
        let mut j: usize = 0;
        while j < count
            invariant
                j <= count,
                out@.len() == j,
                forall|i: int| 0 <= i < j ==> #[trigger] out@[i] == 0,
            decreases count - j,
        {
            out.push(0);
            j += 1;
        }
        proof {
            reveal(ready_columns);
            assert(ready_columns(self.tree, columns@, *f, sv, v));
            self.tree.lemma_counts();
            assert(v.sx * v.sy * v.sz == 16 * v.sy) by (nonlinear_arith)
                requires
                    v.sx == 4,
                    v.sz == 4,
            ;
        }
        let total: usize = (vol.size[1] / 4) * 64;
        let mut last: Option<usize> = None;
        let mut k: usize = 0;
        while k < total
            invariant
                k <= total,
                total == n,
                n == (v.sy / 4) * 64,
                answers(*f),
                self.wf(),
                vol.fits(),
                v == lattice(*vol),
                vol.size@[0] == 4 && vol.size@[2] == 4,
                sv.len() == 6,
                depths@ == sv[4],
                depths@.len() == vol.count(),
                self.biomes().len() == self.regions().len(),
                ready_columns(self.tree, columns@, *f, sv, v),
                last matches Some(l) ==> l < self.regions().len(),
                number(last) == lookups(*f, self.regions(), sv, v, k as nat),
                out@.len() == v.count(),
                k > 0 ==> last is Some && lookups(*f, self.regions(), sv, v, 1) is Some,
                forall|m: int| 0 <= m < k ==> #[trigger] settled(*f, self.regions(), self.biomes(), sv, v, out@, m),
                forall|i: int| 0 <= i < out@.len() && untouched(v, n, i) ==> #[trigger] out@[i] == 0,
            decreases total - k,
        {
            let (x, y, z): (usize, usize, usize) = ((k / 16) % 4, (k / 64) * 4 + (k / 4) % 4, k % 4);
            proof { lemma_lookup(v, k as int); }
            let i: usize = vol.index(x, y, z);
            proof {
                assert(i == lookup_place(v, k as int)) by {
                    reveal(lookup_place);
                }
            }
            let depth: i64 = quantize_coord(depths[i], f);
            proof {
                assert(depth == lookup_depth(*f, sv, v, k as int)) by {
                    reveal(lookup_depth);
                }
            }
            let c: usize = x + z * 4;
            let here: Option<usize> = self.look_one(&mut columns, c, depth, last, f, Ghost((sv, v)));
            proof {
                assert(column_climate(*f, sv, v, c as int).update(4, depth) == lookup_target(*f, sv, v, k as int));
                assert(lookups(*f, self.regions(), sv, v, (k + 1) as nat) == number(here));
                if k > 0 {
                    self.tree.lemma_counts();
                    law_search_finds(self.regions(), lookup_target(*f, sv, v, k as int), number(last));
                }
            }
            let leaf: usize = match here {
                Some(leaf) => leaf,
                None => return None,
            };
            let ghost placed = out@;
            out.set(i, self.tree.value(leaf));
            proof {
                assert forall|m: int| 0 <= m < k + 1 implies #[trigger] settled(
                    *f, self.regions(), self.biomes(), sv, v, out@, m) by {
                    if m < k {
                        assert(settled(*f, self.regions(), self.biomes(), sv, v, placed, m));
                        if lookup_place(v, m) == lookup_place(v, k as int) {
                            lemma_lookups_apart(v, m, k as int);
                        }
                        lemma_lookup(v, m);
                    }
                }
                assert forall|e: int| 0 <= e < out@.len() && untouched(v, n, e) implies #[trigger] out@[e] == 0 by {
                    assert(lookup_place(v, k as int) != e);
                    assert(out@[e] == placed[e]);
                }
            }
            last = Some(leaf);
            k += 1;
        }
        Some(out)
    }
}

} // verus!
