//! Sampling volumes: boxes of blocks on a step lattice, and floor division.

use vstd::prelude::*;

verus! {

/// Floor division by a positive number.
pub fn floor_div(a: i32, m: i32) -> (r: i32)
    requires
        m > 0,
    ensures
        r == a as int / m as int,
{
    if a >= 0 {
        a / m
    } else {
        let up: i64 = -(a as i64) + m as i64 - 1;
        proof { lemma_floor_negative(a as int, m as int); }
        (-(up / m as i64)) as i32
    }
}

/// The remainder of floor division by a positive number.
pub fn floor_mod(a: i32, m: i32) -> (r: i32)
    requires
        m > 0,
    ensures
        r == a as int % m as int,
{
    let q: i64 = floor_div(a, m) as i64;
    proof {
        vstd::arithmetic::div_mod::lemma_fundamental_div_mod(a as int, m as int);
        assert(q * m == m * q) by (nonlinear_arith);
        assert(-0x8000_0000 * 0x8000_0000 <= q * m <= 0x8000_0000 * 0x8000_0000) by (nonlinear_arith)
            requires -0x8000_0000 <= q <= 0x8000_0000, 0 < m <= 0x7fff_ffff;
    }
    (a as i64 - q * m as i64) as i32
}

proof fn lemma_floor_negative(a: int, m: int)
    requires
        a < 0,
        m > 0,
    ensures
        -((-a + m - 1) / m) == a / m,
        a <= a / m,
        a / m < 0,
{
    vstd::arithmetic::div_mod::lemma_fundamental_div_mod(a, m);
    vstd::arithmetic::div_mod::lemma_fundamental_div_mod(-a + m - 1, m);
    let q = a / m;
    let p = (-a + m - 1) / m;
    assert(-p == q) by (nonlinear_arith)
        requires
            a == m * q + a % m,
            0 <= a % m < m,
            -a + m - 1 == m * p + (-a + m - 1) % m,
            0 <= (-a + m - 1) % m < m,
    ;
    assert(a <= q && q < 0) by (nonlinear_arith)
        requires
            a < 0,
            m > 0,
            a == m * q + a % m,
            0 <= a % m < m,
    ;
}

/// A sampling volume: element counts, first block and step per axis.
#[derive(Clone, Copy, Debug, PartialEq, Eq, Hash)]
pub struct Volume {
    pub size: [usize; 3],
    pub min: [i32; 3],
    pub step: [i32; 3],
}

impl Volume {
    /// Every count and every step is positive.
    pub open spec fn wf(self) -> bool {
        &&& self.size@[0] > 0 && self.size@[1] > 0 && self.size@[2] > 0
        &&& self.step@[0] > 0 && self.step@[1] > 0 && self.step@[2] > 0
    }

    /// How many elements there are.
    pub open spec fn count(self) -> int {
        self.size@[0] * self.size@[1] * self.size@[2]
    }

    /// The element count fits a machine word.
    pub open spec fn fits(self) -> bool {
        self.wf() && self.count() <= usize::MAX
    }

    /// The block of a position along an axis.
    pub open spec fn block_of(self, axis: int, i: int) -> int {
        self.min@[axis] + i * self.step@[axis]
    }

    /// The last block along an axis.
    pub open spec fn last_block(self, axis: int) -> int {
        self.min@[axis] + self.size@[axis] * self.step@[axis] - 1
    }

    /// Every block of the volume is a block of the world.
    pub open spec fn in_world(self) -> bool {
        &&& self.last_block(0) <= i32::MAX
        &&& self.last_block(1) <= i32::MAX
        &&& self.last_block(2) <= i32::MAX
    }

    /// The position of an element in a buffer: z slowest, then x, then y.
    pub open spec fn place(self, x: int, y: int, z: int) -> int {
        y + (x + z * self.size@[0]) * self.size@[1]
    }

    pub open spec fn inside(self, x: int, y: int, z: int) -> bool {
        &&& 0 <= x < self.size@[0]
        &&& 0 <= y < self.size@[1]
        &&& 0 <= z < self.size@[2]
    }

    /// Every element has a place of its own in the buffer.
    pub proof fn lemma_place(self, x: int, y: int, z: int)
        requires
            self.inside(x, y, z),
        ensures
            0 <= self.place(x, y, z) < self.count(),
            0 <= z * self.size@[0],
            0 <= x + z * self.size@[0] < self.size@[0] * self.size@[2],
            0 <= (x + z * self.size@[0]) * self.size@[1],
            self.size@[0] * self.size@[2] <= self.count(),
            self.place(x, y, z) / self.size@[1] as int == x + z * self.size@[0],
            self.place(x, y, z) % self.size@[1] as int == y,
    {
        let sx = self.size@[0] as int;
        let sy = self.size@[1] as int;
        let sz = self.size@[2] as int;
        let col = x + z * sx;
        assert(0 <= z * sx && z * sx + sx <= sx * sz) by (nonlinear_arith)
            requires
                0 <= z < sz,
                sx > 0,
        ;
        assert(0 <= col * sy && col * sy + sy <= (sx * sz) * sy) by (nonlinear_arith)
            requires
                0 <= col < sx * sz,
                sy > 0,
        ;
        assert((sx * sz) * sy == sx * sy * sz) by (nonlinear_arith);
        assert(sx * sz <= (sx * sz) * sy) by (nonlinear_arith)
            requires
                sx * sz >= 0,
                sy >= 1,
        ;
        vstd::arithmetic::div_mod::lemma_fundamental_div_mod_converse(y + col * sy, sy, col, y);
    }

    /// A volume of `size` elements from `min` on, `step` apart.
    pub fn new(size: [usize; 3], min: [i32; 3], step: [i32; 3]) -> (r: Volume)
        requires
            size@[0] > 0 && size@[1] > 0 && size@[2] > 0,
            step@[0] > 0 && step@[1] > 0 && step@[2] > 0,
        ensures
            r == (Volume { size, min, step }),
            r.wf(),
    {
        Volume { size, min, step }
    }

    /// Every block of a chunk from `min_y` up.
    pub fn chunk(chunk_x: i32, chunk_z: i32, min_y: i32, height: i32) -> (r: Volume)
        requires
            height > 0,
            i32::MIN <= chunk_x * 16 <= i32::MAX,
            i32::MIN <= chunk_z * 16 <= i32::MAX,
        ensures
            r.wf(),
            r.size@ == seq![16usize, height as usize, 16usize],
            r.min@ == seq![(chunk_x * 16) as i32, min_y, (chunk_z * 16) as i32],
            r.step@ == seq![1i32, 1i32, 1i32],
    {
        Volume::new([16, height as usize, 16], [chunk_x * 16, min_y, chunk_z * 16], [1, 1, 1])
    }

    /// How many elements there are.
    pub fn len(&self) -> (r: usize)
        requires
            self.fits(),
        ensures
            r == self.count(),
    {
        let ghost (a, b, c) = (self.size@[0] as int, self.size@[1] as int, self.size@[2] as int);
        proof {
            assert(a * b <= a * b * c && 0 <= a * b) by (nonlinear_arith)
                requires
                    a > 0,
                    b > 0,
                    c >= 1,
            ;
        }
        self.size[0] * self.size[1] * self.size[2]
    }

    /// Never true of a volume that was made by [`Volume::new`].
    pub fn is_empty(&self) -> (r: bool)
        requires
            self.fits(),
        ensures
            r == (self.count() == 0),
    {
        self.len() == 0
    }

    /// The place of an element in a buffer.
    pub fn index(&self, x: usize, y: usize, z: usize) -> (r: usize)
        requires
            self.fits(),
            self.inside(x as int, y as int, z as int),
        ensures
            r == self.place(x as int, y as int, z as int),
            r < self.count(),
    {
        proof { self.lemma_place(x as int, y as int, z as int); }
        y + (x + z * self.size[0]) * self.size[1]
    }

    /// The block of a position along an axis.
    pub fn block(&self, axis: usize, i: usize) -> (r: i32)
        requires
            axis < 3,
            self.wf(),
            i < self.size@[axis as int],
            self.last_block(axis as int) <= i32::MAX,
        ensures
            r == self.block_of(axis as int, i as int),
    {
        let ghost s = self.step@[axis as int] as int;
        let ghost n = self.size@[axis as int] as int;
        proof {
            assert(0 <= i * s && i * s + s <= n * s && i <= i * s) by (nonlinear_arith)
                requires
                    0 <= i < n,
                    s >= 1,
            ;
        }
        let d: i64 = i as i64 * self.step[axis] as i64;
        (self.min[axis] as i64 + d) as i32
    }

    /// The last block along an axis.
    pub fn max_block(&self, axis: usize) -> (r: i32)
        requires
            axis < 3,
            self.wf(),
            self.last_block(axis as int) <= i32::MAX,
        ensures
            r == self.last_block(axis as int),
    {
        let ghost s = self.step@[axis as int] as int;
        let ghost n = self.size@[axis as int] as int;
        proof {
            assert(n <= n * s) by (nonlinear_arith)
                requires
                    n > 0,
                    s >= 1,
            ;
        }
        let d: i64 = self.size[axis] as i64 * self.step[axis] as i64;
        (self.min[axis] as i64 + d - 1) as i32
    }

    /// Same x/z extent and step, and `other`'s rows lie on this volume's y
    /// lattice.
    pub open spec fn holds_rows(self, other: Volume) -> bool {
        &&& self.step@ == other.step@
        &&& self.min@[0] == other.min@[0]
        &&& self.min@[2] == other.min@[2]
        &&& self.size@[0] == other.size@[0]
        &&& self.size@[2] == other.size@[2]
        &&& other.min@[1] >= self.min@[1]
        &&& (other.min@[1] - self.min@[1]) % (self.step@[1] as int) == 0
        &&& other.last_block(1) <= self.last_block(1)
    }

    pub fn covers_rows(&self, other: &Volume) -> (r: bool)
        requires
            self.wf(),
            other.wf(),
            self.last_block(1) <= i32::MAX,
            other.last_block(1) <= i32::MAX,
        ensures
            r == self.holds_rows(*other),
    {
        if self.step[0] != other.step[0] || self.step[1] != other.step[1] || self.step[2] != other.step[2] {
            return false;
        }
        proof { assert(self.step@ =~= other.step@); }
        self.min[0] == other.min[0] && self.min[2] == other.min[2] && self.size[0] == other.size[0] && self.size[2]
            == other.size[2] && other.min[1] >= self.min[1] && (other.min[1] as i64 - self.min[1] as i64) % (
        self.step[1] as i64) == 0 && other.max_block(1) <= self.max_block(1)
    }

    /// A coordinate lies on the lattice of an axis.
    pub open spec fn on_lattice(self, axis: int, v: i32) -> bool {
        &&& v >= self.min@[axis]
        &&& (v - self.min@[axis]) % (self.step@[axis] as int) == 0
        &&& (v - self.min@[axis]) / (self.step@[axis] as int) < self.size@[axis]
    }

    /// The position of a coordinate along an axis.
    pub open spec fn position(self, axis: int, v: i32) -> int {
        (v - self.min@[axis]) / (self.step@[axis] as int)
    }

    /// The position of a coordinate along an axis, if it lies on the lattice.
    fn along(&self, axis: usize, v: i32) -> (r: Option<usize>)
        requires
            self.wf(),
            axis < 3,
        ensures
            r is Some <==> self.on_lattice(axis as int, v),
            r matches Some(i) ==> i == self.position(axis as int, v) && i < self.size@[axis as int],
    {
        if v < self.min[axis] {
            return None;
        }
        let rel: u64 = (v as i64 - self.min[axis] as i64) as u64;
        let step: u64 = self.step[axis] as u64;
        if rel % step != 0 {
            return None;
        }
        let i: u64 = rel / step;
        proof {
            assert(0 <= rel as int / step as int <= rel) by (nonlinear_arith)
                requires
                    step >= 1,
            ;
        }
        if i < self.size[axis] as u64 {
            Some(i as usize)
        } else {
            None
        }
    }

    /// The element holding this block, if the block lies on the volume's
    /// step lattice.
    pub fn index_of_block(&self, x: i32, y: i32, z: i32) -> (r: Option<usize>)
        requires
            self.fits(),
        ensures
            r is Some <==> self.on_lattice(0, x) && self.on_lattice(1, y) && self.on_lattice(2, z),
            r matches Some(i) ==> i == self.place(self.position(0, x), self.position(1, y), self.position(2, z)) && i
                < self.count(),
    {
        match (self.along(0, x), self.along(1, y), self.along(2, z)) {
            (Some(i), Some(j), Some(k)) => Some(self.index(i, j, k)),
            _ => None,
        }
    }

    /// The block positions of all elements, in buffer order.
    pub fn for_each(&self) -> (r: Vec<(i32, i32, i32)>)
        requires
            self.fits(),
            self.in_world(),
        ensures
            r@.len() == self.count(),
            forall|x: int, y: int, z: int|
                self.inside(x, y, z) ==> r@[#[trigger] self.place(x, y, z)] == (
                    self.block_of(0, x) as i32,
                    self.block_of(1, y) as i32,
                    self.block_of(2, z) as i32,
                ),
    {
        let n: usize = self.len();
        let rows: usize = self.size[1];
        let mut r: Vec<(i32, i32, i32)> = Vec::new();
        while r.len() < n
            invariant
                self.fits(),
                self.in_world(),
                n == self.count(),
                rows == self.size@[1],
                r@.len() <= n,
                forall|i: int| 0 <= i < r@.len() ==> #[trigger] r@[i] == self.element(i),
            decreases n - r.len(),
        {
            let i: usize = r.len();
            let col: usize = i / rows;
            let y: usize = i % rows;
            let z: usize = col / self.size[0];
            let x: usize = col % self.size[0];
            proof { self.lemma_element(i as int); }
            r.push((self.block(0, x), self.block(1, y), self.block(2, z)));
        }
        proof {
            assert forall|x: int, y: int, z: int| self.inside(x, y, z) implies r@[#[trigger] self.place(x, y, z)] == (
                self.block_of(0, x) as i32,
                self.block_of(1, y) as i32,
                self.block_of(2, z) as i32,
            ) by {
                self.lemma_place(x, y, z);
                vstd::arithmetic::div_mod::lemma_fundamental_div_mod_converse(
                    x + z * self.size@[0], self.size@[0] as int, z, x);
            }
        }
        r
    }

    /// The block position of the element at a place of the buffer.
    pub open spec fn element(self, i: int) -> (i32, i32, i32) {
        let col = i / (self.size@[1] as int);
        (
            self.block_of(0, col % (self.size@[0] as int)) as i32,
            self.block_of(1, i % (self.size@[1] as int)) as i32,
            self.block_of(2, col / (self.size@[0] as int)) as i32,
        )
    }

    proof fn lemma_element(self, i: int)
        requires
            self.wf(),
            0 <= i < self.count(),
        ensures
            self.inside(
                (i / (self.size@[1] as int)) % (self.size@[0] as int),
                i % (self.size@[1] as int),
                (i / (self.size@[1] as int)) / (self.size@[0] as int),
            ),
            0 <= i / (self.size@[1] as int) <= i,
    {
        let sx = self.size@[0] as int;
        let sy = self.size@[1] as int;
        let sz = self.size@[2] as int;
        vstd::arithmetic::div_mod::lemma_fundamental_div_mod(i, sy);
        let col = i / sy;
        vstd::arithmetic::div_mod::lemma_fundamental_div_mod(col, sx);
        assert((sx * sz) * sy == sx * sy * sz) by (nonlinear_arith);
        assert(0 <= col && col < sx * sz && col <= i) by (nonlinear_arith)
            requires
                i == sy * col + i % sy,
                0 <= i % sy < sy,
                0 <= i < (sx * sz) * sy,
                sy > 0,
        ;
        assert(0 <= col / sx && col / sx < sz) by (nonlinear_arith)
            requires
                col == sx * (col / sx) + col % sx,
                0 <= col % sx < sx,
                0 <= col < sx * sz,
                sx > 0,
        ;
    }
}

} // verus!
