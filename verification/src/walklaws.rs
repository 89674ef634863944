//! What walks carve: every step that is not left out, both parts of a split,
//! and the room that a cave starts with.

use vstd::prelude::*;
use vstd::arithmetic::power2::{lemma2_to64, lemma2_to64_rest};
use crate::arith::{holds, low, reply, Ask, HALF_32, ONE, ONE_32, THREE_HALVES};
use crate::beard26::SIX_32;
use crate::bitrandom::{below, single, LegacyRandomSource};
use crate::carvers26::{
    canyon_damping, cave_damping, girth, lemma_tunnelled_adds, lemma_walked_adds, parted, reachable, step_ellipsoid, strode, table_sin,
    thinner, tunnelled, walked, wide_drawn, CanyonCarver, Carver, CaveCarver, CaveStart, Cells, ChunkPos, Depths, Ellipsoid, Site, Skip,
    Stride, Tunnel, HALF_PI_32, MAX_DISTANCE, PI_32, TWO_PI_32,
};
use crate::df26::FOUR_32;
use crate::numbers::{
    correct, correct32, is32, is64, lemma_add32, lemma_add64, lemma_bits32, lemma_bits64, lemma_finer32, lemma_finer64, lemma_known32,
    lemma_known64, lemma_mul32, lemma_order32, lemma_shrink32, lemma_sub32, lemma_widen,
};
use crate::randomlaws::{law_bounded_draws_lie_below, law_sources_are_unsigned};
use crate::xoroshiro::TRIES;

verus! {

/// A step of a tunnel that is not drawn to be left out carves its ellipsoid,
/// and what was carved stays; from where its end is out of reach on, nothing
/// is carved.
pub proof fn law_tunnels_carve_their_steps<F: Fn(Ask) -> u64>(
    f: F, site: Site, s: Stride, split: int, steep: bool, current: int, dist: int, cells: Cells, splits: nat,
)
    requires
        current < dist,
        current != split || splits == 0,
    ensures
        ({
            let n = strode(f, s, cave_damping(steep));
            let e = step_ellipsoid(f, n.t, current, dist);
            let after = walked(f, site, s, split, steep, current, dist, cells, splits);
            let near = reachable(f, site.chunk, n.t.x, n.t.z, current, dist, n.t.thickness);
            &&& cells.subset_of(after)
            &&& below(n.random, 4).0 != 0 && near ==> e.carved(f, site.chunk, site.skip, site.bottom, site.top, cells).subset_of(after)
            &&& below(n.random, 4).0 != 0 && !near ==> after == cells
        }),
{
    lemma_walked_adds(f, site, s, split, steep, current, dist, cells, splits);
    let n = strode(f, s, cave_damping(steep));
    let (d, r) = below(n.random, 4);
    let next = Stride { random: r, ..n };
    if d != 0 && reachable(f, site.chunk, n.t.x, n.t.z, current, dist, n.t.thickness) {
        let e = step_ellipsoid(f, n.t, current, dist);
        lemma_walked_adds(
            f, site, next, split, steep, current + 1, dist,
            e.carved(f, site.chunk, site.skip, site.bottom, site.top, cells), splits);
    }
}

/// A tunnel that splits carves both of its parts: the one that turns one
/// way, and then the other.
pub proof fn law_tunnels_carve_both_parts<F: Fn(Ask) -> u64>(
    f: F, site: Site, s: Stride, steep: bool, current: int, dist: int, cells: Cells, splits: nat,
)
    requires
        current < dist,
        splits > 0,
        holds(f, Ask::Less32(ONE_32, s.t.thickness)),
    ensures
        ({
            let n = strode(f, s, cave_damping(steep));
            let (seed, r) = n.random.long();
            let (thick, u) = thinner(f, r);
            let first = tunnelled(f, site, seed, parted(f, n.t, thick, true), current, dist, cells, (splits - 1) as nat);
            let (other, v) = u.long();
            let second = tunnelled(
                f, site, other, parted(f, n.t, thinner(f, v).0, false), current, dist, first, (splits - 1) as nat);
            &&& first.subset_of(walked(f, site, s, current, steep, current, dist, cells, splits))
            &&& second.subset_of(walked(f, site, s, current, steep, current, dist, cells, splits))
        }),
{
    let n = strode(f, s, cave_damping(steep));
    let (seed, r) = n.random.long();
    let (thick, u) = thinner(f, r);
    let first = tunnelled(f, site, seed, parted(f, n.t, thick, true), current, dist, cells, (splits - 1) as nat);
    let (other, v) = u.long();
    lemma_tunnelled_adds(f, site, other, parted(f, n.t, thinner(f, v).0, false), current, dist, first, (splits - 1) as nat);
}

/// A cave in four starts with a room, which it carves.
pub proof fn law_caves_carve_their_room<F: Fn(Ask) -> u64>(
    f: F, c: CaveCarver, chunk: ChunkPos, source: ChunkPos, bottom: int, top: int, r: LegacyRandomSource, cells: Cells,
)
    requires
        below(c.started(f, source, r).1, 4).0 == 0,
    ensures
        ({
            let (start, s) = c.started(f, source, r);
            let e = c.room(f, start, below(s, 4).1).0;
            e.carved(f, chunk, Skip::Floor(start.floor), bottom, top, cells).subset_of(c.cave(f, chunk, source, bottom, top, r, cells).0)
        }),
{
    let (start, s) = c.started(f, source, r);
    let site = Site { chunk, skip: Skip::Floor(start.floor), bottom, top };
    let (e, u) = c.room(f, start, below(s, 4).1);
    let (more, v) = below(u, 4);
    c.lemma_tunnels_add(f, site, start, v, e.carved(f, chunk, site.skip, bottom, top, cells), (1 + more) as nat);
}

/// A step of a canyon that is not drawn to be left out carves an ellipsoid
/// around the end of the step, as wide as the canyon's girth by its factor.
pub proof fn law_canyons_carve_their_steps<F: Fn(Ask) -> u64>(
    f: F, c: CanyonCarver, site: Site, s: Stride, current: int, dist: int, cells: Cells,
)
    requires
        current < dist,
    ensures
        ({
            let g = girth(f, s.t.thickness, low(f, Ask::Mul32(low(f, Ask::FromInt32(current as i32)), PI_32)), dist);
            let (factor, a) = wide_drawn(f, c.shape.horizontal_radius_factor, s.random);
            let (tall, b) = c.tall_at(f, a, reply(f, Ask::Mul64(g, s.t.y_scale)), dist, current);
            let n = strode(f, Stride { random: b, ..s }, canyon_damping());
            let e = Ellipsoid { x: n.t.x, y: n.t.y, z: n.t.z, wide: reply(f, Ask::Mul64(g, factor)), tall };
            let after = c.walked(f, site, s, current, dist, cells);
            let near = reachable(f, site.chunk, n.t.x, n.t.z, current, dist, n.t.thickness);
            &&& cells.subset_of(after)
            &&& below(n.random, 4).0 != 0 && near ==> e.carved(f, site.chunk, site.skip, site.bottom, site.top, cells).subset_of(after)
            &&& below(n.random, 4).0 != 0 && !near ==> after == cells
        }),
{
    c.lemma_walked_adds(f, site, s, current, dist, cells);
    let g = girth(f, s.t.thickness, low(f, Ask::Mul32(low(f, Ask::FromInt32(current as i32)), PI_32)), dist);
    let (factor, a) = wide_drawn(f, c.shape.horizontal_radius_factor, s.random);
    let (tall, b) = c.tall_at(f, a, reply(f, Ask::Mul64(g, s.t.y_scale)), dist, current);
    let n = strode(f, Stride { random: b, ..s }, canyon_damping());
    let e = Ellipsoid { x: n.t.x, y: n.t.y, z: n.t.z, wide: reply(f, Ask::Mul64(g, factor)), tall };
    let next = Stride { random: below(n.random, 4).1, ..n };
    c.lemma_walked_adds(
        f, site, next, current + 1, dist, e.carved(f, site.chunk, site.skip, site.bottom, site.top, cells));
}

/// A carver starts in a chunk by chance: where what is drawn is above its
/// probability, it carves nothing; else it carves from the next draws on.
pub proof fn law_carvers_start_by_chance<F: Fn(Ask) -> u64>(
    f: F, c: Carver, chunk: ChunkPos, source: ChunkPos, bottom: int, top: int, d: Depths, r: LegacyRandomSource, cells: Cells, n: int,
    v: int,
)
    requires
        correct32(f),
        is32(single(f, r).0, v, 24),
        is32(c.probability(), n, 24),
    ensures
        v > n ==> c.carved(f, chunk, source, bottom, top, d, r, cells) == cells,
        v <= n ==> c.carved(f, chunk, source, bottom, top, d, r, cells) == match c {
            Carver::Cave(k) => k.carved(f, chunk, source, bottom, top, single(f, r).1, cells).0,
            Carver::Canyon(k) => k.carved(f, chunk, source, bottom, top, d.min_y, d.height, single(f, r).1, cells).0,
        },
{
    lemma_order32(f, single(f, r).0, c.probability(), v, n, 24);
}

/// A tunnel among the cells: it starts where the cave does, no steeper than
/// an eighth up or down, and goes from three quarters of the longest way to
/// all of it.
pub open spec fn has_tunnel<F: Fn(Ask) -> u64>(
    f: F, site: Site, c: CaveStart, t: Tunnel, seed: i64, dist: int, pitch: int, cells: Cells, after: Cells,
) -> bool {
    &&& t.x == c.x && t.y == c.y && t.z == c.z
    &&& t.wide == c.wide && t.tall == c.tall && t.y_scale == c.start
    &&& is32(t.pitch, pitch, 10)
    &&& 85 <= dist <= 112
    &&& tunnelled(f, site, seed, t, 0, dist, cells, 1).subset_of(after)
}

/// A cave with a tunnel to go carves it. Its pitch is a quarter of what is
/// drawn above or below one half.
pub proof fn law_caves_carve_their_tunnels<F: Fn(Ask) -> u64>(
    f: F, k: CaveCarver, site: Site, c: CaveStart, r: LegacyRandomSource, cells: Cells, n: nat, v: int,
)
    requires
        correct32(f),
        n > 0,
        is32(single(f, single(f, r).1).0, v, 8),
        0 <= v < 0x100,
    ensures
        exists|t: Tunnel, seed: i64, dist: int|
            #[trigger] has_tunnel(f, site, c, t, seed, dist, v - 128, cells, k.tunnels(f, site, c, r, cells, n).0),
{
    lemma2_to64();
    lemma_known32();
    let (u, s) = single(f, r);
    let (w, t) = single(f, s);
    let (thickness, y) = k.thick(f, t);
    let (d, p) = below(y, (MAX_DISTANCE / 4) as i32);
    law_sources_are_unsigned();
    law_bounded_draws_lie_below(y, (MAX_DISTANCE / 4) as i32, TRIES as nat);
    let (seed, q) = p.long();
    let pitch = low(f, Ask::Div32(low(f, Ask::Sub32(w, HALF_32)), FOUR_32));
    lemma_finer32(HALF_32, 1, 1, 7);
    lemma_sub32(f, w, HALF_32, v, 128, 8);
    lemma_bits32(FOUR_32, 4, 0, 21);
    lemma_shrink32(f, low(f, Ask::Sub32(w, HALF_32)), FOUR_32, v - 128, 8, 2);
    let tunnel = Tunnel {
        x: c.x,
        y: c.y,
        z: c.z,
        wide: c.wide,
        tall: c.tall,
        y_scale: c.start,
        thickness,
        heading: low(f, Ask::Mul32(u, TWO_PI_32)),
        pitch,
    };
    let first = tunnelled(f, site, seed, tunnel, 0, MAX_DISTANCE - d, cells, 1);
    k.lemma_tunnels_add(f, site, c, q, first, (n - 1) as nat);
    assert(has_tunnel(f, site, c, tunnel, seed, MAX_DISTANCE - d, v - 128, cells, k.tunnels(f, site, c, r, cells, n).0));
}

/// A room lies one block east of a cave's start. It is one and a half wide,
/// and by the sine of a quarter turn as much more as one and up to six are.
pub proof fn law_rooms_are_wide<F: Fn(Ask) -> u64>(f: F, k: CaveCarver, c: CaveStart, r: LegacyRandomSource, x: int, u: int, n: int)
    requires
        correct(f),
        is64(c.x, x, 0),
        -0x7fff_ffff < x < 0x7fff_ffff,
        is32(single(f, wide_drawn(f, k.room_vertical_radius_multiplier, r).1).0, u, 8),
        0 <= u < 0x100,
        is32(table_sin(f, reply(f, Ask::Widen(HALF_PI_32))), n, 8),
        -0x100 <= n <= 0x100,
    ensures
        ({
            let e = k.room(f, c, r).0;
            &&& is64(e.x, x + 1, 0) && e.y == c.y && e.z == c.z
            &&& is64(e.wide, 98304 + n * (256 + 6 * u), 16)
            &&& e.tall == reply(f, Ask::Mul64(e.wide, wide_drawn(f, k.room_vertical_radius_multiplier, r).0))
        }),
{
    lemma2_to64();
    lemma2_to64_rest();
    lemma_known32();
    lemma_known64();
    let (_, s) = wide_drawn(f, k.room_vertical_radius_multiplier, r);
    let w = single(f, s).0;
    lemma_bits32(SIX_32, 6, 0, 21);
    lemma_mul32(f, w, SIX_32, u, 6, 8, 0);
    lemma_finer32(ONE_32, 1, 0, 8);
    lemma_add32(f, ONE_32, low(f, Ask::Mul32(w, SIX_32)), 256, u * 6, 8);
    let thickness = low(f, Ask::Add32(ONE_32, low(f, Ask::Mul32(w, SIX_32))));
    let m = 256 + 6 * u;
    assert(-0x10_0000 < n * m < 0x10_0000) by (nonlinear_arith)
        requires
            -0x100 <= n <= 0x100,
            0 <= m < 0x1000,
    ;
    let sine = table_sin(f, reply(f, Ask::Widen(HALF_PI_32)));
    lemma_mul32(f, sine, thickness, n, m, 8, 8);
    let more = low(f, Ask::Mul32(sine, thickness));
    lemma_widen(f, more, n * m, 16);
    lemma_bits64(THREE_HALVES, 3, 1, 51);
    lemma_finer64(THREE_HALVES, 3, 1, 15);
    lemma_add64(f, THREE_HALVES, reply(f, Ask::Widen(more)), 98304, n * m, 16);
    lemma_add64(f, c.x, ONE, x, 1, 0);
}

} // verus!
