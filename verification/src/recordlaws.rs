//! What a record shows of a chunk: per column its height, the block and the
//! biome on top, and how deep its water is over what.

use vstd::prelude::*;
use crate::lod26::{column_of, water_run, ChunkBlocks, ColumnLod, QuartGrid, SurfaceConfig};

verus! {

/// Water runs down from a height: so many blocks are water, and the next one
/// is not, or lies below the chunk.
proof fn lemma_water_run(chunk: ChunkBlocks, cfg: SurfaceConfig, x: int, y: int, z: int)
    ensures
        ({
            let n = water_run(chunk, cfg, x, y, z);
            &&& forall|i: int| 0 <= i < n ==> #[trigger] chunk.block_at(cfg, x, y - i, z) == cfg.water
            &&& y - n < chunk.vol.min@[1] || chunk.block_at(cfg, x, y - n, z) != cfg.water
        }),
    decreases y - chunk.vol.min@[1] + 1,
{
    if !(y < chunk.vol.min@[1] || chunk.block_at(cfg, x, y, z) != cfg.water) {
        lemma_water_run(chunk, cfg, x, y - 1, z);
        let n = water_run(chunk, cfg, x, y, z);
        assert forall|i: int| 0 <= i < n implies #[trigger] chunk.block_at(cfg, x, y - i, z) == cfg.water by {
            if i > 0 {
                assert(chunk.block_at(cfg, x, (y - 1) - (i - 1), z) == cfg.water);
            }
        }
    }
}

/// A record's column holds the first free height of the chunk's, the block
/// just below it and the biome of the quart that this block lies in. Where
/// the block is water the record holds how many blocks down from it are
/// water, up to 255, and the block that they lie on. Else it holds no depth.
pub proof fn law_records_show_columns(r: ColumnLod, cfg: SurfaceConfig, chunk: ChunkBlocks, grid: QuartGrid, x: int, z: int)
    requires
        chunk.wf(),
        grid.wf(),
        0 <= x < 16,
        0 <= z < 16,
        column_of(r, cfg, chunk, grid, x, z),
    ensures
        ({
            let c = x + z * 16;
            let h = chunk.surface_height@[c];
            let (low, rows) = (chunk.vol.min@[1], chunk.vol.size@[1]);
            let at = (h - 1 - low) + (x + z * 16) * rows;
            let (qx, qy, qz) = ((chunk.vol.min@[0] + x) / 4, (h - 1) / 4, (chunk.vol.min@[2] + z) / 4);
            &&& -0x8000 <= h <= 0x7fff ==> r.height@[c] == h
            &&& low < h <= low + rows ==> r.top@[c] == chunk.ids@[at]
            &&& !(low < h <= low + rows) ==> r.top@[c] == cfg.air
            &&& grid.min@[0] <= qx < grid.min@[0] + grid.size@[0] && grid.min@[1] <= qy < grid.min@[1] + grid.size@[1] && grid.min@[2]
                <= qz < grid.min@[2] + grid.size@[2] ==> r.biome@[c] == grid.ids@[(qy - grid.min@[1]) + ((qx - grid.min@[0]) + (qz
                - grid.min@[2]) * grid.size@[0]) * grid.size@[1]]
            &&& r.top@[c] != cfg.water ==> r.depth@[c] == 0 && r.floor@[c] == r.top@[c]
            &&& r.top@[c] == cfg.water ==> {
                let d = r.depth@[c];
                &&& d >= 1
                &&& forall|i: int| 0 <= i < d ==> #[trigger] chunk.block_at(cfg, x, h - 1 - i, z) == cfg.water
                &&& d < 255 ==> {
                    if h - 1 - d < low {
                        r.floor@[c] == cfg.water
                    } else {
                        r.floor@[c] == chunk.block_at(cfg, x, h - 1 - d, z) && r.floor@[c] != cfg.water
                    }
                }
            }
        }),
{
    let c = x + z * 16;
    let h = chunk.surface_height@[c];
    let y = h - 1;
    assert(chunk.vol.size@[0] == 16);
    if r.top@[c] == cfg.water {
        lemma_water_run(chunk, cfg, x, y - 1, z);
        let n = water_run(chunk, cfg, x, y - 1, z);
        assert forall|i: int| 0 <= i < 1 + n implies #[trigger] chunk.block_at(cfg, x, h - 1 - i, z) == cfg.water by {
            if i > 0 {
                assert(chunk.block_at(cfg, x, (y - 1) - (i - 1), z) == cfg.water);
            }
        }
    }
}

} // verus!
