use painite::arith::Ask;
use painite::lod26::{CoarseLod, ColumnLod, RecordRef, COLUMNS};
use painite::lodclient::ClientStore;
use painite::lodmesh26::{cell_colour, mesh_chunk, mesh_region, scale_for, Bounds, Neighbours, Palette, SKIRT_DEPTH, UNDER, VERTEX_BYTES};

fn d(bits: u64) -> f64 {
    f64::from_bits(bits)
}

fn s(bits: u32) -> f32 {
    f32::from_bits(bits)
}

fn single(v: f32) -> u64 {
    v.to_bits() as u64
}

/// Arithmetic as the machine does it; noises answer made-up smooth values.
fn machine(ask: Ask) -> u64 {
    match ask {
        Ask::Add64(a, b) => (d(a) + d(b)).to_bits(),
        Ask::Sub64(a, b) => (d(a) - d(b)).to_bits(),
        Ask::Mul64(a, b) => (d(a) * d(b)).to_bits(),
        Ask::Div64(a, b) => (d(a) / d(b)).to_bits(),
        Ask::Min64(a, b) => d(a).min(d(b)).to_bits(),
        Ask::Max64(a, b) => d(a).max(d(b)).to_bits(),
        Ask::Less64(a, b) => (d(a) < d(b)) as u64,
        Ask::LessEq64(a, b) => (d(a) <= d(b)) as u64,
        Ask::Equal64(a, b) => (d(a) == d(b)) as u64,
        Ask::Abs64(a) => d(a).abs().to_bits(),
        Ask::Floor64(a) => d(a).floor().to_bits(),
        Ask::Ceil64(a) => d(a).ceil().to_bits(),
        Ask::Sqrt64(a) => d(a).sqrt().to_bits(),
        Ask::Ln64(a) => d(a).ln().to_bits(),
        Ask::Pow64(a, b) => d(a).powf(d(b)).to_bits(),
        Ask::Exp64(a) => d(a).exp().to_bits(),
        Ask::Powi64(a, n) => d(a).powi(n).to_bits(),
        Ask::Neg64(a) => (-d(a)).to_bits(),
        Ask::FromInt64(i) => (i as f64).to_bits(),
        Ask::FromLong64(i) => (i as f64).to_bits(),
        Ask::ToInt64(a) => (d(a) as i32) as u32 as u64,
        Ask::ToLong64(a) => (d(a) as i64) as u64,
        Ask::Sin64(a) => d(a).sin().to_bits(),
        Ask::Cos64(a) => d(a).cos().to_bits(),
        Ask::Widen(a) => (s(a) as f64).to_bits(),
        Ask::Narrow(a) => single(d(a) as f32),
        Ask::Add32(a, b) => single(s(a) + s(b)),
        Ask::Sub32(a, b) => single(s(a) - s(b)),
        Ask::Mul32(a, b) => single(s(a) * s(b)),
        Ask::Div32(a, b) => single(s(a) / s(b)),
        Ask::Rem32(a, b) => single(s(a) % s(b)),
        Ask::Min32(a, b) => single(s(a).min(s(b))),
        Ask::Max32(a, b) => single(s(a).max(s(b))),
        Ask::Less32(a, b) => (s(a) < s(b)) as u64,
        Ask::LessEq32(a, b) => (s(a) <= s(b)) as u64,
        Ask::Equal32(a, b) => (s(a) == s(b)) as u64,
        Ask::Nan32(a) => s(a).is_nan() as u64,
        Ask::Abs32(a) => single(s(a).abs()),
        Ask::Neg32(a) => single(-s(a)),
        Ask::Signum32(a) => single(s(a).signum()),
        Ask::Sqrt32(a) => single(s(a).sqrt()),
        Ask::Round32(a) => single(s(a).round()),
        Ask::Powi32(a, n) => single(s(a).powi(n)),
        Ask::FromInt32(i) => single(i as f32),
        Ask::ToInt32(a) => (s(a) as i32) as u32 as u64,
        Ask::ToByte32(a) => (s(a) as u8) as u64,
        Ask::ToLong32(a) => (s(a) as i64) as u64,
        Ask::FromLong32(i) => single(i as f32),
        Ask::Noise { noise, x, y, z } => (0.5 * (d(x) * 0.11 + d(y) * 0.07 + d(z) * 0.05 + noise as f64).sin()).to_bits(),
        Ask::Blended { bx, by, bz, .. } => ((bx + 2 * by + 3 * bz) as f64 / 100.0).to_bits(),
        Ask::Island { cx, cz, .. } => ((cx + cz) as f64 / 64.0).to_bits(),
        Ask::Biome { .. } => 0,
        Ask::StackBound(_) => single(2.0),
        Ask::Stack { stack, x, y, z } => single((0.5 * (d(x) * 0.11 + d(y) * 0.07 + d(z) * 0.05 + stack as f64).sin()) as f32),
        Ask::StackBlock { stack, bx, by, bz, xz_scale, y_scale, amplitude } => {
            let v = (bx as f64 * d(xz_scale) * 0.11 + by as f64 * d(y_scale) * 0.07 + bz as f64 * d(xz_scale) * 0.05 + stack as f64).sin();
            single(v as f32 * 0.5 * s(amplitude))
        }
    }
}

fn colour(palette: &Palette, top: u16, depth: u8, floor: u16, biome: u16) -> [u8; 4] {
    let (r, g, b, a) = cell_colour(palette, top, depth, floor, biome, &machine);
    [r, g, b, a]
}

fn flat(h: i16) -> ColumnLod {
    ColumnLod { height: [h; COLUMNS], ..ColumnLod::empty(0) }
}

fn mesh(rec: &ColumnLod, neighbours: &Neighbours, scale: usize, out: &mut Vec<u8>) -> Bounds {
    let mut bounds = Bounds::empty();
    mesh_chunk(RecordRef::Full(rec), neighbours, scale, &Palette::plain(&COLOURS), (0, 0), out, &mut bounds, &machine);
    bounds
}

const COLOURS: [[u8; 4]; 2] = [[10, 20, 30, 255], [40, 50, 60, 255]];

#[test]
fn water_darkens_with_depth_over_its_floor() {
    let colours = [[0, 0, 200, 191], [200, 200, 100, 255]];
    let palette = Palette::plain(&colours);
    let dry = colour(&palette, 1, 0, 1, 0);
    assert_eq!(dry, [200, 200, 100, 255]);
    let shallow = colour(&palette, 0, 1, 1, 0);
    let deep = colour(&palette, 0, 12, 1, 0);
    let bottomless = colour(&palette, 0, 40, 1, 0);
    let by_biome = [[9, 9, 9, 191], [0, 100, 0, 191]];
    let tinted = Palette { colours: &colours, water: 0, water_by_biome: &by_biome };
    assert_eq!(colour(&tinted, 0, 40, 1, 1), [0, 75, 0, 255], "water takes its biome's colour");
    assert_eq!(colour(&tinted, 0, 40, 1, 7), [0, 0, 150, 255], "a biome past the table keeps the palette colour");
    assert!(shallow[0] > deep[0] && deep[0] > bottomless[0], "the floor fades with depth: {shallow:?} {deep:?} {bottomless:?}");
    assert_eq!(bottomless, [0, 0, 150, 255], "past 15 blocks only the surface is left, at its own alpha");
    let curved = (14.0 / 15.0) / (4.0 - 3.0 * 14.0 / 15.0);
    let lit = 0.5 * curved + 0.5 * (1.0 - (1.0_f32 - curved).powi(4));
    assert_eq!(shallow[2], (200.0 * 0.749_f32 + 100.0 * lit * 0.251).round() as u8);
}

#[test]
fn flat_chunk_is_one_top_quad_and_skirts() {
    let rec = flat(64);
    let mut out = Vec::new();
    let bounds = mesh(&rec, &[None; 4], 4, &mut out);
    // one merged top plus one merged skirt wall per side
    assert_eq!(out.len(), (1 + 4) * 4 * VERTEX_BYTES);
    assert_eq!((bounds.min_y, bounds.max_y), (64 - SKIRT_DEPTH, 64));
    let mut again = Vec::new();
    mesh(&rec, &[None; 4], 4, &mut again);
    assert_eq!(out, again);
    assert_eq!(f32::from_le_bytes([out[4], out[5], out[6], out[7]]), 64.0 - f32::from_bits(UNDER), "tops sit just under the block face");
    assert_eq!(f32::from_le_bytes([out[32], out[33], out[34], out[35]]), 16.0, "the top spans the chunk");
}

#[test]
fn tops_merge_down_z_only_where_runs_line_up() {
    // Two flat bands of different colour, split along z: two rectangles.
    let mut rec = flat(64);
    for c in 0..COLUMNS {
        if c / 16 >= 8 {
            rec.top[c] = 1;
        }
    }
    let mut out = Vec::new();
    mesh(&rec, &[Some((RecordRef::Full(&rec), 1)); 4], 1, &mut out);
    assert_eq!(out.len() / (4 * VERTEX_BYTES), 2);
    // A single raised column in the middle breaks its row and the rows around it stay whole.
    let mut peak = flat(64);
    peak.height[5 + 5 * 16] = 70;
    let mut out = Vec::new();
    let bounds = mesh(&peak, &[Some((RecordRef::Full(&peak), 1)); 4], 1, &mut out);
    // rows 0..5 one rect, row 5 three rects (left, peak, right), rows 6..16 one rect, four peak walls
    assert_eq!(out.len() / (4 * VERTEX_BYTES), 1 + 3 + 1 + 4);
    assert_eq!((bounds.min_y, bounds.max_y), (64, 70));
}

#[test]
fn coarse_record_meshes_at_its_own_cells_and_edges_resample() {
    let mut rec = flat(64);
    for c in 0..COLUMNS {
        if c % 16 >= 8 {
            rec.height[c] = 70;
        }
    }
    let coarse = CoarseLod::of(&rec);
    let mut out = Vec::new();
    let mut bounds = Bounds::empty();
    mesh_chunk(RecordRef::Coarse(&coarse), &[None; 4], 1, &Palette::plain(&COLOURS), (0, 0), &mut out, &mut bounds, &machine);
    // asked for scale 1, drawn at its 4-block cells: two tops, the step, and skirts: one per x side, two per z side (the step splits them)
    assert_eq!(out.len() / (4 * VERTEX_BYTES), 2 + 1 + 6);
    // A full neighbour beside a coarse chunk: the wall follows the coarse edge at the coarse cell size.
    let mut fine = Vec::new();
    let low = flat(60);
    mesh_chunk(RecordRef::Full(&low), &[Some((RecordRef::Coarse(&coarse), 1)), None, None, None], 1, &Palette::plain(&COLOURS), (0, 0), &mut fine, &mut bounds, &machine);
    let mut plain = Vec::new();
    mesh_chunk(RecordRef::Full(&low), &[Some((RecordRef::Full(&rec), 1)), None, None, None], 1, &Palette::plain(&COLOURS), (0, 0), &mut plain, &mut bounds, &machine);
    assert_eq!(fine.len(), plain.len(), "a higher neighbour raises no wall on the low side either way");
    // A high chunk beside a finer neighbour whose edge steps: the wall reaches the lowest drawn cell of each span.
    let mut steps = flat(60);
    for c in 0..COLUMNS {
        if c / 16 == 3 {
            steps.height[c] = 50;
        }
    }
    let high = flat(70);
    let mut wall = Vec::new();
    mesh_chunk(RecordRef::Full(&high), &[Some((RecordRef::Full(&steps), 1)), None, None, None], 4, &Palette::plain(&COLOURS), (0, 0), &mut wall, &mut bounds, &machine);
    // top, -x wall in two runs (rows 0..4 down to 50, rows 4..16 down to 60), three skirts
    assert_eq!(wall.len() / (4 * VERTEX_BYTES), 1 + 2 + 3);
    let first = &wall[4 * VERTEX_BYTES..5 * VERTEX_BYTES];
    assert_eq!(f32::from_le_bytes([first[4], first[5], first[6], first[7]]), 50.0 - f32::from_bits(UNDER), "the wall drops to the lowest fine cell in the span");
}

#[test]
fn region_mesh_skips_the_hole_and_offsets_by_chunk() {
    let mut store = ClientStore::new(64);
    let mut batch = Vec::new();
    for (x, z) in [(0, 0), (1, 0), (33, 5)] {
        batch.extend_from_slice(&(x as i32).to_le_bytes());
        batch.extend_from_slice(&(z as i32).to_le_bytes());
        batch.extend_from_slice(&0u32.to_le_bytes());
        let mut bytes = Vec::new();
        flat(64).write_to_public(&mut bytes);
        batch.extend_from_slice(&bytes);
    }
    assert_eq!(store.put_batch(&batch, 0, 0), Some(3));
    assert_eq!(store.region_generation(0, 0), 2);
    assert_eq!(store.region_generation(1, 0), 1);
    let mut out = Vec::new();
    let mut counts = Vec::new();
    let bounds = mesh_region(&store, 0, 0, &|_: i32, _: i32| 16, (0, 0, 0), &Palette::plain(&COLOURS), &mut out, &mut counts, &machine);
    assert_eq!(scale_for(0, 0, 0, 0), 1);
    assert_eq!(scale_for(33, 5, 0, 0), 2);
    assert_eq!(scale_for(-1, 0, 0, 0), 1, "the block just west starts at -8");
    assert_eq!(scale_for(200, 0, 0, 0), 16);
    assert_eq!(out.len(), (1 + 3) * 4 * VERTEX_BYTES, "one chunk in the hole, chunk 33,5 in the next region; one flat 16-scale quad with skirts on the three sides without a neighbour");
    assert_eq!(counts.len(), 1024);
    assert_eq!((counts[0], counts[1], counts[2]), (0, 16, 0), "the hole chunk counts nothing, chunk 1,0 the four quads");
    assert_eq!((bounds.min_y, bounds.max_y), (64 - SKIRT_DEPTH, 64));
    assert_eq!(f32::from_le_bytes([out[0], out[1], out[2], out[3]]), 16.0, "chunk 1,0 starts at x 16");
}

#[test]
fn a_step_raises_one_wall_and_a_lower_neighbour_raises_the_border() {
    let mut rec = flat(64);
    for c in 0..COLUMNS {
        if c % 16 >= 8 {
            rec.height[c] = 70;
            rec.top[c] = 1;
        }
    }
    let mut out = Vec::new();
    mesh(&rec, &[None; 4], 8, &mut out);
    // tops: two runs per row (colours differ), each merged down both rows = 2; walls: the step (1) and
    // skirts on all four sides: -x 1, +x 1, -z 2 (two colours), +z 2
    assert_eq!(out.len() / (4 * VERTEX_BYTES), 2 + 1 + 6);
    let lower = flat(60);
    let mut with = Vec::new();
    mesh(&rec, &[Some((RecordRef::Full(&lower), 8)), None, None, None], 8, &mut with);
    assert_eq!(with.len() / (4 * VERTEX_BYTES), 2 + 1 + 6, "a real lower neighbour replaces the -x skirt");
    let wall = &with[2 * 4 * VERTEX_BYTES..3 * 4 * VERTEX_BYTES];
    assert_eq!(wall[12], (10 * 153 / 255) as u8, "x side shade on the low half colour");
    assert_eq!(f32::from_le_bytes([wall[4], wall[5], wall[6], wall[7]]), 60.0 - f32::from_bits(UNDER), "wall starts at the neighbour's height");
}
