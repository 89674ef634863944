use painite::lod26::{
    ChunkBlocks, CoarseLod, ColumnLod, QuartGrid, RecordRef, SurfaceConfig, COARSE_BYTES, COLUMNS, RECORD_BYTES, RECORD_BYTES_V2, STAGE_FINAL,
    STAGE_SURFACE,
};
use painite::lodclient::{regions_of_batch, ClientStore};
use painite::lodregion::{has_bit, make_bitmap, region_records, region_slot, RegionLod, HEADER_BYTES};
use painite::lodsend::{disc, SendTracker};
use painite::lodstore::{LodStore, BATCH_COARSE, BATCH_ENTRY_BYTES, COARSE_ENTRY_BYTES, MAX_REGIONS};
use painite::volume::Volume;
use std::collections::HashMap;

fn record(seed: i16) -> ColumnLod {
    let mut r = ColumnLod::empty(STAGE_FINAL);
    for c in 0..COLUMNS {
        r.height[c] = seed.wrapping_mul(7).wrapping_add(c as i16) - 64;
        r.top[c] = (c as u16).wrapping_mul(3).wrapping_add(seed as u16) % 127;
        r.biome[c] = (c as u16).wrapping_add(seed as u16) % 64;
    }
    r
}

/// The files of a store's directory.
#[derive(Default)]
struct Disk {
    files: HashMap<(i32, i32), Vec<u8>>,
}

impl Disk {
    fn write(&mut self, files: Vec<((i32, i32), Vec<u8>)>) -> usize {
        let n = files.len();
        self.files.extend(files);
        n
    }

    /// Bring a chunk's region into memory and write what had to leave.
    fn ready(&mut self, store: &mut LodStore, x: i32, z: i32) {
        let ((rx, rz), _) = region_slot(x, z);
        if !store.is_loaded(rx, rz) {
            store.load(rx, rz, self.files.get(&(rx, rz)).map(|b| b.as_slice()));
        }
        let out = store.take_writes();
        self.write(out);
    }

    fn insert(&mut self, store: &mut LodStore, x: i32, z: i32, r: ColumnLod) {
        self.ready(store, x, z);
        store.insert(x, z, r);
    }

    fn get(&mut self, store: &mut LodStore, x: i32, z: i32) -> Option<ColumnLod> {
        self.ready(store, x, z);
        store.get(x, z)
    }
}

#[test]
fn round_trip_sparse_region_across_stores() {
    let mut disk = Disk::default();
    let hash = [7u8; 16];
    let mut store = LodStore::new(hash);
    store.set_dir("lod".to_string());
    assert_eq!(store.dir(), Some("lod"));
    // Negative chunks land in region (-1, -1) at slots that are not the record index.
    let chunks = [(-1, -1), (-32, -32), (-17, -3), (5, 9), (31, 0)];
    for (i, &(x, z)) in chunks.iter().enumerate() {
        disk.insert(&mut store, x, z, record(i as i16));
    }
    assert_eq!(disk.write(store.flush()), 2);
    assert_eq!(disk.write(store.flush()), 0);
    assert!(disk.files.contains_key(&(-1, -1)) && disk.files.contains_key(&(0, 0)));
    assert_eq!(disk.files[&(-1, -1)].len(), HEADER_BYTES + 3 * RECORD_BYTES);

    let mut again = LodStore::new(hash);
    again.set_dir("lod".to_string());
    for (i, &(x, z)) in chunks.iter().enumerate() {
        assert_eq!(disk.get(&mut again, x, z), Some(record(i as i16)), "chunk {x},{z}");
    }
    assert_eq!(disk.get(&mut again, 6, 9), None);
    assert_eq!(again.region_count(0, 0), 2);
    assert_eq!(again.get(5, 9).unwrap().to_ints().len(), COLUMNS * 3);

    let mut other = LodStore::new([8u8; 16]);
    other.set_dir("lod".to_string());
    assert_eq!(disk.get(&mut other, 5, 9), None, "a foreign hash discards the file");
}

#[test]
fn eviction_writes_the_oldest_region() {
    let mut disk = Disk::default();
    let mut store = LodStore::new([1u8; 16]);
    store.set_dir("lod".to_string());
    for r in 0..=MAX_REGIONS as i32 {
        disk.insert(&mut store, r * 32, 0, record(r as i16));
    }
    assert!(disk.files.contains_key(&(0, 0)), "region 0 written on eviction");
    assert!(!disk.files.contains_key(&(1, 0)));
    assert_eq!(disk.get(&mut store, 0, 0), Some(record(0)), "evicted region reads back from disk");
}

#[test]
fn client_store_persists_and_reports_what_it_holds() {
    let mut disk = Disk::default();
    let mut store = ClientStore::new(64);
    store.open("client".to_string(), [3; 16]);
    let mut batch = Vec::new();
    for (x, z) in [(1, 2), (40, 2)] {
        batch.extend_from_slice(&(x as i32).to_le_bytes());
        batch.extend_from_slice(&(z as i32).to_le_bytes());
        batch.extend_from_slice(&(STAGE_FINAL as u32).to_le_bytes());
        record(7).write_to_public(&mut batch);
    }
    for (rx, rz) in regions_of_batch(&batch).unwrap() {
        assert!(store.needs_file(rx, rz));
        store.load(rx, rz, disk.files.get(&(rx, rz)).map(|b| b.as_slice()));
    }
    assert_eq!(store.put_batch(&batch, 0, 0), Some(2));
    assert_eq!(disk.write(store.flush()), 2);
    let mut again = ClientStore::new(64);
    again.open("client".to_string(), [3; 16]);
    assert!(again.get(1, 2).is_none(), "not in memory before warming");
    assert!(again.needs_file(0, 0));
    again.load(0, 0, disk.files.get(&(0, 0)).map(|b| b.as_slice()));
    assert!(!again.needs_file(0, 0));
    let have = again.have(0, 0);
    assert_eq!(have[(1 + 2 * 32) / 8] & (1 << ((1 + 2 * 32) % 8)), 1 << ((1 + 2 * 32) % 8));
    assert_eq!(again.warm(0, 0), 1);
    assert_eq!(again.warm(0, 0), 0, "warmed once");
    assert_eq!(again.get(1, 2).map(|r| r.height[0]), Some(record(7).height[0]));
    assert_eq!(again.region_generation(0, 0), 1);
    let mut tracker = SendTracker::new();
    tracker.mark_have(0, 0, &have);
    assert_eq!(tracker.sent_count(), 1);
    let mut wrong = ClientStore::new(64);
    wrong.open("client".to_string(), [4; 16]);
    wrong.load(0, 0, disk.files.get(&(0, 0)).map(|b| b.as_slice()));
    assert_eq!(wrong.warm(0, 0), 0, "another world's files are ignored");
}

#[test]
fn bitmaps_name_slots_bit_by_bit() {
    let mut flags = vec![false; 1024];
    flags[0] = true;
    flags[13] = true;
    flags[1023] = true;
    let map = make_bitmap(&flags);
    assert_eq!(map.len(), 128);
    assert_eq!((map[0], map[1], map[127]), (1, 32, 128));
    assert!(has_bit(&map, 13) && !has_bit(&map, 12));
}

#[test]
fn chunks_fall_into_region_slots() {
    assert_eq!(region_slot(0, 0), ((0, 0), 0));
    assert_eq!(region_slot(-1, -1), ((-1, -1), 1023));
    assert_eq!(region_slot(33, 5), ((1, 0), 161));
}

#[test]
fn a_region_file_lists_its_records() {
    let mut region = RegionLod::empty();
    region.records[5] = Some(record(2));
    region.records[900] = Some(record(4));
    assert_eq!(region.count(), 2);
    let bytes = region.encode(&[9; 16]);
    let listed = region_records(&bytes).unwrap();
    assert_eq!(listed.len(), 2);
    assert_eq!(listed[0], (5, record(2)));
    assert_eq!(listed[1], (900, record(4)));
    assert!(region_records(&bytes[..bytes.len() - 1]).is_none(), "a torn file is refused");
    assert!(RegionLod::parse(&bytes, &[8; 16]).is_none(), "another hash");
    let mut other = bytes.clone();
    other[0] ^= 1;
    assert!(RegionLod::parse(&other, &[9; 16]).is_none(), "another magic");
}

#[test]
fn records_round_trip_through_bytes() {
    let mut r = record(11);
    r.depth[3] = 8;
    r.floor[3] = 12;
    let mut bytes = Vec::new();
    r.write_to_public(&mut bytes);
    assert_eq!(bytes.len(), RECORD_BYTES);
    let mut back = ColumnLod::read_from(&bytes).unwrap();
    back.stage = r.stage;
    assert_eq!(back, r);
    assert!(ColumnLod::read_from(&bytes[..RECORD_BYTES - 1]).is_none());
    assert!(CoarseLod::read_from(&bytes[..COARSE_BYTES - 1]).is_none());
}

#[test]
fn discs_start_at_their_centre() {
    let d = disc(4, -4, 2);
    assert_eq!(d.len(), 13);
    assert_eq!(d[0], (4, -4));
    let far = |p: &(i32, i32)| (p.0 - 4).abs().max((p.1 + 4).abs());
    assert!(d.windows(2).all(|w| far(&w[0]) <= far(&w[1])));
    assert!(disc(0, 0, -1).is_empty());
}

#[test]
fn refreshes_are_listed_after_a_generation() {
    let mut store = LodStore::new([0; 16]);
    store.insert(1, 1, record(1));
    let before = store.generation();
    store.refresh(1, 1, &[5; COLUMNS], &[6; COLUMNS], &[0; COLUMNS], &[6; COLUMNS]);
    assert_eq!(store.generation(), before + 1);
    assert_eq!(store.refreshed_since(before), (vec![(1, 1)], before + 1));
    assert_eq!(store.refreshed_since(before + 1), (vec![], before + 1));
}

#[test]
fn listed_records_and_bitmaps_follow_the_slots() {
    let mut store = LodStore::new([0; 16]);
    let mut surface = record(1);
    surface.stage = STAGE_SURFACE;
    store.insert(2, 0, surface);
    store.insert(0, 1, record(2));
    let listed = store.region_records(0, 0);
    assert_eq!(listed, vec![(2, 0, surface), (0, 1, record(2))]);
    let all = store.present_bitmap(0, 0, false);
    let done = store.present_bitmap(0, 0, true);
    assert_eq!((all[0], all[4]), (4, 1));
    assert_eq!((done[0], done[4]), (0, 1));
    assert_eq!(store.stage(2, 0), Some(STAGE_SURFACE));
    assert_eq!(store.stage(9, 9), None);
}

#[test]
fn no_dir_keeps_records_in_memory() {
    let mut store = LodStore::new([0u8; 16]);
    store.insert(3, 4, record(1));
    assert_eq!(store.flush().len(), 0);
    assert_eq!(store.get(3, 4), Some(record(1)));
}
#[test]
fn batch_walks_nearest_first_and_skips_what_was_sent() {
    let mut store = LodStore::new([0; 16]);
    for x in -3..=3 {
        for z in -3..=3 {
            store.insert(x, z, record((x * 8 + z) as i16));
        }
    }
    let mut tracker = SendTracker::new();
    let mut out = Vec::new();
    assert_eq!(tracker.batch(&mut store, 0, 0, 2, 2, 1, &mut out), 1);
    assert_eq!(&out[..8], &[0u8; 8], "the player's own chunk goes first");
    assert_eq!(out.len(), BATCH_ENTRY_BYTES);
    out.clear();
    // The rest of the radius-2 disc: 13 chunks in a disc, one already sent.
    assert_eq!(tracker.batch(&mut store, 0, 0, 2, 2, 100, &mut out), 12);
    assert_eq!(tracker.sent_count(), 13);
    assert_eq!(tracker.batch(&mut store, 0, 0, 2, 2, 100, &mut out), 0, "nothing left at this centre");
    // A new record inside the disc is picked up without moving.
    store.insert(1, 0, record(99));
    assert_eq!(tracker.batch(&mut store, 0, 0, 2, 2, 100, &mut out), 0, "already sent; the store is just newer");
    // Moving far away forgets the old ones, so coming back resends.
    let mut far = Vec::new();
    assert_eq!(tracker.batch(&mut store, 40, 40, 2, 2, 100, &mut far), 0);
    assert_eq!(tracker.sent_count(), 0);
    assert_eq!(tracker.batch(&mut store, 0, 0, 2, 2, 100, &mut far), 13);
}

#[test]
fn batch_leaves_holes_unmarked_until_surfaced() {
    let mut store = LodStore::new([0; 16]);
    let mut tracker = SendTracker::new();
    let mut out = Vec::new();
    assert_eq!(tracker.batch(&mut store, 5, 5, 1, 1, 10, &mut out), 0);
    store.insert(5, 6, record(3));
    assert_eq!(tracker.batch(&mut store, 5, 5, 1, 1, 10, &mut out), 1);
    let x = i32::from_le_bytes([out[0], out[1], out[2], out[3]]);
    let z = i32::from_le_bytes([out[4], out[5], out[6], out[7]]);
    assert_eq!((x, z), (5, 6));
}

#[test]
fn refresh_finalizes_a_record_and_makes_senders_resend_it() {
    let mut store = LodStore::new([0; 16]);
    let mut surface = record(1);
    surface.stage = STAGE_SURFACE;
    store.insert(3, 4, surface);
    let mut tracker = SendTracker::new();
    let mut out = Vec::new();
    assert_eq!(tracker.batch(&mut store, 3, 4, 1, 1, 8, &mut out), 1);
    assert_eq!(out[8], STAGE_SURFACE, "stage rides in the entry");
    assert_eq!(tracker.batch(&mut store, 3, 4, 1, 1, 8, &mut out), 0, "sent once");
    let heights = [100i16; COLUMNS];
    let tops = [4200u16; COLUMNS];
    store.refresh(3, 4, &heights, &tops, &[0; COLUMNS], &tops);
    assert_eq!(store.stage(3, 4), Some(STAGE_FINAL));
    assert_eq!(store.get(3, 4).unwrap().biome[5], record(1).biome[5], "biomes kept");
    out.clear();
    assert_eq!(tracker.batch(&mut store, 3, 4, 1, 1, 8, &mut out), 1, "resent after the refresh");
    assert_eq!(out[8], STAGE_FINAL);
    let mut client = ClientStore::new(8);
    assert_eq!(client.put_batch(&out, 3, 4), Some(1));
    assert_eq!(client.get(3, 4).unwrap().top[0], 4200);
    assert_ne!(client.have(0, 0)[(3 + 4 * 32) / 8] & (1 << ((3 + 4 * 32) % 8)), 0, "final records are reported");
    store.refresh(9, 9, &heights, &tops, &[0; COLUMNS], &tops);
    assert_eq!(store.get(9, 9).unwrap().biome[0], 0, "a chunk without a record gets one");
}

#[test]
fn version_2_region_files_still_read_as_dry_records() {
    let hash = [7u8; 16];
    let mut region = RegionLod::empty();
    let mut rec = record(3);
    rec.depth[0] = 9;
    rec.floor[0] = 77;
    region.records[5] = Some(rec);
    let v3 = region.encode(&hash);
    assert_eq!(v3.len(), HEADER_BYTES + RECORD_BYTES);
    let mut v2 = v3[..HEADER_BYTES + RECORD_BYTES_V2].to_vec();
    v2[4..6].copy_from_slice(&2u16.to_le_bytes());
    let old = RegionLod::parse(&v2, &hash).unwrap();
    let got = old.records[5].unwrap();
    assert_eq!((got.height, got.top, got.biome), (rec.height, rec.top, rec.biome));
    assert_eq!(got.stage, STAGE_SURFACE, "an old record is refreshed on the next load");
    assert_eq!(got.depth, [0; COLUMNS], "no depth in a version 2 file");
    assert_eq!(got.floor, got.top);
    let new = RegionLod::parse(&v3, &hash).unwrap();
    assert_eq!(new.records[5].as_ref(), Some(&rec), "a version 3 file round-trips depth and floor");
    let coarse = CoarseLod::of(&rec);
    let mut bytes = Vec::new();
    coarse.write_to_public(&mut bytes);
    assert_eq!(bytes.len(), COARSE_BYTES);
    assert_eq!(CoarseLod::read_from(&bytes).unwrap(), coarse);
}

#[test]
fn client_store_round_trips_a_batch_and_evicts_the_farthest() {
    let mut store = LodStore::new([0; 16]);
    for x in 0..10 {
        store.insert(x, 0, record(x as i16));
    }
    let mut tracker = SendTracker::new();
    let mut out = Vec::new();
    assert_eq!(tracker.batch(&mut store, 0, 0, 9, 9, 100, &mut out), 10);
    let mut client = ClientStore::new(8);
    assert_eq!(client.put_batch(&out[..7], 0, 0), None, "a torn batch is refused");
    assert!(client.is_empty());
    assert_eq!(client.put_batch(&out, 0, 0), Some(10));
    assert_eq!(client.len(), 4, "over the cap of 8 it keeps the nearest half");
    assert_eq!(client.get(0, 0), Some(&record(0)));
    assert_eq!(client.get(3, 0), Some(&record(3)));
    assert_eq!(client.get(9, 0), None);
    client.clear();
    assert!(client.is_empty());
}

#[test]
fn outer_ring_goes_coarse_and_fills_in_on_approach() {
    let mut store = LodStore::new([0; 16]);
    for x in 0..8 {
        store.insert(x, 0, record(x as i16));
    }
    let mut tracker = SendTracker::new();
    let mut out = Vec::new();
    // Full within 2 chunks (x 0..=2), coarse out to 7.
    assert_eq!(tracker.batch(&mut store, 0, 0, 7, 2, 100, &mut out), 8);
    assert_eq!(out.len(), 3 * BATCH_ENTRY_BYTES + 5 * COARSE_ENTRY_BYTES);
    let mut client = ClientStore::new(64);
    assert_eq!(client.put_batch(&out, 0, 0), Some(8));
    assert_eq!(client.len(), 3);
    assert_eq!(client.coarse_len(), 5);
    let coarse = CoarseLod::of(&record(5));
    assert!(matches!(client.get_any(5, 0), Some(RecordRef::Coarse(c)) if *c == coarse));
    assert_eq!(coarse.height[0], record(5).height[3 + 3 * 16], "tallest of the 4x4 wins");
    assert_eq!(client.region_generation(0, 0), 8);
    assert_eq!(client.put_batch(&out[..out.len() - 1], 0, 0), None, "a torn coarse entry is refused");
    // The player moves to x 5: the coarse chunks 3..=7 are sent in full, nothing twice.
    out.clear();
    assert_eq!(tracker.batch(&mut store, 5, 0, 7, 2, 100, &mut out), 5);
    assert_eq!(out.len(), 5 * BATCH_ENTRY_BYTES);
    assert_eq!(client.put_batch(&out, 5, 0), Some(5));
    assert_eq!(client.len(), 8);
    assert_eq!(client.coarse_len(), 0, "full records replace coarse ones");
    assert_eq!(tracker.batch(&mut store, 5, 0, 7, 2, 100, &mut out), 0);
    // A coarse entry for a chunk held in full is ignored.
    let mut stale = Vec::new();
    stale.extend_from_slice(&1i32.to_le_bytes());
    stale.extend_from_slice(&0i32.to_le_bytes());
    stale.extend_from_slice(&BATCH_COARSE.to_le_bytes());
    CoarseLod::of(&record(9)).write_to_public(&mut stale);
    assert_eq!(client.put_batch(&stale, 5, 0), Some(1));
    assert_eq!(client.coarse_len(), 0);
    assert_eq!(client.get(1, 0), Some(&record(1)));
}

#[test]
fn surfaced_chunks_become_records() {
    // Stone (1) up to y -61, water (2) over it in half the chunk up to y -58.
    let vol = Volume { size: [16, 16, 16], min: [-16, -64, 32], step: [1, 1, 1] };
    let mut ids = vec![0u16; 4096];
    let mut surface_height = vec![0i32; 256];
    for x in 0..16 {
        for z in 0..16 {
            for row in 0..4 {
                ids[vol.index(x, row, z)] = 1;
            }
            surface_height[x + z * 16] = -60;
            if x >= 8 {
                for row in 4..7 {
                    ids[vol.index(x, row, z)] = 2;
                }
                surface_height[x + z * 16] = -57;
            }
        }
    }
    let chunk = ChunkBlocks { vol, surface_height, ids };
    let mut biomes = vec![5u16; 4 * 4 * 4];
    // The quart at x -1, y -16, z 8.
    biomes[(3 + 0 * 4) * 4] = 9;
    let grid = QuartGrid { min: [-4, -16, 8], size: [4, 4, 4], ids: biomes };
    let cfg = SurfaceConfig { air: 0, water: 2 };
    assert_eq!(chunk.get(&cfg, 0, -61, 0), 1);
    assert_eq!(chunk.get(&cfg, 0, -65, 0), 0, "air below the chunk");
    assert_eq!(grid.get(-1, -16, 8), 9);
    assert_eq!(grid.get(100, -100, 8), 9, "clamped to the grid");
    let r = ColumnLod::from_chunk(&cfg, &chunk, &grid);
    assert_eq!(r.stage, STAGE_SURFACE);
    assert_eq!((r.height[0], r.top[0], r.depth[0], r.floor[0], r.biome[0]), (-60, 1, 0, 1, 5));
    assert_eq!((r.height[15], r.top[15], r.depth[15], r.floor[15]), (-57, 2, 3, 1));
    assert_eq!(r.biome[15], 5, "the surface lies in the quart above");
    assert_eq!((r.to_ints()[0], r.to_ints()[256], r.to_ints()[512]), (-60, 1, 5));
}

#[test]
fn what_is_sent_is_what_is_read() {
    let mut store = LodStore::new([0; 16]);
    store.insert(1, 2, record(5));
    store.insert(6, 2, record(9));
    let mut out = Vec::new();
    assert_eq!(SendTracker::new().batch(&mut store, 1, 2, 5, 1, 10, &mut out), 2);
    let mut client = ClientStore::new(8);
    assert_eq!(client.put_batch(&out, 1, 2), Some(2));
    assert_eq!(client.get(1, 2), Some(&record(5)));
    assert!(matches!(client.get_any(6, 2), Some(RecordRef::Coarse(c)) if *c == CoarseLod::of(&record(9))));
}

fn full_entry(batch: &mut Vec<u8>, x: i32, z: i32, seed: i16) {
    batch.extend_from_slice(&x.to_le_bytes());
    batch.extend_from_slice(&z.to_le_bytes());
    batch.extend_from_slice(&(STAGE_FINAL as u32).to_le_bytes());
    record(seed).write_to_public(batch);
}

#[test]
fn a_batch_that_comes_before_its_file_keeps_the_files_records() {
    // The file holds chunk (3, 3).
    let mut disk = Disk::default();
    let mut first = LodStore::new([3; 16]);
    first.set_dir("client".to_string());
    disk.insert(&mut first, 3, 3, record(1));
    disk.insert(&mut first, 1, 2, record(9));
    assert_eq!(disk.write(first.flush()), 1);
    let mut client = ClientStore::new(64);
    client.open("client".to_string(), [3; 16]);
    let mut batch = Vec::new();
    full_entry(&mut batch, 1, 2, 7);
    assert_eq!(regions_of_batch(&batch), Some(vec![(0, 0)]));
    assert_eq!(client.put_batch(&batch, 0, 0), Some(1));
    assert!(client.needs_file(0, 0), "the file was not handed over");
    assert_eq!(client.flush().len(), 0, "so it is not written over");
    assert_eq!(client.warm(0, 0), 0, "and not warmed");
    client.load(0, 0, disk.files.get(&(0, 0)).map(|b| b.as_slice()));
    assert!(!client.needs_file(0, 0));
    let have = client.have(0, 0);
    assert!(has_bit(&have, 3 + 3 * 32) && has_bit(&have, 1 + 2 * 32));
    assert_eq!(client.warm(0, 0), 1, "chunk (3, 3) comes in");
    assert_eq!(client.warm(0, 0), 0);
    assert_eq!(client.get(3, 3).map(|r| r.height[0]), Some(record(1).height[0]));
    assert_eq!(client.get(1, 2).map(|r| r.height[0]), Some(record(7).height[0]), "what was held stays");
    assert_eq!(disk.write(client.flush()), 1);
    let mut again = LodStore::new([3; 16]);
    again.set_dir("client".to_string());
    assert_eq!(disk.get(&mut again, 3, 3), Some(record(1)));
    assert_eq!(disk.get(&mut again, 1, 2), Some(record(7)));
}

#[test]
fn batches_name_the_regions_of_their_full_entries() {
    let mut batch = Vec::new();
    full_entry(&mut batch, 1, 2, 7);
    full_entry(&mut batch, -1, 40, 8);
    full_entry(&mut batch, 5, 6, 9);
    batch.extend_from_slice(&900i32.to_le_bytes());
    batch.extend_from_slice(&900i32.to_le_bytes());
    batch.extend_from_slice(&(STAGE_FINAL as u32 | BATCH_COARSE).to_le_bytes());
    batch.extend_from_slice(&[0; COARSE_BYTES]);
    assert_eq!(regions_of_batch(&batch), Some(vec![(0, 0), (-1, 1)]));
    assert_eq!(regions_of_batch(&[]), Some(vec![]));
    batch.pop();
    assert_eq!(regions_of_batch(&batch), None, "torn");
}

#[test]
fn a_farther_walk_looks_again() {
    let mut store = LodStore::new([0; 16]);
    store.insert(1, 0, record(1));
    let mut tracker = SendTracker::new();
    let mut out = Vec::new();
    assert_eq!(tracker.batch(&mut store, 0, 0, 0, 0, 10, &mut out), 0);
    assert_eq!(tracker.batch(&mut store, 0, 0, 1, 0, 10, &mut out), 1, "coarse");
    assert_eq!(out.len(), COARSE_ENTRY_BYTES);
    assert_eq!(tracker.batch(&mut store, 0, 0, 1, 0, 10, &mut out), 0);
    assert_eq!(tracker.batch(&mut store, 0, 0, 1, 1, 10, &mut out), 1, "now in full");
}

#[test]
fn no_dir_keeps_every_region() {
    let mut store = LodStore::with_max_regions([0; 16], 1);
    store.insert(0, 0, ColumnLod::empty(1));
    store.insert(32, 0, ColumnLod::empty(1));
    assert_eq!(store.get(0, 0), Some(ColumnLod::empty(1)));
    assert!(store.take_writes().is_empty());
    // Once there is a directory, the oldest are written and dropped.
    store.set_dir("lod".to_string());
    store.load(5, 5, None);
    let written: Vec<(i32, i32)> = store.take_writes().iter().map(|w| w.0).collect();
    assert_eq!(written, vec![(0, 0), (1, 0)]);
}

#[test]
fn a_region_that_was_not_written_is_written_next_time() {
    let mut store = LodStore::new([1; 16]);
    store.set_dir("lod".to_string());
    store.load(0, 0, None);
    store.insert(0, 0, record(1));
    let files = store.flush();
    assert_eq!(files.len(), 1);
    assert_eq!(store.flush().len(), 0);
    store.mark_changed(0, 0);
    assert_eq!(store.flush(), files);
    let mut client = ClientStore::new(4);
    client.open("client".to_string(), [1; 16]);
    client.load(0, 0, None);
    let mut batch = Vec::new();
    full_entry(&mut batch, 1, 2, 7);
    client.put_batch(&batch, 0, 0);
    assert_eq!(client.flush().len(), 1);
    client.mark_changed(0, 0);
    assert_eq!(client.flush().len(), 1);
}

#[test]
fn clients_hold_the_last_full_record() {
    let mut store = LodStore::new([0; 16]);
    store.insert(1, 0, record(1));
    let mut client = ClientStore::new(16);
    let mut coarse = Vec::new();
    SendTracker::new().batch(&mut store, 0, 0, 1, 0, 1, &mut coarse);
    let mut full = Vec::new();
    full_entry(&mut full, 1, 0, 5);
    assert_eq!(client.put_batch(&coarse, 0, 0), Some(1));
    assert!(matches!(client.get_any(1, 0), Some(RecordRef::Coarse(_))));
    assert_eq!(client.put_batch(&full, 0, 0), Some(1));
    assert_eq!(client.put_batch(&coarse, 0, 0), Some(1));
    match client.get_any(1, 0) {
        Some(RecordRef::Full(r)) => assert_eq!(*r, record(5)),
        _ => panic!("the full record stays"),
    }
}

#[test]
fn what_a_client_has_is_in_no_batch_until_refreshed() {
    let mut store = LodStore::new([0; 16]);
    for x in 0..3 {
        store.insert(x, 0, record(x as i16));
    }
    let mut tracker = SendTracker::new();
    let mut bitmap = vec![0u8; 128];
    bitmap[0] = 0b10;
    tracker.mark_have(0, 0, &bitmap);
    assert_eq!(tracker.sent_count(), 1);
    let mut out = Vec::new();
    assert_eq!(tracker.batch(&mut store, 0, 0, 3, 3, 10, &mut out), 2, "not chunk (1, 0)");
    store.insert(7, 7, record(7));
    assert_eq!(tracker.batch(&mut store, 0, 0, 3, 3, 10, &mut out), 0);
    store.refresh(1, 0, &[5; COLUMNS], &[6; COLUMNS], &[0; COLUMNS], &[6; COLUMNS]);
    assert_eq!(tracker.batch(&mut store, 0, 0, 3, 3, 10, &mut out), 1);
}

#[test]
fn a_player_who_comes_back_is_served_again() {
    let mut store = LodStore::new([0; 16]);
    store.insert(0, 0, record(1));
    store.insert(100, 0, record(2));
    let mut tracker = SendTracker::new();
    let mut out = Vec::new();
    assert_eq!(tracker.batch(&mut store, 0, 0, 0, 0, 1, &mut out), 1);
    assert_eq!(tracker.batch(&mut store, 0, 0, 0, 0, 1, &mut out), 0);
    assert_eq!(tracker.batch(&mut store, 100, 0, 0, 0, 1, &mut out), 1);
    assert_eq!(tracker.batch(&mut store, 0, 0, 0, 0, 1, &mut out), 1, "left behind, so sent again");
    assert_eq!(out.len(), 3 * BATCH_ENTRY_BYTES);
    assert_eq!(out[..BATCH_ENTRY_BYTES], out[2 * BATCH_ENTRY_BYTES..]);
}

#[test]
fn a_batch_is_the_smaller_of_its_size_and_what_lacks() {
    let mut store = LodStore::new([0; 16]);
    for x in 0..4 {
        store.insert(x, 0, record(x as i16));
    }
    let mut tracker = SendTracker::new();
    let mut out = Vec::new();
    assert_eq!(tracker.batch(&mut store, 0, 0, 4, 4, 3, &mut out), 3);
    assert_eq!(tracker.batch(&mut store, 0, 0, 4, 4, 3, &mut out), 1);
    assert_eq!(tracker.batch(&mut store, 0, 0, 4, 4, 3, &mut out), 0);
    store.refresh(2, 0, &[5; COLUMNS], &[6; COLUMNS], &[0; COLUMNS], &[6; COLUMNS]);
    assert_eq!(tracker.batch(&mut store, 0, 0, 4, 4, 3, &mut out), 1, "only what was refreshed");
}
