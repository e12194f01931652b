use anvil_store::anvil::{BlockRegistry, ChunkData, ChunkHeightmaps};
use anvil_store::block::BlockDirection;
use anvil_store::compression::Compression;
use anvil_store::gamemode::{GameMode, OptionalGameMode};
use anvil_store::palette::{bits_per_index, build_palette, pack_indices, unpack_indices};
use anvil_store::position::BlockPos;
use anvil_store::region::{region_coordinates, local_chunk_index, AnvilSaver, ChunkStorageReadingError};
use anvil_store::store::{load_chunk, save_chunk};
use anvil_store::vector2::Vec2;
use anvil_store::vector3::Vec3;

fn registry() -> BlockRegistry {
    BlockRegistry {
        names: vec![
            b"minecraft:air".to_vec(),
            b"minecraft:stone".to_vec(),
            b"minecraft:dirt".to_vec(),
            b"minecraft:grass_block".to_vec(),
        ],
    }
}

fn sample_chunk(x: i32, z: i32) -> ChunkData {
    let mut subchunks = Vec::new();
    for s in 0..24u16 {
        let mut blocks = Vec::with_capacity(4096);
        for k in 0..4096u32 {
            blocks.push(((k as u16).wrapping_mul(7).wrapping_add(s) % 4) as u16);
        }
        subchunks.push(blocks);
    }
    ChunkData {
        position: Vec2 { x, z },
        heightmap: ChunkHeightmaps {
            motion_blocking: vec![1, -2, 3],
            world_surface: vec![i64::MIN, 0, i64::MAX],
        },
        subchunks,
    }
}

fn empty_table() -> Vec<u8> {
    vec![0u8; 4096]
}

fn set_entry(table: &mut Vec<u8>, idx: usize, offset: u32, count: u8) {
    table[idx * 4] = (offset >> 16) as u8;
    table[idx * 4 + 1] = (offset >> 8) as u8;
    table[idx * 4 + 2] = offset as u8;
    table[idx * 4 + 3] = count;
}

#[test]
fn allocator_finds_internal_gap() {
    // occupied runs [2,5) and [8,10): three sectors fit in the gap at 5
    let mut table = empty_table();
    set_entry(&mut table, 0, 2, 3);
    set_entry(&mut table, 1, 8, 2);
    assert_eq!(AnvilSaver.find_free_sector(&table, 3), 5);
}

#[test]
fn allocator_appends_when_no_gap_fits() {
    // five sectors do not fit between the runs, so the file grows at 10
    let mut table = empty_table();
    set_entry(&mut table, 0, 2, 3);
    set_entry(&mut table, 1, 8, 2);
    assert_eq!(AnvilSaver.find_free_sector(&table, 5), 10);
}

#[test]
fn allocator_starts_at_two_on_empty_table() {
    let table = empty_table();
    assert_eq!(AnvilSaver.find_free_sector(&table, 1), 2);
}

#[test]
fn negative_chunk_coordinates_shift_arithmetically() {
    let r = region_coordinates(&Vec2 { x: -1, z: -1 });
    assert_eq!((r.x, r.z), (-1, -1));
    assert_eq!(local_chunk_index(&Vec2 { x: -1, z: -1 }), 1023);
    let r2 = region_coordinates(&Vec2 { x: 31, z: -32 });
    assert_eq!((r2.x, r2.z), (0, -1));
    assert_eq!(local_chunk_index(&Vec2 { x: 33, z: 2 }), 1 + 2 * 32);
}

#[test]
fn palette_roundtrip_mixed_blocks() {
    let mut blocks = Vec::new();
    for k in 0..4096u32 {
        blocks.push((k % 37) as u16);
    }
    let palette = build_palette(&blocks);
    assert_eq!(palette.len(), 37);
    let bits = bits_per_index(palette.len());
    assert_eq!(bits, 6);
    let words = pack_indices(&blocks, &palette, bits);
    // ten indices per 64-bit word, never split across words
    assert_eq!(words.len(), (4096 + 9) / 10);
    let out = unpack_indices(&palette, &words, bits, 4096).expect("stream must decode");
    assert_eq!(out, blocks);
}

#[test]
fn palette_of_one_block_still_packs_four_bits() {
    let blocks = vec![9u16; 4096];
    let palette = build_palette(&blocks);
    assert_eq!(palette, vec![9u16]);
    let bits = bits_per_index(palette.len());
    assert_eq!(bits, 4);
    let words = pack_indices(&blocks, &palette, bits);
    assert_eq!(words.len(), 256);
    assert!(words.iter().all(|w| *w == 0));
    let out = unpack_indices(&palette, &words, bits, 4096).expect("stream must decode");
    assert!(out.iter().all(|b| *b == 9));
}

#[test]
fn bits_per_index_is_at_least_four_and_grows_with_the_palette() {
    assert_eq!(bits_per_index(1), 4);
    assert_eq!(bits_per_index(16), 4);
    assert_eq!(bits_per_index(17), 5);
    assert_eq!(bits_per_index(33), 6);
    assert_eq!(bits_per_index(4096), 12);
}

#[test]
fn unpack_rejects_an_index_past_the_palette() {
    let palette = vec![5u16, 6u16];
    // every slot holds index 3, but the palette has two entries
    let words = vec![0x3333333333333333u64 as i64; 256];
    assert!(unpack_indices(&palette, &words, 4, 4096).is_none());
}

#[test]
fn chunk_roundtrip_through_region_file() {
    let reg = registry();
    let at = Vec2 { x: -3, z: 7 };
    let chunk = sample_chunk(-3, 7);
    let mut file: Vec<u8> = Vec::new();
    save_chunk(&chunk, &mut file, &at, &reg, 1_700_000_000).expect("save must succeed");
    assert!(file.len() >= 8192 && file.len() % 4096 == 0);
    let loaded = load_chunk(&Some(file), &at, &reg).expect("load must succeed");
    assert_eq!(loaded.position.x, -3);
    assert_eq!(loaded.position.z, 7);
    assert_eq!(loaded.subchunks, chunk.subchunks);
    assert_eq!(loaded.heightmap.motion_blocking, chunk.heightmap.motion_blocking);
    assert_eq!(loaded.heightmap.world_surface, chunk.heightmap.world_surface);
}

#[test]
fn rewriting_a_chunk_that_fits_keeps_its_offset() {
    let reg = registry();
    let at = Vec2 { x: 0, z: 0 };
    let chunk = sample_chunk(0, 0);
    let mut file: Vec<u8> = Vec::new();
    save_chunk(&chunk, &mut file, &at, &reg, 10).expect("first save");
    let idx = local_chunk_index(&at);
    let offset_before =
        u32::from_be_bytes([0, file[idx * 4], file[idx * 4 + 1], file[idx * 4 + 2]]);
    // a uniform chunk compresses smaller, so it fits the old run in place
    let uniform = ChunkData {
        position: Vec2 { x: 0, z: 0 },
        heightmap: ChunkHeightmaps { motion_blocking: vec![], world_surface: vec![] },
        subchunks: vec![vec![0u16; 4096]; 24],
    };
    save_chunk(&uniform, &mut file, &at, &reg, 11).expect("second save");
    let offset_after =
        u32::from_be_bytes([0, file[idx * 4], file[idx * 4 + 1], file[idx * 4 + 2]]);
    assert_eq!(offset_before, offset_after);
}

#[test]
fn two_chunks_in_one_region_do_not_clobber_each_other() {
    let reg = registry();
    let a = Vec2 { x: 1, z: 0 };
    let b = Vec2 { x: 2, z: 0 };
    let chunk_a = sample_chunk(1, 0);
    let chunk_b = sample_chunk(2, 0);
    let mut file: Vec<u8> = Vec::new();
    save_chunk(&chunk_a, &mut file, &a, &reg, 1).expect("save a");
    save_chunk(&chunk_b, &mut file, &b, &reg, 2).expect("save b");
    let opt = Some(file);
    let la = load_chunk(&opt, &a, &reg).expect("load a");
    let lb = load_chunk(&opt, &b, &reg).expect("load b");
    assert_eq!(la.subchunks, chunk_a.subchunks);
    assert_eq!(lb.subchunks, chunk_b.subchunks);
}

#[test]
fn missing_region_file_means_chunk_not_exist() {
    let reg = registry();
    let r = load_chunk(&None, &Vec2 { x: 0, z: 0 }, &reg);
    assert!(matches!(r, Err(ChunkStorageReadingError::ChunkNotExist)));
}

#[test]
fn empty_entry_means_chunk_not_exist() {
    let reg = registry();
    let file = Some(vec![0u8; 8192]);
    let r = load_chunk(&file, &Vec2 { x: 0, z: 0 }, &reg);
    assert!(matches!(r, Err(ChunkStorageReadingError::ChunkNotExist)));
}

#[test]
fn truncated_region_file_is_invalid_not_a_panic() {
    let reg = registry();
    let at = Vec2 { x: 0, z: 0 };
    let chunk = sample_chunk(0, 0);
    let mut file: Vec<u8> = Vec::new();
    save_chunk(&chunk, &mut file, &at, &reg, 5).expect("save");
    file.truncate(8192 + 100);
    let r = load_chunk(&Some(file), &at, &reg);
    assert!(matches!(r, Err(ChunkStorageReadingError::RegionIsInvalid)));
}

#[test]
fn garbage_payload_is_an_invalid_header() {
    let reg = registry();
    let mut file = vec![0u8; 8192 + 4096];
    // entry 0 points at sector 2, one sector long, but the payload is zeroes
    set_entry(&mut file, 0, 2, 1);
    let r = load_chunk(&Some(file), &Vec2 { x: 0, z: 0 }, &reg);
    assert!(matches!(r, Err(ChunkStorageReadingError::InvalidHeader)));
}

#[test]
fn compression_scheme_bytes_roundtrip() {
    assert_eq!(Compression::from_byte(0).unwrap(), None);
    assert_eq!(Compression::from_byte(1).unwrap(), Some(Compression::GZip));
    assert_eq!(Compression::from_byte(2).unwrap(), Some(Compression::ZLib));
    assert!(Compression::from_byte(9).is_err());
    assert_eq!(Compression::ZLib.to_byte(), 2);
    assert_eq!(Compression::GZip.to_byte(), 1);
}

#[test]
fn zlib_and_gzip_roundtrip_payloads() {
    let data: Vec<u8> = (0..2000u32).map(|k| (k % 251) as u8).collect();
    for scheme in [Compression::ZLib, Compression::GZip] {
        let packed = scheme.compress_data(&data, 6).expect("compress");
        let unpacked = scheme.decompress_data(&packed).expect("decompress");
        assert_eq!(unpacked, data);
    }
    assert!(Compression::ZLib.decompress_data(&vec![1, 2, 3]).is_err());
}

#[test]
fn block_position_splits_into_chunk_and_remainder() {
    let (chunk, rel) = BlockPos(Vec3 { x: -1, y: 70, z: 33 }).chunk_and_chunk_relative_position();
    assert_eq!((chunk.x, chunk.z), (-1, 2));
    assert_eq!((rel.x, rel.y, rel.z), (15, 70, 1));
}

#[test]
fn game_mode_names_parse() {
    assert_eq!("survival".parse::<GameMode>(), Ok(GameMode::Survival));
    assert_eq!("spectator".parse::<GameMode>(), Ok(GameMode::Spectator));
    assert_eq!(
        "flying".parse::<GameMode>(),
        Err(anvil_store::gamemode::ParseGameModeError)
    );
}

#[test]
fn directions_and_game_modes_decode() {
    assert_eq!(BlockDirection::Top.opposite(), BlockDirection::Bottom);
    let off = BlockDirection::North.to_offset();
    assert_eq!((off.x, off.y, off.z), (0, 0, -1));
    assert!(BlockDirection::try_from(6).is_err());
    assert_eq!(BlockDirection::try_from(4).unwrap(), BlockDirection::West);
    assert_eq!(GameMode::from(2), GameMode::Adventure);
    assert_eq!(GameMode::from(250), GameMode::Survival);
    assert_eq!(GameMode::Spectator.to_optional(), OptionalGameMode::Spectator);
    assert_eq!(OptionalGameMode::from(-1), OptionalGameMode::Undefined);
}

#[test]
fn vectors_do_componentwise_arithmetic() {
    let a = Vec3::new(1, 2, 3);
    let b = Vec3::new(4, -5, 6);
    let s = a.add(&b);
    assert_eq!((s.x, s.y, s.z), (5, -3, 9));
    let d = a.sub(&b);
    assert_eq!((d.x, d.y, d.z), (-3, 7, -3));
    assert_eq!(a.length_squared(), 14);
    assert_eq!(a.squared_distance_to(4, 6, 3), 25);
    let v2 = Vec2::new(3, 4).multiply(2, 3);
    assert_eq!((v2.x, v2.z), (6, 12));
    assert_eq!(Vec2::new(3, 4).length_squared(), 25);
    let sp = Vec3::splat(7u8);
    assert_eq!((sp.x, sp.y, sp.z), (7, 7, 7));
}
