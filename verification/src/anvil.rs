use vstd::prelude::*;
use crate::byteops::{be16_bytes, be32_bytes, copy_range, u16_from_be, u32_from_be, u64_from_be};
use crate::nbt::{nbt_named, nbt_str, nbt_int, nbt_long_array, push_named, push_str, push_int_field, push_long_array_field, TAG_END, TAG_BYTE, TAG_INT, TAG_STRING, TAG_LIST, TAG_COMPOUND, TAG_LONG_ARRAY, nm_data_version, nm_x_pos, nm_z_pos, nm_status, nm_sections, nm_heightmaps, nm_y, nm_block_states, nm_data, nm_palette, nm_name, nm_motion_blocking, nm_world_surface, nm_full_status, nm_data_version_vec, nm_x_pos_vec, nm_z_pos_vec, nm_status_vec, nm_sections_vec, nm_heightmaps_vec, nm_y_vec, nm_block_states_vec, nm_data_vec, nm_palette_vec, nm_name_vec, nm_motion_blocking_vec, nm_world_surface_vec, nm_full_status_vec, longs_bytes};
use crate::palette::{bits_for_palette, bits_per_index, build_palette, extract_at, first_index, pack_indices, slots_in_word, spec_palette, unpack_indices, word_in_bounds, SUBCHUNK_VOLUME};
use crate::region::{ChunkParsingError, ChunkStorageReadingError, ChunkStorageWritingError};
use crate::vector2::Vec2;

verus! {

/// The world format version this engine writes.
pub const WORLD_DATA_VERSION: i32 = 4189;

/// The number of vertical sections a chunk column holds.
pub const SECTIONS_PER_CHUNK: usize = 24;

/// The derived heightmap data stored with a chunk; opaque to the engine
/// beyond its two packed long arrays.
pub struct ChunkHeightmaps {
    pub motion_blocking: Vec<i64>,
    pub world_surface: Vec<i64>,
}

/// A chunk column held in memory: its position, its heightmaps and its 24
/// sections of 4096 block-state identifiers each, bottom section first.
pub struct ChunkData {
    pub position: Vec2<i32>,
    pub heightmap: ChunkHeightmaps,
    pub subchunks: Vec<Vec<u16>>,
}

/// Maps block-state identifiers to the block names the on-disk palette
/// stores: the identifier is the index into `names`.
pub struct BlockRegistry {
    pub names: Vec<Vec<u8>>,
}

pub open spec fn heightmaps_wf(h: &ChunkHeightmaps) -> bool {
    &&& h.motion_blocking@.len() < 0x80000000
    &&& h.world_surface@.len() < 0x80000000
}

pub open spec fn chunk_data_wf(c: &ChunkData) -> bool {
    &&& c.subchunks@.len() == SECTIONS_PER_CHUNK
    &&& forall|i: int|
        0 <= i < SECTIONS_PER_CHUNK ==> #[trigger] c.subchunks@[i]@.len() == SUBCHUNK_VOLUME
    &&& heightmaps_wf(&c.heightmap)
}

pub open spec fn registry_wf(r: &BlockRegistry) -> bool {
    &&& 1 <= r.names@.len() <= 65536
    &&& forall|i: int| 0 <= i < r.names@.len() ==> #[trigger] r.names@[i]@.len() < 65536
    &&& forall|i: int, j: int|
        0 <= i < r.names@.len() && 0 <= j < r.names@.len() && i != j ==> r.names@[i]@
            != r.names@[j]@
}

/// The registry's names as byte strings.
pub open spec fn reg_view(r: &BlockRegistry) -> Seq<Seq<u8>> {
    r.names@.map_values(|n: Vec<u8>| n@)
}

/// Whether every block state of a chunk is one the registry can name.
pub open spec fn chunk_ids_in_registry(c: &ChunkData, r: &BlockRegistry) -> bool {
    forall|i: int, k: int|
        0 <= i < c.subchunks@.len() && 0 <= k < c.subchunks@[i]@.len()
            ==> #[trigger] c.subchunks@[i]@[k] < r.names@.len()
}

// ---- the byte-exact document encoding ----

/// One palette entry: a compound holding the block name.
pub open spec fn pal_entry_bytes(name: Seq<u8>) -> Seq<u8> {
    nbt_named(TAG_STRING, nm_name(), nbt_str(name)) + seq![TAG_END]
}

pub open spec fn pal_entries_bytes(pal: Seq<Seq<u8>>) -> Seq<u8>
    decreases pal.len(),
{
    if pal.len() == 0 {
        Seq::empty()
    } else {
        pal_entries_bytes(pal.drop_last()) + pal_entry_bytes(pal.last())
    }
}

/// The block_states compound of one section: the packed data, then the
/// palette list.
pub open spec fn block_states_bytes(pal: Seq<Seq<u8>>, data: Seq<i64>) -> Seq<u8> {
    nbt_named(TAG_LONG_ARRAY, nm_data(), nbt_long_array(data)) + (seq![TAG_LIST] + nbt_str(
        nm_palette(),
    ) + seq![TAG_COMPOUND] + be32_bytes(pal.len() as u32) + pal_entries_bytes(pal)) + seq![TAG_END]
}

/// One section compound: its Y index and its block_states.
pub open spec fn section_bytes(y: i8, pal: Seq<Seq<u8>>, data: Seq<i64>) -> Seq<u8> {
    nbt_named(TAG_BYTE, nm_y(), seq![y as u8]) + nbt_named(
        TAG_COMPOUND,
        nm_block_states(),
        block_states_bytes(pal, data),
    ) + seq![TAG_END]
}

pub open spec fn sections_bytes(secs: Seq<(i8, Seq<Seq<u8>>, Seq<i64>)>) -> Seq<u8>
    decreases secs.len(),
{
    if secs.len() == 0 {
        Seq::empty()
    } else {
        sections_bytes(secs.drop_last()) + section_bytes(
            secs.last().0,
            secs.last().1,
            secs.last().2,
        )
    }
}

/// The Heightmaps compound.
pub open spec fn heightmaps_bytes(mb: Seq<i64>, ws: Seq<i64>) -> Seq<u8> {
    nbt_named(TAG_LONG_ARRAY, nm_motion_blocking(), nbt_long_array(mb)) + nbt_named(
        TAG_LONG_ARRAY,
        nm_world_surface(),
        nbt_long_array(ws),
    ) + seq![TAG_END]
}

/// The whole chunk document: a root compound with an empty name holding the
/// format version, the chunk position, its status, its sections and its
/// heightmaps, in that order.
pub open spec fn encode_doc(
    ver: i32,
    x: i32,
    z: i32,
    status: Seq<u8>,
    secs: Seq<(i8, Seq<Seq<u8>>, Seq<i64>)>,
    mb: Seq<i64>,
    ws: Seq<i64>,
) -> Seq<u8> {
    seq![TAG_COMPOUND] + be16_bytes(0) + nbt_named(TAG_INT, nm_data_version(), nbt_int(ver))
        + nbt_named(TAG_INT, nm_x_pos(), nbt_int(x)) + nbt_named(TAG_INT, nm_z_pos(), nbt_int(z))
        + nbt_named(TAG_STRING, nm_status(), nbt_str(status)) + (seq![TAG_LIST] + nbt_str(
        nm_sections(),
    ) + seq![TAG_COMPOUND] + be32_bytes(secs.len() as u32) + sections_bytes(secs)) + nbt_named(
        TAG_COMPOUND,
        nm_heightmaps(),
        heightmaps_bytes(mb, ws),
    ) + seq![TAG_END]
}

/// What the writer guarantees of the section triple it stored for one
/// subchunk: the Y index, the palette of names in first-occurrence order of
/// the deduplicated block states, and a packed stream whose slots hold each
/// block's palette index and whose spare high bits are zero.
pub open spec fn sec_ok(
    sec: (i8, Seq<Seq<u8>>, Seq<i64>),
    blocks: Seq<u16>,
    reg: Seq<Seq<u8>>,
    y: i8,
) -> bool {
    let pal_ids = spec_palette(blocks);
    let bits = bits_for_palette(pal_ids.len());
    &&& sec.0 == y
    &&& sec.1.len() == pal_ids.len()
    &&& forall|j: int| 0 <= j < pal_ids.len() ==> sec.1[j] == reg[pal_ids[j] as int]
    &&& forall|k: int|
        0 <= k < blocks.len() ==> extract_at(sec.2, bits, k) == first_index(pal_ids, blocks[k])
    &&& forall|w: int|
        0 <= w < sec.2.len() ==> word_in_bounds(
            sec.2[w],
            slots_in_word(blocks.len() as int, bits as int, w),
            bits as int,
        )
    &&& sec.2.len() == (blocks.len() as int + 64int / bits as int - 1) / (64int / bits as int)
    &&& sec.2.len() < 0x80000000
}

/// Copies a block name out of the registry.
fn clone_bytes(v: &Vec<u8>) -> (r: Vec<u8>)
    ensures
        r@ == v@,
{
    copy_range(v, 0, v.len())
}

/// The chunk document format: how a chunk column is serialized to the bytes
/// a region file stores, and read back.
#[derive(Clone, Default)]
pub struct AnvilChunkFormat;

impl AnvilChunkFormat {
    /// Serializes a chunk column: every section's blocks are deduplicated
    /// into a palette of names, its indices are bit-packed, and the whole
    /// document is laid out byte-exactly as `encode_doc` states, marked as a
    /// fully generated chunk. Serializing never fails on well-formed input.
    #[verifier::rlimit(80)]
    pub fn save_chunk(&self, chunk_data: &ChunkData, at: &Vec2<i32>, registry: &BlockRegistry) -> (r:
        Result<Vec<u8>, ChunkStorageWritingError>)
        requires
            chunk_data_wf(chunk_data),
            registry_wf(registry),
            chunk_ids_in_registry(chunk_data, registry),
        ensures
            r matches Ok(bytes) && (exists|secs: Seq<(i8, Seq<Seq<u8>>, Seq<i64>)>|
                {
                    &&& secs.len() == SECTIONS_PER_CHUNK
                    &&& (forall|i: int|
                        0 <= i < SECTIONS_PER_CHUNK ==> #[trigger] sec_ok(
                            secs[i],
                            chunk_data.subchunks@[i]@,
                            reg_view(registry),
                            (i - 4) as i8,
                        ))
                    &&& bytes@ == encode_doc(
                        WORLD_DATA_VERSION,
                        chunk_data.position.x,
                        chunk_data.position.z,
                        nm_full_status(),
                        secs,
                        chunk_data.heightmap.motion_blocking@,
                        chunk_data.heightmap.world_surface@,
                    )
                }),
    {
        proof {
            crate::nbt::lemma_nm_lens();
        }
        let ghost reg = reg_view(registry);
        let mut out: Vec<u8> = Vec::new();
        out.push(TAG_COMPOUND);
        crate::byteops::push_u16_be(&mut out, 0);
        let n_dv = nm_data_version_vec();
        push_int_field(&mut out, &n_dv, WORLD_DATA_VERSION);
        let n_x = nm_x_pos_vec();
        push_int_field(&mut out, &n_x, chunk_data.position.x);
        let n_z = nm_z_pos_vec();
        push_int_field(&mut out, &n_z, chunk_data.position.z);
        let n_st = nm_status_vec();
        push_named(&mut out, TAG_STRING, &n_st);
        let full = nm_full_status_vec();
        push_str(&mut out, &full);
        let n_secs = nm_sections_vec();
        push_named(&mut out, TAG_LIST, &n_secs);
        out.push(TAG_COMPOUND);
        crate::byteops::push_u32_be(&mut out, SECTIONS_PER_CHUNK as u32);
        let ghost head = out@;
        let ghost mut secs: Seq<(i8, Seq<Seq<u8>>, Seq<i64>)> = Seq::empty();
        let mut i: usize = 0;
        while i < SECTIONS_PER_CHUNK
            invariant
                chunk_data_wf(chunk_data),
                registry_wf(registry),
                chunk_ids_in_registry(chunk_data, registry),
                reg == reg_view(registry),
                i <= SECTIONS_PER_CHUNK,
                secs.len() == i,
                forall|si: int|
                    0 <= si < i ==> #[trigger] sec_ok(
                        secs[si],
                        chunk_data.subchunks@[si]@,
                        reg,
                        (si - 4) as i8,
                    ),
                out@ == head + sections_bytes(secs),
            decreases SECTIONS_PER_CHUNK - i,
        {
            proof {
                crate::nbt::lemma_nm_lens();
            }
            let blocks: &Vec<u16> = &chunk_data.subchunks[i];
            let pal_ids: Vec<u16> = build_palette(blocks);
            let bits: usize = bits_per_index(pal_ids.len());
            let words: Vec<i64> = pack_indices(blocks, &pal_ids, bits);
            proof {
                assert forall|q: int|
                    0 <= q < pal_ids@.len() implies pal_ids@[q] < registry.names@.len() by {
                    assert(pal_ids@.contains(pal_ids@[q]));
                    assert(blocks@.contains(pal_ids@[q]));
                    let w = choose|w: int| 0 <= w < blocks@.len() && blocks@[w] == pal_ids@[q];
                    assert(chunk_data.subchunks@[i as int]@[w] < registry.names@.len());
                }
            }
            let mut names: Vec<Vec<u8>> = Vec::new();
            let mut j: usize = 0;
            while j < pal_ids.len()
                invariant
                    registry_wf(registry),
                    reg == reg_view(registry),
                    j <= pal_ids@.len(),
                    forall|q: int| 0 <= q < pal_ids@.len() ==> pal_ids@[q] < registry.names@.len(),
                    names@.len() == j,
                    forall|q: int| 0 <= q < j ==> names@[q]@ == reg[pal_ids@[q] as int],
                decreases pal_ids@.len() - j,
            {
                let id: u16 = pal_ids[j];
                names.push(clone_bytes(&registry.names[id as usize]));
                j = j + 1;
            }
            let y_val: i8 = (i as i8) - 4;
            let ghost sec_start = out@;
            let n_y = nm_y_vec();
            push_named(&mut out, TAG_BYTE, &n_y);
            out.push(y_val as u8);
            let n_bs = nm_block_states_vec();
            push_named(&mut out, TAG_COMPOUND, &n_bs);
            proof {
                crate::palette::lemma_bpw_bounds(bits as int);
                vstd::arithmetic::div_mod::lemma_div_nonincreasing(
                    blocks@.len() as int + 64int / bits as int - 1,
                    64int / bits as int,
                );
                assert(words@.len() < 0x80000000);
            }
            let n_data = nm_data_vec();
            push_long_array_field(&mut out, &n_data, &words);
            let n_pal = nm_palette_vec();
            push_named(&mut out, TAG_LIST, &n_pal);
            out.push(TAG_COMPOUND);
            crate::byteops::push_u32_be(&mut out, names.len() as u32);
            let ghost pal_start = out@;
            let mut pj: usize = 0;
            while pj < names.len()
                invariant
                    pj <= names@.len(),
                    forall|q: int| 0 <= q < names@.len() ==> #[trigger] names@[q]@.len() < 65536,
                    out@ == pal_start + pal_entries_bytes(
                        names@.subrange(0, pj as int).map_values(|n: Vec<u8>| n@),
                    ),
                decreases names@.len() - pj,
            {
                proof {
                    crate::nbt::lemma_nm_lens();
                }
                let n_name = nm_name_vec();
                push_named(&mut out, TAG_STRING, &n_name);
                push_str(&mut out, &names[pj]);
                out.push(TAG_END);
                proof {
                    let pre = names@.subrange(0, pj as int).map_values(|n: Vec<u8>| n@);
                    let now = names@.subrange(0, pj + 1).map_values(|n: Vec<u8>| n@);
                    assert(now.drop_last() =~= pre);
                    assert(now.last() == names@[pj as int]@);
                    assert(out@ =~= pal_start + pal_entries_bytes(now));
                }
                pj = pj + 1;
            }
            out.push(TAG_END);
            out.push(TAG_END);
            proof {
                let namesv = names@.map_values(|n: Vec<u8>| n@);
                assert(names@.subrange(0, names@.len() as int) =~= names@);
                assert(names@.subrange(0, names@.len() as int).map_values(|n: Vec<u8>| n@)
                    =~= namesv);
                assert(out@ =~= sec_start + section_bytes(y_val, namesv, words@));
                let sec = (y_val, namesv, words@);
                let blocks_v = chunk_data.subchunks@[i as int]@;
                assert(spec_palette(blocks_v) == pal_ids@);
                assert(words@.len() < 0x80000000) by {
                    crate::palette::lemma_bpw_bounds(bits as int);
                    vstd::arithmetic::div_mod::lemma_div_nonincreasing(
                        blocks_v.len() as int + 64int / bits as int - 1,
                        64int / bits as int,
                    );
                }
                assert(sec_ok(sec, blocks_v, reg, (i - 4) as i8));
                let ghost old_secs = secs;
                secs = secs.push(sec);
                assert(secs.drop_last() =~= old_secs);
                assert(secs.last() == sec);
                assert(sections_bytes(secs) == sections_bytes(old_secs) + section_bytes(
                    y_val,
                    namesv,
                    words@,
                ));
                assert(out@ =~= head + sections_bytes(secs));
            }
            i = i + 1;
        }
        let n_hm = nm_heightmaps_vec();
        push_named(&mut out, TAG_COMPOUND, &n_hm);
        let n_mb = nm_motion_blocking_vec();
        push_long_array_field(&mut out, &n_mb, &chunk_data.heightmap.motion_blocking);
        let n_ws = nm_world_surface_vec();
        push_long_array_field(&mut out, &n_ws, &chunk_data.heightmap.world_surface);
        out.push(TAG_END);
        out.push(TAG_END);
        proof {
            assert(out@ =~= encode_doc(
                WORLD_DATA_VERSION,
                chunk_data.position.x,
                chunk_data.position.z,
                nm_full_status(),
                secs,
                chunk_data.heightmap.motion_blocking@,
                chunk_data.heightmap.world_surface@,
            ));
        }
        Ok(out)
    }
}


// ---- the canonical parser, at the specification level ----

/// Whether the bytes at `pos` are exactly `pat`.
pub open spec fn match_at(b: Seq<u8>, pos: int, pat: Seq<u8>) -> bool {
    0 <= pos && pos + pat.len() <= b.len() && b.subrange(pos, pos + pat.len() as int) == pat
}

pub open spec fn p_exact(b: Seq<u8>, pos: int, pat: Seq<u8>) -> Option<int> {
    if match_at(b, pos, pat) {
        Some(pos + pat.len() as int)
    } else {
        None
    }
}

pub open spec fn p_u16(b: Seq<u8>, pos: int) -> Option<(u16, int)> {
    if 0 <= pos && pos + 2 <= b.len() {
        Some((u16_from_be(b[pos], b[pos + 1]), pos + 2))
    } else {
        None
    }
}

pub open spec fn p_u32(b: Seq<u8>, pos: int) -> Option<(u32, int)> {
    if 0 <= pos && pos + 4 <= b.len() {
        Some((u32_from_be(b[pos], b[pos + 1], b[pos + 2], b[pos + 3]), pos + 4))
    } else {
        None
    }
}

pub open spec fn p_str(b: Seq<u8>, pos: int) -> Option<(Seq<u8>, int)> {
    match p_u16(b, pos) {
        Some((n, p)) => if p + n <= b.len() {
            Some((b.subrange(p, p + n), p + n))
        } else {
            None
        },
        None => None,
    }
}

/// A tag byte followed by the field's name.
pub open spec fn p_named(b: Seq<u8>, pos: int, tag: u8, name: Seq<u8>) -> Option<int> {
    p_exact(b, pos, seq![tag] + nbt_str(name))
}

pub open spec fn p_named_i32(b: Seq<u8>, pos: int, name: Seq<u8>) -> Option<(i32, int)> {
    match p_named(b, pos, TAG_INT, name) {
        Some(p) => match p_u32(b, p) {
            Some((v, p2)) => Some((v as i32, p2)),
            None => None,
        },
        None => None,
    }
}

pub open spec fn p_longs(b: Seq<u8>, pos: int, n: nat) -> Option<(Seq<i64>, int)>
    decreases n,
{
    if n == 0 {
        Some((Seq::empty(), pos))
    } else if 0 <= pos && pos + 8 <= b.len() {
        match p_longs(b, pos + 8, (n - 1) as nat) {
            Some((rest, p)) => Some(
                (
                    seq![
                        u64_from_be(
                            b[pos],
                            b[pos + 1],
                            b[pos + 2],
                            b[pos + 3],
                            b[pos + 4],
                            b[pos + 5],
                            b[pos + 6],
                            b[pos + 7],
                        ) as i64,
                    ] + rest,
                    p,
                ),
            ),
            None => None,
        }
    } else {
        None
    }
}

pub open spec fn p_long_array(b: Seq<u8>, pos: int) -> Option<(Seq<i64>, int)> {
    match p_u32(b, pos) {
        Some((n, p)) => p_longs(b, p, n as nat),
        None => None,
    }
}

pub open spec fn p_named_long_array(b: Seq<u8>, pos: int, name: Seq<u8>) -> Option<(Seq<i64>, int)> {
    match p_named(b, pos, TAG_LONG_ARRAY, name) {
        Some(p) => p_long_array(b, p),
        None => None,
    }
}

pub open spec fn p_pal_entry(b: Seq<u8>, pos: int) -> Option<(Seq<u8>, int)> {
    match p_named(b, pos, TAG_STRING, nm_name()) {
        Some(p1) => match p_str(b, p1) {
            Some((nm, p2)) => match p_exact(b, p2, seq![TAG_END]) {
                Some(p3) => Some((nm, p3)),
                None => None,
            },
            None => None,
        },
        None => None,
    }
}

pub open spec fn p_pal_entries(b: Seq<u8>, pos: int, n: nat) -> Option<(Seq<Seq<u8>>, int)>
    decreases n,
{
    if n == 0 {
        Some((Seq::empty(), pos))
    } else {
        match p_pal_entry(b, pos) {
            Some((e, p)) => match p_pal_entries(b, p, (n - 1) as nat) {
                Some((es, p2)) => Some((seq![e] + es, p2)),
                None => None,
            },
            None => None,
        }
    }
}

pub open spec fn p_block_states(b: Seq<u8>, pos: int) -> Option<((Seq<Seq<u8>>, Seq<i64>), int)> {
    match p_named_long_array(b, pos, nm_data()) {
        Some((data, p1)) => match p_exact(
            b,
            p1,
            seq![TAG_LIST] + nbt_str(nm_palette()) + seq![TAG_COMPOUND],
        ) {
            Some(p2) => match p_u32(b, p2) {
                Some((n, p3)) => match p_pal_entries(b, p3, n as nat) {
                    Some((pal, p4)) => match p_exact(b, p4, seq![TAG_END]) {
                        Some(p5) => Some(((pal, data), p5)),
                        None => None,
                    },
                    None => None,
                },
                None => None,
            },
            None => None,
        },
        None => None,
    }
}

pub open spec fn p_section(b: Seq<u8>, pos: int) -> Option<((i8, Seq<Seq<u8>>, Seq<i64>), int)> {
    match p_named(b, pos, TAG_BYTE, nm_y()) {
        Some(p1) => if p1 + 1 <= b.len() {
            match p_named(b, p1 + 1, TAG_COMPOUND, nm_block_states()) {
                Some(p2) => match p_block_states(b, p2) {
                    Some(((pal, data), p3)) => match p_exact(b, p3, seq![TAG_END]) {
                        Some(p4) => Some(((b[p1] as i8, pal, data), p4)),
                        None => None,
                    },
                    None => None,
                },
                None => None,
            }
        } else {
            None
        },
        None => None,
    }
}

pub open spec fn p_sections(b: Seq<u8>, pos: int, n: nat) -> Option<
    (Seq<(i8, Seq<Seq<u8>>, Seq<i64>)>, int),
>
    decreases n,
{
    if n == 0 {
        Some((Seq::empty(), pos))
    } else {
        match p_section(b, pos) {
            Some((sc, p)) => match p_sections(b, p, (n - 1) as nat) {
                Some((scs, p2)) => Some((seq![sc] + scs, p2)),
                None => None,
            },
            None => None,
        }
    }
}

/// The document's leading fields: root header, format version, position,
/// status. Reading stops here when the status shows the chunk was never
/// fully generated.
pub open spec fn p_doc_prefix(b: Seq<u8>) -> Option<((i32, i32, i32, Seq<u8>), int)> {
    match p_exact(b, 0, seq![TAG_COMPOUND] + be16_bytes(0)) {
        Some(p0) => match p_named_i32(b, p0, nm_data_version()) {
            Some((ver, p1)) => match p_named_i32(b, p1, nm_x_pos()) {
                Some((x, p2)) => match p_named_i32(b, p2, nm_z_pos()) {
                    Some((z, p3)) => match p_named(b, p3, TAG_STRING, nm_status()) {
                        Some(p4) => match p_str(b, p4) {
                            Some((st, p5)) => Some(((ver, x, z, st), p5)),
                            None => None,
                        },
                        None => None,
                    },
                    None => None,
                },
                None => None,
            },
            None => None,
        },
        None => None,
    }
}

/// The document's tail: the section list and the heightmaps, closed by the
/// heightmap compound's end and the root compound's end.
pub open spec fn p_doc_rest(b: Seq<u8>, pos: int) -> Option<
    ((Seq<(i8, Seq<Seq<u8>>, Seq<i64>)>, Seq<i64>, Seq<i64>), int),
> {
    match p_exact(b, pos, seq![TAG_LIST] + nbt_str(nm_sections()) + seq![TAG_COMPOUND]) {
        Some(p0) => match p_u32(b, p0) {
            Some((n, p1)) => match p_sections(b, p1, n as nat) {
                Some((secs, p2)) => match p_named(b, p2, TAG_COMPOUND, nm_heightmaps()) {
                    Some(p3) => match p_named_long_array(b, p3, nm_motion_blocking()) {
                        Some((mb, p4)) => match p_named_long_array(b, p4, nm_world_surface()) {
                            Some((ws, p5)) => match p_exact(b, p5, seq![TAG_END, TAG_END]) {
                                Some(p6) => Some(((secs, mb, ws), p6)),
                                None => None,
                            },
                            None => None,
                        },
                        None => None,
                    },
                    None => None,
                },
                None => None,
            },
            None => None,
        },
        None => None,
    }
}


// ---- the parser reads back exactly what the encoder wrote ----

/// Matching a concatenation is matching each part in turn.
pub proof fn lemma_match_split(b: Seq<u8>, pos: int, x: Seq<u8>, y: Seq<u8>)
    requires
        match_at(b, pos, x + y),
    ensures
        match_at(b, pos, x),
        match_at(b, pos + x.len(), y),
{
    assert forall|i: int| 0 <= i < x.len() implies b[pos + i] == x[i] by {
        assert(b.subrange(pos, pos + (x + y).len() as int)[i] == (x + y)[i]);
    }
    assert(b.subrange(pos, pos + x.len() as int) =~= x);
    assert forall|i: int| 0 <= i < y.len() implies b[pos + x.len() + i] == y[i] by {
        assert(b.subrange(pos, pos + (x + y).len() as int)[x.len() + i] == (x + y)[x.len() + i]);
    }
    assert(b.subrange(pos + x.len(), pos + x.len() + y.len() as int) =~= y);
}

pub proof fn lemma_p_u16_at(b: Seq<u8>, pos: int, v: u16)
    requires
        match_at(b, pos, be16_bytes(v)),
    ensures
        p_u16(b, pos) == Some((v, pos + 2)),
{
    assert(b[pos] == be16_bytes(v)[0] && b[pos + 1] == be16_bytes(v)[1]) by {
        assert(b.subrange(pos, pos + 2)[0] == be16_bytes(v)[0]);
        assert(b.subrange(pos, pos + 2)[1] == be16_bytes(v)[1]);
    }
    crate::byteops::lemma_be16_roundtrip(v);
}

pub proof fn lemma_p_u32_at(b: Seq<u8>, pos: int, v: u32)
    requires
        match_at(b, pos, be32_bytes(v)),
    ensures
        p_u32(b, pos) == Some((v, pos + 4)),
{
    assert forall|i: int| 0 <= i < 4 implies b[pos + i] == be32_bytes(v)[i] by {
        assert(b.subrange(pos, pos + 4)[i] == be32_bytes(v)[i]);
    }
    crate::byteops::lemma_be32_roundtrip(v);
}

pub proof fn lemma_p_named_i32_at(b: Seq<u8>, pos: int, name: Seq<u8>, v: i32)
    requires
        match_at(b, pos, nbt_named(TAG_INT, name, nbt_int(v))),
        name.len() < 65536,
    ensures
        p_named_i32(b, pos, name) == Some(
            (v, pos + nbt_named(TAG_INT, name, nbt_int(v)).len() as int),
        ),
{
    lemma_match_split(b, pos, seq![TAG_INT] + nbt_str(name), nbt_int(v));
    let p = pos + (seq![TAG_INT] + nbt_str(name)).len() as int;
    lemma_p_u32_at(b, p, v as u32);
    assert(((v as u32) as i32) == v) by (bit_vector);
}

pub proof fn lemma_p_str_at(b: Seq<u8>, pos: int, sv: Seq<u8>)
    requires
        match_at(b, pos, nbt_str(sv)),
        sv.len() < 65536,
    ensures
        p_str(b, pos) == Some((sv, pos + nbt_str(sv).len() as int)),
{
    lemma_match_split(b, pos, be16_bytes(sv.len() as u16), sv);
    lemma_p_u16_at(b, pos, sv.len() as u16);
    assert(b.subrange(pos + 2, pos + 2 + sv.len() as int) == sv);
}

/// The longs of a stream taken from the front.
pub proof fn lemma_longs_cons(a: Seq<i64>)
    requires
        a.len() > 0,
    ensures
        longs_bytes(a) == crate::byteops::be64_bytes(a.first() as u64) + longs_bytes(
            a.drop_first(),
        ),
    decreases a.len(),
{
    if a.len() == 1 {
        assert(a.drop_last() =~= Seq::<i64>::empty());
        assert(a.drop_first() =~= Seq::<i64>::empty());
        assert(longs_bytes(a) =~= crate::byteops::be64_bytes(a.first() as u64) + longs_bytes(
            a.drop_first(),
        ));
    } else {
        lemma_longs_cons(a.drop_last());
        assert(a.drop_last().first() == a.first());
        assert(a.drop_last().drop_first() =~= a.drop_first().drop_last());
        assert(longs_bytes(a) == longs_bytes(a.drop_last()) + crate::byteops::be64_bytes(
            a.last() as u64,
        ));
        assert(a.drop_first().last() == a.last());
        assert(longs_bytes(a.drop_first()) == longs_bytes(a.drop_first().drop_last())
            + crate::byteops::be64_bytes(a.last() as u64));
        assert(longs_bytes(a) =~= crate::byteops::be64_bytes(a.first() as u64) + longs_bytes(
            a.drop_first(),
        ));
    }
}

pub proof fn lemma_p_longs_at(b: Seq<u8>, pos: int, a: Seq<i64>)
    requires
        match_at(b, pos, longs_bytes(a)),
    ensures
        p_longs(b, pos, a.len()) == Some((a, pos + longs_bytes(a).len() as int)),
    decreases a.len(),
{
    if a.len() == 0 {
        assert(longs_bytes(a) =~= Seq::<u8>::empty());
    } else {
        lemma_longs_cons(a);
        let head = crate::byteops::be64_bytes(a.first() as u64);
        lemma_match_split(b, pos, head, longs_bytes(a.drop_first()));
        assert(head.len() == 8);
        assert forall|i: int| 0 <= i < 8 implies b[pos + i] == head[i] by {
            assert(b.subrange(pos, pos + 8)[i] == head[i]);
        }
        crate::byteops::lemma_be64_roundtrip(a.first() as u64);
        let v64 = a.first() as u64;
        assert((v64 as i64) == a.first()) by {
            let orig = a.first();
            assert(((orig as u64) as i64) == orig) by (bit_vector);
        }
        lemma_p_longs_at(b, pos + 8, a.drop_first());
        assert(seq![a.first()] + a.drop_first() =~= a);
    }
}

pub proof fn lemma_p_named_long_array_at(b: Seq<u8>, pos: int, name: Seq<u8>, a: Seq<i64>)
    requires
        match_at(b, pos, nbt_named(TAG_LONG_ARRAY, name, nbt_long_array(a))),
        name.len() < 65536,
        a.len() < 0x80000000,
    ensures
        p_named_long_array(b, pos, name) == Some(
            (a, pos + nbt_named(TAG_LONG_ARRAY, name, nbt_long_array(a)).len() as int),
        ),
{
    lemma_match_split(b, pos, seq![TAG_LONG_ARRAY] + nbt_str(name), nbt_long_array(a));
    let p = pos + (seq![TAG_LONG_ARRAY] + nbt_str(name)).len() as int;
    lemma_match_split(b, p, be32_bytes(a.len() as u32), longs_bytes(a));
    lemma_p_u32_at(b, p, a.len() as u32);
    lemma_p_longs_at(b, p + 4, a);
}

pub proof fn lemma_p_pal_entry_at(b: Seq<u8>, pos: int, name: Seq<u8>)
    requires
        match_at(b, pos, pal_entry_bytes(name)),
        name.len() < 65536,
    ensures
        p_pal_entry(b, pos) == Some((name, pos + pal_entry_bytes(name).len() as int)),
{
    crate::nbt::lemma_nm_lens();
    lemma_match_split(
        b,
        pos,
        nbt_named(TAG_STRING, nm_name(), nbt_str(name)),
        seq![TAG_END],
    );
    assert(pal_entry_bytes(name) =~= (seq![TAG_STRING] + nbt_str(nm_name())) + (nbt_str(name)
        + seq![TAG_END]));
    lemma_match_split(b, pos, seq![TAG_STRING] + nbt_str(nm_name()), nbt_str(name) + seq![TAG_END]);
    let p1 = pos + (seq![TAG_STRING] + nbt_str(nm_name())).len() as int;
    lemma_match_split(b, p1, nbt_str(name), seq![TAG_END]);
    lemma_p_str_at(b, p1, name);
}

pub proof fn lemma_pal_entries_cons(pal: Seq<Seq<u8>>)
    requires
        pal.len() > 0,
    ensures
        pal_entries_bytes(pal) == pal_entry_bytes(pal.first()) + pal_entries_bytes(
            pal.drop_first(),
        ),
    decreases pal.len(),
{
    if pal.len() == 1 {
        assert(pal.drop_last() =~= Seq::<Seq<u8>>::empty());
        assert(pal.drop_first() =~= Seq::<Seq<u8>>::empty());
        assert(pal_entries_bytes(pal) =~= pal_entry_bytes(pal.first()) + pal_entries_bytes(
            pal.drop_first(),
        ));
    } else {
        lemma_pal_entries_cons(pal.drop_last());
        assert(pal.drop_last().first() == pal.first());
        assert(pal.drop_last().drop_first() =~= pal.drop_first().drop_last());
        assert(pal.drop_first().last() == pal.last());
        assert(pal_entries_bytes(pal) =~= pal_entry_bytes(pal.first()) + pal_entries_bytes(
            pal.drop_first(),
        ));
    }
}

pub proof fn lemma_p_pal_entries_at(b: Seq<u8>, pos: int, pal: Seq<Seq<u8>>)
    requires
        match_at(b, pos, pal_entries_bytes(pal)),
        forall|j: int| 0 <= j < pal.len() ==> #[trigger] pal[j].len() < 65536,
    ensures
        p_pal_entries(b, pos, pal.len()) == Some(
            (pal, pos + pal_entries_bytes(pal).len() as int),
        ),
    decreases pal.len(),
{
    if pal.len() == 0 {
        assert(pal_entries_bytes(pal) =~= Seq::<u8>::empty());
    } else {
        lemma_pal_entries_cons(pal);
        lemma_match_split(
            b,
            pos,
            pal_entry_bytes(pal.first()),
            pal_entries_bytes(pal.drop_first()),
        );
        assert(pal.first().len() < 65536) by {
            assert(pal[0].len() < 65536);
        }
        lemma_p_pal_entry_at(b, pos, pal.first());
        assert(forall|j: int|
            0 <= j < pal.drop_first().len() ==> #[trigger] pal.drop_first()[j].len() < 65536);
        lemma_p_pal_entries_at(b, pos + pal_entry_bytes(pal.first()).len(), pal.drop_first());
        assert(seq![pal.first()] + pal.drop_first() =~= pal);
    }
}

pub proof fn lemma_p_block_states_at(b: Seq<u8>, pos: int, pal: Seq<Seq<u8>>, data: Seq<i64>)
    requires
        match_at(b, pos, block_states_bytes(pal, data)),
        forall|j: int| 0 <= j < pal.len() ==> #[trigger] pal[j].len() < 65536,
        pal.len() < 0x80000000,
        data.len() < 0x80000000,
    ensures
        p_block_states(b, pos) == Some(
            ((pal, data), pos + block_states_bytes(pal, data).len() as int),
        ),
{
    crate::nbt::lemma_nm_lens();
    let f1 = nbt_named(TAG_LONG_ARRAY, nm_data(), nbt_long_array(data));
    let listhead = seq![TAG_LIST] + nbt_str(nm_palette()) + seq![TAG_COMPOUND];
    let f2 = listhead + be32_bytes(pal.len() as u32) + pal_entries_bytes(pal);
    lemma_match_split(b, pos, f1 + f2, seq![TAG_END]);
    lemma_match_split(b, pos, f1, f2);
    lemma_p_named_long_array_at(b, pos, nm_data(), data);
    let p1 = pos + f1.len() as int;
    assert(f2 =~= listhead + (be32_bytes(pal.len() as u32) + pal_entries_bytes(pal)));
    lemma_match_split(b, p1, listhead, be32_bytes(pal.len() as u32) + pal_entries_bytes(pal));
    let p2 = p1 + listhead.len() as int;
    lemma_match_split(b, p2, be32_bytes(pal.len() as u32), pal_entries_bytes(pal));
    lemma_p_u32_at(b, p2, pal.len() as u32);
    lemma_p_pal_entries_at(b, p2 + 4, pal);
    assert(match_at(b, pos + (f1 + f2).len(), seq![TAG_END]));
}

pub proof fn lemma_p_section_at(b: Seq<u8>, pos: int, y: i8, pal: Seq<Seq<u8>>, data: Seq<i64>)
    requires
        match_at(b, pos, section_bytes(y, pal, data)),
        forall|j: int| 0 <= j < pal.len() ==> #[trigger] pal[j].len() < 65536,
        pal.len() < 0x80000000,
        data.len() < 0x80000000,
    ensures
        p_section(b, pos) == Some(
            ((y, pal, data), pos + section_bytes(y, pal, data).len() as int),
        ),
{
    crate::nbt::lemma_nm_lens();
    let f1 = nbt_named(TAG_BYTE, nm_y(), seq![y as u8]);
    let f2 = nbt_named(TAG_COMPOUND, nm_block_states(), block_states_bytes(pal, data));
    lemma_match_split(b, pos, f1 + f2, seq![TAG_END]);
    lemma_match_split(b, pos, f1, f2);
    lemma_match_split(b, pos, seq![TAG_BYTE] + nbt_str(nm_y()), seq![y as u8]);
    let p1 = pos + (seq![TAG_BYTE] + nbt_str(nm_y())).len() as int;
    assert(b[p1] == y as u8) by {
        assert(b.subrange(p1, p1 + 1)[0] == y as u8);
    }
    assert((b[p1] as i8) == y) by {
        let yy = y;
        assert(((yy as u8) as i8) == yy) by (bit_vector);
    }
    let p1b = pos + f1.len() as int;
    lemma_match_split(b, p1b, seq![TAG_COMPOUND] + nbt_str(nm_block_states()), block_states_bytes(pal, data));
    lemma_p_block_states_at(
        b,
        p1b + (seq![TAG_COMPOUND] + nbt_str(nm_block_states())).len(),
        pal,
        data,
    );
    assert(match_at(b, pos + (f1 + f2).len(), seq![TAG_END]));
}

/// Whether every section triple is small enough for the wire format.
pub open spec fn secs_wf(secs: Seq<(i8, Seq<Seq<u8>>, Seq<i64>)>) -> bool {
    forall|i: int|
        0 <= i < secs.len() ==> {
            &&& (#[trigger] secs[i]).1.len() < 0x80000000
            &&& secs[i].2.len() < 0x80000000
            &&& forall|j: int| 0 <= j < secs[i].1.len() ==> #[trigger] secs[i].1[j].len() < 65536
        }
}

pub proof fn lemma_sections_cons(secs: Seq<(i8, Seq<Seq<u8>>, Seq<i64>)>)
    requires
        secs.len() > 0,
    ensures
        sections_bytes(secs) == section_bytes(
            secs.first().0,
            secs.first().1,
            secs.first().2,
        ) + sections_bytes(secs.drop_first()),
    decreases secs.len(),
{
    if secs.len() == 1 {
        assert(secs.drop_last() =~= Seq::<(i8, Seq<Seq<u8>>, Seq<i64>)>::empty());
        assert(secs.drop_first() =~= Seq::<(i8, Seq<Seq<u8>>, Seq<i64>)>::empty());
        assert(sections_bytes(secs) =~= section_bytes(
            secs.first().0,
            secs.first().1,
            secs.first().2,
        ) + sections_bytes(secs.drop_first()));
    } else {
        lemma_sections_cons(secs.drop_last());
        assert(secs.drop_last().first() == secs.first());
        assert(secs.drop_last().drop_first() =~= secs.drop_first().drop_last());
        assert(secs.drop_first().last() == secs.last());
        assert(sections_bytes(secs) =~= section_bytes(
            secs.first().0,
            secs.first().1,
            secs.first().2,
        ) + sections_bytes(secs.drop_first()));
    }
}

#[verifier::rlimit(60)]
pub proof fn lemma_p_sections_at(b: Seq<u8>, pos: int, secs: Seq<(i8, Seq<Seq<u8>>, Seq<i64>)>)
    requires
        match_at(b, pos, sections_bytes(secs)),
        secs_wf(secs),
    ensures
        p_sections(b, pos, secs.len()) == Some(
            (secs, pos + sections_bytes(secs).len() as int),
        ),
    decreases secs.len(),
{
    if secs.len() == 0 {
        assert(sections_bytes(secs) =~= Seq::<u8>::empty());
    } else {
        lemma_sections_cons(secs);
        let head = section_bytes(secs.first().0, secs.first().1, secs.first().2);
        lemma_match_split(b, pos, head, sections_bytes(secs.drop_first()));
        assert(secs[0].1.len() < 0x80000000 && secs[0].2.len() < 0x80000000);
        lemma_p_section_at(b, pos, secs.first().0, secs.first().1, secs.first().2);
        assert(secs_wf(secs.drop_first())) by {
            assert(forall|i: int|
                0 <= i < secs.drop_first().len() ==> #[trigger] secs.drop_first()[i] == secs[i
                    + 1]);
        }
        lemma_p_sections_at(b, pos + head.len(), secs.drop_first());
        assert(seq![secs.first()] + secs.drop_first() =~= secs);
    }
}

/// The seven fields of the document in order, as byte offsets.
#[verifier::rlimit(100)]
#[verifier::spinoff_prover]
proof fn lemma_doc_split(
    ver: i32,
    x: i32,
    z: i32,
    status: Seq<u8>,
    secs: Seq<(i8, Seq<Seq<u8>>, Seq<i64>)>,
    mb: Seq<i64>,
    ws: Seq<i64>,
)
    ensures
        ({
            let b = encode_doc(ver, x, z, status, secs, mb, ws);
            let f0 = seq![TAG_COMPOUND] + be16_bytes(0);
            let f1 = nbt_named(TAG_INT, nm_data_version(), nbt_int(ver));
            let f2 = nbt_named(TAG_INT, nm_x_pos(), nbt_int(x));
            let f3 = nbt_named(TAG_INT, nm_z_pos(), nbt_int(z));
            let f4 = nbt_named(TAG_STRING, nm_status(), nbt_str(status));
            let f5 = seq![TAG_LIST] + nbt_str(nm_sections()) + seq![TAG_COMPOUND] + be32_bytes(
                secs.len() as u32,
            ) + sections_bytes(secs);
            let f6 = nbt_named(TAG_COMPOUND, nm_heightmaps(), heightmaps_bytes(mb, ws));
            let p0 = f0.len() as int;
            let p1 = p0 + f1.len();
            let p2 = p1 + f2.len();
            let p3 = p2 + f3.len();
            let p4 = p3 + f4.len();
            let p5 = p4 + f5.len();
            let p6 = p5 + f6.len();
            &&& match_at(b, 0, f0)
            &&& match_at(b, p0, f1)
            &&& match_at(b, p1, f2)
            &&& match_at(b, p2, f3)
            &&& match_at(b, p3, f4)
            &&& match_at(b, p4, f5)
            &&& match_at(b, p5, f6)
            &&& match_at(b, p6, seq![TAG_END])
            &&& b.len() == p6 + 1
        }),
{
    let b = encode_doc(ver, x, z, status, secs, mb, ws);
    let f0 = seq![TAG_COMPOUND] + be16_bytes(0);
    let f1 = nbt_named(TAG_INT, nm_data_version(), nbt_int(ver));
    let f2 = nbt_named(TAG_INT, nm_x_pos(), nbt_int(x));
    let f3 = nbt_named(TAG_INT, nm_z_pos(), nbt_int(z));
    let f4 = nbt_named(TAG_STRING, nm_status(), nbt_str(status));
    let f5 = seq![TAG_LIST] + nbt_str(nm_sections()) + seq![TAG_COMPOUND] + be32_bytes(
        secs.len() as u32,
    ) + sections_bytes(secs);
    let f6 = nbt_named(TAG_COMPOUND, nm_heightmaps(), heightmaps_bytes(mb, ws));
    let e01 = f0 + f1;
    let e02 = e01 + f2;
    let e03 = e02 + f3;
    let e04 = e03 + f4;
    let e05 = e04 + f5;
    let e06 = e05 + f6;
    assert(match_at(b, 0, e06 + seq![TAG_END])) by {
        assert(b == e06 + seq![TAG_END]);
        assert(b.subrange(0, b.len() as int) =~= b);
    }
    lemma_match_split(b, 0, e06, seq![TAG_END]);
    lemma_match_split(b, 0, e05, f6);
    lemma_match_split(b, 0, e04, f5);
    lemma_match_split(b, 0, e03, f4);
    lemma_match_split(b, 0, e02, f3);
    lemma_match_split(b, 0, e01, f2);
    lemma_match_split(b, 0, f0, f1);
}

/// Where the document's leading fields end: past the root header, the three
/// int fields and the status field.
pub open spec fn doc_prefix_end(status: Seq<u8>) -> int {
    3 + (7 + nm_data_version().len()) + (7 + nm_x_pos().len()) + (7 + nm_z_pos().len()) + (5
        + nm_status().len() + status.len() as int)
}

#[verifier::rlimit(100)]
#[verifier::spinoff_prover]
proof fn lemma_p_doc_a(
    ver: i32,
    x: i32,
    z: i32,
    status: Seq<u8>,
    secs: Seq<(i8, Seq<Seq<u8>>, Seq<i64>)>,
    mb: Seq<i64>,
    ws: Seq<i64>,
)
    requires
        status.len() < 65536,
    ensures
        p_doc_prefix(encode_doc(ver, x, z, status, secs, mb, ws)) == Some(
            ((ver, x, z, status), doc_prefix_end(status)),
        ),
{
    crate::nbt::lemma_nm_lens();
    let b = encode_doc(ver, x, z, status, secs, mb, ws);
    let f0 = seq![TAG_COMPOUND] + be16_bytes(0);
    let f1 = nbt_named(TAG_INT, nm_data_version(), nbt_int(ver));
    let f2 = nbt_named(TAG_INT, nm_x_pos(), nbt_int(x));
    let f3 = nbt_named(TAG_INT, nm_z_pos(), nbt_int(z));
    let f4 = nbt_named(TAG_STRING, nm_status(), nbt_str(status));
    lemma_doc_split(ver, x, z, status, secs, mb, ws);
    let p0 = f0.len() as int;
    let p1 = p0 + f1.len();
    let p2 = p1 + f2.len();
    let p3 = p2 + f3.len();
    lemma_p_named_i32_at(b, p0, nm_data_version(), ver);
    lemma_p_named_i32_at(b, p1, nm_x_pos(), x);
    lemma_p_named_i32_at(b, p2, nm_z_pos(), z);
    assert(f4 =~= (seq![TAG_STRING] + nbt_str(nm_status())) + nbt_str(status));
    lemma_match_split(b, p3, seq![TAG_STRING] + nbt_str(nm_status()), nbt_str(status));
    lemma_p_str_at(b, p3 + (seq![TAG_STRING] + nbt_str(nm_status())).len(), status);
}

#[verifier::rlimit(100)]
#[verifier::spinoff_prover]
proof fn lemma_doc_b_secs(
    ver: i32,
    x: i32,
    z: i32,
    status: Seq<u8>,
    secs: Seq<(i8, Seq<Seq<u8>>, Seq<i64>)>,
    mb: Seq<i64>,
    ws: Seq<i64>,
)
    requires
        status.len() < 65536,
        secs_wf(secs),
        secs.len() < 0x80000000,
    ensures
        ({
            let b = encode_doc(ver, x, z, status, secs, mb, ws);
            let lh = seq![TAG_LIST] + nbt_str(nm_sections()) + seq![TAG_COMPOUND];
            let p4 = doc_prefix_end(status);
            &&& p_exact(b, p4, lh) == Some(p4 + lh.len() as int)
            &&& p_u32(b, p4 + lh.len()) == Some((secs.len() as u32, p4 + lh.len() + 4))
            &&& p_sections(b, p4 + lh.len() + 4, secs.len()) == Some(
                (secs, p4 + lh.len() + 4 + sections_bytes(secs).len()),
            )
        }),
{
    crate::nbt::lemma_nm_lens();
    let b = encode_doc(ver, x, z, status, secs, mb, ws);
    let f0 = seq![TAG_COMPOUND] + be16_bytes(0);
    let f1 = nbt_named(TAG_INT, nm_data_version(), nbt_int(ver));
    let f2 = nbt_named(TAG_INT, nm_x_pos(), nbt_int(x));
    let f3 = nbt_named(TAG_INT, nm_z_pos(), nbt_int(z));
    let f4 = nbt_named(TAG_STRING, nm_status(), nbt_str(status));
    let f5 = seq![TAG_LIST] + nbt_str(nm_sections()) + seq![TAG_COMPOUND] + be32_bytes(
        secs.len() as u32,
    ) + sections_bytes(secs);
    lemma_doc_split(ver, x, z, status, secs, mb, ws);
    let p4 = f0.len() + f1.len() + f2.len() + f3.len() + f4.len() as int;
    assert(p4 == doc_prefix_end(status));
    let lh = seq![TAG_LIST] + nbt_str(nm_sections()) + seq![TAG_COMPOUND];
    assert(f5 =~= lh + (be32_bytes(secs.len() as u32) + sections_bytes(secs)));
    lemma_match_split(b, p4, lh, be32_bytes(secs.len() as u32) + sections_bytes(secs));
    lemma_match_split(b, p4 + lh.len(), be32_bytes(secs.len() as u32), sections_bytes(secs));
    lemma_p_u32_at(b, p4 + lh.len(), secs.len() as u32);
    lemma_p_sections_at(b, p4 + lh.len() + 4, secs);
}

/// The heightmaps field parses back wherever it sits.
#[verifier::rlimit(60)]
proof fn lemma_p_hm_fields(b: Seq<u8>, pos: int, mb: Seq<i64>, ws: Seq<i64>)
    requires
        match_at(b, pos, nbt_named(TAG_COMPOUND, nm_heightmaps(), heightmaps_bytes(mb, ws))),
        mb.len() < 0x80000000,
        ws.len() < 0x80000000,
    ensures
        ({
            let hh = seq![TAG_COMPOUND] + nbt_str(nm_heightmaps());
            let g1 = nbt_named(TAG_LONG_ARRAY, nm_motion_blocking(), nbt_long_array(mb));
            let g2 = nbt_named(TAG_LONG_ARRAY, nm_world_surface(), nbt_long_array(ws));
            &&& p_named(b, pos, TAG_COMPOUND, nm_heightmaps()) == Some(pos + hh.len() as int)
            &&& p_named_long_array(b, pos + hh.len(), nm_motion_blocking()) == Some(
                (mb, pos + hh.len() + g1.len()),
            )
            &&& p_named_long_array(b, pos + hh.len() + g1.len(), nm_world_surface()) == Some(
                (ws, pos + hh.len() + g1.len() + g2.len()),
            )
            &&& match_at(b, pos + hh.len() + g1.len() + g2.len(), seq![TAG_END])
            &&& pos + hh.len() + g1.len() + g2.len() + 1 == pos + nbt_named(
                TAG_COMPOUND,
                nm_heightmaps(),
                heightmaps_bytes(mb, ws),
            ).len()
        }),
{
    crate::nbt::lemma_nm_lens();
    let hh = seq![TAG_COMPOUND] + nbt_str(nm_heightmaps());
    let g1 = nbt_named(TAG_LONG_ARRAY, nm_motion_blocking(), nbt_long_array(mb));
    let g2 = nbt_named(TAG_LONG_ARRAY, nm_world_surface(), nbt_long_array(ws));
    assert(nbt_named(TAG_COMPOUND, nm_heightmaps(), heightmaps_bytes(mb, ws)) =~= hh + (g1 + (g2
        + seq![TAG_END])));
    lemma_match_split(b, pos, hh, g1 + (g2 + seq![TAG_END]));
    let ph = pos + hh.len() as int;
    lemma_match_split(b, ph, g1, g2 + seq![TAG_END]);
    lemma_match_split(b, ph + g1.len(), g2, seq![TAG_END]);
    lemma_p_named_long_array_at(b, ph, nm_motion_blocking(), mb);
    lemma_p_named_long_array_at(b, ph + g1.len(), nm_world_surface(), ws);
}

/// Two adjacent single-byte matches make a two-byte match.
proof fn lemma_join_two(b: Seq<u8>, pos: int, t: u8)
    requires
        match_at(b, pos, seq![t]),
        match_at(b, pos + 1, seq![t]),
    ensures
        match_at(b, pos, seq![t, t]),
{
    assert(b[pos] == t) by {
        assert(b.subrange(pos, pos + 1)[0] == t);
    }
    assert(b[pos + 1] == t) by {
        assert(b.subrange(pos + 1, pos + 2)[0] == t);
    }
    assert(b.subrange(pos, pos + 2) =~= seq![t, t]);
}

/// Evaluates the document-tail parser once each step's result is known.
proof fn lemma_doc_rest_eval(
    b: Seq<u8>,
    pos: int,
    n: u32,
    secs: Seq<(i8, Seq<Seq<u8>>, Seq<i64>)>,
    mb: Seq<i64>,
    ws: Seq<i64>,
    q0: int,
    q1: int,
    q2: int,
    q3: int,
    q4: int,
    q5: int,
    q6: int,
)
    requires
        p_exact(b, pos, seq![TAG_LIST] + nbt_str(nm_sections()) + seq![TAG_COMPOUND]) == Some(q0),
        p_u32(b, q0) == Some((n, q1)),
        n as nat == secs.len(),
        p_sections(b, q1, secs.len()) == Some((secs, q2)),
        p_named(b, q2, TAG_COMPOUND, nm_heightmaps()) == Some(q3),
        p_named_long_array(b, q3, nm_motion_blocking()) == Some((mb, q4)),
        p_named_long_array(b, q4, nm_world_surface()) == Some((ws, q5)),
        p_exact(b, q5, seq![TAG_END, TAG_END]) == Some(q6),
    ensures
        p_doc_rest(b, pos) == Some(((secs, mb, ws), q6)),
{
}

/// Where the heightmaps field and the closing end tag sit.
#[verifier::rlimit(100)]
#[verifier::spinoff_prover]
proof fn lemma_doc_hm_pos(
    ver: i32,
    x: i32,
    z: i32,
    status: Seq<u8>,
    secs: Seq<(i8, Seq<Seq<u8>>, Seq<i64>)>,
    mb: Seq<i64>,
    ws: Seq<i64>,
)
    requires
        status.len() < 65536,
    ensures
        ({
            let b = encode_doc(ver, x, z, status, secs, mb, ws);
            let lh = seq![TAG_LIST] + nbt_str(nm_sections()) + seq![TAG_COMPOUND];
            let p5 = doc_prefix_end(status) + lh.len() + 4 + sections_bytes(secs).len() as int;
            let f6 = nbt_named(TAG_COMPOUND, nm_heightmaps(), heightmaps_bytes(mb, ws));
            &&& match_at(b, p5, f6)
            &&& match_at(b, p5 + f6.len(), seq![TAG_END])
            &&& b.len() == p5 + f6.len() + 1
        }),
{
    crate::nbt::lemma_nm_lens();
    lemma_doc_split(ver, x, z, status, secs, mb, ws);
}

#[verifier::rlimit(100)]
#[verifier::spinoff_prover]
proof fn lemma_p_doc_b_mid(
    ver: i32,
    x: i32,
    z: i32,
    status: Seq<u8>,
    secs: Seq<(i8, Seq<Seq<u8>>, Seq<i64>)>,
    mb: Seq<i64>,
    ws: Seq<i64>,
)
    requires
        status.len() < 65536,
        secs_wf(secs),
        secs.len() < 0x80000000,
        mb.len() < 0x80000000,
        ws.len() < 0x80000000,
    ensures
        ({
            let b = encode_doc(ver, x, z, status, secs, mb, ws);
            let lh = seq![TAG_LIST] + nbt_str(nm_sections()) + seq![TAG_COMPOUND];
            let p4 = doc_prefix_end(status);
            let p5 = p4 + lh.len() + 4 + sections_bytes(secs).len() as int;
            let hh = seq![TAG_COMPOUND] + nbt_str(nm_heightmaps());
            let g1 = nbt_named(TAG_LONG_ARRAY, nm_motion_blocking(), nbt_long_array(mb));
            let g2 = nbt_named(TAG_LONG_ARRAY, nm_world_surface(), nbt_long_array(ws));
            &&& p_named(b, p5, TAG_COMPOUND, nm_heightmaps()) == Some(p5 + hh.len() as int)
            &&& p_named_long_array(b, p5 + hh.len(), nm_motion_blocking()) == Some(
                (mb, p5 + hh.len() + g1.len()),
            )
            &&& p_named_long_array(b, p5 + hh.len() + g1.len(), nm_world_surface()) == Some(
                (ws, p5 + hh.len() + g1.len() + g2.len()),
            )
            &&& p_exact(b, p5 + hh.len() + g1.len() + g2.len(), seq![TAG_END, TAG_END]) == Some(
                b.len() as int,
            )
        }),
{
    crate::nbt::lemma_nm_lens();
    lemma_doc_hm_pos(ver, x, z, status, secs, mb, ws);
    let b = encode_doc(ver, x, z, status, secs, mb, ws);
    let lh = seq![TAG_LIST] + nbt_str(nm_sections()) + seq![TAG_COMPOUND];
    let p5 = doc_prefix_end(status) + lh.len() + 4 + sections_bytes(secs).len() as int;
    lemma_p_hm_fields(b, p5, mb, ws);
    let hh = seq![TAG_COMPOUND] + nbt_str(nm_heightmaps());
    let g1 = nbt_named(TAG_LONG_ARRAY, nm_motion_blocking(), nbt_long_array(mb));
    let g2 = nbt_named(TAG_LONG_ARRAY, nm_world_surface(), nbt_long_array(ws));
    lemma_join_two(b, p5 + hh.len() + g1.len() + g2.len(), TAG_END);
    assert(p5 + hh.len() + g1.len() + g2.len() + 2 == b.len());
}

#[verifier::rlimit(100)]
#[verifier::spinoff_prover]
proof fn lemma_p_doc_b(
    ver: i32,
    x: i32,
    z: i32,
    status: Seq<u8>,
    secs: Seq<(i8, Seq<Seq<u8>>, Seq<i64>)>,
    mb: Seq<i64>,
    ws: Seq<i64>,
)
    requires
        status.len() < 65536,
        secs_wf(secs),
        secs.len() < 0x80000000,
        mb.len() < 0x80000000,
        ws.len() < 0x80000000,
    ensures
        ({
            let b = encode_doc(ver, x, z, status, secs, mb, ws);
            p_doc_rest(b, doc_prefix_end(status)) == Some(((secs, mb, ws), b.len() as int))
        }),
{
    crate::nbt::lemma_nm_lens();
    lemma_doc_b_secs(ver, x, z, status, secs, mb, ws);
    lemma_p_doc_b_mid(ver, x, z, status, secs, mb, ws);
    let b = encode_doc(ver, x, z, status, secs, mb, ws);
    let lh = seq![TAG_LIST] + nbt_str(nm_sections()) + seq![TAG_COMPOUND];
    let p4 = doc_prefix_end(status);
    let p5 = p4 + lh.len() + 4 + sections_bytes(secs).len() as int;
    let hh = seq![TAG_COMPOUND] + nbt_str(nm_heightmaps());
    let g1 = nbt_named(TAG_LONG_ARRAY, nm_motion_blocking(), nbt_long_array(mb));
    let g2 = nbt_named(TAG_LONG_ARRAY, nm_world_surface(), nbt_long_array(ws));
    assert(((secs.len() as u32) as nat) == secs.len());
    lemma_doc_rest_eval(
        b,
        p4,
        secs.len() as u32,
        secs,
        mb,
        ws,
        p4 + lh.len() as int,
        p4 + lh.len() + 4,
        p5,
        p5 + hh.len() as int,
        p5 + hh.len() + g1.len(),
        p5 + hh.len() + g1.len() + g2.len(),
        b.len() as int,
    );
}

/// Parsing what `encode_doc` wrote yields every component back, with the
/// parse ending exactly at the document's last byte.
pub proof fn lemma_p_doc(
    ver: i32,
    x: i32,
    z: i32,
    status: Seq<u8>,
    secs: Seq<(i8, Seq<Seq<u8>>, Seq<i64>)>,
    mb: Seq<i64>,
    ws: Seq<i64>,
)
    requires
        status.len() < 65536,
        secs_wf(secs),
        secs.len() < 0x80000000,
        mb.len() < 0x80000000,
        ws.len() < 0x80000000,
    ensures
        ({
            let b = encode_doc(ver, x, z, status, secs, mb, ws);
            &&& p_doc_prefix(b) matches Some((hd, p)) && hd == (ver, x, z, status)
                && p_doc_rest(b, p) == Some(((secs, mb, ws), b.len() as int))
        }),
{
    lemma_p_doc_a(ver, x, z, status, secs, mb, ws);
    lemma_p_doc_b(ver, x, z, status, secs, mb, ws);
}


// ---- the executable parser, proved equal to the specification parser ----

/// Advances past `pat` when the bytes at `pos` are exactly `pat`.
fn e_exact(b: &Vec<u8>, pos: usize, pat: &Vec<u8>) -> (r: Option<usize>)
    ensures
        match r {
            Some(p) => p_exact(b@, pos as int, pat@) == Some(p as int),
            None => p_exact(b@, pos as int, pat@) is None,
        },
{
    if pos > b.len() || pat.len() > b.len() - pos {
        return None;
    }
    let window = copy_range(b, pos, pos + pat.len());
    if crate::byteops::bytes_eq(&window, pat) {
        Some(pos + pat.len())
    } else {
        proof {
            assert(b@.subrange(pos as int, pos + pat@.len() as int) != pat@);
        }
        None
    }
}

fn e_u16(b: &Vec<u8>, pos: usize) -> (r: Option<(u16, usize)>)
    ensures
        match r {
            Some((v, p)) => p_u16(b@, pos as int) == Some((v, p as int)),
            None => p_u16(b@, pos as int) is None,
        },
{
    if pos <= b.len() && 2 <= b.len() - pos {
        Some((crate::byteops::read_u16_be(b, pos), pos + 2))
    } else {
        None
    }
}

fn e_u32(b: &Vec<u8>, pos: usize) -> (r: Option<(u32, usize)>)
    ensures
        match r {
            Some((v, p)) => p_u32(b@, pos as int) == Some((v, p as int)),
            None => p_u32(b@, pos as int) is None,
        },
{
    if pos <= b.len() && 4 <= b.len() - pos {
        Some((crate::byteops::read_u32_be(b, pos), pos + 4))
    } else {
        None
    }
}

fn e_str(b: &Vec<u8>, pos: usize) -> (r: Option<(Vec<u8>, usize)>)
    ensures
        match r {
            Some((v, p)) => p_str(b@, pos as int) == Some((v@, p as int)),
            None => p_str(b@, pos as int) is None,
        },
{
    match e_u16(b, pos) {
        Some((n, p)) => {
            if n as usize <= b.len() - p {
                let sv = copy_range(b, p, p + n as usize);
                Some((sv, p + n as usize))
            } else {
                None
            }
        },
        None => None,
    }
}

/// The pattern a named tag starts with: the tag byte, then the name.
fn named_pattern(tag: u8, name: &Vec<u8>) -> (r: Vec<u8>)
    requires
        name@.len() < 65536,
    ensures
        r@ == seq![tag] + nbt_str(name@),
{
    let mut v: Vec<u8> = Vec::new();
    v.push(tag);
    crate::nbt::push_str(&mut v, name);
    proof {
        assert(v@ =~= seq![tag] + nbt_str(name@));
    }
    v
}

fn e_longs(b: &Vec<u8>, pos: usize, n: u32) -> (r: Option<(Vec<i64>, usize)>)
    ensures
        match r {
            Some((v, p)) => p_longs(b@, pos as int, n as nat) == Some((v@, p as int)),
            None => p_longs(b@, pos as int, n as nat) is None,
        },
{
    let mut acc: Vec<i64> = Vec::new();
    let mut cur: usize = pos;
    let mut k: u32 = 0;
    while k < n
        invariant
            k <= n,
            pos <= cur,
            acc@.len() == k,
            match p_longs(b@, cur as int, (n - k) as nat) {
                Some((sfx, pend)) => p_longs(b@, pos as int, n as nat) == Some(
                    (acc@ + sfx, pend),
                ),
                None => p_longs(b@, pos as int, n as nat) is None,
            },
        decreases n - k,
    {
        if b.len() < 8 || cur > b.len() - 8 {
            proof {
                assert(p_longs(b@, cur as int, (n - k) as nat) is None);
            }
            return None;
        }
        let v: i64 = crate::byteops::read_u64_be(b, cur) as i64;
        let ghost old_acc = acc@;
        acc.push(v);
        proof {
            let sfx_all = p_longs(b@, cur as int, (n - k) as nat);
            assert(sfx_all matches Some((sfx, pend)) ==> {
                &&& sfx.len() > 0 && sfx.first() == v
                &&& p_longs(b@, cur + 8, (n - k - 1) as nat) == Some(
                    (sfx.drop_first(), pend),
                )
                &&& old_acc + sfx =~= acc@ + sfx.drop_first()
            });
        }
        cur = cur + 8;
        k = k + 1;
    }
    proof {
        assert(p_longs(b@, cur as int, 0) == Some((Seq::<i64>::empty(), cur as int)));
        assert(acc@ + Seq::<i64>::empty() =~= acc@);
    }
    Some((acc, cur))
}

fn e_named_long_array(b: &Vec<u8>, pos: usize, name: &Vec<u8>) -> (r: Option<(Vec<i64>, usize)>)
    requires
        name@.len() < 65536,
    ensures
        match r {
            Some((v, p)) => p_named_long_array(b@, pos as int, name@) == Some((v@, p as int)),
            None => p_named_long_array(b@, pos as int, name@) is None,
        },
{
    let pat = named_pattern(TAG_LONG_ARRAY, name);
    match e_exact(b, pos, &pat) {
        Some(p) => match e_u32(b, p) {
            Some((n, p2)) => e_longs(b, p2, n),
            None => None,
        },
        None => None,
    }
}

fn e_pal_entry(b: &Vec<u8>, pos: usize) -> (r: Option<(Vec<u8>, usize)>)
    ensures
        match r {
            Some((v, p)) => p_pal_entry(b@, pos as int) == Some((v@, p as int)),
            None => p_pal_entry(b@, pos as int) is None,
        },
{
    proof {
        crate::nbt::lemma_nm_lens();
    }
    let nn = crate::nbt::nm_name_vec();
    let pat = named_pattern(TAG_STRING, &nn);
    match e_exact(b, pos, &pat) {
        Some(p1) => match e_str(b, p1) {
            Some((nm, p2)) => {
                let mut endpat: Vec<u8> = Vec::new();
                endpat.push(TAG_END);
                proof {
                    assert(endpat@ =~= seq![TAG_END]);
                }
                match e_exact(b, p2, &endpat) {
                    Some(p3) => Some((nm, p3)),
                    None => None,
                }
            },
            None => None,
        },
        None => None,
    }
}

fn e_pal_entries(b: &Vec<u8>, pos: usize, n: u32) -> (r: Option<(Vec<Vec<u8>>, usize)>)
    ensures
        match r {
            Some((v, p)) => p_pal_entries(b@, pos as int, n as nat) == Some(
                (v@.map_values(|e: Vec<u8>| e@), p as int),
            ),
            None => p_pal_entries(b@, pos as int, n as nat) is None,
        },
{
    let mut acc: Vec<Vec<u8>> = Vec::new();
    let mut cur: usize = pos;
    let mut k: u32 = 0;
    while k < n
        invariant
            k <= n,
            acc@.len() == k,
            cur <= usize::MAX,
            match p_pal_entries(b@, cur as int, (n - k) as nat) {
                Some((sfx, pend)) => p_pal_entries(b@, pos as int, n as nat) == Some(
                    (acc@.map_values(|e: Vec<u8>| e@) + sfx, pend),
                ),
                None => p_pal_entries(b@, pos as int, n as nat) is None,
            },
        decreases n - k,
    {
        match e_pal_entry(b, cur) {
            Some((e, p)) => {
                let ghost old_acc = acc@;
                proof {
                    let all = p_pal_entries(b@, cur as int, (n - k) as nat);
                    assert(all matches Some((sfx, pend)) ==> {
                        &&& sfx.len() > 0 && sfx.first() == e@
                        &&& p_pal_entries(b@, p as int, (n - k - 1) as nat) == Some(
                            (sfx.drop_first(), pend),
                        )
                        &&& old_acc.map_values(|q: Vec<u8>| q@) + sfx =~= old_acc.push(
                            e,
                        ).map_values(|q: Vec<u8>| q@) + sfx.drop_first()
                    });
                }
                acc.push(e);
                if p <= cur {
                    proof {
                        assert(p_pal_entry(b@, cur as int) matches Some((_, pp)) ==> pp == p as int);
                    }
                    return None;
                }
                cur = p;
            },
            None => {
                return None;
            },
        }
        k = k + 1;
    }
    proof {
        assert(p_pal_entries(b@, cur as int, 0) == Some((Seq::<Seq<u8>>::empty(), cur as int)));
        assert(acc@.map_values(|e: Vec<u8>| e@) + Seq::<Seq<u8>>::empty() =~= acc@.map_values(
            |e: Vec<u8>| e@,
        ));
    }
    Some((acc, cur))
}


/// A section as parsed: its Y index, palette names and packed words.
pub struct ParsedSection {
    pub y: i8,
    pub palette: Vec<Vec<u8>>,
    pub data: Vec<i64>,
}

impl ParsedSection {
    /// The section triple this value denotes.
    pub open spec fn view_sec(&self) -> (i8, Seq<Seq<u8>>, Seq<i64>) {
        (self.y, self.palette@.map_values(|e: Vec<u8>| e@), self.data@)
    }
}

fn e_block_states(b: &Vec<u8>, pos: usize) -> (r: Option<((Vec<Vec<u8>>, Vec<i64>), usize)>)
    ensures
        match r {
            Some(((pal, data), p)) => p_block_states(b@, pos as int) == Some(
                ((pal@.map_values(|e: Vec<u8>| e@), data@), p as int),
            ),
            None => p_block_states(b@, pos as int) is None,
        },
{
    proof {
        crate::nbt::lemma_nm_lens();
    }
    let nd = crate::nbt::nm_data_vec();
    match e_named_long_array(b, pos, &nd) {
        Some((data, p1)) => {
            let np = crate::nbt::nm_palette_vec();
            let mut pat: Vec<u8> = Vec::new();
            pat.push(TAG_LIST);
            crate::nbt::push_str(&mut pat, &np);
            pat.push(TAG_COMPOUND);
            proof {
                assert(pat@ =~= seq![TAG_LIST] + nbt_str(nm_palette()) + seq![TAG_COMPOUND]);
            }
            match e_exact(b, p1, &pat) {
                Some(p2) => match e_u32(b, p2) {
                    Some((n, p3)) => match e_pal_entries(b, p3, n) {
                        Some((pal, p4)) => {
                            let mut endpat: Vec<u8> = Vec::new();
                            endpat.push(TAG_END);
                            proof {
                                assert(endpat@ =~= seq![TAG_END]);
                            }
                            match e_exact(b, p4, &endpat) {
                                Some(p5) => Some(((pal, data), p5)),
                                None => None,
                            }
                        },
                        None => None,
                    },
                    None => None,
                },
                None => None,
            }
        },
        None => None,
    }
}

fn e_section(b: &Vec<u8>, pos: usize) -> (r: Option<(ParsedSection, usize)>)
    ensures
        match r {
            Some((sec, p)) => p_section(b@, pos as int) == Some((sec.view_sec(), p as int)),
            None => p_section(b@, pos as int) is None,
        },
{
    proof {
        crate::nbt::lemma_nm_lens();
    }
    let ny = crate::nbt::nm_y_vec();
    let paty = named_pattern(TAG_BYTE, &ny);
    match e_exact(b, pos, &paty) {
        Some(p1) => {
            if p1 >= b.len() {
                return None;
            }
            let y: i8 = b[p1] as i8;
            let nbs = crate::nbt::nm_block_states_vec();
            let patbs = named_pattern(TAG_COMPOUND, &nbs);
            match e_exact(b, p1 + 1, &patbs) {
                Some(p2) => match e_block_states(b, p2) {
                    Some(((pal, data), p3)) => {
                        let mut endpat: Vec<u8> = Vec::new();
                        endpat.push(TAG_END);
                        proof {
                            assert(endpat@ =~= seq![TAG_END]);
                        }
                        match e_exact(b, p3, &endpat) {
                            Some(p4) => Some((ParsedSection { y, palette: pal, data }, p4)),
                            None => None,
                        }
                    },
                    None => None,
                },
                None => None,
            }
        },
        None => None,
    }
}

fn e_sections(b: &Vec<u8>, pos: usize, n: u32) -> (r: Option<(Vec<ParsedSection>, usize)>)
    ensures
        match r {
            Some((v, p)) => p_sections(b@, pos as int, n as nat) == Some(
                (v@.map_values(|s: ParsedSection| s.view_sec()), p as int),
            ),
            None => p_sections(b@, pos as int, n as nat) is None,
        },
{
    let mut acc: Vec<ParsedSection> = Vec::new();
    let mut cur: usize = pos;
    let mut k: u32 = 0;
    while k < n
        invariant
            k <= n,
            acc@.len() == k,
            match p_sections(b@, cur as int, (n - k) as nat) {
                Some((sfx, pend)) => p_sections(b@, pos as int, n as nat) == Some(
                    (acc@.map_values(|s: ParsedSection| s.view_sec()) + sfx, pend),
                ),
                None => p_sections(b@, pos as int, n as nat) is None,
            },
        decreases n - k,
    {
        match e_section(b, cur) {
            Some((sec, p)) => {
                let ghost old_acc = acc@;
                let ghost secv = sec.view_sec();
                proof {
                    let all = p_sections(b@, cur as int, (n - k) as nat);
                    assert(all matches Some((sfx, pend)) ==> {
                        &&& sfx.len() > 0 && sfx.first() == secv
                        &&& p_sections(b@, p as int, (n - k - 1) as nat) == Some(
                            (sfx.drop_first(), pend),
                        )
                    });
                }
                acc.push(sec);
                proof {
                    let all = p_sections(b@, cur as int, (n - k) as nat);
                    assert(all matches Some((sfx, pend)) ==> old_acc.map_values(
                        |s: ParsedSection| s.view_sec(),
                    ) + sfx =~= acc@.map_values(|s: ParsedSection| s.view_sec())
                        + sfx.drop_first());
                }
                cur = p;
            },
            None => {
                return None;
            },
        }
        k = k + 1;
    }
    proof {
        assert(p_sections(b@, cur as int, 0) == Some(
            (Seq::<(i8, Seq<Seq<u8>>, Seq<i64>)>::empty(), cur as int),
        ));
        assert(acc@.map_values(|s: ParsedSection| s.view_sec()) + Seq::<
            (i8, Seq<Seq<u8>>, Seq<i64>),
        >::empty() =~= acc@.map_values(|s: ParsedSection| s.view_sec()));
    }
    Some((acc, cur))
}

fn e_doc_prefix(b: &Vec<u8>) -> (r: Option<((i32, i32, i32, Vec<u8>), usize)>)
    ensures
        match r {
            Some(((ver, x, z, st), p)) => p_doc_prefix(b@) == Some(((ver, x, z, st@), p as int)),
            None => p_doc_prefix(b@) is None,
        },
{
    proof {
        crate::nbt::lemma_nm_lens();
    }
    let mut head: Vec<u8> = Vec::new();
    head.push(TAG_COMPOUND);
    crate::byteops::push_u16_be(&mut head, 0);
    proof {
        assert(head@ =~= seq![TAG_COMPOUND] + be16_bytes(0));
    }
    let p0 = match e_exact(b, 0, &head) {
        Some(p) => p,
        None => {
            return None;
        },
    };
    let ndv = crate::nbt::nm_data_version_vec();
    let (ver, p1) = match e_named_i32(b, p0, &ndv) {
        Some(v) => v,
        None => {
            return None;
        },
    };
    let nx = crate::nbt::nm_x_pos_vec();
    let (x, p2) = match e_named_i32(b, p1, &nx) {
        Some(v) => v,
        None => {
            return None;
        },
    };
    let nz = crate::nbt::nm_z_pos_vec();
    let (z, p3) = match e_named_i32(b, p2, &nz) {
        Some(v) => v,
        None => {
            return None;
        },
    };
    let nst = crate::nbt::nm_status_vec();
    let patst = named_pattern(TAG_STRING, &nst);
    let p4 = match e_exact(b, p3, &patst) {
        Some(p) => p,
        None => {
            return None;
        },
    };
    match e_str(b, p4) {
        Some((st, p5)) => Some(((ver, x, z, st), p5)),
        None => None,
    }
}

fn e_named_i32(b: &Vec<u8>, pos: usize, name: &Vec<u8>) -> (r: Option<(i32, usize)>)
    requires
        name@.len() < 65536,
    ensures
        match r {
            Some((v, p)) => p_named_i32(b@, pos as int, name@) == Some((v, p as int)),
            None => p_named_i32(b@, pos as int, name@) is None,
        },
{
    let pat = named_pattern(TAG_INT, name);
    match e_exact(b, pos, &pat) {
        Some(p) => match e_u32(b, p) {
            Some((v, p2)) => Some((v as i32, p2)),
            None => None,
        },
        None => None,
    }
}

fn e_doc_rest(b: &Vec<u8>, pos: usize) -> (r: Option<
    ((Vec<ParsedSection>, Vec<i64>, Vec<i64>), usize),
>)
    ensures
        match r {
            Some(((secs, mb, ws), p)) => p_doc_rest(b@, pos as int) == Some(
                ((secs@.map_values(|s: ParsedSection| s.view_sec()), mb@, ws@), p as int),
            ),
            None => p_doc_rest(b@, pos as int) is None,
        },
{
    proof {
        crate::nbt::lemma_nm_lens();
    }
    let nsec = crate::nbt::nm_sections_vec();
    let mut pat: Vec<u8> = Vec::new();
    pat.push(TAG_LIST);
    crate::nbt::push_str(&mut pat, &nsec);
    pat.push(TAG_COMPOUND);
    proof {
        assert(pat@ =~= seq![TAG_LIST] + nbt_str(nm_sections()) + seq![TAG_COMPOUND]);
    }
    let p0 = match e_exact(b, pos, &pat) {
        Some(p) => p,
        None => {
            return None;
        },
    };
    let (n, p1) = match e_u32(b, p0) {
        Some(v) => v,
        None => {
            return None;
        },
    };
    let (secs, p2) = match e_sections(b, p1, n) {
        Some(v) => v,
        None => {
            return None;
        },
    };
    let nhm = crate::nbt::nm_heightmaps_vec();
    let pathm = named_pattern(TAG_COMPOUND, &nhm);
    let p3 = match e_exact(b, p2, &pathm) {
        Some(p) => p,
        None => {
            return None;
        },
    };
    let nmb = crate::nbt::nm_motion_blocking_vec();
    let (mb, p4) = match e_named_long_array(b, p3, &nmb) {
        Some(v) => v,
        None => {
            return None;
        },
    };
    let nws = crate::nbt::nm_world_surface_vec();
    let (ws, p5) = match e_named_long_array(b, p4, &nws) {
        Some(v) => v,
        None => {
            return None;
        },
    };
    let mut endpat: Vec<u8> = Vec::new();
    endpat.push(TAG_END);
    endpat.push(TAG_END);
    proof {
        assert(endpat@ =~= seq![TAG_END, TAG_END]);
    }
    match e_exact(b, p5, &endpat) {
        Some(p6) => Some(((secs, mb, ws), p6)),
        None => None,
    }
}


// ---- rebuilding a chunk from the parsed document ----

/// The first position of `name` in the registry, or the registry's length
/// when it is absent.
pub open spec fn name_index(reg: Seq<Seq<u8>>, name: Seq<u8>) -> int
    decreases reg.len(),
{
    if reg.len() == 0 {
        0
    } else if reg.first() == name {
        0
    } else {
        1 + name_index(reg.drop_first(), name)
    }
}

/// The block state a palette name decodes to: its registry position, or the
/// default state 0 when the registry does not know the name.
pub open spec fn id_of_name(reg: Seq<Seq<u8>>, name: Seq<u8>) -> u16 {
    if reg.contains(name) && reg.len() <= 65536 {
        name_index(reg, name) as u16
    } else {
        0
    }
}

pub proof fn lemma_name_index(reg: Seq<Seq<u8>>, name: Seq<u8>)
    requires
        reg.contains(name),
    ensures
        0 <= name_index(reg, name) < reg.len(),
        reg[name_index(reg, name)] == name,
    decreases reg.len(),
{
    if reg.len() > 0 && reg.first() != name {
        assert(reg.drop_first().contains(name)) by {
            let i = choose|i: int| 0 <= i < reg.len() && reg[i] == name;
            assert(reg.drop_first()[i - 1] == name);
        }
        lemma_name_index(reg.drop_first(), name);
    }
}

/// In a registry without duplicate names, looking a name back up gives the
/// identifier it came from.
pub proof fn lemma_id_of_name_inverse(reg: Seq<Seq<u8>>, t: int)
    requires
        0 <= t < reg.len() <= 65536,
        forall|i: int, j: int|
            0 <= i < reg.len() && 0 <= j < reg.len() && i != j ==> reg[i] != reg[j],
    ensures
        id_of_name(reg, reg[t]) == t,
    decreases reg.len(),
{
    assert(reg.contains(reg[t]));
    lemma_name_index(reg, reg[t]);
    let u = name_index(reg, reg[t]);
    assert(reg[u] == reg[t]);
    if u != t {
        assert(false);
    }
}

/// Looks a palette name up in the registry.
fn id_for_name(registry: &BlockRegistry, name: &Vec<u8>) -> (r: u16)
    requires
        registry_wf(registry),
    ensures
        r == id_of_name(reg_view(registry), name@),
{
    let ghost reg = reg_view(registry);
    let mut i: usize = 0;
    while i < registry.names.len()
        invariant
            registry_wf(registry),
            reg == reg_view(registry),
            i <= registry.names@.len(),
            forall|q: int| 0 <= q < i ==> reg[q] != name@,
        decreases registry.names@.len() - i,
    {
        if crate::byteops::bytes_eq(&registry.names[i], name) {
            proof {
                assert(reg[i as int] == name@);
                assert(reg.contains(name@));
                lemma_name_index(reg, name@);
                let u = name_index(reg, name@);
                if u < i {
                    assert(reg[u] != name@);
                }
                if u > i {
                    assert(reg[u] == reg[i as int]);
                    assert(false);
                }
            }
            return i as u16;
        }
        i = i + 1;
    }
    proof {
        if reg.contains(name@) {
            let w = choose|w: int| 0 <= w < reg.len() && reg[w] == name@;
            assert(false);
        }
    }
    0
}

/// The blocks one parsed section denotes: each packed slot names a palette
/// entry, whose registry position is the block state. An empty stream means
/// the whole section is the palette's single entry; a slot past the palette
/// makes the section invalid.
pub open spec fn section_blocks(pal: Seq<Seq<u8>>, data: Seq<i64>, reg: Seq<Seq<u8>>) -> Option<
    Seq<u16>,
> {
    let bits = bits_for_palette(pal.len());
    let bpw = 64int / (bits as int);
    if pal.len() < 1 || pal.len() > 4096 {
        None
    } else if data.len() == 0 {
        Some(Seq::new(4096, |k: int| id_of_name(reg, pal[0])))
    } else if forall|k: int|
        0 <= k < 4096 && k / bpw < data.len() ==> extract_at(data, bits, k) < pal.len() {
        Some(
            Seq::new(
                4096,
                |k: int|
                    if k / bpw < data.len() {
                        id_of_name(reg, pal[extract_at(data, bits, k) as int])
                    } else {
                        0u16
                    },
            ),
        )
    } else {
        None
    }
}

/// Rebuilds one section's blocks.
fn decode_section(sec: &ParsedSection, registry: &BlockRegistry) -> (r: Option<Vec<u16>>)
    requires
        registry_wf(registry),
    ensures
        match r {
            Some(v) => section_blocks(sec.view_sec().1, sec.data@, reg_view(registry))
                == Some(v@),
            None => section_blocks(sec.view_sec().1, sec.data@, reg_view(registry)) is None,
        },
{
    let ghost reg = reg_view(registry);
    let ghost palv = sec.view_sec().1;
    if sec.palette.len() < 1 || sec.palette.len() > 4096 {
        return None;
    }
    // map palette names to block states through the registry
    let mut ids: Vec<u16> = Vec::new();
    let mut j: usize = 0;
    while j < sec.palette.len()
        invariant
            registry_wf(registry),
            reg == reg_view(registry),
            palv == sec.view_sec().1,
            j <= sec.palette@.len(),
            ids@.len() == j,
            forall|q: int| 0 <= q < j ==> ids@[q] == id_of_name(reg, palv[q]),
        decreases sec.palette@.len() - j,
    {
        let id = id_for_name(registry, &sec.palette[j]);
        ids.push(id);
        j = j + 1;
    }
    if sec.data.len() == 0 {
        let mut out: Vec<u16> = Vec::new();
        let mut k: usize = 0;
        while k < 4096
            invariant
                k <= 4096,
                out@.len() == k,
                ids@.len() >= 1,
                ids@[0] == id_of_name(reg, palv[0]),
                palv.len() >= 1,
                forall|q: int| 0 <= q < k ==> out@[q] == id_of_name(reg, palv[0]),
            decreases 4096 - k,
        {
            out.push(ids[0]);
            k = k + 1;
        }
        proof {
            assert(out@ =~= Seq::new(4096, |k: int| id_of_name(reg, palv[0])));
        }
        return Some(out);
    }
    let bits = bits_per_index(sec.palette.len());
    match unpack_indices(&ids, &sec.data, bits, 4096) {
        Some(out) => {
            proof {
                let bpw = 64int / (bits as int);
                assert(out@ =~= Seq::new(
                    4096,
                    |k: int|
                        if k / bpw < sec.data@.len() {
                            id_of_name(reg, palv[extract_at(sec.data@, bits as nat, k) as int])
                        } else {
                            0u16
                        },
                ));
            }
            Some(out)
        },
        None => None,
    }
}


/// How reading a chunk document can fail, stated over the bytes alone.
#[derive(Clone, Copy, Debug, PartialEq, Eq, Structural)]
pub enum DocReadError {
    /// The document's leading fields could not be read.
    InvalidHeader,
    /// The document is readable but was never marked fully generated.
    NotGenerated,
    /// The document's sections or heightmaps are malformed.
    Unparsable,
}

/// What a chunk document's bytes denote: the embedded position, the 24
/// sections' blocks (absent trailing sections default to state 0), and the
/// two heightmap arrays — or why they cannot be read. Only a document whose
/// status says the chunk was fully generated counts as present.
pub open spec fn spec_read_chunk(bytes: Seq<u8>, reg: Seq<Seq<u8>>) -> Result<
    ((i32, i32), Seq<Seq<u16>>, (Seq<i64>, Seq<i64>)),
    DocReadError,
> {
    match p_doc_prefix(bytes) {
        Some((hd, p)) => if hd.3 != nm_full_status() {
            Err(DocReadError::NotGenerated)
        } else {
            match p_doc_rest(bytes, p) {
                Some(((secs, mb, ws), end)) => if end != bytes.len() || secs.len() > 24
                    || mb.len() >= 0x80000000 || ws.len() >= 0x80000000 {
                    Err(DocReadError::Unparsable)
                } else if forall|i: int|
                    0 <= i < secs.len() ==> #[trigger] section_blocks(
                        secs[i].1,
                        secs[i].2,
                        reg,
                    ) is Some {
                    Ok(
                        (
                            (hd.1, hd.2),
                            Seq::new(
                                24,
                                |i: int|
                                    if i < secs.len() {
                                        section_blocks(secs[i].1, secs[i].2, reg)->Some_0
                                    } else {
                                        Seq::new(4096, |k: int| 0u16)
                                    },
                            ),
                            (mb, ws),
                        ),
                    )
                } else {
                    Err(DocReadError::Unparsable)
                },
                None => Err(DocReadError::Unparsable),
            }
        },
        None => Err(DocReadError::InvalidHeader),
    }
}

/// How a document-level failure is surfaced to callers.
pub open spec fn doc_err_matches(e: ChunkStorageReadingError, k: DocReadError) -> bool {
    match k {
        DocReadError::InvalidHeader => e is InvalidHeader,
        DocReadError::NotGenerated => e is ChunkNotExist,
        DocReadError::Unparsable => e is ParsingError,
    }
}

/// A section that fails to decode makes the whole document unparsable.
proof fn lemma_read_err_unparsable(
    bytes: Seq<u8>,
    reg: Seq<Seq<u8>>,
    hd: (i32, i32, i32, Seq<u8>),
    p: int,
    secs: Seq<(i8, Seq<Seq<u8>>, Seq<i64>)>,
    mb: Seq<i64>,
    ws: Seq<i64>,
    end: int,
    w: int,
)
    requires
        p_doc_prefix(bytes) == Some((hd, p)),
        hd.3 == nm_full_status(),
        p_doc_rest(bytes, p) == Some(((secs, mb, ws), end)),
        end == bytes.len(),
        secs.len() <= 24,
        mb.len() < 0x80000000,
        ws.len() < 0x80000000,
        0 <= w < secs.len(),
        section_blocks(secs[w].1, secs[w].2, reg) is None,
    ensures
        spec_read_chunk(bytes, reg) == Err::<
            ((i32, i32), Seq<Seq<u16>>, (Seq<i64>, Seq<i64>)),
            DocReadError,
        >(DocReadError::Unparsable),
{
    assert(!(forall|q: int|
        0 <= q < secs.len() ==> #[trigger] section_blocks(secs[q].1, secs[q].2, reg) is Some));
}

impl AnvilChunkFormat {
    /// Rebuilds a chunk column from its document bytes: checks that the
    /// chunk was fully generated, decodes every section's palette and packed
    /// stream, and takes the caller's coordinate as the chunk's position (a
    /// mismatched embedded coordinate is tolerated, as region files with
    /// such mismatches exist in practice).
    #[verifier::rlimit(60)]
    pub fn read_chunk(&self, chunk_bytes: Vec<u8>, at: &Vec2<i32>, registry: &BlockRegistry) -> (r:
        Result<ChunkData, ChunkStorageReadingError>)
        requires
            registry_wf(registry),
        ensures
            match r {
                Ok(c) => {
                    &&& spec_read_chunk(chunk_bytes@, reg_view(registry)) matches Ok(v)
                        && c.subchunks@.map_values(|s: Vec<u16>| s@) == v.1 && (
                    c.heightmap.motion_blocking@, c.heightmap.world_surface@) == v.2
                    &&& c.position == *at
                    &&& chunk_data_wf(&c)
                },
                Err(e) => spec_read_chunk(chunk_bytes@, reg_view(registry)) matches Err(k)
                    && doc_err_matches(e, k),
            },
    {
        let ghost reg = reg_view(registry);
        let (hd, p) = match e_doc_prefix(&chunk_bytes) {
            Some(v) => v,
            None => {
                return Err(ChunkStorageReadingError::InvalidHeader);
            },
        };
        let full = crate::nbt::nm_full_status_vec();
        if !crate::byteops::bytes_eq(&hd.3, &full) {
            return Err(ChunkStorageReadingError::ChunkNotExist);
        }
        let ((secs, mb, ws), end) = match e_doc_rest(&chunk_bytes, p) {
            Some(v) => v,
            None => {
                return Err(ChunkStorageReadingError::ParsingError(
                    ChunkParsingError::ErrorDeserializingChunk(
                        "chunk document is malformed".to_owned(),
                    ),
                ));
            },
        };
        if end != chunk_bytes.len() || secs.len() > 24 || mb.len() >= 0x80000000 || ws.len()
            >= 0x80000000 {
            return Err(ChunkStorageReadingError::ParsingError(
                ChunkParsingError::ErrorDeserializingChunk(
                    "chunk document is malformed".to_owned(),
                ),
            ));
        }
        let ghost secsv = secs@.map_values(|s: ParsedSection| s.view_sec());
        let mut subchunks: Vec<Vec<u16>> = Vec::new();
        let mut i: usize = 0;
        while i < secs.len()
            invariant
                registry_wf(registry),
                reg == reg_view(registry),
                secsv == secs@.map_values(|s: ParsedSection| s.view_sec()),
                i <= secs@.len() <= 24,
                subchunks@.len() == i,
                p_doc_prefix(chunk_bytes@) == Some(((hd.0, hd.1, hd.2, hd.3@), p as int)),
                hd.3@ == nm_full_status(),
                p_doc_rest(chunk_bytes@, p as int) == Some(((secsv, mb@, ws@), end as int)),
                end == chunk_bytes@.len(),
                mb@.len() < 0x80000000,
                ws@.len() < 0x80000000,
                forall|q: int|
                    0 <= q < i ==> #[trigger] section_blocks(secsv[q].1, secsv[q].2, reg)
                        == Some(subchunks@[q]@),
            decreases secs@.len() - i,
        {
            match decode_section(&secs[i], registry) {
                Some(blocks) => {
                    subchunks.push(blocks);
                },
                None => {
                    proof {
                        lemma_read_err_unparsable(
                            chunk_bytes@,
                            reg,
                            (hd.0, hd.1, hd.2, hd.3@),
                            p as int,
                            secsv,
                            mb@,
                            ws@,
                            end as int,
                            i as int,
                        );
                    }
                    return Err(ChunkStorageReadingError::ParsingError(
                        ChunkParsingError::ErrorDeserializingChunk(
                            "a section's palette or packed stream is invalid".to_owned(),
                        ),
                    ));
                },
            }
            i = i + 1;
        }
        // absent trailing sections default to the all-zero state
        while subchunks.len() < 24
            invariant
                registry_wf(registry),
                reg == reg_view(registry),
                secsv == secs@.map_values(|s: ParsedSection| s.view_sec()),
                secs@.len() <= subchunks@.len() <= 24,
                forall|q: int|
                    0 <= q < secs@.len() ==> #[trigger] section_blocks(secsv[q].1, secsv[q].2, reg)
                        == Some(subchunks@[q]@),
                forall|q: int|
                    secs@.len() <= q < subchunks@.len() ==> #[trigger] subchunks@[q]@ == Seq::new(
                        4096,
                        |k: int| 0u16,
                    ),
            decreases 24 - subchunks@.len(),
        {
            let mut zeros: Vec<u16> = Vec::new();
            let mut k: usize = 0;
            while k < 4096
                invariant
                    k <= 4096,
                    zeros@.len() == k,
                    forall|q: int| 0 <= q < k ==> zeros@[q] == 0u16,
                decreases 4096 - k,
            {
                zeros.push(0);
                k = k + 1;
            }
            proof {
                assert(zeros@ =~= Seq::new(4096, |k: int| 0u16));
            }
            subchunks.push(zeros);
        }
        let c = ChunkData {
            position: Vec2 { x: at.x, z: at.z },
            heightmap: ChunkHeightmaps { motion_blocking: mb, world_surface: ws },
            subchunks,
        };
        proof {
            let v = spec_read_chunk(chunk_bytes@, reg)->Ok_0;
            assert(c.subchunks@.map_values(|s: Vec<u16>| s@) =~= v.1) by {
                assert forall|q: int| 0 <= q < 24 implies c.subchunks@.map_values(
                    |s: Vec<u16>| s@,
                )[q] == v.1[q] by {
                    if q < secsv.len() {
                        assert(section_blocks(secsv[q].1, secsv[q].2, reg) == Some(
                            c.subchunks@[q]@,
                        ));
                    }
                }
            }
            assert forall|q: int| 0 <= q < 24 implies #[trigger] c.subchunks@[q]@.len()
                == 4096 by {
                if q < secsv.len() {
                    assert(section_blocks(secsv[q].1, secsv[q].2, reg) == Some(
                        c.subchunks@[q]@,
                    ));
                }
            }
        }
        Ok(c)
    }
}


/// Width bounds for any palette a section can hold.
pub proof fn lemma_bits_range(p: nat)
    requires
        1 <= p <= 4096,
    ensures
        4 <= bits_for_palette(p) <= 12,
{
    if p > 16 {
        crate::palette::lemma_ceil_log2_bounds(p);
        let c = crate::palette::ceil_log2_spec(p);
        vstd::arithmetic::power2::lemma2_to64();
        if c > 12 {
            assert(vstd::arithmetic::power2::pow2(12) <= vstd::arithmetic::power2::pow2(
                (c - 1) as nat,
            )) by {
                if c - 1 > 12 {
                    vstd::arithmetic::power2::lemma_pow2_strictly_increases(12, (c - 1) as nat);
                }
            }
            assert(false);
        }
        if c <= 4 {
            assert(vstd::arithmetic::power2::pow2(c) <= vstd::arithmetic::power2::pow2(4)) by {
                if c < 4 {
                    vstd::arithmetic::power2::lemma_pow2_strictly_increases(c, 4);
                }
            }
            assert(false);
        }
    }
}

/// A section written by the serializer decodes back to the very blocks it
/// was built from.
#[verifier::rlimit(100)]
#[verifier::spinoff_prover]
pub proof fn lemma_section_roundtrip(
    blocks_i: Seq<u16>,
    reg: Seq<Seq<u8>>,
    sec: (i8, Seq<Seq<u8>>, Seq<i64>),
    y: i8,
)
    requires
        blocks_i.len() == 4096,
        forall|k: int| 0 <= k < 4096 ==> blocks_i[k] < reg.len(),
        1 <= reg.len() <= 65536,
        forall|i: int, j: int|
            0 <= i < reg.len() && 0 <= j < reg.len() && i != j ==> reg[i] != reg[j],
        sec_ok(sec, blocks_i, reg, y),
    ensures
        section_blocks(sec.1, sec.2, reg) == Some(blocks_i),
{
    let pal_ids = spec_palette(blocks_i);
    crate::palette::lemma_spec_palette_props(blocks_i);
    let bits = bits_for_palette(pal_ids.len());
    lemma_bits_range(pal_ids.len());
    crate::palette::lemma_bpw_bounds(bits as int);
    let bpw = 64int / (bits as int);
    let pal = sec.1;
    let data = sec.2;
    assert(pal.len() == pal_ids.len());
    assert(1 <= pal.len() <= 4096);
    // every palette identifier is a valid registry position
    assert forall|j: int| 0 <= j < pal_ids.len() implies pal_ids[j] < reg.len() by {
        assert(pal_ids.contains(pal_ids[j]));
        assert(blocks_i.contains(pal_ids[j]));
        let w = choose|w: int| 0 <= w < blocks_i.len() && blocks_i[w] == pal_ids[j];
        assert(blocks_i[w] < reg.len());
    }
    // the stream is never empty: 4096 blocks need at least one word
    assert(data.len() == (4096int + bpw - 1) / bpw);
    assert(data.len() >= 1) by {
        vstd::arithmetic::div_mod::lemma_div_by_self(bpw);
        vstd::arithmetic::div_mod::lemma_div_is_ordered(bpw, 4096int + bpw - 1, bpw);
    }
    // every block's slot lies inside the stream
    assert forall|k: int| 0 <= k < 4096 implies #[trigger] (k / bpw) < data.len() by {
        vstd::arithmetic::div_mod::lemma_fundamental_div_mod(4095int, bpw);
        let q = 4095int / bpw;
        let r = 4095int % bpw;
        vstd::arithmetic::div_mod::lemma_mod_division_less_than_divisor(4095int, bpw);
        vstd::arithmetic::div_mod::lemma_remainder_lower(4095int, bpw);
        assert(4096int + bpw - 1 == (q + 1) * bpw + r) by (nonlinear_arith)
            requires
                4095int == q * bpw + r,
        ;
        vstd::arithmetic::div_mod::lemma_fundamental_div_mod_converse(
            4096int + bpw - 1,
            bpw,
            q + 1,
            r,
        );
        vstd::arithmetic::div_mod::lemma_div_is_ordered(k, 4095int, bpw);
    }
    // every slot points into the palette
    assert forall|k: int|
        0 <= k < 4096 && k / bpw < data.len() implies extract_at(data, bits, k) < pal.len() by {
        assert(blocks_i.contains(blocks_i[k]));
        assert(pal_ids.contains(blocks_i[k]));
        crate::palette::lemma_first_index(pal_ids, blocks_i[k]);
        assert(extract_at(data, bits, k) == first_index(pal_ids, blocks_i[k]));
    }
    let out = Seq::new(
        4096,
        |k: int|
            if k / bpw < data.len() {
                id_of_name(reg, pal[extract_at(data, bits, k) as int])
            } else {
                0u16
            },
    );
    assert forall|k: int| 0 <= k < 4096 implies out[k] == blocks_i[k] by {
        assert(blocks_i.contains(blocks_i[k]));
        assert(pal_ids.contains(blocks_i[k]));
        crate::palette::lemma_first_index(pal_ids, blocks_i[k]);
        let fi = first_index(pal_ids, blocks_i[k]);
        assert(extract_at(data, bits, k) == fi);
        assert(pal[fi] == reg[pal_ids[fi] as int]);
        lemma_id_of_name_inverse(reg, pal_ids[fi] as int);
        assert(id_of_name(reg, pal[fi]) == pal_ids[fi]);
        assert(pal_ids[fi] == blocks_i[k]);
    }
    assert(out =~= blocks_i);
}

/// The document round trip: reading back the bytes the serializer wrote for
/// a chunk gives exactly the chunk's position, blocks and heightmaps. The
/// sections are what `save_chunk` guarantees it stored; the registry must
/// name every block state and hold no name twice.
#[verifier::rlimit(100)]
#[verifier::spinoff_prover]
pub proof fn lemma_chunk_document_roundtrip(
    x: i32,
    z: i32,
    blocks: Seq<Seq<u16>>,
    reg: Seq<Seq<u8>>,
    secs: Seq<(i8, Seq<Seq<u8>>, Seq<i64>)>,
    mb: Seq<i64>,
    ws: Seq<i64>,
)
    requires
        blocks.len() == 24,
        forall|i: int| 0 <= i < 24 ==> #[trigger] blocks[i].len() == 4096,
        forall|i: int, k: int| 0 <= i < 24 && 0 <= k < 4096 ==> #[trigger] blocks[i][k] < reg.len(),
        1 <= reg.len() <= 65536,
        forall|i: int| 0 <= i < reg.len() ==> #[trigger] reg[i].len() < 65536,
        forall|i: int, j: int|
            0 <= i < reg.len() && 0 <= j < reg.len() && i != j ==> reg[i] != reg[j],
        secs.len() == 24,
        forall|i: int| 0 <= i < 24 ==> #[trigger] sec_ok(secs[i], blocks[i], reg, (i - 4) as i8),
        mb.len() < 0x80000000,
        ws.len() < 0x80000000,
    ensures
        spec_read_chunk(
            encode_doc(WORLD_DATA_VERSION, x, z, nm_full_status(), secs, mb, ws),
            reg,
        ) == Ok::<((i32, i32), Seq<Seq<u16>>, (Seq<i64>, Seq<i64>)), DocReadError>(
            ((x, z), blocks, (mb, ws)),
        ),
{
    crate::nbt::lemma_nm_lens();
    // every section decodes back to its blocks
    assert forall|i: int| 0 <= i < 24 implies #[trigger] section_blocks(
        secs[i].1,
        secs[i].2,
        reg,
    ) == Some(blocks[i]) by {
        lemma_section_roundtrip(blocks[i], reg, secs[i], (i - 4) as i8);
    }
    // the sections are small enough for the wire format
    assert(secs_wf(secs)) by {
        assert forall|i: int| 0 <= i < secs.len() implies (#[trigger] secs[i]).1.len() < 0x80000000
            && secs[i].2.len() < 0x80000000 && (forall|j: int|
            0 <= j < secs[i].1.len() ==> #[trigger] secs[i].1[j].len() < 65536) by {
            assert(sec_ok(secs[i], blocks[i], reg, (i - 4) as i8));
            let pal_ids = spec_palette(blocks[i]);
            crate::palette::lemma_spec_palette_props(blocks[i]);
            assert forall|j: int| 0 <= j < secs[i].1.len() implies #[trigger] secs[i].1[j].len()
                < 65536 by {
                assert(pal_ids.contains(pal_ids[j]));
                assert(blocks[i].contains(pal_ids[j]));
                let w = choose|w: int| 0 <= w < blocks[i].len() && blocks[i][w] == pal_ids[j];
                assert(blocks[i][w] < reg.len());
                assert(secs[i].1[j] == reg[pal_ids[j] as int]);
            }
        }
    }
    lemma_p_doc(WORLD_DATA_VERSION, x, z, nm_full_status(), secs, mb, ws);
    let b = encode_doc(WORLD_DATA_VERSION, x, z, nm_full_status(), secs, mb, ws);
    let grid = Seq::new(
        24,
        |i: int|
            if i < secs.len() {
                section_blocks(secs[i].1, secs[i].2, reg)->Some_0
            } else {
                Seq::new(4096, |k: int| 0u16)
            },
    );
    assert(grid =~= blocks);
}


/// What `save_chunk` guarantees of the document bytes it produced for a
/// chunk: they are the encoding of the chunk's position and heightmaps with
/// 24 sections that each satisfy `sec_ok` for the chunk's blocks.
pub open spec fn written_doc_ok(chunk_data: &ChunkData, reg: Seq<Seq<u8>>, doc: Seq<u8>) -> bool {
    exists|secs: Seq<(i8, Seq<Seq<u8>>, Seq<i64>)>|
        {
            &&& secs.len() == SECTIONS_PER_CHUNK
            &&& (forall|i: int|
                0 <= i < SECTIONS_PER_CHUNK ==> #[trigger] sec_ok(
                    secs[i],
                    chunk_data.subchunks@[i]@,
                    reg,
                    (i - 4) as i8,
                ))
            &&& doc == encode_doc(
                WORLD_DATA_VERSION,
                chunk_data.position.x,
                chunk_data.position.z,
                nm_full_status(),
                secs,
                chunk_data.heightmap.motion_blocking@,
                chunk_data.heightmap.world_surface@,
            )
        }
}

/// The round trip, stated over what the serializer wrote: document bytes
/// that `save_chunk` produced for a well-formed chunk decode back to the
/// chunk's own position, blocks and heightmaps.
#[verifier::rlimit(100)]
#[verifier::spinoff_prover]
pub proof fn lemma_saved_chunk_loads_back(
    chunk_data: &ChunkData,
    reg: Seq<Seq<u8>>,
    doc: Seq<u8>,
)
    requires
        chunk_data_wf(chunk_data),
        1 <= reg.len() <= 65536,
        forall|i: int| 0 <= i < reg.len() ==> #[trigger] reg[i].len() < 65536,
        forall|i: int, j: int|
            0 <= i < reg.len() && 0 <= j < reg.len() && i != j ==> reg[i] != reg[j],
        forall|i: int, k: int|
            0 <= i < chunk_data.subchunks@.len() && 0 <= k < chunk_data.subchunks@[i]@.len()
                ==> #[trigger] chunk_data.subchunks@[i]@[k] < reg.len(),
        written_doc_ok(chunk_data, reg, doc),
    ensures
        spec_read_chunk(doc, reg) == Ok::<
            ((i32, i32), Seq<Seq<u16>>, (Seq<i64>, Seq<i64>)),
            DocReadError,
        >(
            (
                (chunk_data.position.x, chunk_data.position.z),
                chunk_data.subchunks@.map_values(|s: Vec<u16>| s@),
                (chunk_data.heightmap.motion_blocking@, chunk_data.heightmap.world_surface@),
            ),
        ),
{
    let secs = choose|secs: Seq<(i8, Seq<Seq<u8>>, Seq<i64>)>|
        {
            &&& secs.len() == SECTIONS_PER_CHUNK
            &&& (forall|i: int|
                0 <= i < SECTIONS_PER_CHUNK ==> #[trigger] sec_ok(
                    secs[i],
                    chunk_data.subchunks@[i]@,
                    reg,
                    (i - 4) as i8,
                ))
            &&& doc == encode_doc(
                WORLD_DATA_VERSION,
                chunk_data.position.x,
                chunk_data.position.z,
                nm_full_status(),
                secs,
                chunk_data.heightmap.motion_blocking@,
                chunk_data.heightmap.world_surface@,
            )
        };
    let blocks = chunk_data.subchunks@.map_values(|s: Vec<u16>| s@);
    assert forall|i: int, k: int|
        0 <= i < 24 && 0 <= k < 4096 implies #[trigger] blocks[i][k] < reg.len() by {
        assert(chunk_data.subchunks@[i]@[k] < reg.len());
    }
    assert forall|i: int| 0 <= i < 24 implies #[trigger] blocks[i].len() == 4096 by {
        assert(chunk_data.subchunks@[i]@.len() == 4096);
    }
    assert forall|i: int| 0 <= i < 24 implies #[trigger] sec_ok(
        secs[i],
        blocks[i],
        reg,
        (i - 4) as i8,
    ) by {
        assert(sec_ok(secs[i], chunk_data.subchunks@[i]@, reg, (i - 4) as i8));
        assert(blocks[i] == chunk_data.subchunks@[i]@);
    }
    lemma_chunk_document_roundtrip(
        chunk_data.position.x,
        chunk_data.position.z,
        blocks,
        reg,
        secs,
        chunk_data.heightmap.motion_blocking@,
        chunk_data.heightmap.world_surface@,
    );
    assert(blocks =~= chunk_data.subchunks@.map_values(|s: Vec<u16>| s@));
}

} // verus!
