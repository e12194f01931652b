use vstd::prelude::*;
use crate::anvil::{AnvilChunkFormat, BlockRegistry, ChunkData, chunk_data_wf, chunk_ids_in_registry, doc_err_matches, reg_view, registry_wf, sec_ok, spec_read_chunk, SECTIONS_PER_CHUNK};
use crate::region::{read_err_matches, spec_read_raw, AnvilSaver, ChunkStorageReadingError, ChunkStorageWritingError, loc_entry_count, local_index_spec, location_table_of, location_table_wf, region_write_frame, region_write_layout, sectors_for_payload, write_fits, RawReadError};
use crate::compression::zlib_deflate;
use crate::vector2::Vec2;

verus! {

/// Loads the chunk at `at` from its region file image, or reports why it
/// cannot be loaded. `file` is the region file's contents, or nothing when
/// the file does not exist on disk — an absent file is an absent chunk, not
/// an error. A stored document whose status is not fully generated is also
/// absent.
pub fn load_chunk(file: &Option<Vec<u8>>, at: &Vec2<i32>, registry: &BlockRegistry) -> (r: Result<
    ChunkData,
    ChunkStorageReadingError,
>)
    requires
        registry_wf(registry),
    ensures
        file is None ==> (r matches Err(e) && e is ChunkNotExist),
        match r {
            Ok(c) => {
                &&& file matches Some(f) && spec_read_raw(f@, local_index_spec(at.x, at.z))
                    matches Ok(payload) && spec_read_chunk(payload, reg_view(registry))
                    matches Ok(v) && c.subchunks@.map_values(|s: Vec<u16>| s@) == v.1 && (
                c.heightmap.motion_blocking@, c.heightmap.world_surface@) == v.2
                &&& c.position == *at
                &&& chunk_data_wf(&c)
            },
            Err(e) => match file {
                Some(f) => {
                    let idx = local_index_spec(at.x, at.z);
                    match spec_read_raw(f@, idx) {
                        Ok(payload) => spec_read_chunk(payload, reg_view(registry)) matches Err(k)
                            && doc_err_matches(e, k),
                        Err(k) => read_err_matches(e, k),
                    }
                },
                None => e is ChunkNotExist,
            },
        },
{
    let f = match file {
        Some(f) => f,
        None => {
            return Err(ChunkStorageReadingError::ChunkNotExist);
        },
    };
    let saver = AnvilSaver;
    let raw = match saver.read_raw_chunk(f, at) {
        Ok(raw) => raw,
        Err(e) => {
            return Err(e);
        },
    };
    let format = AnvilChunkFormat;
    format.read_chunk(raw, at, registry)
}

/// Saves a chunk into its region file image, `file` being the region file's
/// current contents — empty when the region file does not yet exist on
/// disk, since a write creates it. On success the image's slot for `at`
/// holds document bytes that `written_doc_ok` ties to this very chunk, so by
/// `lemma_saved_chunk_loads_back` loading the slot gives the chunk back.
/// What the write does to the rest of the image — every other entry kept,
/// in-place reuse, timestamps — is stated on the raw write it delegates to,
/// and a failure leaves the image untouched.
pub fn save_chunk(
    chunk_data: &ChunkData,
    file: &mut Vec<u8>,
    at: &Vec2<i32>,
    registry: &BlockRegistry,
    epoch: u32,
) -> (r: Result<(), ChunkStorageWritingError>)
    requires
        chunk_data_wf(chunk_data),
        registry_wf(registry),
        chunk_ids_in_registry(chunk_data, registry),
        location_table_wf(location_table_of(old(file)@)),
    ensures
        r matches Err(e) ==> final(file)@ == old(file)@ && e is IoError,
        (forall|doc: Seq<u8>|
            crate::anvil::written_doc_ok(chunk_data, reg_view(registry), doc) ==> (zlib_deflate(
                doc,
                6,
            ).len() + 5 <= 255 * 4096 && write_fits(
                location_table_of(old(file)@),
                local_index_spec(at.x, at.z),
                sectors_for_payload(zlib_deflate(doc, 6).len() as int),
            ))) ==> r is Ok,
        r is Ok ==> ({
            let idx = local_index_spec(at.x, at.z);
            &&& location_table_wf(location_table_of(final(file)@))
            &&& spec_read_raw(final(file)@, idx) matches Ok(doc) && crate::anvil::written_doc_ok(
                chunk_data,
                reg_view(registry),
                doc,
            ) && loc_entry_count(location_table_of(final(file)@), idx) == sectors_for_payload(
                zlib_deflate(doc, 6).len() as int,
            ) && region_write_layout(old(file)@, final(file)@, idx, zlib_deflate(doc, 6), 2u8)
            &&& region_write_frame(old(file)@, final(file)@, idx, epoch)
        }),
{
    let format = AnvilChunkFormat;
    let bytes = match format.save_chunk(chunk_data, at, registry) {
        Ok(b) => b,
        Err(e) => {
            return Err(e);
        },
    };
    let ghost doc_bytes = bytes@;
    let saver = AnvilSaver;
    match saver.write_raw_chunk(bytes, file, at, epoch) {
        Ok(()) => {
            proof {
                let idx = local_index_spec(at.x, at.z);
                assert(spec_read_raw(file@, idx) == Ok::<Seq<u8>, RawReadError>(doc_bytes));
                assert(crate::anvil::written_doc_ok(chunk_data, reg_view(registry), doc_bytes));
            }
            Ok(())
        },
        Err(e) => {
            proof {
                // The produced document itself witnesses that the owed
                // capacity condition failed.
                assert(crate::anvil::written_doc_ok(chunk_data, reg_view(registry), doc_bytes));
            }
            Err(e)
        },
    }
}

} // verus!
