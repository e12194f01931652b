use vstd::prelude::*;
use crate::anvil::{AnvilChunkFormat, BlockRegistry, ChunkData};
use crate::compression::CompressionError;
use crate::region::{ChunkParsingError, ChunkStorageReadingError, ChunkStorageWritingError};
use crate::vector2::Vec2;

verus! {

/// Why a chunk document could not be read.
#[derive(Debug)]
pub enum ChunkReadingError {
    IoError(std::io::ErrorKind),
    InvalidHeader,
    RegionIsInvalid,
    Compression(CompressionError),
    ChunkNotExist,
    ParsingError(ChunkParsingError),
}

/// Why a chunk document could not be written.
#[derive(Debug)]
pub enum ChunkWritingError {
    IoError(std::io::ErrorKind),
    Compression(CompressionError),
    ChunkSerializingError(String),
}

/// How a storage-level reading failure surfaces at the document level: the
/// same case under the same name, carrying the same payload.
pub open spec fn reading_err_corresponds(e: &ChunkReadingError, s: &ChunkStorageReadingError) -> bool {
    match (e, s) {
        (ChunkReadingError::IoError(a), ChunkStorageReadingError::IoError(b)) => a == b,
        (ChunkReadingError::InvalidHeader, ChunkStorageReadingError::InvalidHeader) => true,
        (ChunkReadingError::RegionIsInvalid, ChunkStorageReadingError::RegionIsInvalid) => true,
        (ChunkReadingError::Compression(a), ChunkStorageReadingError::Compression(b)) => a == b,
        (ChunkReadingError::ChunkNotExist, ChunkStorageReadingError::ChunkNotExist) => true,
        (ChunkReadingError::ParsingError(a), ChunkStorageReadingError::ParsingError(b)) => a == b,
        _ => false,
    }
}

/// Lifts a storage-level reading failure to the document level.
pub fn lift_reading_error(e: ChunkStorageReadingError) -> (r: ChunkReadingError)
    ensures
        reading_err_corresponds(&r, &e),
{
    match e {
        ChunkStorageReadingError::IoError(k) => ChunkReadingError::IoError(k),
        ChunkStorageReadingError::InvalidHeader => ChunkReadingError::InvalidHeader,
        ChunkStorageReadingError::RegionIsInvalid => ChunkReadingError::RegionIsInvalid,
        ChunkStorageReadingError::Compression(c) => ChunkReadingError::Compression(c),
        ChunkStorageReadingError::ChunkNotExist => ChunkReadingError::ChunkNotExist,
        ChunkStorageReadingError::ParsingError(p) => ChunkReadingError::ParsingError(p),
    }
}

/// How a storage-level writing failure surfaces at the document level: the
/// same case under the same name, carrying the same payload.
pub open spec fn writing_err_corresponds(e: &ChunkWritingError, s: &ChunkStorageWritingError) -> bool {
    match (e, s) {
        (ChunkWritingError::IoError(a), ChunkStorageWritingError::IoError(b)) => a == b,
        (ChunkWritingError::Compression(a), ChunkStorageWritingError::Compression(b)) => a == b,
        (
            ChunkWritingError::ChunkSerializingError(a),
            ChunkStorageWritingError::ChunkSerializingError(b),
        ) => a == b,
        _ => false,
    }
}

/// Lifts a storage-level writing failure to the document level.
pub fn lift_writing_error(e: ChunkStorageWritingError) -> (r: ChunkWritingError)
    ensures
        writing_err_corresponds(&r, &e),
{
    match e {
        ChunkStorageWritingError::IoError(k) => ChunkWritingError::IoError(k),
        ChunkStorageWritingError::Compression(c) => ChunkWritingError::Compression(c),
        ChunkStorageWritingError::ChunkSerializingError(m) => ChunkWritingError::ChunkSerializingError(
            m,
        ),
    }
}

/// A codec that rebuilds a chunk column from document bytes.
pub trait ChunkReader {
    fn read_chunk(&self, chunk_bytes: Vec<u8>, at: &Vec2<i32>, registry: &BlockRegistry) -> Result<
        ChunkData,
        ChunkStorageReadingError,
    >;
}

/// A codec that serializes a chunk column into document bytes.
pub trait ChunkWriter {
    fn write_chunk(&self, chunk_data: &ChunkData, at: &Vec2<i32>, registry: &BlockRegistry) -> Result<
        Vec<u8>,
        ChunkStorageWritingError,
    >;
}


impl ChunkReader for AnvilChunkFormat {
    fn read_chunk(&self, chunk_bytes: Vec<u8>, at: &Vec2<i32>, registry: &BlockRegistry) -> Result<
        ChunkData,
        ChunkStorageReadingError,
    > {
        if !registry_wf_check(registry) {
            return Err(ChunkStorageReadingError::InvalidHeader);
        }
        AnvilChunkFormat::read_chunk(self, chunk_bytes, at, registry)
    }
}

/// Whether the registry is well formed, checked at run time for callers that
/// reach the codec through its traits.
pub fn registry_wf_check(registry: &BlockRegistry) -> (r: bool)
    ensures
        r == crate::anvil::registry_wf(registry),
{
    if registry.names.len() < 1 || registry.names.len() > 65536 {
        return false;
    }
    let mut i: usize = 0;
    while i < registry.names.len()
        invariant
            i <= registry.names@.len(),
            1 <= registry.names@.len() <= 65536,
            forall|q: int| 0 <= q < i ==> #[trigger] registry.names@[q]@.len() < 65536,
            forall|q: int, w: int|
                0 <= q < i && 0 <= w < q ==> registry.names@[q]@ != registry.names@[w]@,
        decreases registry.names@.len() - i,
    {
        if registry.names[i].len() >= 65536 {
            return false;
        }
        let mut j: usize = 0;
        while j < i
            invariant
                j <= i < registry.names@.len(),
                forall|w: int| 0 <= w < j ==> registry.names@[i as int]@ != registry.names@[w]@,
            decreases i - j,
        {
            if crate::byteops::bytes_eq(&registry.names[i], &registry.names[j]) {
                return false;
            }
            j = j + 1;
        }
        i = i + 1;
    }
    proof {
        assert forall|q: int, w: int|
            0 <= q < registry.names@.len() && 0 <= w < registry.names@.len() && q
                != w implies registry.names@[q]@ != registry.names@[w]@ by {
            if q > w {
            } else {
            }
        }
    }
    true
}

impl ChunkWriter for AnvilChunkFormat {
    fn write_chunk(&self, chunk_data: &ChunkData, at: &Vec2<i32>, registry: &BlockRegistry) -> Result<
        Vec<u8>,
        ChunkStorageWritingError,
    > {
        if !registry_wf_check(registry) || !chunk_wf_check(chunk_data, registry) {
            return Err(ChunkStorageWritingError::ChunkSerializingError(
                "chunk or registry is not well formed".to_owned(),
            ));
        }
        AnvilChunkFormat::save_chunk(self, chunk_data, at, registry)
    }
}

/// Whether a chunk column is well formed and every block state is one the
/// registry can name, checked at run time.
pub fn chunk_wf_check(chunk_data: &ChunkData, registry: &BlockRegistry) -> (r: bool)
    ensures
        r == (crate::anvil::chunk_data_wf(chunk_data) && crate::anvil::chunk_ids_in_registry(
            chunk_data,
            registry,
        )),
{
    if chunk_data.subchunks.len() != 24 {
        return false;
    }
    if chunk_data.heightmap.motion_blocking.len() >= 0x80000000
        || chunk_data.heightmap.world_surface.len() >= 0x80000000 {
        return false;
    }
    let mut i: usize = 0;
    while i < 24
        invariant
            i <= 24,
            chunk_data.subchunks@.len() == 24,
            crate::anvil::heightmaps_wf(&chunk_data.heightmap),
            forall|q: int| 0 <= q < i ==> #[trigger] chunk_data.subchunks@[q]@.len() == 4096,
            forall|q: int, k: int|
                0 <= q < i && 0 <= k < chunk_data.subchunks@[q]@.len()
                    ==> #[trigger] chunk_data.subchunks@[q]@[k] < registry.names@.len(),
        decreases 24 - i,
    {
        if chunk_data.subchunks[i].len() != 4096 {
            return false;
        }
        let mut k: usize = 0;
        while k < 4096
            invariant
                k <= 4096,
                i < chunk_data.subchunks@.len(),
                chunk_data.subchunks@[i as int]@.len() == 4096,
                forall|w: int|
                    0 <= w < k ==> #[trigger] chunk_data.subchunks@[i as int]@[w]
                        < registry.names@.len(),
            decreases 4096 - k,
        {
            if chunk_data.subchunks[i][k] as usize >= registry.names.len() {
                return false;
            }
            k = k + 1;
        }
        i = i + 1;
    }
    true
}

} // verus!
