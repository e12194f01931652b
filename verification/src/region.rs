use vstd::prelude::*;
use crate::byteops::{copy_range, push_bytes, push_repeat, push_u32_be, read_u24_be, read_u32_be, u24_from_be, u32_from_be, be32_bytes, write_at};
use crate::compression::{Compression, CompressionError, gzip_inflate, zlib_deflate, zlib_inflate};
use crate::vector2::Vec2;

verus! {

#[verifier::external_type_specification]
#[verifier::external_body]
pub struct ExIoErrorKind(std::io::ErrorKind);

/// Why a raw chunk payload could not be read from a region file.
#[derive(Debug)]
pub enum ChunkStorageReadingError {
    IoError(std::io::ErrorKind),
    InvalidHeader,
    RegionIsInvalid,
    Compression(CompressionError),
    ChunkNotExist,
    ParsingError(ChunkParsingError),
}

/// Why a chunk document could not be rebuilt from payload bytes.
#[derive(Debug)]
pub enum ChunkParsingError {
    ErrorDeserializingChunk(String),
}

/// Why a raw chunk payload could not be written to a region file.
#[derive(Debug)]
pub enum ChunkStorageWritingError {
    IoError(std::io::ErrorKind),
    Compression(CompressionError),
    ChunkSerializingError(String),
}

/// Relies on std's io::ErrorKind: names the kind reported when a payload or
/// its allocated position cannot be represented in the fixed region format.
#[verifier::external_body]
fn invalid_data_kind() -> std::io::ErrorKind {
    std::io::ErrorKind::InvalidData
}

/// The region that holds a chunk: each region file covers a 32-by-32 square
/// of chunks, so the region coordinate is the chunk coordinate divided by 32
/// and rounded toward negative infinity (never toward zero).
pub fn region_coordinates(at: &Vec2<i32>) -> (r: Vec2<i32>)
    ensures
        r.x == at.x as int / 32,
        r.z == at.z as int / 32,
{
    let (qx, _) = floor_div_rem_32(at.x);
    let (qz, _) = floor_div_rem_32(at.z);
    Vec2 { x: qx, z: qz }
}

/// Euclidean division of `v` by 32: quotient rounded toward negative
/// infinity, remainder in `[0, 32)`.
fn floor_div_rem_32(v: i32) -> (r: (i32, i32))
    ensures
        r.0 == v as int / 32,
        r.1 == v as int % 32,
{
    if v >= 0 {
        (v / 32, v % 32)
    } else {
        let m: i32 = -(v + 1);
        let a: i32 = m / 32;
        let b: i32 = m % 32;
        proof {
            assert(v as int == 32 * (-a - 1) + (31 - b));
            assert(v as int / 32 == -a - 1 && v as int % 32 == 31 - b) by {
                vstd::arithmetic::div_mod::lemma_fundamental_div_mod_converse(
                    v as int,
                    32,
                    -a - 1,
                    31 - b,
                );
            }
        }
        (-a - 1, 31 - b)
    }
}

/// A chunk's slot within its region's 32-by-32 grid, in `[0, 1024)`.
pub open spec fn local_index_spec(x: i32, z: i32) -> int {
    (x as int % 32) + (z as int % 32) * 32
}

pub fn local_chunk_index(at: &Vec2<i32>) -> (r: usize)
    ensures
        r == local_index_spec(at.x, at.z),
        r < 1024,
{
    let (_, rx) = floor_div_rem_32(at.x);
    let (_, rz) = floor_div_rem_32(at.z);
    rx as usize + rz as usize * 32
}

/// The sector offset stored in a location table entry (3 big-endian bytes).
pub open spec fn loc_entry_offset(t: Seq<u8>, i: int) -> int {
    (t[4 * i] as int) * 0x10000 + (t[4 * i + 1] as int) * 0x100 + (t[4 * i + 2] as int)
}

/// The sector count stored in a location table entry (1 byte).
pub open spec fn loc_entry_count(t: Seq<u8>, i: int) -> int {
    t[4 * i + 3] as int
}

/// A zero entry marks an absent chunk.
pub open spec fn loc_entry_empty(t: Seq<u8>, i: int) -> bool {
    loc_entry_offset(t, i) == 0 && loc_entry_count(t, i) == 0
}

/// A well-formed location table: every entry is absent or points past the
/// two header sectors. Sectors 0 and 1 always hold the tables themselves.
pub open spec fn location_table_wf(t: Seq<u8>) -> bool {
    &&& t.len() == 4096
    &&& forall|i: int|
        #![trigger loc_entry_count(t, i)]
        0 <= i < 1024 ==> loc_entry_empty(t, i) || loc_entry_offset(t, i) >= 2
}

/// Whether entry `j`'s run covers sector `s`.
pub open spec fn entry_covers(t: Seq<u8>, j: int, s: int) -> bool {
    loc_entry_offset(t, j) <= s < loc_entry_offset(t, j) + loc_entry_count(t, j)
}

/// Whether some entry's run covers sector `s`.
pub open spec fn sector_used(t: Seq<u8>, s: int) -> bool {
    exists|j: int| #![trigger entry_covers(t, j, s)] 0 <= j < 1024 && entry_covers(t, j, s)
}

/// Whether the `n` sectors starting at `s` meet an occupied sector.
pub open spec fn window_blocked(t: Seq<u8>, s: int, n: int) -> bool {
    exists|u: int| #![trigger sector_used(t, u)] s <= u < s + n && sector_used(t, u)
}

/// Whether any occupied sector lies below `s`.
pub open spec fn has_used_below(t: Seq<u8>, s: int) -> bool {
    exists|u: int| #![trigger sector_used(t, u)] u < s && sector_used(t, u)
}

/// Whether the runs of distinct occupied entries never overlap.
pub open spec fn location_runs_disjoint(t: Seq<u8>) -> bool {
    forall|i: int, j: int|
        0 <= i < 1024 && 0 <= j < 1024 && i != j && loc_entry_count(t, i) > 0 && loc_entry_count(
            t,
            j,
        ) > 0 ==> loc_entry_offset(t, i) + loc_entry_count(t, i) <= loc_entry_offset(t, j)
            || loc_entry_offset(t, j) + loc_entry_count(t, j) <= loc_entry_offset(t, i)
}

/// The in-memory location table a region file image denotes: its first 4096
/// bytes, or all zeroes when the file is shorter than the 8192-byte header.
pub open spec fn location_table_of(file: Seq<u8>) -> Seq<u8> {
    if file.len() >= 8192 {
        file.subrange(0, 4096)
    } else {
        Seq::new(4096, |i: int| 0u8)
    }
}

/// The in-memory timestamp table a region file image denotes.
pub open spec fn timestamp_table_of(file: Seq<u8>) -> Seq<u8> {
    if file.len() >= 8192 {
        file.subrange(4096, 8192)
    } else {
        Seq::new(4096, |i: int| 0u8)
    }
}

/// Under a well-formed table every used sector lies past the header
/// sectors and below the end of the largest possible run.
pub proof fn lemma_used_sector_bounds(t: Seq<u8>, s: int)
    requires
        location_table_wf(t),
        sector_used(t, s),
    ensures
        2 <= s < 0x1000000 + 0x100,
{
    let j = choose|j: int| #![trigger entry_covers(t, j, s)] 0 <= j < 1024 && entry_covers(t, j, s);
    assert(loc_entry_count(t, j) > 0);
    assert(!loc_entry_empty(t, j));
    assert(loc_entry_offset(t, j) >= 2);
    assert(t[4 * j] <= 255 && t[4 * j + 1] <= 255 && t[4 * j + 2] <= 255 && t[4 * j + 3] <= 255);
}

/// The persistent store that keeps chunks in region container files.
pub struct AnvilSaver;

impl AnvilSaver {
    /// Returns the next free writable sector: one whose whole run of
    /// `sector_size` sectors overlaps no entry's run. The result is absolute,
    /// so it is always at least 2 (past the header sectors), and, except for
    /// an empty table, it sits directly after some occupied sector, which is
    /// how the scan reuses gaps before growing the file.
    pub fn find_free_sector(&self, location_table: &Vec<u8>, sector_size: usize) -> (r: usize)
        requires
            location_table_wf(location_table@),
            1 <= sector_size <= 255,
        ensures
            2 <= r,
            r <= 0x1000000 + 0x100,
            forall|s: int| r <= s < r + sector_size ==> !sector_used(location_table@, s),
            r == 2 || sector_used(location_table@, r - 1),
            forall|s: int|
                #![trigger window_blocked(location_table@, s, sector_size as int)]
                2 <= s < r && has_used_below(location_table@, s) ==> window_blocked(
                    location_table@,
                    s,
                    sector_size as int,
                ),
    {
        // One past the highest used sector, or 0 when nothing is occupied.
        let mut max_end: usize = 0;
        let mut i: usize = 0;
        while i < 1024
            invariant
                i <= 1024,
                location_table_wf(location_table@),
                max_end <= 0xFFFFFF + 0xFF,
                forall|j: int|
                    #![trigger loc_entry_count(location_table@, j)]
                    0 <= j < i && loc_entry_count(location_table@, j) > 0 ==> loc_entry_offset(location_table@, j)
                        + loc_entry_count(location_table@, j) <= max_end,
                max_end == 0 ==> forall|j: int|
                    0 <= j < i ==> #[trigger] loc_entry_count(location_table@, j) == 0,
                max_end > 0 ==> max_end >= 3 && sector_used(location_table@, max_end - 1),
            decreases 1024 - i,
        {
            let off: u32 = read_u24_be(location_table, i * 4);
            let cnt: u8 = location_table[i * 4 + 3];
            proof {
                assert(off == loc_entry_offset(location_table@, i as int));
                assert(cnt == loc_entry_count(location_table@, i as int));
            }
            if cnt > 0 {
                let end: usize = off as usize + cnt as usize;
                if end > max_end {
                    max_end = end;
                    proof {
                        assert(loc_entry_offset(location_table@, i as int) >= 2);
                        assert(entry_covers(location_table@, i as int, max_end - 1));
                        assert(sector_used(location_table@, max_end - 1));
                    }
                }
            }
            i = i + 1;
        }
        if max_end == 0 {
            proof {
                assert forall|s: int| !sector_used(location_table@, s) by {
                    assert(forall|j: int| 0 <= j < 1024 ==> #[trigger] loc_entry_count(location_table@, j) == 0);
                }
            }
            return 2;
        }
        // Mark every used sector in a bitmap up to max_end.
        let mut used: Vec<bool> = Vec::new();
        push_repeat_bool(&mut used, false, max_end);
        let mut i: usize = 0;
        while i < 1024
            invariant
                i <= 1024,
                location_table_wf(location_table@),
                used@.len() == max_end,
                3 <= max_end <= 0xFFFFFF + 0xFF,
                forall|j: int|
                    #![trigger loc_entry_count(location_table@, j)]
                    0 <= j < 1024 && loc_entry_count(location_table@, j) > 0 ==> loc_entry_offset(location_table@, j)
                        + loc_entry_count(location_table@, j) <= max_end,
                forall|s: int|
                    0 <= s < max_end ==> (used@[s] <==> exists|j: int|
                        #![trigger entry_covers(location_table@, j, s)]
                        0 <= j < i && entry_covers(location_table@, j, s)),
            decreases 1024 - i,
        {
            let off: u32 = read_u24_be(location_table, i * 4);
            let cnt: u8 = location_table[i * 4 + 3];
            proof {
                assert(off == loc_entry_offset(location_table@, i as int));
                assert(cnt == loc_entry_count(location_table@, i as int));
            }
            let mut s: usize = off as usize;
            let end: usize = off as usize + cnt as usize;
            while s < end
                invariant
                    location_table_wf(location_table@),
                        used@.len() == max_end,
                    off == loc_entry_offset(location_table@, i as int),
                    cnt == loc_entry_count(location_table@, i as int),
                    i < 1024,
                    off <= s <= end,
                    end == off + cnt,
                    cnt > 0 ==> end <= max_end,
                    forall|u: int|
                        0 <= u < max_end ==> (used@[u] <==> (exists|j: int|
                            #![trigger entry_covers(location_table@, j, u)]
                            0 <= j < i && entry_covers(location_table@, j, u)) || (off <= u < s)),
                decreases end - s,
            {
                used[s] = true;
                s = s + 1;
            }
            proof {
                assert forall|u: int| 0 <= u < max_end implies (used@[u] <==> (exists|j: int|
                    #![trigger entry_covers(location_table@, j, u)]
                    0 <= j < i + 1 && entry_covers(location_table@, j, u))) by {
                    if used@[u] {
                        if off <= u < end {
                            assert(entry_covers(location_table@, i as int, u));
                        }
                    } else {
                        assert(!entry_covers(location_table@, i as int, u));
                    }
                }
            }
            i = i + 1;
        }
        proof {
            assert(forall|s: int| 0 <= s < max_end ==> (used@[s] <==> sector_used(location_table@, s)));
            assert forall|s: int| s >= max_end implies !sector_used(location_table@, s) by {
                if sector_used(location_table@, s) {
                    lemma_used_sector_bounds(location_table@, s);
                    let j = choose|j: int|
                        #![trigger entry_covers(location_table@, j, s)]
                        0 <= j < 1024 && entry_covers(location_table@, j, s);
                    assert(loc_entry_count(location_table@, j) > 0);
                    assert(s < loc_entry_offset(location_table@, j) + loc_entry_count(location_table@, j) <= max_end);
                }
            }
        }
        // Scan for the first free run of sector_size sectors that directly
        // follows a used sector. `free_run` counts the free sectors ending
        // just below `s`; the run reaches down to the scan's start or to the
        // sector right after the last occupied one, and every earlier
        // candidate whose window has been fully scanned was blocked.
        let n: usize = sector_size;
        let mut free_run: usize = 0;
        let mut s: usize = 3;
        proof {
            assert forall|c: int|
                2 <= c && has_used_below(location_table@, c) && c + sector_size <= 3 implies
                window_blocked(location_table@, c, sector_size as int) by {
                let u = choose|u: int|
                    #![trigger sector_used(location_table@, u)]
                    u < c && sector_used(location_table@, u);
                lemma_used_sector_bounds(location_table@, u);
            }
        }
        while s < max_end
            invariant
                location_table_wf(location_table@),
                3 <= s,
                free_run + 2 <= s,
                s <= max_end <= 0xFFFFFF + 0xFF,
                used@.len() == max_end,
                1 <= n <= 255,
                n == sector_size,
                forall|u: int| 0 <= u < max_end ==> (used@[u] <==> sector_used(location_table@, u)),
                forall|u: int| u >= max_end ==> !sector_used(location_table@, u),
                forall|u: int| s - free_run <= u < s ==> !sector_used(location_table@, u),
                s - free_run == 3 || sector_used(location_table@, s - free_run - 1),
                forall|c: int|
                    #![trigger window_blocked(location_table@, c, sector_size as int)]
                    2 <= c && has_used_below(location_table@, c) && c + sector_size <= s
                        ==> window_blocked(location_table@, c, sector_size as int),
                max_end >= 3 && sector_used(location_table@, max_end - 1),
            decreases max_end - s,
        {
            if !used[s] {
                let new_run: usize = free_run + 1;
                if new_run >= n {
                    let p: usize = s - n;
                    if used[p] {
                        proof {
                            assert(sector_used(location_table@, p as int));
                            lemma_used_sector_bounds(location_table@, p as int);
                            assert forall|u: int|
                                p + 1 <= u < p + 1 + sector_size implies !sector_used(
                                location_table@,
                                u,
                            ) by {
                                if u == s as int {
                                    assert(!used@[s as int]);
                                } else {
                                    assert(s - free_run <= u < s);
                                }
                            }
                            // Every lower candidate's window ended before `s`
                            // and was blocked.
                            assert forall|c: int|
                                2 <= c < p + 1 && has_used_below(location_table@, c) implies
                                window_blocked(location_table@, c, sector_size as int) by {
                                assert(c + sector_size <= s);
                            }
                        }
                        return p + 1;
                    }
                }
                free_run = new_run;
            } else {
                free_run = 0;
            }
            proof {
                // The candidate whose window ends exactly at `s` is blocked
                // too, or has no occupied sector below it at all.
                assert forall|c: int|
                    2 <= c && has_used_below(location_table@, c) && c + sector_size == s + 1
                    implies window_blocked(location_table@, c, sector_size as int) by {
                    if sector_used(location_table@, s as int) {
                        assert(c <= s < c + sector_size);
                    } else {
                        let fr = free_run as int;
                        assert(fr >= 1);
                        assert(forall|u: int|
                            s + 1 - fr <= u <= s ==> !sector_used(location_table@, u));
                        if fr < n {
                            if s + 1 - fr == 3 {
                                assert(c < 3);
                                let u = choose|u: int|
                                    #![trigger sector_used(location_table@, u)]
                                    u < c && sector_used(location_table@, u);
                                lemma_used_sector_bounds(location_table@, u);
                            } else {
                                assert(sector_used(location_table@, s - fr));
                                assert(c <= s - fr < c + sector_size);
                            }
                        } else {
                            // The run already covers the whole window and the
                            // sector before it is free, so an earlier blocked
                            // candidate would have to exist — impossible.
                            let p = s - n;
                            assert(!sector_used(location_table@, p));
                            let u = choose|u: int|
                                #![trigger sector_used(location_table@, u)]
                                u < c && sector_used(location_table@, u);
                            lemma_used_sector_bounds(location_table@, u);
                            assert(u < s + 1 - fr) by {
                                if u >= s + 1 - fr {
                                    assert(!sector_used(location_table@, u));
                                }
                            }
                            if s + 1 - fr == 3 {
                                assert(u == 2);
                                assert(c >= 4) by {
                                    if c == 3 {
                                        assert(u == p);
                                    }
                                }
                                assert(has_used_below(location_table@, 3));
                                assert(window_blocked(location_table@, 3, sector_size as int));
                                let w = choose|w: int|
                                    #![trigger sector_used(location_table@, w)]
                                    3 <= w < 3 + sector_size && sector_used(location_table@, w);
                                assert(s + 1 - fr <= w <= s);
                                assert(false);
                            } else {
                                let q0 = s - fr;
                                assert(sector_used(location_table@, q0));
                                lemma_used_sector_bounds(location_table@, q0);
                                assert(p > q0) by {
                                    if p == q0 {
                                        assert(false);
                                    }
                                }
                                assert(fr >= n + 1);
                                assert(has_used_below(location_table@, q0 + 1));
                                assert(window_blocked(location_table@, q0 + 1, sector_size as int));
                                let w = choose|w: int|
                                    #![trigger sector_used(location_table@, w)]
                                    q0 + 1 <= w < q0 + 1 + sector_size && sector_used(
                                        location_table@,
                                        w,
                                    );
                                assert(s + 1 - fr <= w <= s);
                                assert(false);
                            }
                        }
                    }
                }
            }
            s = s + 1;
        }
        proof {
            assert(forall|u: int| max_end <= u < max_end + n ==> !sector_used(location_table@, u));
            // Below the fallback result every candidate's window either ended
            // inside the scan (and was blocked) or reaches the highest
            // occupied sector.
            assert forall|c: int|
                2 <= c < max_end && has_used_below(location_table@, c) implies window_blocked(
                location_table@,
                c,
                sector_size as int,
            ) by {
                if c + sector_size > max_end {
                    assert(c <= max_end - 1 < c + sector_size);
                }
            }
        }
        max_end
    }
}

/// How reading one entry of a region file image can fail, stated over the
/// bytes alone.
#[derive(Clone, Copy, Debug, PartialEq, Eq, Structural)]
pub enum RawReadError {
    NotExist,
    RegionInvalid,
    InvalidHeader,
    UnknownScheme,
    CorruptStream,
}

/// The stored payload of entry `idx` in a region file image: its scheme byte
/// and compressed body, or how extracting them fails. This is the byte-exact
/// meaning of the on-disk format: a 3-byte sector offset and 1-byte sector
/// count per entry, a 4-byte big-endian length (body plus scheme byte) and a
/// scheme byte in front of each body.
pub open spec fn spec_read_stored(file: Seq<u8>, idx: int) -> Result<(u8, Seq<u8>), RawReadError> {
    if file.len() < 8192 {
        Err(RawReadError::RegionInvalid)
    } else {
        let t = file.subrange(0, 4096);
        let off = loc_entry_offset(t, idx);
        let cnt = loc_entry_count(t, idx);
        if off == 0 && cnt == 0 {
            Err(RawReadError::NotExist)
        } else if (off + cnt) * 4096 > file.len() {
            Err(RawReadError::RegionInvalid)
        } else {
            let buf = file.subrange(off * 4096, (off + cnt) * 4096);
            if buf.len() < 5 {
                Err(RawReadError::InvalidHeader)
            } else {
                let size = u32_from_be(buf[0], buf[1], buf[2], buf[3]) as int;
                if size < 1 || size - 1 > buf.len() - 5 {
                    Err(RawReadError::InvalidHeader)
                } else {
                    Ok((buf[4], buf.subrange(5, 5 + (size - 1))))
                }
            }
        }
    }
}

/// What a stored payload decodes to under its scheme byte: byte 0 passes the
/// body through, bytes 1 and 2 inflate it as gzip and zlib.
pub open spec fn spec_decode_payload(scheme: u8, body: Seq<u8>) -> Result<Seq<u8>, RawReadError> {
    if scheme == 0 {
        Ok(body)
    } else if scheme == 1 {
        match gzip_inflate(body) {
            Some(d) => Ok(d),
            None => Err(RawReadError::CorruptStream),
        }
    } else if scheme == 2 {
        match zlib_inflate(body) {
            Some(d) => Ok(d),
            None => Err(RawReadError::CorruptStream),
        }
    } else {
        Err(RawReadError::UnknownScheme)
    }
}

/// The decompressed chunk bytes entry `idx` of a region file image holds.
pub open spec fn spec_read_raw(file: Seq<u8>, idx: int) -> Result<Seq<u8>, RawReadError> {
    match spec_read_stored(file, idx) {
        Ok((scheme, body)) => spec_decode_payload(scheme, body),
        Err(e) => Err(e),
    }
}

/// How the byte-level failure is surfaced to callers.
pub open spec fn read_err_matches(e: ChunkStorageReadingError, k: RawReadError) -> bool {
    match k {
        RawReadError::NotExist => e is ChunkNotExist,
        RawReadError::RegionInvalid => e is RegionIsInvalid,
        RawReadError::InvalidHeader => e is InvalidHeader,
        RawReadError::UnknownScheme => e matches ChunkStorageReadingError::Compression(ce)
            && ce is UnknownCompression,
        RawReadError::CorruptStream => e matches ChunkStorageReadingError::Compression(ce) && (
        ce is ZlibError || ce is GZipError),
    }
}

/// The 4-byte slot of entry `i` in a header table.
pub open spec fn table_entry_bytes(t: Seq<u8>, i: int) -> Seq<u8> {
    t.subrange(4 * i, 4 * i + 4)
}

/// How many sectors a payload of `n` bytes occupies, its 5-byte header
/// included.
pub open spec fn sectors_for_payload(n: int) -> int {
    (n + 5 + 4095) / 4096
}

/// When a raw write of `scount` sectors is owed success: either the payload
/// still fits the chunk's old run (the write reuses it in place, and the
/// run's bytes are addressable), or every occupied sector lies low enough
/// that a fresh run still fits the 3-byte offset field (and the largest such
/// run is addressable, which holds on any 64-bit target).
pub open spec fn write_fits(t: Seq<u8>, idx: int, scount: int) -> bool {
    ||| (loc_entry_count(t, idx) >= scount && (loc_entry_offset(t, idx) + loc_entry_count(t, idx))
        * 4096 <= usize::MAX)
    ||| ((forall|s: int| sector_used(t, s) ==> s < 0xFFFF00) && 0x1000000 * 4096 <= usize::MAX)
}

/// What every raw write leaves behind, beyond the written entry itself: the
/// table stays well formed, every other location entry keeps its offset and
/// count, the timestamp slot of the written entry holds `epoch` and every
/// other timestamp slot is kept, a payload that still fits its old run keeps
/// its old offset, a payload that outgrew it moves to the run the allocator
/// names (wholly free, directly after an occupied sector or at the start,
/// first fit by address), and, as long as the old table's runs did not
/// overlap, they stay pairwise disjoint and every other chunk's stored
/// payload is untouched.
pub open spec fn region_write_frame(old_file: Seq<u8>, new_file: Seq<u8>, idx: int, epoch: u32) -> bool {
    let t_old = location_table_of(old_file);
    let t_new = location_table_of(new_file);
    let ts_old = timestamp_table_of(old_file);
    let ts_new = timestamp_table_of(new_file);
    &&& location_table_wf(t_new)
    &&& forall|j: int|
        0 <= j < 1024 && j != idx ==> loc_entry_offset(t_new, j) == loc_entry_offset(t_old, j)
            && loc_entry_count(t_new, j) == loc_entry_count(t_old, j)
    &&& (loc_entry_count(t_new, idx) <= loc_entry_count(t_old, idx) ==> loc_entry_offset(
        t_new,
        idx,
    ) == loc_entry_offset(t_old, idx))
    &&& (loc_entry_count(t_new, idx) > loc_entry_count(t_old, idx) ==> ({
        let off = loc_entry_offset(t_new, idx);
        let cnt = loc_entry_count(t_new, idx);
        &&& (forall|s: int| off <= s < off + cnt ==> !sector_used(t_old, s))
        &&& (off == 2 || sector_used(t_old, off - 1))
        &&& (forall|s: int|
            #![trigger window_blocked(t_old, s, cnt)]
            2 <= s < off && has_used_below(t_old, s) ==> window_blocked(t_old, s, cnt))
    }))
    &&& table_entry_bytes(ts_new, idx) == be32_bytes(epoch)
    &&& forall|j: int|
        0 <= j < 1024 && j != idx ==> table_entry_bytes(ts_new, j) == table_entry_bytes(ts_old, j)
    &&& (location_runs_disjoint(t_old) ==> location_runs_disjoint(t_new))
    &&& (location_runs_disjoint(t_old) ==> forall|j: int|
        0 <= j < 1024 && j != idx && spec_read_stored(old_file, j) is Ok ==> spec_read_stored(
            new_file,
            j,
        ) == spec_read_stored(old_file, j))
}

/// The exact bytes a write lays into its chosen run, and what it does to the
/// rest of the image: the run holds the 4-byte big-endian length (body plus
/// scheme byte), the scheme byte, the body and zero padding to the sector
/// end; the file grows only as far as the header and the run demand, grown
/// bytes outside the run are zero, and every byte past the header outside
/// the run is untouched.
pub open spec fn region_write_layout(
    old_file: Seq<u8>,
    new_file: Seq<u8>,
    idx: int,
    payload: Seq<u8>,
    scheme: u8,
) -> bool {
    let t_new = location_table_of(new_file);
    let off = loc_entry_offset(t_new, idx);
    let cnt = loc_entry_count(t_new, idx);
    let target = if (off + cnt) * 4096 > 8192 {
        (off + cnt) * 4096
    } else {
        8192
    };
    &&& new_file.subrange(off * 4096, (off + cnt) * 4096) == be32_bytes(
        (payload.len() + 1) as u32,
    ) + seq![scheme] + payload + Seq::new((cnt * 4096 - payload.len() - 5) as nat, |j: int| 0u8)
    &&& new_file.len() == (if old_file.len() as int >= target {
        old_file.len() as int
    } else {
        target
    })
    &&& forall|q: int|
        8192 <= q < old_file.len() && !(off * 4096 <= q < (off + cnt) * 4096) ==> new_file[q]
            == old_file[q]
    &&& forall|q: int|
        old_file.len() <= q < new_file.len() && 8192 <= q && !(off * 4096 <= q < (off + cnt)
            * 4096) ==> new_file[q] == 0
}

impl AnvilSaver {
    /// Reads the raw decompressed payload of the chunk at `at` out of the
    /// given region file image, exactly as `spec_read_raw` states it.
    pub fn read_raw_chunk(&self, file: &Vec<u8>, at: &Vec2<i32>) -> (r: Result<
        Vec<u8>,
        ChunkStorageReadingError,
    >)
        ensures
            ({
                let sr = spec_read_raw(file@, local_index_spec(at.x, at.z));
                match r {
                    Ok(d) => sr == Ok::<Seq<u8>, RawReadError>(d@),
                    Err(e) => sr is Err && read_err_matches(e, sr->Err_0),
                }
            }),
    {
        let idx = local_chunk_index(at);
        let ghost gidx = local_index_spec(at.x, at.z);
        if file.len() < 8192 {
            return Err(ChunkStorageReadingError::RegionIsInvalid);
        }
        let off32: u32 = read_u24_be(file, idx * 4);
        let cnt: u8 = file[idx * 4 + 3];
        proof {
            assert(file@.subrange(0, 4096)[4 * gidx] == file@[4 * gidx]);
            assert(off32 == loc_entry_offset(file@.subrange(0, 4096), gidx));
            assert(cnt == loc_entry_count(file@.subrange(0, 4096), gidx));
        }
        if off32 == 0 && cnt == 0 {
            return Err(ChunkStorageReadingError::ChunkNotExist);
        }
        let end_byte: u64 = (off32 as u64 + cnt as u64) * 4096;
        if end_byte > file.len() as u64 {
            return Err(ChunkStorageReadingError::RegionIsInvalid);
        }
        let start: usize = (off32 as u64 * 4096) as usize;
        let buf = copy_range(file, start, end_byte as usize);
        if buf.len() < 5 {
            return Err(ChunkStorageReadingError::InvalidHeader);
        }
        let size: u32 = read_u32_be(&buf, 0);
        let scheme: u8 = buf[4];
        if size < 1 || size as u64 - 1 > buf.len() as u64 - 5 {
            return Err(ChunkStorageReadingError::InvalidHeader);
        }
        let body = copy_range(&buf, 5, 5 + (size - 1) as usize);
        proof {
            assert(spec_read_stored(file@, gidx) == Ok::<(u8, Seq<u8>), RawReadError>(
                (scheme, body@),
            ));
        }
        match Compression::from_byte(scheme) {
            Ok(None) => Ok(body),
            Ok(Some(c)) => match c.decompress_data(&body) {
                Ok(d) => Ok(d),
                Err(e) => Err(ChunkStorageReadingError::Compression(e)),
            },
            Err(e) => Err(ChunkStorageReadingError::Compression(e)),
        }
    }
}

/// A write that stays inside its own chunk's run (or a free run) and leaves
/// every other location entry alone keeps the table's runs pairwise disjoint
/// and preserves every other chunk's stored payload, as long as the old
/// table's runs did not overlap.
#[verifier::rlimit(100)]
#[verifier::spinoff_prover]
proof fn lemma_write_preserves_others(
    old_file: Seq<u8>,
    fin: Seq<u8>,
    gidx: int,
    loc: int,
    scount: int,
)
    requires
        location_table_wf(location_table_of(old_file)),
        location_runs_disjoint(location_table_of(old_file)),
        0 <= gidx < 1024,
        2 <= loc,
        1 <= scount,
        fin.len() >= 8192,
        old_file.len() <= fin.len(),
        loc_entry_offset(location_table_of(fin), gidx) == loc,
        loc_entry_count(location_table_of(fin), gidx) == scount,
        forall|j: int|
            0 <= j < 1024 && j != gidx ==> loc_entry_offset(location_table_of(fin), j)
                == loc_entry_offset(location_table_of(old_file), j) && loc_entry_count(
                location_table_of(fin),
                j,
            ) == loc_entry_count(location_table_of(old_file), j),
        forall|q: int|
            8192 <= q < old_file.len() && !(loc * 4096 <= q < (loc + scount) * 4096) ==> fin[q]
                == old_file[q],
        forall|s: int|
            loc <= s < loc + scount ==> !sector_used(location_table_of(old_file), s)
                || entry_covers(location_table_of(old_file), gidx, s),
    ensures
        location_runs_disjoint(location_table_of(fin)),
        forall|j: int|
            0 <= j < 1024 && j != gidx && spec_read_stored(old_file, j) is Ok ==> spec_read_stored(
                fin,
                j,
            ) == spec_read_stored(old_file, j),
{
    let t_old = location_table_of(old_file);
    let t_new = location_table_of(fin);
    // The written run misses every other occupied entry's run.
    assert forall|j: int|
        0 <= j < 1024 && j != gidx && loc_entry_count(t_old, j) > 0 implies loc + scount
        <= loc_entry_offset(t_old, j) || loc_entry_offset(t_old, j) + loc_entry_count(t_old, j)
        <= loc by {
        let offj = loc_entry_offset(t_old, j);
        let cntj = loc_entry_count(t_old, j);
        if !(loc + scount <= offj || offj + cntj <= loc) {
            let sbad: int = if loc >= offj {
                loc
            } else {
                offj
            };
            assert(loc <= sbad < loc + scount);
            assert(entry_covers(t_old, j, sbad));
            assert(sector_used(t_old, sbad));
            assert(entry_covers(t_old, gidx, sbad));
            assert(loc_entry_count(t_old, gidx) > 0);
        }
    }
    // So the updated table's runs stay pairwise disjoint.
    assert forall|i: int, j: int|
        0 <= i < 1024 && 0 <= j < 1024 && i != j && loc_entry_count(t_new, i) > 0
            && loc_entry_count(t_new, j) > 0 implies loc_entry_offset(t_new, i) + loc_entry_count(
        t_new,
        i,
    ) <= loc_entry_offset(t_new, j) || loc_entry_offset(t_new, j) + loc_entry_count(t_new, j)
        <= loc_entry_offset(t_new, i) by {
        if i != gidx && j != gidx {
            assert(loc_entry_count(t_old, i) > 0 && loc_entry_count(t_old, j) > 0);
        }
    }
    // And every other committed entry still reads back unchanged.
    assert forall|j: int|
        0 <= j < 1024 && j != gidx && spec_read_stored(old_file, j) is Ok implies spec_read_stored(
        fin,
        j,
    ) == spec_read_stored(old_file, j) by {
        let offj = loc_entry_offset(t_old, j);
        let cntj = loc_entry_count(t_old, j);
        assert(old_file.len() >= 8192);
        assert(!(offj == 0 && cntj == 0));
        assert(!loc_entry_empty(t_old, j));
        assert(offj >= 2);
        assert((offj + cntj) * 4096 <= old_file.len());
        assert(cntj * 4096 >= 5);
        assert(cntj >= 1);
        assert(loc + scount <= offj || offj + cntj <= loc);
        assert forall|q: int|
            offj * 4096 <= q < (offj + cntj) * 4096 implies fin[q] == old_file[q] by {
            assert(q < old_file.len());
            assert(!(loc * 4096 <= q < (loc + scount) * 4096));
            assert(q >= 8192);
        }
        assert(fin.subrange(offj * 4096, (offj + cntj) * 4096) =~= old_file.subrange(
            offj * 4096,
            (offj + cntj) * 4096,
        ));
        assert(loc_entry_offset(location_table_of(fin), j) == offj && loc_entry_count(
            location_table_of(fin),
            j,
        ) == cntj);
    }
}

/// A run that holds the 4-byte length, the scheme byte, the body and zero
/// padding, at the position its table entry names, reads back as exactly
/// that scheme and body.
#[verifier::rlimit(60)]
proof fn lemma_written_run_parses(
    fin: Seq<u8>,
    gidx: int,
    loc: int,
    scount: int,
    payload: Seq<u8>,
    scheme: u8,
)
    requires
        0 <= gidx < 1024,
        2 <= loc <= 0xFFFFFF,
        1 <= scount <= 255,
        payload.len() + 5 <= scount * 4096,
        fin.len() >= 8192,
        (loc + scount) * 4096 <= fin.len(),
        loc_entry_offset(location_table_of(fin), gidx) == loc,
        loc_entry_count(location_table_of(fin), gidx) == scount,
        fin.subrange(loc * 4096, (loc + scount) * 4096) == be32_bytes((payload.len() + 1) as u32)
            + seq![scheme] + payload + Seq::new(
            (scount * 4096 - payload.len() - 5) as nat,
            |j: int| 0u8,
        ),
    ensures
        spec_read_stored(fin, gidx) == Ok::<(u8, Seq<u8>), RawReadError>((scheme, payload)),
{
    let buf = fin.subrange(loc * 4096, (loc + scount) * 4096);
    crate::byteops::lemma_be32_roundtrip((payload.len() + 1) as u32);
    assert(buf.subrange(0, 4) =~= be32_bytes((payload.len() + 1) as u32));
    assert(buf[0] == be32_bytes((payload.len() + 1) as u32)[0]);
    assert(buf[1] == be32_bytes((payload.len() + 1) as u32)[1]);
    assert(buf[2] == be32_bytes((payload.len() + 1) as u32)[2]);
    assert(buf[3] == be32_bytes((payload.len() + 1) as u32)[3]);
    assert(u32_from_be(buf[0], buf[1], buf[2], buf[3]) == payload.len() + 1);
    assert(buf[4] == scheme);
    assert(buf.subrange(5, 5 + payload.len() as int) =~= payload);
}

impl AnvilSaver {
    /// Writes an already-compressed payload with its scheme byte into the
    /// region file image: loads (or zero-initialises) the header tables,
    /// reuses the chunk's old run when the payload still fits it and asks the
    /// allocator otherwise, rewrites both tables, and lays the 5-byte payload
    /// header, the body and zero padding into the chosen sectors. The chosen
    /// offset is proved to stay past the two header sectors, which the
    /// original format enforces with a fatal assertion. Success is owed
    /// whenever `write_fits` holds; failure is possible only when the chosen
    /// run no longer fits the 3-byte offset field or the address space, and
    /// leaves the image untouched.
    #[verifier::rlimit(100)]
    #[verifier::spinoff_prover]
    pub fn write_raw_payload(
        &self,
        file: &mut Vec<u8>,
        at: &Vec2<i32>,
        payload: &Vec<u8>,
        scheme: u8,
        epoch: u32,
    ) -> (r: Result<(), ChunkStorageWritingError>)
        requires
            location_table_wf(location_table_of(old(file)@)),
            payload@.len() + 5 <= 255 * 4096,
        ensures
            r matches Err(e) ==> final(file)@ == old(file)@ && e is IoError,
            write_fits(
                location_table_of(old(file)@),
                local_index_spec(at.x, at.z),
                sectors_for_payload(payload@.len() as int),
            ) ==> r is Ok,
            r is Ok ==> region_write_frame(
                old(file)@,
                final(file)@,
                local_index_spec(at.x, at.z),
                epoch,
            ),
            r is Ok ==> loc_entry_count(
                location_table_of(final(file)@),
                local_index_spec(at.x, at.z),
            ) == sectors_for_payload(payload@.len() as int),
            r is Ok ==> region_write_layout(
                old(file)@,
                final(file)@,
                local_index_spec(at.x, at.z),
                payload@,
                scheme,
            ),
            r is Ok ==> spec_read_stored(final(file)@, local_index_spec(at.x, at.z))
                == Ok::<(u8, Seq<u8>), RawReadError>((scheme, payload@)),
    {
        let idx = local_chunk_index(at);
        let ghost gidx = local_index_spec(at.x, at.z);
        let ghost old_file = file@;
        // Load both header tables, or start from zeroed ones when the file
        // is still shorter than the 8192-byte header.
        let mut loc_table: Vec<u8>;
        let mut ts_table: Vec<u8>;
        if file.len() >= 8192 {
            loc_table = copy_range(file, 0, 4096);
            ts_table = copy_range(file, 4096, 8192);
        } else {
            loc_table = Vec::new();
            push_repeat(&mut loc_table, 0, 4096);
            ts_table = Vec::new();
            push_repeat(&mut ts_table, 0, 4096);
        }
        proof {
            assert(loc_table@ =~= location_table_of(old_file));
            assert(ts_table@ =~= timestamp_table_of(old_file));
        }
        let payload_len: usize = payload.len() + 5;
        let scount: usize = (payload_len + 4095) / 4096;
        proof {
            assert(scount == sectors_for_payload(payload@.len() as int));
            assert(1 <= scount <= 255 && payload_len <= scount * 4096) by {
                vstd::arithmetic::div_mod::lemma_fundamental_div_mod(
                    payload_len as int + 4095,
                    4096,
                );
            }
        }
        let old_off: u32 = read_u24_be(&loc_table, idx * 4);
        let old_cnt: u8 = loc_table[idx * 4 + 3];
        proof {
            assert(old_off == loc_entry_offset(loc_table@, gidx));
            assert(old_cnt == loc_entry_count(loc_table@, gidx));
        }
        // In-place fast path: a payload that still fits the old run keeps
        // its offset; otherwise the allocator picks a free run.
        let loc: usize = if old_cnt as usize >= scount {
            old_off as usize
        } else {
            self.find_free_sector(&loc_table, scount)
        };
        proof {
            // The offset the entry will hold always lies past the header
            // sectors; a corrupted table cannot push a payload into them.
            assert(loc >= 2);
        }
        proof {
            // Under either arm of `write_fits` the chosen run is addressable
            // and its offset fits the 3-byte field, so no error path remains.
            if write_fits(loc_table@, gidx, scount as int) {
                if loc_entry_count(loc_table@, gidx) >= scount {
                    assert(loc == old_off as int);
                } else {
                    assert(forall|s: int| sector_used(loc_table@, s) ==> s < 0xFFFF00);
                    assert(loc == 2 || sector_used(loc_table@, loc - 1));
                    assert(loc <= 0xFFFF00);
                }
                assert(loc <= 0xFFFFFF);
                assert((loc + scount) * 4096 <= usize::MAX);
            }
        }
        if loc > 0xFFFFFF {
            return Err(ChunkStorageWritingError::IoError(invalid_data_kind()));
        }
        let end_byte64: u64 = (loc as u64 + scount as u64) * 4096;
        if end_byte64 > usize::MAX as u64 {
            return Err(ChunkStorageWritingError::IoError(invalid_data_kind()));
        }
        let end_byte: usize = end_byte64 as usize;
        // Update the location entry: 3-byte big-endian offset, 1-byte count.
        loc_table[idx * 4] = (loc / 0x10000) as u8;
        loc_table[idx * 4 + 1] = (loc / 0x100 % 0x100) as u8;
        loc_table[idx * 4 + 2] = (loc % 0x100) as u8;
        loc_table[idx * 4 + 3] = scount as u8;
        proof {
            assert(loc_entry_offset(loc_table@, gidx) == loc && loc_entry_count(loc_table@, gidx)
                == scount) by (nonlinear_arith)
                requires
                    loc_table@[4 * gidx] == (loc / 0x10000) as u8,
                    loc_table@[4 * gidx + 1] == (loc / 0x100 % 0x100) as u8,
                    loc_table@[4 * gidx + 2] == (loc % 0x100) as u8,
                    loc_table@[4 * gidx + 3] == scount as u8,
                    2 <= loc <= 0xFFFFFF,
                    1 <= scount <= 255,
            ;
            assert(forall|j: int|
                0 <= j < 1024 && j != gidx ==> loc_entry_offset(
                    loc_table@,
                    j,
                ) == loc_entry_offset(location_table_of(old_file), j) && loc_entry_count(
                    loc_table@,
                    j,
                ) == loc_entry_count(location_table_of(old_file), j));
            assert(location_table_wf(loc_table@));
        }
        // Update the timestamp entry: 4-byte big-endian epoch seconds.
        ts_table[idx * 4] = (epoch / 0x1000000 % 0x100) as u8;
        ts_table[idx * 4 + 1] = (epoch / 0x10000 % 0x100) as u8;
        ts_table[idx * 4 + 2] = (epoch / 0x100 % 0x100) as u8;
        ts_table[idx * 4 + 3] = (epoch % 0x100) as u8;
        proof {
            assert(table_entry_bytes(ts_table@, gidx) =~= be32_bytes(epoch));
            assert(forall|j: int|
                0 <= j < 1024 && j != gidx ==> table_entry_bytes(ts_table@, j)
                    =~= table_entry_bytes(timestamp_table_of(old_file), j));
        }
        // The payload block: 4-byte big-endian length (body plus scheme
        // byte), the scheme byte, the body, zero padding to the sector end.
        let mut block: Vec<u8> = Vec::new();
        push_u32_be(&mut block, payload.len() as u32 + 1);
        block.push(scheme);
        push_bytes(&mut block, payload);
        push_repeat(&mut block, 0, scount * 4096 - payload_len);
        proof {
            assert(block@.len() == scount * 4096);
        }
        // Grow the image far enough for the header and the chosen run, then
        // lay the tables and the block into place.
        let target_len: usize = if end_byte > 8192 {
            end_byte
        } else {
            8192
        };
        while file.len() < target_len
            invariant
                old_file.len() <= file@.len(),
                file@.len() == old_file.len() || file@.len() <= target_len,
                file@.subrange(0, old_file.len() as int) == old_file,
                forall|q: int| old_file.len() <= q < file@.len() ==> file@[q] == 0,
            decreases target_len - file@.len(),
        {
            file.push(0);
            proof {
                assert(file@.subrange(0, old_file.len() as int) =~= old_file);
            }
        }
        proof {
            assert(file@.len() == (if old_file.len() >= target_len as int {
                old_file.len() as int
            } else {
                target_len as int
            }));
        }
        let ghost grown = file@;
        write_at(file, 0, &loc_table);
        let ghost g1 = file@;
        write_at(file, 4096, &ts_table);
        let ghost g2 = file@;
        write_at(file, loc * 4096, &block);
        let ghost fin = file@;
        proof {
            let t_old = location_table_of(old_file);
            let ts_old = timestamp_table_of(old_file);
            assert(fin.len() == grown.len() >= 8192);
            assert(fin.len() >= (loc + scount) * 4096);
            // Bytes below the payload run: the two tables land as written.
            assert forall|q: int| 0 <= q < 8192 implies fin[q] == (if q < 4096 {
                loc_table@[q]
            } else {
                ts_table@[q - 4096]
            }) by {
                assert(!(loc * 4096 <= q < loc * 4096 + block@.len()));
            }
            assert(location_table_of(fin) =~= loc_table@);
            assert(timestamp_table_of(fin) =~= ts_table@);
            // The chosen run holds exactly the block.
            assert forall|q: int|
                loc * 4096 <= q < (loc + scount) * 4096 implies fin[q] == block@[q - loc
                * 4096] by {}
            let buf = fin.subrange(loc * 4096, (loc + scount) * 4096);
            assert(buf =~= block@);
            // The block is exactly the header, the scheme byte, the body and
            // the zero padding to the sector end.
            assert(block@ =~= be32_bytes((payload@.len() + 1) as u32) + seq![scheme] + payload@
                + Seq::new((scount * 4096 - payload@.len() - 5) as nat, |j: int| 0u8));
            lemma_written_run_parses(fin, gidx, loc as int, scount as int, payload@, scheme);
            // Bytes past the header and outside the chosen run are kept,
            // and grown bytes outside the run are zero.
            assert forall|q: int|
                8192 <= q < old_file.len() && !(loc * 4096 <= q < (loc + scount)
                * 4096) implies fin[q] == old_file[q] by {
                assert(q < grown.len());
                assert(grown[q] == old_file[q]);
            }
            assert forall|q: int|
                old_file.len() <= q < fin.len() && 8192 <= q && !(loc * 4096 <= q < (loc + scount)
                * 4096) implies fin[q] == 0 by {
                assert(grown[q] == 0);
            }
            assert(region_write_layout(old_file, fin, gidx, payload@, scheme));
            // A payload that outgrew its run moved to one that was wholly
            // free.
            if (old_cnt as int) < scount as int {
                assert(forall|s: int| loc <= s < loc + scount ==> !sector_used(t_old, s));
            }
            // Every other committed entry still reads back unchanged, and
            // the table's runs stay pairwise disjoint.
            if location_runs_disjoint(t_old) {
                assert forall|s: int|
                    loc <= s < loc + scount implies !sector_used(t_old, s) || entry_covers(
                    t_old,
                    gidx,
                    s,
                ) by {
                    if old_cnt as int >= scount as int {
                        assert(loc == old_off as int);
                        assert(entry_covers(t_old, gidx, s));
                    }
                }
                lemma_write_preserves_others(old_file, fin, gidx, loc as int, scount as int);
            }
        }
        Ok(())
    }
}

impl AnvilSaver {
    /// Compresses a chunk's raw bytes under the default scheme (zlib at mid
    /// level) and writes them into the region file image. On success, the
    /// written entry holds exactly the sectors the deflated payload needs,
    /// the run's bytes are laid out as `region_write_layout` states, and
    /// reading the same slot of the image gives back exactly `chunk`.
    /// Success is owed whenever the deflated payload fits the format's
    /// one-byte sector count and `write_fits` holds for it; on failure the
    /// image is untouched.
    pub fn write_raw_chunk(
        &self,
        chunk: Vec<u8>,
        file: &mut Vec<u8>,
        at: &Vec2<i32>,
        epoch: u32,
    ) -> (r: Result<(), ChunkStorageWritingError>)
        requires
            location_table_wf(location_table_of(old(file)@)),
        ensures
            r matches Err(e) ==> final(file)@ == old(file)@ && e is IoError,
            zlib_deflate(chunk@, 6).len() + 5 <= 255 * 4096 && write_fits(
                location_table_of(old(file)@),
                local_index_spec(at.x, at.z),
                sectors_for_payload(zlib_deflate(chunk@, 6).len() as int),
            ) ==> r is Ok,
            r is Ok ==> region_write_frame(
                old(file)@,
                final(file)@,
                local_index_spec(at.x, at.z),
                epoch,
            ),
            r is Ok ==> loc_entry_count(
                location_table_of(final(file)@),
                local_index_spec(at.x, at.z),
            ) == sectors_for_payload(zlib_deflate(chunk@, 6).len() as int),
            r is Ok ==> region_write_layout(
                old(file)@,
                final(file)@,
                local_index_spec(at.x, at.z),
                zlib_deflate(chunk@, 6),
                2u8,
            ),
            r is Ok ==> spec_read_raw(final(file)@, local_index_spec(at.x, at.z)) == Ok::<
                Seq<u8>,
                RawReadError,
            >(chunk@),
    {
        let compression = Compression::ZLib;
        let compressed = match compression.compress_data(&chunk, 6) {
            Ok(c) => c,
            Err(_) => {
                proof {
                    assert(false);
                }
                return Err(ChunkStorageWritingError::IoError(invalid_data_kind()));
            },
        };
        if compressed.len() > 255 * 4096 - 5 {
            return Err(ChunkStorageWritingError::IoError(invalid_data_kind()));
        }
        let scheme = compression.to_byte();
        match self.write_raw_payload(file, at, &compressed, scheme, epoch) {
            Ok(()) => {
                proof {
                    assert(spec_read_stored(file@, local_index_spec(at.x, at.z)) == Ok::<
                        (u8, Seq<u8>),
                        RawReadError,
                    >((2u8, compressed@)));
                    assert(zlib_inflate(compressed@) == Some(chunk@));
                }
                Ok(())
            },
            Err(e) => Err(e),
        }
    }
}

/// A backend that persists raw chunk payloads inside region file images.
pub trait ChunkStorage {
    fn read_raw_chunk(&self, file: &Vec<u8>, at: &Vec2<i32>) -> Result<
        Vec<u8>,
        ChunkStorageReadingError,
    >;

    fn write_raw_chunk(&self, chunk: Vec<u8>, file: &mut Vec<u8>, at: &Vec2<i32>, epoch: u32) -> Result<
        (),
        ChunkStorageWritingError,
    >;
}

impl ChunkStorage for AnvilSaver {
    fn read_raw_chunk(&self, file: &Vec<u8>, at: &Vec2<i32>) -> Result<
        Vec<u8>,
        ChunkStorageReadingError,
    > {
        AnvilSaver::read_raw_chunk(self, file, at)
    }

    fn write_raw_chunk(&self, chunk: Vec<u8>, file: &mut Vec<u8>, at: &Vec2<i32>, epoch: u32) -> Result<
        (),
        ChunkStorageWritingError,
    > {
        if !location_table_wf_check(file) {
            return Err(ChunkStorageWritingError::IoError(invalid_data_kind()));
        }
        AnvilSaver::write_raw_chunk(self, chunk, file, at, epoch)
    }
}

/// Whether the image's location table is well formed, checked at run time
/// for callers that reach the store through its trait.
pub fn location_table_wf_check(file: &Vec<u8>) -> (r: bool)
    ensures
        r == location_table_wf(location_table_of(file@)),
{
    if file.len() < 8192 {
        proof {
            assert forall|i: int|
                0 <= i < 1024 implies loc_entry_empty(location_table_of(file@), i) by {
                assert(location_table_of(file@)[4 * i] == 0);
                assert(location_table_of(file@)[4 * i + 1] == 0);
                assert(location_table_of(file@)[4 * i + 2] == 0);
                assert(location_table_of(file@)[4 * i + 3] == 0);
            }
        }
        return true;
    }
    let table = copy_range(file, 0, 4096);
    proof {
        assert(table@ =~= location_table_of(file@));
    }
    let mut i: usize = 0;
    while i < 1024
        invariant
            i <= 1024,
            table@.len() == 4096,
            table@ == location_table_of(file@),
            forall|j: int|
                #![trigger loc_entry_count(table@, j)]
                0 <= j < i ==> loc_entry_empty(table@, j) || loc_entry_offset(table@, j) >= 2,
        decreases 1024 - i,
    {
        let off: u32 = read_u24_be(&table, i * 4);
        let cnt: u8 = table[i * 4 + 3];
        proof {
            assert(off == loc_entry_offset(table@, i as int));
            assert(cnt == loc_entry_count(table@, i as int));
        }
        if !((off == 0 && cnt == 0) || off >= 2) {
            proof {
                assert(!(loc_entry_empty(table@, i as int) || loc_entry_offset(table@, i as int)
                    >= 2));
            }
            return false;
        }
        proof {
            assert(loc_entry_empty(table@, i as int) || loc_entry_offset(table@, i as int) >= 2);
            assert forall|j: int|
                0 <= j < i + 1 implies (loc_entry_empty(table@, j) || loc_entry_offset(table@, j)
                >= 2) by {
                if j < i {
                    assert(loc_entry_count(table@, j) == table@[4 * j + 3]);
                }
            }
        }
        i = i + 1;
    }
    proof {
        assert forall|j: int|
            0 <= j < 1024 implies (loc_entry_empty(table@, j) || loc_entry_offset(table@, j)
            >= 2) by {
            assert(loc_entry_count(table@, j) == table@[4 * j + 3]);
        }
        assert(location_table_wf(table@));
    }
    true
}

/// Appends `n` copies of `b` to `out` (the bitmap the allocator scans).
fn push_repeat_bool(out: &mut Vec<bool>, b: bool, n: usize)
    ensures
        final(out)@.len() == old(out)@.len() + n,
        forall|j: int|
            0 <= j < final(out)@.len() ==> final(out)@[j] == (if j < old(out)@.len() {
                old(out)@[j]
            } else {
                b
            }),
{
    let mut i: usize = 0;
    while i < n
        invariant
            i <= n,
            out@.len() == old(out)@.len() + i,
            forall|j: int|
                0 <= j < out@.len() ==> out@[j] == (if j < old(out)@.len() {
                    old(out)@[j]
                } else {
                    b
                }),
        decreases n - i,
    {
        out.push(b);
        i = i + 1;
    }
}

} // verus!
