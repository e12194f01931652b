use vstd::prelude::*;

verus! {

#[verifier::external_type_specification]
#[verifier::external_body]
pub struct ExIoError(std::io::Error);

/// What the zlib decoder yields for given bytes: the decompressed payload,
/// or nothing when it rejects them. Inflate is a pure function of the input
/// bytes, so the result is the same on every machine.
pub uninterp spec fn zlib_inflate(s: Seq<u8>) -> Option<Seq<u8>>;

/// What inflating a gzip stream yields, as `zlib_inflate` for zlib.
pub uninterp spec fn gzip_inflate(s: Seq<u8>) -> Option<Seq<u8>>;

/// What deflating bytes into a zlib stream at a given level yields. Deflate
/// is a pure function of the input bytes and the level, so the result is the
/// same on every machine.
pub uninterp spec fn zlib_deflate(s: Seq<u8>, level: u32) -> Seq<u8>;

/// What compressing bytes into a gzip stream at a given level yields, as
/// `zlib_deflate` for zlib.
pub uninterp spec fn gzip_deflate(s: Seq<u8>, level: u32) -> Seq<u8>;

/// Relies on flate2's ZlibEncoder: deflate is a function of the input and
/// the level, and it is lossless, so inflating what it produced gives back
/// the input. Writing to a Vec sink never fails.
#[verifier::external_body]
fn zlib_compress_raw(data: &Vec<u8>, level: u32) -> (r: Vec<u8>)
    requires
        level <= 9,
    ensures
        r@ == zlib_deflate(data@, level),
        zlib_inflate(r@) == Some(data@),
{
    let mut enc = flate2::write::ZlibEncoder::new(Vec::new(), flate2::Compression::new(level));
    std::io::Write::write_all(&mut enc, data.as_slice()).unwrap();
    enc.finish().unwrap()
}

/// Relies on flate2's ZlibDecoder: it returns the inflated bytes of a valid
/// zlib stream and an error on an invalid one.
#[verifier::external_body]
fn zlib_decompress_raw(data: &Vec<u8>) -> (r: Result<Vec<u8>, std::io::Error>)
    ensures
        r matches Ok(d) ==> zlib_inflate(data@) == Some(d@),
        r is Err ==> zlib_inflate(data@) is None,
{
    let mut dec = flate2::read::ZlibDecoder::new(data.as_slice());
    let mut out = Vec::new();
    match std::io::Read::read_to_end(&mut dec, &mut out) {
        Ok(_) => Ok(out),
        Err(e) => Err(e),
    }
}

/// Relies on flate2's GzEncoder, as `zlib_compress_raw` on its ZlibEncoder.
#[verifier::external_body]
fn gzip_compress_raw(data: &Vec<u8>, level: u32) -> (r: Vec<u8>)
    requires
        level <= 9,
    ensures
        r@ == gzip_deflate(data@, level),
        gzip_inflate(r@) == Some(data@),
{
    let mut enc = flate2::write::GzEncoder::new(Vec::new(), flate2::Compression::new(level));
    std::io::Write::write_all(&mut enc, data.as_slice()).unwrap();
    enc.finish().unwrap()
}

/// Relies on flate2's GzDecoder, as `zlib_decompress_raw` on its ZlibDecoder.
#[verifier::external_body]
fn gzip_decompress_raw(data: &Vec<u8>) -> (r: Result<Vec<u8>, std::io::Error>)
    ensures
        r matches Ok(d) ==> gzip_inflate(data@) == Some(d@),
        r is Err ==> gzip_inflate(data@) is None,
{
    let mut dec = flate2::read::GzDecoder::new(data.as_slice());
    let mut out = Vec::new();
    match std::io::Read::read_to_end(&mut dec, &mut out) {
        Ok(_) => Ok(out),
        Err(e) => Err(e),
    }
}

/// Why a payload could not be compressed or decompressed.
#[derive(Debug)]
pub enum CompressionError {
    /// The scheme byte stored with the payload is not one the format defines.
    UnknownCompression,
    /// The zlib stream could not be read.
    ZlibError(std::io::Error),
    /// The gzip stream could not be read.
    GZipError(std::io::Error),
    /// The lz4 stream could not be read.
    LZ4Error(std::io::Error),
}

/// A compression scheme the region format stores payloads under. The scheme
/// is persisted as one byte per payload; byte 0 denotes an uncompressed
/// payload and is handled by the caller as a passthrough.
#[derive(Clone, Copy, Debug, PartialEq, Eq, Structural)]
pub enum Compression {
    GZip,
    ZLib,
}

impl Compression {
    /// The byte this scheme is persisted as.
    pub open spec fn byte_spec(self) -> u8 {
        match self {
            Compression::GZip => 1,
            Compression::ZLib => 2,
        }
    }

    /// What inflating a stream under this scheme yields.
    pub open spec fn inflate_spec(self, s: Seq<u8>) -> Option<Seq<u8>> {
        match self {
            Compression::GZip => gzip_inflate(s),
            Compression::ZLib => zlib_inflate(s),
        }
    }

    /// What compressing bytes under this scheme yields.
    pub open spec fn deflate_spec(self, s: Seq<u8>, level: u32) -> Seq<u8> {
        match self {
            Compression::GZip => gzip_deflate(s, level),
            Compression::ZLib => zlib_deflate(s, level),
        }
    }

    /// Decodes a persisted scheme byte. Byte 0 is the uncompressed
    /// passthrough scheme and decodes to `None`; a byte past the known
    /// schemes is rejected.
    pub fn from_byte(byte: u8) -> (r: Result<Option<Compression>, CompressionError>)
        ensures
            byte == 0 ==> r == Ok::<Option<Compression>, CompressionError>(None),
            byte == 1 ==> r == Ok::<Option<Compression>, CompressionError>(Some(Compression::GZip)),
            byte == 2 ==> r == Ok::<Option<Compression>, CompressionError>(Some(Compression::ZLib)),
            byte > 2 ==> r == Err::<Option<Compression>, CompressionError>(
                CompressionError::UnknownCompression,
            ),
    {
        match byte {
            0 => Ok(None),
            1 => Ok(Some(Compression::GZip)),
            2 => Ok(Some(Compression::ZLib)),
            _ => Err(CompressionError::UnknownCompression),
        }
    }

    pub fn to_byte(&self) -> (r: u8)
        ensures
            r == self.byte_spec(),
    {
        match self {
            Compression::GZip => 1,
            Compression::ZLib => 2,
        }
    }

    /// Compresses `data` under this scheme. Compressing never fails; the
    /// result is the scheme's deflate of `data` and always inflates back to
    /// `data`.
    pub fn compress_data(&self, data: &Vec<u8>, level: u32) -> (r: Result<
        Vec<u8>,
        CompressionError,
    >)
        requires
            level <= 9,
        ensures
            r matches Ok(c) && c@ == self.deflate_spec(data@, level) && self.inflate_spec(c@)
                == Some(data@),
    {
        match self {
            Compression::GZip => Ok(gzip_compress_raw(data, level)),
            Compression::ZLib => Ok(zlib_compress_raw(data, level)),
        }
    }

    /// Decompresses `data` under this scheme; fails exactly when `data` is
    /// not a valid stream of the scheme.
    pub fn decompress_data(&self, data: &Vec<u8>) -> (r: Result<Vec<u8>, CompressionError>)
        ensures
            r matches Ok(d) ==> self.inflate_spec(data@) == Some(d@),
            r is Err ==> self.inflate_spec(data@) is None,
            r matches Err(e) ==> match self {
                Compression::GZip => e is GZipError,
                Compression::ZLib => e is ZlibError,
            },
    {
        match self {
            Compression::GZip => match gzip_decompress_raw(data) {
                Ok(d) => Ok(d),
                Err(e) => Err(CompressionError::GZipError(e)),
            },
            Compression::ZLib => match zlib_decompress_raw(data) {
                Ok(d) => Ok(d),
                Err(e) => Err(CompressionError::ZlibError(e)),
            },
        }
    }
}

} // verus!
