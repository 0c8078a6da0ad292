//! Compression of the backup stream, and its detection on restore.
use vstd::prelude::*;
use vstd::slice::slice_to_vec;

verus! {

/// The compression applied to a backup stream.
#[derive(Clone, Copy, Debug, PartialEq, Eq, Structural)]
pub enum CompressionType {
    Uncompressed,
    Lz4,
    Zstd,
}

impl Default for CompressionType {
    fn default() -> (r: Self)
        ensures
            r == CompressionType::Uncompressed,
    {
        CompressionType::Uncompressed
    }
}

/// What `zstd` makes of `input`: the decoded frames, or `None` where it is not
/// valid zstd.
pub uninterp spec fn zstd_decoded(input: Seq<u8>) -> Option<Seq<u8>>;

/// What `lz4_flex` makes of `input`: the decoded LZ4 frames, or `None` where
/// it is not a valid LZ4 frame.
pub uninterp spec fn lz4_decoded(input: Seq<u8>) -> Option<Seq<u8>>;

/// Relies on `zstd::stream::decode_all`: the decoded zstd frames of `input`,
/// or an error where they are not valid.
#[verifier::external_body]
fn zstd_decode(input: &[u8]) -> (r: Option<Vec<u8>>)
    ensures
        match r {
            Some(v) => zstd_decoded(input@) == Some(v@),
            None => zstd_decoded(input@).is_none(),
        },
{
    zstd::stream::decode_all(input).ok()
}

/// Relies on `lz4_flex::frame::FrameDecoder`, read to the end: the decoded
/// LZ4 frames of `input`, or an error where they are not valid.
#[verifier::external_body]
fn lz4_decode(input: &[u8]) -> (r: Option<Vec<u8>>)
    ensures
        match r {
            Some(v) => lz4_decoded(input@) == Some(v@),
            None => lz4_decoded(input@).is_none(),
        },
{
    let mut out = Vec::new();
    match std::io::Read::read_to_end(&mut lz4_flex::frame::FrameDecoder::new(input), &mut out) {
        Ok(_) => Some(out),
        Err(_) => None,
    }
}

/// The decoder that a stream asks for.
#[derive(Clone, Copy, Debug, PartialEq, Eq, Structural)]
pub enum Codec {
    Plain,
    Lz4,
    Zstd,
}

/// The zstd frame magic `0xFD2FB528`, as it stands in the stream.
pub open spec fn is_zstd_magic(h: Seq<u8>) -> bool {
    h.len() >= 4 && h[0] == 0x28 && h[1] == 0xB5 && h[2] == 0x2F && h[3] == 0xFD
}

/// The LZ4 frame magic `0x184D2204`, as it stands in the stream.
pub open spec fn is_lz4_magic(h: Seq<u8>) -> bool {
    h.len() >= 4 && h[0] == 0x04 && h[1] == 0x22 && h[2] == 0x4D && h[3] == 0x18
}

/// The decoder chosen from the first four bytes; a stream shorter than four
/// bytes, or with another start, is taken as it is.
pub open spec fn detect(h: Seq<u8>) -> Codec {
    if is_zstd_magic(h) {
        Codec::Zstd
    } else if is_lz4_magic(h) {
        Codec::Lz4
    } else {
        Codec::Plain
    }
}

pub open spec fn codec_of(c: CompressionType) -> Codec {
    match c {
        CompressionType::Uncompressed => Codec::Plain,
        CompressionType::Lz4 => Codec::Lz4,
        CompressionType::Zstd => Codec::Zstd,
    }
}

/// `input` decoded with `codec`.
pub open spec fn decoded(codec: Codec, input: Seq<u8>) -> Option<Seq<u8>> {
    match codec {
        Codec::Plain => Some(input),
        Codec::Lz4 => lz4_decoded(input),
        Codec::Zstd => zstd_decoded(input),
    }
}

/// `input` decoded as a restore decodes it: with the compression given, or
/// with the one its first bytes show.
pub open spec fn restored(mode: Option<CompressionType>, input: Seq<u8>) -> Option<Seq<u8>> {
    match mode {
        Some(c) => decoded(codec_of(c), input),
        None => decoded(detect(input), input),
    }
}

/// Why a stream could not be decoded.
#[derive(Clone, Copy, Debug, PartialEq, Eq, Structural)]
pub enum DecodeError {
    /// The stream is not valid zstd.
    Zstd,
    /// The stream is not a valid LZ4 frame.
    Lz4,
}

/// Undoes the compression of a restored stream, either as told or by its
/// magic bytes.
#[derive(Clone, Copy, Debug)]
pub struct Decompressor {
    pub compression: Option<CompressionType>,
}

impl Decompressor {
    /// A decompressor that detects the compression from the stream.
    pub fn new() -> (r: Self)
        ensures
            r.compression.is_none(),
    {
        Self { compression: None }
    }

    /// The same, held to `compression`.
    pub fn with_compression(self, compression: CompressionType) -> (r: Self)
        ensures
            r.compression == Some(compression),
    {
        Self { compression: Some(compression) }
    }

    /// The decoder for a stream that starts with `header`: the one asked
    /// for, or else the one its magic bytes show.
    pub fn codec_for(&self, header: &[u8]) -> (r: Codec)
        ensures
            r == match self.compression {
                Some(c) => codec_of(c),
                None => detect(header@),
            },
    {
        match self.compression {
            Some(CompressionType::Uncompressed) => Codec::Plain,
            Some(CompressionType::Lz4) => Codec::Lz4,
            Some(CompressionType::Zstd) => Codec::Zstd,
            None => {
                if header.len() >= 4 && header[0] == 0x28 && header[1] == 0xB5 && header[2] == 0x2F
                    && header[3] == 0xFD {
                    Codec::Zstd
                } else if header.len() >= 4 && header[0] == 0x04 && header[1] == 0x22 && header[2]
                    == 0x4D && header[3] == 0x18 {
                    Codec::Lz4
                } else {
                    Codec::Plain
                }
            },
        }
    }

    /// The whole of `input`, decoded.
    pub fn decode(&self, input: &[u8]) -> (r: Result<Vec<u8>, DecodeError>)
        ensures
            match r {
                Ok(v) => restored(self.compression, input@) == Some(v@),
                Err(e) => restored(self.compression, input@).is_none() && e == (if restored_codec(
                    self.compression,
                    input@,
                ) == Codec::Zstd {
                    DecodeError::Zstd
                } else {
                    DecodeError::Lz4
                }),
            },
            restored(self.compression, input@).is_some() ==> r.is_ok(),
    {
        match self.codec_for(input) {
            Codec::Plain => Ok(slice_to_vec(input)),
            Codec::Lz4 => match lz4_decode(input) {
                Some(v) => Ok(v),
                None => Err(DecodeError::Lz4),
            },
            Codec::Zstd => match zstd_decode(input) {
                Some(v) => Ok(v),
                None => Err(DecodeError::Zstd),
            },
        }
    }
}

/// The decoder that a restore uses on `input`.
pub open spec fn restored_codec(mode: Option<CompressionType>, input: Seq<u8>) -> Codec {
    match mode {
        Some(c) => codec_of(c),
        None => detect(input),
    }
}

/// A stream whose first bytes are the zstd or the LZ4 magic is decoded alike
/// whether its compression is detected or given.
pub proof fn lemma_detection_agrees(input: Seq<u8>)
    ensures
        is_zstd_magic(input) ==> restored(None, input) == restored(
            Some(CompressionType::Zstd),
            input,
        ),
        is_lz4_magic(input) ==> restored(None, input) == restored(
            Some(CompressionType::Lz4),
            input,
        ),
{
    if is_lz4_magic(input) {
        assert(!is_zstd_magic(input));
    }
}

/// A stream of fewer than four bytes comes back unchanged when its
/// compression is detected.
pub proof fn lemma_short_stream_unchanged(input: Seq<u8>)
    requires
        input.len() < 4,
    ensures
        restored(None, input) == Some(input),
{
}

} // verus!
