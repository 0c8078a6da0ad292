use std::io::Write;

use cryophile::compression::{Codec, CompressionType, DecodeError, Decompressor};
use cryophile::split::{ChunkOp, Split};

fn zstd_of(data: &[u8]) -> Vec<u8> {
    zstd::stream::encode_all(data, 0).unwrap()
}

fn lz4_of(data: &[u8]) -> Vec<u8> {
    let mut enc = lz4_flex::frame::FrameEncoder::new(Vec::new());
    enc.write_all(data).unwrap();
    enc.finish().unwrap()
}

#[test]
fn auto_detects_zstd_stream() {
    let payload = b"cold storage wants small backups ".repeat(50);
    let packed = zstd_of(&payload);
    assert_ne!(packed, payload);
    let out = Decompressor::new().decode(&packed).unwrap();
    assert_eq!(out, payload);
    let forced = Decompressor::new().with_compression(CompressionType::Zstd).decode(&packed).unwrap();
    assert_eq!(out, forced);
}

#[test]
fn auto_detects_lz4_stream() {
    let payload = b"0123456789abcdef".repeat(64);
    let packed = lz4_of(&payload);
    assert_eq!(Decompressor::new().codec_for(&packed), Codec::Lz4);
    let out = Decompressor::new().decode(&packed).unwrap();
    assert_eq!(out, payload);
    let forced = Decompressor::new().with_compression(CompressionType::Lz4).decode(&packed).unwrap();
    assert_eq!(out, forced);
}

#[test]
fn short_or_plain_streams_pass_through() {
    for input in [&b""[..], b"a", b"ab", b"abc", b"plain text"] {
        assert_eq!(Decompressor::new().decode(input).unwrap(), input);
    }
    let forced = Decompressor::new().with_compression(CompressionType::Uncompressed);
    let packed = zstd_of(b"data");
    assert_eq!(forced.decode(&packed).unwrap(), packed);
}

#[test]
fn codec_from_magic() {
    let d = Decompressor::new();
    assert_eq!(d.codec_for(&[0x28, 0xB5, 0x2F, 0xFD, 0]), Codec::Zstd);
    assert_eq!(d.codec_for(&[0x04, 0x22, 0x4D, 0x18]), Codec::Lz4);
    assert_eq!(d.codec_for(&[0x28, 0xB5, 0x2F]), Codec::Plain);
    assert_eq!(d.with_compression(CompressionType::Zstd).codec_for(b"x"), Codec::Zstd);
    assert_eq!(CompressionType::default(), CompressionType::Uncompressed);
}

#[test]
fn broken_frames_are_errors() {
    assert_eq!(
        Decompressor::new().decode(&[0x28, 0xB5, 0x2F, 0xFD, 1, 2, 3]),
        Err(DecodeError::Zstd)
    );
    assert_eq!(
        Decompressor::new().decode(&[0x04, 0x22, 0x4D, 0x18, 9, 9, 9]),
        Err(DecodeError::Lz4)
    );
    assert_eq!(
        Decompressor::new()
            .with_compression(CompressionType::Lz4)
            .decode(&[0x04, 0x22, 0x4D, 0x18, 9, 9, 9]),
        Err(DecodeError::Lz4)
    );
}

#[test]
fn round_trip_through_chunks() {
    let payload = b"the quick brown fox jumps over the lazy dog".repeat(20);
    for (kind, packed) in [
        (CompressionType::Uncompressed, payload.clone()),
        (CompressionType::Zstd, zstd_of(&payload)),
        (CompressionType::Lz4, lz4_of(&payload)),
    ] {
        let mut split = Split::new("/in", "/out", "chunk", 7);
        let mut chunks: Vec<Vec<u8>> = Vec::new();
        let mut ops = split.write(&packed).unwrap();
        ops.extend(split.finish());
        for op in ops {
            match op {
                ChunkOp::Open { .. } => chunks.push(Vec::new()),
                ChunkOp::Append { bytes, .. } => chunks.last_mut().unwrap().extend(bytes),
                ChunkOp::Seal { .. } => {}
            }
        }
        let joined: Vec<u8> = chunks.concat();
        let restored = Decompressor::new().decode(&joined).unwrap();
        assert_eq!(restored, payload, "{kind:?}");
    }
}
