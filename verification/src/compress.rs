//! Whole-buffer compression and decompression in the formats boot images
//! use. gzip, bzip2, LZ4 frames and LZMA go through their libraries; the
//! legacy LZ4 container (a magic, then size-prefixed 8 MiB blocks, and for
//! `LZ4_LG` a trailing total size) is framed here around the LZ4 block
//! codec.

use vstd::prelude::*;
use std::io::{Read, Write};
use crate::header::{format_of, FileFormat};

verus! {

pub const LZ4_BLOCK_SIZE: usize = 0x800000;
pub const LZ4_MAGIC: u32 = 0x184c2102;
pub const LZ4HC_CLEVEL_MAX: i32 = 12;

/// Why a compression or decompression failed.
#[derive(Debug, Clone, Copy, PartialEq, Eq, Structural)]
pub enum CompressError {
    Unsupported,
    NotCompression,
    Backend,
    UnexpectedEof,
    EmptyBlock,
    BlockTooLarge,
    CorruptBlock,
    EmptyOutput,
    MissingTrailer,
    SizeMismatch,
    InputTooLarge,
}

pub open spec fn opt_bytes(o: Option<Vec<u8>>) -> Option<Seq<u8>> {
    match o {
        Some(v) => Some(v@),
        None => None,
    }
}

/// gzip at the best level, as flate2 writes it.
pub uninterp spec fn gzip_compress_of(data: Seq<u8>) -> Option<Seq<u8>>;

/// What flate2's gzip reader gives back.
pub uninterp spec fn gzip_decompress_of(data: Seq<u8>) -> Option<Seq<u8>>;

/// bzip2 at the best level, as the bzip2 crate writes it.
pub uninterp spec fn bzip2_compress_of(data: Seq<u8>) -> Option<Seq<u8>>;

/// What the bzip2 crate's reader gives back.
pub uninterp spec fn bzip2_decompress_of(data: Seq<u8>) -> Option<Seq<u8>>;

/// An LZ4 frame (4 MiB independent blocks, block and content checksums,
/// level 9), as the lz4 crate writes it.
pub uninterp spec fn lz4_frame_compress_of(data: Seq<u8>) -> Option<Seq<u8>>;

/// What the lz4 crate's frame reader gives back.
pub uninterp spec fn lz4_frame_decompress_of(data: Seq<u8>) -> Option<Seq<u8>>;

/// What lzma-rust2's `.lzma` reader gives back.
pub uninterp spec fn lzma_decompress_of(data: Seq<u8>) -> Option<Seq<u8>>;

/// One LZ4 block compressed at the highest HC level.
pub uninterp spec fn lz4_block_compress_of(block: Seq<u8>) -> Option<Seq<u8>>;

/// One LZ4 block decompressed into at most 8 MiB.
pub uninterp spec fn lz4_block_decompress_of(block: Seq<u8>) -> Option<Seq<u8>>;

/// `flate2::write::GzEncoder` at `Compression::best()` into a `Vec`,
/// written whole and finished; `None` where the encoder reports an error.
/// What it writes starts with the 10-byte gzip header (`1f 8b 08`, deflate),
/// and flate2's gzip reader reads it back as `data`.
#[verifier::external_body]
fn gzip_compress(data: &[u8]) -> (r: Option<Vec<u8>>)
    ensures
        opt_bytes(r) == gzip_compress_of(data@),
        r matches Some(z) ==> gzip_decompress_of(z@) == Some(data@),
        r matches Some(z) ==> z@.len() >= 10 && z@[0] == 0x1f && z@[1] == 0x8b && z@[2] == 0x08,
{
    let mut e = flate2::write::GzEncoder::new(Vec::new(), flate2::Compression::best());
    match e.write_all(data) {
        Ok(()) => e.finish().ok(),
        Err(_) => None,
    }
}

/// `flate2::read::GzDecoder` read to the end; `None` on a read error.
#[verifier::external_body]
fn gzip_decompress(data: &[u8]) -> (r: Option<Vec<u8>>)
    ensures
        opt_bytes(r) == gzip_decompress_of(data@),
{
    let mut out = Vec::new();
    match flate2::read::GzDecoder::new(data).read_to_end(&mut out) {
        Ok(_) => Some(out),
        Err(_) => None,
    }
}

/// `bzip2::write::BzEncoder` at `Compression::best()` into a `Vec`,
/// written whole and finished; `None` where the encoder reports an error.
/// What it writes starts with the stream header `BZh` and a block-size digit,
/// and the bzip2 reader reads it back as `data`.
#[verifier::external_body]
fn bzip2_compress(data: &[u8]) -> (r: Option<Vec<u8>>)
    ensures
        opt_bytes(r) == bzip2_compress_of(data@),
        r matches Some(z) ==> bzip2_decompress_of(z@) == Some(data@),
        r matches Some(z) ==> z@.len() >= 4 && z@[0] == 0x42 && z@[1] == 0x5a && z@[2] == 0x68,
{
    let mut e = bzip2::write::BzEncoder::new(Vec::new(), bzip2::Compression::best());
    match e.write_all(data) {
        Ok(()) => e.finish().ok(),
        Err(_) => None,
    }
}

/// `bzip2::read::BzDecoder` read to the end; `None` on a read error.
#[verifier::external_body]
fn bzip2_decompress(data: &[u8]) -> (r: Option<Vec<u8>>)
    ensures
        opt_bytes(r) == bzip2_decompress_of(data@),
{
    let mut out = Vec::new();
    match bzip2::read::BzDecoder::new(data).read_to_end(&mut out) {
        Ok(_) => Some(out),
        Err(_) => None,
    }
}

/// `lz4::EncoderBuilder` (4 MiB independent blocks, both checksums, level
/// 9, auto flush) into a `Vec`, written whole and finished; `None` where
/// building, writing or finishing fails. What it writes starts with the
/// frame magic `0x184D2204` (little-endian), and the lz4 frame reader reads
/// it back as `data`.
#[verifier::external_body]
fn lz4_frame_compress(data: &[u8]) -> (r: Option<Vec<u8>>)
    ensures
        opt_bytes(r) == lz4_frame_compress_of(data@),
        r matches Some(z) ==> lz4_frame_decompress_of(z@) == Some(data@),
        r matches Some(z) ==> z@.len() >= 4 && z@[0] == 0x04 && z@[1] == 0x22 && z@[2] == 0x4d && z@[3] == 0x18,
{
    let built = lz4::EncoderBuilder::new().block_size(lz4::BlockSize::Max4MB).block_mode(
        lz4::BlockMode::Independent,
    ).checksum(lz4::ContentChecksum::ChecksumEnabled).block_checksum(
        lz4::liblz4::BlockChecksum::BlockChecksumEnabled,
    ).level(9).auto_flush(true).build(Vec::new());
    let mut e = match built {
        Ok(e) => e,
        Err(_) => return None,
    };
    if e.write_all(data).is_err() {
        return None;
    }
    let (out, result) = e.finish();
    result.ok().map(|_| out)
}

/// `lz4::Decoder` read to the end; `None` where opening or reading fails.
#[verifier::external_body]
fn lz4_frame_decompress(data: &[u8]) -> (r: Option<Vec<u8>>)
    ensures
        opt_bytes(r) == lz4_frame_decompress_of(data@),
{
    let mut out = Vec::new();
    match lz4::Decoder::new(data) {
        Ok(mut d) => match d.read_to_end(&mut out) {
            Ok(_) => Some(out),
            Err(_) => None,
        },
        Err(_) => None,
    }
}

/// `lzma_rust2::LzmaReader::new_mem_limit(_, u32::MAX, None)` read to the
/// end; `None` where opening or reading fails.
#[verifier::external_body]
fn lzma_decompress(data: &[u8]) -> (r: Option<Vec<u8>>)
    ensures
        opt_bytes(r) == lzma_decompress_of(data@),
{
    let mut out = Vec::new();
    match lzma_rust2::LzmaReader::new_mem_limit(data, u32::MAX, None) {
        Ok(mut d) => match d.read_to_end(&mut out) {
            Ok(_) => Some(out),
            Err(_) => None,
        },
        Err(_) => None,
    }
}

/// `lz4::block::compress_bound`: for inputs up to `LZ4_MAX_INPUT_SIZE`
/// (0x7E000000) liblz4's `LZ4_COMPRESSBOUND`, `n + n / 255 + 16`.
#[verifier::external_body]
fn lz4_compress_bound(n: usize) -> (r: Option<usize>)
    requires
        n <= 0x7E000000,
    ensures
        r == Some((n + n / 255 + 16) as usize),
{
    lz4::block::compress_bound(n).ok()
}

/// `lz4::block::compress_to_buffer` at `HIGHCOMPRESSION(12)` without a size
/// prefix, into a buffer of `cap` bytes; the compressed bytes, which the
/// library reports as a positive count no larger than the buffer, or `None`
/// on an error. The buffer is at least liblz4's compress bound for the
/// block and fits the `i32` length the library passes on, so the output
/// does not depend on its size; a block of at most 8 MiB decompresses from
/// it to itself. Success is not promised: liblz4 allocates its HC state on
/// the heap and reports a failed allocation as an error.
#[verifier::external_body]
fn lz4_block_compress(block: &[u8], cap: usize) -> (r: Option<Vec<u8>>)
    requires
        cap >= block@.len() + block@.len() / 255 + 16,
        cap <= 0x7FFF_FFFF,
    ensures
        opt_bytes(r) == lz4_block_compress_of(block@),
        r matches Some(v) ==> 0 < v@.len() <= cap,
        block@.len() <= LZ4_BLOCK_SIZE ==> (r matches Some(v) ==> lz4_block_decompress_of(v@) == Some(block@)),
{
    let mut buf = vec![0u8; cap];
    match lz4::block::compress_to_buffer(
        block,
        Some(lz4::block::CompressionMode::HIGHCOMPRESSION(LZ4HC_CLEVEL_MAX)),
        false,
        &mut buf,
    ) {
        Ok(n) => {
            buf.truncate(n);
            Some(buf)
        },
        Err(_) => None,
    }
}

/// `lz4::block::decompress_to_buffer` with an uncompressed size of 8 MiB
/// into an 8 MiB buffer: the bytes the library reports it wrote (at most
/// the buffer), or `None` on an error.
#[verifier::external_body]
fn lz4_block_decompress(block: &[u8]) -> (r: Option<Vec<u8>>)
    ensures
        opt_bytes(r) == lz4_block_decompress_of(block@),
        r matches Some(v) ==> v@.len() <= LZ4_BLOCK_SIZE,
{
    let mut buf = vec![0u8; LZ4_BLOCK_SIZE];
    match lz4::block::decompress_to_buffer(block, Some(LZ4_BLOCK_SIZE as i32), &mut buf) {
        Ok(n) => {
            buf.truncate(n);
            Some(buf)
        },
        Err(_) => None,
    }
}

// ---------------------------------------------------------------------------
// The legacy LZ4 container.

/// The largest compressed block a legacy stream may hold.
pub open spec fn lz4_cap() -> int {
    LZ4_BLOCK_SIZE + LZ4_BLOCK_SIZE / 255 + 16
}

/// The four little-endian bytes of `x`.
pub open spec fn le32(x: int) -> Seq<u8> {
    seq![(x % 256) as u8, (x / 256 % 256) as u8, (x / 65536 % 256) as u8, (x / 16777216 % 256) as u8]
}

/// The little-endian 32-bit number at `pos`.
#[verifier::opaque]
pub open spec fn u32_at(d: Seq<u8>, pos: int) -> u32 {
    (d[pos] + d[pos + 1] * 256 + d[pos + 2] * 65536 + d[pos + 3] * 16777216) as u32
}

/// Reading back four bytes written by [`le32`] gives the number.
proof fn lemma_read_le32(d: Seq<u8>, pos: int, v: int)
    requires
        0 <= pos,
        pos + 4 <= d.len(),
        0 <= v <= u32::MAX,
        d.subrange(pos, pos + 4) == le32(v),
    ensures
        u32_at(d, pos) == v,
{
    reveal(u32_at);
    assert(d[pos] == le32(v)[0]);
    assert(d[pos + 1] == le32(v)[1]);
    assert(d[pos + 2] == le32(v)[2]);
    assert(d[pos + 3] == le32(v)[3]);
    assert(v == v % 256 + (v / 256 % 256) * 256 + (v / 65536 % 256) * 65536 + (v / 16777216 % 256) * 16777216)
        by (nonlinear_arith)
        requires
            0 <= v <= u32::MAX,
    ;
}

/// The little-endian 32-bit number at `pos`; see [`u32_at`].
fn read_u32(d: &[u8], pos: usize) -> (r: u32)
    requires
        pos + 4 <= d@.len(),
    ensures
        r == u32_at(d@, pos as int),
{
    proof {
        reveal(u32_at);
    }
    d[pos] as u32 + d[pos + 1] as u32 * 256 + d[pos + 2] as u32 * 65536 + d[pos + 3] as u32 * 16777216
}

/// Chunk `i` of the input: 8 MiB, the last one shorter.
pub open spec fn chunk(data: Seq<u8>, i: int) -> Seq<u8> {
    let end = if (i + 1) * LZ4_BLOCK_SIZE < data.len() {
        (i + 1) * LZ4_BLOCK_SIZE
    } else {
        data.len() as int
    };
    data.subrange(i * LZ4_BLOCK_SIZE, end)
}

pub open spec fn chunk_count(n: int) -> int {
    (n + LZ4_BLOCK_SIZE - 1) / (LZ4_BLOCK_SIZE as int)
}

/// The first `k` chunks, each compressed and prefixed with its size.
pub open spec fn legacy_blocks(data: Seq<u8>, k: int) -> Option<Seq<u8>>
    decreases k,
{
    if k <= 0 {
        Some(seq![])
    } else {
        match (legacy_blocks(data, k - 1), lz4_block_compress_of(chunk(data, k - 1))) {
            (Some(a), Some(c)) => Some(a + le32(c.len() as int) + c),
            _ => None,
        }
    }
}

/// A legacy stream: the magic and the blocks (nothing for empty input),
/// then for `LZ4_LG` the input size, which must fit 32 bits.
pub open spec fn legacy_encode_of(data: Seq<u8>, lg: bool) -> Result<Seq<u8>, CompressError> {
    match legacy_blocks(data, chunk_count(data.len() as int)) {
        None => Err(CompressError::Backend),
        Some(b) => {
            let body = if data.len() == 0 {
                seq![]
            } else {
                le32(LZ4_MAGIC as int) + b
            };
            if !lg {
                Ok(body)
            } else if data.len() > u32::MAX {
                Err(CompressError::InputTooLarge)
            } else {
                Ok(body + le32(data.len() as int))
            }
        },
    }
}

/// Reading a legacy stream from `pos`, with what was decoded before: each
/// block a size (a magic in its place is skipped), non-zero and at most
/// `lz4_cap`, then that many bytes decoding to something non-empty.
pub open spec fn legacy_decode_from(d: Seq<u8>, pos: int, acc: Seq<u8>) -> Result<Seq<u8>, CompressError>
    decreases d.len() - pos,
{
    if pos < 0 || pos >= d.len() {
        Ok(acc)
    } else if pos + 4 > d.len() {
        Err(CompressError::UnexpectedEof)
    } else {
        let first = u32_at(d, pos);
        if first == LZ4_MAGIC && pos + 8 > d.len() {
            Err(CompressError::UnexpectedEof)
        } else {
            let (p, bs) = if first == LZ4_MAGIC {
                (pos + 8, u32_at(d, pos + 4))
            } else {
                (pos + 4, first)
            };
            if bs == 0 {
                Err(CompressError::EmptyBlock)
            } else if bs > lz4_cap() {
                Err(CompressError::BlockTooLarge)
            } else if p + bs > d.len() {
                Err(CompressError::UnexpectedEof)
            } else {
                match lz4_block_decompress_of(d.subrange(p, p + bs)) {
                    None => Err(CompressError::CorruptBlock),
                    Some(out) => if out.len() == 0 {
                        Err(CompressError::EmptyOutput)
                    } else {
                        legacy_decode_from(d, p + bs, acc + out)
                    },
                }
            }
        }
    }
}

/// An `LZ4_LG` stream: the legacy stream, then a 32-bit size that the
/// decoded length must equal.
pub open spec fn lg_decode_of(d: Seq<u8>) -> Result<Seq<u8>, CompressError> {
    if d.len() < 4 {
        Err(CompressError::MissingTrailer)
    } else {
        let expected = u32_at(d, d.len() - 4);
        match legacy_decode_from(d.subrange(0, d.len() - 4), 0, seq![]) {
            Err(e) => Err(e),
            Ok(out) => if out.len() != expected {
                Err(CompressError::SizeMismatch)
            } else {
                Ok(out)
            },
        }
    }
}

fn push_le32(out: &mut Vec<u8>, x: u32)
    ensures
        final(out)@ == old(out)@ + le32(x as int),
{
    let ghost before = out@;
    out.push((x % 256) as u8);
    out.push((x / 256 % 256) as u8);
    out.push((x / 65536 % 256) as u8);
    out.push((x / 16777216 % 256) as u8);
    proof {
        assert(out@ =~= before + le32(x as int));
    }
}

/// Writes a legacy (or, with `lg`, `LZ4_LG`) stream; see
/// [`legacy_encode_of`].
fn legacy_encode(data: &[u8], lg: bool) -> (r: Result<Vec<u8>, CompressError>)
    ensures
        match legacy_encode_of(data@, lg) {
            Ok(v) => r matches Ok(x) && x@ == v,
            Err(e) => r matches Err(x) && x == e,
        },
        r is Ok ==> chunks_round_trip(data@),
{
    let n = data.len();
    let cap = match lz4_compress_bound(LZ4_BLOCK_SIZE) {
        Some(c) => c,
        None => LZ4_BLOCK_SIZE,
    };
    let mut blocks: Vec<u8> = Vec::new();
    let mut k: usize = 0;
    let mut start: usize = 0;
    let count = n / LZ4_BLOCK_SIZE + if n % LZ4_BLOCK_SIZE == 0 {
        0
    } else {
        1
    };
    proof {
        assert(count == chunk_count(n as int));
    }
    while start < n
        invariant
            n == data@.len(),
            count == chunk_count(n as int),
            (start < n && start == k * LZ4_BLOCK_SIZE && k < count) || (start == n && k == count),
            cap == lz4_cap(),
            legacy_blocks(data@, k as int) == Some(blocks@),
            forall|i: int| 0 <= i < k ==> #[trigger] block_round_trips(chunk(data@, i)),
        decreases n - start,
    {
        let end = if n - start > LZ4_BLOCK_SIZE {
            start + LZ4_BLOCK_SIZE
        } else {
            n
        };
        let c = match lz4_block_compress(vstd::slice::slice_subrange(data, start, end), cap) {
            Some(c) => c,
            None => {
                proof {
                    lemma_legacy_blocks_none(data@, k as int + 1, count as int);
                }
                return Err(CompressError::Backend);
            },
        };
        proof {
            assert(chunk(data@, k as int) == data@.subrange(start as int, end as int));
        }
        let ghost before = blocks@;
        push_le32(&mut blocks, c.len() as u32);
        blocks.extend_from_slice(c.as_slice());
        proof {
            assert(blocks@ =~= before + le32(c@.len() as int) + c@);
        }
        k = k + 1;
        start = end;
    }
    let mut out: Vec<u8> = Vec::new();
    if n > 0 {
        push_le32(&mut out, LZ4_MAGIC);
        out.extend_from_slice(blocks.as_slice());
    }
    proof {
        if n == 0 {
            assert(out@ =~= Seq::<u8>::empty());
        } else {
            assert(out@ =~= le32(LZ4_MAGIC as int) + blocks@);
        }
    }
    if lg {
        if n as u64 > u32::MAX as u64 {
            return Err(CompressError::InputTooLarge);
        }
        push_le32(&mut out, n as u32);
    }
    Ok(out)
}

proof fn lemma_legacy_blocks_none(data: Seq<u8>, k: int, m: int)
    requires
        1 <= k <= m,
        legacy_blocks(data, k) is None,
    ensures
        legacy_blocks(data, m) is None,
    decreases m - k,
{
    if k < m {
        lemma_legacy_blocks_none(data, k, m - 1);
    }
}

/// Reads a legacy stream; see [`legacy_decode_from`].
fn legacy_decode(d: &[u8]) -> (r: Result<Vec<u8>, CompressError>)
    ensures
        match legacy_decode_from(d@, 0, seq![]) {
            Ok(v) => r matches Ok(x) && x@ == v,
            Err(e) => r matches Err(x) && x == e,
        },
{
    let len = d.len();
    let cap = match lz4_compress_bound(LZ4_BLOCK_SIZE) {
        Some(c) => c,
        None => LZ4_BLOCK_SIZE,
    };
    let mut out: Vec<u8> = Vec::new();
    let mut pos: usize = 0;
    while pos < len
        invariant
            len == d@.len(),
            cap == lz4_cap(),
            legacy_decode_from(d@, 0, seq![]) == legacy_decode_from(d@, pos as int, out@),
        decreases len - pos,
    {
        if len - pos < 4 {
            return Err(CompressError::UnexpectedEof);
        }
        let first = read_u32(d, pos);
        let (p, bs) = if first == LZ4_MAGIC {
            if len - pos < 8 {
                return Err(CompressError::UnexpectedEof);
            }
            (pos + 8, read_u32(d, pos + 4))
        } else {
            (pos + 4, first)
        };
        if bs == 0 {
            return Err(CompressError::EmptyBlock);
        }
        if bs as usize > cap {
            return Err(CompressError::BlockTooLarge);
        }
        if bs as usize > len - p {
            return Err(CompressError::UnexpectedEof);
        }
        let e = p + bs as usize;
        let block = match lz4_block_decompress(vstd::slice::slice_subrange(d, p, e)) {
            Some(b) => b,
            None => return Err(CompressError::CorruptBlock),
        };
        if block.len() == 0 {
            return Err(CompressError::EmptyOutput);
        }
        let ghost before = out@;
        out.extend_from_slice(block.as_slice());
        proof {
            assert(out@ =~= before + block@);
        }
        pos = e;
    }
    Ok(out)
}

/// Compresses a whole buffer in `format`: gzip (also for `ZOPFLI`),
/// bzip2 and LZ4 frames through their libraries, the legacy LZ4 container
/// here; LZMA and XZ are not supported, and other formats are not
/// compressions.
pub open spec fn compress_of(format: FileFormat, data: Seq<u8>) -> Result<Seq<u8>, CompressError> {
    let lib = |o: Option<Seq<u8>>|
        match o {
            Some(v) => Ok(v),
            None => Err(CompressError::Backend),
        };
    match format {
        FileFormat::BZIP2 => lib(bzip2_compress_of(data)),
        FileFormat::LZ4 => lib(lz4_frame_compress_of(data)),
        FileFormat::LZ4_LEGACY => legacy_encode_of(data, false),
        FileFormat::LZ4_LG => legacy_encode_of(data, true),
        FileFormat::GZIP => lib(gzip_compress_of(data)),
        FileFormat::ZOPFLI => lib(gzip_compress_of(data)),
        FileFormat::LZMA => Err(CompressError::Unsupported),
        FileFormat::XZ => Err(CompressError::Unsupported),
        _ => Err(CompressError::NotCompression),
    }
}

/// Decompresses a whole buffer in `format`; see [`compress_of`].
pub open spec fn decompress_of(format: FileFormat, data: Seq<u8>) -> Result<Seq<u8>, CompressError> {
    let lib = |o: Option<Seq<u8>>|
        match o {
            Some(v) => Ok(v),
            None => Err(CompressError::Backend),
        };
    match format {
        FileFormat::BZIP2 => lib(bzip2_decompress_of(data)),
        FileFormat::LZ4 => lib(lz4_frame_decompress_of(data)),
        FileFormat::LZ4_LEGACY => legacy_decode_from(data, 0, seq![]),
        FileFormat::LZ4_LG => lg_decode_of(data),
        FileFormat::GZIP => lib(gzip_decompress_of(data)),
        FileFormat::ZOPFLI => lib(gzip_decompress_of(data)),
        FileFormat::LZMA => lib(lzma_decompress_of(data)),
        FileFormat::XZ => Err(CompressError::Unsupported),
        _ => Err(CompressError::NotCompression),
    }
}

fn from_lib(o: Option<Vec<u8>>) -> (r: Result<Vec<u8>, CompressError>)
    ensures
        match opt_bytes(o) {
            Some(v) => r matches Ok(x) && x@ == v,
            None => r matches Err(e) && e == CompressError::Backend,
        },
{
    match o {
        Some(v) => Ok(v),
        None => Err(CompressError::Backend),
    }
}

/// The format the first bytes of a compressed buffer name: zopfli writes
/// gzip, and an `LZ4_LG` stream starts like a legacy one.
pub open spec fn written_format(format: FileFormat) -> FileFormat {
    match format {
        FileFormat::ZOPFLI => FileFormat::GZIP,
        FileFormat::LZ4_LG => FileFormat::LZ4_LEGACY,
        _ => format,
    }
}

/// A legacy stream of non-empty input starts with the legacy magic.
proof fn lemma_legacy_magic(data: Seq<u8>, lg: bool)
    requires
        data.len() > 0,
        legacy_encode_of(data, lg) is Ok,
    ensures
        format_of(legacy_encode_of(data, lg)->Ok_0) == FileFormat::LZ4_LEGACY,
{
    let z = legacy_encode_of(data, lg)->Ok_0;
    let m = le32(LZ4_MAGIC as int);
    assert(m[0] == 0x02 && m[1] == 0x21 && m[2] == 0x4c && m[3] == 0x18);
    assert(z[0] == m[0] && z[1] == m[1] && z[2] == m[2] && z[3] == m[3]);
}

/// Compresses `data` in `format`; see [`compress_of`].
/// What it returns decompresses in the same format to `data`, and, for
/// non-empty `data`, is recognised by its first bytes as
/// [`written_format`] of `format`.
pub fn compress_vec(format: FileFormat, data: &[u8]) -> (r: Result<Vec<u8>, CompressError>)
    ensures
        match compress_of(format, data@) {
            Ok(v) => r matches Ok(x) && x@ == v,
            Err(e) => r matches Err(x) && x == e,
        },
        r matches Ok(z) ==> decompress_of(format, z@) == Ok::<Seq<u8>, CompressError>(data@),
        data@.len() > 0 ==> (r matches Ok(z) ==> format_of(z@) == written_format(format)),
{
    match format {
        FileFormat::BZIP2 => {
            let o = bzip2_compress(data);
            proof {
                if o is Some {
                    let z = o->0@;
                    assert(z[0] == 0x42 && z[1] == 0x5a && z[2] == 0x68 && z.len() >= 4);
                    assert(format_of(z) == FileFormat::BZIP2);
                }
            }
            from_lib(o)
        },
        FileFormat::LZ4 => from_lib(lz4_frame_compress(data)),
        FileFormat::LZ4_LEGACY => {
            let r = legacy_encode(data, false);
            proof {
                if r is Ok {
                    lemma_legacy_round_trip(data@, format);
                    if data@.len() > 0 {
                        lemma_legacy_magic(data@, false);
                    }
                }
            }
            r
        },
        FileFormat::LZ4_LG => {
            let r = legacy_encode(data, true);
            proof {
                if r is Ok {
                    lemma_legacy_round_trip(data@, format);
                    if data@.len() > 0 {
                        lemma_legacy_magic(data@, true);
                    }
                }
            }
            r
        },
        FileFormat::GZIP => from_lib(gzip_compress(data)),
        FileFormat::ZOPFLI => from_lib(gzip_compress(data)),
        FileFormat::LZMA => Err(CompressError::Unsupported),
        FileFormat::XZ => Err(CompressError::Unsupported),
        _ => Err(CompressError::NotCompression),
    }
}

/// Decompresses `data` in `format`; see [`decompress_of`].
pub fn decompress_vec(format: FileFormat, data: &[u8]) -> (r: Result<Vec<u8>, CompressError>)
    ensures
        match decompress_of(format, data@) {
            Ok(v) => r matches Ok(x) && x@ == v,
            Err(e) => r matches Err(x) && x == e,
        },
{
    match format {
        FileFormat::BZIP2 => from_lib(bzip2_decompress(data)),
        FileFormat::LZ4 => from_lib(lz4_frame_decompress(data)),
        FileFormat::LZ4_LEGACY => legacy_decode(data),
        FileFormat::LZ4_LG => {
            let n = data.len();
            if n < 4 {
                return Err(CompressError::MissingTrailer);
            }
            let expected = read_u32(data, n - 4);
            match legacy_decode(vstd::slice::slice_subrange(data, 0, n - 4)) {
                Err(e) => Err(e),
                Ok(out) => if out.len() as u64 != expected as u64 {
                    Err(CompressError::SizeMismatch)
                } else {
                    Ok(out)
                },
            }
        },
        FileFormat::GZIP => from_lib(gzip_decompress(data)),
        FileFormat::ZOPFLI => from_lib(gzip_decompress(data)),
        FileFormat::LZMA => from_lib(lzma_decompress(data)),
        FileFormat::XZ => Err(CompressError::Unsupported),
        _ => Err(CompressError::NotCompression),
    }
}

// ---------------------------------------------------------------------------
// Compressing and decompressing in a legacy LZ4 format.

/// Whether the LZ4 block codec gives `c` back from its compressed form,
/// compressed into at least one and at most `lz4_cap` bytes.
pub open spec fn block_round_trips(c: Seq<u8>) -> bool {
    lz4_block_compress_of(c) matches Some(z) && 0 < z.len() <= lz4_cap()
        && lz4_block_decompress_of(z) == Some(c)
}

/// Whether every 8 MiB chunk of `data` goes through the block codec and back.
pub open spec fn chunks_round_trip(data: Seq<u8>) -> bool {
    forall|i: int| 0 <= i < chunk_count(data.len() as int) ==> #[trigger] block_round_trips(chunk(data, i))
}

/// Where a legacy stream of `data` holds block `k`'s size field.
pub open spec fn block_offset(data: Seq<u8>, k: int) -> int {
    4 + legacy_blocks(data, k)->Some_0.len() as int
}

proof fn lemma_chunk_bounds(n: int, k: int)
    requires
        n > 0,
        0 <= k < chunk_count(n),
    ensures
        k * LZ4_BLOCK_SIZE < n,
        chunk_count(n) * LZ4_BLOCK_SIZE >= n,
{
    assert(k * LZ4_BLOCK_SIZE < n) by (nonlinear_arith)
        requires
            n > 0,
            0 <= k,
            k < (n + LZ4_BLOCK_SIZE - 1) / (LZ4_BLOCK_SIZE as int),
    ;
    assert(chunk_count(n) * LZ4_BLOCK_SIZE >= n) by (nonlinear_arith)
        requires
            n > 0,
    ;
}

proof fn lemma_blocks_prefix(data: Seq<u8>, k: int, m: int)
    requires
        0 <= k <= m <= chunk_count(data.len() as int),
        chunks_round_trip(data),
    ensures
        legacy_blocks(data, k) is Some,
        legacy_blocks(data, m) is Some,
        legacy_blocks(data, m)->Some_0.len() >= legacy_blocks(data, k)->Some_0.len(),
        legacy_blocks(data, m)->Some_0.subrange(0, legacy_blocks(data, k)->Some_0.len() as int)
            == legacy_blocks(data, k)->Some_0,
    decreases m,
{
    if m == 0 {
    } else if k == m {
        lemma_blocks_prefix(data, k - 1, k - 1);
        assert(block_round_trips(chunk(data, k - 1)));
        let b = legacy_blocks(data, m)->Some_0;
        assert(b.subrange(0, b.len() as int) =~= b);
    } else {
        lemma_blocks_prefix(data, k, m - 1);
        assert(block_round_trips(chunk(data, m - 1)));
        let a = legacy_blocks(data, m - 1)->Some_0;
        let b = legacy_blocks(data, m)->Some_0;
        let kb = legacy_blocks(data, k)->Some_0;
        assert(b.subrange(0, kb.len() as int) =~= a.subrange(0, kb.len() as int));
    }
}

/// The stream of `data` between the size fields of blocks `k` and `k + 1`:
/// the compressed size, then the compressed chunk.
proof fn lemma_block_slice(data: Seq<u8>, k: int)
    requires
        0 <= k < chunk_count(data.len() as int),
        chunks_round_trip(data),
    ensures
        ({
            let e = le32(LZ4_MAGIC as int) + legacy_blocks(data, chunk_count(data.len() as int))->Some_0;
            let z = lz4_block_compress_of(chunk(data, k))->Some_0;
            &&& block_offset(data, k + 1) == block_offset(data, k) + 4 + z.len()
            &&& block_offset(data, k + 1) <= e.len()
            &&& e.subrange(block_offset(data, k), block_offset(data, k) + 4) == le32(z.len() as int)
            &&& e.subrange(block_offset(data, k) + 4, block_offset(data, k + 1)) == z
        }),
{
    let n = chunk_count(data.len() as int);
    lemma_blocks_prefix(data, k, k + 1);
    lemma_blocks_prefix(data, k + 1, n);
    assert(block_round_trips(chunk(data, k)));
    let e = le32(LZ4_MAGIC as int) + legacy_blocks(data, n)->Some_0;
    let z = lz4_block_compress_of(chunk(data, k))->Some_0;
    let a = legacy_blocks(data, k)->Some_0;
    let b = legacy_blocks(data, k + 1)->Some_0;
    let full = legacy_blocks(data, n)->Some_0;
    let al = a.len() as int;
    let bl = b.len() as int;
    assert(b == a + le32(z.len() as int) + z);
    assert(full.subrange(0, b.len() as int) == b);
    assert(le32(z.len() as int).len() == 4);
    assert forall|j: int| 0 <= j < 4 implies #[trigger] e.subrange(4 + al, 4 + al + 4)[j]
        == le32(z.len() as int)[j] by {
        assert(e[4 + al + j] == full[al + j]);
        assert(full[al + j] == b[al + j]);
    }
    assert(e.subrange(4 + al, 4 + al + 4) =~= le32(z.len() as int));
    assert forall|j: int| 0 <= j < z.len() implies #[trigger] e.subrange(4 + al + 4, 4 + bl)[j]
        == z[j] by {
        assert(e[4 + al + 4 + j] == full[al + 4 + j]);
        assert(full[al + 4 + j] == b[al + 4 + j]);
    }
    assert(e.subrange(4 + al + 4, 4 + bl) =~= z);
}

/// The chunks of `data` before chunk `k`.
pub open spec fn decoded_prefix(data: Seq<u8>, k: int) -> Seq<u8> {
    if k * LZ4_BLOCK_SIZE < data.len() {
        data.subrange(0, k * LZ4_BLOCK_SIZE)
    } else {
        data
    }
}

/// Decoding the block at `k` reads its size and its compressed chunk and
/// goes on after them with that chunk added.
proof fn lemma_decode_step(data: Seq<u8>, k: int)
    requires
        data.len() > 0,
        1 <= k < chunk_count(data.len() as int),
        chunks_round_trip(data),
    ensures
        legacy_decode_from(
            le32(LZ4_MAGIC as int) + legacy_blocks(data, chunk_count(data.len() as int))->Some_0,
            block_offset(data, k),
            decoded_prefix(data, k),
        ) == legacy_decode_from(
            le32(LZ4_MAGIC as int) + legacy_blocks(data, chunk_count(data.len() as int))->Some_0,
            block_offset(data, k + 1),
            decoded_prefix(data, k + 1),
        ),
{
    let n = chunk_count(data.len() as int);
    let e = le32(LZ4_MAGIC as int) + legacy_blocks(data, n)->Some_0;
    let z = lz4_block_compress_of(chunk(data, k))->Some_0;
    let pos = block_offset(data, k);
    lemma_block_slice(data, k);
    lemma_chunk_bounds(data.len() as int, k);
    assert(block_round_trips(chunk(data, k)));
    lemma_read_le32(e, pos, z.len() as int);
    assert(z.len() != LZ4_MAGIC);
    assert(chunk(data, k).len() > 0);
    assert(decoded_prefix(data, k) + chunk(data, k) =~= decoded_prefix(data, k + 1));
}

/// Decoding a legacy stream of non-empty `data` from block `k` on, having
/// decoded the chunks before it, gives `data`.
proof fn lemma_decode_from(data: Seq<u8>, k: int)
    requires
        data.len() > 0,
        1 <= k <= chunk_count(data.len() as int),
        chunks_round_trip(data),
    ensures
        legacy_decode_from(
            le32(LZ4_MAGIC as int) + legacy_blocks(data, chunk_count(data.len() as int))->Some_0,
            block_offset(data, k),
            decoded_prefix(data, k),
        ) == Ok::<Seq<u8>, CompressError>(data),
    decreases chunk_count(data.len() as int) - k,
{
    let n = chunk_count(data.len() as int);
    if k == n {
        lemma_blocks_prefix(data, n, n);
        lemma_chunk_bounds(data.len() as int, n - 1);
        assert(!(n * LZ4_BLOCK_SIZE < data.len()));
        let e = le32(LZ4_MAGIC as int) + legacy_blocks(data, n)->Some_0;
        assert(le32(LZ4_MAGIC as int).len() == 4);
        assert(block_offset(data, k) == e.len());
        assert(decoded_prefix(data, k) == data);
    } else {
        lemma_decode_step(data, k);
        lemma_decode_from(data, k + 1);
    }
}

/// A legacy stream of `data` decodes to `data`.
proof fn lemma_legacy_stream(data: Seq<u8>)
    requires
        chunks_round_trip(data),
    ensures
        legacy_encode_of(data, false) matches Ok(enc) && legacy_decode_from(enc, 0, seq![]) == Ok::<
            Seq<u8>,
            CompressError,
        >(data),
{
    let n = chunk_count(data.len() as int);
    lemma_blocks_prefix(data, n, n);
    if data.len() == 0 {
        assert(data =~= Seq::<u8>::empty());
    } else {
        let e = le32(LZ4_MAGIC as int) + legacy_blocks(data, n)->Some_0;
        let z = lz4_block_compress_of(chunk(data, 0))->Some_0;
        lemma_chunk_bounds(data.len() as int, 0);
        lemma_block_slice(data, 0);
        lemma_blocks_prefix(data, 0, 0);
        assert(block_round_trips(chunk(data, 0)));
        assert(e.subrange(0, 4) =~= le32(LZ4_MAGIC as int));
        lemma_read_le32(e, 0, LZ4_MAGIC as int);
        assert(block_offset(data, 0) == 4);
        lemma_read_le32(e, 4, z.len() as int);
        assert(chunk(data, 0).len() > 0);
        assert(seq![] + chunk(data, 0) =~= decoded_prefix(data, 1));
        lemma_decode_from(data, 1);
    }
}

/// Compressing in a legacy LZ4 format (`LZ4_LG` only for inputs whose size
/// fits 32 bits) and decompressing in the same format gives the input back,
/// whenever the LZ4 block codec gives each 8 MiB chunk back from its
/// compressed form.
pub proof fn lemma_legacy_round_trip(data: Seq<u8>, format: FileFormat)
    requires
        format == FileFormat::LZ4_LEGACY || (format == FileFormat::LZ4_LG && data.len() <= u32::MAX),
        chunks_round_trip(data),
    ensures
        compress_of(format, data) matches Ok(z) && decompress_of(format, z) == Ok::<Seq<u8>, CompressError>(
            data,
        ),
{
    lemma_legacy_stream(data);
    if format == FileFormat::LZ4_LG {
        let body = legacy_encode_of(data, false)->Ok_0;
        let d = body + le32(data.len() as int);
        assert(d.subrange(0, d.len() - 4) =~= body);
        assert(d.subrange(d.len() - 4, d.len() as int) =~= le32(data.len() as int));
        lemma_read_le32(d, d.len() - 4, data.len() as int);
    }
}

} // verus!
