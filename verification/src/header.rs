//! Recognition of ramdisk payload formats by their leading magic bytes.

use vstd::prelude::*;
use crate::bytes::{le_u32, le_u32_at};

verus! {

/// A payload format, as told apart by its first bytes.
#[allow(non_camel_case_types)]
#[derive(Copy, Clone, Debug, PartialEq, Eq, Structural)]
pub enum FileFormat {
    UNKNOWN,
    GZIP,
    ZOPFLI,
    XZ,
    LZMA,
    BZIP2,
    LZ4,
    LZ4_LEGACY,
    LZ4_LG,
    LZOP,
    RAW,
}

/// The name under which a format is written and parsed.
pub open spec fn format_name(f: FileFormat) -> Seq<char> {
    match f {
        FileFormat::GZIP => "gzip"@,
        FileFormat::ZOPFLI => "zopfli"@,
        FileFormat::LZOP => "lzop"@,
        FileFormat::XZ => "xz"@,
        FileFormat::LZMA => "lzma"@,
        FileFormat::BZIP2 => "bzip2"@,
        FileFormat::LZ4 => "lz4"@,
        FileFormat::LZ4_LEGACY => "lz4_legacy"@,
        FileFormat::LZ4_LG => "lz4_lg"@,
        FileFormat::RAW => "raw"@,
        FileFormat::UNKNOWN => "unknown"@,
    }
}

/// The formats that hold compressed data.
pub open spec fn compressed(f: FileFormat) -> bool {
    matches!(
        f,
        FileFormat::GZIP | FileFormat::ZOPFLI | FileFormat::XZ | FileFormat::LZMA
            | FileFormat::BZIP2 | FileFormat::LZ4 | FileFormat::LZ4_LEGACY | FileFormat::LZ4_LG
    )
}

impl FileFormat {
    pub fn as_str(&self) -> (r: &'static str)
        ensures
            r@ == format_name(*self),
    {
        match *self {
            FileFormat::GZIP => "gzip",
            FileFormat::ZOPFLI => "zopfli",
            FileFormat::LZOP => "lzop",
            FileFormat::XZ => "xz",
            FileFormat::LZMA => "lzma",
            FileFormat::BZIP2 => "bzip2",
            FileFormat::LZ4 => "lz4",
            FileFormat::LZ4_LEGACY => "lz4_legacy",
            FileFormat::LZ4_LG => "lz4_lg",
            FileFormat::RAW => "raw",
            FileFormat::UNKNOWN => "unknown",
        }
    }

    pub fn is_compressed(&self) -> (r: bool)
        ensures
            r == compressed(*self),
    {
        match *self {
            FileFormat::GZIP | FileFormat::ZOPFLI | FileFormat::XZ | FileFormat::LZMA
            | FileFormat::BZIP2 | FileFormat::LZ4 | FileFormat::LZ4_LEGACY
            | FileFormat::LZ4_LG => true,
            _ => false,
        }
    }

    /// The format with the given name, for every format but `UNKNOWN`.
    pub fn from_name(s: &str) -> (r: Option<FileFormat>)
        ensures
            r matches Some(f) ==> f != FileFormat::UNKNOWN && format_name(f) == s@,
            r is None ==> forall|f: FileFormat|
                f != FileFormat::UNKNOWN ==> #[trigger] format_name(f) != s@,
    {
        let all = [
            FileFormat::GZIP,
            FileFormat::ZOPFLI,
            FileFormat::XZ,
            FileFormat::LZMA,
            FileFormat::BZIP2,
            FileFormat::LZOP,
            FileFormat::LZ4,
            FileFormat::LZ4_LEGACY,
            FileFormat::LZ4_LG,
            FileFormat::RAW,
        ];
        let mut i: usize = 0;
        while i < 10
            invariant
                i <= 10,
                all@ == seq![
                    FileFormat::GZIP,
                    FileFormat::ZOPFLI,
                    FileFormat::XZ,
                    FileFormat::LZMA,
                    FileFormat::BZIP2,
                    FileFormat::LZOP,
                    FileFormat::LZ4,
                    FileFormat::LZ4_LEGACY,
                    FileFormat::LZ4_LG,
                    FileFormat::RAW,
                ],
                forall|k: int| 0 <= k < i ==> format_name(all@[k]) != s@,
            decreases 10 - i,
        {
            let f = all[i];
            if crate::text::str_eq(f.as_str(), s) {
                return Some(f);
            }
            i = i + 1;
        }
        proof {
            assert forall|f: FileFormat| f != FileFormat::UNKNOWN implies #[trigger] format_name(f) != s@ by {
                let k: int = match f {
                    FileFormat::GZIP => 0,
                    FileFormat::ZOPFLI => 1,
                    FileFormat::XZ => 2,
                    FileFormat::LZMA => 3,
                    FileFormat::BZIP2 => 4,
                    FileFormat::LZOP => 5,
                    FileFormat::LZ4 => 6,
                    FileFormat::LZ4_LEGACY => 7,
                    FileFormat::LZ4_LG => 8,
                    _ => 9,
                };
                assert(all@[k] == f);
            }
        }
        None
    }
}

/// Whether the bytes start with a newc cpio magic (`070701` or `070702`).
pub open spec fn cpio_magic(buf: Seq<u8>) -> bool {
    buf.len() >= 6 && buf[0] == 0x30 && buf[1] == 0x37 && buf[2] == 0x30 && buf[3] == 0x37
        && buf[4] == 0x30 && (buf[5] == 0x31 || buf[5] == 0x32)
}

/// The format that the leading bytes announce.
pub open spec fn format_of(buf: Seq<u8>) -> FileFormat {
    if buf.len() < 4 {
        FileFormat::UNKNOWN
    } else if buf[0] == 0x1F && buf[1] == 0x8B && buf[2] == 0x08 {
        FileFormat::GZIP
    } else if buf[0] == 0xFD && buf[1] == 0x37 && buf[2] == 0x7A && buf[3] == 0x58 {
        FileFormat::XZ
    } else if buf[0] == 0x42 && buf[1] == 0x5A && buf[2] == 0x68 {
        FileFormat::BZIP2
    } else if buf[0] == 0x5D && buf[1] == 0x00 && buf[2] == 0x00 {
        FileFormat::LZMA
    } else if buf[0] == 0x04 && buf[1] == 0x22 && buf[2] == 0x4D && buf[3] == 0x18 {
        FileFormat::LZ4
    } else if buf[0] == 0x02 && buf[1] == 0x21 && buf[2] == 0x4C && buf[3] == 0x18 {
        FileFormat::LZ4_LEGACY
    } else if buf[0] == 0x89 && buf[1] == 0x4C && buf[2] == 0x5A && buf[3] == 0x4F {
        FileFormat::LZOP
    } else if cpio_magic(buf) {
        FileFormat::RAW
    } else {
        FileFormat::UNKNOWN
    }
}

/// The format named by the first bytes of `buf`.
pub fn check_fmt(buf: &[u8]) -> (r: FileFormat)
    ensures
        r == format_of(buf@),
{
    if buf.len() < 4 {
        return FileFormat::UNKNOWN;
    }
    let (b0, b1, b2, b3) = (buf[0], buf[1], buf[2], buf[3]);
    if b0 == 0x1F && b1 == 0x8B && b2 == 0x08 {
        FileFormat::GZIP
    } else if b0 == 0xFD && b1 == 0x37 && b2 == 0x7A && b3 == 0x58 {
        FileFormat::XZ
    } else if b0 == 0x42 && b1 == 0x5A && b2 == 0x68 {
        FileFormat::BZIP2
    } else if b0 == 0x5D && b1 == 0x00 && b2 == 0x00 {
        FileFormat::LZMA
    } else if b0 == 0x04 && b1 == 0x22 && b2 == 0x4D && b3 == 0x18 {
        FileFormat::LZ4
    } else if b0 == 0x02 && b1 == 0x21 && b2 == 0x4C && b3 == 0x18 {
        FileFormat::LZ4_LEGACY
    } else if b0 == 0x89 && b1 == 0x4C && b2 == 0x5A && b3 == 0x4F {
        FileFormat::LZOP
    } else if buf.len() >= 6 && b0 == 0x30 && b1 == 0x37 && b2 == 0x30 && b3 == 0x37 && buf[4]
        == 0x30 && (buf[5] == 0x31 || buf[5] == 0x32) {
        FileFormat::RAW
    } else {
        FileFormat::UNKNOWN
    }
}

/// Whether the block chain that starts at `offset` (a little-endian `u32`
/// size followed by that many bytes, repeated) ends exactly on a final
/// four-byte field: the uncompressed-size trailer of the LZ4 "lg" variant.
pub open spec fn lg_chain_from(buf: Seq<u8>, offset: int) -> bool
    decreases buf.len() - offset,
{
    if offset < 0 || offset + 4 > buf.len() {
        false
    } else if offset + 4 == buf.len() {
        true
    } else {
        let block_end = offset + 4 + le_u32_at(buf, offset);
        if block_end > buf.len() {
            false
        } else {
            lg_chain_from(buf, block_end)
        }
    }
}

/// Whether an LZ4 legacy stream carries the size trailer of the "lg" variant.
pub open spec fn has_lg_trailer(buf: Seq<u8>) -> bool {
    lg_chain_from(buf, 4)
}

fn has_lz4_lg_trailer(buf: &[u8]) -> (r: bool)
    ensures
        r == has_lg_trailer(buf@),
{
    let len = buf.len();
    let mut offset: usize = 4;
    while offset <= len && len - offset >= 4
        invariant
            len == buf@.len(),
            offset >= 4,
            lg_chain_from(buf@, 4) == lg_chain_from(buf@, offset as int),
        decreases len - offset,
    {
        let size_end = offset + 4;
        let block_size = le_u32(buf, offset);
        if size_end == len {
            return true;
        }
        if (block_size as usize) > len - size_end {
            return false;
        }
        offset = size_end + block_size as usize;
    }
    false
}

/// The format of a payload, telling the LZ4 "lg" variant apart from plain
/// legacy LZ4 by its trailer.
pub open spec fn full_format_of(buf: Seq<u8>) -> FileFormat {
    if format_of(buf) == FileFormat::LZ4_LEGACY && has_lg_trailer(buf) {
        FileFormat::LZ4_LG
    } else {
        format_of(buf)
    }
}

pub fn check_fmt_full(buf: &[u8]) -> (r: FileFormat)
    ensures
        r == full_format_of(buf@),
{
    let format = check_fmt(buf);
    if format == FileFormat::LZ4_LEGACY && has_lz4_lg_trailer(buf) {
        FileFormat::LZ4_LG
    } else {
        format
    }
}

/// No two formats share a name, so a format's name parses back to it.
pub proof fn lemma_format_name_injective(a: FileFormat, b: FileFormat)
    requires
        format_name(a) == format_name(b),
    ensures
        a == b,
{
    reveal_strlit("gzip");
    reveal_strlit("zopfli");
    reveal_strlit("lzop");
    reveal_strlit("xz");
    reveal_strlit("lzma");
    reveal_strlit("bzip2");
    reveal_strlit("lz4");
    reveal_strlit("lz4_legacy");
    reveal_strlit("lz4_lg");
    reveal_strlit("raw");
    reveal_strlit("unknown");
    if a != b {
        let x = format_name(a);
        let y = format_name(b);
        assert(x.len() != y.len() || x[0] != y[0] || x[1] != y[1] || x[2] != y[2] || x[3] != y[3]
            || x[4] != y[4]);
    }
}

/// Each format is recognised by its own magic bytes, wherever they stand
/// at the start of a buffer of at least four bytes: gzip `1f 8b 08`, xz
/// `fd 37 7a 58`, bzip2 `42 5a 68`, lzma `5d 00 00`, lz4 `04 22 4d 18`,
/// legacy lz4 `02 21 4c 18`, lzop `89 4c 5a 4f`, and a newc cpio archive
/// `070701` or `070702`; the compressions among them count as compressed,
/// and a buffer named one of these formats starts with its magic.
pub proof fn lemma_format_magics(buf: Seq<u8>)
    requires
        buf.len() >= 4,
    ensures
        buf.subrange(0, 3) == seq![0x1Fu8, 0x8B, 0x08] ==> format_of(buf) == FileFormat::GZIP,
        buf.subrange(0, 4) == seq![0xFDu8, 0x37, 0x7A, 0x58] ==> format_of(buf) == FileFormat::XZ,
        buf.subrange(0, 3) == seq![0x42u8, 0x5A, 0x68] ==> format_of(buf) == FileFormat::BZIP2,
        buf.subrange(0, 3) == seq![0x5Du8, 0x00, 0x00] ==> format_of(buf) == FileFormat::LZMA,
        buf.subrange(0, 4) == seq![0x04u8, 0x22, 0x4D, 0x18] ==> format_of(buf) == FileFormat::LZ4,
        buf.subrange(0, 4) == seq![0x02u8, 0x21, 0x4C, 0x18] ==> format_of(buf) == FileFormat::LZ4_LEGACY,
        buf.subrange(0, 4) == seq![0x89u8, 0x4C, 0x5A, 0x4F] ==> format_of(buf) == FileFormat::LZOP,
        buf.len() >= 6 && buf.subrange(0, 5) == seq![0x30u8, 0x37, 0x30, 0x37, 0x30] && (buf[5] == 0x31
            || buf[5] == 0x32) ==> format_of(buf) == FileFormat::RAW,
        format_of(buf) == FileFormat::GZIP ==> buf.subrange(0, 3) == seq![0x1Fu8, 0x8B, 0x08],
        format_of(buf) == FileFormat::XZ ==> buf.subrange(0, 4) == seq![0xFDu8, 0x37, 0x7A, 0x58],
        format_of(buf) == FileFormat::BZIP2 ==> buf.subrange(0, 3) == seq![0x42u8, 0x5A, 0x68],
        format_of(buf) == FileFormat::LZMA ==> buf.subrange(0, 3) == seq![0x5Du8, 0x00, 0x00],
        format_of(buf) == FileFormat::LZ4 ==> buf.subrange(0, 4) == seq![0x04u8, 0x22, 0x4D, 0x18],
        format_of(buf) == FileFormat::LZ4_LEGACY ==> buf.subrange(0, 4) == seq![0x02u8, 0x21, 0x4C, 0x18],
        format_of(buf) == FileFormat::LZOP ==> buf.subrange(0, 4) == seq![0x89u8, 0x4C, 0x5A, 0x4F],
        buf[0] == 0x1F || buf[0] == 0xFD || buf[0] == 0x42 || buf[0] == 0x5D || buf[0] == 0x04 || buf[0]
            == 0x02 ==> (compressed(format_of(buf)) <==> format_of(buf) != FileFormat::UNKNOWN),
{
    let a = buf.subrange(0, 3);
    let b = buf.subrange(0, 4);
    assert(a[0] == buf[0] && a[1] == buf[1] && a[2] == buf[2]);
    assert(b[0] == buf[0] && b[1] == buf[1] && b[2] == buf[2] && b[3] == buf[3]);
    if buf.len() >= 6 {
        let c = buf.subrange(0, 5);
        assert(c[0] == buf[0] && c[1] == buf[1] && c[2] == buf[2] && c[3] == buf[3] && c[4] == buf[4]);
    }
    let f = format_of(buf);
    if f == FileFormat::GZIP {
        assert(a =~= seq![0x1Fu8, 0x8B, 0x08]);
    }
    if f == FileFormat::XZ {
        assert(b =~= seq![0xFDu8, 0x37, 0x7A, 0x58]);
    }
    if f == FileFormat::BZIP2 {
        assert(a =~= seq![0x42u8, 0x5A, 0x68]);
    }
    if f == FileFormat::LZMA {
        assert(a =~= seq![0x5Du8, 0x00, 0x00]);
    }
    if f == FileFormat::LZ4 {
        assert(b =~= seq![0x04u8, 0x22, 0x4D, 0x18]);
    }
    if f == FileFormat::LZ4_LEGACY {
        assert(b =~= seq![0x02u8, 0x21, 0x4C, 0x18]);
    }
    if f == FileFormat::LZOP {
        assert(b =~= seq![0x89u8, 0x4C, 0x5A, 0x4F]);
    }
}

} // verus!
