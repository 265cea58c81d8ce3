//! OEMINFO partitions: runs of `OEM_INFO` blocks, each a header and a
//! payload, laid out in one or two copies (regions A and B). Loading finds
//! the blocks, works out their layout, region and which copy is current,
//! and classifies their payloads.

use vstd::prelude::*;
use crate::bytes::{le_u32, le_u32_at};
use crate::text::{hex_digit, hex_digit_lower, hex_encode, hex_string, push_str_chars, str_eq, string_of};

verus! {

pub const OEMINFO_HEADER_SIZE: usize = 0x20;
pub const OEMINFO_REUSED_HEADER_SIZE: usize = 0x40;
pub const OEMINFO_STANDARD_HEADER_SIZE: usize = 0x200;
pub const OEMINFO_STANDARD_ALIGNMENT: usize = 0x1000;
pub const OEMINFO_REUSED_ALIGNMENT: usize = 0x80;
pub const OEMINFO_MAX_EMBEDDED_IMAGE_SIZE: u64 = 268435456;
pub const MIN_INFERRED_REGION_SIZE: usize = 1048576;
pub const MAX_PLAUSIBLE_VERSION: u32 = 0x1_0000;
pub const IMAGE_DATA_OFFSET: usize = 0x1a;
pub const SIGNATURE_SIZE: usize = 256;

/// `OEM_INFO`.
pub open spec fn oem_magic() -> Seq<u8> {
    seq![0x4fu8, 0x45, 0x4d, 0x5f, 0x49, 0x4e, 0x46, 0x4f]
}

/// How a block's header is laid out.
#[derive(Debug, Clone, Copy, PartialEq, Eq, Structural)]
pub enum OemInfoLayout {
    Standard,
    StandardCompact,
    Reused,
}

/// Which copy of the partition a block lies in.
#[derive(Debug, Clone, Copy, PartialEq, Eq, Structural)]
pub enum OemInfoRegion {
    A,
    B,
    Unknown,
}

/// What a block's payload holds.
#[derive(Debug, Clone, Copy, PartialEq, Eq, Structural)]
pub enum OemInfoPayloadKind {
    Raw,
    Ascii,
    Tlv,
    ImageGzip,
    ImageRaw,
    AsciiSigned,
    RawSigned,
    AsciiSignedRandom,
    RawSignedRandom,
}

/// The printed name of a layout.
pub open spec fn layout_name(x: OemInfoLayout) -> Seq<char> {
    match x {
        OemInfoLayout::Standard => "STANDARD"@,
        OemInfoLayout::StandardCompact => "STANDARD_COMPACT"@,
        OemInfoLayout::Reused => "REUSED"@,
    }
}

impl OemInfoLayout {
    /// The name as printed.
    pub fn as_str(&self) -> (r: &'static str)
        ensures
            r@ == layout_name(*self),
    {
        match self {
            OemInfoLayout::Standard => "STANDARD",
            OemInfoLayout::StandardCompact => "STANDARD_COMPACT",
            OemInfoLayout::Reused => "REUSED",
        }
    }
}

/// The printed name of a region.
pub open spec fn region_name(x: OemInfoRegion) -> Seq<char> {
    match x {
        OemInfoRegion::A => "A"@,
        OemInfoRegion::B => "B"@,
        OemInfoRegion::Unknown => "Unknown"@,
    }
}

impl OemInfoRegion {
    /// The name as printed.
    pub fn as_str(&self) -> (r: &'static str)
        ensures
            r@ == region_name(*self),
    {
        match self {
            OemInfoRegion::A => "A",
            OemInfoRegion::B => "B",
            OemInfoRegion::Unknown => "Unknown",
        }
    }
}

/// The printed name of a payload kind.
pub open spec fn payload_kind_name(x: OemInfoPayloadKind) -> Seq<char> {
    match x {
        OemInfoPayloadKind::Raw => "RAW"@,
        OemInfoPayloadKind::Ascii => "ASCII"@,
        OemInfoPayloadKind::Tlv => "TLV"@,
        OemInfoPayloadKind::ImageGzip => "IMAGE_GZIP"@,
        OemInfoPayloadKind::ImageRaw => "IMAGE_RAW"@,
        OemInfoPayloadKind::AsciiSigned => "ASCII_SIGNED"@,
        OemInfoPayloadKind::RawSigned => "RAW_SIGNED"@,
        OemInfoPayloadKind::AsciiSignedRandom => "ASCII_SIGNED_RANDOM"@,
        OemInfoPayloadKind::RawSignedRandom => "RAW_SIGNED_RANDOM"@,
    }
}

impl OemInfoPayloadKind {
    /// The name as printed.
    pub fn as_str(&self) -> (r: &'static str)
        ensures
            r@ == payload_kind_name(*self),
    {
        match self {
            OemInfoPayloadKind::Raw => "RAW",
            OemInfoPayloadKind::Ascii => "ASCII",
            OemInfoPayloadKind::Tlv => "TLV",
            OemInfoPayloadKind::ImageGzip => "IMAGE_GZIP",
            OemInfoPayloadKind::ImageRaw => "IMAGE_RAW",
            OemInfoPayloadKind::AsciiSigned => "ASCII_SIGNED",
            OemInfoPayloadKind::RawSigned => "RAW_SIGNED",
            OemInfoPayloadKind::AsciiSignedRandom => "ASCII_SIGNED_RANDOM",
            OemInfoPayloadKind::RawSignedRandom => "RAW_SIGNED_RANDOM",
        }
    }
}

/// Why an image or a block was refused.
#[derive(Debug, Clone, Copy, PartialEq, Eq, Structural)]
pub enum OemInfoError {
    TooSmall,
    NoHeaders,
    NoBlocks,
    NotAnImage,
    HeaderSizeChanged,
    NotAligned,
    HeaderTruncated,
    MagicChanged,
    FieldChanged,
    InvalidVersion,
    PaddingChanged,
    PayloadTooShort,
    ImageTooLarge,
    PayloadTruncated,
    DataOffsetChanged,
    LengthHeaderInvalid,
    RandomAdjustChanged,
    VersionChanged,
    SignatureUnsupported,
    KindChanged,
    RangeOverflow,
}

// ---------------------------------------------------------------------------
// Bytes.

/// The byte every element of `s` equals, if `s` is non-empty and uniform.
pub open spec fn uniform_of(s: Seq<u8>) -> Option<u8> {
    if s.len() > 0 && (forall|i: int| 0 <= i < s.len() ==> #[trigger] s[i] == s[0]) {
        Some(s[0])
    } else {
        None
    }
}

/// `uniform_of` over `bytes[start..end]`.
pub fn uniform_byte(bytes: &[u8], start: usize, end: usize) -> (r: Option<u8>)
    requires
        start <= end <= bytes@.len(),
    ensures
        r == uniform_of(bytes@.subrange(start as int, end as int)),
{
    let ghost s = bytes@.subrange(start as int, end as int);
    if start == end {
        return None;
    }
    let first = bytes[start];
    let mut i: usize = start;
    while i < end
        invariant
            start < end <= bytes@.len(),
            start <= i <= end,
            s == bytes@.subrange(start as int, end as int),
            first == s[0],
            forall|k: int| 0 <= k < i - start ==> s[k] == first,
        decreases end - i,
    {
        if bytes[i] != first {
            proof {
                assert(s[i - start] != s[0]);
            }
            return None;
        }
        i = i + 1;
    }
    Some(first)
}

/// `x` rounded up to a multiple of `a`, or `usize::MAX` where that overflows.
pub open spec fn align_up_of(x: int, a: int) -> int {
    if x + a - 1 > usize::MAX {
        usize::MAX as int
    } else {
        (x + a - 1) / a * a
    }
}

pub fn align_up(x: usize, a: usize) -> (r: usize)
    requires
        a > 0,
    ensures
        r == align_up_of(x as int, a as int),
{
    if x > usize::MAX - (a - 1) {
        usize::MAX
    } else {
        let y = x + (a - 1);
        proof {
            assert((y / a) * a <= y) by (nonlinear_arith)
                requires
                    a > 0,
            ;
        }
        y / a * a
    }
}

// ---------------------------------------------------------------------------
// Finding headers.

pub open spec fn magic_at(raw: Seq<u8>, off: int) -> bool {
    0 <= off && off + 8 <= raw.len() && raw.subrange(off, off + 8) == oem_magic()
}

/// The offsets of `OEM_INFO` from `cursor` on, each search starting past
/// the previous find.
pub open spec fn magic_offsets_from(raw: Seq<u8>, cursor: int) -> Seq<int>
    decreases raw.len() - cursor,
{
    if cursor < 0 || cursor + 8 > raw.len() {
        seq![]
    } else if magic_at(raw, cursor) {
        seq![cursor] + magic_offsets_from(raw, cursor + 8)
    } else {
        magic_offsets_from(raw, cursor + 1)
    }
}

fn magic_here(raw: &[u8], off: usize) -> (r: bool)
    requires
        off + 8 <= raw@.len(),
    ensures
        r == magic_at(raw@, off as int),
{
    let m: [u8; 8] = [0x4f, 0x45, 0x4d, 0x5f, 0x49, 0x4e, 0x46, 0x4f];
    let len = raw.len();
    let mut k: usize = 0;
    while k < 8
        invariant
            k <= 8,
            len == raw@.len(),
            off + 8 <= raw@.len(),
            m@ == oem_magic(),
            forall|j: int| 0 <= j < k ==> raw@[off + j] == oem_magic()[j],
        decreases 8 - k,
    {
        if raw[off + k] != m[k] {
            proof {
                assert(raw@.subrange(off as int, off + 8)[k as int] != oem_magic()[k as int]);
            }
            return false;
        }
        k = k + 1;
    }
    proof {
        assert(raw@.subrange(off as int, off + 8) =~= oem_magic());
    }
    true
}

pub open spec fn usize_seq(v: Seq<usize>) -> Seq<int> {
    v.map_values(|x: usize| x as int)
}

/// Every offset where a header could start, in increasing order.
pub fn find_magic_offsets(raw: &[u8]) -> (r: Vec<usize>)
    ensures
        usize_seq(r@) == magic_offsets_from(raw@, 0),
{
    let mut offsets: Vec<usize> = Vec::new();
    let mut cursor: usize = 0;
    let len = raw.len();
    while len >= 8 && cursor <= len - 8
        invariant
            len == raw@.len(),
            usize_seq(offsets@) + magic_offsets_from(raw@, cursor as int) == magic_offsets_from(raw@, 0),
        decreases len - cursor,
    {
        if magic_here(raw, cursor) {
            let ghost before = offsets@;
            offsets.push(cursor);
            proof {
                assert(usize_seq(offsets@) =~= usize_seq(before) + seq![cursor as int]);
                assert(usize_seq(offsets@) + magic_offsets_from(raw@, cursor + 8) =~= usize_seq(before)
                    + magic_offsets_from(raw@, cursor as int));
            }
            cursor = cursor + 8;
        } else {
            cursor = cursor + 1;
        }
    }
    proof {
        assert(usize_seq(offsets@) + Seq::<int>::empty() =~= usize_seq(offsets@));
    }
    offsets
}

proof fn lemma_magic_offsets_increasing(raw: Seq<u8>, cursor: int)
    ensures
        forall|i: int, j: int|
            0 <= i < j < magic_offsets_from(raw, cursor).len() ==> magic_offsets_from(raw, cursor)[i]
                + 8 <= magic_offsets_from(raw, cursor)[j],
        forall|i: int|
            0 <= i < magic_offsets_from(raw, cursor).len() ==> cursor <= magic_offsets_from(
                raw,
                cursor,
            )[i] && magic_at(raw, magic_offsets_from(raw, cursor)[i]),
    decreases raw.len() - cursor,
{
    if !(cursor < 0 || cursor + 8 > raw.len()) {
        if magic_at(raw, cursor) {
            let r = magic_offsets_from(raw, cursor + 8);
            lemma_magic_offsets_increasing(raw, cursor + 8);
            let s = seq![cursor] + r;
            assert(magic_offsets_from(raw, cursor) == s);
            assert forall|i: int| 0 <= i < s.len() implies cursor <= s[i] && magic_at(raw, s[i]) by {
                if i > 0 {
                    assert(s[i] == r[i - 1]);
                }
            }
            assert forall|i: int, j: int| 0 <= i < j < s.len() implies s[i] + 8 <= s[j] by {
                assert(s[j] == r[j - 1]);
                if i > 0 {
                    assert(s[i] == r[i - 1]);
                }
            }
        } else {
            lemma_magic_offsets_increasing(raw, cursor + 1);
            assert(magic_offsets_from(raw, cursor) == magic_offsets_from(raw, cursor + 1));
        }
    } else {
        assert(magic_offsets_from(raw, cursor).len() == 0);
    }
}

// ---------------------------------------------------------------------------
// Headers.

/// The padding byte a standard (0x200-byte) header at `off` is filled
/// with, if it has one: the tail after the 0x20-byte fields must be all
/// that byte, which is the uniform byte of 0x20..0x40, else that of the
/// reserved field at 0x1c..0x20, else 0xFF.
pub open spec fn standard_padding_of(raw: Seq<u8>, off: int) -> Option<u8> {
    if off + 0x200 > raw.len() {
        None
    } else {
        let expected = standard_expected(raw, off);
        if forall|i: int| off + 32 <= i < off + 0x200 ==> raw[i] == expected {
            Some(expected)
        } else {
            None
        }
    }
}

/// The byte a standard header's tail should be filled with.
pub open spec fn standard_expected(raw: Seq<u8>, off: int) -> u8 {
    match uniform_of(raw.subrange(off + 32, off + 64)) {
        Some(b) => b,
        None => match uniform_of(raw.subrange(off + 28, off + 32)) {
            Some(b) => b,
            None => 0xffu8,
        },
    }
}

pub fn standard_padding(raw: &[u8], off: usize) -> (r: Option<u8>)
    ensures
        r == standard_padding_of(raw@, off as int),
{
    if off > raw.len() || raw.len() - off < 0x200 {
        return None;
    }
    let field = uniform_byte(raw, off + 28, off + 32);
    let short_tail = uniform_byte(raw, off + 32, off + 64);
    let expected = match short_tail {
        Some(b) => b,
        None => match field {
            Some(b) => b,
            None => 0xff,
        },
    };
    let end = off + 0x200;
    let mut i: usize = off + 32;
    while i < end
        invariant
            end == off + 0x200,
            end <= raw@.len(),
            off + 32 <= i <= end,
            expected == standard_expected(raw@, off as int),
            forall|k: int| off + 32 <= k < i ==> raw@[k] == expected,
        decreases end - i,
    {
        if raw[i] != expected {
            return None;
        }
        i = i + 1;
    }
    Some(expected)
}

/// What the loader records of a payload.
#[derive(Debug, Clone)]
pub struct PayloadDetails {
    pub kind: OemInfoPayloadKind,
    pub text_preview: Option<String>,
    pub tlv_parts: usize,
    pub tlv_description: Option<String>,
    pub image_version_hex: Option<String>,
    pub image_random_adjust: Option<u32>,
}

pub struct PayloadView {
    pub kind: OemInfoPayloadKind,
    pub text_preview: Option<Seq<char>>,
    pub tlv_parts: int,
    pub tlv_description: Option<Seq<char>>,
    pub image_version_hex: Option<Seq<char>>,
    pub image_random_adjust: Option<u32>,
}

pub open spec fn opt_str(o: Option<String>) -> Option<Seq<char>> {
    match o {
        Some(s) => Some(s@),
        None => None,
    }
}

impl View for PayloadDetails {
    type V = PayloadView;

    open spec fn view(&self) -> PayloadView {
        PayloadView {
            kind: self.kind,
            text_preview: opt_str(self.text_preview),
            tlv_parts: self.tlv_parts as int,
            tlv_description: opt_str(self.tlv_description),
            image_version_hex: opt_str(self.image_version_hex),
            image_random_adjust: self.image_random_adjust,
        }
    }
}

pub open spec fn raw_payload_view(preview: Option<Seq<char>>) -> PayloadView {
    PayloadView {
        kind: OemInfoPayloadKind::Raw,
        text_preview: preview,
        tlv_parts: 0,
        tlv_description: None,
        image_version_hex: None,
        image_random_adjust: None,
    }
}

/// A block as found in the image.
#[derive(Debug, Clone)]
pub struct ParsedBlock {
    pub offset: usize,
    pub version: u32,
    pub id: u32,
    pub sub_id: u32,
    pub length: u32,
    pub age: u32,
    pub header_size: usize,
    pub layout: OemInfoLayout,
    pub region: OemInfoRegion,
    pub active: bool,
    pub payload: PayloadDetails,
    pub header_padding_byte: u8,
    pub block_padding_byte: u8,
}

pub struct BlockView {
    pub offset: int,
    pub version: u32,
    pub id: u32,
    pub sub_id: u32,
    pub length: u32,
    pub age: u32,
    pub header_size: int,
    pub layout: OemInfoLayout,
    pub region: OemInfoRegion,
    pub active: bool,
    pub payload: PayloadView,
    pub header_padding_byte: u8,
    pub block_padding_byte: u8,
}

impl View for ParsedBlock {
    type V = BlockView;

    open spec fn view(&self) -> BlockView {
        BlockView {
            offset: self.offset as int,
            version: self.version,
            id: self.id,
            sub_id: self.sub_id,
            length: self.length,
            age: self.age,
            header_size: self.header_size as int,
            layout: self.layout,
            region: self.region,
            active: self.active,
            payload: self.payload@,
            header_padding_byte: self.header_padding_byte,
            block_padding_byte: self.block_padding_byte,
        }
    }
}

/// The block whose header is at `off`, as first read: region unknown,
/// active, payload not yet classified. `None` where the header is cut off,
/// the magic is missing, the version is 0 or above 0x10000, or the payload
/// runs past the end even with the short header.
pub open spec fn header_at(raw: Seq<u8>, off: int) -> Option<BlockView> {
    if off < 0 || off + 0x20 > raw.len() || raw.subrange(off, off + 8) != oem_magic() {
        None
    } else {
        let version = le_u32_at(raw, off + 8);
        let length = le_u32_at(raw, off + 20);
        if version == 0 || version > MAX_PLAUSIBLE_VERSION {
            None
        } else {
            let field = uniform_of(raw.subrange(off + 28, off + 32));
            let short_tail = if off + 0x40 <= raw.len() {
                uniform_of(raw.subrange(off + 32, off + 64))
            } else {
                None
            };
            let derived = match short_tail {
                Some(b) => Some(b),
                None => field,
            };
            let (hs0, layout0, pad) = match standard_padding_of(raw, off) {
                Some(p) => (
                    0x200int,
                    if off % 0x1000 == 0 {
                        OemInfoLayout::Standard
                    } else {
                        OemInfoLayout::StandardCompact
                    },
                    p,
                ),
                None => (
                    0x40int,
                    OemInfoLayout::Reused,
                    match derived {
                        Some(b) => b,
                        None => 0u8,
                    },
                ),
            };
            let (hs, layout) = if off + hs0 + length > raw.len() && layout0 != OemInfoLayout::Reused {
                (0x40int, OemInfoLayout::Reused)
            } else {
                (hs0, layout0)
            };
            if off + hs0 + length > usize::MAX || off + hs + length > raw.len() {
                None
            } else {
                Some(
                    BlockView {
                        offset: off,
                        version,
                        id: le_u32_at(raw, off + 12),
                        sub_id: le_u32_at(raw, off + 16),
                        length,
                        age: le_u32_at(raw, off + 24),
                        header_size: hs,
                        layout,
                        region: OemInfoRegion::Unknown,
                        active: true,
                        payload: raw_payload_view(None),
                        header_padding_byte: pad,
                        block_padding_byte: pad,
                    },
                )
            }
        }
    }
}

/// Reads the block header at `off`.
pub fn parse_header(raw: &[u8], off: usize) -> (r: Option<ParsedBlock>)
    ensures
        match header_at(raw@, off as int) {
            None => r is None,
            Some(b) => r matches Some(p) && p@ == b,
        },
{
    if off > raw.len() || raw.len() - off < 0x20 || !magic_here(raw, off) {
        return None;
    }
    let version = le_u32(raw, off + 8);
    if version == 0 || version > MAX_PLAUSIBLE_VERSION {
        return None;
    }
    let id = le_u32(raw, off + 12);
    let sub_id = le_u32(raw, off + 16);
    let length = le_u32(raw, off + 20);
    let age = le_u32(raw, off + 24);
    let field = uniform_byte(raw, off + 28, off + 32);
    let short_tail = if raw.len() - off >= 0x40 {
        uniform_byte(raw, off + 32, off + 64)
    } else {
        None
    };
    let derived = match short_tail {
        Some(b) => Some(b),
        None => field,
    };
    let (hs0, layout0, pad): (usize, OemInfoLayout, u8) = match standard_padding(raw, off) {
        Some(p) => (
            0x200,
            if off % 0x1000 == 0 {
                OemInfoLayout::Standard
            } else {
                OemInfoLayout::StandardCompact
            },
            p,
        ),
        None => (
            0x40,
            OemInfoLayout::Reused,
            match derived {
                Some(b) => b,
                None => 0,
            },
        ),
    };
    if off > usize::MAX - hs0 || off + hs0 > usize::MAX - length as usize {
        return None;
    }
    let end0 = off + hs0 + length as usize;
    let (hs, layout) = if end0 > raw.len() && layout0 != OemInfoLayout::Reused {
        (0x40usize, OemInfoLayout::Reused)
    } else {
        (hs0, layout0)
    };
    if off + hs + length as usize > raw.len() {
        return None;
    }
    Some(
        ParsedBlock {
            offset: off,
            version,
            id,
            sub_id,
            length,
            age,
            header_size: hs,
            layout,
            region: OemInfoRegion::Unknown,
            active: true,
            payload: PayloadDetails {
                kind: OemInfoPayloadKind::Raw,
                text_preview: None,
                tlv_parts: 0,
                tlv_description: None,
                image_version_hex: None,
                image_random_adjust: None,
            },
            header_padding_byte: pad,
            block_padding_byte: pad,
        },
    )
}

/// Whether a header at `off` of `prefix` (at `absolute` in a file of
/// `file_size` bytes) looks real: a plausible version, the reserved field
/// and the short tail filled with one same byte, and the block ending
/// inside the file.
pub open spec fn probe_header_of(prefix: Seq<u8>, off: int, absolute: int, file_size: int) -> bool {
    if off < 0 || off + 0x40 > prefix.len() {
        false
    } else {
        let version = le_u32_at(prefix, off + 8);
        let field = uniform_of(prefix.subrange(off + 28, off + 32));
        let tail = uniform_of(prefix.subrange(off + 32, off + 64));
        if version == 0 || version > MAX_PLAUSIBLE_VERSION || !(field is Some && tail is Some && field
            == tail) {
            false
        } else {
            let length = le_u32_at(prefix, off + 20);
            let hs = if off + 0x200 <= prefix.len() && standard_padding_of(prefix, off) is Some {
                0x200int
            } else {
                0x40int
            };
            absolute + hs <= u64::MAX && absolute + hs + length <= u64::MAX && absolute + hs
                + length <= file_size
        }
    }
}

pub fn probe_header(prefix: &[u8], off: usize, absolute: u64, file_size: u64) -> (r: bool)
    ensures
        r == probe_header_of(prefix@, off as int, absolute as int, file_size as int),
{
    if off > prefix.len() || prefix.len() - off < 0x40 {
        return false;
    }
    let version = le_u32(prefix, off + 8);
    let field = uniform_byte(prefix, off + 28, off + 32);
    let tail = uniform_byte(prefix, off + 32, off + 64);
    let same = match (field, tail) {
        (Some(f), Some(t)) => f == t,
        _ => false,
    };
    if version == 0 || version > MAX_PLAUSIBLE_VERSION || !same {
        return false;
    }
    let length = le_u32(prefix, off + 20);
    let hs: u64 = if prefix.len() - off >= 0x200 && standard_padding(prefix, off).is_some() {
        0x200
    } else {
        0x40
    };
    if absolute > u64::MAX - hs || absolute + hs > u64::MAX - length as u64 {
        return false;
    }
    absolute + hs + length as u64 <= file_size
}

/// Whether any header found in `window` (which starts at `window_offset`
/// of a file of `file_size` bytes) passes `probe_header`.
pub fn probe_window(window: &[u8], window_offset: u64, file_size: u64) -> (r: bool)
    requires
        window_offset + window@.len() <= u64::MAX,
    ensures
        r == exists|i: int|
            0 <= i < magic_offsets_from(window@, 0).len() && #[trigger] probe_header_of(
                window@,
                magic_offsets_from(window@, 0)[i],
                window_offset + magic_offsets_from(window@, 0)[i],
                file_size as int,
            ),
{
    let offs = find_magic_offsets(window);
    let ghost m = magic_offsets_from(window@, 0);
    proof {
        lemma_magic_offsets_increasing(window@, 0);
    }
    let mut i: usize = 0;
    while i < offs.len()
        invariant
            i <= offs@.len(),
            usize_seq(offs@) == m,
            m == magic_offsets_from(window@, 0),
            window_offset + window@.len() <= u64::MAX,
            forall|k: int| 0 <= k < m.len() ==> 0 <= m[k] && m[k] + 8 <= window@.len(),
            forall|k: int|
                0 <= k < i ==> !probe_header_of(
                    window@,
                    m[k],
                    window_offset + m[k],
                    file_size as int,
                ),
        decreases offs@.len() - i,
    {
        let off = offs[i];
        proof {
            assert(m[i as int] == off as int);
        }
        if probe_header(window, off, window_offset + off as u64, file_size) {
            return true;
        }
        i = i + 1;
    }
    false
}

// ---------------------------------------------------------------------------
// Payload text.

/// Printable ASCII, tab, line feed or carriage return.
pub open spec fn printable(b: u8) -> bool {
    (0x20 <= b <= 0x7e) || b == 9 || b == 10 || b == 13
}

/// Allowed in text: printable, or, when not `strict`, a NUL or 0xFF pad.
pub open spec fn text_ok(b: u8, strict: bool) -> bool {
    printable(b) || (!strict && (b == 0 || b == 0xff))
}

/// How many bytes are not allowed in text.
pub open spec fn invalid_count(d: Seq<u8>, strict: bool) -> nat
    decreases d.len(),
{
    if d.len() == 0 {
        0
    } else {
        invalid_count(d.drop_last(), strict) + if text_ok(d.last(), strict) {
            0nat
        } else {
            1nat
        }
    }
}

/// Text: non-empty, with at most 5% of its bytes not allowed.
pub open spec fn is_ascii_of(d: Seq<u8>, strict: bool) -> bool {
    d.len() > 0 && invalid_count(d, strict) * 100 <= d.len() * 5
}

proof fn lemma_invalid_count_bound(d: Seq<u8>, strict: bool)
    ensures
        invalid_count(d, strict) <= d.len(),
    decreases d.len(),
{
    if d.len() > 0 {
        lemma_invalid_count_bound(d.drop_last(), strict);
    }
}

/// `is_ascii_of` over `d[start..end]`.
pub fn is_ascii(d: &[u8], start: usize, end: usize, strict: bool) -> (r: bool)
    requires
        start <= end <= d@.len(),
    ensures
        r == is_ascii_of(d@.subrange(start as int, end as int), strict),
{
    let ghost s = d@.subrange(start as int, end as int);
    if start == end {
        return false;
    }
    let mut invalid: u64 = 0;
    let mut i: usize = start;
    while i < end
        invariant
            start <= i <= end <= d@.len(),
            s == d@.subrange(start as int, end as int),
            invalid == invalid_count(s.subrange(0, i - start), strict),
            invalid <= i - start,
        decreases end - i,
    {
        proof {
            assert(s.subrange(0, i + 1 - start).drop_last() =~= s.subrange(0, i - start));
            lemma_invalid_count_bound(s.subrange(0, i - start), strict);
        }
        let b = d[i];
        let ok = (0x20 <= b && b <= 0x7e) || b == 9 || b == 10 || b == 13 || (!strict && (b == 0
            || b == 0xff));
        if !ok {
            invalid = invalid + 1;
        }
        i = i + 1;
    }
    proof {
        assert(s.subrange(0, end - start) =~= s);
    }
    (invalid as u128) * 100 <= ((end - start) as u128) * 5
}

/// Text with pads only: non-empty and every byte allowed, pads included.
pub open spec fn padded_text_of(d: Seq<u8>) -> bool {
    d.len() > 0 && forall|i: int| 0 <= i < d.len() ==> text_ok(#[trigger] d[i], false)
}

pub fn ascii_with_padding_only(d: &[u8], start: usize, end: usize) -> (r: bool)
    requires
        start <= end <= d@.len(),
    ensures
        r == padded_text_of(d@.subrange(start as int, end as int)),
{
    let ghost s = d@.subrange(start as int, end as int);
    if start == end {
        return false;
    }
    let mut i: usize = start;
    while i < end
        invariant
            start <= i <= end <= d@.len(),
            s == d@.subrange(start as int, end as int),
            forall|k: int| 0 <= k < i - start ==> text_ok(#[trigger] s[k], false),
        decreases end - i,
    {
        let b = d[i];
        if !((0x20 <= b && b <= 0x7e) || b == 9 || b == 10 || b == 13 || b == 0 || b == 0xff) {
            proof {
                assert(!text_ok(s[i - start], false));
            }
            return false;
        }
        i = i + 1;
    }
    true
}

/// A byte as shown in a preview: itself if printable (or a tab), else `\xNN`.
pub open spec fn preview_of_byte(b: u8) -> Seq<char> {
    if (0x20 <= b <= 0x7e) || b == 9 {
        seq![b as char]
    } else {
        seq!['\\', 'x', hex_digit_lower(b / 16), hex_digit_lower(b % 16)]
    }
}

pub open spec fn preview_bytes(d: Seq<u8>) -> Seq<char>
    decreases d.len(),
{
    if d.len() == 0 {
        seq![]
    } else {
        preview_bytes(d.drop_last()) + preview_of_byte(d.last())
    }
}

/// The preview of `d`: its first 100 bytes shown, then `...` if there is more.
pub open spec fn sanitize_of(d: Seq<u8>) -> Seq<char> {
    if d.len() > 100 {
        preview_bytes(d.subrange(0, 100)) + seq!['.', '.', '.']
    } else {
        preview_bytes(d)
    }
}

pub fn sanitize_preview(d: &[u8], start: usize, end: usize) -> (r: String)
    requires
        start <= end <= d@.len(),
    ensures
        r@ == sanitize_of(d@.subrange(start as int, end as int)),
{
    let ghost s = d@.subrange(start as int, end as int);
    let stop = if end - start > 100 {
        start + 100
    } else {
        end
    };
    let mut out: Vec<char> = Vec::new();
    let mut i: usize = start;
    while i < stop
        invariant
            start <= i <= stop <= end <= d@.len(),
            s == d@.subrange(start as int, end as int),
            out@ == preview_bytes(s.subrange(0, i - start)),
        decreases stop - i,
    {
        proof {
            assert(s.subrange(0, i + 1 - start).drop_last() =~= s.subrange(0, i - start));
        }
        let b = d[i];
        if (0x20 <= b && b <= 0x7e) || b == 9 {
            out.push(b as char);
        } else {
            out.push('\\');
            out.push('x');
            out.push(hex_digit(b / 16, false));
            out.push(hex_digit(b % 16, false));
        }
        proof {
            assert(out@ =~= preview_bytes(s.subrange(0, i - start)) + preview_of_byte(s[i - start]));
        }
        i = i + 1;
    }
    if end - start > 100 {
        out.push('.');
        out.push('.');
        out.push('.');
    } else {
        proof {
            assert(s.subrange(0, end - start) =~= s);
        }
    }
    string_of(out.as_slice())
}

// ---------------------------------------------------------------------------
// TLV payloads: `<decimal length>\0<value>` repeated, then pads.

pub open spec fn pad_byte(b: u8) -> bool {
    b == 0 || b == 0xff
}

pub open spec fn pads_from(d: Seq<u8>, c: int) -> bool {
    forall|i: int| c <= i < d.len() ==> pad_byte(#[trigger] d[i])
}

pub open spec fn is_digit(b: u8) -> bool {
    0x30 <= b <= 0x39
}

pub open spec fn all_digits(s: Seq<u8>) -> bool {
    forall|i: int| 0 <= i < s.len() ==> is_digit(#[trigger] s[i])
}

/// The value of ASCII decimal digits.
pub open spec fn dec_value(d: Seq<u8>) -> int
    decreases d.len(),
{
    if d.len() == 0 {
        0
    } else {
        dec_value(d.drop_last()) * 10 + (d.last() - 0x30)
    }
}

/// The first NUL in `d[from..to]`.
pub open spec fn first_zero(d: Seq<u8>, from: int, to: int) -> Option<int>
    decreases to - from,
{
    if from >= to {
        None
    } else if d[from] == 0 {
        Some(from)
    } else {
        first_zero(d, from + 1, to)
    }
}

/// The TLV parts from `c` on, as (start, end) ranges of their values.
pub open spec fn tlv_from(d: Seq<u8>, c: int, acc: Seq<(int, int)>) -> Option<Seq<(int, int)>>
    decreases d.len() - c,
{
    if c < 0 || c > d.len() {
        None
    } else if c < d.len() && !(pad_byte(d[c]) && pads_from(d, c)) {
        let to = if c + 4 < d.len() {
            c + 4
        } else {
            d.len() as int
        };
        match first_zero(d, c, to) {
            None => None,
            Some(null) => {
                let digits = d.subrange(c, null);
                if digits.len() == 0 || digits.len() > 3 || !all_digits(digits) {
                    None
                } else {
                    let end = null + 1 + dec_value(digits);
                    if end > d.len() || end <= c {
                        None
                    } else {
                        tlv_from(d, end, acc.push((null + 1, end)))
                    }
                }
            },
        }
    } else if acc.len() == 0 || !pads_from(d, c) {
        None
    } else {
        Some(acc)
    }
}

proof fn lemma_first_zero(d: Seq<u8>, from: int, to: int)
    requires
        0 <= from,
        to <= d.len(),
    ensures
        first_zero(d, from, to) matches Some(z) ==> from <= z < to && d[z] == 0 && forall|k: int|
            from <= k < z ==> d[k] != 0,
        first_zero(d, from, to) is None ==> forall|k: int| from <= k < to ==> d[k] != 0,
    decreases to - from,
{
    if from < to && d[from] != 0 {
        lemma_first_zero(d, from + 1, to);
    }
}

proof fn lemma_dec_value_bound(d: Seq<u8>)
    requires
        forall|i: int| 0 <= i < d.len() ==> is_digit(#[trigger] d[i]),
    ensures
        0 <= dec_value(d) < crate::text::pow10(d.len() as int),
    decreases d.len(),
{
    if d.len() > 0 {
        assert forall|i: int| 0 <= i < d.drop_last().len() implies is_digit(#[trigger] d.drop_last()[i]) by {
            assert(d.drop_last()[i] == d[i]);
        }
        lemma_dec_value_bound(d.drop_last());
        assert(is_digit(d[d.len() - 1]));
        assert(crate::text::pow10(d.len() as int) == 10 * crate::text::pow10(d.len() - 1));
    }
}

/// The value of the digits `d[start..end]`, at most three of them.
fn parse_decimal(d: &[u8], start: usize, end: usize) -> (r: usize)
    requires
        start <= end <= d@.len(),
        end - start <= 3,
        forall|i: int| start <= i < end ==> is_digit(#[trigger] d@[i]),
    ensures
        r == dec_value(d@.subrange(start as int, end as int)),
        r < 1000,
{
    let ghost s = d@.subrange(start as int, end as int);
    let mut v: usize = 0;
    let mut i: usize = start;
    while i < end
        invariant
            start <= i <= end <= d@.len(),
            end - start <= 3,
            s == d@.subrange(start as int, end as int),
            forall|k: int| start <= k < end ==> is_digit(#[trigger] d@[k]),
            v == dec_value(s.subrange(0, i - start)),
            v < crate::text::pow10(i - start),
        decreases end - i,
    {
        proof {
            assert(s.subrange(0, i + 1 - start).drop_last() =~= s.subrange(0, i - start));
            assert(is_digit(d@[i as int]));
            assert(crate::text::pow10(i + 1 - start) == 10 * crate::text::pow10(i - start));
            assert(crate::text::pow10(3) == 1000) by {
                reveal_with_fuel(crate::text::pow10, 4);
            }
            assert(crate::text::pow10(i - start) <= 100) by {
                reveal_with_fuel(crate::text::pow10, 4);
            }
        }
        v = v * 10 + (d[i] - 0x30) as usize;
        i = i + 1;
    }
    proof {
        assert(s.subrange(0, end - start) =~= s);
        assert(crate::text::pow10(end - start) <= 1000) by {
            reveal_with_fuel(crate::text::pow10, 4);
        }
    }
    v
}

pub open spec fn ranges_of(v: Seq<(usize, usize)>) -> Seq<(int, int)> {
    v.map_values(|p: (usize, usize)| (p.0 as int, p.1 as int))
}

/// Splits a TLV payload into its values, as ranges of `d`.
#[verifier::loop_isolation(false)]
pub fn parse_tlv(d: &[u8]) -> (r: Option<Vec<(usize, usize)>>)
    ensures
        match tlv_from(d@, 0, seq![]) {
            None => r is None,
            Some(parts) => r matches Some(v) && ranges_of(v@) == parts,
        },
{
    let len = d.len();
    let mut parts: Vec<(usize, usize)> = Vec::new();
    let mut c: usize = 0;
    proof {
        assert(ranges_of(parts@) =~= Seq::<(int, int)>::empty());
    }
    while c < len
        invariant
            c <= len,
            len == d@.len(),
            tlv_from(d@, 0, seq![]) == tlv_from(d@, c as int, ranges_of(parts@)),
        decreases len - c,
    {
        let b = d[c];
        if b == 0 || b == 0xff {
            let mut k: usize = c;
            while k < len && (d[k] == 0 || d[k] == 0xff)
                invariant
                    c <= k <= len,
                    len == d@.len(),
                    forall|j: int| c <= j < k ==> pad_byte(#[trigger] d@[j]),
                decreases len - k,
            {
                k = k + 1;
            }
            if k == len {
                proof {
                    assert(pads_from(d@, c as int));
                }
                if parts.len() == 0 {
                    return None;
                }
                return Some(parts);
            }
            proof {
                assert(!pad_byte(d@[k as int]));
                assert(!pads_from(d@, c as int));
            }
        }
        assert(!(pad_byte(d@[c as int]) && pads_from(d@, c as int)));
        let to = if len - c > 4 {
            c + 4
        } else {
            len
        };
        let mut z: usize = c;
        while z < to && d[z] != 0
            invariant
                c <= z <= to <= len,
                len == d@.len(),
                first_zero(d@, c as int, to as int) == first_zero(d@, z as int, to as int),
            decreases to - z,
        {
            z = z + 1;
        }
        if z == to {
            return None;
        }
        proof {
            lemma_first_zero(d@, c as int, to as int);
        }
        let ghost digits = d@.subrange(c as int, z as int);
        if z == c || z - c > 3 {
            return None;
        }
        let mut k: usize = c;
        while k < z
            invariant
                c <= k <= z < len,
                len == d@.len(),
                forall|j: int| c <= j < k ==> is_digit(#[trigger] d@[j]),
            decreases z - k,
        {
            if !(0x30 <= d[k] && d[k] <= 0x39) {
                proof {
                    assert(!is_digit(digits[k - c]));
                    assert(first_zero(d@, c as int, to as int) == Some(z as int));
                    assert(!all_digits(digits));
                }
                return None;
            }
            k = k + 1;
        }
        proof {
            assert forall|i: int| 0 <= i < digits.len() implies is_digit(#[trigger] digits[i]) by {
                assert(digits[i] == d@[c + i]);
            }
        }
        let l = parse_decimal(d, c, z);
        let start = z + 1;
        if l > len - start {
            return None;
        }
        let end = start + l;
        let ghost before = ranges_of(parts@);
        parts.push((start, end));
        proof {
            assert(ranges_of(parts@) =~= before.push((start as int, end as int)));
        }
        c = end;
    }
    if parts.len() == 0 {
        return None;
    }
    Some(parts)
}

/// Where the digits before the NUL at `null` start, stepping back over at
/// most three ASCII digits.
pub open spec fn digit_start(d: Seq<u8>, null: int, start: int) -> int
    decreases start,
{
    if start > 0 && null - start < 3 && is_digit(d[start - 1]) {
        digit_start(d, null, start - 1)
    } else {
        start
    }
}

/// Searching the NULs below `k` from the top: the start of the first
/// `<digits>\0` whose length runs exactly to the end of `d`.
pub open spec fn tail_tlv_below(d: Seq<u8>, k: int) -> Option<int>
    decreases k,
{
    if k <= 1 || k > d.len() {
        None
    } else {
        let null = k - 1;
        let start = digit_start(d, null, null);
        if d[null] != 0 || start == null || (start > 0 && is_digit(d[start - 1])) {
            tail_tlv_below(d, k - 1)
        } else if dec_value(d.subrange(start, null)) == d.len() - (null + 1) {
            Some(start)
        } else {
            tail_tlv_below(d, k - 1)
        }
    }
}

/// The start of a trailing `<length>\0<value>` whose value runs to the end.
pub open spec fn tail_tlv_of(d: Seq<u8>) -> Option<int> {
    if d.len() < 3 {
        None
    } else {
        tail_tlv_below(d, d.len() as int)
    }
}

proof fn lemma_digit_start(d: Seq<u8>, null: int, start: int)
    requires
        0 <= start <= null < d.len(),
        null - start <= 3,
        forall|i: int| start <= i < null ==> is_digit(#[trigger] d[i]),
    ensures
        0 <= digit_start(d, null, start) <= start,
        null - digit_start(d, null, start) <= 3,
        forall|i: int| digit_start(d, null, start) <= i < null ==> is_digit(#[trigger] d[i]),
    decreases start,
{
    if start > 0 && null - start < 3 && is_digit(d[start - 1]) {
        lemma_digit_start(d, null, start - 1);
    }
}

pub fn find_tail_tlv(d: &[u8]) -> (r: Option<usize>)
    ensures
        match tail_tlv_of(d@) {
            None => r is None,
            Some(s) => r == Some(s as usize),
        },
{
    let len = d.len();
    if len < 3 {
        return None;
    }
    let mut k: usize = len;
    while k > 1
        invariant
            k <= len,
            len == d@.len(),
            len >= 3,
            tail_tlv_of(d@) == tail_tlv_below(d@, k as int),
        decreases k,
    {
        let null = k - 1;
        if d[null] == 0 {
            let mut start: usize = null;
            while start > 0 && null - start < 3 && 0x30 <= d[start - 1] && d[start - 1] <= 0x39
                invariant
                    start <= null < len,
                    len == d@.len(),
                    null - start <= 3,
                    forall|i: int| start <= i < null ==> is_digit(#[trigger] d@[i]),
                    digit_start(d@, null as int, null as int) == digit_start(d@, null as int, start as int),
                decreases start,
            {
                start = start - 1;
            }
            let blocked = start > 0 && 0x30 <= d[start - 1] && d[start - 1] <= 0x39;
            if start != null && !blocked {
                let l = parse_decimal(d, start, null);
                if l == len - (null + 1) {
                    return Some(start);
                }
            }
        }
        k = k - 1;
    }
    None
}

/// The image header a payload may start with: data offset 0x1a, an end
/// offset that less the random adjustment is the payload length, and a
/// gzip or BMP signature at 24..28.
pub open spec fn image_of(p: Seq<u8>) -> Option<PayloadView> {
    if p.len() < 28 || le_u32_at(p, 0) != IMAGE_DATA_OFFSET {
        None
    } else {
        let end = le_u32_at(p, 4);
        let ra = le_u32_at(p, 8);
        if end < ra || end - ra != p.len() {
            None
        } else {
            let sig = p.subrange(24, 28);
            let kind = if sig == seq![0u8, 0, 0x1f, 0x8b] {
                Some(OemInfoPayloadKind::ImageGzip)
            } else if sig == seq![0u8, 0, 0x42, 0x4d] {
                Some(OemInfoPayloadKind::ImageRaw)
            } else {
                None
            };
            match kind {
                None => None,
                Some(k) => Some(
                    PayloadView {
                        kind: k,
                        text_preview: None,
                        tlv_parts: 0,
                        tlv_description: None,
                        image_version_hex: Some(hex_encode(p.subrange(12, 24), true)),
                        image_random_adjust: Some(ra),
                    },
                ),
            }
        }
    }
}

/// The image kind a four-byte signature names.
pub open spec fn image_kind_of(sig: Seq<u8>) -> Option<OemInfoPayloadKind> {
    if sig == seq![0u8, 0, 0x1f, 0x8b] {
        Some(OemInfoPayloadKind::ImageGzip)
    } else if sig == seq![0u8, 0, 0x42, 0x4d] {
        Some(OemInfoPayloadKind::ImageRaw)
    } else {
        None
    }
}

fn image_kind(d: &[u8], at: usize) -> (r: Option<OemInfoPayloadKind>)
    requires
        at + 4 <= d@.len(),
    ensures
        r == image_kind_of(d@.subrange(at as int, at + 4)),
{
    let _len = d.len();
    let s = vstd::slice::slice_subrange(d, at, at + 4);
    proof {
        assert(s@ == d@.subrange(at as int, at + 4));
    }
    if s[0] == 0 && s[1] == 0 && s[2] == 0x1f && s[3] == 0x8b {
        proof {
            assert(s@ =~= seq![0u8, 0, 0x1f, 0x8b]);
        }
        Some(OemInfoPayloadKind::ImageGzip)
    } else if s[0] == 0 && s[1] == 0 && s[2] == 0x42 && s[3] == 0x4d {
        proof {
            assert(s@ =~= seq![0u8, 0, 0x42, 0x4d]);
            assert(s@ != seq![0u8, 0, 0x1f, 0x8b]);
        }
        Some(OemInfoPayloadKind::ImageRaw)
    } else {
        proof {
            if s@ == seq![0u8, 0, 0x1f, 0x8b] {
                assert(s@[2] == 0x1f);
            }
            if s@ == seq![0u8, 0, 0x42, 0x4d] {
                assert(s@[2] == 0x42);
            }
        }
        None
    }
}

pub fn classify_image(p: &[u8]) -> (r: Option<PayloadDetails>)
    ensures
        match image_of(p@) {
            None => r is None,
            Some(v) => r matches Some(x) && x@ == v,
        },
{
    if p.len() < 28 || le_u32(p, 0) as usize != IMAGE_DATA_OFFSET {
        return None;
    }
    let end = le_u32(p, 4);
    let ra = le_u32(p, 8);
    if end < ra || (end - ra) as usize != p.len() {
        return None;
    }
    let kind = match image_kind(p, 24) {
        Some(k) => k,
        None => return None,
    };
    proof {
        assert(image_kind_of(p@.subrange(24, 28)) == Some(kind));
    }
    let hex = hex_string(vstd::slice::slice_subrange(p, 12, 24), true);
    Some(
        PayloadDetails {
            kind,
            text_preview: None,
            tlv_parts: 0,
            tlv_description: None,
            image_version_hex: Some(hex),
            image_random_adjust: Some(ra),
        },
    )
}

/// The label of TLV part `i`: the first part as `ASCII` or `RAW`, a
/// 256-byte part that is neither all 0x00 nor all 0xFF as `SIGN`, the last
/// part as `RANDOM`, any other as `PART`.
pub open spec fn tlv_label(p: Seq<u8>, parts: Seq<(int, int)>, i: int) -> Seq<char> {
    let part = p.subrange(parts[i].0, parts[i].1);
    if i == 0 {
        if is_ascii_of(part, true) {
            "ASCII"@
        } else {
            "RAW"@
        }
    } else if part.len() == SIGNATURE_SIZE && uniform_of(part) != Some(0u8) && uniform_of(part)
        != Some(0xffu8) {
        "SIGN"@
    } else if i + 1 == parts.len() {
        "RANDOM"@
    } else {
        "PART"@
    }
}

/// The labels of the first `n` parts joined by `+`.
pub open spec fn tlv_desc(p: Seq<u8>, parts: Seq<(int, int)>, n: int) -> Seq<char>
    decreases n,
{
    if n <= 0 {
        seq![]
    } else if n == 1 {
        tlv_label(p, parts, 0)
    } else {
        tlv_desc(p, parts, n - 1) + seq!['+'] + tlv_label(p, parts, n - 1)
    }
}

/// Whether the payload of a signed block looks like it has a signature,
/// given how its entropy was judged.
pub struct EntropyJudgment {
    pub data_high: bool,
    pub signature_high: bool,
}

/// A raw payload, with a preview when it reads as text.
pub open spec fn raw_fallback(p: Seq<u8>) -> PayloadView {
    raw_payload_view(
        if is_ascii_of(p, false) || padded_text_of(p) {
            Some(sanitize_of(p))
        } else {
            None
        },
    )
}

/// How much of the payload precedes a trailing random value: the start of
/// the trailing `<length>\0<value>` if one is found after more than 256
/// bytes, else the whole payload; and whether one was found.
pub open spec fn signed_extent(p: Seq<u8>) -> (int, bool) {
    match tail_tlv_of(p) {
        Some(st) => if st <= SIGNATURE_SIZE {
            (p.len() as int, false)
        } else {
            (st, true)
        },
        None => (p.len() as int, false),
    }
}

/// Whether classification gets as far as the signature check; then the
/// entropy of `p[..rem - 256]` and of `p[rem - 256..rem]` is asked for,
/// where `rem` is `signed_extent(p).0`.
pub open spec fn needs_entropy(p: Seq<u8>) -> bool {
    &&& image_of(p) is None
    &&& tlv_from(p, 0, seq![]) is None
    &&& !(is_ascii_of(p, false) && is_ascii_of(p, true))
    &&& signed_extent(p).0 > SIGNATURE_SIZE
}

/// What a payload holds, with the entropy judgments for its data and
/// signature parts (used only where `needs_entropy`).
pub open spec fn classify_of(p: Seq<u8>, data_high: bool, signature_high: bool) -> PayloadView {
    match image_of(p) {
        Some(v) => v,
        None => match tlv_from(p, 0, seq![]) {
            Some(parts) => {
                let first = p.subrange(parts[0].0, parts[0].1);
                PayloadView {
                    kind: OemInfoPayloadKind::Tlv,
                    text_preview: if is_ascii_of(first, false) {
                        Some(sanitize_of(first))
                    } else {
                        None
                    },
                    tlv_parts: parts.len() as int,
                    tlv_description: Some(tlv_desc(p, parts, parts.len() as int)),
                    image_version_hex: None,
                    image_random_adjust: None,
                }
            },
            None => if is_ascii_of(p, false) && is_ascii_of(p, true) {
                PayloadView {
                    kind: OemInfoPayloadKind::Ascii,
                    text_preview: Some(sanitize_of(p)),
                    tlv_parts: 0,
                    tlv_description: None,
                    image_version_hex: None,
                    image_random_adjust: None,
                }
            } else {
                let (rem, random) = signed_extent(p);
                if rem > SIGNATURE_SIZE {
                    let data = p.subrange(0, rem - SIGNATURE_SIZE);
                    let data_ascii = is_ascii_of(data, false);
                    let strict = data_ascii && is_ascii_of(data, true);
                    let has_sig = if random {
                        true
                    } else if !data_ascii && data_high {
                        false
                    } else {
                        signature_high
                    };
                    if has_sig {
                        PayloadView {
                            kind: if strict && random {
                                OemInfoPayloadKind::AsciiSignedRandom
                            } else if strict {
                                OemInfoPayloadKind::AsciiSigned
                            } else if random {
                                OemInfoPayloadKind::RawSignedRandom
                            } else {
                                OemInfoPayloadKind::RawSigned
                            },
                            text_preview: if data_ascii {
                                Some(sanitize_of(data))
                            } else {
                                None
                            },
                            tlv_parts: 0,
                            tlv_description: None,
                            image_version_hex: None,
                            image_random_adjust: None,
                        }
                    } else {
                        raw_fallback(p)
                    }
                } else {
                    raw_fallback(p)
                }
            },
        },
    }
}

/// The description of TLV parts.
fn tlv_description(p: &[u8], parts: &Vec<(usize, usize)>) -> (r: String)
    requires
        parts@.len() > 0,
        forall|i: int|
            0 <= i < parts@.len() ==> #[trigger] parts@[i].0 <= parts@[i].1 <= p@.len(),
    ensures
        r@ == tlv_desc(p@, ranges_of(parts@), parts@.len() as int),
{
    let ghost rs = ranges_of(parts@);
    let mut out: Vec<char> = Vec::new();
    let mut i: usize = 0;
    while i < parts.len()
        invariant
            i <= parts@.len(),
            parts@.len() > 0,
            rs == ranges_of(parts@),
            forall|k: int| 0 <= k < parts@.len() ==> #[trigger] parts@[k].0 <= parts@[k].1 <= p@.len(),
            out@ == tlv_desc(p@, rs, i as int),
        decreases parts@.len() - i,
    {
        let (a, b) = parts[i];
        proof {
            assert(rs[i as int] == (a as int, b as int));
        }
        if i > 0 {
            out.push('+');
        }
        let ghost before = out@;
        if i == 0 {
            if is_ascii(p, a, b, true) {
                push_str_chars(&mut out, "ASCII");
            } else {
                push_str_chars(&mut out, "RAW");
            }
        } else {
            let u = uniform_byte(p, a, b);
            let not_pad = match u {
                Some(x) => x != 0 && x != 0xff,
                None => true,
            };
            if b - a == SIGNATURE_SIZE && not_pad {
                push_str_chars(&mut out, "SIGN");
            } else if i + 1 == parts.len() {
                push_str_chars(&mut out, "RANDOM");
            } else {
                push_str_chars(&mut out, "PART");
            }
        }
        proof {
            assert(out@ == before + tlv_label(p@, rs, i as int));
        }
        i = i + 1;
    }
    string_of(out.as_slice())
}

/// Classifies a payload; the judgments are read only where
/// `needs_entropy(p)`.
pub fn classify_payload(p: &[u8], judgment: &EntropyJudgment) -> (r: PayloadDetails)
    ensures
        r@ == classify_of(p@, judgment.data_high, judgment.signature_high),
{
    let len = p.len();
    if let Some(image) = classify_image(p) {
        return image;
    }
    if let Some(parts) = parse_tlv(p) {
        proof {
            lemma_tlv_ranges(p@, 0, seq![]);
            assert forall|i: int| 0 <= i < parts@.len() implies #[trigger] parts@[i].0 <= parts@[i].1
                <= p@.len() by {
                assert(ranges_of(parts@)[i] == (parts@[i].0 as int, parts@[i].1 as int));
            }
        }
        let (a, b) = parts[0];
        let preview = if is_ascii(p, a, b, false) {
            Some(sanitize_preview(p, a, b))
        } else {
            None
        };
        let desc = tlv_description(p, &parts);
        return PayloadDetails {
            kind: OemInfoPayloadKind::Tlv,
            text_preview: preview,
            tlv_parts: parts.len(),
            tlv_description: Some(desc),
            image_version_hex: None,
            image_random_adjust: None,
        };
    }
    let lenient = is_ascii(p, 0, len, false);
    proof {
        assert(p@.subrange(0, len as int) =~= p@);
    }
    if lenient && is_ascii(p, 0, len, true) {
        return PayloadDetails {
            kind: OemInfoPayloadKind::Ascii,
            text_preview: Some(sanitize_preview(p, 0, len)),
            tlv_parts: 0,
            tlv_description: None,
            image_version_hex: None,
            image_random_adjust: None,
        };
    }
    let (rem, random): (usize, bool) = match find_tail_tlv(p) {
        Some(st) => if st <= SIGNATURE_SIZE {
            (len, false)
        } else {
            (st, true)
        },
        None => (len, false),
    };
    proof {
        lemma_tail_tlv_range(p@, len as int);
    }
    if rem > SIGNATURE_SIZE {
        let cut = rem - SIGNATURE_SIZE;
        let data_ascii = is_ascii(p, 0, cut, false);
        let strict = data_ascii && is_ascii(p, 0, cut, true);
        let has_sig = if random {
            true
        } else if !data_ascii && judgment.data_high {
            false
        } else {
            judgment.signature_high
        };
        if has_sig {
            let kind = if strict && random {
                OemInfoPayloadKind::AsciiSignedRandom
            } else if strict {
                OemInfoPayloadKind::AsciiSigned
            } else if random {
                OemInfoPayloadKind::RawSignedRandom
            } else {
                OemInfoPayloadKind::RawSigned
            };
            let preview = if data_ascii {
                Some(sanitize_preview(p, 0, cut))
            } else {
                None
            };
            return PayloadDetails {
                kind,
                text_preview: preview,
                tlv_parts: 0,
                tlv_description: None,
                image_version_hex: None,
                image_random_adjust: None,
            };
        }
    }
    let preview = if lenient || ascii_with_padding_only(p, 0, len) {
        Some(sanitize_preview(p, 0, len))
    } else {
        None
    };
    PayloadDetails {
        kind: OemInfoPayloadKind::Raw,
        text_preview: preview,
        tlv_parts: 0,
        tlv_description: None,
        image_version_hex: None,
        image_random_adjust: None,
    }
}

/// Where classification of `p` reaches the signature check, the length of
/// the signed part (data and signature): the entropy of `p[..rem - 256]`
/// and of `p[rem - 256..rem]` is then asked for.
pub fn entropy_extent(p: &[u8]) -> (r: Option<usize>)
    ensures
        needs_entropy(p@) ==> r == Some(signed_extent(p@).0 as usize),
        !needs_entropy(p@) ==> r is None,
{
    let len = p.len();
    if classify_image(p).is_some() || parse_tlv(p).is_some() {
        return None;
    }
    proof {
        assert(p@.subrange(0, len as int) =~= p@);
    }
    if is_ascii(p, 0, len, false) && is_ascii(p, 0, len, true) {
        return None;
    }
    let rem = match find_tail_tlv(p) {
        Some(st) => if st <= SIGNATURE_SIZE {
            len
        } else {
            st
        },
        None => len,
    };
    proof {
        lemma_tail_tlv_range(p@, len as int);
    }
    if rem > SIGNATURE_SIZE {
        Some(rem)
    } else {
        None
    }
}

proof fn lemma_tail_tlv_range(d: Seq<u8>, k: int)
    requires
        k <= d.len(),
    ensures
        tail_tlv_below(d, k) matches Some(s) ==> 0 <= s < d.len(),
    decreases k,
{
    if k > 1 && k <= d.len() {
        let null = k - 1;
        if d[null] == 0 {
            lemma_digit_start_range(d, null, null);
        }
        lemma_tail_tlv_range(d, k - 1);
    }
}

proof fn lemma_digit_start_range(d: Seq<u8>, null: int, start: int)
    requires
        0 <= start <= null,
    ensures
        0 <= digit_start(d, null, start) <= start,
    decreases start,
{
    if start > 0 && null - start < 3 && is_digit(d[start - 1]) {
        lemma_digit_start_range(d, null, start - 1);
    }
}

proof fn lemma_tlv_ranges(d: Seq<u8>, c: int, acc: Seq<(int, int)>)
    requires
        forall|i: int| 0 <= i < acc.len() ==> 0 <= #[trigger] acc[i].0 <= acc[i].1 <= d.len(),
    ensures
        tlv_from(d, c, acc) matches Some(parts) ==> parts.len() > 0 && forall|i: int|
            0 <= i < parts.len() ==> 0 <= #[trigger] parts[i].0 <= parts[i].1 <= d.len(),
    decreases d.len() - c,
{
    if 0 <= c < d.len() && !(pad_byte(d[c]) && pads_from(d, c)) {
        let to = if c + 4 < d.len() {
            c + 4
        } else {
            d.len() as int
        };
        lemma_first_zero(d, c, to);
        match first_zero(d, c, to) {
            None => {},
            Some(null) => {
                let digits = d.subrange(c, null);
                if digits.len() > 0 && all_digits(digits) {
                    let end = null + 1 + dec_value(digits);
                    if end <= d.len() && end > c {
                        let acc2 = acc.push((null + 1, end));
                        assert forall|i: int| 0 <= i < acc2.len() implies 0 <= #[trigger] acc2[i].0
                            <= acc2[i].1 <= d.len() by {
                            if i < acc.len() {
                                assert(acc2[i] == acc[i]);
                            }
                            lemma_dec_value_bound(digits);
                        }
                        lemma_tlv_ranges(d, end, acc2);
                    }
                }
            },
        }
    }
}

// ---------------------------------------------------------------------------
// Laying out the blocks.

pub open spec fn blocks_view(v: Seq<ParsedBlock>) -> Seq<BlockView> {
    v.map_values(|b: ParsedBlock| b@)
}

/// The headers found at the given offsets, in order, where they parse.
pub open spec fn candidates(raw: Seq<u8>, offs: Seq<int>) -> Seq<BlockView>
    decreases offs.len(),
{
    if offs.len() == 0 {
        seq![]
    } else {
        let c = candidates(raw, offs.drop_last());
        match header_at(raw, offs.last()) {
            Some(b) => c.push(b),
            None => c,
        }
    }
}

pub open spec fn sat(x: int) -> int {
    if x > usize::MAX {
        usize::MAX as int
    } else {
        x
    }
}

/// Where a block ends: offset, header and payload, saturating.
pub open spec fn block_end(b: BlockView) -> int {
    sat(sat(b.offset + b.header_size) + b.length)
}

/// The blocks kept in order, each starting at or after the end of the last
/// one kept, with that end.
pub open spec fn non_overlapping(bs: Seq<BlockView>) -> (Seq<BlockView>, int)
    decreases bs.len(),
{
    if bs.len() == 0 {
        (seq![], 0)
    } else {
        let (kept, prev) = non_overlapping(bs.drop_last());
        let b = bs.last();
        if b.offset < prev {
            (kept, prev)
        } else {
            (kept.push(b), block_end(b))
        }
    }
}

/// The layout of block `i` once compact blocks are told apart: a standard
/// block followed by another before the 0x1000 boundary after its payload
/// is compact.
pub open spec fn compact_layout(bs: Seq<BlockView>, i: int) -> OemInfoLayout {
    if i + 1 < bs.len() && bs[i].layout == OemInfoLayout::Standard && bs[i + 1].offset
        < align_up_of(sat(sat(bs[i].offset + 0x200) + bs[i].length), 0x1000) {
        OemInfoLayout::StandardCompact
    } else {
        bs[i].layout
    }
}

pub open spec fn with_layout(b: BlockView, l: OemInfoLayout) -> BlockView {
    BlockView { layout: l, ..b }
}

pub open spec fn resolve_compact_of(bs: Seq<BlockView>) -> Seq<BlockView> {
    Seq::new(bs.len(), |i: int| with_layout(bs[i], compact_layout(bs, i)))
}

/// Offsets strictly increasing.
pub open spec fn increasing(bs: Seq<BlockView>) -> bool {
    forall|i: int, j: int| 0 <= i < j < bs.len() ==> #[trigger] bs[i].offset < #[trigger] bs[j].offset
}

pub open spec fn same_group(a: BlockView, b: BlockView) -> bool {
    a.id == b.id && a.sub_id == b.sub_id
}

/// Whether the distance between two blocks of one group could be the
/// region size.
pub open spec fn region_distance_ok(d: int, min_dist: int, file_size: int) -> bool {
    d >= min_dist && d % 0x1000 == 0 && sat(d * 2) <= file_size
}

/// The qualifying distances from block `i` to the blocks `i+1..j`.
pub open spec fn row_dists(bs: Seq<BlockView>, i: int, j: int, min_dist: int, fs: int) -> Seq<int>
    decreases j - i,
{
    if j <= i + 1 {
        seq![]
    } else {
        let r = row_dists(bs, i, j - 1, min_dist, fs);
        let d = bs[j - 1].offset - bs[i].offset;
        if same_group(bs[i], bs[j - 1]) && region_distance_ok(d, min_dist, fs) {
            r.push(d)
        } else {
            r
        }
    }
}

/// The qualifying distances of every pair `i < j` with `i < m`.
pub open spec fn pair_dists(bs: Seq<BlockView>, m: int, min_dist: int, fs: int) -> Seq<int>
    decreases m,
{
    if m <= 0 {
        seq![]
    } else {
        pair_dists(bs, m - 1, min_dist, fs) + row_dists(bs, m - 1, bs.len() as int, min_dist, fs)
    }
}

pub open spec fn count_of(s: Seq<int>, d: int) -> int
    decreases s.len(),
{
    if s.len() == 0 {
        0
    } else {
        count_of(s.drop_last(), d) + if s.last() == d {
            1int
        } else {
            0int
        }
    }
}

pub open spec fn abs_diff(a: int, b: int) -> int {
    if a >= b {
        a - b
    } else {
        b - a
    }
}

/// Orders candidate sizes: more pairs, then nearer half the file, then larger.
pub open spec fn size_better(s: Seq<int>, a: int, b: int, fallback: int) -> bool {
    count_of(s, a) > count_of(s, b) || (count_of(s, a) == count_of(s, b) && (abs_diff(a, fallback)
        < abs_diff(b, fallback) || (abs_diff(a, fallback) == abs_diff(b, fallback) && a > b)))
}

/// The best size among the first `k` distances seen at least twice.
pub open spec fn best_size(s: Seq<int>, k: int, fallback: int) -> Option<int>
    decreases k,
{
    if k <= 0 {
        None
    } else {
        let b = best_size(s, k - 1, fallback);
        let d = s[k - 1];
        if count_of(s, d) >= 2 && (b is None || size_better(s, d, b->0, fallback)) {
            Some(d)
        } else {
            b
        }
    }
}

/// The region size: the distance between copies of a block that most
/// pairs of same-id blocks agree on (at least two pairs, 0x1000-aligned,
/// at least 1 MiB and a quarter of the file, at most half the file),
/// else half the file rounded up.
pub open spec fn region_size_of(file_size: int, bs: Seq<BlockView>) -> int {
    let fallback = (file_size + 1) / 2;
    let min_dist = if fallback / 2 > MIN_INFERRED_REGION_SIZE {
        fallback / 2
    } else {
        MIN_INFERRED_REGION_SIZE as int
    };
    let s = pair_dists(bs, bs.len() as int, min_dist, file_size);
    match best_size(s, s.len() as int, fallback) {
        Some(d) => d,
        None => fallback,
    }
}

/// The region a block lies in.
pub open spec fn region_of(b: BlockView, rs: int) -> OemInfoRegion {
    let end = block_end(b);
    if b.offset < rs && end <= rs {
        OemInfoRegion::A
    } else if b.offset >= rs && end <= sat(rs * 2) {
        OemInfoRegion::B
    } else {
        OemInfoRegion::Unknown
    }
}

/// Whether block `j` is newer than block `i`: a higher age, or the same
/// age and a lower offset.
pub open spec fn newer(a: BlockView, b: BlockView) -> bool {
    a.age > b.age || (a.age == b.age && a.offset < b.offset)
}

/// Whether block `i` is the current copy: outside the two regions every
/// block counts as current; inside, the newest of its id and sub-id.
pub open spec fn is_active(bs: Seq<BlockView>, rs: int, i: int) -> bool {
    region_of(bs[i], rs) == OemInfoRegion::Unknown || forall|j: int|
        0 <= j < bs.len() && j != i && #[trigger] same_group(bs[j], bs[i]) && region_of(bs[j], rs)
            != OemInfoRegion::Unknown ==> !newer(bs[j], bs[i])
}

pub open spec fn regions_of(bs: Seq<BlockView>, rs: int) -> Seq<BlockView> {
    Seq::new(
        bs.len(),
        |i: int| BlockView { region: region_of(bs[i], rs), active: is_active(bs, rs, i), ..bs[i] },
    )
}

pub struct ImageView {
    pub raw: Seq<u8>,
    pub candidate_headers: int,
    pub discarded_headers: int,
    pub region_size: int,
    pub blocks: Seq<BlockView>,
}

/// What loading an image gives, before its payloads are classified.
pub open spec fn load_of(raw: Seq<u8>) -> Result<ImageView, OemInfoError> {
    if raw.len() < OEMINFO_REUSED_HEADER_SIZE {
        Err(OemInfoError::TooSmall)
    } else {
        let offs = magic_offsets_from(raw, 0);
        let cands = candidates(raw, offs);
        if cands.len() == 0 {
            Err(OemInfoError::NoHeaders)
        } else {
            let kept = non_overlapping(cands).0;
            if kept.len() == 0 {
                Err(OemInfoError::NoBlocks)
            } else {
                let resolved = resolve_compact_of(kept);
                let rs = region_size_of(raw.len() as int, resolved);
                Ok(
                    ImageView {
                        raw,
                        candidate_headers: offs.len() as int,
                        discarded_headers: offs.len() - kept.len(),
                        region_size: rs,
                        blocks: regions_of(resolved, rs),
                    },
                )
            }
        }
    }
}

pub fn copy_opt_string(o: &Option<String>) -> (r: Option<String>)
    ensures
        opt_str(r) == opt_str(*o),
{
    match o {
        Some(x) => Some(x.clone()),
        None => None,
    }
}

impl PayloadDetails {
    pub fn copy(&self) -> (r: PayloadDetails)
        ensures
            r@ == self@,
    {
        PayloadDetails {
            kind: self.kind,
            text_preview: copy_opt_string(&self.text_preview),
            tlv_parts: self.tlv_parts,
            tlv_description: copy_opt_string(&self.tlv_description),
            image_version_hex: copy_opt_string(&self.image_version_hex),
            image_random_adjust: self.image_random_adjust,
        }
    }
}

impl ParsedBlock {
    pub fn copy(&self) -> (r: ParsedBlock)
        ensures
            r@ == self@,
    {
        ParsedBlock {
            offset: self.offset,
            version: self.version,
            id: self.id,
            sub_id: self.sub_id,
            length: self.length,
            age: self.age,
            header_size: self.header_size,
            layout: self.layout,
            region: self.region,
            active: self.active,
            payload: self.payload.copy(),
            header_padding_byte: self.header_padding_byte,
            block_padding_byte: self.block_padding_byte,
        }
    }
}

/// Each block lies inside `raw_len` bytes with a 0x40 or 0x200 header,
/// and the offsets increase.
pub open spec fn blocks_wf(raw_len: int, bs: Seq<BlockView>) -> bool {
    &&& increasing(bs)
    &&& forall|i: int|
        0 <= i < bs.len() ==> 0 <= #[trigger] bs[i].offset && (bs[i].header_size == 0x40
            || bs[i].header_size == 0x200) && bs[i].offset + bs[i].header_size + bs[i].length
            <= raw_len
}

pub open spec fn block_ok(raw_len: int, b: BlockView) -> bool {
    0 <= b.offset && (b.header_size == 0x40 || b.header_size == 0x200) && b.offset + b.header_size
        + b.length <= raw_len
}

proof fn lemma_header_ok(raw: Seq<u8>, off: int)
    ensures
        header_at(raw, off) matches Some(b) ==> block_ok(raw.len() as int, b) && b.offset == off,
{
}

proof fn lemma_candidates_ok(raw: Seq<u8>, offs: Seq<int>)
    ensures
        forall|i: int|
            0 <= i < candidates(raw, offs).len() ==> block_ok(
                raw.len() as int,
                #[trigger] candidates(raw, offs)[i],
            ),
        candidates(raw, offs).len() <= offs.len(),
    decreases offs.len(),
{
    if offs.len() > 0 {
        lemma_candidates_ok(raw, offs.drop_last());
        lemma_header_ok(raw, offs.last());
        let c = candidates(raw, offs.drop_last());
        assert forall|i: int| 0 <= i < candidates(raw, offs).len() implies block_ok(
            raw.len() as int,
            #[trigger] candidates(raw, offs)[i],
        ) by {
            if i < c.len() {
                assert(candidates(raw, offs)[i] == c[i]);
            }
        }
    }
}

proof fn lemma_non_overlapping(bs: Seq<BlockView>, raw_len: int)
    requires
        raw_len <= usize::MAX,
        forall|i: int| 0 <= i < bs.len() ==> block_ok(raw_len, #[trigger] bs[i]),
    ensures
        blocks_wf(raw_len, non_overlapping(bs).0),
        non_overlapping(bs).0.len() <= bs.len(),
        non_overlapping(bs).0.len() > 0 ==> non_overlapping(bs).0.last().offset
            < non_overlapping(bs).1,
        forall|i: int|
            0 <= i < non_overlapping(bs).0.len() ==> #[trigger] non_overlapping(bs).0[i].offset
                < non_overlapping(bs).1,
        bs.len() > 0 ==> non_overlapping(bs).0.len() > 0,
        0 <= non_overlapping(bs).1,
    decreases bs.len(),
{
    if bs.len() > 0 {
        let t = bs.drop_last();
        assert forall|i: int| 0 <= i < t.len() implies block_ok(raw_len, #[trigger] t[i]) by {
            assert(t[i] == bs[i]);
        }
        lemma_non_overlapping(t, raw_len);
        let (kept, prev) = non_overlapping(t);
        let b = bs.last();
        assert(block_ok(raw_len, bs[bs.len() - 1]));
        if b.offset >= prev {
            let k2 = kept.push(b);
            assert forall|i: int| 0 <= i < k2.len() implies block_ok(raw_len, #[trigger] k2[i]) by {
                if i < kept.len() {
                    assert(k2[i] == kept[i]);
                }
            }
            assert forall|i: int, j: int| 0 <= i < j < k2.len() implies #[trigger] k2[i].offset
                < #[trigger] k2[j].offset by {
                if j < kept.len() {
                    assert(k2[i] == kept[i] && k2[j] == kept[j]);
                } else {
                    assert(k2[i] == kept[i]);
                }
            }
            assert(blocks_wf(raw_len, k2));
        }
    }
}

/// Blocks that do not overlap: each ends (header and payload) at or before
/// the next one starts.
pub open spec fn disjoint_blocks(bs: Seq<BlockView>) -> bool {
    forall|i: int, j: int|
        0 <= i < j < bs.len() ==> #[trigger] bs[i].offset + bs[i].header_size + bs[i].length
            <= #[trigger] bs[j].offset
}

proof fn lemma_non_overlapping_disjoint(bs: Seq<BlockView>, raw_len: int)
    requires
        raw_len <= usize::MAX,
        forall|i: int| 0 <= i < bs.len() ==> block_ok(raw_len, #[trigger] bs[i]),
    ensures
        disjoint_blocks(non_overlapping(bs).0),
        forall|i: int|
            0 <= i < non_overlapping(bs).0.len() ==> #[trigger] non_overlapping(bs).0[i].offset
                + non_overlapping(bs).0[i].header_size + non_overlapping(bs).0[i].length
                <= non_overlapping(bs).1,
    decreases bs.len(),
{
    if bs.len() > 0 {
        let t = bs.drop_last();
        assert forall|i: int| 0 <= i < t.len() implies block_ok(raw_len, #[trigger] t[i]) by {
            assert(t[i] == bs[i]);
        }
        lemma_non_overlapping_disjoint(t, raw_len);
        lemma_non_overlapping(t, raw_len);
        let (kept, prev) = non_overlapping(t);
        let b = bs.last();
        assert(block_ok(raw_len, bs[bs.len() - 1]));
        if b.offset >= prev {
            let k2 = kept.push(b);
            assert(block_end(b) == b.offset + b.header_size + b.length);
            assert forall|i: int| 0 <= i < k2.len() implies #[trigger] k2[i].offset + k2[i].header_size
                + k2[i].length <= block_end(b) by {
                if i < kept.len() {
                    assert(k2[i] == kept[i]);
                }
            }
            assert forall|i: int, j: int| 0 <= i < j < k2.len() implies #[trigger] k2[i].offset
                + k2[i].header_size + k2[i].length <= #[trigger] k2[j].offset by {
                assert(k2[i] == kept[i]);
                if j < kept.len() {
                    assert(k2[j] == kept[j]);
                }
            }
        }
    }
}

proof fn lemma_layout_steps_keep_disjoint(kept: Seq<BlockView>, rs: int)
    requires
        disjoint_blocks(kept),
    ensures
        disjoint_blocks(resolve_compact_of(kept)),
        disjoint_blocks(regions_of(resolve_compact_of(kept), rs)),
{
    let r = resolve_compact_of(kept);
    let g = regions_of(r, rs);
    assert forall|i: int, j: int| 0 <= i < j < r.len() implies #[trigger] r[i].offset + r[i].header_size
        + r[i].length <= #[trigger] r[j].offset by {
        assert(kept[i].offset + kept[i].header_size + kept[i].length <= kept[j].offset);
    }
    assert forall|i: int, j: int| 0 <= i < j < g.len() implies #[trigger] g[i].offset + g[i].header_size
        + g[i].length <= #[trigger] g[j].offset by {
        assert(kept[i].offset + kept[i].header_size + kept[i].length <= kept[j].offset);
    }
}

/// A loaded image counts every header found as kept or discarded, and its
/// blocks lie in the image in offset order without overlapping.
pub proof fn lemma_load_layout(raw: Seq<u8>)
    requires
        raw.len() <= usize::MAX,
    ensures
        load_of(raw) matches Ok(v) ==> v.candidate_headers == v.blocks.len() + v.discarded_headers
            && blocks_wf(raw.len() as int, v.blocks) && disjoint_blocks(v.blocks),
{
    if load_of(raw) is Ok {
        let offs = magic_offsets_from(raw, 0);
        let cands = candidates(raw, offs);
        lemma_candidates_ok(raw, offs);
        lemma_non_overlapping(cands, raw.len() as int);
        lemma_non_overlapping_disjoint(cands, raw.len() as int);
        let kept = non_overlapping(cands).0;
        let rs = region_size_of(raw.len() as int, resolve_compact_of(kept));
        lemma_layout_steps_keep_wf(raw.len() as int, kept, rs);
        lemma_layout_steps_keep_disjoint(kept, rs);
    }
}

/// Whether block `j` is in the group of block `i` and inside the regions.
pub open spec fn group_member(r: Seq<BlockView>, rs: int, i: int, j: int) -> bool {
    0 <= j < r.len() && same_group(r[j], r[i]) && region_of(r[j], rs) != OemInfoRegion::Unknown
}

/// The newest block of `i`'s group among the first `k`, starting from `i`.
pub open spec fn newest_in_group(r: Seq<BlockView>, rs: int, i: int, k: int) -> int
    decreases k,
{
    if k <= 0 {
        i
    } else {
        let b = newest_in_group(r, rs, i, k - 1);
        if group_member(r, rs, i, k - 1) && newer(r[k - 1], r[b]) {
            k - 1
        } else {
            b
        }
    }
}

proof fn lemma_newest_in_group(r: Seq<BlockView>, rs: int, i: int, k: int)
    requires
        group_member(r, rs, i, i),
        0 <= k <= r.len(),
    ensures
        group_member(r, rs, i, newest_in_group(r, rs, i, k)),
        forall|j: int| 0 <= j < k && #[trigger] group_member(r, rs, i, j) ==> !newer(
            r[j],
            r[newest_in_group(r, rs, i, k)],
        ),
    decreases k,
{
    if k > 0 {
        lemma_newest_in_group(r, rs, i, k - 1);
        let b = newest_in_group(r, rs, i, k - 1);
        if group_member(r, rs, i, k - 1) && newer(r[k - 1], r[b]) {
            assert forall|j: int| 0 <= j < k && #[trigger] group_member(r, rs, i, j) implies !newer(
                r[j],
                r[k - 1],
            ) by {
                if j < k - 1 {
                    assert(!newer(r[j], r[b]));
                }
            }
        }
    }
}

/// Every group of blocks inside the regions of a loaded image has a
/// current block.
pub proof fn lemma_load_group_has_active(raw: Seq<u8>, i: int)
    requires
        raw.len() <= usize::MAX,
        load_of(raw) is Ok,
        0 <= i < load_of(raw)->Ok_0.blocks.len(),
        load_of(raw)->Ok_0.blocks[i].region != OemInfoRegion::Unknown,
    ensures
        ({
            let bs = load_of(raw)->Ok_0.blocks;
            exists|j: int|
                0 <= j < bs.len() && same_group(#[trigger] bs[j], bs[i]) && bs[j].region
                    != OemInfoRegion::Unknown && bs[j].active
        }),
{
    let v = load_of(raw)->Ok_0;
    let offs = magic_offsets_from(raw, 0);
    let kept = non_overlapping(candidates(raw, offs)).0;
    let r = resolve_compact_of(kept);
    let rs = region_size_of(raw.len() as int, r);
    let bs = v.blocks;
    assert(bs == regions_of(r, rs));
    assert(group_member(r, rs, i, i));
    lemma_newest_in_group(r, rs, i, r.len() as int);
    let b = newest_in_group(r, rs, i, r.len() as int);
    assert forall|j: int|
        0 <= j < r.len() && j != b && #[trigger] same_group(r[j], r[b]) && region_of(r[j], rs)
            != OemInfoRegion::Unknown implies !newer(r[j], r[b]) by {
        assert(group_member(r, rs, i, j));
    }
    assert(is_active(r, rs, b));
    assert(same_group(bs[b], bs[i]));
}

/// Which blocks of a loaded image are current: every block outside the two
/// regions; inside them, in each group of one id and sub-id, at most one
/// block, and one with no older age than any other block of its group.
pub proof fn lemma_load_active(raw: Seq<u8>)
    requires
        raw.len() <= usize::MAX,
    ensures
        load_of(raw) matches Ok(v) ==> {
            let bs = v.blocks;
            &&& forall|i: int|
                0 <= i < bs.len() && #[trigger] bs[i].region == OemInfoRegion::Unknown ==> bs[i].active
            &&& forall|i: int, j: int|
                0 <= i < bs.len() && 0 <= j < bs.len() && i != j && same_group(#[trigger] bs[i], #[trigger] bs[j])
                    && bs[i].region != OemInfoRegion::Unknown && bs[j].region != OemInfoRegion::Unknown
                    && bs[i].active ==> !bs[j].active && bs[j].age <= bs[i].age
        },
{
    lemma_load_layout(raw);
    if load_of(raw) is Ok {
        let v = load_of(raw)->Ok_0;
        let offs = magic_offsets_from(raw, 0);
        let kept = non_overlapping(candidates(raw, offs)).0;
        let r = resolve_compact_of(kept);
        let rs = region_size_of(raw.len() as int, r);
        let bs = v.blocks;
        assert(bs == regions_of(r, rs));
        assert forall|i: int, j: int|
            0 <= i < bs.len() && 0 <= j < bs.len() && i != j && same_group(#[trigger] bs[i], #[trigger] bs[j])
                && bs[i].region != OemInfoRegion::Unknown && bs[j].region != OemInfoRegion::Unknown
                && bs[i].active implies !bs[j].active && bs[j].age <= bs[i].age by {
            assert(same_group(r[j], r[i]));
            assert(is_active(r, rs, i));
            assert(!newer(r[j], r[i]));
            if bs[j].active {
                assert(is_active(r, rs, j));
                assert(same_group(r[i], r[j]));
                assert(!newer(r[i], r[j]));
                if i < j {
                    assert(bs[i].offset < bs[j].offset);
                } else {
                    assert(bs[j].offset < bs[i].offset);
                }
            }
        }
    }
}

/// The headers at the offsets found, in order.
fn collect_candidates(raw: &[u8], offs: &Vec<usize>) -> (r: Vec<ParsedBlock>)
    ensures
        blocks_view(r@) == candidates(raw@, usize_seq(offs@)),
{
    let mut out: Vec<ParsedBlock> = Vec::new();
    let mut i: usize = 0;
    proof {
        assert(usize_seq(offs@).take(0) =~= Seq::<int>::empty());
        assert(blocks_view(out@) =~= Seq::<BlockView>::empty());
    }
    while i < offs.len()
        invariant
            i <= offs@.len(),
            blocks_view(out@) == candidates(raw@, usize_seq(offs@).take(i as int)),
        decreases offs@.len() - i,
    {
        proof {
            assert(usize_seq(offs@).take(i + 1).drop_last() =~= usize_seq(offs@).take(i as int));
            assert(usize_seq(offs@).take(i + 1).last() == offs@[i as int] as int);
        }
        let ghost before = blocks_view(out@);
        match parse_header(raw, offs[i]) {
            Some(b) => {
                out.push(b);
                proof {
                    assert(blocks_view(out@) =~= before.push(b@));
                }
            },
            None => {},
        }
        i = i + 1;
    }
    proof {
        assert(usize_seq(offs@).take(offs@.len() as int) =~= usize_seq(offs@));
    }
    out
}

/// Keeps the blocks that start at or after the end of the last one kept.
fn drop_overlapping(cands: &Vec<ParsedBlock>) -> (r: Vec<ParsedBlock>)
    ensures
        blocks_view(r@) == non_overlapping(blocks_view(cands@)).0,
{
    let ghost bs = blocks_view(cands@);
    let mut out: Vec<ParsedBlock> = Vec::new();
    let mut prev: usize = 0;
    let mut i: usize = 0;
    proof {
        assert(bs.take(0) =~= Seq::<BlockView>::empty());
        assert(blocks_view(out@) =~= Seq::<BlockView>::empty());
    }
    while i < cands.len()
        invariant
            i <= cands@.len(),
            bs == blocks_view(cands@),
            (blocks_view(out@), prev as int) == non_overlapping(bs.take(i as int)),
        decreases cands@.len() - i,
    {
        proof {
            assert(bs.take(i + 1).drop_last() =~= bs.take(i as int));
            assert(bs.take(i + 1).last() == cands@[i as int]@);
        }
        let b = &cands[i];
        if b.offset >= prev {
            let a = if b.offset > usize::MAX - b.header_size {
                usize::MAX
            } else {
                b.offset + b.header_size
            };
            let e = if a > usize::MAX - b.length as usize {
                usize::MAX
            } else {
                a + b.length as usize
            };
            let ghost before = blocks_view(out@);
            out.push(b.copy());
            proof {
                assert(blocks_view(out@) =~= before.push(cands@[i as int]@));
            }
            prev = e;
        }
        i = i + 1;
    }
    proof {
        assert(bs.take(cands@.len() as int) =~= bs);
    }
    out
}

/// Marks standard blocks that the next block follows within their 0x1000
/// boundary as compact.
fn resolve_compact_layouts(blocks: &mut Vec<ParsedBlock>)
    ensures
        blocks_view(final(blocks)@) == resolve_compact_of(blocks_view(old(blocks)@)),
{
    let ghost bs = blocks_view(blocks@);
    let n = blocks.len();
    let mut i: usize = 0;
    while n > 0 && i < n - 1
        invariant
            n == blocks@.len(),
            bs.len() == n,
            i <= n,
            n > 0 ==> i <= n - 1,
            forall|k: int| 0 <= k < i ==> #[trigger] blocks_view(blocks@)[k] == with_layout(bs[k], compact_layout(bs, k)),
            forall|k: int| i <= k < n ==> #[trigger] blocks_view(blocks@)[k] == bs[k],
        decreases n - i,
    {
        let ghost cur = bs[i as int];
        proof {
            assert(blocks_view(blocks@)[i as int] == blocks@[i as int]@);
            assert(blocks_view(blocks@)[i + 1] == blocks@[i + 1]@);
        }
        let mut compact = false;
        if blocks[i].layout == OemInfoLayout::Standard {
            let off = blocks[i].offset;
            let a = if off > usize::MAX - 0x200 {
                usize::MAX
            } else {
                off + 0x200
            };
            let e = if a > usize::MAX - blocks[i].length as usize {
                usize::MAX
            } else {
                a + blocks[i].length as usize
            };
            let aligned = align_up(e, 0x1000);
            compact = blocks[i + 1].offset < aligned;
        }
        proof {
            assert(compact == (compact_layout(bs, i as int) == OemInfoLayout::StandardCompact && cur.layout
                == OemInfoLayout::Standard));
        }
        let ghost before = blocks@;
        if compact {
            let mut b = blocks[i].copy();
            b.layout = OemInfoLayout::StandardCompact;
            blocks.set(i, b);
            proof {
                assert(blocks_view(blocks@) =~= blocks_view(before).update(i as int, b@));
                assert(b@ =~= with_layout(cur, OemInfoLayout::StandardCompact));
            }
        } else {
            proof {
                assert(compact_layout(bs, i as int) == cur.layout);
                assert(with_layout(cur, cur.layout) =~= cur);
            }
        }
        i = i + 1;
    }
    proof {
        if n > 0 {
            assert(compact_layout(bs, n - 1) == bs[n - 1].layout);
            assert(with_layout(bs[n - 1], bs[n - 1].layout) == bs[n - 1]);
        }
        assert(blocks_view(blocks@) =~= resolve_compact_of(bs));
    }
}

fn count_in(v: &Vec<usize>, d: usize) -> (r: usize)
    ensures
        r == count_of(usize_seq(v@), d as int),
{
    let mut c: usize = 0;
    let mut k: usize = 0;
    while k < v.len()
        invariant
            k <= v@.len(),
            c <= k,
            c == count_of(usize_seq(v@).take(k as int), d as int),
        decreases v@.len() - k,
    {
        proof {
            assert(usize_seq(v@).take(k + 1).drop_last() =~= usize_seq(v@).take(k as int));
        }
        if v[k] == d {
            c = c + 1;
        }
        k = k + 1;
    }
    proof {
        assert(usize_seq(v@).take(v@.len() as int) =~= usize_seq(v@));
    }
    c
}

fn sat_add(a: usize, b: usize) -> (r: usize)
    ensures
        r == sat(a + b),
{
    if a > usize::MAX - b {
        usize::MAX
    } else {
        a + b
    }
}

/// Works out the region size from the distances between copies of blocks.
fn infer_region_size(file_size: usize, blocks: &Vec<ParsedBlock>) -> (r: usize)
    requires
        increasing(blocks_view(blocks@)),
    ensures
        r == region_size_of(file_size as int, blocks_view(blocks@)),
{
    let ghost bs = blocks_view(blocks@);
    let n = blocks.len();
    let fallback = file_size / 2 + file_size % 2;
    let min_dist = if fallback / 2 > MIN_INFERRED_REGION_SIZE {
        fallback / 2
    } else {
        MIN_INFERRED_REGION_SIZE
    };
    let mut dists: Vec<usize> = Vec::new();
    let mut i: usize = 0;
    proof {
        assert(usize_seq(dists@) =~= pair_dists(bs, 0, min_dist as int, file_size as int));
    }
    while i < n
        invariant
            n == blocks@.len(),
            bs == blocks_view(blocks@),
            increasing(bs),
            i <= n,
            usize_seq(dists@) == pair_dists(bs, i as int, min_dist as int, file_size as int),
        decreases n - i,
    {
        let mut j: usize = i + 1;
        proof {
            assert(row_dists(bs, i as int, j as int, min_dist as int, file_size as int) =~= Seq::<int>::empty());
            assert(usize_seq(dists@) =~= pair_dists(bs, i as int, min_dist as int, file_size as int)
                + row_dists(bs, i as int, j as int, min_dist as int, file_size as int));
        }
        while j < n
            invariant
                n == blocks@.len(),
                bs == blocks_view(blocks@),
                increasing(bs),
                i < j <= n,
                usize_seq(dists@) == pair_dists(bs, i as int, min_dist as int, file_size as int)
                    + row_dists(bs, i as int, j as int, min_dist as int, file_size as int),
            decreases n - j,
        {
            proof {
                assert(bs[i as int] == blocks@[i as int]@);
                assert(bs[j as int] == blocks@[j as int]@);
                assert(bs[i as int].offset < bs[j as int].offset);
            }
            let ghost before = usize_seq(dists@);
            if blocks[i].id == blocks[j].id && blocks[i].sub_id == blocks[j].sub_id {
                let d = blocks[j].offset - blocks[i].offset;
                let twice = if d > usize::MAX / 2 {
                    usize::MAX
                } else {
                    d * 2
                };
                if d >= min_dist && d % 0x1000 == 0 && twice <= file_size {
                    dists.push(d);
                    proof {
                        assert(usize_seq(dists@) =~= before.push(d as int));
                    }
                }
            }
            j = j + 1;
        }
        i = i + 1;
    }
    let ghost ds = usize_seq(dists@);
    let mut best: Option<usize> = None;
    let mut best_count: usize = 0;
    let mut k: usize = 0;
    while k < dists.len()
        invariant
            k <= dists@.len(),
            ds == usize_seq(dists@),
            fallback == (file_size + 1) / 2,
            match best {
                None => best_size(ds, k as int, fallback as int) is None,
                Some(b) => best_size(ds, k as int, fallback as int) == Some(b as int) && best_count
                    == count_of(ds, b as int),
            },
        decreases dists@.len() - k,
    {
        let d = dists[k];
        let c = count_in(&dists, d);
        proof {
            assert(ds[k as int] == d as int);
        }
        if c >= 2 {
            let better = match best {
                None => true,
                Some(b) => {
                    let da = if d >= fallback {
                        d - fallback
                    } else {
                        fallback - d
                    };
                    let db = if b >= fallback {
                        b - fallback
                    } else {
                        fallback - b
                    };
                    c > best_count || (c == best_count && (da < db || (da == db && d > b)))
                },
            };
            if better {
                best = Some(d);
                best_count = c;
            }
        }
        k = k + 1;
    }
    match best {
        Some(b) => b,
        None => fallback,
    }
}

fn block_region(b: &ParsedBlock, rs: usize) -> (r: OemInfoRegion)
    ensures
        r == region_of(b@, rs as int),
{
    let a = sat_add(b.offset, b.header_size);
    let e = sat_add(a, b.length as usize);
    let twice = if rs > usize::MAX / 2 {
        usize::MAX
    } else {
        rs * 2
    };
    if b.offset < rs && e <= rs {
        OemInfoRegion::A
    } else if b.offset >= rs && e <= twice {
        OemInfoRegion::B
    } else {
        OemInfoRegion::Unknown
    }
}

/// Sets each block's region and whether it is the current copy.
fn classify_regions_and_active(blocks: &mut Vec<ParsedBlock>, rs: usize)
    ensures
        blocks_view(final(blocks)@) == regions_of(blocks_view(old(blocks)@), rs as int),
{
    let ghost bs = blocks_view(blocks@);
    let n = blocks.len();
    let mut regions: Vec<OemInfoRegion> = Vec::new();
    let mut i: usize = 0;
    while i < n
        invariant
            n == blocks@.len(),
            bs == blocks_view(blocks@),
            i <= n,
            regions@.len() == i,
            forall|k: int| 0 <= k < i ==> #[trigger] regions@[k] == region_of(bs[k], rs as int),
        decreases n - i,
    {
        proof {
            assert(bs[i as int] == blocks@[i as int]@);
        }
        regions.push(block_region(&blocks[i], rs));
        i = i + 1;
    }
    let mut actives: Vec<bool> = Vec::new();
    let mut i: usize = 0;
    while i < n
        invariant
            n == blocks@.len(),
            bs == blocks_view(blocks@),
            i <= n,
            regions@.len() == n,
            forall|k: int| 0 <= k < n ==> #[trigger] regions@[k] == region_of(bs[k], rs as int),
            actives@.len() == i,
            forall|k: int| 0 <= k < i ==> #[trigger] actives@[k] == is_active(bs, rs as int, k),
        decreases n - i,
    {
        proof {
            assert(bs[i as int] == blocks@[i as int]@);
        }
        let mut active = true;
        if regions[i] != OemInfoRegion::Unknown {
            let mut j: usize = 0;
            while j < n
                invariant
                    n == blocks@.len(),
                    bs == blocks_view(blocks@),
                    i < n,
                    j <= n,
                    regions@.len() == n,
                    forall|k: int| 0 <= k < n ==> #[trigger] regions@[k] == region_of(bs[k], rs as int),
                    region_of(bs[i as int], rs as int) != OemInfoRegion::Unknown,
                    active == forall|m: int|
                        0 <= m < j && m != i && #[trigger] same_group(bs[m], bs[i as int]) && region_of(
                            bs[m],
                            rs as int,
                        ) != OemInfoRegion::Unknown ==> !newer(bs[m], bs[i as int]),
                decreases n - j,
            {
                proof {
                    assert(bs[j as int] == blocks@[j as int]@);
                }
                let bj = &blocks[j];
                let bi = &blocks[i];
                if j != i && bj.id == bi.id && bj.sub_id == bi.sub_id && regions[j]
                    != OemInfoRegion::Unknown && (bj.age > bi.age || (bj.age == bi.age && bj.offset
                    < bi.offset)) {
                    active = false;
                    proof {
                        assert(same_group(bs[j as int], bs[i as int]));
                    }
                }
                j = j + 1;
            }
        }
        actives.push(active);
        i = i + 1;
    }
    let mut i: usize = 0;
    while i < n
        invariant
            n == blocks@.len(),
            bs.len() == n,
            i <= n,
            regions@.len() == n,
            actives@.len() == n,
            forall|k: int| 0 <= k < n ==> #[trigger] regions@[k] == region_of(bs[k], rs as int),
            forall|k: int| 0 <= k < n ==> #[trigger] actives@[k] == is_active(bs, rs as int, k),
            forall|k: int| 0 <= k < i ==> #[trigger] blocks_view(blocks@)[k] == regions_of(bs, rs as int)[k],
            forall|k: int| i <= k < n ==> #[trigger] blocks_view(blocks@)[k] == bs[k],
        decreases n - i,
    {
        let ghost before = blocks@;
        proof {
            assert(blocks_view(blocks@)[i as int] == blocks@[i as int]@);
        }
        let mut b = blocks[i].copy();
        b.region = regions[i];
        b.active = actives[i];
        blocks.set(i, b);
        proof {
            assert(blocks_view(blocks@) =~= blocks_view(before).update(i as int, b@));
            assert(b@ =~= regions_of(bs, rs as int)[i as int]);
        }
        i = i + 1;
    }
    proof {
        assert(blocks_view(blocks@) =~= regions_of(bs, rs as int));
    }
}

// ---------------------------------------------------------------------------
// The image.

/// A loaded OEMINFO image.
pub struct OemInfoImage {
    raw: Vec<u8>,
    candidate_headers: usize,
    discarded_headers: usize,
    region_size: usize,
    blocks: Vec<ParsedBlock>,
}

impl View for OemInfoImage {
    type V = ImageView;

    closed spec fn view(&self) -> ImageView {
        ImageView {
            raw: self.raw@,
            candidate_headers: self.candidate_headers as int,
            discarded_headers: self.discarded_headers as int,
            region_size: self.region_size as int,
            blocks: blocks_view(self.blocks@),
        }
    }
}

proof fn lemma_layout_steps_keep_wf(raw_len: int, kept: Seq<BlockView>, rs: int)
    requires
        blocks_wf(raw_len, kept),
    ensures
        blocks_wf(raw_len, resolve_compact_of(kept)),
        blocks_wf(raw_len, regions_of(resolve_compact_of(kept), rs)),
{
    let r = resolve_compact_of(kept);
    assert forall|i: int| 0 <= i < r.len() implies #[trigger] r[i].offset == kept[i].offset
        && r[i].header_size == kept[i].header_size && r[i].length == kept[i].length by {}
    let g = regions_of(r, rs);
    assert forall|i: int| 0 <= i < g.len() implies #[trigger] g[i].offset == kept[i].offset
        && g[i].header_size == kept[i].header_size && g[i].length == kept[i].length by {}
    assert(blocks_wf(raw_len, r)) by {
        assert forall|i: int, j: int| 0 <= i < j < r.len() implies #[trigger] r[i].offset
            < #[trigger] r[j].offset by {
            assert(kept[i].offset < kept[j].offset);
        }
    }
    assert(blocks_wf(raw_len, g)) by {
        assert forall|i: int, j: int| 0 <= i < j < g.len() implies #[trigger] g[i].offset
            < #[trigger] g[j].offset by {
            assert(kept[i].offset < kept[j].offset);
        }
    }
}

impl OemInfoImage {
    #[verifier::type_invariant]
    spec fn wf(self) -> bool {
        &&& blocks_wf(self.raw@.len() as int, blocks_view(self.blocks@))
        &&& disjoint_blocks(blocks_view(self.blocks@))
    }

    /// Finds and lays out the blocks of an image; their payloads stay
    /// unclassified (raw, no preview) until `classify_payloads`.
    pub fn from_bytes(raw: Vec<u8>) -> (r: Result<OemInfoImage, OemInfoError>)
        ensures
            match load_of(raw@) {
                Ok(v) => r matches Ok(img) && img@ == v,
                Err(e) => r == Err::<OemInfoImage, OemInfoError>(e),
            },
    {
        if raw.len() < OEMINFO_REUSED_HEADER_SIZE {
            return Err(OemInfoError::TooSmall);
        }
        let offs = find_magic_offsets(raw.as_slice());
        let cands = collect_candidates(raw.as_slice(), &offs);
        proof {
            lemma_candidates_ok(raw@, usize_seq(offs@));
        }
        if cands.len() == 0 {
            return Err(OemInfoError::NoHeaders);
        }
        let mut blocks = drop_overlapping(&cands);
        proof {
            lemma_non_overlapping(blocks_view(cands@), raw@.len() as int);
            lemma_non_overlapping_disjoint(blocks_view(cands@), raw@.len() as int);
        }
        if blocks.len() == 0 {
            return Err(OemInfoError::NoBlocks);
        }
        let ghost kept = blocks_view(blocks@);
        resolve_compact_layouts(&mut blocks);
        proof {
            lemma_layout_steps_keep_wf(raw@.len() as int, kept, 0);
        }
        let rs = infer_region_size(raw.len(), &blocks);
        classify_regions_and_active(&mut blocks, rs);
        proof {
            lemma_layout_steps_keep_wf(raw@.len() as int, kept, rs as int);
            lemma_layout_steps_keep_disjoint(kept, rs as int);
        }
        let discarded = offs.len() - blocks.len();
        Ok(
            OemInfoImage {
                raw,
                candidate_headers: offs.len(),
                discarded_headers: discarded,
                region_size: rs,
                blocks,
            },
        )
    }

    /// The image bytes.
    pub fn as_bytes(&self) -> (r: &[u8])
        ensures
            r@ == self@.raw,
    {
        self.raw.as_slice()
    }

    /// The blocks, in offset order.
    pub fn blocks(&self) -> (r: &Vec<ParsedBlock>)
        ensures
            blocks_view(r@) == self@.blocks,
    {
        &self.blocks
    }
}

/// The payload of a block.
pub open spec fn payload_bytes(raw: Seq<u8>, b: BlockView) -> Seq<u8> {
    raw.subrange(b.offset + b.header_size, b.offset + b.header_size + b.length)
}

/// The byte the space after a payload, up to its alignment (0x1000 for a
/// standard block, else 0x80) or the end of the image, is filled with; the
/// header's padding byte where it is not uniform.
pub open spec fn block_padding_of(raw: Seq<u8>, b: BlockView) -> u8 {
    let pend = b.offset + b.header_size + b.length;
    let align = if b.layout == OemInfoLayout::Standard {
        0x1000int
    } else {
        0x80int
    };
    let up = align_up_of(pend, align);
    let pad_end = if up < raw.len() {
        up
    } else {
        raw.len() as int
    };
    match uniform_of(raw.subrange(pend, pad_end)) {
        Some(x) => x,
        None => b.header_padding_byte,
    }
}

/// A block once its payload is classified.
pub open spec fn classified(raw: Seq<u8>, b: BlockView, j: EntropyJudgment) -> BlockView {
    BlockView {
        payload: classify_of(payload_bytes(raw, b), j.data_high, j.signature_high),
        block_padding_byte: block_padding_of(raw, b),
        ..b
    }
}

proof fn lemma_align_up_ge(x: int, a: int)
    requires
        0 <= x <= usize::MAX,
        a > 0,
    ensures
        align_up_of(x, a) >= x,
{
    if x + a - 1 <= usize::MAX {
        assert((x + a - 1) / a * a >= x) by (nonlinear_arith)
            requires
                a > 0,
                x >= 0,
        {
            assert(x + a - 1 == a * ((x + a - 1) / a) + (x + a - 1) % a);
        }
    }
}

impl OemInfoImage {
    /// For each block, where classification needs the entropy of its
    /// data and signature: `(data start, signature start, signature end)`
    /// in the image.
    pub fn entropy_requests(&self) -> (r: Vec<Option<(usize, usize, usize)>>)
        ensures
            r@.len() == self@.blocks.len(),
            forall|i: int|
                0 <= i < r@.len() ==> #[trigger] r@[i] == if needs_entropy(
                    payload_bytes(self@.raw, self@.blocks[i]),
                ) {
                    let ps = self@.blocks[i].offset + self@.blocks[i].header_size;
                    let rem = signed_extent(payload_bytes(self@.raw, self@.blocks[i])).0;
                    Some(((ps) as usize, (ps + rem - SIGNATURE_SIZE) as usize, (ps + rem) as usize))
                } else {
                    None
                },
    {
        proof {
            use_type_invariant(self);
        }
        let ghost bs = blocks_view(self.blocks@);
        let rl = self.raw.len();
        let mut out: Vec<Option<(usize, usize, usize)>> = Vec::new();
        let mut i: usize = 0;
        while i < self.blocks.len()
            invariant
                rl == self.raw@.len(),
                i <= self.blocks@.len(),
                bs == blocks_view(self.blocks@),
                blocks_wf(self.raw@.len() as int, bs),
                out@.len() == i,
                forall|k: int|
                    0 <= k < i ==> #[trigger] out@[k] == if needs_entropy(
                        payload_bytes(self.raw@, bs[k]),
                    ) {
                        let ps = bs[k].offset + bs[k].header_size;
                        let rem = signed_extent(payload_bytes(self.raw@, bs[k])).0;
                        Some(((ps) as usize, (ps + rem - SIGNATURE_SIZE) as usize, (ps + rem) as usize))
                    } else {
                        None
                    },
            decreases self.blocks@.len() - i,
        {
            let b = &self.blocks[i];
            proof {
                assert(bs[i as int] == b@);
                assert(bs[i as int].offset + bs[i as int].header_size + bs[i as int].length <= rl);
            }
            let ps = b.offset + b.header_size;
            let pe = ps + b.length as usize;
            let p = vstd::slice::slice_subrange(self.raw.as_slice(), ps, pe);
            match entropy_extent(p) {
                Some(rem) => {
                    proof {
                        lemma_tail_tlv_range(p@, p@.len() as int);
                    }
                    out.push(Some((ps, ps + rem - SIGNATURE_SIZE, ps + rem)));
                },
                None => {
                    out.push(None);
                },
            }
            i = i + 1;
        }
        out
    }

    /// Classifies every block's payload and the padding after it, given
    /// the entropy judgments asked for by `entropy_requests` (one per
    /// block; read only where asked for).
    pub fn classify_payloads(&mut self, judgments: &Vec<EntropyJudgment>)
        requires
            judgments@.len() == old(self)@.blocks.len(),
        ensures
            final(self)@.raw == old(self)@.raw,
            final(self)@.candidate_headers == old(self)@.candidate_headers,
            final(self)@.discarded_headers == old(self)@.discarded_headers,
            final(self)@.region_size == old(self)@.region_size,
            final(self)@.blocks.len() == old(self)@.blocks.len(),
            forall|i: int|
                0 <= i < final(self)@.blocks.len() ==> #[trigger] final(self)@.blocks[i] == classified(
                    old(self)@.raw,
                    old(self)@.blocks[i],
                    judgments@[i],
                ),
    {
        proof {
            use_type_invariant(&*self);
        }
        let ghost bs = blocks_view(self.blocks@);
        let mut blocks: Vec<ParsedBlock> = Vec::new();
        std::mem::swap(&mut blocks, &mut self.blocks);
        let n = blocks.len();
        let rl = self.raw.len();
        let mut i: usize = 0;
        while i < n
            invariant
                rl == self.raw@.len(),
                n == blocks@.len(),
                bs.len() == n,
                judgments@.len() == n,
                blocks_wf(self.raw@.len() as int, bs),
                i <= n,
                forall|k: int|
                    0 <= k < i ==> #[trigger] blocks_view(blocks@)[k] == classified(
                        self.raw@,
                        bs[k],
                        judgments@[k],
                    ),
                forall|k: int| i <= k < n ==> #[trigger] blocks_view(blocks@)[k] == bs[k],
            decreases n - i,
        {
            let ghost before = blocks@;
            proof {
                assert(blocks_view(blocks@)[i as int] == blocks@[i as int]@);
            }
            let b = &blocks[i];
            proof {
                assert(bs[i as int].offset + bs[i as int].header_size + bs[i as int].length <= rl);
            }
            let ps = b.offset + b.header_size;
            let pe = ps + b.length as usize;
            let p = vstd::slice::slice_subrange(self.raw.as_slice(), ps, pe);
            let payload = classify_payload(p, &judgments[i]);
            let align: usize = if b.layout == OemInfoLayout::Standard {
                OEMINFO_STANDARD_ALIGNMENT
            } else {
                OEMINFO_REUSED_ALIGNMENT
            };
            let up = align_up(pe, align);
            proof {
                lemma_align_up_ge(pe as int, align as int);
            }
            let pad_end = if up < self.raw.len() {
                up
            } else {
                self.raw.len()
            };
            let pad = match uniform_byte(self.raw.as_slice(), pe, pad_end) {
                Some(x) => x,
                None => b.header_padding_byte,
            };
            let mut nb = b.copy();
            nb.payload = payload;
            nb.block_padding_byte = pad;
            blocks.set(i, nb);
            proof {
                assert(blocks_view(blocks@) =~= blocks_view(before).update(i as int, nb@));
                assert(nb@ =~= classified(self.raw@, bs[i as int], judgments@[i as int]));
            }
            i = i + 1;
        }
        proof {
            let g = blocks_view(blocks@);
            assert forall|i: int, j: int| 0 <= i < j < g.len() implies #[trigger] g[i].offset
                < #[trigger] g[j].offset by {
                assert(bs[i].offset < bs[j].offset);
            }
            assert forall|i: int, j: int| 0 <= i < j < g.len() implies #[trigger] g[i].offset
                + g[i].header_size + g[i].length <= #[trigger] g[j].offset by {
                assert(bs[i].offset + bs[i].header_size + bs[i].length <= bs[j].offset);
            }
        }
        self.blocks = blocks;
    }
}

// ---------------------------------------------------------------------------
// Summaries.

/// One block as reported.
#[derive(Debug, Clone)]
pub struct OemInfoBlockSummary {
    pub offset: u64,
    pub version: u32,
    pub id: u32,
    pub sub_id: u32,
    pub length: u32,
    pub age: u32,
    pub header_size: u32,
    pub layout: OemInfoLayout,
    pub region: OemInfoRegion,
    pub active: bool,
    pub payload_kind: OemInfoPayloadKind,
    pub text_preview: Option<String>,
    pub tlv_parts: usize,
    pub tlv_description: Option<String>,
    pub image_version_hex: Option<String>,
    pub image_random_adjust: Option<u32>,
    pub header_padding_byte: u8,
    pub block_padding_byte: u8,
}

/// Whether `s` reports block `b`.
pub open spec fn summarizes(s: OemInfoBlockSummary, b: BlockView) -> bool {
    &&& s.offset == b.offset
    &&& s.version == b.version
    &&& s.id == b.id
    &&& s.sub_id == b.sub_id
    &&& s.length == b.length
    &&& s.age == b.age
    &&& s.header_size == b.header_size
    &&& s.layout == b.layout
    &&& s.region == b.region
    &&& s.active == b.active
    &&& s.payload_kind == b.payload.kind
    &&& opt_str(s.text_preview) == b.payload.text_preview
    &&& s.tlv_parts == b.payload.tlv_parts
    &&& opt_str(s.tlv_description) == b.payload.tlv_description
    &&& opt_str(s.image_version_hex) == b.payload.image_version_hex
    &&& s.image_random_adjust == b.payload.image_random_adjust
    &&& s.header_padding_byte == b.header_padding_byte
    &&& s.block_padding_byte == b.block_padding_byte
}

/// The whole image as reported.
#[derive(Debug, Clone)]
pub struct OemInfoImageSummary {
    pub file_size: u64,
    pub region_size: u64,
    pub candidate_headers: usize,
    pub discarded_headers: usize,
    pub total_blocks: usize,
    pub active_blocks: usize,
    pub inactive_blocks: usize,
    pub region_a_blocks: usize,
    pub region_b_blocks: usize,
    pub unknown_region_blocks: usize,
    pub standard_blocks: usize,
    pub compact_blocks: usize,
    pub reused_blocks: usize,
    pub blocks: Vec<OemInfoBlockSummary>,
}

/// How many blocks satisfy `f`.
pub open spec fn count_where(bs: Seq<BlockView>, f: spec_fn(BlockView) -> bool) -> nat
    decreases bs.len(),
{
    if bs.len() == 0 {
        0
    } else {
        count_where(bs.drop_last(), f) + if f(bs.last()) {
            1nat
        } else {
            0nat
        }
    }
}

proof fn lemma_count_where_bound(bs: Seq<BlockView>, f: spec_fn(BlockView) -> bool)
    ensures
        count_where(bs, f) <= bs.len(),
    decreases bs.len(),
{
    if bs.len() > 0 {
        lemma_count_where_bound(bs.drop_last(), f);
    }
}

impl ParsedBlock {
    /// The block as reported.
    pub fn summary(&self) -> (r: OemInfoBlockSummary)
        requires
            self.header_size <= u32::MAX,
        ensures
            summarizes(r, self@),
    {
        OemInfoBlockSummary {
            offset: self.offset as u64,
            version: self.version,
            id: self.id,
            sub_id: self.sub_id,
            length: self.length,
            age: self.age,
            header_size: self.header_size as u32,
            layout: self.layout,
            region: self.region,
            active: self.active,
            payload_kind: self.payload.kind,
            text_preview: copy_opt_string(&self.payload.text_preview),
            tlv_parts: self.payload.tlv_parts,
            tlv_description: copy_opt_string(&self.payload.tlv_description),
            image_version_hex: copy_opt_string(&self.payload.image_version_hex),
            image_random_adjust: self.payload.image_random_adjust,
            header_padding_byte: self.header_padding_byte,
            block_padding_byte: self.block_padding_byte,
        }
    }
}

impl OemInfoImage {
    /// The image as reported: sizes, header counts, how many blocks of
    /// each state, region and layout, and each block.
    pub fn summary(&self) -> (r: OemInfoImageSummary)
        ensures
            r.file_size == self@.raw.len(),
            r.region_size == self@.region_size,
            r.candidate_headers == self@.candidate_headers,
            r.discarded_headers == self@.discarded_headers,
            r.total_blocks == self@.blocks.len(),
            r.active_blocks == count_where(self@.blocks, |b: BlockView| b.active),
            r.inactive_blocks == count_where(self@.blocks, |b: BlockView| !b.active),
            r.region_a_blocks == count_where(self@.blocks, |b: BlockView| b.region == OemInfoRegion::A),
            r.region_b_blocks == count_where(self@.blocks, |b: BlockView| b.region == OemInfoRegion::B),
            r.unknown_region_blocks == count_where(
                self@.blocks,
                |b: BlockView| b.region == OemInfoRegion::Unknown,
            ),
            r.standard_blocks == count_where(
                self@.blocks,
                |b: BlockView| b.layout == OemInfoLayout::Standard,
            ),
            r.compact_blocks == count_where(
                self@.blocks,
                |b: BlockView| b.layout == OemInfoLayout::StandardCompact,
            ),
            r.reused_blocks == count_where(self@.blocks, |b: BlockView| b.layout == OemInfoLayout::Reused),
            r.blocks@.len() == self@.blocks.len(),
            forall|i: int| 0 <= i < r.blocks@.len() ==> summarizes(#[trigger] r.blocks@[i], self@.blocks[i]),
            r.active_blocks + r.inactive_blocks == r.total_blocks,
            r.region_a_blocks + r.region_b_blocks + r.unknown_region_blocks == r.total_blocks,
            r.standard_blocks + r.compact_blocks + r.reused_blocks == r.total_blocks,
            forall|i: int, j: int|
                0 <= i < j < r.blocks@.len() ==> (#[trigger] r.blocks@[i]).offset + r.blocks@[i].header_size
                    + r.blocks@[i].length <= (#[trigger] r.blocks@[j]).offset,
    {
        proof {
            use_type_invariant(self);
        }
        let ghost bs = blocks_view(self.blocks@);
        let n = self.blocks.len();
        let mut out: Vec<OemInfoBlockSummary> = Vec::new();
        let mut active: usize = 0;
        let mut inactive: usize = 0;
        let mut ra: usize = 0;
        let mut rb: usize = 0;
        let mut ru: usize = 0;
        let mut st: usize = 0;
        let mut co: usize = 0;
        let mut re: usize = 0;
        let mut i: usize = 0;
        while i < n
            invariant
                n == self.blocks@.len(),
                bs == blocks_view(self.blocks@),
                blocks_wf(self.raw@.len() as int, bs),
                i <= n,
                out@.len() == i,
                forall|k: int| 0 <= k < i ==> summarizes(#[trigger] out@[k], bs[k]),
                active == count_where(bs.take(i as int), |b: BlockView| b.active),
                inactive == count_where(bs.take(i as int), |b: BlockView| !b.active),
                ra == count_where(bs.take(i as int), |b: BlockView| b.region == OemInfoRegion::A),
                rb == count_where(bs.take(i as int), |b: BlockView| b.region == OemInfoRegion::B),
                ru == count_where(bs.take(i as int), |b: BlockView| b.region == OemInfoRegion::Unknown),
                st == count_where(bs.take(i as int), |b: BlockView| b.layout == OemInfoLayout::Standard),
                co == count_where(
                    bs.take(i as int),
                    |b: BlockView| b.layout == OemInfoLayout::StandardCompact,
                ),
                re == count_where(bs.take(i as int), |b: BlockView| b.layout == OemInfoLayout::Reused),
                active <= i && inactive <= i && ra <= i && rb <= i && ru <= i && st <= i && co <= i && re <= i,
                active + inactive == i,
                ra + rb + ru == i,
                st + co + re == i,
            decreases n - i,
        {
            let b = &self.blocks[i];
            proof {
                assert(bs[i as int] == b@);
                assert(bs.take(i + 1).drop_last() =~= bs.take(i as int));
                assert(bs.take(i + 1).last() == b@);
                assert(0 <= bs[i as int].offset);
            }
            out.push(b.summary());
            if b.active {
                active = active + 1;
            } else {
                inactive = inactive + 1;
            }
            match b.region {
                OemInfoRegion::A => {
                    ra = ra + 1;
                },
                OemInfoRegion::B => {
                    rb = rb + 1;
                },
                OemInfoRegion::Unknown => {
                    ru = ru + 1;
                },
            }
            match b.layout {
                OemInfoLayout::Standard => {
                    st = st + 1;
                },
                OemInfoLayout::StandardCompact => {
                    co = co + 1;
                },
                OemInfoLayout::Reused => {
                    re = re + 1;
                },
            }
            i = i + 1;
        }
        proof {
            assert(bs.take(n as int) =~= bs);
            assert forall|i: int, j: int| 0 <= i < j < out@.len() implies (#[trigger] out@[i]).offset
                + out@[i].header_size + out@[i].length <= (#[trigger] out@[j]).offset by {
                assert(summarizes(out@[i], bs[i]));
                assert(summarizes(out@[j], bs[j]));
                assert(bs[i].offset + bs[i].header_size + bs[i].length <= bs[j].offset);
            }
        }
        OemInfoImageSummary {
            file_size: self.raw.len() as u64,
            region_size: self.region_size as u64,
            candidate_headers: self.candidate_headers,
            discarded_headers: self.discarded_headers,
            total_blocks: n,
            active_blocks: active,
            inactive_blocks: inactive,
            region_a_blocks: ra,
            region_b_blocks: rb,
            unknown_region_blocks: ru,
            standard_blocks: st,
            compact_blocks: co,
            reused_blocks: re,
            blocks: out,
        }
    }
}

// ---------------------------------------------------------------------------
// Embedded images.

/// An image stored in a block.
#[derive(Debug, Clone, PartialEq, Eq)]
pub struct OemInfoEmbeddedImage {
    pub kind: OemInfoPayloadKind,
    pub data: Vec<u8>,
}

/// The header size a layout has.
pub open spec fn expected_header_size(l: OemInfoLayout) -> int {
    if l == OemInfoLayout::Reused {
        0x40
    } else {
        0x200
    }
}

/// The padding byte of a header read back for `layout`: `None` where a
/// standard header is not padded throughout.
pub open spec fn header_padding_of(header: Seq<u8>, layout: OemInfoLayout) -> Option<u8> {
    if layout == OemInfoLayout::Reused {
        Some(
            match uniform_of(header.subrange(32, header.len() as int)) {
                Some(x) => x,
                None => match uniform_of(header.subrange(28, 32)) {
                    Some(x) => x,
                    None => 0u8,
                },
            },
        )
    } else {
        standard_padding_of(header, 0)
    }
}

/// Whether a block's header, read again, still says what the summary says.
pub open spec fn block_header_check(header: Seq<u8>, b: OemInfoBlockSummary) -> Result<(), OemInfoError> {
    if header.len() != b.header_size {
        Err(OemInfoError::HeaderSizeChanged)
    } else if header.len() < 0x40 || header.subrange(0, 8) != oem_magic() {
        Err(OemInfoError::MagicChanged)
    } else if le_u32_at(header, 8) != b.version || le_u32_at(header, 12) != b.id || le_u32_at(
        header,
        16,
    ) != b.sub_id || le_u32_at(header, 20) != b.length || le_u32_at(header, 24) != b.age {
        Err(OemInfoError::FieldChanged)
    } else if b.version == 0 || b.version > MAX_PLAUSIBLE_VERSION {
        Err(OemInfoError::InvalidVersion)
    } else {
        match header_padding_of(header, b.layout) {
            Some(p) => if p == b.header_padding_byte {
                Ok(())
            } else {
                Err(OemInfoError::PaddingChanged)
            },
            None => Err(OemInfoError::PaddingChanged),
        }
    }
}

/// Whether the first 28 bytes of an image payload still say what the
/// summary says.
pub open spec fn image_header_check(ih: Seq<u8>, b: OemInfoBlockSummary) -> Result<(), OemInfoError> {
    let end = le_u32_at(ih, 4);
    let ra = le_u32_at(ih, 8);
    if le_u32_at(ih, 0) != IMAGE_DATA_OFFSET {
        Err(OemInfoError::DataOffsetChanged)
    } else if end < ra || end - ra != b.length {
        Err(OemInfoError::LengthHeaderInvalid)
    } else if b.image_random_adjust != Some(ra) {
        Err(OemInfoError::RandomAdjustChanged)
    } else if opt_str(b.image_version_hex) != Some(hex_encode(ih.subrange(12, 24), true)) {
        Err(OemInfoError::VersionChanged)
    } else {
        match image_kind_of(ih.subrange(24, 28)) {
            None => Err(OemInfoError::SignatureUnsupported),
            Some(k) => if k == b.payload_kind {
                Ok(())
            } else {
                Err(OemInfoError::KindChanged)
            },
        }
    }
}

/// The image a block holds, read from the file's bytes after checking
/// that the block is still as summarised; at most `max` bytes of image.
pub open spec fn embedded_of(file: Seq<u8>, b: OemInfoBlockSummary, max: u64) -> Result<Seq<u8>, OemInfoError> {
    let hs = expected_header_size(b.layout);
    let po = b.offset + hs;
    let pe = po + b.length;
    let isz = b.length - IMAGE_DATA_OFFSET;
    if !(b.payload_kind == OemInfoPayloadKind::ImageRaw || b.payload_kind
        == OemInfoPayloadKind::ImageGzip) {
        Err(OemInfoError::NotAnImage)
    } else if b.header_size != hs {
        Err(OemInfoError::HeaderSizeChanged)
    } else if b.layout == OemInfoLayout::Standard && b.offset % 0x1000 != 0 {
        Err(OemInfoError::NotAligned)
    } else if po > u64::MAX {
        Err(OemInfoError::RangeOverflow)
    } else if po > file.len() {
        Err(OemInfoError::HeaderTruncated)
    } else {
        match block_header_check(file.subrange(b.offset as int, po), b) {
            Err(e) => Err(e),
            Ok(_) => if b.length < IMAGE_DATA_OFFSET + 2 {
                Err(OemInfoError::PayloadTooShort)
            } else if isz > max {
                Err(OemInfoError::ImageTooLarge)
            } else if pe > u64::MAX {
                Err(OemInfoError::RangeOverflow)
            } else if pe > file.len() {
                Err(OemInfoError::PayloadTruncated)
            } else {
                match image_header_check(file.subrange(po, po + 28), b) {
                    Err(e) => Err(e),
                    Ok(_) => Ok(file.subrange(po + IMAGE_DATA_OFFSET, pe)),
                }
            },
        }
    }
}

fn check_block_header(file: &[u8], start: usize, end: usize, b: &OemInfoBlockSummary) -> (r: Result<(), OemInfoError>)
    requires
        start <= end <= file@.len(),
    ensures
        r == block_header_check(file@.subrange(start as int, end as int), *b),
{
    let h = vstd::slice::slice_subrange(file, start, end);
    let n = h.len();
    if n as u64 != b.header_size as u64 {
        return Err(OemInfoError::HeaderSizeChanged);
    }
    if n < 0x40 || !magic_here(h, 0) {
        return Err(OemInfoError::MagicChanged);
    }
    if le_u32(h, 8) != b.version || le_u32(h, 12) != b.id || le_u32(h, 16) != b.sub_id || le_u32(h, 20)
        != b.length || le_u32(h, 24) != b.age {
        return Err(OemInfoError::FieldChanged);
    }
    if b.version == 0 || b.version > MAX_PLAUSIBLE_VERSION {
        return Err(OemInfoError::InvalidVersion);
    }
    let padding = if b.layout == OemInfoLayout::Reused {
        let tail = uniform_byte(h, 32, n);
        let field = uniform_byte(h, 28, 32);
        Some(
            match tail {
                Some(x) => x,
                None => match field {
                    Some(x) => x,
                    None => 0,
                },
            },
        )
    } else {
        standard_padding(h, 0)
    };
    match padding {
        Some(p) => if p == b.header_padding_byte {
            Ok(())
        } else {
            Err(OemInfoError::PaddingChanged)
        },
        None => Err(OemInfoError::PaddingChanged),
    }
}

fn check_image_header(file: &[u8], start: usize, b: &OemInfoBlockSummary) -> (r: Result<(), OemInfoError>)
    requires
        start + 28 <= file@.len(),
    ensures
        r == image_header_check(file@.subrange(start as int, start + 28), *b),
{
    let _len = file.len();
    let ih = vstd::slice::slice_subrange(file, start, start + 28);
    if le_u32(ih, 0) as usize != IMAGE_DATA_OFFSET {
        return Err(OemInfoError::DataOffsetChanged);
    }
    let end = le_u32(ih, 4);
    let ra = le_u32(ih, 8);
    if end < ra || end - ra != b.length {
        return Err(OemInfoError::LengthHeaderInvalid);
    }
    match b.image_random_adjust {
        Some(x) => if x != ra {
            return Err(OemInfoError::RandomAdjustChanged);
        },
        None => {
            return Err(OemInfoError::RandomAdjustChanged);
        },
    }
    let vb = vstd::slice::slice_subrange(ih, 12, 24);
    let hex = hex_string(vb, true);
    let same_version = match &b.image_version_hex {
        Some(v) => str_eq(v.as_str(), hex.as_str()),
        None => false,
    };
    if !same_version {
        return Err(OemInfoError::VersionChanged);
    }
    match image_kind(ih, 24) {
        None => Err(OemInfoError::SignatureUnsupported),
        Some(k) => if k == b.payload_kind {
            Ok(())
        } else {
            Err(OemInfoError::KindChanged)
        },
    }
}

/// The image stored in `block`, read from the bytes of the file the
/// block was found in, after checking that the block is still as
/// summarised; refused above `max_image_size` bytes.
pub fn read_embedded_image_with_limit(
    file: &[u8],
    block: &OemInfoBlockSummary,
    max_image_size: u64,
) -> (r: Result<OemInfoEmbeddedImage, OemInfoError>)
    ensures
        match embedded_of(file@, *block, max_image_size) {
            Ok(d) => r matches Ok(img) && img.kind == block.payload_kind && img.data@ == d,
            Err(e) => r matches Err(f) && f == e,
        },
{
    let b = block;
    if !(b.payload_kind == OemInfoPayloadKind::ImageRaw || b.payload_kind == OemInfoPayloadKind::ImageGzip) {
        return Err(OemInfoError::NotAnImage);
    }
    let hs: u64 = if b.layout == OemInfoLayout::Reused {
        0x40
    } else {
        0x200
    };
    if b.header_size as u64 != hs {
        return Err(OemInfoError::HeaderSizeChanged);
    }
    if b.layout == OemInfoLayout::Standard && b.offset % 0x1000 != 0 {
        return Err(OemInfoError::NotAligned);
    }
    if b.offset > u64::MAX - hs {
        return Err(OemInfoError::RangeOverflow);
    }
    let po = b.offset + hs;
    let file_size = file.len() as u64;
    if po > file_size {
        return Err(OemInfoError::HeaderTruncated);
    }
    check_block_header(file, b.offset as usize, po as usize, b)?;
    if (b.length as usize) < IMAGE_DATA_OFFSET + 2 {
        return Err(OemInfoError::PayloadTooShort);
    }
    let isz = b.length as u64 - IMAGE_DATA_OFFSET as u64;
    if isz > max_image_size {
        return Err(OemInfoError::ImageTooLarge);
    }
    if po > u64::MAX - b.length as u64 {
        return Err(OemInfoError::RangeOverflow);
    }
    let pe = po + b.length as u64;
    if pe > file_size {
        return Err(OemInfoError::PayloadTruncated);
    }
    check_image_header(file, po as usize, b)?;
    let data = vstd::slice::slice_to_vec(
        vstd::slice::slice_subrange(file, po as usize + IMAGE_DATA_OFFSET, pe as usize),
    );
    Ok(OemInfoEmbeddedImage { kind: b.payload_kind, data })
}

/// `read_embedded_image_with_limit` with the 256 MiB limit.
pub fn read_embedded_image(file: &[u8], block: &OemInfoBlockSummary) -> (r: Result<
    OemInfoEmbeddedImage,
    OemInfoError,
>)
    ensures
        match embedded_of(file@, *block, OEMINFO_MAX_EMBEDDED_IMAGE_SIZE) {
            Ok(d) => r matches Ok(img) && img.kind == block.payload_kind && img.data@ == d,
            Err(e) => r matches Err(f) && f == e,
        },
{
    read_embedded_image_with_limit(file, block, OEMINFO_MAX_EMBEDDED_IMAGE_SIZE)
}

} // verus!
