//! The HVB footer that closes a signed partition image, the HVB certificate
//! it points at, and the checks made before copying a rebuilt image into the
//! original signed frame.

use vstd::prelude::*;
use vstd::bytes::{spec_u64_to_le_bytes, u64_to_le_bytes, lemma_auto_spec_u64_to_from_le_bytes};
use vstd::utf8::{valid_utf8, decode_utf8};
use crate::bytes::{le_u32, le_u64, le_u32_at, le_u64_at};
use crate::text::{find_nul, lossy_string, lossy_utf8, nul_end, utf8_string};

verus! {

pub const FOOTER_SIZE: usize = 104;
pub const CERT_MIN_LEN: usize = 240;
pub const CERT_NAME_OFFSET: usize = 64;
pub const CERT_NAME_END: usize = 128;
pub const MAX_CERT_SIZE: u64 = 16777216;

/// `HVB\0\0\0\0\0`, the footer magic.
pub open spec fn footer_magic() -> Seq<u8> {
    seq![0x48u8, 0x56, 0x42, 0, 0, 0, 0, 0]
}

/// `HVB\0`, the certificate magic.
pub open spec fn cert_magic() -> Seq<u8> {
    seq![0x48u8, 0x56, 0x42, 0]
}

/// The 104-byte footer at the end of an HVB-signed partition.
#[derive(Debug, Clone, Copy, PartialEq, Eq, Structural)]
pub struct HvbFooter {
    pub cert_offset: u64,
    pub cert_size: u64,
    pub image_size: u64,
    pub partition_size: u64,
}

/// Why bytes were not an HVB footer or certificate.
#[derive(Debug, Clone, Copy, PartialEq, Eq, Structural)]
pub enum HvbError {
    NotFooter,
    CertTooSmall,
    NotCert,
}

/// Whether `bytes` is exactly a footer: 104 bytes starting with the magic.
pub open spec fn is_footer(bytes: Seq<u8>) -> bool {
    bytes.len() == FOOTER_SIZE && bytes.subrange(0, 8) == footer_magic()
}

/// The footer fields stored in footer bytes.
pub open spec fn footer_of(bytes: Seq<u8>) -> HvbFooter {
    HvbFooter {
        cert_offset: le_u64_at(bytes, 8),
        cert_size: le_u64_at(bytes, 16),
        image_size: le_u64_at(bytes, 24),
        partition_size: le_u64_at(bytes, 32),
    }
}

/// The footer as written: magic, the four little-endian fields, then zeros.
pub open spec fn footer_bytes(f: HvbFooter) -> Seq<u8> {
    footer_magic() + spec_u64_to_le_bytes(f.cert_offset) + spec_u64_to_le_bytes(f.cert_size)
        + spec_u64_to_le_bytes(f.image_size) + spec_u64_to_le_bytes(f.partition_size) + Seq::new(
        64,
        |i: int| 0u8,
    )
}

fn starts_with(bytes: &[u8], magic: &[u8]) -> (r: bool)
    ensures
        r == (bytes@.len() >= magic@.len() && bytes@.subrange(0, magic@.len() as int) == magic@),
{
    if bytes.len() < magic.len() {
        return false;
    }
    let mut i: usize = 0;
    while i < magic.len()
        invariant
            i <= magic@.len() <= bytes@.len(),
            forall|k: int| 0 <= k < i ==> bytes@[k] == magic@[k],
        decreases magic@.len() - i,
    {
        if bytes[i] != magic[i] {
            proof {
                assert(bytes@.subrange(0, magic@.len() as int)[i as int] != magic@[i as int]);
            }
            return false;
        }
        i = i + 1;
    }
    proof {
        assert(bytes@.subrange(0, magic@.len() as int) =~= magic@);
    }
    true
}

pub fn has_footer_magic(bytes: &[u8]) -> (r: bool)
    ensures
        r == (bytes@.len() >= 8 && bytes@.subrange(0, 8) == footer_magic()),
{
    let magic: [u8; 8] = [0x48, 0x56, 0x42, 0, 0, 0, 0, 0];
    proof {
        assert(magic@ =~= footer_magic());
    }
    starts_with(bytes, magic.as_slice())
}

pub fn has_cert_magic(bytes: &[u8]) -> (r: bool)
    ensures
        r == (bytes@.len() >= 4 && bytes@.subrange(0, 4) == cert_magic()),
{
    let magic: [u8; 4] = [0x48, 0x56, 0x42, 0];
    proof {
        assert(magic@ =~= cert_magic());
    }
    starts_with(bytes, magic.as_slice())
}

impl HvbFooter {
    /// Parses exactly 104 footer bytes.
    pub fn parse(bytes: &[u8]) -> (r: Result<HvbFooter, HvbError>)
        ensures
            is_footer(bytes@) ==> r == Ok::<HvbFooter, HvbError>(footer_of(bytes@)),
            !is_footer(bytes@) ==> r == Err::<HvbFooter, HvbError>(HvbError::NotFooter),
    {
        if bytes.len() != FOOTER_SIZE || !has_footer_magic(bytes) {
            return Err(HvbError::NotFooter);
        }
        Ok(
            HvbFooter {
                cert_offset: le_u64(bytes, 8),
                cert_size: le_u64(bytes, 16),
                image_size: le_u64(bytes, 24),
                partition_size: le_u64(bytes, 32),
            },
        )
    }

    /// The 104 footer bytes.
    pub fn to_bytes(&self) -> (r: [u8; 104])
        ensures
            r@ == footer_bytes(*self),
    {
        let mut bytes = [0u8; 104];
        let magic: [u8; 8] = [0x48, 0x56, 0x42, 0, 0, 0, 0, 0];
        let fields: [u64; 4] = [self.cert_offset, self.cert_size, self.image_size, self.partition_size];
        let mut i: usize = 0;
        while i < 8
            invariant
                i <= 8,
                bytes@.len() == 104,
                magic@ == footer_magic(),
                forall|k: int| 0 <= k < i ==> bytes@[k] == magic@[k],
                forall|k: int| 8 <= k < 104 ==> bytes@[k] == 0,
            decreases 8 - i,
        {
            bytes.set(i, magic[i]);
            i = i + 1;
        }
        let mut f: usize = 0;
        while f < 4
            invariant
                f <= 4,
                bytes@.len() == 104,
                fields@ == seq![self.cert_offset, self.cert_size, self.image_size, self.partition_size],
                forall|k: int| 0 <= k < 8 ==> bytes@[k] == footer_magic()[k],
                forall|g: int, k: int|
                    0 <= g < f && 0 <= k < 8 ==> bytes@[8 + 8 * g + k] == #[trigger] spec_u64_to_le_bytes(
                        fields@[g],
                    )[k],
                forall|k: int| 8 + 8 * f <= k < 104 ==> bytes@[k] == 0,
            decreases 4 - f,
        {
            let le = u64_to_le_bytes(fields[f]);
            let mut j: usize = 0;
            while j < 8
                invariant
                    f < 4,
                    j <= 8,
                    le@ == spec_u64_to_le_bytes(fields@[f as int]),
                    le@.len() == 8,
                    bytes@.len() == 104,
                    fields@ == seq![self.cert_offset, self.cert_size, self.image_size, self.partition_size],
                    forall|k: int| 0 <= k < 8 ==> bytes@[k] == footer_magic()[k],
                    forall|g: int, k: int|
                        0 <= g < f && 0 <= k < 8 ==> bytes@[8 + 8 * g + k] == #[trigger] spec_u64_to_le_bytes(
                            fields@[g],
                        )[k],
                    forall|k: int| 0 <= k < j ==> bytes@[8 + 8 * f + k] == le@[k],
                    forall|k: int| 8 + 8 * f + j <= k < 104 ==> bytes@[k] == 0,
                decreases 8 - j,
            {
                bytes.set(8 + 8 * f + j, le[j]);
                j = j + 1;
            }
            f = f + 1;
        }
        proof {
            lemma_auto_spec_u64_to_from_le_bytes();
            let expected = footer_bytes(*self);
            assert(expected.len() == 104);
            assert forall|k: int| 0 <= k < 104 implies bytes@[k] == expected[k] by {
                if 8 <= k < 40 {
                    let g = (k - 8) / 8;
                    let j = (k - 8) % 8;
                    assert(k == 8 + 8 * g + j);
                    assert(bytes@[8 + 8 * g + j] == spec_u64_to_le_bytes(fields@[g])[j]);
                    if g == 0 {
                        assert(expected[k] == spec_u64_to_le_bytes(self.cert_offset)[j]);
                    } else if g == 1 {
                        assert(expected[k] == spec_u64_to_le_bytes(self.cert_size)[j]);
                    } else if g == 2 {
                        assert(expected[k] == spec_u64_to_le_bytes(self.image_size)[j]);
                    } else {
                        assert(expected[k] == spec_u64_to_le_bytes(self.partition_size)[j]);
                    }
                }
            }
            assert(bytes@ =~= expected);
        }
        bytes
    }

    /// The footer bytes (the same as [`HvbFooter::to_bytes`]).
    pub fn serialize(&self) -> (r: [u8; 104])
        ensures
            r@ == footer_bytes(*self),
    {
        self.to_bytes()
    }
}

/// Parsing the bytes written for a footer gives the footer back.
pub proof fn lemma_footer_roundtrip(f: HvbFooter)
    ensures
        is_footer(footer_bytes(f)),
        footer_of(footer_bytes(f)) == f,
{
    lemma_auto_spec_u64_to_from_le_bytes();
    let b = footer_bytes(f);
    assert(b.subrange(0, 8) =~= footer_magic());
    assert(b.subrange(8, 16) =~= spec_u64_to_le_bytes(f.cert_offset));
    assert(b.subrange(16, 24) =~= spec_u64_to_le_bytes(f.cert_size));
    assert(b.subrange(24, 32) =~= spec_u64_to_le_bytes(f.image_size));
    assert(b.subrange(32, 40) =~= spec_u64_to_le_bytes(f.partition_size));
}

/// Footer bytes whose reserved tail is all zero are exactly what writing the
/// parsed footer gives back.
pub proof fn lemma_footer_bytes_roundtrip(bytes: Seq<u8>)
    requires
        is_footer(bytes),
        forall|k: int| 40 <= k < 104 ==> bytes[k] == 0,
    ensures
        footer_bytes(footer_of(bytes)) == bytes,
{
    lemma_auto_spec_u64_to_from_le_bytes();
    let f = footer_of(bytes);
    assert(spec_u64_to_le_bytes(f.cert_offset) =~= bytes.subrange(8, 16));
    assert(spec_u64_to_le_bytes(f.cert_size) =~= bytes.subrange(16, 24));
    assert(spec_u64_to_le_bytes(f.image_size) =~= bytes.subrange(24, 32));
    assert(spec_u64_to_le_bytes(f.partition_size) =~= bytes.subrange(32, 40));
    assert(footer_bytes(f) =~= bytes);
}

/// The HVB certificate fields that the tools report, with its raw bytes.
#[derive(Debug, Clone)]
pub struct HvbCert {
    pub version_major: u32,
    pub version_minor: u32,
    pub image_original_len: u64,
    pub image_len: u64,
    pub partition_name: String,
    pub verity_type: u32,
    pub hash_algo: u32,
    pub salt_offset: u64,
    pub salt_size: u64,
    pub digest_offset: u64,
    pub digest_size: u64,
    pub raw: Vec<u8>,
}

/// The decoded name field: bytes 64..128 up to the first NUL, decoded lossily.
pub open spec fn cert_name_bytes(buf: Seq<u8>) -> Seq<u8> {
    buf.subrange(
        CERT_NAME_OFFSET as int,
        CERT_NAME_OFFSET + nul_end(buf.subrange(CERT_NAME_OFFSET as int, CERT_NAME_END as int)),
    )
}

/// Whether a certificate is well-formed enough to parse: 240 bytes or more,
/// starting with `HVB\0`.
pub open spec fn is_cert(buf: Seq<u8>) -> bool {
    buf.len() >= CERT_MIN_LEN && buf.subrange(0, 4) == cert_magic()
}

/// What a parse of certificate bytes yields.
pub open spec fn cert_fields(c: HvbCert, buf: Seq<u8>) -> bool {
    &&& c.version_major == le_u32_at(buf, 4)
    &&& c.version_minor == le_u32_at(buf, 8)
    &&& c.image_original_len == le_u64_at(buf, 48)
    &&& c.image_len == le_u64_at(buf, 56)
    &&& c.partition_name@ == lossy_utf8(cert_name_bytes(buf))
    &&& c.verity_type == le_u32_at(buf, 144)
    &&& c.hash_algo == le_u32_at(buf, 148)
    &&& c.salt_offset == le_u64_at(buf, 152)
    &&& c.salt_size == le_u64_at(buf, 160)
    &&& c.digest_offset == le_u64_at(buf, 168)
    &&& c.digest_size == le_u64_at(buf, 176)
    &&& c.raw@ == buf
}

impl HvbCert {
    /// Parses a certificate of at least 240 bytes.
    pub fn parse(buf: &[u8]) -> (r: Result<HvbCert, HvbError>)
        ensures
            buf@.len() < CERT_MIN_LEN ==> (r matches Err(e) && e == HvbError::CertTooSmall),
            buf@.len() >= CERT_MIN_LEN && !is_cert(buf@) ==> (r matches Err(e) && e
                == HvbError::NotCert),
            is_cert(buf@) ==> (r matches Ok(c) && cert_fields(c, buf@)),
    {
        if buf.len() < CERT_MIN_LEN {
            return Err(HvbError::CertTooSmall);
        }
        if !has_cert_magic(buf) {
            return Err(HvbError::NotCert);
        }
        let end = find_nul(buf, CERT_NAME_OFFSET, CERT_NAME_END);
        let name_bytes = vstd::slice::slice_subrange(buf, CERT_NAME_OFFSET, end);
        Ok(
            HvbCert {
                version_major: le_u32(buf, 4),
                version_minor: le_u32(buf, 8),
                image_original_len: le_u64(buf, 48),
                image_len: le_u64(buf, 56),
                partition_name: lossy_string(name_bytes),
                verity_type: le_u32(buf, 144),
                hash_algo: le_u32(buf, 148),
                salt_offset: le_u64(buf, 152),
                salt_size: le_u64(buf, 160),
                digest_offset: le_u64(buf, 168),
                digest_size: le_u64(buf, 176),
                raw: vstd::slice::slice_to_vec(buf),
            },
        )
    }
}

/// The partition name a certificate records: its name field up to the first
/// NUL, when that is non-empty valid UTF-8.
pub open spec fn cert_partition_name_of(buf: Seq<u8>) -> Option<Seq<char>> {
    if buf.len() < CERT_NAME_END || buf.subrange(0, 4) != cert_magic() {
        None
    } else {
        let name = cert_name_bytes(buf);
        if !valid_utf8(name) || name.len() == 0 {
            None
        } else {
            Some(decode_utf8(name))
        }
    }
}

pub fn cert_partition_name(buf: &[u8]) -> (r: Option<String>)
    ensures
        match cert_partition_name_of(buf@) {
            Some(n) => r matches Some(s) && s@ == n,
            None => r is None,
        },
{
    if buf.len() < CERT_NAME_END || !has_cert_magic(buf) {
        return None;
    }
    let end = find_nul(buf, CERT_NAME_OFFSET, CERT_NAME_END);
    if end == CERT_NAME_OFFSET {
        return None;
    }
    let name_bytes = vstd::slice::slice_subrange(buf, CERT_NAME_OFFSET, end);
    utf8_string(name_bytes)
}

/// The footer and certificate of an HVB-signed image whose payload is
/// stored without a HARMONY! frame.
#[derive(Debug, Clone)]
pub struct HvbWrapper {
    pub footer: HvbFooter,
    pub certificate: Vec<u8>,
}

/// Why a footer's ranges were refused.
#[derive(Debug, Clone, Copy, PartialEq, Eq, Structural)]
pub enum WrapperError {
    CertRangeOverflow,
    InvalidRanges,
    RawImageTooLarge { raw_size: u64, available: u64 },
    PartitionTooSmall,
    CertOverlapsFooter,
}

/// Whether the footer of a file of `length` bytes (at least 104) describes a
/// certificate inside the file, of at most 16 MiB, for a partition of exactly
/// that length.
pub open spec fn wrapper_ranges_of(footer: HvbFooter, length: u64) -> Result<(), WrapperError> {
    if footer.cert_offset + footer.cert_size > u64::MAX {
        Err(WrapperError::CertRangeOverflow)
    } else if footer.partition_size != length || footer.cert_offset + footer.cert_size > length
        - FOOTER_SIZE || footer.cert_size > MAX_CERT_SIZE {
        Err(WrapperError::InvalidRanges)
    } else {
        Ok(())
    }
}

/// Checks a footer read from the end of a file of `length` bytes before its
/// certificate is read.
pub fn check_wrapper_ranges(footer: &HvbFooter, length: u64) -> (r: Result<(), WrapperError>)
    requires
        length >= FOOTER_SIZE,
    ensures
        r == wrapper_ranges_of(*footer, length),
{
    if footer.cert_offset > u64::MAX - footer.cert_size {
        return Err(WrapperError::CertRangeOverflow);
    }
    let cert_end = footer.cert_offset + footer.cert_size;
    if footer.partition_size != length || cert_end > length - FOOTER_SIZE as u64 || footer.cert_size
        > MAX_CERT_SIZE {
        return Err(WrapperError::InvalidRanges);
    }
    Ok(())
}

/// Where a rebuilt raw image of `raw_size` bytes goes: the footer (with the
/// new image size) is written at the returned offset, the certificate at its
/// old offset.
pub open spec fn repack_plan_of(footer: HvbFooter, cert_len: int, raw_size: u64) -> Result<
    (u64, HvbFooter),
    WrapperError,
> {
    if raw_size > footer.cert_offset {
        Err(WrapperError::RawImageTooLarge { raw_size, available: footer.cert_offset })
    } else if footer.partition_size < FOOTER_SIZE {
        Err(WrapperError::PartitionTooSmall)
    } else if footer.cert_offset + cert_len > u64::MAX {
        Err(WrapperError::CertRangeOverflow)
    } else if footer.cert_offset + cert_len > footer.partition_size - FOOTER_SIZE {
        Err(WrapperError::CertOverlapsFooter)
    } else {
        Ok(
            (
                (footer.partition_size - FOOTER_SIZE) as u64,
                HvbFooter { image_size: raw_size, ..footer },
            ),
        )
    }
}

impl HvbWrapper {
    /// The partition name the certificate records, if any.
    pub fn partition_name(&self) -> (r: Option<String>)
        ensures
            match cert_partition_name_of(self.certificate@) {
                Some(n) => r matches Some(s) && s@ == n,
                None => r is None,
            },
    {
        cert_partition_name(self.certificate.as_slice())
    }

    /// Checks that a rebuilt raw image of `raw_size` bytes fits before the
    /// certificate and that the certificate ends before the footer; returns
    /// the footer offset and the footer to write.
    pub fn plan_repack(&self, raw_size: u64) -> (r: Result<(u64, HvbFooter), WrapperError>)
        ensures
            r == repack_plan_of(self.footer, self.certificate@.len() as int, raw_size),
    {
        if raw_size > self.footer.cert_offset {
            return Err(
                WrapperError::RawImageTooLarge { raw_size, available: self.footer.cert_offset },
            );
        }
        if self.footer.partition_size < FOOTER_SIZE as u64 {
            return Err(WrapperError::PartitionTooSmall);
        }
        let footer_end = self.footer.partition_size - FOOTER_SIZE as u64;
        let cert_len = self.certificate.len() as u64;
        if self.footer.cert_offset > u64::MAX - cert_len {
            return Err(WrapperError::CertRangeOverflow);
        }
        if self.footer.cert_offset + cert_len > footer_end {
            return Err(WrapperError::CertOverlapsFooter);
        }
        Ok((footer_end, HvbFooter { image_size: raw_size, ..self.footer }))
    }
}

} // verus!
