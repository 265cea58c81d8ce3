//! What `partition-info` reports of a signed partition image: the
//! HARMONY! header, HVB footer and certificate fields, checked against
//! each other.

use vstd::prelude::*;
use crate::harmony::{HarmonyHeader, HvbFrame};
use crate::hvb::{HvbCert, HvbError, HvbFooter, HvbWrapper};
use crate::rvt::RvtTable;

verus! {

/// The certificate fields reported.
#[derive(Debug, Clone)]
pub struct CertSummary {
    pub version_major: u32,
    pub version_minor: u32,
    pub partition_name: String,
    pub image_original_len: u64,
    pub image_len: u64,
    pub verity_type: u32,
    pub hash_algo: u32,
    pub salt_size: u64,
    pub digest_size: u64,
}

/// A HARMONY! image as reported.
#[derive(Debug, Clone)]
pub struct HarmonySummary {
    pub hdr_size: u32,
    pub image_size: u32,
    pub flags: u32,
    pub buildvariant: String,
    pub footer: HvbFooter,
    pub cert: CertSummary,
}

/// What a partition image was found to be.
pub enum PartitionSummary {
    Harmony(HarmonySummary),
    Rvt(RvtTable),
    HvbWrapped { footer: HvbFooter, cert: Option<CertSummary>, cert_error: Option<HvbError> },
}

/// Why a HARMONY! image's ranges were refused.
#[derive(Debug, Clone, Copy, PartialEq, Eq, Structural)]
pub enum PartitionError {
    PayloadRangeOverflow,
    InvalidImageRange,
}

/// Whether `s` reports `c`.
pub open spec fn cert_summarizes(s: CertSummary, c: HvbCert) -> bool {
    &&& s.version_major == c.version_major
    &&& s.version_minor == c.version_minor
    &&& s.partition_name@ == c.partition_name@
    &&& s.image_original_len == c.image_original_len
    &&& s.image_len == c.image_len
    &&& s.verity_type == c.verity_type
    &&& s.hash_algo == c.hash_algo
    &&& s.salt_size == c.salt_size
    &&& s.digest_size == c.digest_size
}

/// The certificate fields reported.
pub fn summarize_cert(c: &HvbCert) -> (r: CertSummary)
    ensures
        cert_summarizes(r, *c),
{
    CertSummary {
        version_major: c.version_major,
        version_minor: c.version_minor,
        partition_name: c.partition_name.clone(),
        image_original_len: c.image_original_len,
        image_len: c.image_len,
        verity_type: c.verity_type,
        hash_algo: c.hash_algo,
        salt_size: c.salt_size,
        digest_size: c.digest_size,
    }
}

/// Whether a HARMONY! header fits its HVB footer: a header of at least
/// 0x20 bytes, header and payload inside the signed image, and the image
/// before the certificate.
pub open spec fn harmony_ranges_ok(hdr_size: u32, image_size: u32, f: HvbFooter) -> Result<(), PartitionError> {
    let end = hdr_size + image_size;
    if end > u64::MAX {
        Err(PartitionError::PayloadRangeOverflow)
    } else if hdr_size < 0x20 || hdr_size > f.image_size || end > f.image_size || f.image_size
        > f.cert_offset {
        Err(PartitionError::InvalidImageRange)
    } else {
        Ok(())
    }
}

/// Whether `s` reports `h`, `f` and `c`.
pub open spec fn harmony_summarizes(s: HarmonySummary, h: HarmonyHeader, f: HvbFooter, c: HvbCert) -> bool {
    &&& s.hdr_size == h.hdr_size
    &&& s.image_size == h.image_size
    &&& s.flags == h.flags
    &&& s.buildvariant@ == h.buildvariant@
    &&& s.footer == f
    &&& cert_summarizes(s.cert, c)
}

/// The report of a HARMONY! image read from its header, footer and
/// certificate; see [`harmony_ranges_ok`].
pub fn summarize_harmony(h: &HarmonyHeader, f: &HvbFooter, c: &HvbCert) -> (r: Result<
    HarmonySummary,
    PartitionError,
>)
    ensures
        match harmony_ranges_ok(h.hdr_size, h.image_size, *f) {
            Ok(_) => r matches Ok(s) && harmony_summarizes(s, *h, *f, *c),
            Err(e) => r matches Err(x) && x == e,
        },
{
    let hs = h.hdr_size as u64;
    let end = hs + h.image_size as u64;
    if hs < 0x20 || hs > f.image_size || end > f.image_size || f.image_size > f.cert_offset {
        return Err(PartitionError::InvalidImageRange);
    }
    Ok(
        HarmonySummary {
            hdr_size: h.hdr_size,
            image_size: h.image_size,
            flags: h.flags,
            buildvariant: h.buildvariant.clone(),
            footer: *f,
            cert: summarize_cert(c),
        },
    )
}

/// The report of a parsed frame.
pub fn frame_summary(frame: &HvbFrame) -> (r: HarmonySummary)
    ensures
        harmony_summarizes(r, frame.harmony, frame.footer, frame.cert),
{
    HarmonySummary {
        hdr_size: frame.harmony.hdr_size,
        image_size: frame.harmony.image_size,
        flags: frame.harmony.flags,
        buildvariant: frame.harmony.buildvariant.clone(),
        footer: frame.footer,
        cert: summarize_cert(&frame.cert),
    }
}

/// Whether `s` reports the certificate stored in `buf`.
pub open spec fn summarizes_cert_bytes(s: CertSummary, buf: Seq<u8>) -> bool {
    &&& s.version_major == crate::bytes::le_u32_at(buf, 4)
    &&& s.version_minor == crate::bytes::le_u32_at(buf, 8)
    &&& s.image_original_len == crate::bytes::le_u64_at(buf, 48)
    &&& s.image_len == crate::bytes::le_u64_at(buf, 56)
    &&& s.partition_name@ == crate::text::lossy_utf8(crate::hvb::cert_name_bytes(buf))
    &&& s.verity_type == crate::bytes::le_u32_at(buf, 144)
    &&& s.hash_algo == crate::bytes::le_u32_at(buf, 148)
    &&& s.salt_size == crate::bytes::le_u64_at(buf, 160)
    &&& s.digest_size == crate::bytes::le_u64_at(buf, 176)
}

/// The report of an HVB-wrapped image: the footer, and the certificate or
/// why it did not parse.
pub fn summarize_wrapper(w: &HvbWrapper) -> (r: PartitionSummary)
    ensures
        r matches PartitionSummary::HvbWrapped { footer, cert, cert_error } && footer == w.footer
            && (crate::hvb::is_cert(w.certificate@) ==> (cert matches Some(s) && cert_error is None
            && summarizes_cert_bytes(s, w.certificate@)))
            && (!crate::hvb::is_cert(w.certificate@) ==> (cert is None && cert_error is Some)),
{
    match HvbCert::parse(w.certificate.as_slice()) {
        Ok(c) => {
            let s = summarize_cert(&c);
            proof {
                assert(crate::hvb::cert_fields(c, w.certificate@));
            }
            PartitionSummary::HvbWrapped { footer: w.footer, cert: Some(s), cert_error: None }
        },
        Err(e) => PartitionSummary::HvbWrapped { footer: w.footer, cert: None, cert_error: Some(e) },
    }
}

/// The name of a verity type.
pub fn verity_type_name(t: u32) -> (r: &'static str)
    ensures
        t == 1 ==> r@ == "hash"@,
        t == 2 ==> r@ == "hashtree"@,
        t != 1 && t != 2 ==> r@ == "?"@,
{
    if t == 1 {
        "hash"
    } else if t == 2 {
        "hashtree"
    } else {
        "?"
    }
}

/// The name of a hash algorithm.
pub fn hash_algo_name(a: u32) -> (r: &'static str)
    ensures
        a == 0 ==> r@ == "SHA256"@,
        a == 1 ==> r@ == "SHA128"@,
        a == 2 ==> r@ == "SHA512"@,
        a == 3 ==> r@ == "SM3"@,
        a > 3 ==> r@ == "?"@,
{
    if a == 0 {
        "SHA256"
    } else if a == 1 {
        "SHA128"
    } else if a == 2 {
        "SHA512"
    } else if a == 3 {
        "SM3"
    } else {
        "?"
    }
}

} // verus!
