//! HARMONY!-framed images: a HARMONY! header and payload, padded, followed
//! by an HVB certificate and the HVB footer at the very end.

use vstd::prelude::*;
use vstd::bytes::{spec_u32_to_le_bytes, u32_to_le_bytes};
use crate::bytes::{be_u64, be_u64_at, le_u32, le_u32_at, write_bytes};
use crate::hvb::{
    cert_fields, footer_bytes, footer_of, has_footer_magic, is_cert, is_footer, HvbCert, HvbError,
    HvbFooter, CERT_MIN_LEN, FOOTER_SIZE,
};
use crate::text::{find_nul, lossy_string, lossy_utf8, nul_end};

verus! {

/// `HARMONY!`
pub open spec fn harmony_magic() -> Seq<u8> {
    seq![0x48u8, 0x41, 0x52, 0x4D, 0x4F, 0x4E, 0x59, 0x21]
}

/// The HARMONY! header fields and the header bytes they were read from.
#[derive(Debug, Clone)]
pub struct HarmonyHeader {
    pub hdr_size: u32,
    pub image_size: u32,
    pub flags: u32,
    pub buildvariant: String,
    pub raw: Vec<u8>,
}

pub struct HarmonyView {
    pub hdr_size: u32,
    pub image_size: u32,
    pub flags: u32,
    pub buildvariant: Seq<char>,
    pub raw: Seq<u8>,
}

impl View for HarmonyHeader {
    type V = HarmonyView;

    open spec fn view(&self) -> HarmonyView {
        HarmonyView {
            hdr_size: self.hdr_size,
            image_size: self.image_size,
            flags: self.flags,
            buildvariant: self.buildvariant@,
            raw: self.raw@,
        }
    }
}

/// Why an image was not a usable HARMONY!/HVB frame, or could not be rebuilt
/// or written.
#[derive(Debug, Clone, Copy, PartialEq, Eq, Structural)]
pub enum FrameError {
    NotHarmony,
    HeaderTooSmall,
    HeaderSizeTooLarge,
    FileTooSmall,
    HeaderOutsideFile,
    Footer(HvbError),
    PartitionSizeMismatch,
    CertOffsetUnsupported,
    CertSizeUnsupported,
    CertRangeOverflow,
    InvalidCertRange,
    Cert(HvbError),
    ImageSizeUnsupported,
    PayloadRangeOverflow,
    InvalidImageRange,
    HeaderTruncated,
    RebuiltSizeOverflow,
    PayloadTooLarge,
    ImageAlignmentOverflow,
    AlignedSizeUnsupported,
    CertOffsetOverflow,
    PartitionSizeOverflow,
    PartitionAlignmentOverflow,
    CertSizeMismatch,
    PartitionSizeUnsupported,
    PartitionTooSmall,
    CertOverlapsFooter,
}

/// The build-variant bytes: from offset 0x40 up to the first NUL.
pub open spec fn buildvariant_bytes(raw: Seq<u8>) -> Seq<u8> {
    if raw.len() <= 0x40 {
        Seq::empty()
    } else {
        raw.subrange(0x40, 0x40 + nul_end(raw.subrange(0x40, raw.len() as int)))
    }
}

/// What parsing header bytes gives.
pub open spec fn harmony_of(raw: Seq<u8>) -> Result<HarmonyView, FrameError> {
    if raw.len() < 8 || raw.subrange(0, 8) != harmony_magic() {
        Err(FrameError::NotHarmony)
    } else if raw.len() < 0x20 {
        Err(FrameError::HeaderTooSmall)
    } else if be_u64_at(raw, 8) > u32::MAX {
        Err(FrameError::HeaderSizeTooLarge)
    } else {
        Ok(
            HarmonyView {
                hdr_size: be_u64_at(raw, 8) as u32,
                image_size: le_u32_at(raw, 0x10),
                flags: (be_u64_at(raw, 0x18) & 0xFFFFFFFF) as u32,
                buildvariant: lossy_utf8(buildvariant_bytes(raw)),
                raw,
            },
        )
    }
}

fn has_harmony_magic(raw: &[u8]) -> (r: bool)
    ensures
        r == (raw@.len() >= 8 && raw@.subrange(0, 8) == harmony_magic()),
{
    if raw.len() < 8 {
        return false;
    }
    let magic: [u8; 8] = [0x48, 0x41, 0x52, 0x4D, 0x4F, 0x4E, 0x59, 0x21];
    let mut i: usize = 0;
    while i < 8
        invariant
            i <= 8,
            raw@.len() >= 8,
            magic@ == harmony_magic(),
            forall|k: int| 0 <= k < i ==> raw@[k] == magic@[k],
        decreases 8 - i,
    {
        if raw[i] != magic[i] {
            proof {
                assert(raw@.subrange(0, 8)[i as int] != harmony_magic()[i as int]);
            }
            return false;
        }
        i = i + 1;
    }
    proof {
        assert(raw@.subrange(0, 8) =~= harmony_magic());
    }
    true
}

impl HarmonyHeader {
    /// Parses a HARMONY! header of at least 32 bytes; the header size field
    /// is big-endian and must fit in 32 bits.
    pub fn parse(raw: &[u8]) -> (r: Result<HarmonyHeader, FrameError>)
        ensures
            match harmony_of(raw@) {
                Ok(v) => r matches Ok(h) && h@ == v,
                Err(e) => r matches Err(re) && re == e,
            },
    {
        if !has_harmony_magic(raw) {
            return Err(FrameError::NotHarmony);
        }
        if raw.len() < 0x20 {
            return Err(FrameError::HeaderTooSmall);
        }
        let hdr = be_u64(raw, 0x08);
        if hdr > u32::MAX as u64 {
            return Err(FrameError::HeaderSizeTooLarge);
        }
        let image_size = le_u32(raw, 0x10);
        let flags = (be_u64(raw, 0x18) & 0xFFFFFFFF) as u32;
        let buildvariant = if raw.len() <= 0x40 {
            lossy_string(vstd::slice::slice_subrange(raw, 0, 0))
        } else {
            let end = find_nul(raw, 0x40, raw.len());
            lossy_string(vstd::slice::slice_subrange(raw, 0x40, end))
        };
        proof {
            if raw@.len() <= 0x40 {
                assert(raw@.subrange(0, 0) =~= buildvariant_bytes(raw@));
            }
        }
        Ok(
            HarmonyHeader {
                hdr_size: hdr as u32,
                image_size,
                flags,
                buildvariant,
                raw: vstd::slice::slice_to_vec(raw),
            },
        )
    }
}

pub struct CertView {
    pub version_major: u32,
    pub version_minor: u32,
    pub image_original_len: u64,
    pub image_len: u64,
    pub partition_name: Seq<char>,
    pub verity_type: u32,
    pub hash_algo: u32,
    pub salt_offset: u64,
    pub salt_size: u64,
    pub digest_offset: u64,
    pub digest_size: u64,
    pub raw: Seq<u8>,
}

impl View for HvbCert {
    type V = CertView;

    open spec fn view(&self) -> CertView {
        CertView {
            version_major: self.version_major,
            version_minor: self.version_minor,
            image_original_len: self.image_original_len,
            image_len: self.image_len,
            partition_name: self.partition_name@,
            verity_type: self.verity_type,
            hash_algo: self.hash_algo,
            salt_offset: self.salt_offset,
            salt_size: self.salt_size,
            digest_offset: self.digest_offset,
            digest_size: self.digest_size,
            raw: self.raw@,
        }
    }
}

/// A HARMONY! frame held in memory: header, footer, certificate, and the
/// image area (header and payload, padded) that precedes the certificate.
#[derive(Debug, Clone)]
pub struct HvbFrame {
    pub harmony: HarmonyHeader,
    pub footer: HvbFooter,
    pub cert: HvbCert,
    pub image: Vec<u8>,
}

pub struct FrameView {
    pub harmony: HarmonyView,
    pub footer: HvbFooter,
    pub cert: CertView,
    pub image: Seq<u8>,
}

impl View for HvbFrame {
    type V = FrameView;

    open spec fn view(&self) -> FrameView {
        FrameView {
            harmony: self.harmony@,
            footer: self.footer,
            cert: self.cert@,
            image: self.image@,
        }
    }
}

/// The checks that `from_bytes` makes, in order, and the frame it returns;
/// the certificate is described by its byte range.
pub open spec fn frame_of(data: Seq<u8>) -> Result<(HarmonyView, HvbFooter, int, int, Seq<u8>), FrameError> {
    let len = data.len() as int;
    if len < FOOTER_SIZE + 8 {
        Err(FrameError::FileTooSmall)
    } else {
        let hl = if len < 0x800 { len } else { 0x800 };
        match harmony_of(data.subrange(0, hl)) {
            Err(e) => Err(e),
            Ok(h) => {
                let hdr = h.hdr_size as int;
                let fbytes = data.subrange(len - FOOTER_SIZE, len);
                let f = footer_of(fbytes);
                let co = f.cert_offset as int;
                let cs = f.cert_size as int;
                let ie = f.image_size as int;
                if hdr < 0x20 || hdr > len {
                    Err(FrameError::HeaderOutsideFile)
                } else if !is_footer(fbytes) {
                    Err(FrameError::Footer(HvbError::NotFooter))
                } else if f.partition_size != len {
                    Err(FrameError::PartitionSizeMismatch)
                } else if co > usize::MAX {
                    Err(FrameError::CertOffsetUnsupported)
                } else if cs > usize::MAX {
                    Err(FrameError::CertSizeUnsupported)
                } else if co + cs > usize::MAX {
                    Err(FrameError::CertRangeOverflow)
                } else if cs == 0 || co + cs > len - FOOTER_SIZE {
                    Err(FrameError::InvalidCertRange)
                } else if cs < CERT_MIN_LEN {
                    Err(FrameError::Cert(HvbError::CertTooSmall))
                } else if !is_cert(data.subrange(co, co + cs)) {
                    Err(FrameError::Cert(HvbError::NotCert))
                } else if ie > usize::MAX {
                    Err(FrameError::ImageSizeUnsupported)
                } else if hdr + h.image_size > usize::MAX {
                    Err(FrameError::PayloadRangeOverflow)
                } else if ie > co || hdr > ie || hdr + h.image_size > ie {
                    Err(FrameError::InvalidImageRange)
                } else {
                    Ok(
                        (
                            HarmonyView { raw: data.subrange(0, hdr), ..h },
                            f,
                            co,
                            co + cs,
                            data.subrange(0, ie),
                        ),
                    )
                }
            },
        }
    }
}

/// `x` rounded up to a multiple of `align` (unchanged when `align` is zero).
pub open spec fn align_up_of(x: int, align: int) -> int {
    if align == 0 || x % align == 0 {
        x
    } else {
        x + (align - x % align)
    }
}

/// Rounds up to a multiple of `align`; `None` when the result passes `u64::MAX`.
pub fn align_up(x: u64, align: u64) -> (r: Option<u64>)
    ensures
        align_up_of(x as int, align as int) <= u64::MAX ==> r == Some(
            align_up_of(x as int, align as int) as u64,
        ),
        align_up_of(x as int, align as int) > u64::MAX ==> r is None,
{
    if align == 0 {
        Some(x)
    } else {
        let remainder = x % align;
        if remainder == 0 {
            Some(x)
        } else {
            x.checked_add(align - remainder)
        }
    }
}

/// The payload bytes: `hdr_size .. hdr_size + image_size` of the image, or
/// nothing when that range is not inside it.
pub open spec fn payload_of(v: FrameView) -> Seq<u8> {
    let start = v.harmony.hdr_size as int;
    let end = start + v.harmony.image_size;
    if end > v.image.len() {
        Seq::empty()
    } else {
        v.image.subrange(start, end)
    }
}

/// `s` with `bytes` written at `offset`.
pub open spec fn splice(s: Seq<u8>, offset: int, bytes: Seq<u8>) -> Seq<u8> {
    s.subrange(0, offset) + bytes + s.subrange(offset + bytes.len(), s.len() as int)
}

/// The frame and outcome of replacing the payload, step by step as `rebuild`
/// changes it: a failure part-way leaves the changes made up to that point.
pub open spec fn rebuild_of(v: FrameView, payload: Seq<u8>) -> (FrameView, Result<(), FrameError>) {
    let hdr = v.harmony.hdr_size as int;
    if v.harmony.raw.len() < hdr {
        (v, Err(FrameError::HeaderTruncated))
    } else if hdr + payload.len() + 0x2000 > usize::MAX {
        (v, Err(FrameError::RebuiltSizeOverflow))
    } else if payload.len() > u32::MAX {
        (v, Err(FrameError::PayloadTooLarge))
    } else {
        let ps = payload.len() as u32;
        let size_bytes = spec_u32_to_le_bytes(ps);
        let h1 = HarmonyView {
            image_size: ps,
            raw: splice(v.harmony.raw, 0x10, size_bytes),
            ..v.harmony
        };
        let img0 = splice(v.harmony.raw.subrange(0, hdr) + payload, 0x10, size_bytes);
        let v1 = FrameView { harmony: h1, ..v };
        let n = img0.len() as int;
        let a = align_up_of(n, 0x800);
        if a > u64::MAX {
            (v1, Err(FrameError::ImageAlignmentOverflow))
        } else if a > usize::MAX {
            (v1, Err(FrameError::AlignedSizeUnsupported))
        } else {
            let img = img0 + Seq::new((a - n) as nat, |i: int| 0u8);
            let f1 = HvbFooter { image_size: a as u64, ..v.footer };
            let v2 = FrameView { footer: f1, ..v1 };
            let nco = if a <= v.footer.cert_offset {
                v.footer.cert_offset as int
            } else {
                align_up_of(a, 0x1000)
            };
            if nco > u64::MAX {
                (v2, Err(FrameError::CertOffsetOverflow))
            } else {
                let f2 = HvbFooter {
                    cert_offset: nco as u64,
                    cert_size: v.cert.raw.len() as u64,
                    ..f1
                };
                let v3 = FrameView { footer: f2, image: img, ..v2 };
                let cert_end = nco + v.cert.raw.len();
                if cert_end > u64::MAX {
                    (v3, Err(FrameError::CertRangeOverflow))
                } else if cert_end + FOOTER_SIZE > u64::MAX {
                    (v3, Err(FrameError::PartitionSizeOverflow))
                } else if f2.partition_size < cert_end + FOOTER_SIZE {
                    let p = align_up_of(cert_end + FOOTER_SIZE, 0x1000);
                    if p > u64::MAX {
                        (v3, Err(FrameError::PartitionAlignmentOverflow))
                    } else {
                        (FrameView { footer: HvbFooter { partition_size: p as u64, ..f2 }, ..v3 }, Ok(()))
                    }
                } else {
                    (v3, Ok(()))
                }
            }
        }
    }
}

/// The bytes `serialize` writes: the image area, the certificate at its
/// offset and the footer at the end of a partition of `partition_size`
/// bytes, zero everywhere else.
pub open spec fn serialize_of(v: FrameView) -> Result<Seq<u8>, FrameError> {
    let f = v.footer;
    let clen = v.cert.raw.len() as int;
    let total = f.partition_size as int;
    let co = f.cert_offset as int;
    let is = f.image_size as int;
    if f.cert_size != clen {
        Err(FrameError::CertSizeMismatch)
    } else if total > usize::MAX {
        Err(FrameError::PartitionSizeUnsupported)
    } else if total < FOOTER_SIZE {
        Err(FrameError::PartitionTooSmall)
    } else if co > usize::MAX {
        Err(FrameError::CertOffsetUnsupported)
    } else if co + clen > usize::MAX {
        Err(FrameError::CertRangeOverflow)
    } else if co + clen > total - FOOTER_SIZE {
        Err(FrameError::CertOverlapsFooter)
    } else if is > usize::MAX {
        Err(FrameError::ImageSizeUnsupported)
    } else if is > v.image.len() || is > co {
        Err(FrameError::InvalidImageRange)
    } else {
        Ok(
            v.image.subrange(0, is) + Seq::new((co - is) as nat, |i: int| 0u8) + v.cert.raw
                + Seq::new((total - FOOTER_SIZE - co - clen) as nat, |i: int| 0u8) + footer_bytes(f),
        )
    }
}

fn copy_range(data: &[u8], start: usize, end: usize) -> (r: Vec<u8>)
    requires
        start <= end <= data@.len(),
    ensures
        r@ == data@.subrange(start as int, end as int),
{
    vstd::slice::slice_to_vec(vstd::slice::slice_subrange(data, start, end))
}

impl HvbFrame {
    /// Reads a whole framed image held in memory.
    pub fn from_bytes(data: &[u8]) -> (r: Result<HvbFrame, FrameError>)
        ensures
            match frame_of(data@) {
                Ok((h, f, cs, ce, image)) => r matches Ok(frame) && frame.harmony@ == h
                    && frame.footer == f && cert_fields(frame.cert, data@.subrange(cs, ce))
                    && frame.image@ == image,
                Err(e) => r matches Err(re) && re == e,
            },
    {
        let len = data.len();
        if len < FOOTER_SIZE + 8 {
            return Err(FrameError::FileTooSmall);
        }
        let hl = if len < 0x800 {
            len
        } else {
            0x800
        };
        let mut harmony = match HarmonyHeader::parse(vstd::slice::slice_subrange(data, 0, hl)) {
            Ok(h) => h,
            Err(e) => {
                return Err(e);
            },
        };
        let hdr = harmony.hdr_size as usize;
        if hdr < 0x20 || hdr > len {
            return Err(FrameError::HeaderOutsideFile);
        }
        let footer = match HvbFooter::parse(vstd::slice::slice_subrange(data, len - FOOTER_SIZE, len)) {
            Ok(f) => f,
            Err(e) => {
                return Err(FrameError::Footer(e));
            },
        };
        if footer.partition_size != len as u64 {
            return Err(FrameError::PartitionSizeMismatch);
        }
        if footer.cert_offset > usize::MAX as u64 {
            return Err(FrameError::CertOffsetUnsupported);
        }
        if footer.cert_size > usize::MAX as u64 {
            return Err(FrameError::CertSizeUnsupported);
        }
        let cert_offset = footer.cert_offset as usize;
        let cert_size = footer.cert_size as usize;
        if cert_offset > usize::MAX - cert_size {
            return Err(FrameError::CertRangeOverflow);
        }
        let cert_end = cert_offset + cert_size;
        let footer_offset = len - FOOTER_SIZE;
        if cert_size == 0 || cert_end > footer_offset {
            return Err(FrameError::InvalidCertRange);
        }
        let cert = match HvbCert::parse(vstd::slice::slice_subrange(data, cert_offset, cert_end)) {
            Ok(c) => c,
            Err(e) => {
                return Err(FrameError::Cert(e));
            },
        };
        if footer.image_size > usize::MAX as u64 {
            return Err(FrameError::ImageSizeUnsupported);
        }
        let image_end = footer.image_size as usize;
        if hdr > usize::MAX - harmony.image_size as usize {
            return Err(FrameError::PayloadRangeOverflow);
        }
        let payload_end = hdr + harmony.image_size as usize;
        if image_end > cert_offset || hdr > image_end || payload_end > image_end {
            return Err(FrameError::InvalidImageRange);
        }
        harmony.raw = copy_range(data, 0, hdr);
        let image = copy_range(data, 0, image_end);
        Ok(HvbFrame { harmony, footer, cert, image })
    }

    /// The payload between the header and `hdr_size + image_size`, or an
    /// empty slice when that range is not inside the image.
    pub fn extract_image_payload(&self) -> (r: &[u8])
        ensures
            r@ == payload_of(self@),
    {
        let start = self.harmony.hdr_size as usize;
        let size = self.harmony.image_size as usize;
        let image = self.image.as_slice();
        if start > image.len() || size > image.len() - start {
            return vstd::slice::slice_subrange(image, 0, 0);
        }
        vstd::slice::slice_subrange(image, start, start + size)
    }

    /// Replaces the payload: the header is kept (with the new payload size),
    /// the image is padded to 2 KiB, the certificate moves to the next
    /// 4 KiB boundary when the image grew past it, and the partition grows
    /// when the certificate and footer no longer fit.
    pub fn rebuild(&mut self, new_payload: &[u8]) -> (r: Result<(), FrameError>)
        requires
            old(self).harmony.raw@.len() >= old(self).harmony.hdr_size && new_payload@.len()
                <= u32::MAX && old(self).harmony.hdr_size + new_payload@.len() + 0x2000
                <= usize::MAX ==> old(self).harmony.raw@.len() >= 0x14 && old(self).harmony.hdr_size
                + new_payload@.len() >= 0x14,
        ensures
            final(self)@ == rebuild_of(old(self)@, new_payload@).0,
            r == rebuild_of(old(self)@, new_payload@).1,
            final(self).cert == old(self).cert,
    {
        let hdr_size = self.harmony.hdr_size as usize;
        if self.harmony.raw.len() < hdr_size {
            return Err(FrameError::HeaderTruncated);
        }
        if hdr_size > usize::MAX - new_payload.len() || hdr_size + new_payload.len() > usize::MAX
            - 0x2000 {
            return Err(FrameError::RebuiltSizeOverflow);
        }
        if new_payload.len() > u32::MAX as usize {
            return Err(FrameError::PayloadTooLarge);
        }
        let payload_size = new_payload.len() as u32;
        let mut new_image = copy_range(self.harmony.raw.as_slice(), 0, hdr_size);
        let mut i: usize = 0;
        let ghost start_image = new_image@;
        while i < new_payload.len()
            invariant
                i <= new_payload@.len(),
                new_image@ == start_image + new_payload@.subrange(0, i as int),
            decreases new_payload@.len() - i,
        {
            new_image.push(new_payload[i]);
            proof {
                assert(new_image@ =~= start_image + new_payload@.subrange(0, i + 1));
            }
            i = i + 1;
        }
        proof {
            assert(new_payload@.subrange(0, new_payload@.len() as int) =~= new_payload@);
        }
        let size_bytes = u32_to_le_bytes(payload_size);
        self.harmony.image_size = payload_size;
        write_bytes(&mut self.harmony.raw, 0x10, size_bytes.as_slice());
        write_bytes(&mut new_image, 0x10, size_bytes.as_slice());
        let n = new_image.len();
        let new_image_size = match align_up(n as u64, 0x800) {
            Some(a) => a,
            None => {
                return Err(FrameError::ImageAlignmentOverflow);
            },
        };
        if new_image_size > usize::MAX as u64 {
            return Err(FrameError::AlignedSizeUnsupported);
        }
        let aligned_len = new_image_size as usize;
        let mut k: usize = n;
        let ghost unpadded = new_image@;
        while k < aligned_len
            invariant
                n <= k <= aligned_len,
                new_image@ == unpadded + Seq::new((k - n) as nat, |i: int| 0u8),
            decreases aligned_len - k,
        {
            new_image.push(0);
            proof {
                assert(new_image@ =~= unpadded + Seq::new((k + 1 - n) as nat, |i: int| 0u8));
            }
            k = k + 1;
        }
        self.footer.image_size = new_image_size;
        let original_cert_offset = self.footer.cert_offset;
        let new_cert_offset = if new_image_size <= original_cert_offset {
            original_cert_offset
        } else {
            match align_up(new_image_size, 0x1000) {
                Some(a) => a,
                None => {
                    return Err(FrameError::CertOffsetOverflow);
                },
            }
        };
        self.footer.cert_offset = new_cert_offset;
        self.footer.cert_size = self.cert.raw.len() as u64;
        self.image = new_image;
        if new_cert_offset > u64::MAX - self.footer.cert_size {
            return Err(FrameError::CertRangeOverflow);
        }
        let cert_end = new_cert_offset + self.footer.cert_size;
        if cert_end > u64::MAX - FOOTER_SIZE as u64 {
            return Err(FrameError::PartitionSizeOverflow);
        }
        let needed = cert_end + FOOTER_SIZE as u64;
        if self.footer.partition_size < needed {
            match align_up(needed, 0x1000) {
                Some(p) => {
                    self.footer.partition_size = p;
                },
                None => {
                    return Err(FrameError::PartitionAlignmentOverflow);
                },
            }
        }
        Ok(())
    }

    /// The partition bytes: image area, certificate and footer in place,
    /// zero-filled in between.
    pub fn serialize(&self) -> (r: Result<Vec<u8>, FrameError>)
        ensures
            match serialize_of(self@) {
                Ok(bytes) => r matches Ok(out) && out@ == bytes,
                Err(e) => r matches Err(re) && re == e,
            },
    {
        let cert_len = self.cert.raw.len();
        if self.footer.cert_size != cert_len as u64 {
            return Err(FrameError::CertSizeMismatch);
        }
        if self.footer.partition_size > usize::MAX as u64 {
            return Err(FrameError::PartitionSizeUnsupported);
        }
        let total = self.footer.partition_size as usize;
        if total < FOOTER_SIZE {
            return Err(FrameError::PartitionTooSmall);
        }
        let footer_pos = total - FOOTER_SIZE;
        if self.footer.cert_offset > usize::MAX as u64 {
            return Err(FrameError::CertOffsetUnsupported);
        }
        let cert_off = self.footer.cert_offset as usize;
        if cert_off > usize::MAX - cert_len {
            return Err(FrameError::CertRangeOverflow);
        }
        if cert_off + cert_len > footer_pos {
            return Err(FrameError::CertOverlapsFooter);
        }
        if self.footer.image_size > usize::MAX as u64 {
            return Err(FrameError::ImageSizeUnsupported);
        }
        let image_size = self.footer.image_size as usize;
        if image_size > self.image.len() || image_size > cert_off {
            return Err(FrameError::InvalidImageRange);
        }
        let mut out: Vec<u8> = vec![0u8; total];
        write_bytes(&mut out, 0, vstd::slice::slice_subrange(self.image.as_slice(), 0, image_size));
        write_bytes(&mut out, cert_off, self.cert.raw.as_slice());
        let footer = self.footer.to_bytes();
        write_bytes(&mut out, footer_pos, footer.as_slice());
        proof {
            let expected = serialize_of(self@)->Ok_0;
            assert(out@ =~= expected);
        }
        Ok(out)
    }
}

/// After a successful rebuild, the payload read back from the frame is
/// exactly the new payload.
pub proof fn lemma_rebuild_then_extract(v: FrameView, payload: Seq<u8>)
    requires
        rebuild_of(v, payload).1 is Ok,
        v.harmony.raw.len() >= 0x14,
        v.harmony.hdr_size >= 0x14,
    ensures
        payload_of(rebuild_of(v, payload).0) == payload,
{
    vstd::bytes::lemma_auto_spec_u32_to_from_le_bytes();
    let hdr = v.harmony.hdr_size as int;
    let w = rebuild_of(v, payload).0;
    let size_bytes = spec_u32_to_le_bytes(payload.len() as u32);
    let base = v.harmony.raw.subrange(0, hdr) + payload;
    let img0 = splice(base, 0x10, size_bytes);
    assert(size_bytes.len() == 4);
    assert(img0.len() == base.len());
    assert forall|k: int| 0 <= k < payload.len() implies #[trigger] w.image[hdr + k] == payload[k] by {
        assert(img0[hdr + k] == base[hdr + k]);
    }
    assert(w.image.subrange(hdr, hdr + payload.len()) =~= payload);
}

/// Whether the bytes of a framed file that serialising does not carry over
/// are zero: those between the image area and the certificate, between the
/// certificate and the footer, and the footer's reserved tail.
pub open spec fn frame_gaps_zero(data: Seq<u8>, f: HvbFooter) -> bool {
    let n = data.len() as int;
    &&& forall|k: int| f.image_size <= k < f.cert_offset ==> #[trigger] data[k] == 0
    &&& forall|k: int| f.cert_offset + f.cert_size <= k < n - FOOTER_SIZE ==> #[trigger] data[k] == 0
    &&& forall|k: int| n - FOOTER_SIZE + 40 <= k < n ==> #[trigger] data[k] == 0
}

/// Serialising a frame just read from `data` succeeds and writes a file of
/// the same length that agrees with `data` on the image area and the
/// certificate and ends in a footer that reads back as the same footer;
/// where the bytes it does not carry over are zero, it writes `data` itself.
pub proof fn lemma_read_then_serialize(data: Seq<u8>, v: FrameView)
    requires
        data.len() <= usize::MAX,
        frame_of(data) is Ok,
        v.harmony == frame_of(data)->Ok_0.0,
        v.footer == frame_of(data)->Ok_0.1,
        v.cert.raw == data.subrange(frame_of(data)->Ok_0.2, frame_of(data)->Ok_0.3),
        v.image == frame_of(data)->Ok_0.4,
    ensures
        ({
            let f = v.footer;
            let n = data.len() as int;
            let cs = f.cert_offset as int;
            let ce = f.cert_offset + f.cert_size;
            &&& serialize_of(v) matches Ok(out) && out.len() == n
                && out.subrange(0, f.image_size as int) == data.subrange(0, f.image_size as int)
                && out.subrange(cs, ce) == data.subrange(cs, ce)
                && out.subrange(n - FOOTER_SIZE, n) == footer_bytes(f)
                && (frame_gaps_zero(data, f) ==> out == data)
            &&& footer_of(footer_bytes(f)) == f
        }),
{
    let f = v.footer;
    let n = data.len() as int;
    let co = f.cert_offset as int;
    let clen = f.cert_size as int;
    let is = f.image_size as int;
    let fb = data.subrange(n - FOOTER_SIZE, n);
    crate::hvb::lemma_footer_roundtrip(f);
    assert(v.cert.raw.len() == clen);
    assert(f.partition_size == n);
    assert(v.image.len() == is);
    assert(serialize_of(v) is Ok);
    let out = serialize_of(v)->Ok_0;
    let z1 = Seq::new((co - is) as nat, |i: int| 0u8);
    let z2 = Seq::new((n - FOOTER_SIZE - co - clen) as nat, |i: int| 0u8);
    assert(out == v.image.subrange(0, is) + z1 + v.cert.raw + z2 + footer_bytes(f));
    assert(out.subrange(0, is) =~= data.subrange(0, is));
    assert(out.subrange(co, co + clen) =~= data.subrange(co, co + clen));
    assert(out.subrange(n - FOOTER_SIZE, n) =~= footer_bytes(f));
    if frame_gaps_zero(data, f) {
        assert forall|k: int| 40 <= k < 104 implies fb[k] == 0 by {
            assert(fb[k] == data[n - FOOTER_SIZE + k]);
        }
        crate::hvb::lemma_footer_bytes_roundtrip(fb);
        assert forall|k: int| 0 <= k < n implies out[k] == data[k] by {
            if k < is {
                assert(out.subrange(0, is)[k] == out[k]);
            } else if k < co {
            } else if k < co + clen {
                assert(out.subrange(co, co + clen)[k - co] == out[k]);
                assert(data.subrange(co, co + clen)[k - co] == data[k]);
            } else if k < n - FOOTER_SIZE {
            } else {
                assert(out.subrange(n - FOOTER_SIZE, n)[k - (n - FOOTER_SIZE)] == out[k]);
                assert(fb[k - (n - FOOTER_SIZE)] == data[k]);
            }
        }
        assert(out =~= data);
    }
}

} // verus!
