//! RVT ("root of verification table") images: a `rot\0` header and one
//! descriptor per verified partition, each naming the partition and
//! carrying its public key (and, in two-key tables, a backup copy). An RVT
//! image may come wrapped with an HVB footer and certificate.

use vstd::prelude::*;
use sha2::Digest;
use crate::bytes::{le_u32, le_u32_at, le_u64, le_u64_at};
use crate::hvb::{
    cert_fields, cert_magic, footer_magic, footer_of, is_cert, is_footer, HvbCert, HvbFooter,
    FOOTER_SIZE,
};
use crate::text::{find_nul, hex_encode, hex_string, lossy_string, lossy_utf8, nul_end};

verus! {

pub const RVT_HEADER_SIZE: usize = 72;
pub const DESCRIPTOR_SIZE: usize = 80;
pub const RVT_MAX_SIZE: usize = 65536;

/// `rot\0`.
pub open spec fn rvt_magic() -> Seq<u8> {
    seq![0x72u8, 0x6f, 0x74, 0]
}

/// Why an RVT image was refused.
#[derive(Debug, Clone, Copy, PartialEq, Eq, Structural)]
pub enum RvtError {
    TooSmall,
    BadMagic,
    TooManyVerity,
    BadKeyCount,
    OffsetOverflow { index: u32 },
    DescriptorOutside { index: u32 },
    KeyTooLarge { index: u32 },
    KeySizeOverflow { index: u32 },
    RangeOverflow { index: u32 },
    KeyOutside { index: u32 },
    FooterInvalid,
    CertOffsetTooLarge,
    CertSizeTooLarge,
    CertRangeOverflow,
    CertOutside,
    CertInvalid,
    ImageSizeTooLarge,
    ImageOutside,
}

/// One descriptor: the partition name, where its key sits, and whether
/// the name field has stray bytes after its NUL.
#[derive(Debug, Clone)]
pub struct RvtDescriptor {
    pub name: String,
    pub pubkey_offset: u64,
    pub pubkey_len: usize,
    pub pubkey_start: usize,
    pub backup_start: Option<usize>,
    pub name_padding_dirty: bool,
}

pub struct DescView {
    pub name: Seq<char>,
    pub pubkey_offset: u64,
    pub pubkey_len: int,
    pub pubkey_start: int,
    pub backup_start: Option<int>,
    pub name_padding_dirty: bool,
}

impl View for RvtDescriptor {
    type V = DescView;

    open spec fn view(&self) -> DescView {
        DescView {
            name: self.name@,
            pubkey_offset: self.pubkey_offset,
            pubkey_len: self.pubkey_len as int,
            pubkey_start: self.pubkey_start as int,
            backup_start: match self.backup_start {
                Some(b) => Some(b as int),
                None => None,
            },
            name_padding_dirty: self.name_padding_dirty,
        }
    }
}

/// A parsed table: its descriptors, header counts, where its content
/// ends, and the two things worth a warning (reserved bytes not zero, an
/// image above 64 KiB).
pub struct RvtTable {
    pub descriptors: Vec<RvtDescriptor>,
    pub verity_num: u32,
    pub raw_key_count: u32,
    pub total_size: usize,
    pub reserved_dirty: bool,
    pub oversize: bool,
}

pub open spec fn any_nonzero(s: Seq<u8>) -> bool {
    exists|i: int| 0 <= i < s.len() && #[trigger] s[i] != 0
}

/// Descriptor `idx` of `n` at `offset`, and those after it.
pub open spec fn descriptors_from(
    data: Seq<u8>,
    idx: int,
    n: int,
    kc: int,
    offset: int,
    acc: Seq<DescView>,
) -> Result<(Seq<DescView>, int), RvtError>
    decreases n - idx,
{
    if idx >= n {
        Ok((acc, offset))
    } else {
        let he = offset + DESCRIPTOR_SIZE;
        if he > usize::MAX {
            Err(RvtError::OffsetOverflow { index: idx as u32 })
        } else if he > data.len() {
            Err(RvtError::DescriptorOutside { index: idx as u32 })
        } else {
            let name_raw = data.subrange(offset, offset + 64);
            let name_end = nul_end(name_raw);
            let pl = le_u64_at(data, offset + 72);
            let ps = pl * kc;
            let ee = he + ps;
            if pl > usize::MAX {
                Err(RvtError::KeyTooLarge { index: idx as u32 })
            } else if ps > usize::MAX {
                Err(RvtError::KeySizeOverflow { index: idx as u32 })
            } else if ee > usize::MAX {
                Err(RvtError::RangeOverflow { index: idx as u32 })
            } else if ee > data.len() {
                Err(RvtError::KeyOutside { index: idx as u32 })
            } else {
                let d = DescView {
                    name: lossy_utf8(name_raw.subrange(0, name_end)),
                    pubkey_offset: le_u64_at(data, offset + 64),
                    pubkey_len: pl as int,
                    pubkey_start: he,
                    backup_start: if kc == 2 {
                        Some(he + pl)
                    } else {
                        None
                    },
                    name_padding_dirty: name_end < 64 && any_nonzero(
                        name_raw.subrange(name_end + 1, 64),
                    ),
                };
                descriptors_from(data, idx + 1, n, kc, ee, acc.push(d))
            }
        }
    }
}

pub struct TableView {
    pub descriptors: Seq<DescView>,
    pub verity_num: u32,
    pub raw_key_count: u32,
    pub total_size: int,
    pub reserved_dirty: bool,
    pub oversize: bool,
}

/// What parsing an RVT image gives: the header (`rot\0`, fewer than 32
/// descriptors, 0, 1 or 2 keys per partition, 0 meaning 1) and the
/// descriptors one after another, each inside the data.
pub open spec fn parse_rvt_of(data: Seq<u8>) -> Result<TableView, RvtError> {
    if data.len() < RVT_HEADER_SIZE {
        Err(RvtError::TooSmall)
    } else if data.subrange(0, 4) != rvt_magic() {
        Err(RvtError::BadMagic)
    } else {
        let vn = le_u32_at(data, 4);
        let rk = le_u32_at(data, 8);
        let kc = if rk == 0 {
            1int
        } else {
            rk as int
        };
        if vn >= 32 {
            Err(RvtError::TooManyVerity)
        } else if kc != 1 && kc != 2 {
            Err(RvtError::BadKeyCount)
        } else {
            match descriptors_from(data, 0, vn as int, kc, RVT_HEADER_SIZE as int, seq![]) {
                Err(e) => Err(e),
                Ok((ds, end)) => Ok(
                    TableView {
                        descriptors: ds,
                        verity_num: vn,
                        raw_key_count: rk,
                        total_size: end,
                        reserved_dirty: any_nonzero(data.subrange(12, RVT_HEADER_SIZE as int)),
                        oversize: data.len() > RVT_MAX_SIZE,
                    },
                ),
            }
        }
    }
}

pub open spec fn descs_view(v: Seq<RvtDescriptor>) -> Seq<DescView> {
    v.map_values(|d: RvtDescriptor| d@)
}

fn any_nonzero_in(data: &[u8], start: usize, end: usize) -> (r: bool)
    requires
        start <= end <= data@.len(),
    ensures
        r == any_nonzero(data@.subrange(start as int, end as int)),
{
    let ghost s = data@.subrange(start as int, end as int);
    let mut i: usize = start;
    while i < end
        invariant
            start <= i <= end <= data@.len(),
            s == data@.subrange(start as int, end as int),
            forall|k: int| 0 <= k < i - start ==> s[k] == 0,
        decreases end - i,
    {
        if data[i] != 0 {
            proof {
                assert(s[i - start] != 0);
            }
            return true;
        }
        i = i + 1;
    }
    false
}

/// Parses an RVT image; see [`parse_rvt_of`].
pub fn parse_rvt(data: &[u8]) -> (r: Result<RvtTable, RvtError>)
    ensures
        match parse_rvt_of(data@) {
            Ok(t) => r matches Ok(x) && descs_view(x.descriptors@) == t.descriptors && x.verity_num
                == t.verity_num && x.raw_key_count == t.raw_key_count && x.total_size == t.total_size
                && x.reserved_dirty == t.reserved_dirty && x.oversize == t.oversize,
            Err(e) => r matches Err(f) && f == e,
        },
{
    let len = data.len();
    if len < RVT_HEADER_SIZE {
        return Err(RvtError::TooSmall);
    }
    if !(data[0] == 0x72 && data[1] == 0x6f && data[2] == 0x74 && data[3] == 0) {
        proof {
            if data@.subrange(0, 4) == rvt_magic() {
                assert(data@.subrange(0, 4)[0] == data@[0]);
                assert(data@.subrange(0, 4)[1] == data@[1]);
                assert(data@.subrange(0, 4)[2] == data@[2]);
                assert(data@.subrange(0, 4)[3] == data@[3]);
            }
        }
        return Err(RvtError::BadMagic);
    }
    proof {
        assert(data@.subrange(0, 4) =~= rvt_magic());
    }
    let oversize = len > RVT_MAX_SIZE;
    let vn = le_u32(data, 4);
    if vn >= 32 {
        return Err(RvtError::TooManyVerity);
    }
    let rk = le_u32(data, 8);
    let kc: usize = if rk == 0 {
        1
    } else if rk <= 2 {
        rk as usize
    } else {
        return Err(RvtError::BadKeyCount);
    };
    let reserved_dirty = any_nonzero_in(data, 12, RVT_HEADER_SIZE);
    let mut offset: usize = RVT_HEADER_SIZE;
    let mut ds: Vec<RvtDescriptor> = Vec::new();
    let mut idx: u32 = 0;
    proof {
        assert(descs_view(ds@) =~= Seq::<DescView>::empty());
    }
    while idx < vn
        invariant
            len == data@.len(),
            vn < 32,
            kc == 1 || kc == 2,
            kc as int == (if rk == 0 { 1int } else { rk as int }),
            idx <= vn,
            len >= RVT_HEADER_SIZE,
            data@.subrange(0, 4) == rvt_magic(),
            vn == le_u32_at(data@, 4),
            rk == le_u32_at(data@, 8),
            reserved_dirty == any_nonzero(data@.subrange(12, RVT_HEADER_SIZE as int)),
            oversize == (len > RVT_MAX_SIZE),
            descriptors_from(data@, 0, vn as int, kc as int, RVT_HEADER_SIZE as int, seq![])
                == descriptors_from(data@, idx as int, vn as int, kc as int, offset as int, descs_view(ds@)),
        decreases vn - idx,
    {
        if offset > usize::MAX - DESCRIPTOR_SIZE {
            return Err(RvtError::OffsetOverflow { index: idx });
        }
        let he = offset + DESCRIPTOR_SIZE;
        if he > len {
            return Err(RvtError::DescriptorOutside { index: idx });
        }
        let name_end = find_nul(data, offset, offset + 64);
        let name = lossy_string(vstd::slice::slice_subrange(data, offset, name_end));
        let dirty = name_end < offset + 64 && any_nonzero_in(data, name_end + 1, offset + 64);
        proof {
            let nr = data@.subrange(offset as int, offset + 64);
            assert(nr.subrange(0, name_end - offset) =~= data@.subrange(offset as int, name_end as int));
            if name_end < offset + 64 {
                assert(nr.subrange(name_end - offset + 1, 64) =~= data@.subrange(name_end + 1, offset + 64));
            }
        }
        let pubkey_offset = le_u64(data, offset + 64);
        let pl64 = le_u64(data, offset + 72);
        if pl64 as u128 > usize::MAX as u128 {
            return Err(RvtError::KeyTooLarge { index: idx });
        }
        let pl = pl64 as usize;
        if kc == 2 && pl > usize::MAX / 2 {
            return Err(RvtError::KeySizeOverflow { index: idx });
        }
        let ps = pl * kc;
        if he > usize::MAX - ps {
            return Err(RvtError::RangeOverflow { index: idx });
        }
        let ee = he + ps;
        if ee > len {
            return Err(RvtError::KeyOutside { index: idx });
        }
        let ghost before = descs_view(ds@);
        let d = RvtDescriptor {
            name,
            pubkey_offset,
            pubkey_len: pl,
            pubkey_start: he,
            backup_start: if kc == 2 {
                Some(he + pl)
            } else {
                None
            },
            name_padding_dirty: dirty,
        };
        ds.push(d);
        proof {
            assert(descs_view(ds@) =~= before.push(d@));
        }
        offset = ee;
        idx = idx + 1;
    }
    Ok(
        RvtTable {
            descriptors: ds,
            verity_num: vn,
            raw_key_count: rk,
            total_size: offset,
            reserved_dirty,
            oversize,
        },
    )
}

/// Whether the data ends with an HVB footer.
pub open spec fn has_footer_of(data: Seq<u8>) -> bool {
    data.len() >= FOOTER_SIZE && data.subrange(
        data.len() - FOOTER_SIZE,
        data.len() - FOOTER_SIZE + 8,
    ) == footer_magic()
}

pub fn has_footer(data: &[u8]) -> (r: bool)
    ensures
        r == has_footer_of(data@),
{
    let len = data.len();
    if len < FOOTER_SIZE {
        return false;
    }
    let tail = vstd::slice::slice_subrange(data, len - FOOTER_SIZE, len);
    let r = crate::hvb::has_footer_magic(tail);
    proof {
        assert(tail@.subrange(0, 8) =~= data@.subrange(len - FOOTER_SIZE, len - FOOTER_SIZE + 8));
    }
    r
}

/// Whether an HVB certificate header starts at `c`: the magic, version 1,
/// and a second field of 0 or 1.
pub open spec fn cert_header_at(data: Seq<u8>, c: int) -> bool {
    c + 12 <= data.len() && le_u32_at(data, c + 4) == 1 && (le_u32_at(data, c + 8) == 0 || le_u32_at(
        data,
        c + 8,
    ) == 1)
}

/// The first `HVB\0` in `data[from..end]`, relative to `from`.
pub open spec fn cert_magic_from(data: Seq<u8>, from: int, end: int, x: int) -> Option<int>
    decreases end - (from + x),
{
    if x < 0 || from + x + 4 > end {
        None
    } else if data.subrange(from + x, from + x + 4) == cert_magic() {
        Some(x)
    } else {
        cert_magic_from(data, from, end, x + 1)
    }
}

/// Searching `data[offset..end]` for a certificate header.
pub open spec fn cert_search(data: Seq<u8>, offset: int, end: int) -> Option<int>
    decreases end - offset,
{
    if offset + 12 > usize::MAX || offset + 12 > end {
        None
    } else {
        match cert_magic_from(data, offset, end, 0) {
            None => None,
            Some(rel) => {
                let c = offset + rel;
                if cert_header_at(data, c) {
                    Some(c)
                } else {
                    proof {
                        lemma_cert_magic_from(data, offset, end, 0);
                    }
                    cert_search(data, c + 4, end)
                }
            },
        }
    }
}

/// A certificate embedded after the RVT content, searched for up to
/// 512 KiB past `after`.
pub open spec fn find_embedded_cert_of(data: Seq<u8>, after: int) -> Option<int> {
    let lim = if after + 0x80000 > usize::MAX {
        usize::MAX as int
    } else {
        after + 0x80000
    };
    let end = if data.len() < lim {
        data.len() as int
    } else {
        lim
    };
    cert_search(data, after, end)
}

fn cert_magic_here(data: &[u8], at: usize) -> (r: bool)
    requires
        at + 4 <= data@.len(),
    ensures
        r == (data@.subrange(at as int, at + 4) == cert_magic()),
{
    let _len = data.len();
    let r = data[at] == 0x48 && data[at + 1] == 0x56 && data[at + 2] == 0x42 && data[at + 3] == 0;
    proof {
        let w = data@.subrange(at as int, at + 4);
        if r {
            assert(w =~= cert_magic());
        } else if w == cert_magic() {
            assert(w[0] == data@[at as int] && w[1] == data@[at + 1] && w[2] == data@[at + 2]
                && w[3] == data@[at + 3]);
        }
    }
    r
}

/// A search for the magic finds it at or after where it starts, inside the range.
pub proof fn lemma_cert_magic_from(data: Seq<u8>, from: int, end: int, x: int)
    requires
        0 <= x,
    ensures
        cert_magic_from(data, from, end, x) matches Some(y) ==> x <= y && from + y + 4 <= end,
    decreases end - (from + x),
{
    if !(from + x + 4 > end) && data.subrange(from + x, from + x + 4) != cert_magic() {
        lemma_cert_magic_from(data, from, end, x + 1);
    }
}

/// The offset of an HVB certificate embedded after `after`, if any.
pub fn find_embedded_cert(data: &[u8], after: usize) -> (r: Option<usize>)
    ensures
        match find_embedded_cert_of(data@, after as int) {
            Some(c) => r == Some(c as usize),
            None => r is None,
        },
{
    let len = data.len();
    let lim = if after > usize::MAX - 0x80000 {
        usize::MAX
    } else {
        after + 0x80000
    };
    let end = if len < lim {
        len
    } else {
        lim
    };
    let mut offset = after;
    loop
        invariant
            end <= len == data@.len(),
            find_embedded_cert_of(data@, after as int) == cert_search(data@, offset as int, end as int),
        decreases end - offset,
    {
        if offset > usize::MAX - 12 || offset + 12 > end {
            return None;
        }
        let mut x: usize = 0;
        while end - offset - x >= 4 && !cert_magic_here(data, offset + x)
            invariant
                offset + 12 <= end <= len == data@.len(),
                offset + x <= end,
                cert_magic_from(data@, offset as int, end as int, 0) == cert_magic_from(
                    data@,
                    offset as int,
                    end as int,
                    x as int,
                ),
            decreases end - offset - x,
        {
            x = x + 1;
        }
        if end - offset - x < 4 {
            return None;
        }
        proof {
            lemma_cert_magic_from(data@, offset as int, end as int, 0);
        }
        let c = offset + x;
        if len >= 12 && c <= len - 12 && le_u32(data, c + 4) == 1 && (le_u32(data, c + 8) == 0 || le_u32(data, c + 8) == 1) {
            return Some(c);
        }
        offset = c + 4;
    }
}

/// The signature algorithm a public key length stands for.
pub fn algorithm(pubkey_len: usize) -> (r: &'static str)
    ensures
        pubkey_len == 528 ==> r@ == "SHA256_RSA2048"@,
        pubkey_len == 784 ==> r@ == "SHA256_RSA3072"@,
        pubkey_len == 1040 ==> r@ == "SHA256_RSA4096"@,
        pubkey_len == 64 ==> r@ == "SM2_SM3"@,
        !(pubkey_len == 528 || pubkey_len == 784 || pubkey_len == 1040 || pubkey_len == 64)
            ==> r@ == "UNKNOWN"@,
{
    if pubkey_len == 528 {
        "SHA256_RSA2048"
    } else if pubkey_len == 784 {
        "SHA256_RSA3072"
    } else if pubkey_len == 1040 {
        "SHA256_RSA4096"
    } else if pubkey_len == 64 {
        "SM2_SM3"
    } else {
        "UNKNOWN"
    }
}

/// The SHA-256 digest of a byte sequence.
pub uninterp spec fn sha256_of(data: Seq<u8>) -> Seq<u8>;

/// `sha2::Sha256::digest`: the digest of the bytes, 32 bytes long. The
/// digest itself is named, not described.
#[verifier::external_body]
fn sha256(data: &[u8]) -> (r: Vec<u8>)
    ensures
        r@ == sha256_of(data@),
        r@.len() == 32,
{
    sha2::Sha256::digest(data).to_vec()
}

/// The SHA-256 digest of the bytes in lower-case hexadecimal.
pub fn sha256_hex(data: &[u8]) -> (r: String)
    ensures
        r@ == hex_encode(sha256_of(data@), false),
        r@.len() == 64,
{
    let d = sha256(data);
    let r = hex_string(d.as_slice(), false);
    proof {
        crate::text::lemma_hex_encode_len(d@, false);
    }
    r
}

/// Where the RVT content of an image is: after checking its HVB footer
/// and certificate when it has one.
pub struct RvtSegment {
    pub footer: Option<HvbFooter>,
    pub cert: Option<(usize, HvbCert)>,
    pub image_size: usize,
}

pub open spec fn segment_of(data: Seq<u8>) -> Result<(Option<(HvbFooter, int, int)>, int), RvtError> {
    if !has_footer_of(data) {
        Ok((None, data.len() as int))
    } else {
        let f = footer_of(data.subrange(data.len() - FOOTER_SIZE, data.len() as int));
        let cs = f.cert_offset as int;
        let csz = f.cert_size as int;
        if cs > usize::MAX {
            Err(RvtError::CertOffsetTooLarge)
        } else if csz > usize::MAX {
            Err(RvtError::CertSizeTooLarge)
        } else if cs + csz > usize::MAX {
            Err(RvtError::CertRangeOverflow)
        } else if cs + csz > data.len() {
            Err(RvtError::CertOutside)
        } else if !is_cert(data.subrange(cs, cs + csz)) {
            Err(RvtError::CertInvalid)
        } else if f.image_size > usize::MAX {
            Err(RvtError::ImageSizeTooLarge)
        } else if f.image_size > data.len() {
            Err(RvtError::ImageOutside)
        } else {
            Ok((Some((f, cs, cs + csz)), f.image_size as int))
        }
    }
}

/// Locates the RVT content; see [`segment_of`].
pub fn rvt_segment(data: &[u8]) -> (r: Result<RvtSegment, RvtError>)
    ensures
        match segment_of(data@) {
            Err(e) => r matches Err(x) && x == e,
            Ok((None, size)) => r matches Ok(s) && s.footer is None && s.cert is None && s.image_size == size,
            Ok((Some((f, cs, ce)), size)) => r matches Ok(s) && s.footer == Some(f) && s.image_size == size
                && (s.cert matches Some((o, c)) && o == cs && cert_fields(c, data@.subrange(cs, ce))),
        },
{
    let len = data.len();
    if !has_footer(data) {
        return Ok(RvtSegment { footer: None, cert: None, image_size: len });
    }
    let tail = vstd::slice::slice_subrange(data, len - FOOTER_SIZE, len);
    proof {
        assert(tail@.subrange(0, 8) =~= data@.subrange(len - FOOTER_SIZE, len - FOOTER_SIZE + 8));
    }
    let footer = match HvbFooter::parse(tail) {
        Ok(f) => f,
        Err(_) => return Err(RvtError::FooterInvalid),
    };
    if footer.cert_offset as u128 > usize::MAX as u128 {
        return Err(RvtError::CertOffsetTooLarge);
    }
    if footer.cert_size as u128 > usize::MAX as u128 {
        return Err(RvtError::CertSizeTooLarge);
    }
    let cs = footer.cert_offset as usize;
    let csz = footer.cert_size as usize;
    if cs > usize::MAX - csz {
        return Err(RvtError::CertRangeOverflow);
    }
    let ce = cs + csz;
    if ce > len {
        return Err(RvtError::CertOutside);
    }
    let cert = match HvbCert::parse(vstd::slice::slice_subrange(data, cs, ce)) {
        Ok(c) => c,
        Err(_) => return Err(RvtError::CertInvalid),
    };
    if footer.image_size as u128 > usize::MAX as u128 {
        return Err(RvtError::ImageSizeTooLarge);
    }
    if footer.image_size as usize > len {
        return Err(RvtError::ImageOutside);
    }
    Ok(RvtSegment { footer: Some(footer), cert: Some((cs, cert)), image_size: footer.image_size as usize })
}

/// Whether a descriptor holds what its 80-byte record, just before its
/// key, says: the name up to the first NUL of the 64-byte name field, then
/// the key's offset and its length, both little-endian `u64`.
pub open spec fn record_read(data: Seq<u8>, d: DescView) -> bool {
    let r = d.pubkey_start - DESCRIPTOR_SIZE;
    let name_field = data.subrange(r, r + 64);
    &&& r >= 0
    &&& d.name == lossy_utf8(name_field.subrange(0, nul_end(name_field)))
    &&& d.pubkey_offset == le_u64_at(data, r + 64)
    &&& d.pubkey_len == le_u64_at(data, r + 72)
}

/// Where a descriptor's keys end: its public key and, with two keys per
/// partition, the backup after it.
pub open spec fn keys_end(d: DescView, kc: int) -> int {
    d.pubkey_start + d.pubkey_len * kc
}

#[verifier::spinoff_prover]
#[verifier::rlimit(50)]
proof fn lemma_descriptors_chain(
    data: Seq<u8>,
    idx: int,
    n: int,
    kc: int,
    offset: int,
    acc: Seq<DescView>,
)
    requires
        0 <= idx <= n,
        descriptors_from(data, idx, n, kc, offset, acc) is Ok,
    ensures
        ({
            let (ds, end) = descriptors_from(data, idx, n, kc, offset, acc)->Ok_0;
            &&& ds.len() == acc.len() + n - idx
            &&& ds.subrange(0, acc.len() as int) == acc
            &&& forall|p: int|
                acc.len() <= p < ds.len() ==> (#[trigger] ds[p]).pubkey_start == if p == acc.len() {
                    offset + DESCRIPTOR_SIZE
                } else {
                    keys_end(ds[p - 1], kc) + DESCRIPTOR_SIZE
                }
            &&& end == if ds.len() > acc.len() {
                keys_end(ds[ds.len() - 1], kc)
            } else {
                offset
            }
        }),
    decreases n - idx,
{
    if idx < n {
        let he = offset + DESCRIPTOR_SIZE;
        let pl = le_u64_at(data, offset + 72);
        let ee = he + pl * kc;
        let name_raw = data.subrange(offset, offset + 64);
        let name_end = nul_end(name_raw);
        let d = DescView {
            name: lossy_utf8(name_raw.subrange(0, name_end)),
            pubkey_offset: le_u64_at(data, offset + 64),
            pubkey_len: pl as int,
            pubkey_start: he,
            backup_start: if kc == 2 {
                Some(he + pl)
            } else {
                None
            },
            name_padding_dirty: name_end < 64 && any_nonzero(name_raw.subrange(name_end + 1, 64)),
        };
        let a2 = acc.push(d);
        lemma_descriptors_chain(data, idx + 1, n, kc, ee, a2);
        let (ds, end) = descriptors_from(data, idx, n, kc, offset, acc)->Ok_0;
        assert(descriptors_from(data, idx, n, kc, offset, acc) == descriptors_from(data, idx + 1, n, kc, ee, a2));
        assert(ds.subrange(0, a2.len() as int) == a2);
        assert(ds[acc.len() as int] == a2[acc.len() as int]);
        assert(ds.subrange(0, acc.len() as int) =~= acc) by {
            assert forall|k: int| 0 <= k < acc.len() implies ds.subrange(0, acc.len() as int)[k] == acc[k] by {
                assert(ds.subrange(0, a2.len() as int)[k] == a2[k]);
            }
        }
        assert(keys_end(d, kc) == ee);
    }
}

/// How an RVT image is laid out: after the 72-byte header come as many
/// descriptors as the header counts, each an 80-byte record followed by
/// its keys (one per partition, or a key and its backup when the header
/// asks for two), the next descriptor starting right after them; the
/// image's content ends after the last one's keys, inside the data.
#[verifier::spinoff_prover]
#[verifier::rlimit(50)]
pub proof fn lemma_rvt_layout(data: Seq<u8>)
    requires
        parse_rvt_of(data) is Ok,
    ensures
        ({
            let t = parse_rvt_of(data)->Ok_0;
            let kc = if t.raw_key_count == 0 {
                1int
            } else {
                t.raw_key_count as int
            };
            let ds = t.descriptors;
            &&& kc == 1 || kc == 2
            &&& ds.len() == t.verity_num
            &&& ds.len() > 0 ==> ds[0].pubkey_start == RVT_HEADER_SIZE + DESCRIPTOR_SIZE
            &&& forall|k: int|
                0 <= k < ds.len() - 1 ==> #[trigger] ds[k + 1].pubkey_start == ds[k].pubkey_start
                    + kc * ds[k].pubkey_len + DESCRIPTOR_SIZE
            &&& forall|k: int| 0 <= k < ds.len() ==> record_read(data, #[trigger] ds[k])
            &&& forall|k: int|
                0 <= k < ds.len() ==> (#[trigger] ds[k]).backup_start == if kc == 2 {
                    Some(ds[k].pubkey_start + ds[k].pubkey_len)
                } else {
                    None::<int>
                }
            &&& t.total_size == if ds.len() > 0 {
                ds[ds.len() - 1].pubkey_start + kc * ds[ds.len() - 1].pubkey_len
            } else {
                RVT_HEADER_SIZE as int
            }
            &&& t.total_size <= data.len()
        }),
{
    let vn = le_u32_at(data, 4);
    let rk = le_u32_at(data, 8);
    let kc = if rk == 0 {
        1int
    } else {
        rk as int
    };
    lemma_descriptors_chain(data, 0, vn as int, kc, RVT_HEADER_SIZE as int, seq![]);
    lemma_descriptors_bounds(data, 0, vn as int, kc, RVT_HEADER_SIZE as int, seq![]);
    lemma_descriptors_records(data, 0, vn as int, kc, RVT_HEADER_SIZE as int, seq![]);
    let ds = parse_rvt_of(data)->Ok_0.descriptors;
    assert forall|k: int| 0 <= k < ds.len() - 1 implies #[trigger] ds[k + 1].pubkey_start
        == ds[k].pubkey_start + kc * ds[k].pubkey_len + DESCRIPTOR_SIZE by {
        assert(ds[k].pubkey_len * kc == kc * ds[k].pubkey_len) by (nonlinear_arith);
    }
    if ds.len() > 0 {
        let l = ds[ds.len() - 1];
        assert(l.pubkey_len * kc == kc * l.pubkey_len) by (nonlinear_arith);
    }
}

#[verifier::spinoff_prover]
#[verifier::rlimit(50)]
proof fn lemma_descriptors_bounds(
    data: Seq<u8>,
    idx: int,
    n: int,
    kc: int,
    offset: int,
    acc: Seq<DescView>,
)
    requires
        0 <= idx <= n,
        0 <= offset <= data.len(),
        kc == 1 || kc == 2,
        descriptors_from(data, idx, n, kc, offset, acc) is Ok,
    ensures
        descriptors_from(data, idx, n, kc, offset, acc)->Ok_0.1 <= data.len(),
        forall|p: int|
            acc.len() <= p < descriptors_from(data, idx, n, kc, offset, acc)->Ok_0.0.len() ==> (
            #[trigger] descriptors_from(data, idx, n, kc, offset, acc)->Ok_0.0[p]).backup_start == if kc
                == 2 {
                Some(
                    descriptors_from(data, idx, n, kc, offset, acc)->Ok_0.0[p].pubkey_start
                        + descriptors_from(data, idx, n, kc, offset, acc)->Ok_0.0[p].pubkey_len,
                )
            } else {
                None::<int>
            },
    decreases n - idx,
{
    if idx < n {
        let he = offset + DESCRIPTOR_SIZE;
        let pl = le_u64_at(data, offset + 72);
        let ee = he + pl * kc;
        assert(pl * kc >= 0) by (nonlinear_arith)
            requires
                kc == 1 || kc == 2,
                pl >= 0,
        ;
        let name_raw = data.subrange(offset, offset + 64);
        let name_end = nul_end(name_raw);
        let d = DescView {
            name: lossy_utf8(name_raw.subrange(0, name_end)),
            pubkey_offset: le_u64_at(data, offset + 64),
            pubkey_len: pl as int,
            pubkey_start: he,
            backup_start: if kc == 2 {
                Some(he + pl)
            } else {
                None
            },
            name_padding_dirty: name_end < 64 && any_nonzero(name_raw.subrange(name_end + 1, 64)),
        };
        let a2 = acc.push(d);
        lemma_descriptors_bounds(data, idx + 1, n, kc, ee, a2);
        lemma_descriptors_chain(data, idx + 1, n, kc, ee, a2);
        let ds = descriptors_from(data, idx, n, kc, offset, acc)->Ok_0.0;
        assert(ds.subrange(0, a2.len() as int) == a2);
        assert(ds[acc.len() as int] == a2[acc.len() as int]);
    }
}

#[verifier::spinoff_prover]
#[verifier::rlimit(50)]
proof fn lemma_descriptors_records(
    data: Seq<u8>,
    idx: int,
    n: int,
    kc: int,
    offset: int,
    acc: Seq<DescView>,
)
    requires
        0 <= idx <= n,
        0 <= offset,
        kc == 1 || kc == 2,
        descriptors_from(data, idx, n, kc, offset, acc) is Ok,
    ensures
        ({
            let ds = descriptors_from(data, idx, n, kc, offset, acc)->Ok_0.0;
            forall|p: int| acc.len() <= p < ds.len() ==> record_read(data, #[trigger] ds[p])
        }),
    decreases n - idx,
{
    if idx < n {
        let he = offset + DESCRIPTOR_SIZE;
        let pl = le_u64_at(data, offset + 72);
        let ee = he + pl * kc;
        assert(pl * kc >= 0) by (nonlinear_arith)
            requires
                kc == 1 || kc == 2,
                pl >= 0,
        ;
        let name_raw = data.subrange(offset, offset + 64);
        let name_end = nul_end(name_raw);
        let d = DescView {
            name: lossy_utf8(name_raw.subrange(0, name_end)),
            pubkey_offset: le_u64_at(data, offset + 64),
            pubkey_len: pl as int,
            pubkey_start: he,
            backup_start: if kc == 2 {
                Some(he + pl)
            } else {
                None
            },
            name_padding_dirty: name_end < 64 && any_nonzero(name_raw.subrange(name_end + 1, 64)),
        };
        let a2 = acc.push(d);
        assert(record_read(data, d));
        lemma_descriptors_records(data, idx + 1, n, kc, ee, a2);
        lemma_descriptors_chain(data, idx + 1, n, kc, ee, a2);
        let ds = descriptors_from(data, idx, n, kc, offset, acc)->Ok_0.0;
        assert(ds.subrange(0, a2.len() as int) == a2);
        assert(ds[acc.len() as int] == a2[acc.len() as int]);
    }
}

} // verus!
