//! Little-endian integer reads over byte slices.

use vstd::prelude::*;
use vstd::bytes::*;
use vstd::slice::slice_subrange;

verus! {

/// A read that needs bytes past the end of the buffer.
#[derive(Debug, Clone, Copy, PartialEq, Eq, Structural)]
pub struct OutOfRange {
    pub offset: usize,
}

/// The little-endian `u16` stored at `offset`.
pub open spec fn le_u16_at(s: Seq<u8>, offset: int) -> u16 {
    spec_u16_from_le_bytes(s.subrange(offset, offset + 2))
}

/// The little-endian `u32` stored at `offset`.
pub open spec fn le_u32_at(s: Seq<u8>, offset: int) -> u32 {
    spec_u32_from_le_bytes(s.subrange(offset, offset + 4))
}

/// The little-endian `u64` stored at `offset`.
pub open spec fn le_u64_at(s: Seq<u8>, offset: int) -> u64 {
    spec_u64_from_le_bytes(s.subrange(offset, offset + 8))
}

/// The big-endian `u64` stored at `offset`.
pub open spec fn be_u64_at(s: Seq<u8>, offset: int) -> u64 {
    spec_u64_from_le_bytes(s.subrange(offset, offset + 8).reverse())
}

/// Reads a little-endian `u16`; fails exactly when `offset + 2` passes the end.
pub fn read_u16(bytes: &[u8], offset: usize) -> (r: Result<u16, OutOfRange>)
    ensures
        offset + 2 <= bytes@.len() ==> r == Ok::<u16, OutOfRange>(le_u16_at(bytes@, offset as int)),
        offset + 2 > bytes@.len() ==> r == Err::<u16, OutOfRange>(OutOfRange { offset }),
{
    if offset > bytes.len() || bytes.len() - offset < 2 {
        return Err(OutOfRange { offset });
    }
    Ok(u16_from_le_bytes(slice_subrange(bytes, offset, offset + 2)))
}

/// Reads a little-endian `u32`; fails exactly when `offset + 4` passes the end.
pub fn read_u32(bytes: &[u8], offset: usize) -> (r: Result<u32, OutOfRange>)
    ensures
        offset + 4 <= bytes@.len() ==> r == Ok::<u32, OutOfRange>(le_u32_at(bytes@, offset as int)),
        offset + 4 > bytes@.len() ==> r == Err::<u32, OutOfRange>(OutOfRange { offset }),
{
    if offset > bytes.len() || bytes.len() - offset < 4 {
        return Err(OutOfRange { offset });
    }
    Ok(u32_from_le_bytes(slice_subrange(bytes, offset, offset + 4)))
}

/// Reads a little-endian `u64`; fails exactly when `offset + 8` passes the end.
pub fn read_u64(bytes: &[u8], offset: usize) -> (r: Result<u64, OutOfRange>)
    ensures
        offset + 8 <= bytes@.len() ==> r == Ok::<u64, OutOfRange>(le_u64_at(bytes@, offset as int)),
        offset + 8 > bytes@.len() ==> r == Err::<u64, OutOfRange>(OutOfRange { offset }),
{
    if offset > bytes.len() || bytes.len() - offset < 8 {
        return Err(OutOfRange { offset });
    }
    Ok(u64_from_le_bytes(slice_subrange(bytes, offset, offset + 8)))
}

/// Little-endian `u16` at an offset known to be in bounds.
pub fn le_u16(bytes: &[u8], offset: usize) -> (r: u16)
    requires
        offset + 2 <= bytes@.len(),
    ensures
        r == le_u16_at(bytes@, offset as int),
{
    let _len = bytes.len();
    u16_from_le_bytes(slice_subrange(bytes, offset, offset + 2))
}

/// Little-endian `u32` at an offset known to be in bounds.
pub fn le_u32(bytes: &[u8], offset: usize) -> (r: u32)
    requires
        offset + 4 <= bytes@.len(),
    ensures
        r == le_u32_at(bytes@, offset as int),
{
    let _len = bytes.len();
    u32_from_le_bytes(slice_subrange(bytes, offset, offset + 4))
}

/// Little-endian `u64` at an offset known to be in bounds.
pub fn le_u64(bytes: &[u8], offset: usize) -> (r: u64)
    requires
        offset + 8 <= bytes@.len(),
    ensures
        r == le_u64_at(bytes@, offset as int),
{
    let _len = bytes.len();
    u64_from_le_bytes(slice_subrange(bytes, offset, offset + 8))
}

/// Big-endian `u64` at an offset known to be in bounds.
pub fn be_u64(bytes: &[u8], offset: usize) -> (r: u64)
    requires
        offset + 8 <= bytes@.len(),
    ensures
        r == be_u64_at(bytes@, offset as int),
{
    let _len = bytes.len();
    let mut reversed: Vec<u8> = Vec::new();
    let mut i: usize = 8;
    while i > 0
        invariant
            i <= 8,
            offset + 8 <= bytes@.len(),
            _len == bytes@.len(),
            reversed@.len() == 8 - i,
            forall|k: int| 0 <= k < 8 - i ==> reversed@[k] == bytes@[offset + 7 - k],
        decreases i,
    {
        i = i - 1;
        reversed.push(bytes[offset + i]);
    }
    assert(reversed@ =~= bytes@.subrange(offset as int, offset + 8).reverse());
    u64_from_le_bytes(reversed.as_slice())
}

/// Overwrites `out[offset..offset + bytes.len()]` with `bytes`.
pub fn write_bytes(out: &mut Vec<u8>, offset: usize, bytes: &[u8])
    requires
        offset + bytes@.len() <= old(out)@.len(),
    ensures
        final(out)@ == old(out)@.subrange(0, offset as int) + bytes@ + old(out)@.subrange(
            offset + bytes@.len(),
            old(out)@.len() as int,
        ),
{
    let _len = out.len();
    let mut i: usize = 0;
    while i < bytes.len()
        invariant
            i <= bytes@.len(),
            offset + bytes@.len() <= out@.len(),
            out@.len() == old(out)@.len(),
            _len == out@.len(),
            forall|k: int| 0 <= k < offset ==> out@[k] == old(out)@[k],
            forall|k: int| offset + bytes@.len() <= k < out@.len() ==> out@[k] == old(out)@[k],
            forall|k: int| offset <= k < offset + i ==> out@[k] == bytes@[k - offset],
            forall|k: int| offset + i <= k < offset + bytes@.len() ==> out@[k] == old(out)@[k],
        decreases bytes@.len() - i,
    {
        out.set(offset + i, bytes[i]);
        i = i + 1;
    }
    assert(out@ =~= old(out)@.subrange(0, offset as int) + bytes@ + old(out)@.subrange(
        offset + bytes@.len(),
        old(out)@.len() as int,
    ));
}

/// Whether `a[start..start + len]` equals `b`.
pub fn range_eq(a: &[u8], start: usize, len: usize, b: &[u8]) -> (r: bool)
    requires
        start + len <= a@.len(),
    ensures
        r == (a@.subrange(start as int, start + len) == b@),
{
    if b.len() != len {
        return false;
    }
    let alen = a.len();
    let mut i: usize = 0;
    while i < len
        invariant
            i <= len,
            alen == a@.len(),
            start + len <= a@.len(),
            b@.len() == len,
            forall|k: int| 0 <= k < i ==> a@[start + k] == b@[k],
        decreases len - i,
    {
        if a[start + i] != b[i] {
            proof {
                assert(a@.subrange(start as int, start + len)[i as int] != b@[i as int]);
            }
            return false;
        }
        i = i + 1;
    }
    proof {
        assert(a@.subrange(start as int, start + len) =~= b@);
    }
    true
}

} // verus!
