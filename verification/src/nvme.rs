//! The Hisi NV ("NVE") partition: 128 KiB blocks, each holding 1023 items of
//! 128 bytes and a 128-byte header at its end. The first eight blocks are
//! managed: block 0 stages a pending update, blocks 1..8 rotate, and the
//! valid one with the highest age is current. Edits are committed as a new
//! generation into the next block.

use vstd::prelude::*;
use vstd::bytes::{spec_u32_to_le_bytes, u32_to_le_bytes};
use crate::bytes::{le_u32, le_u32_at, range_eq, write_bytes};
use crate::text::{
    chars_all_ascii, chars_eq_ignore_case, chars_of, chars_to_upper, eq_ignore_case, find_nul,
    lossy_string, lossy_utf8, nul_end, string_of, trim_space, trim_str, trim_vec, upper_ascii,
    all_ascii,
};

verus! {

pub const NVE_BLOCK_SIZE: usize = 131072;
pub const NVE_PARTITION_COUNT: usize = 8;
pub const NVE_COMMIT_SECTOR_SIZE: usize = 512;
pub const NVE_ITEM_SIZE: usize = 128;
pub const NVE_ITEMS_PER_BLOCK: usize = 1023;
pub const NVE_HEADER_SIZE: usize = 128;
pub const NVE_DATA_SIZE: usize = 104;
pub const NVE_NAME_SIZE: usize = 8;
pub const NVE_INVALID_AGE: u32 = 0;
pub const NVE_CRC_SUPPORT_VERSION: u32 = 2;

/// The header magic `Hisi-NV-Partition`.
pub open spec fn nve_magic() -> Seq<u8> {
    seq![0x48u8, 0x69, 0x73, 0x69, 0x2D, 0x4E, 0x56, 0x2D, 0x50, 0x61, 0x72, 0x74, 0x69, 0x74, 0x69, 0x6F, 0x6E]
}

/// What `crc32c::crc32c_append` returns for a starting CRC and further data.
pub uninterp spec fn crc32c_append_of(crc: u32, data: Seq<u8>) -> u32;

/// `crc32c::crc32c`, which its source defines as `crc32c_append(0, data)`.
#[verifier::external_body]
fn crc32c(data: &[u8]) -> (r: u32)
    ensures
        r == crc32c_append_of(0, data@),
{
    crc32c::crc32c(data)
}

/// `crc32c::crc32c_append`: the CRC-32C of `data` continuing from `crc`.
#[verifier::external_body]
fn crc32c_append(crc: u32, data: &[u8]) -> (r: u32)
    ensures
        r == crc32c_append_of(crc, data@),
{
    crc32c::crc32c_append(crc, data)
}

/// The CRC an item should carry: CRC-32C over its first 20 bytes and its
/// bytes from 24 on, skipping the CRC field itself.
pub open spec fn item_crc_of(item: Seq<u8>) -> u32 {
    crc32c_append_of(crc32c_append_of(0, item.subrange(0, 20)), item.subrange(24, 128))
}

fn compute_item_crc(item: &[u8]) -> (r: u32)
    requires
        item@.len() == NVE_ITEM_SIZE,
    ensures
        r == item_crc_of(item@),
{
    let crc = crc32c(vstd::slice::slice_subrange(item, 0, 20));
    crc32c_append(crc, vstd::slice::slice_subrange(item, 24, 128))
}

/// An NVE text field: the bytes before the first NUL, decoded lossily, trimmed.
pub open spec fn decode_name_of(raw: Seq<u8>) -> Seq<char> {
    trim_space(lossy_utf8(raw.subrange(0, nul_end(raw))))
}

fn decode_name(raw: &[u8], start: usize, end: usize) -> (r: String)
    requires
        start <= end <= raw@.len(),
    ensures
        r@ == decode_name_of(raw@.subrange(start as int, end as int)),
{
    let nul = find_nul(raw, start, end);
    let s = lossy_string(vstd::slice::slice_subrange(raw, start, nul));
    proof {
        assert(raw@.subrange(start as int, end as int).subrange(0, nul - start) =~= raw@.subrange(
            start as int,
            nul as int,
        ));
    }
    trim_str(s.as_str())
}

// ---------------------------------------------------------------------------
// The layout, as spec functions over the whole image.

pub open spec fn block_start(i: int) -> int {
    i * NVE_BLOCK_SIZE
}

pub open spec fn header_start(i: int) -> int {
    block_start(i) + NVE_BLOCK_SIZE - NVE_HEADER_SIZE
}

pub open spec fn item_start(i: int, slot: int) -> int {
    block_start(i) + slot * NVE_ITEM_SIZE
}

/// The 128 bytes of item `slot` of block `i`.
pub open spec fn item_raw(raw: Seq<u8>, i: int, slot: int) -> Seq<u8> {
    raw.subrange(item_start(i, slot), item_start(i, slot) + NVE_ITEM_SIZE)
}

pub open spec fn block_count(raw: Seq<u8>) -> int {
    raw.len() as int / (NVE_BLOCK_SIZE as int)
}

pub open spec fn managed_count(raw: Seq<u8>) -> int {
    if block_count(raw) < NVE_PARTITION_COUNT {
        block_count(raw)
    } else {
        NVE_PARTITION_COUNT as int
    }
}

/// The fields of a block header.
pub struct HeaderView {
    pub partition_name: Seq<char>,
    pub version: u32,
    pub block_id: u32,
    pub block_count: u32,
    pub valid_items: u32,
    pub crc_support: u32,
    pub age: u32,
}

pub open spec fn has_header(raw: Seq<u8>, i: int) -> bool {
    raw.subrange(header_start(i), header_start(i) + 17) == nve_magic()
}

pub open spec fn header_of(raw: Seq<u8>, i: int) -> HeaderView {
    let h = header_start(i);
    HeaderView {
        partition_name: decode_name_of(raw.subrange(h, h + 32)),
        version: le_u32_at(raw, h + 32),
        block_id: le_u32_at(raw, h + 36),
        block_count: le_u32_at(raw, h + 40),
        valid_items: le_u32_at(raw, h + 44),
        crc_support: le_u32_at(raw, h + 52),
        age: le_u32_at(raw, h + 124),
    }
}

pub open spec fn item_number(item: Seq<u8>) -> u32 {
    le_u32_at(item, 0)
}

pub open spec fn item_name(item: Seq<u8>) -> Seq<char> {
    decode_name_of(item.subrange(4, 12))
}

pub open spec fn item_property(item: Seq<u8>) -> u32 {
    le_u32_at(item, 12)
}

pub open spec fn item_declared_size(item: Seq<u8>) -> u32 {
    le_u32_at(item, 16)
}

pub open spec fn item_valid_size(item: Seq<u8>) -> int {
    if item_declared_size(item) > NVE_DATA_SIZE {
        NVE_DATA_SIZE as int
    } else {
        item_declared_size(item) as int
    }
}

pub open spec fn item_crc(item: Seq<u8>) -> u32 {
    le_u32_at(item, 20)
}

pub open spec fn item_value(item: Seq<u8>) -> Seq<u8> {
    item.subrange(24, 24 + item_valid_size(item))
}

pub open spec fn item_crc_valid(item: Seq<u8>) -> bool {
    item_crc(item) == item_crc_of(item)
}

pub open spec fn crc_supported(raw: Seq<u8>, i: int) -> bool {
    has_header(raw, i) && header_of(raw, i).crc_support == NVE_CRC_SUPPORT_VERSION
}

/// How many items the header declares, capped at the slots a block has.
pub open spec fn declared_count(raw: Seq<u8>, i: int) -> int {
    if !has_header(raw, i) {
        0
    } else if header_of(raw, i).valid_items > NVE_ITEMS_PER_BLOCK {
        NVE_ITEMS_PER_BLOCK as int
    } else {
        header_of(raw, i).valid_items as int
    }
}

/// The length of the run of declared items, from slot 0, whose numbers
/// equal their slots.
pub open spec fn numbered_from(raw: Seq<u8>, i: int, k: int) -> int
    decreases declared_count(raw, i) - k,
{
    if k < 0 || k >= declared_count(raw, i) || item_number(item_raw(raw, i, k)) != k {
        k
    } else {
        numbered_from(raw, i, k + 1)
    }
}

pub open spec fn numbered_count(raw: Seq<u8>, i: int) -> int {
    numbered_from(raw, i, 0)
}

pub open spec fn all_crc_valid(raw: Seq<u8>, i: int, n: int) -> bool {
    forall|s: int| 0 <= s < n ==> #[trigger] item_crc_valid(item_raw(raw, i, s))
}

/// Why an NVE image, edit or value was refused.
#[derive(Debug, Clone, Copy, PartialEq, Eq, Structural)]
pub enum NveError {
    TooSmall { len: usize },
    SizeNotMultiple { len: usize },
    NoHeaders,
    InvalidItemCount { block: usize, count: u32 },
    EmptyKey,
    KeyTooLong,
    KeyNotAscii,
    MissingManagedBlocks,
    NoValidBlock,
    SourceInvalid { block: usize },
    NotFound,
    Ambiguous { block: usize },
    PendingUpdate,
    AgeOverflow,
    InvalidValueSize { number: u32, size: u32 },
    ValueTooLong { len: usize, max: u32 },
    InvalidHex,
    InputTooLong { len: usize },
    FblockValue,
    UnsupportedFormat,
    /// The committed block does not load as the kernel would load it.
    CommittedInvalid,
    /// The file is no longer as long as the image read from it.
    SizeChanged,
    /// A managed block on disk differs from what was read before the edit.
    ManagedBlockChanged { block: usize },
    /// The block read back after writing its data differs from what was written.
    StagedMismatch { block: usize },
    /// The block read back after writing its data does not load.
    StagedInvalid,
    /// The block read back after the commit differs from the committed block.
    FinalMismatch { block: usize },
}

/// The items the kernel would load from block `i`: `Ok(None)` when the block
/// has no header, or supports CRCs and has no numbered items or a bad CRC
/// among them; otherwise the count of numbered items.
pub open spec fn kernel_items_of(raw: Seq<u8>, i: int) -> Result<Option<int>, NveError> {
    if !has_header(raw, i) {
        Ok(None)
    } else if header_of(raw, i).valid_items > NVE_ITEMS_PER_BLOCK {
        Err(NveError::InvalidItemCount { block: i as usize, count: header_of(raw, i).valid_items })
    } else {
        let n = numbered_count(raw, i);
        if header_of(raw, i).crc_support == NVE_CRC_SUPPORT_VERSION && (n == 0 || !all_crc_valid(
            raw,
            i,
            n,
        )) {
            Ok(None)
        } else {
            Ok(Some(n))
        }
    }
}

/// A well-formed image: whole blocks, at least one, and a recognized header
/// among the managed ones.
pub open spec fn image_wf(raw: Seq<u8>) -> bool {
    &&& raw.len() >= NVE_BLOCK_SIZE
    &&& raw.len() as int % (NVE_BLOCK_SIZE as int) == 0
    &&& raw.len() <= usize::MAX
    &&& exists|i: int| 0 <= i < managed_count(raw) && #[trigger] has_header(raw, i)
}

/// An NVE image held in memory.
#[derive(Debug)]
pub struct NveImage {
    raw: Vec<u8>,
}

impl NveImage {
    #[verifier::type_invariant]
    spec fn inv(self) -> bool {
        image_wf(self.raw@)
    }

    /// The image bytes.
    pub closed spec fn bytes(self) -> Seq<u8> {
        self.raw@
    }
}

/// Blocks are in range of a well-formed image.
proof fn lemma_block_bounds(raw: Seq<u8>, i: int)
    requires
        image_wf(raw),
        0 <= i < block_count(raw),
    ensures
        block_start(i) + NVE_BLOCK_SIZE <= raw.len(),
        block_count(raw) >= 1,
{
    vstd::arithmetic::div_mod::lemma_fundamental_div_mod(raw.len() as int, NVE_BLOCK_SIZE as int);
    assert(block_start(i) + NVE_BLOCK_SIZE == (i + 1) * NVE_BLOCK_SIZE);
    vstd::arithmetic::mul::lemma_mul_inequality(i + 1, block_count(raw), NVE_BLOCK_SIZE as int);
}

fn starts_with_magic(raw: &[u8], offset: usize) -> (r: bool)
    requires
        offset + 17 <= raw@.len(),
    ensures
        r == (raw@.subrange(offset as int, offset + 17) == nve_magic()),
{
    let magic: [u8; 17] = [
        0x48, 0x69, 0x73, 0x69, 0x2D, 0x4E, 0x56, 0x2D, 0x50, 0x61, 0x72, 0x74, 0x69, 0x74, 0x69,
        0x6F, 0x6E,
    ];
    let len = raw.len();
    let mut k: usize = 0;
    while k < 17
        invariant
            k <= 17,
            len == raw@.len(),
            offset + 17 <= raw@.len(),
            magic@ == nve_magic(),
            forall|j: int| 0 <= j < k ==> raw@[offset + j] == magic@[j],
        decreases 17 - k,
    {
        if raw[offset + k] != magic[k] {
            proof {
                assert(raw@.subrange(offset as int, offset + 17)[k as int] != nve_magic()[k as int]);
            }
            return false;
        }
        k = k + 1;
    }
    proof {
        assert(raw@.subrange(offset as int, offset + 17) =~= nve_magic());
    }
    true
}

/// Whether block `i` has a header (its last 128 bytes start with the magic).
fn block_has_header(raw: &[u8], i: usize) -> (r: bool)
    requires
        block_start(i as int) + NVE_BLOCK_SIZE <= raw@.len(),
    ensures
        r == has_header(raw@, i as int),
{
    let _len = raw.len();
    starts_with_magic(raw, i * NVE_BLOCK_SIZE + NVE_BLOCK_SIZE - NVE_HEADER_SIZE)
}

fn header_u32(raw: &[u8], i: usize, field: usize) -> (r: u32)
    requires
        block_start(i as int) + NVE_BLOCK_SIZE <= raw@.len(),
        field + 4 <= NVE_HEADER_SIZE,
    ensures
        r == le_u32_at(raw@, header_start(i as int) + field),
{
    let _len = raw.len();
    le_u32(raw, i * NVE_BLOCK_SIZE + NVE_BLOCK_SIZE - NVE_HEADER_SIZE + field)
}

fn item_u32(raw: &[u8], i: usize, slot: usize, field: usize) -> (r: u32)
    requires
        block_start(i as int) + NVE_BLOCK_SIZE <= raw@.len(),
        slot < NVE_ITEMS_PER_BLOCK,
        field + 4 <= NVE_ITEM_SIZE,
    ensures
        r == le_u32_at(item_raw(raw@, i as int, slot as int), field as int),
{
    let _len = raw.len();
    let start = i * NVE_BLOCK_SIZE + slot * NVE_ITEM_SIZE;
    proof {
        assert(item_raw(raw@, i as int, slot as int).subrange(field as int, field + 4) =~= raw@.subrange(
            start + field,
            start + field + 4,
        ));
    }
    le_u32(raw, start + field)
}

fn item_slice(raw: &[u8], i: usize, slot: usize) -> (r: &[u8])
    requires
        block_start(i as int) + NVE_BLOCK_SIZE <= raw@.len(),
        slot < NVE_ITEMS_PER_BLOCK,
    ensures
        r@ == item_raw(raw@, i as int, slot as int),
{
    let _len = raw.len();
    let start = i * NVE_BLOCK_SIZE + slot * NVE_ITEM_SIZE;
    vstd::slice::slice_subrange(raw, start, start + NVE_ITEM_SIZE)
}

fn item_crc_ok(raw: &[u8], i: usize, slot: usize) -> (r: bool)
    requires
        block_start(i as int) + NVE_BLOCK_SIZE <= raw@.len(),
        slot < NVE_ITEMS_PER_BLOCK,
    ensures
        r == item_crc_valid(item_raw(raw@, i as int, slot as int)),
{
    let item = item_slice(raw, i, slot);
    le_u32(item, 20) == compute_item_crc(item)
}

fn numbered_items(raw: &[u8], i: usize) -> (r: usize)
    requires
        block_start(i as int) + NVE_BLOCK_SIZE <= raw@.len(),
    ensures
        r == numbered_count(raw@, i as int),
        r <= NVE_ITEMS_PER_BLOCK,
{
    let declared = if !block_has_header(raw, i) {
        0
    } else {
        let v = header_u32(raw, i, 44);
        if v > NVE_ITEMS_PER_BLOCK as u32 {
            NVE_ITEMS_PER_BLOCK
        } else {
            v as usize
        }
    };
    let mut k: usize = 0;
    while k < declared && item_u32(raw, i, k, 0) == k as u32
        invariant
            k <= declared <= NVE_ITEMS_PER_BLOCK,
            declared == declared_count(raw@, i as int),
            block_start(i as int) + NVE_BLOCK_SIZE <= raw@.len(),
            numbered_from(raw@, i as int, 0) == numbered_from(raw@, i as int, k as int),
        decreases declared - k,
    {
        k = k + 1;
    }
    k
}

/// Reads block `i`'s kernel items: see [`kernel_items_of`].
fn kernel_items(raw: &[u8], i: usize) -> (r: Result<Option<usize>, NveError>)
    requires
        block_start(i as int) + NVE_BLOCK_SIZE <= raw@.len(),
    ensures
        match kernel_items_of(raw@, i as int) {
            Ok(Some(n)) => r == Ok::<Option<usize>, NveError>(Some(n as usize)) && 0 <= n
                <= NVE_ITEMS_PER_BLOCK,
            Ok(None) => r == Ok::<Option<usize>, NveError>(None),
            Err(e) => r == Err::<Option<usize>, NveError>(e),
        },
{
    if !block_has_header(raw, i) {
        return Ok(None);
    }
    let count = header_u32(raw, i, 44);
    if count > NVE_ITEMS_PER_BLOCK as u32 {
        return Err(NveError::InvalidItemCount { block: i, count });
    }
    let n = numbered_items(raw, i);
    if header_u32(raw, i, 52) == NVE_CRC_SUPPORT_VERSION {
        if n == 0 {
            return Ok(None);
        }
        let mut s: usize = 0;
        while s < n
            invariant
                s <= n <= NVE_ITEMS_PER_BLOCK,
                n > 0,
                n == numbered_count(raw@, i as int),
                has_header(raw@, i as int),
                header_of(raw@, i as int).valid_items <= NVE_ITEMS_PER_BLOCK,
                header_of(raw@, i as int).crc_support == NVE_CRC_SUPPORT_VERSION,
                block_start(i as int) + NVE_BLOCK_SIZE <= raw@.len(),
                all_crc_valid(raw@, i as int, s as int),
            decreases n - s,
        {
            if !item_crc_ok(raw, i, s) {
                assert(!item_crc_valid(item_raw(raw@, i as int, s as int)));
                return Ok(None);
            }
            s = s + 1;
        }
    }
    Ok(Some(n))
}

/// The block the tools read from: among managed blocks 1.. whose kernel
/// items load, the first one with the highest age above zero; failing that,
/// block 0 when its items load. An invalid item count in any block looked
/// at is an error.
pub open spec fn current_from(raw: Seq<u8>, k: int, best: Option<int>, best_age: u32) -> Result<
    Option<int>,
    NveError,
>
    decreases managed_count(raw) - k,
{
    if k < 1 || k >= managed_count(raw) {
        if best is Some {
            Ok(best)
        } else if managed_count(raw) == 0 {
            Ok(None)
        } else {
            match kernel_items_of(raw, 0) {
                Err(e) => Err(e),
                Ok(None) => Ok(None),
                Ok(Some(_)) => Ok(Some(0)),
            }
        }
    } else {
        match kernel_items_of(raw, k) {
            Err(e) => Err(e),
            Ok(None) => current_from(raw, k + 1, best, best_age),
            Ok(Some(_)) => if header_of(raw, k).age > best_age {
                current_from(raw, k + 1, Some(k), header_of(raw, k).age)
            } else {
                current_from(raw, k + 1, best, best_age)
            },
        }
    }
}

pub open spec fn current_source_of(raw: Seq<u8>) -> Result<Option<int>, NveError> {
    current_from(raw, 1, None, NVE_INVALID_AGE)
}

proof fn lemma_current_in_range(raw: Seq<u8>, k: int, best: Option<int>, best_age: u32)
    requires
        1 <= k,
        best matches Some(b) ==> 1 <= b < managed_count(raw) && kernel_items_of(raw, b) is Ok
            && kernel_items_of(raw, b)->Ok_0 is Some,
    ensures
        current_from(raw, k, best, best_age) matches Ok(Some(b)) ==> 0 <= b < managed_count(raw)
            && kernel_items_of(raw, b) matches Ok(Some(_)),
    decreases managed_count(raw) - k,
{
    if k < managed_count(raw) {
        lemma_current_in_range(raw, k + 1, best, best_age);
        if kernel_items_of(raw, k) matches Ok(Some(_)) {
            lemma_current_in_range(raw, k + 1, Some(k), header_of(raw, k).age);
        }
    }
}

impl NveImage {
    /// Takes ownership of image bytes: whole 128 KiB blocks, at least one,
    /// with a recognized header among the first eight.
    pub fn from_bytes(raw: Vec<u8>) -> (r: Result<NveImage, NveError>)
        ensures
            raw@.len() < NVE_BLOCK_SIZE ==> (r matches Err(e) && e == (NveError::TooSmall {
                len: raw@.len() as usize,
            })),
            raw@.len() >= NVE_BLOCK_SIZE && raw@.len() as int % (NVE_BLOCK_SIZE as int) != 0 ==> (r matches Err(e)
                && e == (NveError::SizeNotMultiple { len: raw@.len() as usize })),
            raw@.len() >= NVE_BLOCK_SIZE && raw@.len() as int % (NVE_BLOCK_SIZE as int) == 0 && !image_wf(
                raw@,
            ) ==> (r matches Err(e) && e == NveError::NoHeaders),
            image_wf(raw@) ==> (r matches Ok(img) && img.bytes() == raw@),
    {
        let len = raw.len();
        if len < NVE_BLOCK_SIZE {
            return Err(NveError::TooSmall { len });
        }
        if len % NVE_BLOCK_SIZE != 0 {
            return Err(NveError::SizeNotMultiple { len });
        }
        let blocks = len / NVE_BLOCK_SIZE;
        let managed = if blocks < NVE_PARTITION_COUNT {
            blocks
        } else {
            NVE_PARTITION_COUNT
        };
        let mut i: usize = 0;
        while i < managed
            invariant
                i <= managed,
                managed as int == managed_count(raw@),
                blocks as int == block_count(raw@),
                len == raw@.len(),
                len >= NVE_BLOCK_SIZE,
                len % NVE_BLOCK_SIZE == 0,
                forall|k: int| 0 <= k < i ==> !#[trigger] has_header(raw@, k),
            decreases managed - i,
        {
            proof {
                vstd::arithmetic::div_mod::lemma_fundamental_div_mod(len as int, NVE_BLOCK_SIZE as int);
                vstd::arithmetic::mul::lemma_mul_inequality(i + 1, blocks as int, NVE_BLOCK_SIZE as int);
            }
            if block_has_header(raw.as_slice(), i) {
                let img = NveImage { raw };
                return Ok(img);
            }
            i = i + 1;
        }
        Err(NveError::NoHeaders)
    }

    /// The image bytes.
    pub fn as_bytes(&self) -> (r: &[u8])
        ensures
            r@ == self.bytes(),
    {
        self.raw.as_slice()
    }

    /// The block edits are read from; see [`current_source_of`].
    pub fn current_source_index_checked(&self) -> (r: Result<Option<usize>, NveError>)
        ensures
            match current_source_of(self.bytes()) {
                Ok(Some(b)) => r == Ok::<Option<usize>, NveError>(Some(b as usize)) && 0 <= b
                    < managed_count(self.bytes()),
                Ok(None) => r == Ok::<Option<usize>, NveError>(None),
                Err(e) => r == Err::<Option<usize>, NveError>(e),
            },
    {
        proof {
            use_type_invariant(self);
            lemma_current_in_range(self.raw@, 1, None, NVE_INVALID_AGE);
        }
        let raw = self.raw.as_slice();
        let blocks = raw.len() / NVE_BLOCK_SIZE;
        let managed = if blocks < NVE_PARTITION_COUNT {
            blocks
        } else {
            NVE_PARTITION_COUNT
        };
        let mut current: Option<usize> = None;
        let mut current_age: u32 = NVE_INVALID_AGE;
        let mut k: usize = 1;
        while k < managed
            invariant
                1 <= k,
                k <= managed || managed == 0,
                managed as int == managed_count(raw@),
                blocks as int == block_count(raw@),
                image_wf(raw@),
                raw@ == self.raw@,
                current_source_of(raw@) == current_from(
                    raw@,
                    k as int,
                    match current {
                        Some(c) => Some(c as int),
                        None => None,
                    },
                    current_age,
                ),
            decreases managed - k,
        {
            proof {
                lemma_block_bounds(raw@, k as int);
            }
            match kernel_items(raw, k) {
                Err(e) => {
                    assert(current_from(raw@, k as int, match current {
                        Some(c) => Some(c as int),
                        None => None,
                    }, current_age) == Err::<Option<int>, NveError>(e));
                    return Err(e);
                },
                Ok(None) => {},
                Ok(Some(_)) => {
                    let age = header_u32(raw, k, 124);
                    if age > current_age {
                        current = Some(k);
                        current_age = age;
                    }
                },
            }
            k = k + 1;
        }
        if current.is_some() {
            return Ok(current);
        }
        if managed == 0 {
            return Ok(None);
        }
        proof {
            lemma_block_bounds(raw@, 0);
        }
        match kernel_items(raw, 0) {
            Err(e) => Err(e),
            Ok(None) => Ok(None),
            Ok(Some(_)) => Ok(Some(0)),
        }
    }

    /// The current block, or `None` when there is none or the search failed.
    pub fn current_source_index(&self) -> (r: Option<usize>)
        ensures
            match current_source_of(self.bytes()) {
                Ok(Some(b)) => r == Some(b as usize),
                _ => r is None,
            },
    {
        match self.current_source_index_checked() {
            Ok(found) => found,
            Err(_) => None,
        }
    }
}


// ---------------------------------------------------------------------------
// Editing one entry.

/// An entry name as edits take it: trimmed, non-empty, at most 8 bytes,
/// ASCII, upper-cased.
pub open spec fn normalize_key_of(key: Seq<char>) -> Result<Seq<char>, NveError> {
    let k = trim_space(key);
    if k.len() == 0 {
        Err(NveError::EmptyKey)
    } else if crate::text::utf8_len(k) > NVE_NAME_SIZE {
        Err(NveError::KeyTooLong)
    } else if !all_ascii(k) {
        Err(NveError::KeyNotAscii)
    } else {
        Ok(upper_ascii(k))
    }
}

pub fn normalize_key(key: &str) -> (r: Result<String, NveError>)
    ensures
        match normalize_key_of(key@) {
            Ok(k) => r matches Ok(s) && s@ == k,
            Err(e) => r matches Err(re) && re == e,
        },
{
    let trimmed = trim_str(key);
    let chars = chars_of(trimmed.as_str());
    if chars.len() == 0 {
        return Err(NveError::EmptyKey);
    }
    if crate::text::utf8_len_exceeds(chars.as_slice(), NVE_NAME_SIZE) {
        return Err(NveError::KeyTooLong);
    }
    if !chars_all_ascii(chars.as_slice()) {
        return Err(NveError::KeyNotAscii);
    }
    let upper = chars_to_upper(chars.as_slice());
    Ok(string_of(upper.as_slice()))
}

/// The item with its value area replaced by `value` (zero-padded) and, when
/// asked, its CRC recomputed.
pub open spec fn updated_item_of(item: Seq<u8>, value: Seq<u8>, update_crc: bool) -> Result<
    Seq<u8>,
    NveError,
> {
    let declared = item_declared_size(item);
    if declared > NVE_DATA_SIZE {
        Err(NveError::InvalidValueSize { number: item_number(item), size: declared })
    } else if value.len() > declared {
        Err(NveError::ValueTooLong { len: value.len() as usize, max: declared })
    } else {
        let filled = item.subrange(0, 24) + value + Seq::new(
            (NVE_DATA_SIZE - value.len()) as nat,
            |i: int| 0u8,
        );
        if update_crc {
            Ok(splice(filled, 20, spec_u32_to_le_bytes(item_crc_of(filled))))
        } else {
            Ok(filled)
        }
    }
}

/// `s` with `bytes` written at `offset`.
pub open spec fn splice(s: Seq<u8>, offset: int, bytes: Seq<u8>) -> Seq<u8> {
    s.subrange(0, offset) + bytes + s.subrange(offset + bytes.len(), s.len() as int)
}

/// The slots below `m` of block `b` whose item names match `key`, ignoring
/// ASCII case.
pub open spec fn matching_slots(raw: Seq<u8>, b: int, key: Seq<char>, m: int) -> Seq<int>
    decreases m,
{
    if m <= 0 {
        Seq::empty()
    } else if eq_ignore_case(item_name(item_raw(raw, b, m - 1)), key) {
        matching_slots(raw, b, key, m - 1).push(m - 1)
    } else {
        matching_slots(raw, b, key, m - 1)
    }
}

/// The block a commit from `source` goes to: the next of blocks 1..8,
/// wrapping to 1.
pub open spec fn commit_target(source: int) -> int {
    if source == 0 || source + 1 >= NVE_PARTITION_COUNT {
        1
    } else {
        source + 1
    }
}

/// The committed block's bytes: the source block with the updated item, the
/// item count and the new age written into it.
pub open spec fn committed_block_of(raw: Seq<u8>, source: int, slot: int, item: Seq<u8>, count: u32, age: u32) -> Seq<u8> {
    let sb = block_start(source);
    let b0 = splice(raw.subrange(sb, sb + NVE_BLOCK_SIZE), slot * NVE_ITEM_SIZE, item);
    let b1 = splice(b0, NVE_BLOCK_SIZE - NVE_HEADER_SIZE + 44, spec_u32_to_le_bytes(count));
    splice(b1, NVE_BLOCK_SIZE - 4, spec_u32_to_le_bytes(age))
}

/// What a successful edit reports.
pub struct CommitView {
    pub source_block: int,
    pub committed_block: int,
    pub slot: int,
    pub age: u32,
    pub original_target: Seq<u8>,
}

/// The outcome of writing `value` to the entry named `key`: the new image
/// bytes and the commit, or the first check that failed.
pub open spec fn write_entry_of(raw: Seq<u8>, key: Seq<char>, value: Seq<u8>) -> Result<
    (Seq<u8>, CommitView),
    NveError,
> {
    match normalize_key_of(key) {
        Err(e) => Err(e),
        Ok(k) => if block_count(raw) < NVE_PARTITION_COUNT {
            Err(NveError::MissingManagedBlocks)
        } else {
            match current_source_of(raw) {
                Err(e) => Err(e),
                Ok(None) => Err(NveError::NoValidBlock),
                Ok(Some(src)) => match kernel_items_of(raw, src) {
                    Err(e) => Err(e),
                    Ok(None) => Err(NveError::SourceInvalid { block: src as usize }),
                    Ok(Some(n)) => {
                        let found = matching_slots(raw, src, k, n);
                        if found.len() == 0 {
                            Err(NveError::NotFound)
                        } else if found.len() > 1 {
                            Err(NveError::Ambiguous { block: src as usize })
                        } else {
                            let slot = found[0];
                            match kernel_items_of(raw, 0) {
                                Err(e) => Err(e),
                                Ok(update) => if update matches Some(u) && !(slot < u
                                    && item_property(item_raw(raw, src, slot)) != 0) {
                                    Err(NveError::PendingUpdate)
                                } else if header_of(raw, src).age as int + 1 > u32::MAX {
                                    Err(NveError::AgeOverflow)
                                } else {
                                    let age = (header_of(raw, src).age + 1) as u32;
                                    let target = commit_target(src);
                                    match updated_item_of(
                                        item_raw(raw, src, slot),
                                        value,
                                        crc_supported(raw, src),
                                    ) {
                                        Err(e) => Err(e),
                                        Ok(item) => {
                                            let tb = block_start(target);
                                            Ok(
                                                (
                                                    splice(
                                                        raw,
                                                        tb,
                                                        committed_block_of(raw, src, slot, item, n as u32, age),
                                                    ),
                                                    CommitView {
                                                        source_block: src,
                                                        committed_block: target,
                                                        slot,
                                                        age,
                                                        original_target: raw.subrange(
                                                            tb,
                                                            tb + NVE_BLOCK_SIZE,
                                                        ),
                                                    },
                                                ),
                                            )
                                        },
                                    }
                                },
                            }
                        }
                    },
                },
            }
        },
    }
}

/// The result of committing one edited entry.
#[derive(Debug, Clone, PartialEq, Eq)]
pub struct NveCommitResult {
    pub updated_items: usize,
    pub source_block: usize,
    pub committed_block: usize,
    pub age: u32,
    pub original_target: Vec<u8>,
}

impl NveCommitResult {
    /// The committed block's bytes before the commit.
    pub fn original_target(&self) -> (r: &[u8])
        ensures
            r@ == self.original_target@,
    {
        self.original_target.as_slice()
    }
}

/// What an in-place edit of a file reports.
#[derive(Debug, Clone)]
pub struct NveEditResult {
    pub backup_path: String,
    pub updated_items: usize,
    pub source_block: usize,
    pub committed_block: usize,
    pub age: u32,
    pub value_size: usize,
    pub value_hex: String,
    pub mode: String,
}

fn find_slots(raw: &[u8], b: usize, key: &Vec<char>, n: usize) -> (r: Vec<usize>)
    requires
        block_start(b as int) + NVE_BLOCK_SIZE <= raw@.len(),
        n <= NVE_ITEMS_PER_BLOCK,
    ensures
        r@.len() == matching_slots(raw@, b as int, key@, n as int).len(),
        forall|j: int| 0 <= j < r@.len() ==> r@[j] as int == matching_slots(raw@, b as int, key@, n as int)[j],
{
    let _len = raw.len();
    let mut found: Vec<usize> = Vec::new();
    let mut s: usize = 0;
    while s < n
        invariant
            s <= n <= NVE_ITEMS_PER_BLOCK,
            _len == raw@.len(),
            block_start(b as int) + NVE_BLOCK_SIZE <= raw@.len(),
            found@.len() == matching_slots(raw@, b as int, key@, s as int).len(),
            forall|j: int| 0 <= j < found@.len() ==> found@[j] as int == matching_slots(raw@, b as int, key@, s as int)[j],
        decreases n - s,
    {
        let start = b * NVE_BLOCK_SIZE + s * NVE_ITEM_SIZE;
        let name = decode_name(raw, start + 4, start + 12);
        proof {
            assert(item_raw(raw@, b as int, s as int).subrange(4, 12) =~= raw@.subrange(
                start + 4,
                start + 12,
            ));
        }
        let name_chars = chars_of(name.as_str());
        if chars_eq_ignore_case(name_chars.as_slice(), key.as_slice()) {
            found.push(s);
        }
        s = s + 1;
    }
    found
}

fn updated_item(item: &[u8], value: &[u8], update_crc: bool) -> (r: Result<Vec<u8>, NveError>)
    requires
        item@.len() == NVE_ITEM_SIZE,
    ensures
        match updated_item_of(item@, value@, update_crc) {
            Ok(v) => r matches Ok(out) && out@ == v,
            Err(e) => r matches Err(re) && re == e,
        },
        r matches Ok(out) ==> out@.len() == NVE_ITEM_SIZE,
{
    let declared = le_u32(item, 16);
    if declared > NVE_DATA_SIZE as u32 {
        return Err(NveError::InvalidValueSize { number: le_u32(item, 0), size: declared });
    }
    if value.len() > declared as usize {
        return Err(NveError::ValueTooLong { len: value.len(), max: declared });
    }
    let mut out: Vec<u8> = Vec::new();
    let mut i: usize = 0;
    while i < 24
        invariant
            i <= 24,
            item@.len() == NVE_ITEM_SIZE,
            out@ == item@.subrange(0, i as int),
        decreases 24 - i,
    {
        out.push(item[i]);
        proof {
            assert(out@ =~= item@.subrange(0, i + 1));
        }
        i = i + 1;
    }
    let mut j: usize = 0;
    while j < value.len()
        invariant
            j <= value@.len() <= NVE_DATA_SIZE,
            out@ == item@.subrange(0, 24) + value@.subrange(0, j as int),
        decreases value@.len() - j,
    {
        out.push(value[j]);
        proof {
            assert(out@ =~= item@.subrange(0, 24) + value@.subrange(0, j + 1));
        }
        j = j + 1;
    }
    proof {
        assert(value@.subrange(0, value@.len() as int) =~= value@);
    }
    let mut k: usize = value.len();
    let ghost unpadded = out@;
    while k < NVE_DATA_SIZE
        invariant
            value@.len() <= k <= NVE_DATA_SIZE,
            out@ == unpadded + Seq::new((k - value@.len()) as nat, |i: int| 0u8),
        decreases NVE_DATA_SIZE - k,
    {
        out.push(0);
        proof {
            assert(out@ =~= unpadded + Seq::new((k + 1 - value@.len()) as nat, |i: int| 0u8));
        }
        k = k + 1;
    }
    if update_crc {
        let crc = compute_item_crc(out.as_slice());
        let crc_bytes = u32_to_le_bytes(crc);
        write_bytes(&mut out, 20, crc_bytes.as_slice());
    }
    Ok(out)
}

/// The bytes of the committed block, offset by offset.
proof fn lemma_committed_block_at(
    raw: Seq<u8>,
    src: int,
    slot: int,
    item: Seq<u8>,
    count: u32,
    age: u32,
    o: int,
)
    requires
        0 <= src,
        block_start(src) + NVE_BLOCK_SIZE <= raw.len(),
        0 <= slot < NVE_ITEMS_PER_BLOCK,
        item.len() == NVE_ITEM_SIZE,
        0 <= o < NVE_BLOCK_SIZE,
    ensures
        committed_block_of(raw, src, slot, item, count, age).len() == NVE_BLOCK_SIZE,
        committed_block_of(raw, src, slot, item, count, age)[o] == if NVE_BLOCK_SIZE - 4 <= o {
            spec_u32_to_le_bytes(age)[o - (NVE_BLOCK_SIZE - 4)]
        } else if NVE_BLOCK_SIZE - NVE_HEADER_SIZE + 44 <= o < NVE_BLOCK_SIZE - NVE_HEADER_SIZE + 48 {
            spec_u32_to_le_bytes(count)[o - (NVE_BLOCK_SIZE - NVE_HEADER_SIZE + 44)]
        } else if slot * NVE_ITEM_SIZE <= o < slot * NVE_ITEM_SIZE + NVE_ITEM_SIZE {
            item[o - slot * NVE_ITEM_SIZE]
        } else {
            raw[block_start(src) + o]
        },
{
    vstd::bytes::lemma_auto_spec_u32_to_from_le_bytes();
}

/// A committed block keeps the header magic of its source block.
proof fn lemma_commit_keeps_magic(raw: Seq<u8>, src: int, slot: int, item: Seq<u8>, count: u32, age: u32, target: int)
    requires
        0 <= src,
        0 <= target,
        block_start(src) + NVE_BLOCK_SIZE <= raw.len(),
        block_start(target) + NVE_BLOCK_SIZE <= raw.len(),
        0 <= slot < NVE_ITEMS_PER_BLOCK,
        item.len() == NVE_ITEM_SIZE,
        has_header(raw, src),
    ensures
        has_header(splice(raw, block_start(target), committed_block_of(raw, src, slot, item, count, age)), target),
{
    let blk = committed_block_of(raw, src, slot, item, count, age);
    let nr = splice(raw, block_start(target), blk);
    assert forall|j: int| 0 <= j < 17 implies #[trigger] nr[header_start(target) + j] == raw[header_start(src) + j] by {
        lemma_committed_block_at(raw, src, slot, item, count, age, NVE_BLOCK_SIZE - NVE_HEADER_SIZE + j);
        assert(raw.subrange(header_start(src), header_start(src) + 17)[j] == raw[header_start(src) + j]);
    }
    lemma_committed_block_at(raw, src, slot, item, count, age, 0);
    assert(nr.subrange(header_start(target), header_start(target) + 17) =~= raw.subrange(
        header_start(src),
        header_start(src) + 17,
    ));
}

proof fn lemma_splice_len(s: Seq<u8>, offset: int, bytes: Seq<u8>)
    requires
        0 <= offset,
        offset + bytes.len() <= s.len(),
    ensures
        splice(s, offset, bytes).len() == s.len(),
        forall|k: int| 0 <= k < offset ==> #[trigger] splice(s, offset, bytes)[k] == s[k],
        forall|k: int| offset + bytes.len() <= k < s.len() ==> #[trigger] splice(s, offset, bytes)[k] == s[k],
        forall|k: int| offset <= k < offset + bytes.len() ==> #[trigger] splice(s, offset, bytes)[k] == bytes[k - offset],
{
}

impl NveImage {
    /// Writes `value` to the entry named `key` (ASCII, case-insensitive) as
    /// a new generation: the current block is copied into the next managed
    /// block with the entry's value replaced (and its CRC recomputed when
    /// the block uses CRCs), its item count and an age one higher.
    pub fn write_entry(&mut self, key: &str, value: &[u8]) -> (r: Result<NveCommitResult, NveError>)
        ensures
            match write_entry_of(old(self).bytes(), key@, value@) {
                Ok((new_raw, c)) => r matches Ok(res) && final(self).bytes() == new_raw
                    && res.updated_items == 1 && res.source_block == c.source_block
                    && res.committed_block == c.committed_block && res.age == c.age
                    && res.original_target@ == c.original_target,
                Err(e) => r matches Err(re) && re == e && final(self).bytes() == old(self).bytes(),
            },
    {
        proof {
            use_type_invariant(&*self);
        }
        let k = match normalize_key(key) {
            Ok(k) => k,
            Err(e) => {
                return Err(e);
            },
        };
        let kchars = chars_of(k.as_str());
        let len = self.raw.len();
        let blocks = len / NVE_BLOCK_SIZE;
        if blocks < NVE_PARTITION_COUNT {
            return Err(NveError::MissingManagedBlocks);
        }
        let source = match self.current_source_index_checked() {
            Err(e) => {
                return Err(e);
            },
            Ok(None) => {
                return Err(NveError::NoValidBlock);
            },
            Ok(Some(s)) => s,
        };
        let ghost raw0 = self.raw@;
        proof {
            lemma_block_bounds(raw0, source as int);
            lemma_block_bounds(raw0, 0);
        }
        let raw = self.raw.as_slice();
        let n = match kernel_items(raw, source) {
            Err(e) => {
                return Err(e);
            },
            Ok(None) => {
                return Err(NveError::SourceInvalid { block: source });
            },
            Ok(Some(n)) => n,
        };
        let found = find_slots(raw, source, &kchars, n);
        if found.len() == 0 {
            return Err(NveError::NotFound);
        }
        if found.len() > 1 {
            return Err(NveError::Ambiguous { block: source });
        }
        let slot = found[0];
        proof {
            lemma_matching_slots_range(raw0, source as int, kchars@, n as int);
            assert(slot as int == matching_slots(raw0, source as int, kchars@, n as int)[0]);
            assert(slot < n);
        }
        match kernel_items(raw, 0) {
            Err(e) => {
                return Err(e);
            },
            Ok(Some(u)) => {
                if !(slot < u && item_u32(raw, source, slot, 12) != 0) {
                    return Err(NveError::PendingUpdate);
                }
            },
            Ok(None) => {},
        }
        let source_age = header_u32(raw, source, 124);
        if source_age == u32::MAX {
            return Err(NveError::AgeOverflow);
        }
        let age = source_age + 1;
        let target = if source == 0 || source + 1 >= NVE_PARTITION_COUNT {
            1
        } else {
            source + 1
        };
        proof {
            lemma_block_bounds(raw0, target as int);
        }
        let crc_sup = block_has_header(raw, source) && header_u32(raw, source, 52)
            == NVE_CRC_SUPPORT_VERSION;
        let item = match updated_item(item_slice(raw, source, slot), value, crc_sup) {
            Ok(item) => item,
            Err(e) => {
                return Err(e);
            },
        };
        let sb = source * NVE_BLOCK_SIZE;
        let tb = target * NVE_BLOCK_SIZE;
        let mut block = vstd::slice::slice_to_vec(vstd::slice::slice_subrange(raw, sb, sb + NVE_BLOCK_SIZE));
        let original_target = vstd::slice::slice_to_vec(
            vstd::slice::slice_subrange(raw, tb, tb + NVE_BLOCK_SIZE),
        );
        write_bytes(&mut block, slot * NVE_ITEM_SIZE, item.as_slice());
        let count_bytes = u32_to_le_bytes(n as u32);
        write_bytes(&mut block, NVE_BLOCK_SIZE - NVE_HEADER_SIZE + 44, count_bytes.as_slice());
        let age_bytes = u32_to_le_bytes(age);
        write_bytes(&mut block, NVE_BLOCK_SIZE - 4, age_bytes.as_slice());
        let mut new_raw = vstd::slice::slice_to_vec(raw);
        write_bytes(&mut new_raw, tb, block.as_slice());
        proof {
            let blk = committed_block_of(raw0, source as int, slot as int, item@, n as u32, age);
            assert(block@ =~= blk);
            assert(new_raw@ =~= splice(raw0, tb as int, blk));
            lemma_commit_keeps_magic(raw0, source as int, slot as int, item@, n as u32, age, target as int);
            assert(new_raw@.len() == raw0.len());
            assert(has_header(new_raw@, target as int));
            assert(block_count(new_raw@) == block_count(raw0));
            assert(0 <= target < managed_count(new_raw@));
        }
        self.raw = new_raw;
        Ok(
            NveCommitResult {
                updated_items: 1,
                source_block: source,
                committed_block: target,
                age,
                original_target,
            },
        )
    }
}

proof fn lemma_matching_slots_range(raw: Seq<u8>, b: int, key: Seq<char>, m: int)
    ensures
        forall|j: int|
            0 <= j < matching_slots(raw, b, key, m).len() ==> 0 <= #[trigger] matching_slots(
                raw,
                b,
                key,
                m,
            )[j] < m,
    decreases m,
{
    if m > 0 {
        lemma_matching_slots_range(raw, b, key, m - 1);
        let prev = matching_slots(raw, b, key, m - 1);
        assert forall|j: int| 0 <= j < matching_slots(raw, b, key, m).len() implies 0
            <= #[trigger] matching_slots(raw, b, key, m)[j] < m by {
            if j < prev.len() {
                assert(prev[j] < m - 1);
            }
        }
    }
}

/// The item written by an edit holds the new value, zero-padded to the
/// entry's declared size, keeps its number, name and size fields, and
/// carries a valid CRC when CRCs were updated.
pub proof fn lemma_updated_item(item: Seq<u8>, value: Seq<u8>, update_crc: bool)
    requires
        item.len() == NVE_ITEM_SIZE,
        updated_item_of(item, value, update_crc) is Ok,
    ensures
        ({
            let out = updated_item_of(item, value, update_crc)->Ok_0;
            &&& out.len() == NVE_ITEM_SIZE
            &&& item_number(out) == item_number(item)
            &&& item_name(out) == item_name(item)
            &&& item_property(out) == item_property(item)
            &&& item_declared_size(out) == item_declared_size(item)
            &&& item_value(out) == value + Seq::new(
                (item_declared_size(item) - value.len()) as nat,
                |i: int| 0u8,
            )
            &&& update_crc ==> item_crc_valid(out)
        }),
{
    vstd::bytes::lemma_auto_spec_u32_to_from_le_bytes();
    let filled = item.subrange(0, 24) + value + Seq::new(
        (NVE_DATA_SIZE - value.len()) as nat,
        |i: int| 0u8,
    );
    let out = updated_item_of(item, value, update_crc)->Ok_0;
    assert(filled.len() == NVE_ITEM_SIZE);
    assert(out.subrange(0, 4) =~= item.subrange(0, 4));
    assert(out.subrange(4, 12) =~= item.subrange(4, 12));
    assert(out.subrange(12, 16) =~= item.subrange(12, 16));
    assert(out.subrange(16, 20) =~= item.subrange(16, 20));
    let d = item_declared_size(item) as int;
    assert(item_value(out) =~= value + Seq::new((d - value.len()) as nat, |i: int| 0u8));
    if update_crc {
        let crc_bytes = spec_u32_to_le_bytes(item_crc_of(filled));
        assert(out.subrange(20, 24) =~= crc_bytes);
        assert(out.subrange(0, 20) =~= filled.subrange(0, 20));
        assert(out.subrange(24, 128) =~= filled.subrange(24, 128));
    }
}

proof fn lemma_numbered_bounds(raw: Seq<u8>, i: int, k: int)
    requires
        0 <= k <= declared_count(raw, i),
    ensures
        k <= numbered_from(raw, i, k) <= declared_count(raw, i),
        declared_count(raw, i) <= NVE_ITEMS_PER_BLOCK,
    decreases declared_count(raw, i) - k,
{
    if k < declared_count(raw, i) && item_number(item_raw(raw, i, k)) == k {
        lemma_numbered_bounds(raw, i, k + 1);
    }
}

/// A successful edit leaves a well-formed image of the same size in which
/// only the committed block changed; that block carries the new age and the
/// source's item count, and its edited item reads back the new value.
#[verifier::spinoff_prover]
#[verifier::rlimit(50)]
pub proof fn lemma_write_entry_commits(raw: Seq<u8>, key: Seq<char>, value: Seq<u8>)
    requires
        image_wf(raw),
        write_entry_of(raw, key, value) is Ok,
    ensures
        ({
            let (nr, c) = write_entry_of(raw, key, value)->Ok_0;
            let item = item_raw(nr, c.committed_block, c.slot);
            let before = item_raw(raw, c.source_block, c.slot);
            &&& image_wf(nr)
            &&& nr.len() == raw.len()
            &&& 1 <= c.committed_block < NVE_PARTITION_COUNT
            &&& c.committed_block != c.source_block
            &&& forall|b: int|
                0 <= b < block_count(raw) && b != c.committed_block ==> #[trigger] nr.subrange(
                    block_start(b),
                    block_start(b) + NVE_BLOCK_SIZE,
                ) == raw.subrange(block_start(b), block_start(b) + NVE_BLOCK_SIZE)
            &&& has_header(nr, c.committed_block)
            &&& header_of(nr, c.committed_block).age == c.age
            &&& c.age == header_of(raw, c.source_block).age + 1
            &&& item_name(item) == item_name(before)
            &&& item_value(item) == value + Seq::new(
                (item_declared_size(before) - value.len()) as nat,
                |i: int| 0u8,
            )
            &&& crc_supported(raw, c.source_block) ==> item_crc_valid(item)
        }),
{
    vstd::bytes::lemma_auto_spec_u32_to_from_le_bytes();
    let k = normalize_key_of(key)->Ok_0;
    lemma_current_in_range(raw, 1, None, NVE_INVALID_AGE);
    let src = current_source_of(raw)->Ok_0->0;
    let n = kernel_items_of(raw, src)->Ok_0->0;
    lemma_numbered_bounds(raw, src, 0);
    let found = matching_slots(raw, src, k, n);
    lemma_matching_slots_range(raw, src, k, n);
    let slot = found[0];
    let target = commit_target(src);
    lemma_block_bounds(raw, src);
    lemma_block_bounds(raw, target);
    let before = item_raw(raw, src, slot);
    let item = updated_item_of(before, value, crc_supported(raw, src))->Ok_0;
    lemma_updated_item(before, value, crc_supported(raw, src));
    let age = (header_of(raw, src).age + 1) as u32;
    let blk = committed_block_of(raw, src, slot, item, n as u32, age);
    let tb = block_start(target);
    let nr = splice(raw, tb, blk);
    lemma_committed_block_at(raw, src, slot, item, n as u32, age, 0);
    lemma_commit_keeps_magic(raw, src, slot, item, n as u32, age, target);
    assert(nr.len() == raw.len());
    assert(block_count(nr) == block_count(raw));
    assert(0 <= target < managed_count(nr));
    assert forall|b: int|
        0 <= b < block_count(raw) && b != target implies #[trigger] nr.subrange(
            block_start(b),
            block_start(b) + NVE_BLOCK_SIZE,
        ) == raw.subrange(block_start(b), block_start(b) + NVE_BLOCK_SIZE) by {
        lemma_block_bounds(raw, b);
        if b < target {
            assert(block_start(b) + NVE_BLOCK_SIZE <= tb);
        } else {
            assert(block_start(b) >= tb + NVE_BLOCK_SIZE);
        }
        assert(nr.subrange(block_start(b), block_start(b) + NVE_BLOCK_SIZE) =~= raw.subrange(
            block_start(b),
            block_start(b) + NVE_BLOCK_SIZE,
        ));
    }
    let new_item = item_raw(nr, target, slot);
    assert forall|j: int| 0 <= j < NVE_ITEM_SIZE implies #[trigger] new_item[j] == item[j] by {
        lemma_committed_block_at(raw, src, slot, item, n as u32, age, slot * NVE_ITEM_SIZE + j);
    }
    assert(new_item =~= item);
    let h = header_start(target);
    assert forall|j: int| 0 <= j < 4 implies #[trigger] nr[h + 124 + j] == spec_u32_to_le_bytes(age)[j] by {
        lemma_committed_block_at(raw, src, slot, item, n as u32, age, NVE_BLOCK_SIZE - 4 + j);
    }
    assert(nr.subrange(h + 124, h + 128) =~= spec_u32_to_le_bytes(age));
}

// ---------------------------------------------------------------------------
// The edit becomes the current generation.

proof fn lemma_in_block_equal(a: Seq<u8>, c: Seq<u8>, b: int, x: int, y: int)
    requires
        0 <= b,
        block_start(b) + NVE_BLOCK_SIZE <= a.len(),
        block_start(b) + NVE_BLOCK_SIZE <= c.len(),
        block_of(a, b) == block_of(c, b),
        block_start(b) <= x <= y <= block_start(b) + NVE_BLOCK_SIZE,
    ensures
        a.subrange(x, y) == c.subrange(x, y),
{
    let bs = block_start(b);
    assert forall|i: int| 0 <= i < y - x implies #[trigger] a.subrange(x, y)[i] == c.subrange(x, y)[i] by {
        assert(block_of(a, b)[x - bs + i] == a[x + i]);
        assert(block_of(c, b)[x - bs + i] == c[x + i]);
    }
    assert(a.subrange(x, y) =~= c.subrange(x, y));
}

proof fn lemma_same_header(a: Seq<u8>, c: Seq<u8>, b: int)
    requires
        0 <= b,
        block_start(b) + NVE_BLOCK_SIZE <= a.len(),
        block_start(b) + NVE_BLOCK_SIZE <= c.len(),
        block_of(a, b) == block_of(c, b),
    ensures
        has_header(a, b) == has_header(c, b),
        header_of(a, b) == header_of(c, b),
        declared_count(a, b) == declared_count(c, b),
{
    let h = header_start(b);
    lemma_in_block_equal(a, c, b, h, h + 17);
    lemma_in_block_equal(a, c, b, h, h + 32);
    lemma_in_block_equal(a, c, b, h + 32, h + 36);
    lemma_in_block_equal(a, c, b, h + 36, h + 40);
    lemma_in_block_equal(a, c, b, h + 40, h + 44);
    lemma_in_block_equal(a, c, b, h + 44, h + 48);
    lemma_in_block_equal(a, c, b, h + 52, h + 56);
    lemma_in_block_equal(a, c, b, h + 124, h + 128);
}

proof fn lemma_same_items(a: Seq<u8>, c: Seq<u8>, b: int, s: int)
    requires
        0 <= b,
        block_start(b) + NVE_BLOCK_SIZE <= a.len(),
        block_start(b) + NVE_BLOCK_SIZE <= c.len(),
        block_of(a, b) == block_of(c, b),
        0 <= s < NVE_ITEMS_PER_BLOCK,
    ensures
        item_raw(a, b, s) == item_raw(c, b, s),
{
    lemma_in_block_equal(a, c, b, item_start(b, s), item_start(b, s) + NVE_ITEM_SIZE);
}

proof fn lemma_same_numbered(a: Seq<u8>, c: Seq<u8>, b: int, k: int)
    requires
        0 <= b,
        0 <= k,
        block_start(b) + NVE_BLOCK_SIZE <= a.len(),
        block_start(b) + NVE_BLOCK_SIZE <= c.len(),
        block_of(a, b) == block_of(c, b),
    ensures
        numbered_from(a, b, k) == numbered_from(c, b, k),
    decreases declared_count(a, b) - k,
{
    lemma_same_header(a, c, b);
    lemma_numbered_bounds(a, b, 0);
    if k < declared_count(a, b) {
        lemma_same_items(a, c, b, k);
        lemma_same_numbered(a, c, b, k + 1);
    }
}

/// Whether a block's kernel items load depends only on the block's bytes.
proof fn lemma_same_block_loads(a: Seq<u8>, c: Seq<u8>, b: int)
    requires
        0 <= b,
        block_start(b) + NVE_BLOCK_SIZE <= a.len(),
        block_start(b) + NVE_BLOCK_SIZE <= c.len(),
        block_of(a, b) == block_of(c, b),
    ensures
        kernel_items_of(a, b) == kernel_items_of(c, b),
        header_of(a, b) == header_of(c, b),
{
    lemma_same_header(a, c, b);
    lemma_same_numbered(a, c, b, 0);
    lemma_numbered_bounds(a, b, 0);
    let n = numbered_count(a, b);
    if all_crc_valid(a, b, n) {
        assert forall|s: int| 0 <= s < n implies #[trigger] item_crc_valid(item_raw(c, b, s)) by {
            lemma_same_items(a, c, b, s);
        }
    }
    if all_crc_valid(c, b, n) {
        assert forall|s: int| 0 <= s < n implies #[trigger] item_crc_valid(item_raw(a, b, s)) by {
            lemma_same_items(a, c, b, s);
        }
    }
}

/// The numbered run from `k` really holds items numbered by their slots.
proof fn lemma_numbered_items(raw: Seq<u8>, i: int, k: int)
    requires
        0 <= k <= declared_count(raw, i),
    ensures
        forall|j: int| k <= j < numbered_from(raw, i, k) ==> #[trigger] item_number(item_raw(raw, i, j)) == j,
    decreases declared_count(raw, i) - k,
{
    if k < declared_count(raw, i) && item_number(item_raw(raw, i, k)) == k {
        lemma_numbered_items(raw, i, k + 1);
    }
}

/// Items numbered by their slots up to the declared count make the whole
/// declared run numbered.
proof fn lemma_numbered_full(raw: Seq<u8>, i: int, k: int)
    requires
        0 <= k <= declared_count(raw, i),
        forall|j: int| k <= j < declared_count(raw, i) ==> #[trigger] item_number(item_raw(raw, i, j)) == j,
    ensures
        numbered_from(raw, i, k) == declared_count(raw, i),
    decreases declared_count(raw, i) - k,
{
    if k < declared_count(raw, i) {
        assert(item_number(item_raw(raw, i, k)) == k);
        lemma_numbered_full(raw, i, k + 1);
    }
}

/// Outside the rewritten item, count and age, the committed block holds the
/// source block's bytes.
proof fn lemma_committed_copies(
    raw: Seq<u8>,
    src: int,
    slot: int,
    item: Seq<u8>,
    count: u32,
    age: u32,
    target: int,
    x: int,
    y: int,
)
    requires
        0 <= src,
        0 <= target,
        block_start(src) + NVE_BLOCK_SIZE <= raw.len(),
        block_start(target) + NVE_BLOCK_SIZE <= raw.len(),
        0 <= slot < NVE_ITEMS_PER_BLOCK,
        item.len() == NVE_ITEM_SIZE,
        0 <= x <= y <= NVE_BLOCK_SIZE - 4,
        y <= slot * NVE_ITEM_SIZE || slot * NVE_ITEM_SIZE + NVE_ITEM_SIZE <= x,
        y <= NVE_BLOCK_SIZE - NVE_HEADER_SIZE + 44 || NVE_BLOCK_SIZE - NVE_HEADER_SIZE + 48 <= x,
    ensures
        splice(raw, block_start(target), committed_block_of(raw, src, slot, item, count, age)).subrange(
            block_start(target) + x,
            block_start(target) + y,
        ) == raw.subrange(block_start(src) + x, block_start(src) + y),
{
    let blk = committed_block_of(raw, src, slot, item, count, age);
    let tb = block_start(target);
    let nr = splice(raw, tb, blk);
    lemma_committed_block_at(raw, src, slot, item, count, age, 0);
    lemma_splice_len(raw, tb, blk);
    assert forall|j: int| 0 <= j < y - x implies #[trigger] nr.subrange(tb + x, tb + y)[j] == raw.subrange(
        block_start(src) + x,
        block_start(src) + y,
    )[j] by {
        lemma_committed_block_at(raw, src, slot, item, count, age, x + j);
    }
    assert(nr.subrange(tb + x, tb + y) =~= raw.subrange(block_start(src) + x, block_start(src) + y));
}

/// The committed block loads, with the source's items.
#[verifier::spinoff_prover]
#[verifier::rlimit(50)]
proof fn lemma_committed_loads(raw: Seq<u8>, key: Seq<char>, value: Seq<u8>)
    requires
        image_wf(raw),
        write_entry_of(raw, key, value) is Ok,
    ensures
        ({
            let (nr, c) = write_entry_of(raw, key, value)->Ok_0;
            kernel_items_of(nr, c.committed_block) matches Ok(Some(_))
        }),
{
    vstd::bytes::lemma_auto_spec_u32_to_from_le_bytes();
    lemma_write_entry_commits(raw, key, value);
    let k = normalize_key_of(key)->Ok_0;
    lemma_current_in_range(raw, 1, None, NVE_INVALID_AGE);
    let src = current_source_of(raw)->Ok_0->0;
    let n = kernel_items_of(raw, src)->Ok_0->0;
    lemma_numbered_bounds(raw, src, 0);
    lemma_numbered_items(raw, src, 0);
    let found = matching_slots(raw, src, k, n);
    lemma_matching_slots_range(raw, src, k, n);
    let slot = found[0];
    let target = commit_target(src);
    lemma_block_bounds(raw, src);
    lemma_block_bounds(raw, target);
    let before = item_raw(raw, src, slot);
    let sup = crc_supported(raw, src);
    let item = updated_item_of(before, value, sup)->Ok_0;
    lemma_updated_item(before, value, sup);
    let age = (header_of(raw, src).age + 1) as u32;
    let blk = committed_block_of(raw, src, slot, item, n as u32, age);
    let tb = block_start(target);
    let nr = splice(raw, tb, blk);
    lemma_committed_block_at(raw, src, slot, item, n as u32, age, 0);
    lemma_splice_len(raw, tb, blk);
    let h = header_start(target);
    assert forall|j: int| 0 <= j < 4 implies #[trigger] nr.subrange(h + 44, h + 48)[j] == spec_u32_to_le_bytes(
        n as u32,
    )[j] by {
        lemma_committed_block_at(raw, src, slot, item, n as u32, age, NVE_BLOCK_SIZE - NVE_HEADER_SIZE + 44 + j);
    }
    assert(nr.subrange(h + 44, h + 48) =~= spec_u32_to_le_bytes(n as u32));
    assert(header_of(nr, target).valid_items == n);
    lemma_committed_copies(
        raw,
        src,
        slot,
        item,
        n as u32,
        age,
        target,
        NVE_BLOCK_SIZE - NVE_HEADER_SIZE + 52,
        NVE_BLOCK_SIZE - NVE_HEADER_SIZE + 56,
    );
    assert(header_of(nr, target).crc_support == header_of(raw, src).crc_support);
    assert(declared_count(nr, target) == n);
    assert forall|j: int| 0 <= j < n && j != slot implies #[trigger] item_raw(nr, target, j) == item_raw(
        raw,
        src,
        j,
    ) by {
        lemma_committed_copies(raw, src, slot, item, n as u32, age, target, j * NVE_ITEM_SIZE, j * NVE_ITEM_SIZE + NVE_ITEM_SIZE);
    }
    assert forall|j: int| 0 <= j < NVE_ITEM_SIZE implies #[trigger] item_raw(nr, target, slot)[j] == item[j] by {
        lemma_committed_block_at(raw, src, slot, item, n as u32, age, slot * NVE_ITEM_SIZE + j);
    }
    assert(item_raw(nr, target, slot) =~= item);
    assert forall|j: int| 0 <= j < declared_count(nr, target) implies #[trigger] item_number(
        item_raw(nr, target, j),
    ) == j by {
        if j != slot {
            assert(item_raw(nr, target, j) == item_raw(raw, src, j));
            assert(item_number(item_raw(raw, src, j)) == j);
        }
    }
    lemma_numbered_full(nr, target, 0);
    if sup {
        assert forall|j: int| 0 <= j < n implies #[trigger] item_crc_valid(item_raw(nr, target, j)) by {
            if j != slot {
                assert(item_raw(nr, target, j) == item_raw(raw, src, j));
                assert(item_crc_valid(item_raw(raw, src, j)));
            }
        }
    }
}

/// What a scan that found a block saw: every block it looked at has a
/// loadable item count, and none of the blocks that load is younger than
/// the one chosen (or than `best_age`, when block 0 was chosen).
proof fn lemma_current_scan(raw: Seq<u8>, k: int, best: Option<int>, best_age: u32)
    requires
        1 <= k,
        best matches Some(b) ==> b >= 1 && header_of(raw, b).age == best_age,
        current_from(raw, k, best, best_age) matches Ok(Some(_)),
    ensures
        ({
            let x = current_from(raw, k, best, best_age)->Ok_0->0;
            let top = if x >= 1 { header_of(raw, x).age } else { best_age };
            &&& best_age <= top
            &&& best is Some ==> x >= 1
            &&& forall|j: int| k <= j < managed_count(raw) ==> #[trigger] kernel_items_of(raw, j) is Ok
            &&& forall|j: int|
                k <= j < managed_count(raw) && #[trigger] kernel_items_of(raw, j) is Ok
                    && kernel_items_of(raw, j)->Ok_0 is Some ==> header_of(raw, j).age <= top
        }),
    decreases managed_count(raw) - k,
{
    if k < managed_count(raw) {
        match kernel_items_of(raw, k) {
            Err(_) => {},
            Ok(None) => lemma_current_scan(raw, k + 1, best, best_age),
            Ok(Some(_)) => if header_of(raw, k).age > best_age {
                lemma_current_scan(raw, k + 1, Some(k), header_of(raw, k).age);
            } else {
                lemma_current_scan(raw, k + 1, best, best_age);
            },
        }
    }
}

/// A scan meets a block that loads and is strictly older than every other
/// block that loads: the scan settles on it.
proof fn lemma_current_dominant(raw: Seq<u8>, k: int, best: Option<int>, best_age: u32, t: int)
    requires
        1 <= k,
        1 <= t < managed_count(raw),
        kernel_items_of(raw, t) matches Ok(Some(_)),
        forall|j: int|
            k <= j < managed_count(raw) && j != t ==> #[trigger] kernel_items_of(raw, j) is Ok && (
            kernel_items_of(raw, j)->Ok_0 is Some ==> header_of(raw, j).age < header_of(raw, t).age),
        k <= t ==> best_age < header_of(raw, t).age,
        k > t ==> best == Some(t) && best_age == header_of(raw, t).age,
    ensures
        current_from(raw, k, best, best_age) == Ok::<Option<int>, NveError>(Some(t)),
    decreases managed_count(raw) - k,
{
    if k < managed_count(raw) {
        if k == t {
            lemma_current_dominant(raw, k + 1, Some(t), header_of(raw, t).age, t);
        } else {
            assert(kernel_items_of(raw, k) is Ok);
            match kernel_items_of(raw, k) {
                Err(_) => {},
                Ok(None) => lemma_current_dominant(raw, k + 1, best, best_age, t),
                Ok(Some(_)) => if header_of(raw, k).age > best_age {
                    lemma_current_dominant(raw, k + 1, Some(k), header_of(raw, k).age, t);
                } else {
                    lemma_current_dominant(raw, k + 1, best, best_age, t);
                },
            }
        }
    }
}

/// After a successful edit, the committed block is the block the tools
/// read from: it loads and carries an age above every other block's.
#[verifier::spinoff_prover]
#[verifier::rlimit(50)]
pub proof fn lemma_edit_becomes_current(raw: Seq<u8>, key: Seq<char>, value: Seq<u8>)
    requires
        image_wf(raw),
        write_entry_of(raw, key, value) is Ok,
    ensures
        ({
            let (nr, c) = write_entry_of(raw, key, value)->Ok_0;
            current_source_of(nr) == Ok::<Option<int>, NveError>(Some(c.committed_block))
        }),
{
    lemma_write_entry_commits(raw, key, value);
    lemma_committed_loads(raw, key, value);
    let (nr, c) = write_entry_of(raw, key, value)->Ok_0;
    let t = c.committed_block;
    lemma_current_scan(raw, 1, None, NVE_INVALID_AGE);
    assert(managed_count(nr) == managed_count(raw));
    assert forall|j: int| 1 <= j < managed_count(nr) && j != t implies #[trigger] kernel_items_of(nr, j) is Ok
        && (kernel_items_of(nr, j)->Ok_0 is Some ==> header_of(nr, j).age < header_of(nr, t).age) by {
        lemma_block_bounds(raw, j);
        assert(nr.subrange(block_start(j), block_start(j) + NVE_BLOCK_SIZE) == raw.subrange(
            block_start(j),
            block_start(j) + NVE_BLOCK_SIZE,
        ));
        lemma_same_block_loads(nr, raw, j);
        assert(kernel_items_of(raw, j) is Ok);
    }
    lemma_current_dominant(nr, 1, None, NVE_INVALID_AGE, t);
}

// ---------------------------------------------------------------------------
// Summaries.

/// One block as reported.
#[derive(Debug, Clone)]
pub struct NveBlockSummary {
    pub block_index: usize,
    pub offset: u64,
    pub partition_name: String,
    pub version: u32,
    pub block_id: u32,
    pub block_count: u32,
    pub declared_valid_items: u32,
    pub valid_items: usize,
    pub age: u32,
    pub crc_supported: bool,
    pub crc_valid: usize,
    pub crc_invalid: usize,
}

/// One item as reported.
#[derive(Debug, Clone)]
pub struct NveItemSummary {
    pub block_index: usize,
    pub slot: usize,
    pub number: u32,
    pub name: String,
    pub property: u32,
    pub valid_size: usize,
    pub crc: u32,
    pub crc_supported: bool,
    pub crc_valid: bool,
    pub value_hex: String,
    pub value_text: String,
    pub kernel_protected: bool,
}

/// The image as reported.
#[derive(Debug, Clone)]
pub struct NveImageSummary {
    pub file_size: u64,
    pub total_blocks: usize,
    pub active_blocks: usize,
    pub partition_name: String,
    pub version: u32,
    pub valid_items: usize,
    pub crc_supported: bool,
    pub crc_valid: usize,
    pub crc_invalid: usize,
    pub blocks: Vec<NveBlockSummary>,
    pub items: Vec<NveItemSummary>,
}

/// How many of the first `n` items of block `i` have a valid CRC.
pub open spec fn crc_valid_count(raw: Seq<u8>, i: int, n: int) -> int
    decreases n,
{
    if n <= 0 {
        0
    } else {
        crc_valid_count(raw, i, n - 1) + if item_crc_valid(item_raw(raw, i, n - 1)) {
            1int
        } else {
            0int
        }
    }
}

/// Whether `s` reports block `i`.
pub open spec fn block_summarizes(s: NveBlockSummary, raw: Seq<u8>, i: int) -> bool {
    let h = header_of(raw, i);
    let n = numbered_count(raw, i);
    let sup = crc_supported(raw, i);
    &&& s.block_index == i
    &&& s.offset == block_start(i)
    &&& s.partition_name@ == (if has_header(raw, i) { h.partition_name } else { seq![] })
    &&& s.version == (if has_header(raw, i) { h.version } else { 0 })
    &&& s.block_id == (if has_header(raw, i) { h.block_id } else { 0 })
    &&& s.block_count == (if has_header(raw, i) { h.block_count } else { 0 })
    &&& s.declared_valid_items == (if has_header(raw, i) { h.valid_items } else { 0 })
    &&& s.valid_items == n
    &&& s.age == (if has_header(raw, i) { h.age } else { 0 })
    &&& s.crc_supported == sup
    &&& s.crc_valid == (if sup { crc_valid_count(raw, i, n) } else { 0 })
    &&& s.crc_invalid == (if sup { n - crc_valid_count(raw, i, n) } else { 0 })
}

/// Where a value ends once trailing NULs are dropped.
pub open spec fn nonzero_end(v: Seq<u8>) -> int
    decreases v.len(),
{
    if v.len() == 0 {
        0
    } else if v.last() != 0 {
        v.len() as int
    } else {
        nonzero_end(v.drop_last())
    }
}

pub open spec fn text_byte(b: u8) -> bool {
    b == 9 || b == 10 || b == 13 || (32 <= b <= 126)
}

/// A value as text: `FBLOCK`'s single byte as `0` or `1`; otherwise the
/// value without trailing NULs when it is all printable, else nothing.
pub open spec fn value_text_of(name: Seq<char>, v: Seq<u8>) -> Seq<char> {
    if eq_ignore_case(name, "FBLOCK"@) && v.len() == 1 {
        if v[0] == 0 {
            "0"@
        } else if v[0] == 1 {
            "1"@
        } else {
            seq![]
        }
    } else {
        let t = v.subrange(0, nonzero_end(v));
        if forall|k: int| 0 <= k < t.len() ==> text_byte(#[trigger] t[k]) {
            lossy_utf8(t)
        } else {
            seq![]
        }
    }
}

/// Whether `s` reports item `slot` of block `b`.
pub open spec fn item_summarizes(s: NveItemSummary, raw: Seq<u8>, b: int, slot: int, sup: bool) -> bool {
    let it = item_raw(raw, b, slot);
    &&& s.block_index == b
    &&& s.slot == slot
    &&& s.number == item_number(it)
    &&& s.name@ == item_name(it)
    &&& s.property == item_property(it)
    &&& s.valid_size == item_valid_size(it)
    &&& s.crc == item_crc(it)
    &&& s.crc_supported == sup
    &&& s.crc_valid == item_crc_valid(it)
    &&& s.value_hex@ == crate::text::hex_encode(item_value(it), false)
    &&& s.value_text@ == value_text_of(item_name(it), item_value(it))
    &&& s.kernel_protected == (item_number(it) == 2 || item_number(it) == 193 || item_number(it)
        == 194 || item_number(it) == 364)
}

/// Whether runtime block `k` counts as active: a header with a live age
/// and kernel items that load.
pub open spec fn runtime_active(raw: Seq<u8>, k: int) -> bool {
    has_header(raw, k) && header_of(raw, k).age != NVE_INVALID_AGE && kernel_items_of(raw, k) is Ok
        && kernel_items_of(raw, k)->Ok_0 is Some
}

pub open spec fn active_count(raw: Seq<u8>, m: int) -> int
    decreases m,
{
    if m <= 1 {
        0
    } else {
        active_count(raw, m - 1) + if runtime_active(raw, m - 1) {
            1int
        } else {
            0int
        }
    }
}

/// The managed blocks below `m` that have a header, in order.
pub open spec fn header_blocks(raw: Seq<u8>, m: int) -> Seq<int>
    decreases m,
{
    if m <= 0 {
        seq![]
    } else if has_header(raw, m - 1) {
        header_blocks(raw, m - 1).push(m - 1)
    } else {
        header_blocks(raw, m - 1)
    }
}

/// CRC-valid numbered items over the managed blocks below `m` that
/// support CRCs.
pub open spec fn image_crc_valid(raw: Seq<u8>, m: int) -> int
    decreases m,
{
    if m <= 0 {
        0
    } else {
        image_crc_valid(raw, m - 1) + if crc_supported(raw, m - 1) {
            crc_valid_count(raw, m - 1, numbered_count(raw, m - 1))
        } else {
            0
        }
    }
}

pub open spec fn image_crc_checked(raw: Seq<u8>, m: int) -> int
    decreases m,
{
    if m <= 0 {
        0
    } else {
        image_crc_checked(raw, m - 1) + if crc_supported(raw, m - 1) {
            numbered_count(raw, m - 1)
        } else {
            0
        }
    }
}

/// The block the summary lists items of: the current block when its
/// items load.
pub open spec fn summary_block(raw: Seq<u8>) -> Option<(int, int)> {
    match current_source_of(raw) {
        Ok(Some(c)) => match kernel_items_of(raw, c) {
            Ok(Some(n)) => Some((c, n)),
            _ => None,
        },
        _ => None,
    }
}

proof fn lemma_crc_valid_count_bound(raw: Seq<u8>, i: int, n: int)
    requires
        0 <= n,
    ensures
        0 <= crc_valid_count(raw, i, n) <= n,
    decreases n,
{
    if n > 0 {
        lemma_crc_valid_count_bound(raw, i, n - 1);
    }
}

/// The value of an item, as text.
fn value_text(name: &String, v: &[u8]) -> (r: String)
    ensures
        r@ == value_text_of(name@, v@),
{
    let nc = chars_of(name.as_str());
    let fb = chars_of("FBLOCK");
    if chars_eq_ignore_case(nc.as_slice(), fb.as_slice()) && v.len() == 1 {
        if v[0] == 0 {
            return crate::text::owned("0");
        } else if v[0] == 1 {
            return crate::text::owned("1");
        } else {
            return String::new();
        }
    }
    let mut end: usize = v.len();
    proof {
        assert(v@.subrange(0, end as int) =~= v@);
    }
    while end > 0 && v[end - 1] == 0
        invariant
            end <= v@.len(),
            nonzero_end(v@) == nonzero_end(v@.subrange(0, end as int)),
        decreases end,
    {
        proof {
            assert(v@.subrange(0, end as int).drop_last() =~= v@.subrange(0, end - 1));
        }
        end = end - 1;
    }
    proof {
        if end > 0 {
            assert(v@.subrange(0, end as int).last() != 0);
        }
        assert(end == nonzero_end(v@));
    }
    let ghost t = v@.subrange(0, end as int);
    let ghost fblock = eq_ignore_case(name@, "FBLOCK"@) && v@.len() == 1;
    let mut k: usize = 0;
    while k < end
        invariant
            k <= end <= v@.len(),
            !fblock,
            fblock == (eq_ignore_case(name@, "FBLOCK"@) && v@.len() == 1),
            end == nonzero_end(v@),
            t == v@.subrange(0, end as int),
            forall|j: int| 0 <= j < k ==> text_byte(#[trigger] t[j]),
        decreases end - k,
    {
        let b = v[k];
        if !(b == 9 || b == 10 || b == 13 || (32 <= b && b <= 126)) {
            proof {
                assert(!text_byte(t[k as int]));
            }
            return String::new();
        }
        k = k + 1;
    }
    lossy_string(vstd::slice::slice_subrange(v, 0, end))
}

/// Reports item `slot` of block `b`.
fn item_summary(raw: &[u8], b: usize, slot: usize, sup: bool) -> (r: NveItemSummary)
    requires
        block_start(b as int) + NVE_BLOCK_SIZE <= raw@.len(),
        slot < NVE_ITEMS_PER_BLOCK,
    ensures
        item_summarizes(r, raw@, b as int, slot as int, sup),
{
    let it = item_slice(raw, b, slot);
    let name = decode_name(it, 4, 12);
    let declared = le_u32(it, 16);
    let valid = if declared as usize > NVE_DATA_SIZE {
        NVE_DATA_SIZE
    } else {
        declared as usize
    };
    let value = vstd::slice::slice_subrange(it, 24, 24 + valid);
    let number = le_u32(it, 0);
    let crc = le_u32(it, 20);
    let value_hex = crate::text::hex_string(value, false);
    let text = value_text(&name, value);
    NveItemSummary {
        block_index: b,
        slot,
        number,
        name,
        property: le_u32(it, 12),
        valid_size: valid,
        crc,
        crc_supported: sup,
        crc_valid: crc == compute_item_crc(it),
        value_hex,
        value_text: text,
        kernel_protected: number == 2 || number == 193 || number == 194 || number == 364,
    }
}

/// CRC-valid items among the first `n` of block `i`.
fn count_crc_valid(raw: &[u8], i: usize, n: usize) -> (r: usize)
    requires
        block_start(i as int) + NVE_BLOCK_SIZE <= raw@.len(),
        n <= NVE_ITEMS_PER_BLOCK,
    ensures
        r == crc_valid_count(raw@, i as int, n as int),
        r <= n,
{
    let mut c: usize = 0;
    let mut s: usize = 0;
    while s < n
        invariant
            s <= n <= NVE_ITEMS_PER_BLOCK,
            block_start(i as int) + NVE_BLOCK_SIZE <= raw@.len(),
            c == crc_valid_count(raw@, i as int, s as int),
            c <= s,
        decreases n - s,
    {
        if item_crc_ok(raw, i, s) {
            c = c + 1;
        }
        s = s + 1;
    }
    c
}

/// Reports block `i`.
fn block_summary(raw: &[u8], i: usize) -> (r: NveBlockSummary)
    requires
        block_start(i as int) + NVE_BLOCK_SIZE <= raw@.len(),
    ensures
        block_summarizes(r, raw@, i as int),
{
    let _len = raw.len();
    let hh = block_has_header(raw, i);
    let (name, version, block_id, block_count, declared, age) = if hh {
        let h = i * NVE_BLOCK_SIZE + NVE_BLOCK_SIZE - NVE_HEADER_SIZE;
        (
            decode_name(raw, h, h + 32),
            header_u32(raw, i, 32),
            header_u32(raw, i, 36),
            header_u32(raw, i, 40),
            header_u32(raw, i, 44),
            header_u32(raw, i, 124),
        )
    } else {
        (String::new(), 0, 0, 0, 0, 0)
    };
    let n = numbered_items(raw, i);
    let sup = hh && header_u32(raw, i, 52) == NVE_CRC_SUPPORT_VERSION;
    let (valid, invalid) = if sup {
        let v = count_crc_valid(raw, i, n);
        (v, n - v)
    } else {
        (0, 0)
    };
    NveBlockSummary {
        block_index: i,
        offset: (i * NVE_BLOCK_SIZE) as u64,
        partition_name: name,
        version,
        block_id,
        block_count,
        declared_valid_items: declared,
        valid_items: n,
        age,
        crc_supported: sup,
        crc_valid: valid,
        crc_invalid: invalid,
    }
}

pub open spec fn current_of(raw: Seq<u8>) -> Option<int> {
    match current_source_of(raw) {
        Ok(Some(c)) => Some(c),
        _ => None,
    }
}

proof fn lemma_image_crc_bounds(raw: Seq<u8>, m: int)
    ensures
        0 <= image_crc_valid(raw, m) <= image_crc_checked(raw, m) <= (if m > 0 { m } else { 0 })
            * NVE_ITEMS_PER_BLOCK,
    decreases m,
{
    if m > 0 {
        lemma_image_crc_bounds(raw, m - 1);
        lemma_numbered_bound(raw, m - 1);
        lemma_crc_valid_count_bound(raw, m - 1, numbered_count(raw, m - 1));
    }
}

proof fn lemma_numbered_bound(raw: Seq<u8>, i: int)
    ensures
        0 <= numbered_count(raw, i) <= NVE_ITEMS_PER_BLOCK,
{
    lemma_numbered_from_bound(raw, i, 0);
}

proof fn lemma_numbered_from_bound(raw: Seq<u8>, i: int, k: int)
    requires
        0 <= k,
    ensures
        k <= numbered_from(raw, i, k),
        k <= NVE_ITEMS_PER_BLOCK ==> numbered_from(raw, i, k) <= NVE_ITEMS_PER_BLOCK,
    decreases declared_count(raw, i) - k,
{
    if !(k < 0 || k >= declared_count(raw, i) || item_number(item_raw(raw, i, k)) != k) {
        lemma_numbered_from_bound(raw, i, k + 1);
    }
}

/// What `summary` reports of an image: the counts, the current block's
/// name, version and items, the CRC totals and one summary per block with
/// a header.
pub open spec fn summarizes_image(r: NveImageSummary, raw: Seq<u8>) -> bool {
    &&& r.file_size == raw.len()
    &&& r.total_blocks == managed_count(raw)
    &&& r.active_blocks == active_count(raw, managed_count(raw))
    &&& match summary_block(raw) {
        Some((c, n)) => r.items@.len() == n && forall|j: int|
            0 <= j < n ==> item_summarizes(#[trigger] r.items@[j], raw, c, j, crc_supported(raw, c)),
        None => r.items@.len() == 0,
    }
    &&& r.valid_items == r.items@.len()
    &&& r.crc_valid == image_crc_valid(raw, managed_count(raw))
    &&& r.crc_invalid == image_crc_checked(raw, managed_count(raw)) - image_crc_valid(
        raw,
        managed_count(raw),
    )
    &&& r.blocks@.len() == header_blocks(raw, managed_count(raw)).len()
    &&& forall|j: int|
        0 <= j < r.blocks@.len() ==> block_summarizes(
            #[trigger] r.blocks@[j],
            raw,
            header_blocks(raw, managed_count(raw))[j],
        )
}

/// The CRC counts of the first `n` block summaries, added up.
pub open spec fn blocks_crc_valid(bs: Seq<NveBlockSummary>, n: int) -> int
    decreases n,
{
    if n <= 0 {
        0
    } else {
        blocks_crc_valid(bs, n - 1) + bs[n - 1].crc_valid
    }
}

pub open spec fn blocks_crc_invalid(bs: Seq<NveBlockSummary>, n: int) -> int
    decreases n,
{
    if n <= 0 {
        0
    } else {
        blocks_crc_invalid(bs, n - 1) + bs[n - 1].crc_invalid
    }
}

proof fn lemma_active_below(raw: Seq<u8>, m: int)
    requires
        m >= 1,
    ensures
        active_count(raw, m) <= m - 1,
    decreases m,
{
    if m > 1 {
        lemma_active_below(raw, m - 1);
    }
}

proof fn lemma_header_blocks_ascend(raw: Seq<u8>, m: int)
    ensures
        forall|j: int| 0 <= j < header_blocks(raw, m).len() ==> 0 <= #[trigger] header_blocks(raw, m)[j] < m,
        forall|i: int, j: int|
            0 <= i < j < header_blocks(raw, m).len() ==> #[trigger] header_blocks(raw, m)[i]
                < #[trigger] header_blocks(raw, m)[j],
    decreases m,
{
    if m > 0 {
        lemma_header_blocks_ascend(raw, m - 1);
        let a = header_blocks(raw, m - 1);
        let b = header_blocks(raw, m);
        if has_header(raw, m - 1) {
            assert(b == a.push(m - 1));
            assert forall|j: int| 0 <= j < b.len() implies 0 <= #[trigger] b[j] < m by {
                if j < a.len() {
                    assert(b[j] == a[j]);
                }
            }
            assert forall|i: int, j: int| 0 <= i < j < b.len() implies #[trigger] b[i] < #[trigger] b[j] by {
                assert(b[i] == a[i]);
                if j < a.len() {
                    assert(b[j] == a[j]);
                }
            }
        }
    }
}

proof fn lemma_blocks_crc_sums(raw: Seq<u8>, bs: Seq<NveBlockSummary>, m: int)
    requires
        0 <= m,
        bs.len() == header_blocks(raw, m).len(),
        forall|j: int| 0 <= j < bs.len() ==> block_summarizes(#[trigger] bs[j], raw, header_blocks(raw, m)[j]),
    ensures
        blocks_crc_valid(bs, bs.len() as int) == image_crc_valid(raw, m),
        blocks_crc_invalid(bs, bs.len() as int) == image_crc_checked(raw, m) - image_crc_valid(raw, m),
    decreases m,
{
    if m > 0 {
        let hb = header_blocks(raw, m - 1);
        if has_header(raw, m - 1) {
            let bs1 = bs.drop_last();
            assert forall|j: int| 0 <= j < bs1.len() implies block_summarizes(
                #[trigger] bs1[j],
                raw,
                hb[j],
            ) by {
                assert(bs1[j] == bs[j]);
                assert(header_blocks(raw, m)[j] == hb[j]);
            }
            lemma_blocks_crc_sums(raw, bs1, m - 1);
            assert(block_summarizes(bs[bs.len() - 1], raw, m - 1));
            assert forall|n: int| 0 <= n <= bs1.len() implies blocks_crc_valid(bs1, n) == blocks_crc_valid(bs, n)
                && blocks_crc_invalid(bs1, n) == blocks_crc_invalid(bs, n) by {
                lemma_blocks_prefix_sums(bs1, bs, n);
            }
            lemma_crc_valid_count_bound(raw, m - 1, numbered_count(raw, m - 1));
        } else {
            lemma_blocks_crc_sums(raw, bs, m - 1);
        }
    }
}

proof fn lemma_blocks_prefix_sums(a: Seq<NveBlockSummary>, b: Seq<NveBlockSummary>, n: int)
    requires
        0 <= n <= a.len(),
        a.len() <= b.len(),
        forall|j: int| 0 <= j < a.len() ==> a[j] == b[j],
    ensures
        blocks_crc_valid(a, n) == blocks_crc_valid(b, n),
        blocks_crc_invalid(a, n) == blocks_crc_invalid(b, n),
    decreases n,
{
    if n > 0 {
        lemma_blocks_prefix_sums(a, b, n - 1);
    }
}

/// What every summary of an image shows: fewer live blocks than managed
/// ones; the items numbered and placed by their slots, all from one block;
/// the block summaries in ascending block order at their offsets; and the
/// CRC totals the sums of the blocks' counts.
#[verifier::spinoff_prover]
#[verifier::rlimit(50)]
pub proof fn lemma_summary_shape(raw: Seq<u8>, s: NveImageSummary)
    requires
        image_wf(raw),
        summarizes_image(s, raw),
    ensures
        s.active_blocks < s.total_blocks,
        forall|k: int|
            0 <= k < s.items@.len() ==> (#[trigger] s.items@[k]).slot == k && s.items@[k].number == k
                && s.items@[k].block_index == s.items@[0].block_index,
        forall|i: int, j: int|
            0 <= i < j < s.blocks@.len() ==> (#[trigger] s.blocks@[i]).block_index
                < (#[trigger] s.blocks@[j]).block_index,
        forall|j: int|
            0 <= j < s.blocks@.len() ==> (#[trigger] s.blocks@[j]).offset == s.blocks@[j].block_index
                * NVE_BLOCK_SIZE,
        s.crc_valid == blocks_crc_valid(s.blocks@, s.blocks@.len() as int),
        s.crc_invalid == blocks_crc_invalid(s.blocks@, s.blocks@.len() as int),
{
    let m = managed_count(raw);
    lemma_block_bounds(raw, 0);
    lemma_active_below(raw, m);
    lemma_header_blocks_ascend(raw, m);
    lemma_blocks_crc_sums(raw, s.blocks@, m);
    match summary_block(raw) {
        Some((c, n)) => {
            lemma_numbered_items(raw, c, 0);
            assert forall|k: int| 0 <= k < s.items@.len() implies (#[trigger] s.items@[k]).slot == k
                && s.items@[k].number == k && s.items@[k].block_index == s.items@[0].block_index by {
                assert(item_summarizes(s.items@[k], raw, c, k, crc_supported(raw, c)));
                assert(item_summarizes(s.items@[0], raw, c, 0, crc_supported(raw, c)));
            }
        },
        None => {},
    }
    assert forall|i: int, j: int| 0 <= i < j < s.blocks@.len() implies (#[trigger] s.blocks@[i]).block_index
        < (#[trigger] s.blocks@[j]).block_index by {
        assert(block_summarizes(s.blocks@[i], raw, header_blocks(raw, m)[i]));
        assert(block_summarizes(s.blocks@[j], raw, header_blocks(raw, m)[j]));
    }
    assert forall|j: int| 0 <= j < s.blocks@.len() implies (#[trigger] s.blocks@[j]).offset
        == s.blocks@[j].block_index * NVE_BLOCK_SIZE by {
        assert(block_summarizes(s.blocks@[j], raw, header_blocks(raw, m)[j]));
    }
}


impl NveImage {
    /// The image as reported: its managed blocks, how many runtime blocks
    /// are live, the current block's name, version and items, and CRC
    /// counts over the blocks that carry CRCs.
    pub fn summary(&self) -> (r: NveImageSummary)
        ensures
            summarizes_image(r, self.bytes()),
            r.file_size == self.bytes().len(),
            r.total_blocks == managed_count(self.bytes()),
            r.active_blocks == active_count(self.bytes(), managed_count(self.bytes())),
            match current_of(self.bytes()) {
                Some(c) => if has_header(self.bytes(), c) {
                    r.partition_name@ == header_of(self.bytes(), c).partition_name && r.version
                        == header_of(self.bytes(), c).version
                } else {
                    r.partition_name@ == Seq::<char>::empty() && r.version == 0
                },
                None => r.partition_name@ == Seq::<char>::empty() && r.version == 0,
            },
            match summary_block(self.bytes()) {
                Some((c, n)) => r.items@.len() == n && forall|j: int|
                    0 <= j < n ==> item_summarizes(
                        #[trigger] r.items@[j],
                        self.bytes(),
                        c,
                        j,
                        crc_supported(self.bytes(), c),
                    ),
                None => r.items@.len() == 0,
            },
            r.valid_items == r.items@.len(),
            r.crc_supported == exists|k: int|
                0 <= k < managed_count(self.bytes()) && #[trigger] crc_supported(self.bytes(), k),
            r.crc_valid == image_crc_valid(self.bytes(), managed_count(self.bytes())),
            r.crc_invalid == image_crc_checked(self.bytes(), managed_count(self.bytes()))
                - image_crc_valid(self.bytes(), managed_count(self.bytes())),
            r.blocks@.len() == header_blocks(self.bytes(), managed_count(self.bytes())).len(),
            forall|j: int|
                0 <= j < r.blocks@.len() ==> block_summarizes(
                    #[trigger] r.blocks@[j],
                    self.bytes(),
                    header_blocks(self.bytes(), managed_count(self.bytes()))[j],
                ),
    {
        proof {
            use_type_invariant(self);
        }
        let raw = self.raw.as_slice();
        let blocks = raw.len() / NVE_BLOCK_SIZE;
        let managed = if blocks < NVE_PARTITION_COUNT {
            blocks
        } else {
            NVE_PARTITION_COUNT
        };
        let mut active: usize = 0;
        let mut any_crc = false;
        let mut crc_valid: usize = 0;
        let mut crc_checked: usize = 0;
        let mut summaries: Vec<NveBlockSummary> = Vec::new();
        let mut k: usize = 0;
        while k < managed
            invariant
                k <= managed,
                managed as int == managed_count(raw@),
                blocks as int == block_count(raw@),
                image_wf(raw@),
                raw@ == self.raw@,
                active == active_count(raw@, k as int),
                active <= k,
                any_crc == exists|j: int| 0 <= j < k && #[trigger] crc_supported(raw@, j),
                crc_valid == image_crc_valid(raw@, k as int),
                crc_checked == image_crc_checked(raw@, k as int),
                crc_valid <= crc_checked,
                summaries@.len() == header_blocks(raw@, k as int).len(),
                forall|j: int|
                    0 <= j < summaries@.len() ==> block_summarizes(
                        #[trigger] summaries@[j],
                        raw@,
                        header_blocks(raw@, k as int)[j],
                    ),
            decreases managed - k,
        {
            proof {
                lemma_block_bounds(raw@, k as int);
                lemma_image_crc_bounds(raw@, k as int);
                lemma_image_crc_bounds(raw@, k + 1);
            }
            let hh = block_has_header(raw, k);
            if k >= 1 && hh && header_u32(raw, k, 124) != NVE_INVALID_AGE {
                match kernel_items(raw, k) {
                    Ok(Some(_)) => {
                        active = active + 1;
                    },
                    _ => {},
                }
            }
            let sup = hh && header_u32(raw, k, 52) == NVE_CRC_SUPPORT_VERSION;
            if sup {
                let n = numbered_items(raw, k);
                let v = count_crc_valid(raw, k, n);
                crc_valid = crc_valid + v;
                crc_checked = crc_checked + n;
                any_crc = true;
            }
            if hh {
                let ghost before = summaries@;
                summaries.push(block_summary(raw, k));
                proof {
                    assert forall|j: int| 0 <= j < summaries@.len() implies block_summarizes(
                        #[trigger] summaries@[j],
                        raw@,
                        header_blocks(raw@, k + 1)[j],
                    ) by {
                        if j < before.len() {
                            assert(summaries@[j] == before[j]);
                        }
                    }
                }
            }
            k = k + 1;
        }
        proof {
            lemma_image_crc_bounds(raw@, managed as int);
        }
        let current = self.current_source_index();
        let mut items: Vec<NveItemSummary> = Vec::new();
        let mut name = String::new();
        let mut version: u32 = 0;
        match current {
            Some(c) => {
                proof {
                    lemma_current_in_range(raw@, 1, None, NVE_INVALID_AGE);
                    lemma_block_bounds(raw@, c as int);
                }
                if block_has_header(raw, c) {
                    let h = c * NVE_BLOCK_SIZE + NVE_BLOCK_SIZE - NVE_HEADER_SIZE;
                    name = decode_name(raw, h, h + 32);
                    version = header_u32(raw, c, 32);
                }
                match kernel_items(raw, c) {
                    Ok(Some(n)) => {
                        let sup = block_has_header(raw, c) && header_u32(raw, c, 52)
                            == NVE_CRC_SUPPORT_VERSION;
                        let mut s: usize = 0;
                        while s < n
                            invariant
                                s <= n <= NVE_ITEMS_PER_BLOCK,
                                block_start(c as int) + NVE_BLOCK_SIZE <= raw@.len(),
                                sup == crc_supported(raw@, c as int),
                                items@.len() == s,
                                forall|j: int|
                                    0 <= j < s ==> item_summarizes(
                                        #[trigger] items@[j],
                                        raw@,
                                        c as int,
                                        j,
                                        sup,
                                    ),
                            decreases n - s,
                        {
                            items.push(item_summary(raw, c, s, sup));
                            s = s + 1;
                        }
                    },
                    _ => {},
                }
            },
            None => {},
        }
        let valid_items = items.len();
        NveImageSummary {
            file_size: raw.len() as u64,
            total_blocks: managed,
            active_blocks: active,
            partition_name: name,
            version,
            valid_items,
            crc_supported: any_crc,
            crc_valid,
            crc_invalid: crc_checked - crc_valid,
            blocks: summaries,
            items,
        }
    }
}

// ---------------------------------------------------------------------------
// Values typed in by the user.

pub open spec fn ascii_ws(c: char) -> bool {
    c == ' ' || c == '\t' || c == '\n' || c == '\x0C' || c == '\r'
}

/// The characters with ASCII white space left out.
pub open spec fn without_ws(s: Seq<char>) -> Seq<char>
    decreases s.len(),
{
    if s.len() == 0 {
        s
    } else if ascii_ws(s.last()) {
        without_ws(s.drop_last())
    } else {
        without_ws(s.drop_last()).push(s.last())
    }
}

/// `s` without a leading `0x` or `0X`.
pub open spec fn strip_0x(s: Seq<char>) -> Seq<char> {
    if s.len() >= 2 && s[0] == '0' && (s[1] == 'x' || s[1] == 'X') {
        s.subrange(2, s.len() as int)
    } else {
        s
    }
}

pub open spec fn nibble_of(c: char) -> Option<int> {
    if '0' <= c <= '9' {
        Some(c as int - 0x30)
    } else if 'a' <= c <= 'f' {
        Some(c as int - 0x61 + 10)
    } else if 'A' <= c <= 'F' {
        Some(c as int - 0x41 + 10)
    } else {
        None
    }
}

/// `hex::decode`: an even number of hexadecimal digits, two per byte.
pub open spec fn hex_decode_of(s: Seq<char>) -> Option<Seq<u8>>
    decreases s.len(),
{
    if s.len() % 2 != 0 {
        None
    } else if s.len() == 0 {
        Some(seq![])
    } else {
        match (hex_decode_of(s.subrange(0, s.len() - 2)), nibble_of(s[s.len() - 2]), nibble_of(
            s[s.len() - 1],
        )) {
            (Some(v), Some(h), Some(l)) => Some(v.push((h * 16 + l) as u8)),
            _ => None,
        }
    }
}

/// What a value typed as `format` (`hex`, or `text`/`ascii`/`utf8`, any
/// case, trimmed) becomes for entry `key`, with how it was read. Hex may
/// start with `0x` and hold white space; at most 104 bytes either way.
/// `FBLOCK` only takes a single 0 or 1 byte (as text, `0` or `1`).
pub open spec fn encode_value_of(key: Seq<char>, input: Seq<char>, format: Seq<char>) -> Result<
    (Seq<u8>, Seq<char>),
    NveError,
> {
    let f = crate::text::lower_ascii(trim_space(format));
    let fblock = eq_ignore_case(key, "FBLOCK"@);
    let first = if f == "hex"@ {
        match hex_decode_of(without_ws(strip_0x(input))) {
            None => Err(NveError::InvalidHex),
            Some(v) => if v.len() > NVE_DATA_SIZE {
                Err(NveError::InputTooLong { len: v.len() as usize })
            } else {
                Ok((v, "Hex"@))
            },
        }
    } else if f == "text"@ || f == "ascii"@ || f == "utf8"@ {
        if fblock {
            if trim_space(input) == "0"@ {
                Ok((seq![0u8], "FBLOCK (unlocked)"@))
            } else if trim_space(input) == "1"@ {
                Ok((seq![1u8], "FBLOCK (locked)"@))
            } else {
                Err(NveError::FblockValue)
            }
        } else if vstd::utf8::encode_utf8(input).len() > NVE_DATA_SIZE {
            Err(NveError::InputTooLong { len: vstd::utf8::encode_utf8(input).len() as usize })
        } else {
            Ok((vstd::utf8::encode_utf8(input), "Text"@))
        }
    } else {
        Err(NveError::UnsupportedFormat)
    };
    match first {
        Ok((v, mode)) => if fblock {
            if v == seq![0u8] {
                Ok((v, "FBLOCK (unlocked)"@))
            } else if v == seq![1u8] {
                Ok((v, "FBLOCK (locked)"@))
            } else {
                Err(NveError::FblockValue)
            }
        } else {
            Ok((v, mode))
        },
        Err(e) => Err(e),
    }
}

fn nibble(c: char) -> (r: Option<u8>)
    ensures
        match nibble_of(c) {
            Some(v) => r == Some(v as u8),
            None => r is None,
        },
{
    if '0' <= c && c <= '9' {
        Some((c as u32 - 0x30) as u8)
    } else if 'a' <= c && c <= 'f' {
        Some((c as u32 - 0x61 + 10) as u8)
    } else if 'A' <= c && c <= 'F' {
        Some((c as u32 - 0x41 + 10) as u8)
    } else {
        None
    }
}

proof fn lemma_hex_decode_none(s: Seq<char>, k: int)
    requires
        0 <= k <= s.len(),
        k % 2 == 0,
        s.len() % 2 == 0,
        hex_decode_of(s.subrange(0, k)) is None,
    ensures
        hex_decode_of(s) is None,
    decreases s.len() - k,
{
    if k < s.len() {
        let t = s.subrange(0, k + 2);
        assert(t.subrange(0, t.len() - 2) =~= s.subrange(0, k));
        lemma_hex_decode_none(s, k + 2);
    } else {
        assert(s.subrange(0, k) =~= s);
    }
}

/// Decodes hexadecimal digits, two per byte.
pub fn hex_decode(s: &Vec<char>) -> (r: Option<Vec<u8>>)
    ensures
        match hex_decode_of(s@) {
            Some(v) => r matches Some(x) && x@ == v,
            None => r is None,
        },
{
    let n = s.len();
    if n % 2 != 0 {
        return None;
    }
    let mut out: Vec<u8> = Vec::new();
    let mut k: usize = 0;
    proof {
        assert(s@.subrange(0, 0) =~= Seq::<char>::empty());
    }
    while k < n
        invariant
            n == s@.len(),
            n % 2 == 0,
            k % 2 == 0,
            k <= n,
            hex_decode_of(s@.subrange(0, k as int)) == Some(out@),
        decreases n - k,
    {
        let ghost t = s@.subrange(0, k + 2);
        proof {
            assert(t.subrange(0, t.len() - 2) =~= s@.subrange(0, k as int));
            assert(t[t.len() - 2] == s@[k as int] && t[t.len() - 1] == s@[k + 1]);
        }
        match (nibble(s[k]), nibble(s[k + 1])) {
            (Some(h), Some(l)) => {
                out.push(h * 16 + l);
                proof {
                    assert(hex_decode_of(t) == Some(out@));
                }
            },
            _ => {
                proof {
                    lemma_hex_decode_none(s@, k + 2);
                }
                return None;
            },
        }
        k = k + 2;
    }
    proof {
        assert(s@.subrange(0, n as int) =~= s@);
    }
    Some(out)
}

/// The characters after a leading `0x`/`0X`, without ASCII white space.
fn compact_hex(input: &str) -> (r: Vec<char>)
    ensures
        r@ == without_ws(strip_0x(input@)),
{
    let cs = chars_of(input);
    let start: usize = if cs.len() >= 2 && cs[0] == '0' && (cs[1] == 'x' || cs[1] == 'X') {
        2
    } else {
        0
    };
    let ghost t = strip_0x(input@);
    proof {
        assert(t =~= cs@.subrange(start as int, cs@.len() as int));
    }
    let mut out: Vec<char> = Vec::new();
    let mut i: usize = start;
    proof {
        assert(t.subrange(0, 0) =~= Seq::<char>::empty());
    }
    while i < cs.len()
        invariant
            start <= i <= cs@.len(),
            t == cs@.subrange(start as int, cs@.len() as int),
            out@ == without_ws(t.subrange(0, i - start)),
        decreases cs@.len() - i,
    {
        proof {
            assert(t.subrange(0, i + 1 - start).drop_last() =~= t.subrange(0, i - start));
        }
        let c = cs[i];
        if !(c == ' ' || c == '\t' || c == '\n' || c == '\x0C' || c == '\r') {
            out.push(c);
        }
        i = i + 1;
    }
    proof {
        assert(t.subrange(0, cs@.len() - start) =~= t);
    }
    out
}

fn chars_is(s: &Vec<char>, lit: &str) -> (r: bool)
    ensures
        r == (s@ == lit@),
{
    let l = chars_of(lit);
    crate::text::chars_eq(s.as_slice(), l.as_slice())
}

/// Turns a typed value into the bytes to store; see [`encode_value_of`].
pub fn encode_value(key: &str, input: &str, format: &str) -> (r: Result<(Vec<u8>, String), NveError>)
    ensures
        match encode_value_of(key@, input@, format@) {
            Ok((v, m)) => r matches Ok((x, y)) && x@ == v && y@ == m,
            Err(e) => r == Err::<(Vec<u8>, String), NveError>(e),
        },
{
    let ft = trim_str(format);
    let fc = chars_of(ft.as_str());
    let f = crate::text::chars_to_lower(fc.as_slice());
    let kc = chars_of(key);
    let fb = chars_of("FBLOCK");
    let fblock = chars_eq_ignore_case(kc.as_slice(), fb.as_slice());
    let (value, mode): (Vec<u8>, String) = if chars_is(&f, "hex") {
        let compact = compact_hex(input);
        match hex_decode(&compact) {
            None => return Err(NveError::InvalidHex),
            Some(v) => {
                if v.len() > NVE_DATA_SIZE {
                    return Err(NveError::InputTooLong { len: v.len() });
                }
                (v, crate::text::owned("Hex"))
            },
        }
    } else if chars_is(&f, "text") || chars_is(&f, "ascii") || chars_is(&f, "utf8") {
        if fblock {
            let t = trim_str(input);
            if crate::text::str_eq(t.as_str(), "0") {
                let mut v: Vec<u8> = Vec::new();
                v.push(0);
                proof {
                    assert(v@ =~= seq![0u8]);
                }
                return Ok((v, crate::text::owned("FBLOCK (unlocked)")));
            } else if crate::text::str_eq(t.as_str(), "1") {
                let mut v: Vec<u8> = Vec::new();
                v.push(1);
                proof {
                    assert(v@ =~= seq![1u8]);
                    assert(seq![1u8][0] != seq![0u8][0]);
                    assert(seq![1u8] != seq![0u8]);
                }
                return Ok((v, crate::text::owned("FBLOCK (locked)")));
            } else {
                return Err(NveError::FblockValue);
            }
        }
        let v = vstd::slice::slice_to_vec(input.as_bytes());
        if v.len() > NVE_DATA_SIZE {
            return Err(NveError::InputTooLong { len: v.len() });
        }
        (v, crate::text::owned("Text"))
    } else {
        return Err(NveError::UnsupportedFormat);
    };
    if fblock {
        if value.len() == 1 && value[0] == 0 {
            proof {
                assert(value@ =~= seq![0u8]);
            }
            return Ok((value, crate::text::owned("FBLOCK (unlocked)")));
        } else if value.len() == 1 && value[0] == 1 {
            proof {
                assert(value@ =~= seq![1u8]);
            }
            proof {
                assert(seq![1u8][0] != seq![0u8][0]);
                assert(seq![1u8] != seq![0u8]);
            }
            return Ok((value, crate::text::owned("FBLOCK (locked)")));
        } else {
            proof {
                if value@ == seq![0u8] || value@ == seq![1u8] {
                    assert(value@.len() == 1);
                }
            }
            return Err(NveError::FblockValue);
        }
    }
    Ok((value, mode))
}

// ---------------------------------------------------------------------------
// Writing a committed block back to the file.

/// The bytes of block `b`.
pub open spec fn block_of(raw: Seq<u8>, b: int) -> Seq<u8> {
    raw.subrange(block_start(b), block_start(b) + NVE_BLOCK_SIZE)
}

/// A block whose age reads as invalid: the kernel skips it until the real
/// age is written.
pub open spec fn invalid_age_block(block: Seq<u8>) -> Seq<u8> {
    block.subrange(0, NVE_BLOCK_SIZE - 4) + spec_u32_to_le_bytes(NVE_INVALID_AGE)
}

/// Where the commit sector starts inside a block.
pub open spec fn sector_start() -> int {
    NVE_BLOCK_SIZE - NVE_COMMIT_SECTOR_SIZE
}

/// How a committed block is written to disk so that a crash leaves either
/// the old generation or the new one: first the last sector with an
/// invalid age, then the data, then (once the data reads back) the last
/// sector with the real age.
pub struct CommitPlan {
    block: usize,
    committed: Vec<u8>,
    staged: Vec<u8>,
}

impl CommitPlan {
    #[verifier::type_invariant]
    spec fn inv(self) -> bool {
        &&& self.committed@.len() == NVE_BLOCK_SIZE
        &&& self.staged@ == invalid_age_block(self.committed@)
        &&& self.block < NVE_PARTITION_COUNT
    }

    /// The block number written.
    pub closed spec fn block_spec(self) -> int {
        self.block as int
    }

    /// The committed block's bytes.
    pub closed spec fn committed_spec(self) -> Seq<u8> {
        self.committed@
    }

    /// The block number written.
    pub fn block(&self) -> (r: usize)
        ensures
            r == self.block_spec(),
            r < NVE_PARTITION_COUNT,
    {
        proof {
            use_type_invariant(self);
        }
        self.block
    }

    /// Where the block starts in the file.
    pub fn block_offset(&self) -> (r: u64)
        ensures
            r == block_start(self.block_spec()),
    {
        proof {
            use_type_invariant(self);
        }
        (self.block * NVE_BLOCK_SIZE) as u64
    }

    /// Where the block's commit sector starts in the file.
    pub fn sector_offset(&self) -> (r: u64)
        ensures
            r == block_start(self.block_spec()) + sector_start(),
    {
        proof {
            use_type_invariant(self);
        }
        (self.block * NVE_BLOCK_SIZE + (NVE_BLOCK_SIZE - NVE_COMMIT_SECTOR_SIZE)) as u64
    }

    /// The block's data: everything before the commit sector.
    pub fn data(&self) -> (r: &[u8])
        ensures
            r@ == self.committed_spec().subrange(0, sector_start()),
    {
        proof {
            use_type_invariant(self);
        }
        vstd::slice::slice_subrange(self.committed.as_slice(), 0, NVE_BLOCK_SIZE - NVE_COMMIT_SECTOR_SIZE)
    }

    /// The commit sector as it is finally written, with the real age.
    pub fn commit_sector(&self) -> (r: &[u8])
        ensures
            r@ == self.committed_spec().subrange(sector_start(), NVE_BLOCK_SIZE as int),
    {
        proof {
            use_type_invariant(self);
        }
        vstd::slice::slice_subrange(
            self.committed.as_slice(),
            NVE_BLOCK_SIZE - NVE_COMMIT_SECTOR_SIZE,
            NVE_BLOCK_SIZE,
        )
    }

    /// The commit sector with an invalid age, written first and again
    /// after any failure.
    pub fn invalid_sector(&self) -> (r: &[u8])
        ensures
            r@ == invalid_age_block(self.committed_spec()).subrange(sector_start(), NVE_BLOCK_SIZE as int),
    {
        proof {
            use_type_invariant(self);
            vstd::bytes::lemma_auto_spec_u32_to_from_le_bytes();
        }
        vstd::slice::slice_subrange(
            self.staged.as_slice(),
            NVE_BLOCK_SIZE - NVE_COMMIT_SECTOR_SIZE,
            NVE_BLOCK_SIZE,
        )
    }

    /// Checks the block read back after the data was written: it must be
    /// the committed block with an invalid age, and load as the kernel would
    /// load it.
    pub fn check_staged(&self, staged: &[u8]) -> (r: Result<(), NveError>)
        ensures
            staged@ != invalid_age_block(self.committed_spec()) ==> r == Err::<(), NveError>(
                NveError::StagedMismatch { block: self.block_spec() as usize },
            ),
            staged@ == invalid_age_block(self.committed_spec()) ==> r == (if kernel_items_of(
                staged@,
                0,
            ) matches Ok(Some(_)) {
                Ok::<(), NveError>(())
            } else {
                Err::<(), NveError>(NveError::StagedInvalid)
            }),
    {
        proof {
            use_type_invariant(self);
            vstd::bytes::lemma_auto_spec_u32_to_from_le_bytes();
        }
        if !range_eq(staged, 0, staged.len(), self.staged.as_slice()) {
            proof {
                assert(staged@.subrange(0, staged@.len() as int) =~= staged@);
            }
            return Err(NveError::StagedMismatch { block: self.block });
        }
        proof {
            assert(staged@.subrange(0, staged@.len() as int) =~= staged@);
        }
        match kernel_items(staged, 0) {
            Ok(Some(_)) => Ok(()),
            _ => Err(NveError::StagedInvalid),
        }
    }

    /// Checks the block read back after the commit: it must be the
    /// committed block.
    pub fn check_final(&self, read: &[u8]) -> (r: Result<(), NveError>)
        ensures
            r == (if read@ == self.committed_spec() {
                Ok::<(), NveError>(())
            } else {
                Err::<(), NveError>(NveError::FinalMismatch { block: self.block_spec() as usize })
            }),
    {
        proof {
            use_type_invariant(self);
        }
        if range_eq(read, 0, read.len(), self.committed.as_slice()) {
            proof {
                assert(read@.subrange(0, read@.len() as int) =~= read@);
            }
            Ok(())
        } else {
            proof {
                assert(read@.subrange(0, read@.len() as int) =~= read@);
            }
            Err(NveError::FinalMismatch { block: self.block })
        }
    }
}

/// The first managed block, from `k` on, whose bytes on disk differ from
/// what the edit expects there: the original bytes for the committed block,
/// the image's bytes for the others.
pub open spec fn first_changed(raw: Seq<u8>, committed: int, original: Seq<u8>, managed: Seq<u8>, k: int) -> Option<
    int,
>
    decreases NVE_PARTITION_COUNT - k,
{
    if k < 0 || k >= NVE_PARTITION_COUNT {
        None
    } else if managed.subrange(block_start(k), block_start(k) + NVE_BLOCK_SIZE) != (if k == committed {
        original
    } else {
        block_of(raw, k)
    }) {
        Some(k)
    } else {
        first_changed(raw, committed, original, managed, k + 1)
    }
}

impl NveImage {
    /// How the committed block of `commit` is written back: refused when
    /// that block does not load as the kernel would load it.
    pub fn commit_plan(&self, commit: &NveCommitResult) -> (r: Result<CommitPlan, NveError>)
        requires
            commit.committed_block < NVE_PARTITION_COUNT,
            commit.committed_block < block_count(self.bytes()),
        ensures
            match kernel_items_of(self.bytes(), commit.committed_block as int) {
                Ok(Some(_)) => r matches Ok(p) && p.block_spec() == commit.committed_block
                    && p.committed_spec() == block_of(self.bytes(), commit.committed_block as int),
                Ok(None) => r matches Err(e) && e == NveError::CommittedInvalid,
                Err(e) => r matches Err(x) && x == e,
            },
    {
        proof {
            use_type_invariant(self);
        }
        let b = commit.committed_block;
        let raw = self.raw.as_slice();
        proof {
            assert(block_start(b as int) + NVE_BLOCK_SIZE <= raw@.len()) by (nonlinear_arith)
                requires
                    b < raw@.len() as int / (NVE_BLOCK_SIZE as int),
            ;
        }
        match kernel_items(raw, b) {
            Err(e) => return Err(e),
            Ok(None) => return Err(NveError::CommittedInvalid),
            Ok(Some(_)) => {},
        }
        let start = b * NVE_BLOCK_SIZE;
        let committed = vstd::slice::slice_to_vec(vstd::slice::slice_subrange(raw, start, start + NVE_BLOCK_SIZE));
        let mut staged = vstd::slice::slice_to_vec(
            vstd::slice::slice_subrange(raw, start, start + NVE_BLOCK_SIZE - 4),
        );
        let age = u32_to_le_bytes(NVE_INVALID_AGE);
        staged.push(age[0]);
        staged.push(age[1]);
        staged.push(age[2]);
        staged.push(age[3]);
        proof {
            assert(staged@ =~= invalid_age_block(committed@));
        }
        Ok(CommitPlan { block: b, committed, staged })
    }

    /// Checks, before anything is written, that the file still has the
    /// image's length.
    pub fn check_file_len(&self, file_len: u64) -> (r: Result<(), NveError>)
        ensures
            r == (if file_len == self.bytes().len() {
                Ok::<(), NveError>(())
            } else {
                Err::<(), NveError>(NveError::SizeChanged)
            }),
    {
        if file_len == self.raw.len() as u64 {
            Ok(())
        } else {
            Err(NveError::SizeChanged)
        }
    }

    /// Checks, before anything is written, that the managed blocks on disk
    /// are what the edit started from; see [`first_changed`].
    pub fn check_managed(&self, commit: &NveCommitResult, managed: &[u8]) -> (r: Result<(), NveError>)
        requires
            managed@.len() == NVE_PARTITION_COUNT * NVE_BLOCK_SIZE,
            block_count(self.bytes()) >= NVE_PARTITION_COUNT,
        ensures
            r == (match first_changed(
                self.bytes(),
                commit.committed_block as int,
                commit.original_target@,
                managed@,
                0,
            ) {
                Some(k) => Err::<(), NveError>(NveError::ManagedBlockChanged { block: k as usize }),
                None => Ok::<(), NveError>(()),
            }),
    {
        let raw = self.raw.as_slice();
        let mut k: usize = 0;
        while k < NVE_PARTITION_COUNT
            invariant
                k <= NVE_PARTITION_COUNT,
                raw@ == self.bytes(),
                managed@.len() == NVE_PARTITION_COUNT * NVE_BLOCK_SIZE,
                block_count(raw@) >= NVE_PARTITION_COUNT,
                first_changed(raw@, commit.committed_block as int, commit.original_target@, managed@, 0)
                    == first_changed(
                    raw@,
                    commit.committed_block as int,
                    commit.original_target@,
                    managed@,
                    k as int,
                ),
            decreases NVE_PARTITION_COUNT - k,
        {
            let start = k * NVE_BLOCK_SIZE;
            proof {
                assert(block_start(k as int) + NVE_BLOCK_SIZE <= raw@.len()) by (nonlinear_arith)
                    requires
                        k < NVE_PARTITION_COUNT,
                        raw@.len() as int / (NVE_BLOCK_SIZE as int) >= NVE_PARTITION_COUNT,
                ;
            }
            let same = if k == commit.committed_block {
                range_eq(managed, start, NVE_BLOCK_SIZE, commit.original_target.as_slice())
            } else {
                range_eq(managed, start, NVE_BLOCK_SIZE, vstd::slice::slice_subrange(raw, start, start + NVE_BLOCK_SIZE))
            };
            if !same {
                return Err(NveError::ManagedBlockChanged { block: k });
            }
            k = k + 1;
        }
        Ok(())
    }
}

/// The digit a lock byte shows: `0` for unlocked, `1` for locked.
pub open spec fn lock_digit(b: u8) -> char {
    if b == 0 {
        '0'
    } else {
        '1'
    }
}

/// An FBLOCK entry (the name in any case) holding the single byte 0
/// (unlocked) or 1 (locked) shows that digit as its value text.
pub proof fn lemma_fblock_value_text(name: Seq<char>, b: u8)
    requires
        eq_ignore_case(name, "FBLOCK"@),
        b <= 1,
    ensures
        value_text_of(name, seq![b]) == seq![lock_digit(b)],
{
    reveal_strlit("0");
    reveal_strlit("1");
    assert(seq![b].len() == 1 && seq![b][0] == b);
    if b == 0 {
        assert("0"@ =~= seq!['0']);
    } else {
        assert("1"@ =~= seq!['1']);
    }
}

/// In a summary, an FBLOCK item whose value is the single byte 0 or 1
/// reports the digit of that byte as its value text.
pub proof fn lemma_fblock_summary(s: NveItemSummary, raw: Seq<u8>, blk: int, slot: int, sup: bool, b: u8)
    requires
        item_summarizes(s, raw, blk, slot, sup),
        eq_ignore_case(s.name@, "FBLOCK"@),
        item_value(item_raw(raw, blk, slot)) == seq![b],
        b <= 1,
    ensures
        s.value_text@ == seq![lock_digit(b)],
{
    lemma_fblock_value_text(s.name@, b);
}

/// What an FBLOCK edit stores reads back as the digit typed: a single byte
/// 0 or 1, and as text `0` or `1` the byte shown as that same digit.
pub proof fn lemma_fblock_round_trip(key: Seq<char>, input: Seq<char>, format: Seq<char>)
    requires
        eq_ignore_case(key, "FBLOCK"@),
        encode_value_of(key, input, format) is Ok,
    ensures
        ({
            let v = encode_value_of(key, input, format)->Ok_0.0;
            &&& v.len() == 1 && v[0] <= 1
            &&& value_text_of(key, v) == seq![lock_digit(v[0])]
            &&& crate::text::lower_ascii(trim_space(format)) == "text"@ ==> value_text_of(key, v)
                == trim_space(input)
        }),
{
    reveal_strlit("0");
    reveal_strlit("1");
    let v = encode_value_of(key, input, format)->Ok_0.0;
    assert(v == seq![0u8] || v == seq![1u8]);
    assert(v == seq![v[0]]);
    lemma_fblock_value_text(key, v[0]);
    if crate::text::lower_ascii(trim_space(format)) == "text"@ {
        reveal_strlit("hex");
        reveal_strlit("text");
        assert("text"@.len() == 4 && "hex"@.len() == 3);
        assert(crate::text::lower_ascii(trim_space(format)) != "hex"@);
        if trim_space(input) == "0"@ {
            assert(v == seq![0u8]);
            assert("0"@ =~= seq!['0']);
        } else {
            assert(trim_space(input) == "1"@);
            assert(v == seq![1u8]);
            assert("1"@ =~= seq!['1']);
        }
    }
}

} // verus!
