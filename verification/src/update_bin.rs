//! The `update.bin` container: a 180-byte header, a table of fixed-size
//! component records, a reserved field, signature metadata TLVs, then the
//! component payloads back to back.

use vstd::prelude::*;
use vstd::utf8::{valid_utf8, decode_utf8};
use crate::bytes::{le_u16, le_u32, le_u64, le_u16_at, le_u32_at, le_u64_at};
use crate::fs_util::{simple_name, chars_are_simple_name};
use crate::text::{
    chars_eq, chars_of, find_nul, nul_end, owned, string_of, trim_char, trim_char_vec,
    utf8_string,
};

verus! {

pub const HEADER_LEN: usize = 180;
pub const COMPINFO_LEN_OFFSET: usize = 178;
pub const RESERVE_LEN: usize = 16;
pub const L1_RECORD_LEN: usize = 71;
pub const L2_RECORD_LEN: usize = 87;
pub const L1_ADDRESS_LEN: usize = 16;
pub const L2_ADDRESS_LEN: usize = 32;
pub const MAX_COMPONENTS: usize = 4096;
pub const MAX_METADATA_TLV: u64 = 536870912;
pub const TLV_HEADER_LEN: usize = 6;

/// The component table layout: L1 records are 71 bytes with a 16-byte name
/// field, L2 records 87 bytes with a 32-byte name field.
#[derive(Debug, Copy, Clone, PartialEq, Eq, Structural)]
pub enum UpdateLayout {
    Auto,
    L1,
    L2,
}

impl Default for UpdateLayout {
    fn default() -> (r: Self)
        ensures
            r == UpdateLayout::Auto,
    {
        UpdateLayout::Auto
    }
}

pub open spec fn record_len_of(layout: UpdateLayout) -> int {
    match layout {
        UpdateLayout::L1 => 71,
        UpdateLayout::L2 => 87,
        UpdateLayout::Auto => 0,
    }
}

pub open spec fn address_len_of(layout: UpdateLayout) -> int {
    match layout {
        UpdateLayout::L1 => 16,
        UpdateLayout::L2 => 32,
        UpdateLayout::Auto => 0,
    }
}

impl UpdateLayout {
    /// Bytes per component record.
    pub fn record_len(self) -> (r: usize)
        requires
            self != UpdateLayout::Auto,
        ensures
            r == record_len_of(self),
    {
        match self {
            UpdateLayout::L1 => L1_RECORD_LEN,
            _ => L2_RECORD_LEN,
        }
    }

    /// Bytes of the name field at the start of each record.
    pub fn address_len(self) -> (r: usize)
        requires
            self != UpdateLayout::Auto,
        ensures
            r == address_len_of(self),
    {
        match self {
            UpdateLayout::L1 => L1_ADDRESS_LEN,
            _ => L2_ADDRESS_LEN,
        }
    }
}

/// One component of the package.
#[derive(Debug, Clone, PartialEq, Eq)]
pub struct Component {
    pub name: String,
    pub output_name: String,
    pub component_type: u8,
    pub size: u64,
    pub data_offset: u64,
}

pub struct ComponentView {
    pub name: Seq<char>,
    pub output_name: Seq<char>,
    pub component_type: u8,
    pub size: u64,
    pub data_offset: u64,
}

impl View for Component {
    type V = ComponentView;

    open spec fn view(&self) -> ComponentView {
        ComponentView {
            name: self.name@,
            output_name: self.output_name@,
            component_type: self.component_type,
            size: self.size,
            data_offset: self.data_offset,
        }
    }
}

impl Component {
    /// A field-by-field copy.
    pub fn copy(&self) -> (r: Component)
        ensures
            r@ == self@,
    {
        Component {
            name: self.name.clone(),
            output_name: self.output_name.clone(),
            component_type: self.component_type,
            size: self.size,
            data_offset: self.data_offset,
        }
    }
}

/// The parsed package header: the layout in use, where the payloads start,
/// and the components with the offsets of their payloads.
#[derive(Debug, Clone)]
pub struct PackageIndex {
    pub layout: UpdateLayout,
    pub data_offset: u64,
    pub components: Vec<Component>,
}

pub struct PackageIndexView {
    pub layout: UpdateLayout,
    pub data_offset: u64,
    pub components: Seq<ComponentView>,
}

impl View for PackageIndex {
    type V = PackageIndexView;

    open spec fn view(&self) -> PackageIndexView {
        PackageIndexView {
            layout: self.layout,
            data_offset: self.data_offset,
            components: self.components@.map_values(|c: Component| c@),
        }
    }
}

/// Why a component table was refused; `record` counts from zero.
#[derive(Debug, Clone, Copy, PartialEq, Eq, Structural)]
pub enum TableError {
    BadLength { length: usize, record_len: usize },
    BadCount { count: usize },
    NameNotUtf8 { record: usize },
    EmptyName { record: usize },
    UnsafeName { record: usize },
    DuplicateOutput { record: usize },
}

/// Why a package index could not be read.
#[derive(Debug, Clone, Copy, PartialEq, Eq, Structural)]
pub enum IndexError {
    TruncatedHeader,
    EmptyTable,
    TruncatedTable,
    Table { layout: UpdateLayout, error: TableError },
    LayoutUndetected {
        first: UpdateLayout,
        first_error: TableError,
        second: UpdateLayout,
        second_error: TableError,
    },
    TruncatedReserve,
    TruncatedMetadata,
    TlvTooLarge { kind: u16 },
    UnexpectedTlv { expected: u16, found: u16 },
    UnsupportedTlv { kind: u16 },
    PayloadOverflow,
    LengthOverflow,
    Truncated { required: u64, length: u64 },
    OffsetOverflow,
}

/// The name a component's payload is written under.
pub open spec fn output_name_of(name: Seq<char>, component_type: u8) -> Seq<char> {
    if name == "version_list"@ {
        "VERSION.mbn"@
    } else if name == "board_list"@ {
        "BOARD.list"@
    } else if component_type == 0 {
        name + ".img"@
    } else if component_type == 1 {
        name + ".zip"@
    } else {
        name
    }
}

fn concat_chars(a: &Vec<char>, b: &str) -> (r: Vec<char>)
    ensures
        r@ == a@ + b@,
{
    let tail = chars_of(b);
    let mut out = a.clone();
    let mut i: usize = 0;
    while i < tail.len()
        invariant
            i <= tail@.len(),
            out@ == a@ + tail@.subrange(0, i as int),
        decreases tail@.len() - i,
    {
        out.push(tail[i]);
        proof {
            assert(out@ =~= a@ + tail@.subrange(0, i + 1));
        }
        i = i + 1;
    }
    proof {
        assert(tail@.subrange(0, tail@.len() as int) =~= tail@);
    }
    out
}

/// The output name of a component, as characters.
pub fn output_name(name: &Vec<char>, component_type: u8) -> (r: Vec<char>)
    ensures
        r@ == output_name_of(name@, component_type),
{
    if chars_eq(name.as_slice(), chars_of("version_list").as_slice()) {
        chars_of("VERSION.mbn")
    } else if chars_eq(name.as_slice(), chars_of("board_list").as_slice()) {
        chars_of("BOARD.list")
    } else if component_type == 0 {
        concat_chars(name, ".img")
    } else if component_type == 1 {
        concat_chars(name, ".zip")
    } else {
        name.clone()
    }
}

/// The bytes of record `i` of a table.
pub open spec fn record_at(table: Seq<u8>, layout: UpdateLayout, i: int) -> Seq<u8> {
    table.subrange(i * record_len_of(layout), (i + 1) * record_len_of(layout))
}

/// The name bytes of a record: its name field up to the first NUL.
pub open spec fn raw_name_of(rec: Seq<u8>, layout: UpdateLayout) -> Seq<u8> {
    rec.subrange(0, nul_end(rec.subrange(0, address_len_of(layout))))
}

/// The name of a record: its decoded name bytes with `/` trimmed from both ends.
pub open spec fn record_name(rec: Seq<u8>, layout: UpdateLayout) -> Seq<char> {
    trim_char(decode_utf8(raw_name_of(rec, layout)), '/')
}

pub open spec fn record_type(rec: Seq<u8>, layout: UpdateLayout) -> u8 {
    rec[address_len_of(layout) + 4]
}

pub open spec fn record_size(rec: Seq<u8>, layout: UpdateLayout) -> u64 {
    le_u64_at(rec, address_len_of(layout) + 15)
}

/// The component a record describes, before payload offsets are assigned.
pub open spec fn record_component(rec: Seq<u8>, layout: UpdateLayout) -> ComponentView {
    let name = record_name(rec, layout);
    ComponentView {
        name,
        output_name: output_name_of(name, record_type(rec, layout)),
        component_type: record_type(rec, layout),
        size: record_size(rec, layout),
        data_offset: 0,
    }
}

pub open spec fn output_taken(comps: Seq<ComponentView>, out: Seq<char>) -> bool {
    exists|k: int| 0 <= k < comps.len() && #[trigger] comps[k].output_name == out
}

/// The first `n` records, parsed in order; the first refused record decides
/// the error.
pub open spec fn parse_records(table: Seq<u8>, layout: UpdateLayout, n: nat) -> Result<
    Seq<ComponentView>,
    TableError,
>
    decreases n,
{
    if n == 0 {
        Ok(Seq::empty())
    } else {
        match parse_records(table, layout, (n - 1) as nat) {
            Err(e) => Err(e),
            Ok(prev) => {
                let i = (n - 1) as int;
                let rec = record_at(table, layout, i);
                let c = record_component(rec, layout);
                if !valid_utf8(raw_name_of(rec, layout)) {
                    Err(TableError::NameNotUtf8 { record: i as usize })
                } else if c.name.len() == 0 {
                    Err(TableError::EmptyName { record: i as usize })
                } else if !simple_name(c.name) {
                    Err(TableError::UnsafeName { record: i as usize })
                } else if output_taken(prev, c.output_name) {
                    Err(TableError::DuplicateOutput { record: i as usize })
                } else {
                    Ok(prev.push(c))
                }
            },
        }
    }
}

proof fn lemma_parse_records_err(table: Seq<u8>, layout: UpdateLayout, n: nat, m: nat)
    requires
        n <= m,
        parse_records(table, layout, n) is Err,
    ensures
        parse_records(table, layout, m) == parse_records(table, layout, n),
    decreases m - n,
{
    if n < m {
        lemma_parse_records_err(table, layout, n, (m - 1) as nat);
    }
}

/// The component table parsed with a given (resolved) layout.
pub open spec fn parse_table(table: Seq<u8>, layout: UpdateLayout) -> Result<
    Seq<ComponentView>,
    TableError,
> {
    let rl = record_len_of(layout);
    let len = table.len() as int;
    if len % rl != 0 {
        Err(TableError::BadLength { length: len as usize, record_len: rl as usize })
    } else if len / rl < 1 || len / rl > MAX_COMPONENTS {
        Err(TableError::BadCount { count: (len / rl) as usize })
    } else {
        parse_records(table, layout, (len / rl) as nat)
    }
}

fn parse_record(table: &[u8], layout: UpdateLayout, i: usize) -> (r: Result<
    Component,
    TableError,
>)
    requires
        layout != UpdateLayout::Auto,
        (i + 1) * record_len_of(layout) <= table@.len(),
        i < MAX_COMPONENTS,
    ensures
        ({
            let rec = record_at(table@, layout, i as int);
            let c = record_component(rec, layout);
            &&& !valid_utf8(raw_name_of(rec, layout)) ==> r == Err::<Component, TableError>(
                TableError::NameNotUtf8 { record: i },
            )
            &&& valid_utf8(raw_name_of(rec, layout)) && c.name.len() == 0 ==> r == Err::<
                Component,
                TableError,
            >(TableError::EmptyName { record: i })
            &&& valid_utf8(raw_name_of(rec, layout)) && c.name.len() > 0 && !simple_name(c.name)
                ==> r == Err::<Component, TableError>(TableError::UnsafeName { record: i })
            &&& valid_utf8(raw_name_of(rec, layout)) && simple_name(c.name) ==> (r matches Ok(
                comp,
            ) && comp@ == c)
        }),
{
    let rl = layout.record_len();
    let al = layout.address_len();
    let start = i * rl;
    let ghost rec = record_at(table@, layout, i as int);
    let name_end = find_nul(table, start, start + al);
    proof {
        assert(table@.subrange(start as int, start + al) =~= rec.subrange(0, al as int));
    }
    let raw = vstd::slice::slice_subrange(table, start, name_end);
    proof {
        assert(raw@ =~= raw_name_of(rec, layout));
    }
    let decoded = match utf8_string(raw) {
        Some(s) => s,
        None => {
            return Err(TableError::NameNotUtf8 { record: i });
        },
    };
    let chars = chars_of(decoded.as_str());
    let name = trim_char_vec(&chars, '/');
    if name.len() == 0 {
        return Err(TableError::EmptyName { record: i });
    }
    if !chars_are_simple_name(name.as_slice()) {
        return Err(TableError::UnsafeName { record: i });
    }
    let component_type = table[start + al + 4];
    let size = le_u64(table, start + al + 15);
    proof {
        assert(rec[al + 4] == table@[start + al + 4]);
        assert(rec.subrange(al + 15, al + 23) =~= table@.subrange(
            start + al + 15,
            start + al + 23,
        ));
    }
    let out = output_name(&name, component_type);
    Ok(
        Component {
            name: string_of(name.as_slice()),
            output_name: string_of(out.as_slice()),
            component_type,
            size,
            data_offset: 0,
        },
    )
}

fn output_in(components: &Vec<Component>, out: &Vec<char>) -> (r: bool)
    ensures
        r == output_taken(components@.map_values(|c: Component| c@), out@),
{
    let ghost views = components@.map_values(|c: Component| c@);
    let mut k: usize = 0;
    while k < components.len()
        invariant
            k <= components@.len(),
            views == components@.map_values(|c: Component| c@),
            forall|j: int| 0 <= j < k ==> views[j].output_name != out@,
        decreases components@.len() - k,
    {
        let existing = chars_of(components[k].output_name.as_str());
        if chars_eq(existing.as_slice(), out.as_slice()) {
            assert(views[k as int].output_name == out@);
            return true;
        }
        k = k + 1;
    }
    false
}

/// Parses a component table with a resolved layout.
pub fn parse_component_table(table: &[u8], layout: UpdateLayout) -> (r: Result<
    Vec<Component>,
    TableError,
>)
    requires
        layout != UpdateLayout::Auto,
    ensures
        match parse_table(table@, layout) {
            Ok(v) => r matches Ok(comps) && comps@.map_values(|c: Component| c@) == v,
            Err(e) => r == Err::<Vec<Component>, TableError>(e),
        },
{
    let rl = layout.record_len();
    if table.len() % rl != 0 {
        return Err(TableError::BadLength { length: table.len(), record_len: rl });
    }
    let count = table.len() / rl;
    if count < 1 || count > MAX_COMPONENTS {
        return Err(TableError::BadCount { count });
    }
    let mut components: Vec<Component> = Vec::new();
    let mut i: usize = 0;
    proof {
        assert(components@.map_values(|c: Component| c@) =~= Seq::<ComponentView>::empty());
    }
    while i < count
        invariant
            layout != UpdateLayout::Auto,
            rl == record_len_of(layout),
            count == table@.len() as int / rl as int,
            1 <= count <= MAX_COMPONENTS,
            table@.len() as int % rl as int == 0,
            i <= count,
            parse_records(table@, layout, i as nat) == Ok::<Seq<ComponentView>, TableError>(
                components@.map_values(|c: Component| c@),
            ),
        decreases count - i,
    {
        proof {
            vstd::arithmetic::div_mod::lemma_fundamental_div_mod(table@.len() as int, rl as int);
            vstd::arithmetic::mul::lemma_mul_inequality((i + 1) as int, count as int, rl as int);
            vstd::arithmetic::mul::lemma_mul_is_commutative((i + 1) as int, rl as int);
            vstd::arithmetic::mul::lemma_mul_is_commutative(count as int, rl as int);
        }
        let c = match parse_record(table, layout, i) {
            Ok(c) => c,
            Err(e) => {
                proof {
                    lemma_parse_records_err(table@, layout, (i + 1) as nat, count as nat);
                }
                return Err(e);
            },
        };
        let out = chars_of(c.output_name.as_str());
        if output_in(&components, &out) {
            proof {
                lemma_parse_records_err(table@, layout, (i + 1) as nat, count as nat);
            }
            return Err(TableError::DuplicateOutput { record: i });
        }
        let ghost before = components@.map_values(|c: Component| c@);
        components.push(c);
        proof {
            assert(components@.map_values(|c: Component| c@) =~= before.push(c@));
        }
        i = i + 1;
    }
    Ok(components)
}

/// The order in which an automatic layout detection tries the layouts: the
/// one the header's TLV type suggests (`0x01` for L2, `0x11` for L1) first,
/// L2 before L1 otherwise.
pub open spec fn detection_order(header_type: u16) -> (UpdateLayout, UpdateLayout) {
    if header_type == 0x11 {
        (UpdateLayout::L1, UpdateLayout::L2)
    } else {
        (UpdateLayout::L2, UpdateLayout::L1)
    }
}

/// The layout and components of a table, given the header and the requested layout.
pub open spec fn resolve_layout_of(header: Seq<u8>, table: Seq<u8>, requested: UpdateLayout) -> Result<
    (UpdateLayout, Seq<ComponentView>),
    IndexError,
> {
    if requested != UpdateLayout::Auto {
        match parse_table(table, requested) {
            Ok(v) => Ok((requested, v)),
            Err(e) => Err(IndexError::Table { layout: requested, error: e }),
        }
    } else {
        let (first, second) = detection_order(le_u16_at(header, 0));
        match parse_table(table, first) {
            Ok(v) => Ok((first, v)),
            Err(e1) => match parse_table(table, second) {
                Ok(v) => Ok((second, v)),
                Err(e2) => Err(
                    IndexError::LayoutUndetected {
                        first,
                        first_error: e1,
                        second,
                        second_error: e2,
                    },
                ),
            },
        }
    }
}

/// Parses the component table, detecting the layout when `requested` is `Auto`.
pub fn resolve_layout(header: &[u8], table: &[u8], requested: UpdateLayout) -> (r: Result<
    (UpdateLayout, Vec<Component>),
    IndexError,
>)
    requires
        header@.len() >= 2,
    ensures
        match resolve_layout_of(header@, table@, requested) {
            Ok((l, v)) => r matches Ok((rl, comps)) && rl == l && comps@.map_values(
                |c: Component| c@,
            ) == v,
            Err(e) => r == Err::<(UpdateLayout, Vec<Component>), IndexError>(e),
        },
{
    if requested != UpdateLayout::Auto {
        return match parse_component_table(table, requested) {
            Ok(components) => Ok((requested, components)),
            Err(error) => Err(IndexError::Table { layout: requested, error }),
        };
    }
    let header_type = le_u16(header, 0);
    let (first, second) = if header_type == 0x11 {
        (UpdateLayout::L1, UpdateLayout::L2)
    } else {
        (UpdateLayout::L2, UpdateLayout::L1)
    };
    match parse_component_table(table, first) {
        Ok(components) => Ok((first, components)),
        Err(first_error) => match parse_component_table(table, second) {
            Ok(components) => Ok((second, components)),
            Err(second_error) => Err(
                IndexError::LayoutUndetected { first, first_error, second, second_error },
            ),
        },
    }
}

/// Which metadata TLV comes next: the first one (hash-info `0x06` or a lone
/// signature `0x08`), the hash data `0x07`, or the signature `0x08` after it.
#[derive(Debug, Clone, Copy, PartialEq, Eq, Structural)]
pub enum MetadataStage {
    First,
    HashData,
    Signature,
}

/// What follows a metadata TLV header: the number of value bytes to skip and
/// the stage of the next TLV, if another one follows.
pub open spec fn metadata_step_of(stage: MetadataStage, kind: u16, length: u64) -> Result<
    (u64, Option<MetadataStage>),
    IndexError,
> {
    match stage {
        MetadataStage::First => if kind == 0x06 {
            if length > MAX_METADATA_TLV {
                Err(IndexError::TlvTooLarge { kind })
            } else {
                Ok((length, Some(MetadataStage::HashData)))
            }
        } else if kind == 0x08 {
            if length > MAX_METADATA_TLV {
                Err(IndexError::TlvTooLarge { kind })
            } else {
                Ok((length, None))
            }
        } else {
            Err(IndexError::UnsupportedTlv { kind })
        },
        MetadataStage::HashData => if kind != 0x07 {
            Err(IndexError::UnexpectedTlv { expected: 0x07, found: kind })
        } else if length > MAX_METADATA_TLV {
            Err(IndexError::TlvTooLarge { kind })
        } else {
            Ok((length, Some(MetadataStage::Signature)))
        },
        MetadataStage::Signature => if kind != 0x08 {
            Err(IndexError::UnexpectedTlv { expected: 0x08, found: kind })
        } else if length > MAX_METADATA_TLV {
            Err(IndexError::TlvTooLarge { kind })
        } else {
            Ok((length, None))
        },
    }
}

/// Decides on one metadata TLV header (`kind`, `length`) met at `stage`.
pub fn metadata_step(stage: MetadataStage, kind: u16, length: u64) -> (r: Result<
    (u64, Option<MetadataStage>),
    IndexError,
>)
    ensures
        r == metadata_step_of(stage, kind, length),
{
    match stage {
        MetadataStage::First => {
            if kind == 0x06 {
                if length > MAX_METADATA_TLV {
                    Err(IndexError::TlvTooLarge { kind })
                } else {
                    Ok((length, Some(MetadataStage::HashData)))
                }
            } else if kind == 0x08 {
                if length > MAX_METADATA_TLV {
                    Err(IndexError::TlvTooLarge { kind })
                } else {
                    Ok((length, None))
                }
            } else {
                Err(IndexError::UnsupportedTlv { kind })
            }
        },
        MetadataStage::HashData => {
            if kind != 0x07 {
                Err(IndexError::UnexpectedTlv { expected: 0x07, found: kind })
            } else if length > MAX_METADATA_TLV {
                Err(IndexError::TlvTooLarge { kind })
            } else {
                Ok((length, Some(MetadataStage::Signature)))
            }
        },
        MetadataStage::Signature => {
            if kind != 0x08 {
                Err(IndexError::UnexpectedTlv { expected: 0x08, found: kind })
            } else if length > MAX_METADATA_TLV {
                Err(IndexError::TlvTooLarge { kind })
            } else {
                Ok((length, None))
            }
        },
    }
}

pub open spec fn stage_rank(stage: MetadataStage) -> nat {
    match stage {
        MetadataStage::First => 2,
        MetadataStage::HashData => 1,
        MetadataStage::Signature => 0,
    }
}

/// Where the metadata that starts at `pos` (at `stage`) ends.
pub open spec fn metadata_end_from(data: Seq<u8>, pos: int, stage: MetadataStage) -> Result<
    int,
    IndexError,
>
    decreases stage_rank(stage),
{
    if data.len() < pos + 6 {
        Err(IndexError::TruncatedMetadata)
    } else {
        let kind = le_u16_at(data, pos);
        let length = le_u32_at(data, pos + 2) as u64;
        match metadata_step_of(stage, kind, length) {
            Err(e) => Err(e),
            Ok((skip, next)) => if data.len() < pos + 6 + skip {
                Err(IndexError::TruncatedMetadata)
            } else {
                match next {
                    None => Ok(pos + 6 + skip),
                    Some(n) => if stage_rank(n) < stage_rank(stage) {
                        metadata_end_from(data, pos + 6 + skip, n)
                    } else {
                        Err(IndexError::TruncatedMetadata)
                    },
                }
            },
        }
    }
}

pub open spec fn sizes_sum(comps: Seq<ComponentView>, n: int) -> int
    decreases n,
{
    if n <= 0 {
        0
    } else {
        sizes_sum(comps, n - 1) + comps[n - 1].size
    }
}

proof fn lemma_sizes_sum_mono(comps: Seq<ComponentView>, a: int, b: int)
    requires
        0 <= a <= b,
    ensures
        sizes_sum(comps, a) <= sizes_sum(comps, b),
    decreases b - a,
{
    if a < b {
        lemma_sizes_sum_mono(comps, a, b - 1);
    }
}

/// The components with their payload offsets assigned back to back from `offset`.
pub open spec fn placed(comps: Seq<ComponentView>, offset: int) -> Seq<ComponentView> {
    Seq::new(
        comps.len(),
        |i: int|
            ComponentView {
                name: comps[i].name,
                output_name: comps[i].output_name,
                component_type: comps[i].component_type,
                size: comps[i].size,
                data_offset: (offset + sizes_sum(comps, i)) as u64,
            },
    )
}

/// The index that the parsed table and the end of the metadata give, checked
/// against the package length when it is known.
pub open spec fn finish_index_of(
    layout: UpdateLayout,
    comps: Seq<ComponentView>,
    offset: u64,
    total_length: Option<u64>,
) -> Result<PackageIndexView, IndexError> {
    let payload = sizes_sum(comps, comps.len() as int);
    if payload > u64::MAX {
        Err(IndexError::PayloadOverflow)
    } else if total_length is Some && offset + payload > u64::MAX {
        Err(IndexError::LengthOverflow)
    } else if total_length is Some && offset + payload > total_length->0 {
        Err(IndexError::Truncated { required: (offset + payload) as u64, length: total_length->0 })
    } else if offset + payload > u64::MAX {
        Err(IndexError::OffsetOverflow)
    } else {
        Ok(PackageIndexView { layout, data_offset: offset, components: placed(comps, offset as int) })
    }
}

/// Sums the component sizes, checks them against the package length, and
/// assigns each payload its offset.
pub fn finish_index(
    layout: UpdateLayout,
    components: Vec<Component>,
    offset: u64,
    total_length: Option<u64>,
) -> (r: Result<PackageIndex, IndexError>)
    ensures
        match finish_index_of(layout, components@.map_values(|c: Component| c@), offset, total_length) {
            Ok(v) => r matches Ok(index) && index@ == v,
            Err(e) => r matches Err(re) && re == e,
        },
{
    let ghost views = components@.map_values(|c: Component| c@);
    let mut payload: u64 = 0;
    let mut i: usize = 0;
    while i < components.len()
        invariant
            i <= components@.len(),
            views == components@.map_values(|c: Component| c@),
            payload == sizes_sum(views, i as int),
        decreases components@.len() - i,
    {
        let size = components[i].size;
        if payload > u64::MAX - size {
            proof {
                lemma_sizes_sum_mono(views, (i + 1) as int, views.len() as int);
            }
            return Err(IndexError::PayloadOverflow);
        }
        payload = payload + size;
        i = i + 1;
    }
    if let Some(length) = total_length {
        if offset > u64::MAX - payload {
            return Err(IndexError::LengthOverflow);
        }
        let required = offset + payload;
        if required > length {
            return Err(IndexError::Truncated { required, length });
        }
    }
    if offset > u64::MAX - payload {
        return Err(IndexError::OffsetOverflow);
    }
    let mut placed_components: Vec<Component> = Vec::new();
    let mut data_offset: u64 = offset;
    let mut k: usize = 0;
    while k < components.len()
        invariant
            k <= components@.len(),
            views == components@.map_values(|c: Component| c@),
            payload == sizes_sum(views, views.len() as int),
            offset + payload <= u64::MAX,
            data_offset == offset + sizes_sum(views, k as int),
            placed_components@.len() == k,
            forall|j: int| 0 <= j < k ==> #[trigger] placed_components@[j]@ == placed(views, offset as int)[j],
        decreases components@.len() - k,
    {
        proof {
            lemma_sizes_sum_mono(views, (k + 1) as int, views.len() as int);
        }
        let mut c = components[k].copy();
        c.data_offset = data_offset;
        placed_components.push(c);
        data_offset = data_offset + components[k].size;
        k = k + 1;
    }
    proof {
        assert(placed_components@.map_values(|c: Component| c@) =~= placed(views, offset as int));
    }
    Ok(PackageIndex { layout, data_offset: offset, components: placed_components })
}

/// The index of a package held in `data` (at least through its metadata),
/// whose full length is `total_length` when known.
pub open spec fn read_index_of(data: Seq<u8>, total_length: Option<u64>, requested: UpdateLayout) -> Result<
    PackageIndexView,
    IndexError,
> {
    if data.len() < HEADER_LEN {
        Err(IndexError::TruncatedHeader)
    } else {
        let c = le_u16_at(data, COMPINFO_LEN_OFFSET as int) as int;
        if c == 0 {
            Err(IndexError::EmptyTable)
        } else if data.len() < HEADER_LEN + c {
            Err(IndexError::TruncatedTable)
        } else {
            match resolve_layout_of(
                data.subrange(0, HEADER_LEN as int),
                data.subrange(HEADER_LEN as int, HEADER_LEN + c),
                requested,
            ) {
                Err(e) => Err(e),
                Ok((layout, comps)) => if data.len() < HEADER_LEN + c + RESERVE_LEN {
                    Err(IndexError::TruncatedReserve)
                } else {
                    match metadata_end_from(
                        data,
                        HEADER_LEN + c + RESERVE_LEN,
                        MetadataStage::First,
                    ) {
                        Err(e) => Err(e),
                        Ok(end) => finish_index_of(layout, comps, end as u64, total_length),
                    }
                },
            }
        }
    }
}

/// Where the metadata TLVs that start at `pos` end.
fn metadata_end(data: &[u8], pos: usize) -> (r: Result<usize, IndexError>)
    ensures
        match metadata_end_from(data@, pos as int, MetadataStage::First) {
            Ok(end) => r == Ok::<usize, IndexError>(end as usize) && 0 <= end <= data@.len(),
            Err(e) => r == Err::<usize, IndexError>(e),
        },
{
    let len = data.len();
    let mut stage = MetadataStage::First;
    let mut p = pos;
    loop
        invariant
            len == data@.len(),
            metadata_end_from(data@, pos as int, MetadataStage::First) == metadata_end_from(
                data@,
                p as int,
                stage,
            ),
        decreases stage_rank(stage),
    {
        if p > len || len - p < 6 {
            return Err(IndexError::TruncatedMetadata);
        }
        let kind = le_u16(data, p);
        let length = le_u32(data, p + 2) as u64;
        let (skip, next) = match metadata_step(stage, kind, length) {
            Ok(step) => step,
            Err(e) => {
                return Err(e);
            },
        };
        if skip > (len - p - 6) as u64 {
            return Err(IndexError::TruncatedMetadata);
        }
        let end = p + 6 + skip as usize;
        match next {
            None => {
                return Ok(end);
            },
            Some(n) => {
                stage = n;
                p = end;
            },
        }
    }
}

/// Reads the index of a package whose bytes `data` hold at least everything
/// up to the end of its metadata.
pub fn read_index(data: &[u8], total_length: Option<u64>, requested_layout: UpdateLayout) -> (r:
    Result<PackageIndex, IndexError>)
    ensures
        match read_index_of(data@, total_length, requested_layout) {
            Ok(v) => r matches Ok(index) && index@ == v,
            Err(e) => r matches Err(re) && re == e,
        },
{
    let len = data.len();
    if len < HEADER_LEN {
        return Err(IndexError::TruncatedHeader);
    }
    let compinfo_len = le_u16(data, COMPINFO_LEN_OFFSET) as usize;
    if compinfo_len == 0 {
        return Err(IndexError::EmptyTable);
    }
    if len - HEADER_LEN < compinfo_len {
        return Err(IndexError::TruncatedTable);
    }
    let header = vstd::slice::slice_subrange(data, 0, HEADER_LEN);
    let table = vstd::slice::slice_subrange(data, HEADER_LEN, HEADER_LEN + compinfo_len);
    let (layout, components) = match resolve_layout(header, table, requested_layout) {
        Ok(resolved) => resolved,
        Err(e) => {
            return Err(e);
        },
    };
    if len - HEADER_LEN - compinfo_len < RESERVE_LEN {
        return Err(IndexError::TruncatedReserve);
    }
    let end = match metadata_end(data, HEADER_LEN + compinfo_len + RESERVE_LEN) {
        Ok(end) => end,
        Err(e) => {
            return Err(e);
        },
    };
    proof {
        let c = le_u16_at(data@, COMPINFO_LEN_OFFSET as int) as int;
        assert(c == compinfo_len);
        assert(header@ == data@.subrange(0, HEADER_LEN as int));
        assert(table@ == data@.subrange(HEADER_LEN as int, HEADER_LEN + c));
        let rr = resolve_layout_of(header@, table@, requested_layout);
        assert(rr == Ok::<(UpdateLayout, Seq<ComponentView>), IndexError>(
            (layout, components@.map_values(|c: Component| c@)),
        ));
        let me = metadata_end_from(data@, HEADER_LEN + c + RESERVE_LEN, MetadataStage::First);
        assert(me == Ok::<int, IndexError>(end as int));
    }
    finish_index(layout, components, end as u64, total_length)
}

/// Whether each component's payload starts where the one before it ends.
pub open spec fn payloads_back_to_back(comps: Seq<ComponentView>) -> bool {
    forall|i: int|
        0 < i < comps.len() ==> #[trigger] comps[i].data_offset == comps[i - 1].data_offset + comps[i
            - 1].size
}

/// Whether no two components are written to the same file.
pub open spec fn outputs_distinct(comps: Seq<ComponentView>) -> bool {
    forall|i: int, j: int|
        0 <= i < j < comps.len() ==> #[trigger] comps[i].output_name != #[trigger] comps[j].output_name
}

proof fn lemma_records_distinct(table: Seq<u8>, layout: UpdateLayout, n: nat)
    requires
        parse_records(table, layout, n) is Ok,
    ensures
        outputs_distinct(parse_records(table, layout, n)->Ok_0),
    decreases n,
{
    if n > 0 {
        lemma_records_distinct(table, layout, (n - 1) as nat);
        let prev = parse_records(table, layout, (n - 1) as nat)->Ok_0;
        let v = parse_records(table, layout, n)->Ok_0;
        assert forall|i: int, j: int| 0 <= i < j < v.len() implies #[trigger] v[i].output_name
            != #[trigger] v[j].output_name by {
            if j == v.len() - 1 {
                assert(v[i] == prev[i]);
                if v[i].output_name == v[j].output_name {
                    assert(output_taken(prev, v[j].output_name));
                }
            } else {
                assert(v[i] == prev[i] && v[j] == prev[j]);
            }
        }
    }
}

/// A package index never writes two components to the same file, and
/// every component's payload starts where the one before it ends.
pub proof fn lemma_index_outputs_distinct(data: Seq<u8>, total_length: Option<u64>, requested: UpdateLayout)
    requires
        read_index_of(data, total_length, requested) is Ok,
    ensures
        outputs_distinct(read_index_of(data, total_length, requested)->Ok_0.components),
        payloads_back_to_back(read_index_of(data, total_length, requested)->Ok_0.components),
{
    let c = le_u16_at(data, COMPINFO_LEN_OFFSET as int) as int;
    let header = data.subrange(0, HEADER_LEN as int);
    let table = data.subrange(HEADER_LEN as int, HEADER_LEN + c);
    let (layout, comps) = resolve_layout_of(header, table, requested)->Ok_0;
    if requested != UpdateLayout::Auto {
        lemma_records_distinct(table, requested, (table.len() as int / record_len_of(requested)) as nat);
    } else {
        let (first, second) = detection_order(le_u16_at(header, 0));
        if parse_table(table, first) is Ok {
            lemma_records_distinct(table, first, (table.len() as int / record_len_of(first)) as nat);
        } else {
            lemma_records_distinct(table, second, (table.len() as int / record_len_of(second)) as nat);
        }
    }
    let end = metadata_end_from(data, HEADER_LEN + c + RESERVE_LEN, MetadataStage::First)->Ok_0;
    let v = read_index_of(data, total_length, requested)->Ok_0;
    assert(v.components == placed(comps, end as u64 as int));
    assert forall|i: int, j: int| 0 <= i < j < v.components.len() implies #[trigger] v.components[i].output_name
        != #[trigger] v.components[j].output_name by {
        assert(v.components[i].output_name == comps[i].output_name);
        assert(v.components[j].output_name == comps[j].output_name);
    }
    let total = sizes_sum(comps, comps.len() as int);
    assert(end as u64 + total <= u64::MAX);
    assert forall|i: int| 0 < i < v.components.len() implies #[trigger] v.components[i].data_offset
        == v.components[i - 1].data_offset + v.components[i - 1].size by {
        lemma_sizes_sum_mono(comps, i, comps.len() as int);
        lemma_sizes_sum_mono(comps, 0, i - 1);
        assert(sizes_sum(comps, i) == sizes_sum(comps, i - 1) + comps[i - 1].size);
        assert(v.components[i].data_offset == end as u64 + sizes_sum(comps, i));
        assert(v.components[i - 1].data_offset == end as u64 + sizes_sum(comps, i - 1));
    }
}

/// Where a component is written: an image (type 0) as `<name>.img`, an
/// archive (type 1) as `<name>.zip`, any other type under its own name;
/// `version_list` and `board_list` go to `VERSION.mbn` and `BOARD.list`.
pub proof fn lemma_output_names(name: Seq<char>, component_type: u8)
    ensures
        name != "version_list"@ && name != "board_list"@ && component_type == 0 ==> output_name_of(
            name,
            component_type,
        ) == name + seq!['.', 'i', 'm', 'g'],
        name != "version_list"@ && name != "board_list"@ && component_type == 1 ==> output_name_of(
            name,
            component_type,
        ) == name + seq!['.', 'z', 'i', 'p'],
        name != "version_list"@ && name != "board_list"@ && component_type > 1 ==> output_name_of(
            name,
            component_type,
        ) == name,
        name == "version_list"@ ==> output_name_of(name, component_type) == seq![
            'V', 'E', 'R', 'S', 'I', 'O', 'N', '.', 'm', 'b', 'n'
        ],
        name == "board_list"@ ==> output_name_of(name, component_type) == seq![
            'B', 'O', 'A', 'R', 'D', '.', 'l', 'i', 's', 't'
        ],
{
    reveal_strlit(".img");
    reveal_strlit(".zip");
    reveal_strlit("VERSION.mbn");
    reveal_strlit("BOARD.list");
    reveal_strlit("version_list");
    reveal_strlit("board_list");
    assert(".img"@ =~= seq!['.', 'i', 'm', 'g']);
    assert(".zip"@ =~= seq!['.', 'z', 'i', 'p']);
    assert("VERSION.mbn"@ =~= seq!['V', 'E', 'R', 'S', 'I', 'O', 'N', '.', 'm', 'b', 'n']);
    assert("BOARD.list"@ =~= seq!['B', 'O', 'A', 'R', 'D', '.', 'l', 'i', 's', 't']);
    assert("version_list"@ != "board_list"@) by {
        assert("version_list"@[0] != "board_list"@[0]);
    }
}

} // verus!
