use haucet_tools::fs_util::{is_simple_name, safe_join, writable_mode, JoinError};
use haucet_tools::package::{harmony_ramdisk_header_size, is_ramdisk_payload};
use haucet_tools::update_bin::{
    metadata_step, read_index, IndexError, MetadataStage, TableError, UpdateLayout,
};

const HEADER: usize = 180;

fn l2_record(name: &[u8], kind: u8, size: u64) -> Vec<u8> {
    let mut record = vec![0_u8; 87];
    record[..name.len()].copy_from_slice(name);
    record[32 + 4] = kind;
    record[32 + 15..32 + 23].copy_from_slice(&size.to_le_bytes());
    record
}

fn package(records: &[Vec<u8>], header_type: u16, metadata: &[u8], payload: &[u8]) -> Vec<u8> {
    let table: Vec<u8> = records.concat();
    let mut bytes = vec![0_u8; HEADER];
    bytes[0..2].copy_from_slice(&header_type.to_le_bytes());
    bytes[178..180].copy_from_slice(&(table.len() as u16).to_le_bytes());
    bytes.extend(table);
    bytes.extend([0_u8; 16]);
    bytes.extend_from_slice(metadata);
    bytes.extend_from_slice(payload);
    bytes
}

fn tlv(kind: u16, value: &[u8]) -> Vec<u8> {
    let mut v = kind.to_le_bytes().to_vec();
    v.extend((value.len() as u32).to_le_bytes());
    v.extend_from_slice(value);
    v
}

#[test]
fn reads_a_synthetic_update_bin() {
    let bytes = package(&[l2_record(b"test_partition", 0, 5)], 1, &tlv(8, &[]), b"image");
    let index = read_index(&bytes, Some(bytes.len() as u64), UpdateLayout::Auto).unwrap();
    assert_eq!(index.layout, UpdateLayout::L2);
    assert_eq!(index.data_offset, (HEADER + 87 + 16 + 6) as u64);
    assert_eq!(index.components.len(), 1);
    let c = &index.components[0];
    assert_eq!(c.name, "test_partition");
    assert_eq!(c.output_name, "test_partition.img");
    assert_eq!(c.size, 5);
    assert_eq!(c.data_offset, index.data_offset);
    let start = c.data_offset as usize;
    assert_eq!(&bytes[start..start + 5], b"image");
}

#[test]
fn payload_offsets_follow_each_other_and_names_map_to_outputs() {
    let records = [
        l2_record(b"/system/", 0, 3),
        l2_record(b"version_list", 2, 2),
        l2_record(b"board_list", 2, 1),
        l2_record(b"apps", 1, 4),
        l2_record(b"raw", 7, 0),
    ];
    let meta = [tlv(6, b"h"), tlv(7, b"hash"), tlv(8, b"sig")].concat();
    let bytes = package(&records, 1, &meta, b"aaabbcdddd");
    let index = read_index(&bytes, None, UpdateLayout::L2).unwrap();
    let outs: Vec<&str> = index.components.iter().map(|c| c.output_name.as_str()).collect();
    assert_eq!(outs, ["system.img", "VERSION.mbn", "BOARD.list", "apps.zip", "raw"]);
    assert_eq!(index.components[0].name, "system");
    let base = index.data_offset;
    let offsets: Vec<u64> = index.components.iter().map(|c| c.data_offset - base).collect();
    assert_eq!(offsets, [0, 3, 5, 6, 10]);
    assert_eq!(base as usize, HEADER + 5 * 87 + 16 + 7 + 10 + 9);
}

#[test]
fn l1_layout_is_detected_from_the_header_type() {
    let mut record = vec![0_u8; 71];
    record[..4].copy_from_slice(b"boot");
    record[16 + 4] = 0;
    record[16 + 15..16 + 23].copy_from_slice(&2_u64.to_le_bytes());
    let bytes = package(&[record], 0x11, &tlv(8, &[]), b"xx");
    let index = read_index(&bytes, Some(bytes.len() as u64), UpdateLayout::Auto).unwrap();
    assert_eq!(index.layout, UpdateLayout::L1);
    assert_eq!(index.components[0].output_name, "boot.img");
}

#[test]
fn index_errors_name_the_failed_check() {
    assert_eq!(read_index(&[0; 10], None, UpdateLayout::Auto).unwrap_err(), IndexError::TruncatedHeader);
    let empty = package(&[], 1, &[], &[]);
    assert_eq!(read_index(&empty, None, UpdateLayout::Auto).unwrap_err(), IndexError::EmptyTable);
    let mut short = package(&[l2_record(b"a", 0, 0)], 1, &[], &[]);
    short.truncate(HEADER + 10);
    assert_eq!(read_index(&short, None, UpdateLayout::L2).unwrap_err(), IndexError::TruncatedTable);
    let mut no_reserve = package(&[l2_record(b"a", 0, 0)], 1, &[], &[]);
    no_reserve.truncate(HEADER + 87 + 4);
    assert_eq!(
        read_index(&no_reserve, None, UpdateLayout::L2).unwrap_err(),
        IndexError::TruncatedReserve
    );
    let no_meta = package(&[l2_record(b"a", 0, 0)], 1, &[], &[]);
    assert_eq!(
        read_index(&no_meta, None, UpdateLayout::L2).unwrap_err(),
        IndexError::TruncatedMetadata
    );
    let odd = package(&[l2_record(b"a", 0, 0)], 1, &tlv(5, &[]), &[]);
    assert_eq!(
        read_index(&odd, None, UpdateLayout::L2).unwrap_err(),
        IndexError::UnsupportedTlv { kind: 5 }
    );
    let wrong = package(&[l2_record(b"a", 0, 0)], 1, &[tlv(6, &[]), tlv(8, &[])].concat(), &[]);
    assert_eq!(
        read_index(&wrong, None, UpdateLayout::L2).unwrap_err(),
        IndexError::UnexpectedTlv { expected: 7, found: 8 }
    );
    let long = package(&[l2_record(b"a", 0, 9)], 1, &tlv(8, &[]), b"abc");
    assert_eq!(
        read_index(&long, Some(long.len() as u64), UpdateLayout::L2).unwrap_err(),
        IndexError::Truncated { required: long.len() as u64 + 6, length: long.len() as u64 }
    );
}

#[test]
fn table_errors_carry_the_record() {
    let dup = package(&[l2_record(b"a", 0, 0), l2_record(b"a", 0, 0)], 1, &tlv(8, &[]), &[]);
    assert_eq!(
        read_index(&dup, None, UpdateLayout::L2).unwrap_err(),
        IndexError::Table { layout: UpdateLayout::L2, error: TableError::DuplicateOutput { record: 1 } }
    );
    let unsafe_name = package(&[l2_record(b"a/b", 0, 0)], 1, &tlv(8, &[]), &[]);
    assert_eq!(
        read_index(&unsafe_name, None, UpdateLayout::L2).unwrap_err(),
        IndexError::Table { layout: UpdateLayout::L2, error: TableError::UnsafeName { record: 0 } }
    );
    let empty_name = package(&[l2_record(b"//", 0, 0)], 1, &tlv(8, &[]), &[]);
    assert_eq!(
        read_index(&empty_name, None, UpdateLayout::L2).unwrap_err(),
        IndexError::Table { layout: UpdateLayout::L2, error: TableError::EmptyName { record: 0 } }
    );
    let bad_utf8 = package(&[l2_record(&[0xff, 0xfe], 0, 0)], 1, &tlv(8, &[]), &[]);
    assert_eq!(
        read_index(&bad_utf8, None, UpdateLayout::L2).unwrap_err(),
        IndexError::Table { layout: UpdateLayout::L2, error: TableError::NameNotUtf8 { record: 0 } }
    );
    let mut uneven = package(&[l2_record(b"a", 0, 0)], 1, &tlv(8, &[]), &[]);
    uneven[178..180].copy_from_slice(&80_u16.to_le_bytes());
    assert_eq!(
        read_index(&uneven, None, UpdateLayout::L2).unwrap_err(),
        IndexError::Table {
            layout: UpdateLayout::L2,
            error: TableError::BadLength { length: 80, record_len: 87 }
        }
    );
    match read_index(&uneven, None, UpdateLayout::Auto).unwrap_err() {
        IndexError::LayoutUndetected { first, second, .. } => {
            assert_eq!((first, second), (UpdateLayout::L2, UpdateLayout::L1));
        }
        other => panic!("unexpected {other:?}"),
    }
}

#[test]
fn metadata_steps_follow_the_tlv_order() {
    assert_eq!(metadata_step(MetadataStage::First, 6, 3), Ok((3, Some(MetadataStage::HashData))));
    assert_eq!(metadata_step(MetadataStage::First, 8, 0), Ok((0, None)));
    assert_eq!(metadata_step(MetadataStage::HashData, 7, 1), Ok((1, Some(MetadataStage::Signature))));
    assert_eq!(metadata_step(MetadataStage::Signature, 8, 2), Ok((2, None)));
    assert_eq!(
        metadata_step(MetadataStage::First, 6, 536870913),
        Err(IndexError::TlvTooLarge { kind: 6 })
    );
}

#[test]
fn ramdisk_images_are_recognised_by_header_and_payload() {
    let mut head = vec![0_u8; 16];
    head[..8].copy_from_slice(b"HARMONY!");
    head[8..16].copy_from_slice(&0x800_u64.to_be_bytes());
    assert_eq!(harmony_ramdisk_header_size(&head, 0x810), Some(0x800));
    assert_eq!(harmony_ramdisk_header_size(&head, 0x80f), None);
    head[8..16].copy_from_slice(&16_u64.to_be_bytes());
    assert_eq!(harmony_ramdisk_header_size(&head, 0x810), None);
    assert!(is_ramdisk_payload(&[0x1f, 0x8b, 0x08, 0, 0, 0, 0, 0, 0, 0, 0, 0, 0, 0, 0, 0]));
    assert!(is_ramdisk_payload(b"070701000000000000000000"));
}

#[test]
fn adds_owner_write_and_only_preserves_intended_execute_bits() {
    assert_eq!(writable_mode(0o500, true), 0o700);
    assert_eq!(writable_mode(0o400, false), 0o600);
    assert_eq!(writable_mode(0o050, false), 0o750);
}

#[test]
fn names_and_joins_stay_inside_the_base() {
    assert!(is_simple_name("system"));
    assert!(!is_simple_name(".."));
    assert!(!is_simple_name("a/b"));
    assert_eq!(safe_join("out", "a/b.img").unwrap(), "out/a/b.img");
    assert_eq!(safe_join("out", "/etc"), Err(JoinError::Absolute));
    assert!(safe_join("out", "a/../../b").is_err());
}
