use haucet_tools::nvme::{
    encode_value, normalize_key, NveError, NveImage, NVE_BLOCK_SIZE, NVE_COMMIT_SECTOR_SIZE,
};

const ITEM: usize = 128;

fn item_crc(item: &[u8]) -> u32 {
    crc32c::crc32c_append(crc32c::crc32c(&item[..20]), &item[24..128])
}

/// Writes a header and items `(name, declared size, value)` into block `b`.
fn write_block(raw: &mut [u8], b: usize, age: u32, crc: bool, items: &[(&str, u32, &[u8])]) {
    let start = b * NVE_BLOCK_SIZE;
    for (slot, (name, size, value)) in items.iter().enumerate() {
        let it = &mut raw[start + slot * ITEM..start + (slot + 1) * ITEM];
        it[0..4].copy_from_slice(&(slot as u32).to_le_bytes());
        it[4..4 + name.len()].copy_from_slice(name.as_bytes());
        it[12..16].copy_from_slice(&1_u32.to_le_bytes());
        it[16..20].copy_from_slice(&size.to_le_bytes());
        it[24..24 + value.len()].copy_from_slice(value);
        if crc {
            let c = item_crc(it);
            it[20..24].copy_from_slice(&c.to_le_bytes());
        }
    }
    let h = start + NVE_BLOCK_SIZE - 128;
    raw[h..h + 17].copy_from_slice(b"Hisi-NV-Partition");
    raw[h + 32..h + 36].copy_from_slice(&1_u32.to_le_bytes());
    raw[h + 44..h + 48].copy_from_slice(&(items.len() as u32).to_le_bytes());
    raw[h + 52..h + 56].copy_from_slice(&(if crc { 2_u32 } else { 0 }).to_le_bytes());
    raw[h + 124..h + 128].copy_from_slice(&age.to_le_bytes());
}

fn image(crc: bool) -> Vec<u8> {
    let mut raw = vec![0_u8; 8 * NVE_BLOCK_SIZE];
    let items: [(&str, u32, &[u8]); 3] = [("BOARDID", 8, b"1234"), ("FBLOCK", 1, &[1]), ("USRKEY", 16, b"")];
    write_block(&mut raw, 2, 5, crc, &items);
    write_block(&mut raw, 3, 4, crc, &items);
    raw
}

#[test]
fn the_newest_runtime_block_is_the_current_one() {
    let img = NveImage::from_bytes(image(true)).unwrap();
    assert_eq!(img.current_source_index(), Some(2));
    let s = img.summary();
    assert_eq!(s.total_blocks, 8);
    assert_eq!(s.active_blocks, 2);
    assert_eq!(s.valid_items, 3);
    assert!(s.crc_supported);
    assert_eq!(s.crc_valid, 6);
    assert_eq!(s.items[0].name, "BOARDID");
    assert_eq!(s.items[0].value_text, "1234");
}

#[test]
fn write_entry_commits_a_new_generation_into_the_next_block() {
    let raw = image(true);
    let mut img = NveImage::from_bytes(raw.clone()).unwrap();
    let commit = img.write_entry(" fblock ", &[0]).unwrap();
    assert_eq!((commit.source_block, commit.committed_block, commit.age), (2, 3, 6));
    assert_eq!(commit.updated_items, 1);
    assert_eq!(commit.original_target(), &raw[3 * NVE_BLOCK_SIZE..4 * NVE_BLOCK_SIZE]);
    assert_eq!(img.current_source_index(), Some(3));
    let bytes = img.as_bytes();
    let item = &bytes[3 * NVE_BLOCK_SIZE + ITEM..3 * NVE_BLOCK_SIZE + 2 * ITEM];
    assert_eq!(item[24], 0);
    assert_eq!(u32::from_le_bytes(item[20..24].try_into().unwrap()), item_crc(item));
    let s = img.summary();
    assert_eq!(s.crc_valid, 6);
}

#[test]
fn commit_plan_writes_an_invalid_sector_first_and_checks_what_reads_back() {
    let raw = image(false);
    let mut img = NveImage::from_bytes(raw.clone()).unwrap();
    let commit = img.write_entry("BOARDID", b"9").unwrap();
    let plan = img.commit_plan(&commit).unwrap();
    let b = commit.committed_block;
    assert_eq!(plan.block(), b);
    assert_eq!(plan.block_offset(), (b * NVE_BLOCK_SIZE) as u64);
    assert_eq!(plan.sector_offset(), (b * NVE_BLOCK_SIZE + NVE_BLOCK_SIZE - NVE_COMMIT_SECTOR_SIZE) as u64);
    let committed = &img.as_bytes()[b * NVE_BLOCK_SIZE..(b + 1) * NVE_BLOCK_SIZE];
    assert_eq!([plan.data(), plan.commit_sector()].concat(), committed);
    let invalid = plan.invalid_sector();
    assert_eq!(&invalid[..NVE_COMMIT_SECTOR_SIZE - 4], &plan.commit_sector()[..NVE_COMMIT_SECTOR_SIZE - 4]);
    assert_eq!(&invalid[NVE_COMMIT_SECTOR_SIZE - 4..], &[0, 0, 0, 0]);

    assert_eq!(img.check_file_len(raw.len() as u64), Ok(()));
    assert_eq!(img.check_file_len(1), Err(NveError::SizeChanged));
    assert_eq!(img.check_managed(&commit, &raw), Ok(()));
    let mut changed = raw.clone();
    changed[5 * NVE_BLOCK_SIZE] = 1;
    assert_eq!(img.check_managed(&commit, &changed), Err(NveError::ManagedBlockChanged { block: 5 }));

    let staged = [plan.data(), plan.invalid_sector()].concat();
    assert_eq!(plan.check_staged(&staged), Ok(()));
    assert_eq!(plan.check_staged(committed), Err(NveError::StagedMismatch { block: b }));
    assert_eq!(plan.check_final(committed), Ok(()));
    assert_eq!(plan.check_final(&staged), Err(NveError::FinalMismatch { block: b }));
}

#[test]
fn edits_are_refused_with_the_reason() {
    let mut img = NveImage::from_bytes(image(false)).unwrap();
    assert_eq!(img.write_entry("NOPE", b"").unwrap_err(), NveError::NotFound);
    assert_eq!(img.write_entry("BOARDID", &[0; 9]).unwrap_err(), NveError::ValueTooLong { len: 9, max: 8 });
    assert_eq!(normalize_key("  ").unwrap_err(), NveError::EmptyKey);
    assert_eq!(normalize_key("ABCDEFGHI").unwrap_err(), NveError::KeyTooLong);
    assert_eq!(normalize_key("ключ").unwrap_err(), NveError::KeyNotAscii);
    assert_eq!(normalize_key(" usrkey ").unwrap(), "USRKEY");
    assert_eq!(NveImage::from_bytes(vec![0; 10]).unwrap_err(), NveError::TooSmall { len: 10 });
    assert_eq!(
        NveImage::from_bytes(vec![0; NVE_BLOCK_SIZE + 1]).unwrap_err(),
        NveError::SizeNotMultiple { len: NVE_BLOCK_SIZE + 1 }
    );
    assert_eq!(NveImage::from_bytes(vec![0; NVE_BLOCK_SIZE]).unwrap_err(), NveError::NoHeaders);
    let mut small = image(false);
    small.truncate(4 * NVE_BLOCK_SIZE);
    let mut img = NveImage::from_bytes(small).unwrap();
    assert_eq!(img.write_entry("BOARDID", b"").unwrap_err(), NveError::MissingManagedBlocks);
}

#[test]
fn values_are_encoded_by_format() {
    assert_eq!(encode_value("BOARDID", "0x12 34", "HEX").unwrap(), (vec![0x12, 0x34], "Hex".to_owned()));
    assert_eq!(encode_value("BOARDID", "abc", " text ").unwrap(), (b"abc".to_vec(), "Text".to_owned()));
    assert_eq!(encode_value("fblock", " 1 ", "ascii").unwrap(), (vec![1], "FBLOCK (locked)".to_owned()));
    assert_eq!(encode_value("FBLOCK", "00", "hex").unwrap(), (vec![0], "FBLOCK (unlocked)".to_owned()));
    assert_eq!(encode_value("FBLOCK", "2", "text").unwrap_err(), NveError::FblockValue);
    assert_eq!(encode_value("X", "0xZZ", "hex").unwrap_err(), NveError::InvalidHex);
    assert_eq!(encode_value("X", "a", "binary").unwrap_err(), NveError::UnsupportedFormat);
    let long = "ab".repeat(105);
    assert_eq!(encode_value("X", &long, "hex").unwrap_err(), NveError::InputTooLong { len: 105 });
}
