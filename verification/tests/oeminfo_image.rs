use haucet_tools::oeminfo::{
    find_magic_offsets, parse_tlv, read_embedded_image, read_embedded_image_with_limit,
    sanitize_preview, uniform_byte, EntropyJudgment, OemInfoError, OemInfoImage, OemInfoLayout,
    OemInfoPayloadKind,
};

fn header(raw: &mut [u8], off: usize, id: u32, payload: &[u8]) {
    raw[off..off + 8].copy_from_slice(b"OEM_INFO");
    raw[off + 8..off + 12].copy_from_slice(&1_u32.to_le_bytes());
    raw[off + 12..off + 16].copy_from_slice(&id.to_le_bytes());
    raw[off + 16..off + 20].copy_from_slice(&0_u32.to_le_bytes());
    raw[off + 20..off + 24].copy_from_slice(&(payload.len() as u32).to_le_bytes());
    raw[off + 24..off + 28].copy_from_slice(&7_u32.to_le_bytes());
    raw[off + 0x200..off + 0x200 + payload.len()].copy_from_slice(payload);
}

fn image_payload() -> Vec<u8> {
    let mut p = vec![0_u8; 40];
    p[0..4].copy_from_slice(&0x1a_u32.to_le_bytes());
    p[4..8].copy_from_slice(&40_u32.to_le_bytes());
    p[12..24].copy_from_slice(&[0xab; 12]);
    p[24..28].copy_from_slice(&[0, 0, 0x42, 0x4d]);
    for (i, b) in p[28..].iter_mut().enumerate() {
        *b = i as u8 + 1;
    }
    p
}

fn sample() -> Vec<u8> {
    let mut raw = vec![0xff_u8; 0x4000];
    header(&mut raw, 0, 0x11, b"hello world");
    header(&mut raw, 0x1000, 0x22, &image_payload());
    raw
}

fn load(raw: Vec<u8>) -> OemInfoImage {
    let mut img = OemInfoImage::from_bytes(raw).unwrap();
    let asked = img.entropy_requests();
    let judgments = asked
        .iter()
        .map(|_| EntropyJudgment { data_high: false, signature_high: false })
        .collect();
    img.classify_payloads(&judgments);
    img
}

#[test]
fn blocks_are_found_at_their_magic() {
    let raw = sample();
    assert_eq!(find_magic_offsets(&raw), vec![0, 0x1000]);
    let img = load(raw);
    let s = img.summary();
    assert_eq!(s.file_size, 0x4000);
    assert_eq!(s.total_blocks, 2);
    assert_eq!(s.candidate_headers, 2);
    assert_eq!(s.standard_blocks, 2);
    let first = &s.blocks[0];
    assert_eq!((first.id, first.length, first.age, first.header_size), (0x11, 11, 7, 0x200));
    assert_eq!(first.layout, OemInfoLayout::Standard);
    assert_eq!(first.header_padding_byte, 0xff);
    assert_eq!(first.payload_kind, OemInfoPayloadKind::Ascii);
    let second = &s.blocks[1];
    assert_eq!(second.payload_kind, OemInfoPayloadKind::ImageRaw);
    assert_eq!(second.image_version_hex.as_deref(), Some("ABABABABABABABABABABABAB"));
    assert_eq!(second.image_random_adjust, Some(0));
}

#[test]
fn embedded_images_are_read_back_after_checking_the_block() {
    let raw = sample();
    let img = load(raw.clone());
    let s = img.summary();
    let image = read_embedded_image(&raw, &s.blocks[1]).unwrap();
    assert_eq!(image.kind, OemInfoPayloadKind::ImageRaw);
    assert_eq!(image.data, image_payload()[0x1a..].to_vec());
    assert_eq!(read_embedded_image(&raw, &s.blocks[0]).unwrap_err(), OemInfoError::NotAnImage);
    assert_eq!(
        read_embedded_image_with_limit(&raw, &s.blocks[1], 4).unwrap_err(),
        OemInfoError::ImageTooLarge
    );
    let mut changed = raw.clone();
    changed[0x1000 + 24] = 9;
    assert_eq!(read_embedded_image(&changed, &s.blocks[1]).unwrap_err(), OemInfoError::FieldChanged);
    let mut retyped = raw.clone();
    retyped[0x1000 + 0x200 + 26] = 0x1f;
    retyped[0x1000 + 0x200 + 27] = 0x8b;
    assert_eq!(read_embedded_image(&retyped, &s.blocks[1]).unwrap_err(), OemInfoError::KindChanged);
    assert_eq!(read_embedded_image(&raw[..0x1100], &s.blocks[1]).unwrap_err(), OemInfoError::HeaderTruncated);
    assert_eq!(read_embedded_image(&raw[..0x1210], &s.blocks[1]).unwrap_err(), OemInfoError::PayloadTruncated);
}

#[test]
fn images_without_blocks_are_refused() {
    assert_eq!(OemInfoImage::from_bytes(vec![0; 16]).err(), Some(OemInfoError::TooSmall));
    assert_eq!(OemInfoImage::from_bytes(vec![0; 0x100]).err(), Some(OemInfoError::NoHeaders));
}

#[test]
fn byte_helpers_read_padding_tlvs_and_previews() {
    assert_eq!(uniform_byte(&[5, 5, 5], 0, 3), Some(5));
    assert_eq!(uniform_byte(&[5, 6], 0, 2), None);
    assert_eq!(uniform_byte(&[5], 1, 1), None);
    assert_eq!(sanitize_preview(b"a\tb\x01c", 0, 5), "a\tb\\x01c");
    assert_eq!(sanitize_preview(&[b'x'; 120], 0, 120), format!("{}...", "x".repeat(100)));
    assert!(parse_tlv(&[]).is_none());
    assert_eq!(parse_tlv(b"3\0abc2\0de"), Some(vec![(2, 5), (7, 9)]));
    assert!(parse_tlv(b"9\0ab").is_none());
}

#[test]
fn summary_counts_add_up_and_blocks_do_not_overlap() {
    let img = load(sample());
    let s = img.summary();
    assert_eq!(s.active_blocks + s.inactive_blocks, s.total_blocks);
    assert_eq!(s.region_a_blocks + s.region_b_blocks + s.unknown_region_blocks, s.total_blocks);
    assert_eq!(s.standard_blocks + s.compact_blocks + s.reused_blocks, s.total_blocks);
    assert_eq!(s.candidate_headers, s.total_blocks + s.discarded_headers);
    for w in s.blocks.windows(2) {
        assert!(w[0].offset + w[0].header_size as u64 + w[0].length as u64 <= w[1].offset);
    }
}
