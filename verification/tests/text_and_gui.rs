use haucet_tools::gui::{
    block_matches, component_type_label, detect, detect_dir, fallback_chain, first_translation, hex64,
    is_image_block, layout_label, layout_report_name, mode_string, nve_item_matches,
    partition_name_from_file_name,
    payload_growth_space, strip_ansi,
    suggested_actions, trimmed_non_empty, update_derived_path, validate_archive_path, ActionKind,
    ArchivePathError, DetectMessage, FileKind, FileProbe, Language, Page, Settings,
};
use haucet_tools::oeminfo::{OemInfoBlockSummary, OemInfoLayout, OemInfoPayloadKind, OemInfoRegion};
use haucet_tools::fs_util::split_file_name;
use haucet_tools::nvme::NveItemSummary;
use haucet_tools::update_bin::UpdateLayout;
use haucet_tools::text::{decimal, hex_string, split_words};

fn probe(length: u64, head: &[u8]) -> FileProbe {
    FileProbe {
        length,
        head: head.to_vec(),
        nve_header: false,
        at_512: Vec::new(),
        sec_image: false,
        at_1024: Vec::new(),
        tail: Vec::new(),
        oeminfo: false,
    }
}

#[test]
fn languages_round_trip_through_tags_and_indices() {
    for l in [Language::English, Language::Chinese, Language::Russian] {
        assert_eq!(Language::from_tag(l.tag()), Some(l));
        assert_eq!(Language::from_index(l.index()), l);
    }
    assert_eq!(Language::from_tag("fr"), None);
    assert_eq!(Language::from_index(9), Language::English);
    assert_eq!(Language::default(), Language::English);
}

#[test]
fn messages_fall_back_in_order() {
    assert_eq!(fallback_chain(Language::Russian), vec![Language::Russian, Language::English, Language::Chinese]);
    assert_eq!(fallback_chain(Language::English), vec![Language::English, Language::Chinese, Language::Russian]);
    let found = vec![None, Some("中文".to_owned()), Some("Русский".to_owned())];
    assert_eq!(first_translation(&found, "id"), "中文");
    assert_eq!(first_translation(&vec![None, None], "some-id"), "some-id");
}

#[test]
fn files_are_recognised_by_their_signatures() {
    assert_eq!(detect(&probe(4, b"PK"), "a".into()).message, DetectMessage::FileTooSmall);
    let zip = detect(&probe(100, b"PK\x03\x04rest"), "a.zip".into());
    assert_eq!((zip.kind, zip.message, zip.path.as_str()), (FileKind::ZipPackage, DetectMessage::Zip, "a.zip"));
    let mut head = vec![0_u8; 180];
    head[1] = 0x01;
    head[178] = 0;
    head[179] = 142;
    assert_eq!(
        detect(&probe(400, &head), "update.bin".into()).message,
        DetectMessage::UpdateBin { count: 2 }
    );
    assert_eq!(detect(&probe(200, b"070701abc"), "x".into()).kind, FileKind::Cpio);
    assert_eq!(detect(&probe(200, b"HARMONY!xx"), "x".into()).kind, FileKind::HarmonyFrame);
    let mut gpt = probe(1024, b"\0\0\0\0\0\0\0\0");
    gpt.at_512 = b"EFI PART".to_vec();
    assert_eq!(detect(&gpt, "x".into()).kind, FileKind::Gpt);
    let mut erofs = probe(4096, b"\0\0\0\0\0\0\0\0");
    erofs.at_1024 = vec![0xe2, 0xe1, 0xf5, 0xe0];
    assert_eq!(detect(&erofs, "x".into()).kind, FileKind::Erofs);
    let mut hvb = probe(4096, b"\0\0\0\0\0\0\0\0");
    hvb.tail = [b"HVB\0\0\0\0\0".to_vec(), vec![0; 96]].concat();
    assert_eq!(detect(&hvb, "x".into()).kind, FileKind::HvbWrapped);
    let mut nve = probe(0x40000, b"\0\0\0\0\0\0\0\0");
    nve.nve_header = true;
    assert_eq!(detect(&nve, "x".into()).kind, FileKind::Nve);
    assert_eq!(detect(&probe(4096, b"\0\0\0\0\0\0\0\0"), "x".into()).message, DetectMessage::Unknown);
    assert_eq!(DetectMessage::Cpio.id(), "detect-cpio");
}

#[test]
fn workspaces_are_recognised_by_their_files() {
    let erofs = detect_dir(&vec!["ramdisk.cpio".into(), "haucet-erofs.json".into()], "w".into());
    assert_eq!(erofs.kind, FileKind::ErofsWorkspace);
    let ramdisk = detect_dir(&vec!["ramdisk.cpio".into()], "w".into());
    assert_eq!(ramdisk.kind, FileKind::RamdiskWorkspace);
    assert_eq!(detect_dir(&vec![], "w".into()).message, DetectMessage::NoWorkspace);
}

#[test]
fn actions_are_offered_per_file_kind() {
    let erofs = suggested_actions(FileKind::Erofs);
    assert_eq!(erofs.len(), 2);
    assert_eq!((erofs[0].message, erofs[0].page, erofs[0].kind), ("action-unpack-erofs", Page::Images, ActionKind::ErofsInput));
    assert_eq!(erofs[1].kind, ActionKind::PartitionInput);
    let nve = suggested_actions(FileKind::Nve);
    assert_eq!((nve[0].page, nve[0].kind), (Page::Nvme, ActionKind::NvmeInput));
    assert_eq!(suggested_actions(FileKind::Unknown)[0].message, "action-try-partition");
}

#[test]
fn text_helpers_format_as_the_interface_shows() {
    assert_eq!(hex64(0), "0x0");
    assert_eq!(hex64(0xDEAD_beef), "0xDEADBEEF");
    assert_eq!(hex64(u64::MAX), "0xFFFFFFFFFFFFFFFF");
    assert_eq!(decimal(0), "0");
    assert_eq!(decimal(1234567890123), "1234567890123");
    assert_eq!(hex_string(&[0xab, 0x01], true), "AB01");
    assert_eq!(hex_string(&[0xab, 0x01], false), "ab01");
    assert_eq!(mode_string(0o040755), "drwxr-xr-x");
    assert_eq!(mode_string(0o100644), "-rw-r--r--");
    assert_eq!(mode_string(0o120777), "lrwxrwxrwx");
    assert_eq!(mode_string(0o000000), "?---------");
    assert_eq!(strip_ansi("\x1b[1;31mred\x1b[0m plain"), "red plain");
    assert_eq!(strip_ansi("a\x1bb"), "ab");
    assert_eq!(trimmed_non_empty("  x y  "), Some("x y".to_owned()));
    assert_eq!(trimmed_non_empty(" \t "), None);
    assert_eq!(split_words("  ls\t-r  /system \n"), vec!["ls", "-r", "/system"]);
}

#[test]
fn derived_paths_follow_until_edited() {
    let mut value = String::new();
    let mut previous = None;
    update_derived_path(&mut value, &mut previous, "a-out".into());
    assert_eq!(value, "a-out");
    update_derived_path(&mut value, &mut previous, "b-out".into());
    assert_eq!(value, "b-out");
    value = "mine".into();
    update_derived_path(&mut value, &mut previous, "c-out".into());
    assert_eq!(value, "mine");
}

#[test]
fn recent_files_keep_the_newest_eight() {
    let mut s = Settings::new();
    for i in 0..10 {
        s.remember_path(format!("f{i}"), Some("dir".into()), false, true);
    }
    s.remember_path("f3".into(), None, false, true);
    assert_eq!(s.recent.len(), 8);
    assert_eq!(s.recent[0], "f3");
    assert_eq!(s.recent[1], "f9");
    assert_eq!(s.last_dir.as_deref(), Some("dir"));
    s.remember_path("d".into(), None, true, false);
    assert_eq!(s.last_dir.as_deref(), Some("d"));
}

/// The lookups made along `chain` when only `holder` has the message.
fn lookups(chain: &[Language], holder: Language, text: &str) -> Vec<Option<String>> {
    chain.iter().map(|l| if *l == holder { Some(text.to_owned()) } else { None }).collect()
}

#[test]
fn missing_requested_message_falls_back_to_english() {
    let chain = fallback_chain(Language::Russian);
    let found = lookups(&chain, Language::English, "English fallback");
    assert_eq!(first_translation(&found, "fallback-test-english-only"), "English fallback");
}

#[test]
fn fallback_chain_continues_through_chinese_then_russian() {
    let chain = fallback_chain(Language::English);
    let found = lookups(&chain, Language::Chinese, "中文回退");
    assert_eq!(first_translation(&found, "fallback-test-chinese-only"), "中文回退");
    let found = lookups(&chain, Language::Russian, "Русский резерв");
    assert_eq!(first_translation(&found, "fallback-test-russian-only"), "Русский резерв");
}

#[test]
fn archive_paths_typed_in_are_trimmed_checked_and_normalised() {
    assert_eq!(validate_archive_path("  bin//init_early/ ").unwrap(), "bin/init_early");
    assert_eq!(validate_archive_path("   ").unwrap_err(), ArchivePathError::Empty);
    assert_eq!(validate_archive_path("bin\\init").unwrap_err(), ArchivePathError::Unsafe);
    assert_eq!(validate_archive_path("../etc").unwrap_err(), ArchivePathError::Unsafe);
    assert_eq!(validate_archive_path("/init").unwrap_err(), ArchivePathError::Unsafe);
    assert_eq!(ArchivePathError::Empty.id(), "archive-path-empty");
    assert_eq!(ArchivePathError::Unsafe.id(), "unsafe-cpio-path");
}

fn block_summary() -> OemInfoBlockSummary {
    OemInfoBlockSummary {
        offset: 0x4000,
        version: 1,
        id: 93,
        sub_id: 2,
        length: 0x1c,
        age: 7,
        header_size: 512,
        layout: OemInfoLayout::Standard,
        region: OemInfoRegion::A,
        active: true,
        payload_kind: OemInfoPayloadKind::Ascii,
        text_preview: Some("Hello World".to_owned()),
        tlv_parts: 0,
        tlv_description: None,
        image_version_hex: None,
        image_random_adjust: None,
        header_padding_byte: 0,
        block_padding_byte: 0,
    }
}

#[test]
fn block_filter_searches_ids_names_offsets_and_previews() {
    let b = block_summary();
    assert!(block_matches(&b, ""));
    assert!(block_matches(&b, "93:2"));
    assert!(block_matches(&b, "0x4000"));
    assert!(block_matches(&b, "0x1c 7"));
    assert!(block_matches(&b, "standard ascii active 活动"));
    assert!(block_matches(&b, "hello world"));
    assert!(!block_matches(&b, "Hello"));
    assert!(!block_matches(&b, "inactive"));
    assert!(!block_matches(&b, "image"));
    assert!(!is_image_block(&b));
    let mut img = block_summary();
    img.payload_kind = OemInfoPayloadKind::ImageGzip;
    img.active = false;
    assert!(is_image_block(&img));
    assert!(block_matches(&img, "image_gzip inactive 非活动"));
}

#[test]
fn page_labels_and_growth_space() {
    assert_eq!(payload_growth_space(0x10000, 0x800, 0x1000), 0x10000 - 0x800 - 0x1000);
    assert_eq!(payload_growth_space(0x1000, 0x800, 0x1000), 0);
    assert_eq!(payload_growth_space(0x100, 0x800, 0), 0);
    assert_eq!(component_type_label(0), "镜像");
    assert_eq!(component_type_label(1), "压缩包");
    assert_eq!(component_type_label(42), "类型 42");
    assert_eq!(layout_label(UpdateLayout::Auto), "自动检测");
    assert_eq!(layout_label(UpdateLayout::L2), "L2");
    assert_eq!(layout_report_name(UpdateLayout::Auto), "auto");
    assert_eq!(layout_report_name(UpdateLayout::L1), "L1");
}

#[test]
fn flash_targets_come_from_image_file_names() {
    assert_eq!(partition_name_from_file_name("boot.img").as_deref(), Some("boot"));
    assert_eq!(partition_name_from_file_name("xloader.BIN").as_deref(), Some("xloader"));
    assert_eq!(partition_name_from_file_name(" PTable ").as_deref(), Some("ptable"));
    assert_eq!(partition_name_from_file_name("vendor.tar"), None);
    assert_eq!(partition_name_from_file_name("system"), None);
    assert_eq!(partition_name_from_file_name(".img"), None);
    assert_eq!(partition_name_from_file_name(" .img"), None);
    assert_eq!(partition_name_from_file_name("super.ext4.img").as_deref(), Some("super.ext4"));
}

#[test]
fn file_names_split_at_the_last_dot() {
    assert_eq!(split_file_name("a.tar.gz"), ("a.tar".to_owned(), Some("gz".to_owned())));
    assert_eq!(split_file_name(".bashrc"), (".bashrc".to_owned(), None));
    assert_eq!(split_file_name("name"), ("name".to_owned(), None));
    assert_eq!(split_file_name(".."), ("..".to_owned(), None));
    assert_eq!(split_file_name("..."), ("..".to_owned(), Some(String::new())));
    assert_eq!(split_file_name("a."), ("a".to_owned(), Some(String::new())));
}

#[test]
fn page_headers_name_title_and_description() {
    assert_eq!(Page::Home.header(), None);
    assert_eq!(Page::Cpio.header(), Some(("page-cpio-title", "page-cpio-description")));
    assert_eq!(Page::Nvme.header(), Some(("page-nvme-editor-title", "page-nvme-description")));
    assert_eq!(Page::OemInfo.header(), Some(("page-oeminfo-title", "page-oeminfo-description")));
}

fn nve_item() -> NveItemSummary {
    NveItemSummary {
        block_index: 2,
        slot: 5,
        number: 317,
        name: "WVLOCK".to_owned(),
        property: 0,
        valid_size: 4,
        crc: 0,
        crc_supported: false,
        crc_valid: false,
        value_hex: "DEADBEEF".to_owned(),
        value_text: "Locked".to_owned(),
        kernel_protected: false,
    }
}

#[test]
fn nve_item_search_matches_name_number_and_value() {
    let item = nve_item();
    assert!(nve_item_matches(&item, "   "));
    assert!(nve_item_matches(&item, " wvlock "));
    assert!(nve_item_matches(&item, "WVL"));
    assert!(nve_item_matches(&item, "31"));
    assert!(nve_item_matches(&item, "locked"));
    assert!(nve_item_matches(&item, "beef"));
    assert!(!nve_item_matches(&item, "unlock"));
    assert!(!nve_item_matches(&item, "318"));
}
