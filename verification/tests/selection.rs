use haucet_tools::gui::{selected_names, selected_partitions, Language, FALLBACK_ORDER};
use haucet_tools::package::{
    harmony_ramdisk_header_size, is_erofs_magic, is_ramdisk_payload, select_partitions, ImageProbe, SelectError,
};
use haucet_tools::update_bin::Component;

fn component(name: &str) -> Component {
    Component {
        name: name.to_owned(),
        output_name: format!("{name}.img"),
        component_type: 0,
        size: 1,
        data_offset: 0,
    }
}

fn no_probe() -> ImageProbe {
    ImageProbe { is_erofs: false, is_harmony_ramdisk: false }
}

#[test]
fn fallback_order_starts_with_english() {
    assert_eq!(
        FALLBACK_ORDER,
        [Language::English, Language::Chinese, Language::Russian]
    );
}

#[test]
fn selects_named_partitions_once() {
    let components = vec![component("system"), component("vendor")];
    let selected = select_partitions(
        &components,
        &vec!["vendor".to_owned(), "vendor.img".to_owned()],
        false,
        &vec![no_probe(), no_probe()],
    )
    .unwrap();
    assert_eq!(selected.len(), 1);
    assert_eq!(selected[0].name, "vendor");
}

#[test]
fn named_selection_keeps_request_order() {
    let components = vec![component("system"), component("vendor"), component("odm")];
    let selected = select_partitions(
        &components,
        &vec!["odm".to_owned(), "system.img".to_owned()],
        false,
        &vec![no_probe(), no_probe(), no_probe()],
    )
    .unwrap();
    let names: Vec<&str> = selected.iter().map(|c| c.name.as_str()).collect();
    assert_eq!(names, vec!["odm", "system"]);
}

#[test]
fn unknown_partition_is_refused() {
    let components = vec![component("system")];
    let result = select_partitions(
        &components,
        &vec!["system".to_owned(), "vendor".to_owned()],
        false,
        &vec![no_probe()],
    );
    assert_eq!(result, Err(SelectError::NotPresent { index: 1 }));
}

#[test]
fn unsafe_partition_name_is_refused() {
    let components = vec![component("system")];
    let result = select_partitions(
        &components,
        &vec!["../system".to_owned()],
        false,
        &vec![no_probe()],
    );
    assert_eq!(result, Err(SelectError::UnsafeName { index: 0 }));
}

#[test]
fn automatic_selection_follows_probes() {
    let mut boot = component("boot");
    boot.component_type = 1;
    let components = vec![component("system"), component("ramdisk"), component("vendor"), boot];
    let probes = vec![
        ImageProbe { is_erofs: true, is_harmony_ramdisk: false },
        ImageProbe { is_erofs: false, is_harmony_ramdisk: true },
        no_probe(),
        ImageProbe { is_erofs: true, is_harmony_ramdisk: false },
    ];
    let any: Vec<String> = select_partitions(&components, &vec![], false, &probes)
        .unwrap()
        .into_iter()
        .map(|c| c.name)
        .collect();
    assert_eq!(any, vec!["system".to_owned(), "ramdisk".to_owned()]);
    let erofs: Vec<String> = select_partitions(&components, &vec!["vendor".to_owned()], true, &probes)
        .unwrap()
        .into_iter()
        .map(|c| c.name)
        .collect();
    assert_eq!(erofs, vec!["system".to_owned()]);
}

/// What the start of an image in memory shows, read the way the program
/// reads a file.
fn probe_bytes(image: &[u8]) -> ImageProbe {
    let size = image.len() as u64;
    let is_erofs = size >= 1028 && is_erofs_magic(size, &image[1024..1028]);
    let mut is_harmony_ramdisk = false;
    if size >= 32 {
        if let Some(header_size) = harmony_ramdisk_header_size(&image[..16], size) {
            let at = header_size as usize;
            is_harmony_ramdisk = is_ramdisk_payload(&image[at..at + 16]);
        }
    }
    ImageProbe { is_erofs, is_harmony_ramdisk }
}

#[test]
fn auto_selects_erofs_and_harmony_ramdisk() {
    let mut erofs_image = vec![0_u8; 1028];
    erofs_image[1024..1028].copy_from_slice(&[0xe2, 0xe1, 0xf5, 0xe0]);

    let mut ramdisk_image = vec![0_u8; 0x810];
    ramdisk_image[..8].copy_from_slice(b"HARMONY!");
    ramdisk_image[8..16].copy_from_slice(&0x800_u64.to_be_bytes());
    ramdisk_image[0x800..0x803].copy_from_slice(&[0x1f, 0x8b, 0x08]);

    let boot_image = [0_u8; 64];

    let components = vec![component("system"), component("ramdisk"), component("boot")];
    let probes = vec![probe_bytes(&erofs_image), probe_bytes(&ramdisk_image), probe_bytes(&boot_image)];
    let selected = select_partitions(&components, &vec![], false, &probes).unwrap();
    let names: Vec<&str> = selected.iter().map(|item| item.name.as_str()).collect();
    assert_eq!(names, ["system", "ramdisk"]);
}

#[test]
fn erofs_magic_needs_the_whole_superblock_field() {
    assert!(is_erofs_magic(1028, &[0xe2, 0xe1, 0xf5, 0xe0]));
    assert!(!is_erofs_magic(1027, &[0xe2, 0xe1, 0xf5, 0xe0]));
    assert!(!is_erofs_magic(4096, &[0xe2, 0xe1, 0xf5, 0xe1]));
}

#[test]
fn pages_select_checked_or_typed_partitions() {
    let components = vec![component("system"), component("vendor"), component("boot")];
    let checked = vec![true, false, true];
    assert_eq!(selected_names(&components, &checked), vec!["system".to_owned(), "boot".to_owned()]);
    assert_eq!(selected_names(&components, &vec![false, true]), vec!["vendor".to_owned()]);
    assert_eq!(
        selected_partitions(" odm, ,product  vendor", &components, &checked),
        vec!["odm".to_owned(), "product".to_owned(), "vendor".to_owned()]
    );
    assert_eq!(selected_partitions(" , ", &components, &checked), vec!["system".to_owned(), "boot".to_owned()]);
    assert_eq!(selected_partitions("", &vec![], &vec![]), Vec::<String>::new());
}
