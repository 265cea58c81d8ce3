use haucet_tools::cpio::{
    check_add_path, norm_path, parse_cpio_mode, AddSource, Cpio, CpioEntry, CpioError, EntryKind,
};

fn sample() -> Cpio {
    let mut cpio = Cpio::new();
    cpio.mkdir(0o755, "system");
    cpio.mkdir(0o755, "system/bin");
    cpio.add_buf(0o755, "system/bin/sh", b"#!sh");
    cpio.add_buf(0o644, "/init.rc//", b"on boot");
    cpio.ln("/system/bin/sh", "bin");
    cpio
}

fn names(cpio: &Cpio) -> Vec<String> {
    (0..cpio.len()).map(|i| cpio.name_at(i).clone()).collect()
}

#[test]
fn entries_are_kept_in_name_order_under_normalised_paths() {
    let cpio = sample();
    assert_eq!(names(&cpio), ["bin", "init.rc", "system", "system/bin", "system/bin/sh"]);
    assert!(cpio.has_entry("//system/bin/"));
    assert!(!cpio.has_entry("system/bi"));
    assert_eq!(norm_path("//a///b/"), "a/b");
    let link = cpio.entry_at(0);
    assert_eq!(link.kind(), EntryKind::Symlink);
    assert_eq!(link.data, b"system/bin/sh");
}

#[test]
fn dump_then_load_gives_the_same_archive() {
    let cpio = sample();
    let mut bytes = Vec::new();
    cpio.dump_to(&mut bytes);
    assert_eq!(bytes.len() % 4, 0);
    assert!(bytes.starts_with(b"070701000493e0"));
    let again = Cpio::load_from_data(&bytes).unwrap();
    assert_eq!(names(&again), names(&cpio));
    for i in 0..cpio.len() {
        let (a, b) = (cpio.entry_at(i), again.entry_at(i));
        assert_eq!((a.mode, a.uid, a.gid, &a.data), (b.mode, b.uid, b.gid, &b.data));
    }
    let mut twice = Vec::new();
    again.dump_to(&mut twice);
    assert_eq!(twice, bytes);
}

#[test]
fn ls_lists_direct_children_unless_recursive() {
    let cpio = sample();
    let top = cpio.ls("/", false);
    assert_eq!(top.len(), 3);
    assert_eq!(top[1], "-rw-r--r--\t0\t0\t7\t0:0\tinit.rc");
    assert_eq!(cpio.ls("system", false).len(), 2);
    assert_eq!(cpio.ls("system", true).len(), 3);
    assert_eq!(cpio.entry_at(2).describe(), "drwxr-xr-x\t0\t0\t0\t0:0");
}

#[test]
fn rm_mv_and_add_edit_the_archive() {
    let mut cpio = sample();
    assert_eq!(cpio.rm("system", false), vec!["system".to_owned()]);
    assert_eq!(cpio.rm("system", true), vec!["system/bin".to_owned(), "system/bin/sh".to_owned()]);
    assert_eq!(cpio.mv("init.rc", "etc/init.rc"), Ok(()));
    assert_eq!(cpio.mv("missing", "x"), Err(CpioError::NotFound));
    assert_eq!(names(&cpio), ["bin", "etc/init.rc"]);
    assert_eq!(cpio.add_entry(0o600, "etc/", AddSource::File(vec![1])), Err(CpioError::TrailingSlash));
    assert_eq!(cpio.add_entry(0o4755, "etc/su", AddSource::File(vec![1])), Ok(()));
    assert_eq!(cpio.add_entry(0o777, "etc/d", AddSource::Directory), Ok(()));
    let su = (0..cpio.len()).find(|&i| cpio.name_at(i) == "etc/su").unwrap();
    assert_eq!(cpio.entry_at(su).mode, 0o104755);
    assert_eq!(check_add_path("a/"), Err(CpioError::TrailingSlash));
}

#[test]
fn modes_parse_as_octal() {
    assert_eq!(parse_cpio_mode("755"), Ok(0o755));
    assert_eq!(parse_cpio_mode("+0644"), Ok(0o644));
    assert_eq!(parse_cpio_mode("37777777777"), Ok(u32::MAX));
    assert_eq!(parse_cpio_mode("40000000000"), Err(CpioError::InvalidMode));
    assert_eq!(parse_cpio_mode("8"), Err(CpioError::InvalidMode));
    assert_eq!(parse_cpio_mode(""), Err(CpioError::InvalidMode));
}

#[test]
fn extract_pairs_every_entry_or_one() {
    let cpio = sample();
    let all = cpio.extract(&vec![]).unwrap();
    assert_eq!(all.len(), 5);
    assert_eq!(all[0], ("bin".to_owned(), "bin".to_owned()));
    let one = cpio.extract(&vec!["init.rc".to_owned(), "out.rc".to_owned()]).unwrap();
    assert_eq!(one, vec![("init.rc".to_owned(), "out.rc".to_owned())]);
    assert_eq!(cpio.extract(&vec!["x".to_owned()]), Err(CpioError::BadArguments));
    assert_eq!(
        cpio.extract(&vec!["missing".to_owned(), "out".to_owned()]),
        Err(CpioError::NotFound)
    );
    let normalised = cpio.extract(&vec!["/init.rc/".to_owned(), "out.rc".to_owned()]).unwrap();
    assert_eq!(normalised, vec![("/init.rc/".to_owned(), "out.rc".to_owned())]);
}

#[test]
fn malformed_archives_are_refused() {
    let mut bad = b"0707XX".to_vec();
    bad.resize(120, b'0');
    assert_eq!(Cpio::load_from_data(&bad).err(), Some(CpioError::InvalidMagic));
    let mut header = b"070701".to_vec();
    header.resize(110, b'G');
    assert_eq!(Cpio::load_from_data(&header).err(), Some(CpioError::BadHeader));
    let mut non_utf8 = b"070701".to_vec();
    non_utf8.extend(b"0".repeat(88));
    non_utf8.extend(b"00000002");
    non_utf8.extend(b"00000000");
    non_utf8.extend([0xff, 0x00, 0, 0]);
    assert_eq!(Cpio::load_from_data(&non_utf8).err(), Some(CpioError::NonUtf8Name));
    assert_eq!(Cpio::load_checked(b"").map(|r| r.is_ok()), Some(true));
}

#[test]
fn xz_compression_of_entries_is_unsupported() {
    let mut entry = CpioEntry { mode: 0o100644, uid: 0, gid: 0, rdevmajor: 0, rdevminor: 0, data: vec![1, 2] };
    assert!(!entry.compress());
    assert_eq!(entry.data, vec![1, 2]);
    assert!(!entry.decompress());
}

#[test]
fn stats_count_entries_and_directories() {
    let cpio = sample();
    let (entries, dirs) = cpio.stats();
    assert_eq!(entries, cpio.len());
    assert_eq!(dirs, 2);
    assert_eq!(Cpio::new().stats(), (0, 0));
}

#[test]
fn normalised_paths_have_no_empty_components() {
    assert_eq!(norm_path("//a///b/"), "a/b");
    assert_eq!(norm_path("./a"), "./a");
    assert_eq!(norm_path(&norm_path("/x//y/")), norm_path("/x//y/"));
    assert_eq!(norm_path("///"), "");
}
