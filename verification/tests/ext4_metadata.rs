use haucet_tools::ext4::{
    escape_file_contexts_path, file_contexts_line, file_contexts_text, fs_config_line, fs_config_text,
    is_ext4_magic, Ext4Node,
};

fn node(path: &str, mode: u32, caps: Option<u64>, ctx: Option<&str>) -> Ext4Node {
    Ext4Node {
        path: path.to_owned(),
        uid: 0,
        gid: 2000,
        mode,
        capabilities: caps,
        selinux_context: ctx.map(str::to_owned),
    }
}

#[test]
fn fs_config_lines_carry_owner_mode_and_capabilities() {
    assert_eq!(fs_config_line(&node("system/bin/sh", 0o100755, None, None)), "system/bin/sh 0 2000 0755\n");
    assert_eq!(fs_config_line(&node("system", 0o040751, None, None)), "system 0 2000 0751\n");
    assert_eq!(
        fs_config_line(&node("system/bin/run-as", 0o104750, Some(0xc0), None)),
        "system/bin/run-as 0 2000 0750 capabilities=0xC0\n"
    );
    let nodes = vec![node("a", 0o644, None, Some("u:object_r:a:s0")), node("b.c", 0o600, None, None)];
    assert_eq!(fs_config_text(&nodes), "a 0 2000 0644\nb.c 0 2000 0600\n");
}

#[test]
fn file_contexts_escape_regex_characters() {
    assert_eq!(escape_file_contexts_path("/system/lib/libc++.so"), "/system/lib/libc\\+\\+\\.so");
    assert_eq!(escape_file_contexts_path("a[1]*"), "a\\[1\\]\\*");
    assert_eq!(file_contexts_line(&node("x", 0, None, None)), None);
    let nodes = vec![
        node("/a.b", 0o644, None, Some("u:object_r:a:s0")),
        node("/c", 0o644, None, None),
        node("/d", 0o644, None, Some("u:object_r:d:s0")),
    ];
    assert_eq!(file_contexts_text(&nodes), "/a\\.b u:object_r:a:s0\n/d u:object_r:d:s0\n");
}

#[test]
fn ext4_is_recognised_by_its_superblock_magic() {
    assert!(is_ext4_magic(4096, &[0x53, 0xef]));
    assert!(!is_ext4_magic(1081, &[0x53, 0xef]));
    assert!(!is_ext4_magic(4096, &[0xef, 0x53]));
}
