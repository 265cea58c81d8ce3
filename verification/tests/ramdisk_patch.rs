use haucet_tools::compress::{compress_vec, decompress_vec};
use haucet_tools::cpio::{AddSource, Cpio};
use haucet_tools::harmony::{FrameError, HvbFrame};
use haucet_tools::header::{check_fmt, FileFormat};
use haucet_tools::ramdisk::{
    archive_bytes, load_archive, parse_cpio_command, patch_archive, patch_image, ramdisk_status,
    rebuild_image, repack_format, unpack_payload, CommandError, CpioCommand, RamdiskError,
};

const HDR: usize = 0x800;

fn align(x: usize, a: usize) -> usize {
    x.div_ceil(a) * a
}

/// A HARMONY! frame: header, payload, certificate and footer.
fn frame_bytes(payload: &[u8], original_len: u64) -> Vec<u8> {
    let image_size = align(HDR + payload.len(), 0x800);
    let cert_offset = align(image_size, 0x1000);
    let cert_size = 256;
    let total = align(cert_offset + cert_size + 104, 0x1000);
    let mut out = vec![0_u8; total];
    out[..8].copy_from_slice(b"HARMONY!");
    out[8..16].copy_from_slice(&(HDR as u64).to_be_bytes());
    out[0x10..0x14].copy_from_slice(&(payload.len() as u32).to_le_bytes());
    out[0x40..0x44].copy_from_slice(b"user");
    out[HDR..HDR + payload.len()].copy_from_slice(payload);
    let cert = &mut out[cert_offset..cert_offset + cert_size];
    cert[..4].copy_from_slice(b"HVB\0");
    cert[4..8].copy_from_slice(&1_u32.to_le_bytes());
    cert[48..56].copy_from_slice(&original_len.to_le_bytes());
    cert[56..64].copy_from_slice(&(payload.len() as u64).to_le_bytes());
    cert[64..71].copy_from_slice(b"ramdisk");
    cert[144..148].copy_from_slice(&1_u32.to_le_bytes());
    let footer = &mut out[total - 104..];
    footer[..8].copy_from_slice(b"HVB\0\0\0\0\0");
    footer[8..16].copy_from_slice(&(cert_offset as u64).to_le_bytes());
    footer[16..24].copy_from_slice(&(cert_size as u64).to_le_bytes());
    footer[24..32].copy_from_slice(&(image_size as u64).to_le_bytes());
    footer[32..40].copy_from_slice(&(total as u64).to_le_bytes());
    out
}

fn stock_archive() -> Vec<u8> {
    let mut cpio = Cpio::new();
    cpio.mkdir(0o755, "bin");
    cpio.add_buf(0o755, "bin/init_early", b"stock init");
    cpio.add_buf(0o755, "init", b"init");
    cpio.add_buf(0o644, "lib64/libclang_rt.asan.so", &[7_u8; 64]);
    let mut out = Vec::new();
    cpio.dump_to(&mut out);
    out
}

fn entry_data(cpio: &Cpio, name: &str) -> Option<(u32, Vec<u8>)> {
    (0..cpio.len())
        .find(|&i| cpio.name_at(i) == name)
        .map(|i| (cpio.entry_at(i).mode, cpio.entry_at(i).data.clone()))
}

#[test]
fn patch_moves_stock_init_aside_and_installs_the_new_one() {
    let mut cpio = load_archive(&stock_archive()).unwrap();
    assert_eq!(ramdisk_status(&cpio), 0);
    let dropped = patch_archive(&mut cpio, AddSource::File(b"new init".to_vec())).unwrap();
    assert_eq!(dropped, vec!["lib64/libclang_rt.asan.so".to_owned()]);
    assert_eq!(entry_data(&cpio, ".backup/init_early").unwrap().1, b"stock init");
    assert_eq!(entry_data(&cpio, "bin/init_early").unwrap(), (0o100750, b"new init".to_vec()));
    assert_eq!(entry_data(&cpio, ".backup").unwrap().0, 0o040750);
    assert!(!cpio.has_entry("lib64/libclang_rt.asan.so"));
    assert_eq!(ramdisk_status(&cpio), 1);
    let before = cpio.len();
    assert_eq!(
        patch_archive(&mut cpio, AddSource::File(Vec::new())),
        Err(RamdiskError::AlreadyPatched)
    );
    assert_eq!(cpio.len(), before);
}

#[test]
fn patch_refuses_an_archive_without_init_early() {
    let mut cpio = Cpio::new();
    cpio.add_buf(0o755, "init", b"init");
    assert_eq!(
        patch_archive(&mut cpio, AddSource::File(Vec::new())),
        Err(RamdiskError::UnsupportedLayout)
    );
    assert_eq!(cpio.len(), 1);
    assert_eq!(ramdisk_status(&Cpio::new()), 2);
}

#[test]
fn patch_image_round_trips_through_gzip_and_keeps_the_certificate() {
    let payload = compress_vec(FileFormat::GZIP, &stock_archive()).unwrap();
    let bytes = frame_bytes(&payload, 0x100000);
    let mut frame = HvbFrame::from_bytes(&bytes).unwrap();
    let cert_before = frame.cert.raw.clone();
    let report = patch_image(&mut frame, AddSource::File(b"new init".to_vec())).unwrap();
    assert!(report.fits());
    assert_eq!(report.image_original_len, 0x100000);
    assert_eq!(report.image_size, frame.footer.image_size);
    assert_eq!(frame.cert.raw, cert_before);
    let new_payload = frame.extract_image_payload().to_vec();
    assert_eq!(check_fmt(&new_payload), FileFormat::GZIP);
    let cpio = load_archive(&decompress_vec(FileFormat::GZIP, &new_payload).unwrap()).unwrap();
    assert_eq!(entry_data(&cpio, "bin/init_early").unwrap().1, b"new init");
    let written = frame.serialize().unwrap();
    let reread = HvbFrame::from_bytes(&written).unwrap();
    assert_eq!(reread.extract_image_payload(), &new_payload[..]);
}

#[test]
fn patch_report_flags_an_image_over_the_certificate_limit() {
    let payload = compress_vec(FileFormat::GZIP, &stock_archive()).unwrap();
    let bytes = frame_bytes(&payload, 16);
    let mut frame = HvbFrame::from_bytes(&bytes).unwrap();
    let report = patch_image(&mut frame, AddSource::File(b"new init".to_vec())).unwrap();
    assert!(!report.fits());
}

#[test]
fn unpack_gives_payload_archive_and_format() {
    let archive = stock_archive();
    let payload = compress_vec(FileFormat::GZIP, &archive).unwrap();
    let frame = HvbFrame::from_bytes(&frame_bytes(&payload, 0x100000)).unwrap();
    let (p, a, f) = unpack_payload(&frame).unwrap();
    assert_eq!(p, payload);
    assert_eq!(a, archive);
    assert_eq!(f, FileFormat::GZIP);
    let raw = HvbFrame::from_bytes(&frame_bytes(&archive, 0x100000)).unwrap();
    assert_eq!(unpack_payload(&raw).unwrap().2, FileFormat::RAW);
    let empty = HvbFrame::from_bytes(&frame_bytes(&[], 0)).unwrap();
    assert_eq!(unpack_payload(&empty).unwrap_err(), RamdiskError::EmptyPayload);
}

#[test]
fn repack_uses_the_original_compression_or_gzip() {
    assert_eq!(repack_format(&[0x1f, 0x8b, 0x08, 0]), FileFormat::GZIP);
    assert_eq!(repack_format(b"BZh91AY"), FileFormat::BZIP2);
    assert_eq!(repack_format(b"0707010000"), FileFormat::GZIP);
    let archive = stock_archive();
    let bz = compress_vec(FileFormat::BZIP2, &archive).unwrap();
    let mut frame = HvbFrame::from_bytes(&frame_bytes(&bz, 0x100000)).unwrap();
    rebuild_image(&mut frame, &bz, &archive).unwrap();
    assert_eq!(check_fmt(frame.extract_image_payload()), FileFormat::BZIP2);
    assert_eq!(archive_bytes(frame.extract_image_payload()).unwrap(), archive);
}

#[test]
fn broken_archives_are_reported() {
    let mut not_newc = b"0707XX".to_vec();
    not_newc.resize(120, b'0');
    assert_eq!(
        load_archive(&not_newc).err(),
        Some(RamdiskError::Archive(haucet_tools::cpio::CpioError::InvalidMagic))
    );
    let bad = vec![0x1f, 0x8b, 0x08, 0, 1, 2, 3, 4];
    assert!(matches!(archive_bytes(&bad), Err(RamdiskError::Compress(_))));
    assert_eq!(
        HvbFrame::from_bytes(&[0_u8; 200]).err(),
        Some(FrameError::NotHarmony)
    );
}

#[test]
fn cpio_script_lines_parse_into_commands() {
    assert_eq!(parse_cpio_command("# comment"), Ok(None));
    assert_eq!(parse_cpio_command("   "), Ok(None));
    assert_eq!(parse_cpio_command("test"), Ok(Some(CpioCommand::Test)));
    assert_eq!(
        parse_cpio_command("exists  init"),
        Ok(Some(CpioCommand::Exists("init".to_owned())))
    );
    assert_eq!(
        parse_cpio_command("ls"),
        Ok(Some(CpioCommand::Ls { path: "/".to_owned(), recursive: false }))
    );
    assert_eq!(
        parse_cpio_command("ls -r system"),
        Ok(Some(CpioCommand::Ls { path: "system".to_owned(), recursive: true }))
    );
    assert_eq!(
        parse_cpio_command("rm x -r"),
        Ok(Some(CpioCommand::Rm { path: "x".to_owned(), recursive: true }))
    );
    assert_eq!(
        parse_cpio_command("mkdir 0750 .backup"),
        Ok(Some(CpioCommand::Mkdir { mode: 0o750, path: ".backup".to_owned() }))
    );
    assert_eq!(
        parse_cpio_command("add +644 etc/x host.txt"),
        Ok(Some(CpioCommand::Add {
            mode: 0o644,
            path: "etc/x".to_owned(),
            file: "host.txt".to_owned()
        }))
    );
    assert_eq!(
        parse_cpio_command("ln a b"),
        Ok(Some(CpioCommand::Ln { src: "a".to_owned(), dst: "b".to_owned() }))
    );
    assert_eq!(
        parse_cpio_command("mv a b"),
        Ok(Some(CpioCommand::Mv { src: "a".to_owned(), dst: "b".to_owned() }))
    );
    assert_eq!(parse_cpio_command("extract"), Ok(Some(CpioCommand::Extract(None))));
    assert_eq!(
        parse_cpio_command("extract a out"),
        Ok(Some(CpioCommand::Extract(Some(("a".to_owned(), "out".to_owned())))))
    );
    assert_eq!(
        parse_cpio_command("frobnicate x"),
        Ok(Some(CpioCommand::Unknown("frobnicate".to_owned())))
    );
}

#[test]
fn cpio_script_errors_name_the_command() {
    assert_eq!(parse_cpio_command("exists"), Err(CommandError::ExistsNeedsEntry));
    assert_eq!(parse_cpio_command("rm -r"), Err(CommandError::RmNeedsEntry));
    assert_eq!(parse_cpio_command("mkdir 755"), Err(CommandError::MkdirNeedsArguments));
    assert_eq!(parse_cpio_command("mkdir 78 x"), Err(CommandError::MkdirBadMode));
    assert_eq!(parse_cpio_command("ln a"), Err(CommandError::LnNeedsArguments));
    assert_eq!(parse_cpio_command("mv a"), Err(CommandError::MvNeedsArguments));
    assert_eq!(parse_cpio_command("add 644 a"), Err(CommandError::AddNeedsArguments));
    assert_eq!(parse_cpio_command("add 9 a b"), Err(CommandError::AddBadMode));
    assert_eq!(parse_cpio_command("extract a"), Err(CommandError::ExtractArguments));
}

#[test]
fn repacked_images_unpack_to_the_archive_in_each_format() {
    let archive = stock_archive();
    for format in [FileFormat::GZIP, FileFormat::BZIP2, FileFormat::LZ4, FileFormat::LZ4_LEGACY] {
        let original = compress_vec(format, &archive).unwrap();
        assert_eq!(check_fmt(&original), format);
        let mut frame = HvbFrame::from_bytes(&frame_bytes(&original, 0x100000)).unwrap();
        let cert = frame.cert.raw.clone();
        let mut edited = archive.clone();
        edited.extend_from_slice(&[0_u8; 4]);
        rebuild_image(&mut frame, &original, &edited).unwrap();
        let (_, a, f) = unpack_payload(&frame).unwrap();
        assert_eq!(a, edited);
        assert_eq!(f, format);
        assert_eq!(frame.cert.raw, cert);
    }
}

#[test]
fn a_read_frame_serialises_back_to_its_file() {
    let payload = compress_vec(FileFormat::GZIP, &stock_archive()).unwrap();
    let bytes = frame_bytes(&payload, 0x100000);
    let frame = HvbFrame::from_bytes(&bytes).unwrap();
    assert_eq!(frame.serialize().unwrap(), bytes);
}
