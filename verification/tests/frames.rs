use haucet_tools::harmony::{align_up, FrameError, HarmonyHeader, HvbFrame};
use haucet_tools::hvb::{check_wrapper_ranges, HvbCert, HvbError, HvbFooter, HvbWrapper, WrapperError};
use haucet_tools::partition::{frame_summary, hash_algo_name, summarize_cert, verity_type_name};
use haucet_tools::rvt::{algorithm, parse_rvt, rvt_segment, sha256_hex, RvtError};

fn cert(name: &[u8], original_len: u64) -> Vec<u8> {
    let mut c = vec![0_u8; 256];
    c[..4].copy_from_slice(b"HVB\0");
    c[4..8].copy_from_slice(&1_u32.to_le_bytes());
    c[8..12].copy_from_slice(&2_u32.to_le_bytes());
    c[48..56].copy_from_slice(&original_len.to_le_bytes());
    c[56..64].copy_from_slice(&original_len.to_le_bytes());
    c[64..64 + name.len()].copy_from_slice(name);
    c[144..148].copy_from_slice(&2_u32.to_le_bytes());
    c[148..152].copy_from_slice(&3_u32.to_le_bytes());
    c[160..168].copy_from_slice(&32_u64.to_le_bytes());
    c
}

fn footer_bytes(f: &HvbFooter) -> Vec<u8> {
    f.to_bytes().to_vec()
}

fn frame(payload: &[u8]) -> Vec<u8> {
    let image_size = (0x800 + payload.len()).div_ceil(0x800) * 0x800;
    let cert_offset = image_size.div_ceil(0x1000) * 0x1000;
    let total = 0x4000.max((cert_offset + 256 + 104).div_ceil(0x1000) * 0x1000);
    let mut out = vec![0_u8; total];
    out[..8].copy_from_slice(b"HARMONY!");
    out[8..16].copy_from_slice(&0x800_u64.to_be_bytes());
    out[0x10..0x14].copy_from_slice(&(payload.len() as u32).to_le_bytes());
    out[0x18..0x20].copy_from_slice(&5_u64.to_be_bytes());
    out[0x40..0x43].copy_from_slice(b"eng");
    out[0x800..0x800 + payload.len()].copy_from_slice(payload);
    out[cert_offset..cert_offset + 256].copy_from_slice(&cert(b"boot", 0x1000));
    let f = HvbFooter {
        cert_offset: cert_offset as u64,
        cert_size: 256,
        image_size: image_size as u64,
        partition_size: total as u64,
    };
    out[total - 104..].copy_from_slice(&footer_bytes(&f));
    out
}

#[test]
fn footers_read_back_what_is_written() {
    let f = HvbFooter { cert_offset: 0x3000, cert_size: 0x200, image_size: 0x2800, partition_size: 0x8000 };
    let bytes = f.to_bytes();
    assert_eq!(&bytes[..8], b"HVB\0\0\0\0\0");
    assert_eq!(HvbFooter::parse(&bytes), Ok(f));
    assert_eq!(f.serialize(), bytes);
    assert_eq!(HvbFooter::parse(&bytes[..100]), Err(HvbError::NotFooter));
}

#[test]
fn certificates_are_parsed_field_by_field() {
    let c = HvbCert::parse(&cert(b"vendor", 77)).unwrap();
    assert_eq!(c.partition_name, "vendor");
    assert_eq!((c.version_major, c.version_minor, c.image_original_len), (1, 2, 77));
    assert_eq!((c.verity_type, c.hash_algo, c.salt_size), (2, 3, 32));
    assert_eq!(HvbCert::parse(&[0; 100]).err().map(|e| e), Some(HvbError::CertTooSmall));
    assert_eq!(HvbCert::parse(&[0; 300]).err(), Some(HvbError::NotCert));
    let s = summarize_cert(&c);
    assert_eq!((s.partition_name.as_str(), s.hash_algo, s.digest_size), ("vendor", 3, 0));
    assert_eq!(verity_type_name(1), "hash");
    assert_eq!(verity_type_name(2), "hashtree");
    assert_eq!(verity_type_name(9), "?");
    assert_eq!(hash_algo_name(3), "SM3");
    assert_eq!(hash_algo_name(0), "SHA256");
}

#[test]
fn a_frame_is_read_and_a_rebuild_is_read_back() {
    let payload = vec![0x5a_u8; 3000];
    let bytes = frame(&payload);
    let mut f = HvbFrame::from_bytes(&bytes).unwrap();
    assert_eq!((f.harmony.hdr_size, f.harmony.image_size, f.harmony.flags), (0x800, 3000, 5));
    assert_eq!(f.harmony.buildvariant, "eng");
    assert_eq!(f.extract_image_payload(), &payload[..]);
    assert_eq!(f.serialize().unwrap(), bytes);
    let summary = frame_summary(&f);
    assert_eq!(summary.cert.partition_name, "boot");
    let bigger = vec![0x33_u8; 0x3000];
    f.rebuild(&bigger).unwrap();
    assert_eq!(f.extract_image_payload(), &bigger[..]);
    assert_eq!(f.footer.image_size, 0x3800);
    assert_eq!(f.footer.cert_offset, 0x4000);
    assert_eq!(f.footer.partition_size, 0x5000);
    let written = f.serialize().unwrap();
    let again = HvbFrame::from_bytes(&written).unwrap();
    assert_eq!(again.extract_image_payload(), &bigger[..]);
    assert_eq!(again.cert.raw, f.cert.raw);
}

#[test]
fn frame_checks_fail_in_order() {
    assert_eq!(HvbFrame::from_bytes(&[0; 50]).err(), Some(FrameError::FileTooSmall));
    let mut bytes = frame(b"abc");
    bytes[0] = b'X';
    assert_eq!(HvbFrame::from_bytes(&bytes).err(), Some(FrameError::NotHarmony));
    let mut bytes = frame(b"abc");
    let n = bytes.len();
    bytes[n - 104] = 0;
    assert_eq!(HvbFrame::from_bytes(&bytes).err(), Some(FrameError::Footer(HvbError::NotFooter)));
    let mut bytes = frame(b"abc");
    bytes.extend([0; 0x1000]);
    assert_eq!(HvbFrame::from_bytes(&bytes).err(), Some(FrameError::Footer(HvbError::NotFooter)));
    let mut head = vec![0_u8; 0x20];
    head[..8].copy_from_slice(b"HARMONY!");
    head[8..16].copy_from_slice(&0x1_0000_0000_u64.to_be_bytes());
    assert_eq!(HarmonyHeader::parse(&head).err(), Some(FrameError::HeaderSizeTooLarge));
    assert_eq!(HarmonyHeader::parse(&head[..16]).err(), Some(FrameError::HeaderTooSmall));
    assert_eq!(align_up(0x801, 0x800), Some(0x1000));
    assert_eq!(align_up(u64::MAX, 0x800), None);
}

#[test]
fn wrapper_ranges_and_repack_plans() {
    let f = HvbFooter { cert_offset: 0x1000, cert_size: 0x100, image_size: 0x800, partition_size: 0x2000 };
    assert_eq!(check_wrapper_ranges(&f, 0x2000), Ok(()));
    assert_eq!(check_wrapper_ranges(&f, 0x3000), Err(WrapperError::InvalidRanges));
    let w = HvbWrapper { footer: f, certificate: cert(b"odm", 1) };
    assert_eq!(w.partition_name().as_deref(), Some("odm"));
    let (at, nf) = w.plan_repack(0x900).unwrap();
    assert_eq!(at, 0x2000 - 104);
    assert_eq!(nf.image_size, 0x900);
    assert_eq!(nf.cert_offset, 0x1000);
    assert_eq!(
        w.plan_repack(0x1001),
        Err(WrapperError::RawImageTooLarge { raw_size: 0x1001, available: 0x1000 })
    );
}

fn rvt(names: &[&str], key_len: usize) -> Vec<u8> {
    let mut d = vec![0_u8; 72];
    d[..4].copy_from_slice(b"rot\0");
    d[4..8].copy_from_slice(&(names.len() as u32).to_le_bytes());
    d[8..12].copy_from_slice(&1_u32.to_le_bytes());
    for name in names {
        let mut desc = vec![0_u8; 80];
        desc[..name.len()].copy_from_slice(name.as_bytes());
        desc[64..72].copy_from_slice(&0x1234_u64.to_le_bytes());
        desc[72..80].copy_from_slice(&(key_len as u64).to_le_bytes());
        d.extend(desc);
        d.extend(vec![0xee_u8; key_len]);
    }
    d
}

#[test]
fn rvt_tables_list_their_descriptors() {
    let data = rvt(&["boot", "system"], 64);
    let t = parse_rvt(&data).unwrap();
    assert_eq!(t.verity_num, 2);
    assert_eq!(t.descriptors.len(), 2);
    assert_eq!(t.descriptors[1].name, "system");
    assert_eq!(t.descriptors[0].pubkey_start, 72 + 80);
    assert_eq!(t.descriptors[0].backup_start, None);
    assert_eq!(t.total_size, data.len());
    assert_eq!(algorithm(t.descriptors[0].pubkey_len), "SM2_SM3");
    assert_eq!(algorithm(528), "SHA256_RSA2048");
    assert_eq!(parse_rvt(&data[..10]).err().map(|_| ()), Some(()));
    assert!(matches!(parse_rvt(&data[..10]), Err(RvtError::TooSmall)));
    assert!(matches!(parse_rvt(&data[..200]), Err(RvtError::KeyOutside { index: 0 })));
    let mut bad = data.clone();
    bad[0] = b'R';
    assert!(matches!(parse_rvt(&bad), Err(RvtError::BadMagic)));
    let seg = rvt_segment(&data).unwrap();
    assert!(seg.footer.is_none());
    assert_eq!(seg.image_size, data.len());
}

#[test]
fn sha256_hex_matches_the_standard_vector() {
    assert_eq!(
        sha256_hex(b"abc"),
        "ba7816bf8f01cfea414140de5dae2223b00361a396177a9cb410ff61f20015ad"
    );
}
