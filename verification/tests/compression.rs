use haucet_tools::compress::{compress_vec, decompress_vec, CompressError};
use haucet_tools::header::{check_fmt, check_fmt_full, FileFormat};

fn sample() -> Vec<u8> {
    (0..50_000_u32).map(|i| (i * 7 % 251) as u8).collect()
}

#[test]
fn library_formats_round_trip() {
    let data = sample();
    for format in [FileFormat::GZIP, FileFormat::ZOPFLI, FileFormat::BZIP2, FileFormat::LZ4] {
        let packed = compress_vec(format, &data).unwrap();
        assert_ne!(packed, data);
        assert_eq!(decompress_vec(format, &packed).unwrap(), data, "{format:?}");
    }
    let gz = compress_vec(FileFormat::GZIP, &data).unwrap();
    assert_eq!(check_fmt(&gz), FileFormat::GZIP);
    let bz = compress_vec(FileFormat::BZIP2, &data).unwrap();
    assert_eq!(check_fmt(&bz), FileFormat::BZIP2);
    let lz = compress_vec(FileFormat::LZ4, &data).unwrap();
    assert_eq!(check_fmt(&lz), FileFormat::LZ4);
}

#[test]
fn legacy_lz4_streams_round_trip() {
    let data = sample();
    let legacy = compress_vec(FileFormat::LZ4_LEGACY, &data).unwrap();
    assert_eq!(&legacy[..4], &[0x02, 0x21, 0x4c, 0x18]);
    assert_eq!(decompress_vec(FileFormat::LZ4_LEGACY, &legacy).unwrap(), data);
    assert_eq!(check_fmt(&legacy), FileFormat::LZ4_LEGACY);
    let lg = compress_vec(FileFormat::LZ4_LG, &data).unwrap();
    assert_eq!(&lg[lg.len() - 4..], &(data.len() as u32).to_le_bytes());
    assert_eq!(decompress_vec(FileFormat::LZ4_LG, &lg).unwrap(), data);
    assert_eq!(check_fmt_full(&lg), FileFormat::LZ4_LG);
    assert_eq!(compress_vec(FileFormat::LZ4_LEGACY, &[]).unwrap(), Vec::<u8>::new());
    assert_eq!(decompress_vec(FileFormat::LZ4_LEGACY, &[]).unwrap(), Vec::<u8>::new());
}

#[test]
fn a_long_input_is_split_into_eight_mebibyte_blocks() {
    let data: Vec<u8> = (0..((8 << 20) + 1000)).map(|i: u32| (i % 13) as u8).collect();
    let legacy = compress_vec(FileFormat::LZ4_LEGACY, &data).unwrap();
    let first = u32::from_le_bytes(legacy[4..8].try_into().unwrap()) as usize;
    let second_at = 8 + first;
    let second = u32::from_le_bytes(legacy[second_at..second_at + 4].try_into().unwrap()) as usize;
    assert_eq!(second_at + 4 + second, legacy.len());
    assert_eq!(decompress_vec(FileFormat::LZ4_LEGACY, &legacy).unwrap(), data);
}

#[test]
fn broken_legacy_streams_are_refused() {
    let magic = [0x02_u8, 0x21, 0x4c, 0x18];
    let with = |rest: &[u8]| [&magic[..], rest].concat();
    assert_eq!(decompress_vec(FileFormat::LZ4_LEGACY, &with(&[0, 0, 0, 0])), Err(CompressError::EmptyBlock));
    assert_eq!(
        decompress_vec(FileFormat::LZ4_LEGACY, &with(&0x0100_0000_u32.to_le_bytes())),
        Err(CompressError::BlockTooLarge)
    );
    assert_eq!(decompress_vec(FileFormat::LZ4_LEGACY, &with(&[4, 0, 0, 0, 1])), Err(CompressError::UnexpectedEof));
    assert_eq!(decompress_vec(FileFormat::LZ4_LEGACY, &with(&[1, 0])), Err(CompressError::UnexpectedEof));
    assert_eq!(
        decompress_vec(FileFormat::LZ4_LEGACY, &with(&[2, 0, 0, 0, 0xf0, 0xff])),
        Err(CompressError::CorruptBlock)
    );
    assert_eq!(decompress_vec(FileFormat::LZ4_LG, &[1, 2]), Err(CompressError::MissingTrailer));
    let mut lg = compress_vec(FileFormat::LZ4_LG, b"hello hello").unwrap();
    let n = lg.len();
    lg[n - 4] ^= 1;
    assert_eq!(decompress_vec(FileFormat::LZ4_LG, &lg), Err(CompressError::SizeMismatch));
}

#[test]
fn unsupported_and_non_compression_formats_are_refused() {
    assert_eq!(compress_vec(FileFormat::XZ, b"x"), Err(CompressError::Unsupported));
    assert_eq!(compress_vec(FileFormat::LZMA, b"x"), Err(CompressError::Unsupported));
    assert_eq!(decompress_vec(FileFormat::XZ, b"x"), Err(CompressError::Unsupported));
    assert_eq!(compress_vec(FileFormat::RAW, b"x"), Err(CompressError::NotCompression));
    assert_eq!(decompress_vec(FileFormat::UNKNOWN, b"x"), Err(CompressError::NotCompression));
    assert_eq!(decompress_vec(FileFormat::GZIP, b"not gzip"), Err(CompressError::Backend));
    assert_eq!(decompress_vec(FileFormat::LZMA, b"not lzma"), Err(CompressError::Backend));
}

#[test]
fn format_names_parse_back() {
    for f in [FileFormat::GZIP, FileFormat::LZ4_LG, FileFormat::RAW] {
        assert_eq!(FileFormat::from_name(f.as_str()), Some(f));
    }
    assert_eq!(FileFormat::from_name("zip"), None);
    assert_eq!(FileFormat::from_name("unknown"), None);
    assert!(FileFormat::LZMA.is_compressed());
    assert!(!FileFormat::RAW.is_compressed());
}

#[test]
fn written_streams_are_recognised_by_their_first_bytes() {
    let data = sample();
    let zopfli = compress_vec(FileFormat::ZOPFLI, &data).unwrap();
    assert_eq!(check_fmt(&zopfli), FileFormat::GZIP);
    let lg = compress_vec(FileFormat::LZ4_LG, &data).unwrap();
    assert_eq!(check_fmt(&lg), FileFormat::LZ4_LEGACY);
    let empty_gz = compress_vec(FileFormat::GZIP, &[]).unwrap();
    assert_eq!(check_fmt(&empty_gz), FileFormat::GZIP);
    assert_eq!(decompress_vec(FileFormat::GZIP, &empty_gz).unwrap(), Vec::<u8>::new());
}
