//! Frame decoding and compression settings.

use std::io::Write;

use root_vortex::rcompress::{
    compress, decompress, frames_supported, try_decompress, kind_of, root_compress_algo_level, Error, Kind,
    HEADER_SIZE,
};

/// A frame header with the given magic, compressed size and uncompressed size.
fn header(magic: &[u8; 2], srcsz: usize, tgtsz: usize) -> Vec<u8> {
    vec![
        magic[0],
        magic[1],
        8,
        (srcsz & 0xff) as u8,
        ((srcsz >> 8) & 0xff) as u8,
        ((srcsz >> 16) & 0xff) as u8,
        (tgtsz & 0xff) as u8,
        ((tgtsz >> 8) & 0xff) as u8,
        ((tgtsz >> 16) & 0xff) as u8,
    ]
}

fn zlib_frame(data: &[u8]) -> Vec<u8> {
    let mut enc = flate2::write::ZlibEncoder::new(Vec::new(), flate2::Compression::default());
    enc.write_all(data).unwrap();
    let payload = enc.finish().unwrap();
    let mut frame = header(b"ZL", payload.len(), data.len());
    frame.extend_from_slice(&payload);
    frame
}

fn xz_frame(data: &[u8]) -> Vec<u8> {
    let mut enc = xz2::write::XzEncoder::new(Vec::new(), 6);
    enc.write_all(data).unwrap();
    let payload = enc.finish().unwrap();
    let mut frame = header(b"XZ", payload.len(), data.len());
    frame.extend_from_slice(&payload);
    frame
}

fn lz4_frame(data: &[u8]) -> Vec<u8> {
    let block = lz4::block::compress(data, None, false).unwrap();
    // An 8-byte sub-header precedes the LZ4 block; it is counted in the size.
    let mut payload = vec![0u8; 8];
    payload.extend_from_slice(&block);
    let mut frame = header(b"L4", payload.len(), data.len());
    frame.extend_from_slice(&payload);
    frame
}

fn sample(n: usize) -> Vec<u8> {
    (0..n).map(|i| ((i * 7 + i / 13) % 251) as u8).collect()
}

#[test]
fn kind_of_reads_the_magic() {
    assert!(kind_of(b"ZL") == Kind::Zlib);
    assert!(kind_of(b"XZ") == Kind::Lzma);
    assert!(kind_of(b"L4") == Kind::LZ4);
    assert!(kind_of(b"ZS") == Kind::Zstd);
    assert!(kind_of(b"CS") == Kind::OldCompression);
    assert!(kind_of(b"ZX") == Kind::UndefinedCompression);
    assert!(kind_of(b"ZLxyz") == Kind::Zlib);
}

#[test]
fn algo_level_splits_the_setting() {
    assert!(root_compress_algo_level(0) == (Kind::UseGlobal, 0));
    assert!(root_compress_algo_level(1) == (Kind::UseGlobal, 1));
    assert!(root_compress_algo_level(101) == (Kind::Zlib, 1));
    assert!(root_compress_algo_level(207) == (Kind::Lzma, 7));
    assert!(root_compress_algo_level(300) == (Kind::OldCompression, 0));
    assert!(root_compress_algo_level(404) == (Kind::LZ4, 4));
    assert!(root_compress_algo_level(505) == (Kind::Zstd, 5));
    assert!(root_compress_algo_level(601) == (Kind::UndefinedCompression, 1));
    assert!(root_compress_algo_level(-150) == (Kind::UndefinedCompression, -50));
    assert!(root_compress_algo_level(-99) == (Kind::UseGlobal, -99));
    let (k, l) = root_compress_algo_level(i32::MIN);
    assert!(k == Kind::UndefinedCompression);
    assert_eq!(l, i32::MIN % 100);
}

#[test]
fn compress_setting_one_keeps_the_data() {
    let small = sample(10);
    match compress(small.clone(), 1) {
        Ok(out) => assert_eq!(out, small),
        Err(e) => panic!("unexpected error {:?}", e),
    }
    let big = sample(2000);
    match compress(big.clone(), 1) {
        Ok(out) => assert_eq!(out, big),
        Err(e) => panic!("unexpected error {:?}", e),
    }
}

#[test]
fn decompress_zlib_frame() {
    let data = sample(1000);
    let src = zlib_frame(&data);
    let mut dst = vec![0u8; data.len()];
    assert!(frames_supported(dst.len(), &src));
    let n = decompress(&mut dst, &src).unwrap();
    assert_eq!(n, data.len());
    assert_eq!(dst, data);
}

#[test]
fn decompress_xz_frame() {
    let data = sample(700);
    let src = xz_frame(&data);
    let mut dst = vec![0u8; data.len()];
    assert!(frames_supported(dst.len(), &src));
    let n = decompress(&mut dst, &src).unwrap();
    assert_eq!(n, data.len());
    assert_eq!(dst, data);
}

#[test]
fn decompress_lz4_frame() {
    let data = sample(900);
    let src = lz4_frame(&data);
    let mut dst = vec![0u8; data.len()];
    assert!(frames_supported(dst.len(), &src));
    let n = decompress(&mut dst, &src).unwrap();
    assert_eq!(n, data.len());
    assert_eq!(dst, data);
}

#[test]
fn decompress_chain_of_frames() {
    let a = sample(300);
    let b: Vec<u8> = sample(500).into_iter().rev().collect();
    let c = sample(64);
    let mut src = zlib_frame(&a);
    src.extend(lz4_frame(&b));
    src.extend(xz_frame(&c));
    let mut dst = vec![0xAAu8; a.len() + b.len() + c.len()];
    assert!(frames_supported(dst.len(), &src));
    let n = decompress(&mut dst, &src).unwrap();
    assert_eq!(n, dst.len());
    let mut expected = a.clone();
    expected.extend(&b);
    expected.extend(&c);
    assert_eq!(dst, expected);
}

#[test]
fn decompress_stops_when_the_buffer_is_full() {
    let a = sample(100);
    let mut src = zlib_frame(&a);
    // trailing bytes after the last frame needed are not read
    src.extend_from_slice(b"garbage that is never looked at");
    let mut dst = vec![0u8; a.len()];
    assert!(frames_supported(dst.len(), &src));
    assert_eq!(decompress(&mut dst, &src).unwrap(), 100);
    assert_eq!(dst, a);
}

#[test]
fn decompress_into_empty_buffer_reads_nothing() {
    let mut dst: Vec<u8> = Vec::new();
    assert!(frames_supported(0, b"XX"));
    assert_eq!(decompress(&mut dst, b"XX").unwrap(), 0);
}

#[test]
fn decompress_truncated_header_is_an_error() {
    let mut dst = vec![0u8; 10];
    let src = [b'Z', b'L', 8, 1, 0];
    assert!(frames_supported(dst.len(), &src));
    match decompress(&mut dst, &src) {
        Err(Error::Io(e)) => assert_eq!(e.kind(), std::io::ErrorKind::UnexpectedEof),
        Ok(n) => panic!("unexpected success {}", n),
    }
}

#[test]
fn decompress_missing_second_frame_is_an_error() {
    let a = sample(50);
    let src = zlib_frame(&a);
    let mut dst = vec![0u8; 80];
    assert!(frames_supported(dst.len(), &src));
    assert!(decompress(&mut dst, &src).is_err());
    assert_eq!(dst.len(), 80);
}

#[test]
fn decompress_corrupt_zlib_is_an_error() {
    let mut src = header(b"ZL", 6, 20);
    src.extend_from_slice(&[1, 2, 3, 4, 5, 6]);
    let mut dst = vec![0u8; 20];
    assert!(frames_supported(dst.len(), &src));
    assert!(matches!(decompress(&mut dst, &src), Err(Error::Io(_))));
}

#[test]
fn decompress_corrupt_xz_is_an_error() {
    let mut src = header(b"XZ", 6, 20);
    src.extend_from_slice(&[1, 2, 3, 4, 5, 6]);
    let mut dst = vec![0u8; 20];
    assert!(frames_supported(dst.len(), &src));
    assert!(decompress(&mut dst, &src).is_err());
}

#[test]
fn decompress_short_zlib_output_is_an_error() {
    // the stream decodes to 10 bytes but the header announces 20
    let data = sample(10);
    let mut enc = flate2::write::ZlibEncoder::new(Vec::new(), flate2::Compression::default());
    enc.write_all(&data).unwrap();
    let payload = enc.finish().unwrap();
    let mut src = header(b"ZL", payload.len(), 20);
    src.extend_from_slice(&payload);
    let mut dst = vec![0u8; 20];
    assert!(frames_supported(dst.len(), &src));
    assert!(decompress(&mut dst, &src).is_err());
}

#[test]
fn decompress_corrupt_lz4_is_an_error() {
    let mut src = header(b"L4", 12, 50);
    src.extend_from_slice(&[0, 0, 0, 0, 0, 0, 0, 0, 0xff, 0xff, 0xff, 0xff]);
    let mut dst = vec![0u8; 50];
    assert!(frames_supported(dst.len(), &src));
    assert!(decompress(&mut dst, &src).is_err());
}

#[test]
fn frames_supported_rejects_what_would_panic() {
    let data = sample(40);
    // unsupported algorithms
    let mut zs = header(b"ZS", 4, 40);
    zs.extend_from_slice(&[0, 0, 0, 0]);
    assert!(!frames_supported(40, &zs));
    let mut cs = header(b"CS", 4, 40);
    cs.extend_from_slice(&[0, 0, 0, 0]);
    assert!(!frames_supported(40, &cs));
    let mut other = header(b"QQ", 4, 40);
    other.extend_from_slice(&[0, 0, 0, 0]);
    assert!(!frames_supported(40, &other));
    // frame larger than the output buffer
    assert!(!frames_supported(39, &zlib_frame(&data)));
    // compressed size beyond the input
    let frame = zlib_frame(&data);
    assert!(!frames_supported(40, &frame[..frame.len() - 1]));
    // LZ4 frame without room for its sub-header
    let mut l4 = header(b"L4", 4, 40);
    l4.extend_from_slice(&[0, 0, 0, 0]);
    assert!(!frames_supported(40, &l4));
    // a bad second frame
    let mut two = zlib_frame(&data);
    two.extend(zs.clone());
    assert!(!frames_supported(80, &two));
    // but not past the end of the buffer
    assert!(frames_supported(40, &two));
    assert_eq!(HEADER_SIZE, 9);
}

#[test]
fn headers_after_a_failing_frame_are_never_read() {
    // a corrupt zlib frame, then a zstd header that decoding never reaches
    let mut src = header(b"ZL", 6, 20);
    src.extend_from_slice(&[1, 2, 3, 4, 5, 6]);
    let mut zs = header(b"ZS", 4, 20);
    zs.extend_from_slice(&[0, 0, 0, 0]);
    src.extend(zs);
    let mut dst = vec![0u8; 40];
    assert!(frames_supported(dst.len(), &src));
    assert!(matches!(decompress(&mut dst, &src), Err(Error::Io(_))));
    assert_eq!(dst, vec![0u8; 40]);
}

#[test]
fn frames_decoded_before_a_failure_stay_written() {
    let a = sample(30);
    let mut src = zlib_frame(&a);
    let mut bad = header(b"XZ", 6, 20);
    bad.extend_from_slice(&[1, 2, 3, 4, 5, 6]);
    src.extend(bad);
    let mut dst = vec![0x55u8; 50];
    assert!(frames_supported(dst.len(), &src));
    assert!(decompress(&mut dst, &src).is_err());
    assert_eq!(&dst[..30], &a[..]);
    assert_eq!(&dst[30..], &[0x55u8; 20][..]);
}

#[test]
fn try_decompress_refuses_what_would_panic() {
    let data = sample(40);
    let mut zs = header(b"ZS", 4, 40);
    zs.extend_from_slice(&[0, 0, 0, 0]);
    let mut dst = vec![7u8; 40];
    assert!(try_decompress(&mut dst, &zs).is_none());
    assert_eq!(dst, vec![7u8; 40]);

    let src = zlib_frame(&data);
    match try_decompress(&mut dst, &src) {
        Some(Ok(n)) => assert_eq!(n, 40),
        _ => panic!("expected success"),
    }
    assert_eq!(dst, data);

    let mut short = vec![0u8; 3];
    match try_decompress(&mut short, &[b'Z', b'L']) {
        Some(Err(Error::Io(e))) => assert_eq!(e.kind(), std::io::ErrorKind::UnexpectedEof),
        _ => panic!("expected an end-of-file error"),
    }
}
