//! Compressed blocks of ROOT files.
//!
//! A ROOT record is stored as a chain of frames. Each frame starts with a
//! nine byte header: two magic bytes naming the algorithm, one method byte,
//! then the compressed size and the uncompressed size, each as a 24-bit
//! little-endian integer.

use flate2::read::ZlibDecoder;
use std::io::Read;
use vstd::prelude::*;
use xz2::read::XzDecoder;

verus! {

/// `std::io::Error`, carried through unopened: the decoders' failures are
/// handed on as they come.
#[verifier::external_type_specification]
#[verifier::external_body]
pub struct ExIoError(std::io::Error);

/// Failures while decoding compressed frames.
#[derive(Debug)]
pub enum Error {
    Io(std::io::Error),
}

pub type Result<T> = core::result::Result<T, Error>;

impl From<std::io::Error> for Error {
    fn from(e: std::io::Error) -> (r: Self) {
        Error::Io(e)
    }
}

impl vstd::std_specs::convert::FromSpecImpl<std::io::Error> for Error {
    open spec fn obeys_from_spec() -> bool {
        true
    }

    open spec fn from_spec(e: std::io::Error) -> Self {
        Error::Io(e)
    }
}

/// Size of a frame header: magic (2), method (1), compressed size (3),
/// uncompressed size (3).
pub const HEADER_SIZE: usize = 9;

/// Largest size a frame can announce: the sizes are stored on three bytes.
pub const K_MAX_COMPRESSED_BLOCK_SIZE: usize = 0xffffff;

/// Compression algorithms known to ROOT.
#[derive(PartialEq, Eq, Structural, Debug, Clone, Copy)]
pub enum Kind {
    Inherit,
    UseGlobal,
    Zlib,
    Lzma,
    OldCompression,
    LZ4,
    Zstd,
    UndefinedCompression,
}

/// The algorithm named by the two magic bytes of a frame header.
pub open spec fn kind_of_magic(b0: u8, b1: u8) -> Kind {
    if b0 == 0x5a && b1 == 0x4c {
        Kind::Zlib  // "ZL"
    } else if b0 == 0x58 && b1 == 0x5a {
        Kind::Lzma  // "XZ"
    } else if b0 == 0x4c && b1 == 0x34 {
        Kind::LZ4  // "L4"
    } else if b0 == 0x5a && b1 == 0x53 {
        Kind::Zstd  // "ZS"
    } else if b0 == 0x43 && b1 == 0x53 {
        Kind::OldCompression  // "CS"
    } else {
        Kind::UndefinedCompression
    }
}

/// Returns the kind of compression algorithm named by the first two bytes of `buf`.
pub fn kind_of(buf: &[u8]) -> (k: Kind)
    requires
        buf@.len() >= 2,
    ensures
        k == kind_of_magic(buf@[0], buf@[1]),
{
    let b0 = buf[0];
    let b1 = buf[1];
    if b0 == 0x5a && b1 == 0x4c {
        Kind::Zlib  // "ZL"
    } else if b0 == 0x58 && b1 == 0x5a {
        Kind::Lzma  // "XZ"
    } else if b0 == 0x4c && b1 == 0x34 {
        Kind::LZ4  // "L4"
    } else if b0 == 0x5a && b1 == 0x53 {
        Kind::Zstd  // "ZS"
    } else if b0 == 0x43 && b1 == 0x53 {
        Kind::OldCompression  // "CS"
    } else {
        Kind::UndefinedCompression
    }
}

/// Quotient of `a` by 100, rounded toward zero (Rust's integer division).
pub open spec fn div100_trunc(a: int) -> int {
    if a >= 0 {
        a / 100
    } else {
        -((-a) / 100)
    }
}

/// The algorithm that a ROOT compression setting selects by its hundreds.
pub open spec fn kind_of_code(code: int) -> Kind {
    if code == 0 {
        Kind::UseGlobal
    } else if code == 1 {
        Kind::Zlib
    } else if code == 2 {
        Kind::Lzma
    } else if code == 3 {
        Kind::OldCompression
    } else if code == 4 {
        Kind::LZ4
    } else if code == 5 {
        Kind::Zstd
    } else {
        Kind::UndefinedCompression
    }
}

/// Splits a ROOT compression setting `algo = 100 * algorithm + level` into the
/// algorithm and the level.
pub fn root_compress_algo_level(algo: i32) -> (r: (Kind, i32))
    ensures
        r.0 == kind_of_code(div100_trunc(algo as int)),
        r.1 == algo - 100 * div100_trunc(algo as int),
        100 * div100_trunc(algo as int) + r.1 == algo,
        -100 < r.1 < 100,
        algo >= 0 ==> r.1 >= 0,
        algo <= 0 ==> r.1 <= 0,
{
    let wide: i64 = algo as i64;
    let kind: i64 = if wide >= 0 {
        wide / 100
    } else {
        -((-wide) / 100)
    };
    let level: i64 = wide - 100 * kind;
    let kind = if kind == 0 {
        Kind::UseGlobal
    } else if kind == 1 {
        Kind::Zlib
    } else if kind == 2 {
        Kind::Lzma
    } else if kind == 3 {
        Kind::OldCompression
    } else if kind == 4 {
        Kind::LZ4
    } else if kind == 5 {
        Kind::Zstd
    } else {
        Kind::UndefinedCompression
    };
    (kind, level as i32)
}

/// Compresses `src` with the ROOT compression setting `compression`.
///
/// Only the setting 1 is accepted, and it leaves the data uncompressed.
pub fn compress(src: Vec<u8>, compression: i32) -> (r: Result<Vec<u8>>)
    requires
        compression == 1,
    ensures
        r matches Ok(out) && out@ == src@,
{
    let (kind, level) = root_compress_algo_level(compression);
    if kind == Kind::UseGlobal || level == 0 || src.len() < 512 {
        // no compression
        return Ok(src);
    }
    vstd::pervasive::unreached()
}

/// The integer stored little-endian on three bytes.
pub open spec fn le24(b0: u8, b1: u8, b2: u8) -> int {
    b0 + 256 * b1 + 65536 * b2
}

/// The sizes a frame header announces never exceed
/// `K_MAX_COMPRESSED_BLOCK_SIZE`: they are stored on three bytes.
pub proof fn lemma_frame_sizes_bounded(src: Seq<u8>)
    requires
        src.len() >= HEADER_SIZE,
    ensures
        0 <= frame_src_size(src) <= K_MAX_COMPRESSED_BLOCK_SIZE,
        0 <= frame_tgt_size(src) <= K_MAX_COMPRESSED_BLOCK_SIZE,
{
}

/// Algorithm of the frame that starts `src`.
pub open spec fn frame_kind(src: Seq<u8>) -> Kind {
    kind_of_magic(src[0], src[1])
}

/// Compressed size announced by the frame header that starts `src`.
pub open spec fn frame_src_size(src: Seq<u8>) -> int {
    le24(src[3], src[4], src[5])
}

/// Uncompressed size announced by the frame header that starts `src`.
pub open spec fn frame_tgt_size(src: Seq<u8>) -> int {
    le24(src[6], src[7], src[8])
}

/// The first `len` bytes that a zlib decoder reads out of `data`, or `None`
/// where it fails before that.
pub uninterp spec fn zlib_read_exact(data: Seq<u8>, len: nat) -> Option<Seq<u8>>;

/// The first `len` bytes that an xz decoder reads out of `data`, or `None`
/// where it fails before that.
pub uninterp spec fn xz_read_exact(data: Seq<u8>, len: nat) -> Option<Seq<u8>>;

/// The LZ4 block decoder on `data`, with announced size `size`, writing into
/// `buffer`: the number of bytes decoded and the buffer afterwards, or `None`
/// where it fails.
pub uninterp spec fn lz4_decompress_to_buffer(data: Seq<u8>, size: i32, buffer: Seq<u8>) -> Option<
    (usize, Seq<u8>),
>;

/// Reads a frame header, as `Read::read_exact` on a byte slice does: it fails
/// exactly when fewer than nine bytes are left.
#[verifier::external_body]
fn read_frame_header(src: &[u8]) -> (r: core::result::Result<[u8; HEADER_SIZE], std::io::Error>)
    ensures
        r is Ok <==> src@.len() >= HEADER_SIZE,
        r matches Ok(h) ==> h@ == src@.take(HEADER_SIZE as int),
{
    let mut hdr = [0u8;HEADER_SIZE];
    let mut rest = src;
    rest.read_exact(&mut hdr)?;
    Ok(hdr)
}

/// `flate2::read::ZlibDecoder` over `data`, read with `read_exact` into a
/// buffer of `len` bytes. The outcome is named by `zlib_read_exact`; on
/// success the buffer is full, as `read_exact` promises.
#[verifier::external_body]
fn zlib_decode(data: &[u8], len: usize) -> (r: core::result::Result<Vec<u8>, std::io::Error>)
    ensures
        r is Ok <==> zlib_read_exact(data@, len as nat) is Some,
        r matches Ok(out) ==> out@ == zlib_read_exact(data@, len as nat).unwrap() && out@.len()
            == len,
{
    let mut out = vec![0u8; len];
    ZlibDecoder::new(data).read_exact(&mut out)?;
    Ok(out)
}

/// `xz2::read::XzDecoder` over `data`, read with `read_exact` into a buffer
/// of `len` bytes. The outcome is named by `xz_read_exact`; on success the
/// buffer is full, as `read_exact` promises.
#[verifier::external_body]
fn xz_decode(data: &[u8], len: usize) -> (r: core::result::Result<Vec<u8>, std::io::Error>)
    ensures
        r is Ok <==> xz_read_exact(data@, len as nat) is Some,
        r matches Ok(out) ==> out@ == xz_read_exact(data@, len as nat).unwrap() && out@.len()
            == len,
{
    let mut out = vec![0u8; len];
    XzDecoder::new(data).read_exact(&mut out)?;
    Ok(out)
}

/// `lz4::block::decompress_to_buffer(data, Some(size), buffer)`. The outcome
/// is named by `lz4_decompress_to_buffer`; the buffer keeps its length, and
/// the count of decoded bytes is at most `size` (LZ4 never decodes more than
/// the capacity it is given). What the decoder leaves in the buffer past the
/// decoded bytes is not stated.
#[verifier::external_body]
fn lz4_decode(data: &[u8], size: i32, buffer: &mut Vec<u8>) -> (r: core::result::Result<
    usize,
    std::io::Error,
>)
    ensures
        final(buffer)@.len() == old(buffer)@.len(),
        r matches Ok(n) ==> lz4_decompress_to_buffer(data@, size, old(buffer)@) == Some(
            (n, final(buffer)@),
        ) && n <= size,
        r is Err ==> lz4_decompress_to_buffer(data@, size, old(buffer)@) is None,
{
    lz4::block::decompress_to_buffer(data, Some(size), buffer.as_mut_slice())
}

/// `dst` with `bytes` written from position `at` on.
pub open spec fn splice(dst: Seq<u8>, at: int, bytes: Seq<u8>) -> Seq<u8> {
    dst.take(at) + bytes + dst.skip(at + bytes.len())
}

/// What decoding one frame of algorithm `k` writes at the start of its
/// output block of `len` bytes, given its compressed bytes `payload`.
/// LZ4 writes only the bytes it decoded.
pub open spec fn block_output(k: Kind, payload: Seq<u8>, len: nat) -> Option<Seq<u8>> {
    if k == Kind::Zlib {
        zlib_read_exact(payload, len)
    } else if k == Kind::Lzma {
        xz_read_exact(payload, len)
    } else if k == Kind::LZ4 {
        match lz4_decompress_to_buffer(
            payload.skip(8),
            len as i32,
            Seq::new(len, |i: int| 0u8),
        ) {
            Some(res) => Some(res.1.take(res.0 as int)),
            None => None,
        }
    } else {
        None
    }
}

/// Whether the header of the frame that starts `src` can be acted on while
/// `room` output bytes are left: its algorithm is zlib, xz or LZ4 (the
/// latter with its 8-byte sub-header), its output fits in the room left, and
/// its compressed bytes lie inside `src`.
pub open spec fn frame_fits(src: Seq<u8>, room: int) -> bool {
    let k = frame_kind(src);
    let s = frame_src_size(src);
    &&& frame_tgt_size(src) <= room
    &&& s <= src.len() - HEADER_SIZE
    &&& (k == Kind::Zlib || k == Kind::Lzma || (k == Kind::LZ4 && 8 <= s))
}

/// What decoding the frame that starts `src` writes at the start of its
/// output block, or `None` where the frame cannot be decoded.
pub open spec fn frame_output(src: Seq<u8>) -> Option<Seq<u8>> {
    block_output(
        frame_kind(src),
        src.subrange(HEADER_SIZE as int, HEADER_SIZE + frame_src_size(src)),
        frame_tgt_size(src) as nat,
    )
}

/// Whether every frame header that decoding `src` reads, while `room` bytes
/// of output are still to be filled, can be acted on (`frame_fits`).
/// Decoding reads the next header only after the frame before it decoded;
/// where a header is missing or a frame fails, decoding stops with an error
/// and the rest of `src` is never looked at.
pub open spec fn frames_ok(src: Seq<u8>, room: int) -> bool
    decreases src.len(),
{
    if room <= 0 || src.len() < HEADER_SIZE {
        true
    } else if frame_fits(src, room) {
        match frame_output(src) {
            Some(_) => frames_ok(
                src.skip(HEADER_SIZE + frame_src_size(src)),
                room - frame_tgt_size(src),
            ),
            None => true,
        }
    } else {
        false
    }
}

/// Decoding the frames of `src` into `dst` from position `beg` on: whether
/// it fills `dst`, and the buffer where it stops. Each decoded frame is
/// written at its place; where a header cannot be read or a frame cannot be
/// decoded, decoding stops and the frames decoded before stay written.
pub open spec fn decode_frames(src: Seq<u8>, dst: Seq<u8>, beg: int) -> (bool, Seq<u8>)
    decreases src.len(),
{
    if beg >= dst.len() {
        (true, dst)
    } else if src.len() < HEADER_SIZE {
        (false, dst)
    } else {
        let s = frame_src_size(src);
        let t = frame_tgt_size(src);
        if HEADER_SIZE + s <= src.len() && beg + t <= dst.len() {
            match frame_output(src) {
                Some(out) => decode_frames(src.skip(HEADER_SIZE + s), splice(dst, beg, out), beg + t),
                None => (false, dst),
            }
        } else {
            (false, dst)
        }
    }
}

/// Copies `bytes` into `dst` from position `at` on.
fn write_block(dst: &mut [u8], at: usize, bytes: &[u8])
    requires
        at + bytes@.len() <= old(dst)@.len(),
    ensures
        final(dst)@ == splice(old(dst)@, at as int, bytes@),
{
    let dst_len = dst.len();
    let mut i: usize = 0;
    while i < bytes.len()
        invariant
            at + bytes@.len() <= dst_len,
            dst@.len() == old(dst)@.len() == dst_len,
            i <= bytes@.len(),
            dst@ == splice(old(dst)@, at as int, bytes@.take(i as int)),
        decreases bytes@.len() - i,
    {
        dst[at + i] = bytes[i];
        i = i + 1;
        assert(dst@ =~= splice(old(dst)@, at as int, bytes@.take(i as int)));
    }
    assert(bytes@.take(i as int) =~= bytes@);
}

/// Reads the 24-bit little-endian integer `b0 | b1 << 8 | b2 << 16`.
fn read_le24(b0: u8, b1: u8, b2: u8) -> (r: usize)
    ensures
        r == le24(b0, b1, b2),
        r <= K_MAX_COMPRESSED_BLOCK_SIZE,
{
    let r = b0 as usize | (b1 as usize) << 8 | (b2 as usize) << 16;
    assert(b0 as usize | (b1 as usize) << 8 | (b2 as usize) << 16 == b0 + 256 * b1 + 65536 * b2
        && b0 + 256 * b1 + 65536 * b2 <= 0xffffff) by (bit_vector);
    r
}

/// Decodes the frame that starts `frame`, whose header announces `srcsz`
/// compressed and `tgtsz` uncompressed bytes, into the bytes it writes at
/// the start of its output block.
fn decode_frame(frame: &[u8], srcsz: usize, tgtsz: usize) -> (r: core::result::Result<
    Vec<u8>,
    std::io::Error,
>)
    requires
        frame@.len() >= HEADER_SIZE,
        srcsz == frame_src_size(frame@),
        tgtsz == frame_tgt_size(frame@),
        frame_fits(frame@, tgtsz as int),
    ensures
        r is Ok <==> frame_output(frame@) is Some,
        r matches Ok(out) ==> out@ == frame_output(frame@).unwrap() && out@.len() <= tgtsz,
{
    let payload = &frame[HEADER_SIZE..HEADER_SIZE + srcsz];
    assert(payload@ == frame@.subrange(HEADER_SIZE as int, HEADER_SIZE + srcsz));
    proof {
        lemma_frame_sizes_bounded(frame@);
    }
    match kind_of(frame) {
        Kind::Zlib => zlib_decode(payload, tgtsz),
        Kind::Lzma => xz_decode(payload, tgtsz),
        Kind::LZ4 => {
            // The first 8 bytes are an LZ4 block sub-header (counted in srcsz).
            let mut buffer = vec![0u8; tgtsz];
            assert(buffer@ =~= Seq::new(tgtsz as nat, |i: int| 0u8));
            let body = &payload[8..srcsz];
            assert(body@ =~= payload@.skip(8));
            match lz4_decode(body, tgtsz as i32, &mut buffer) {
                Ok(n) => {
                    let decoded = vstd::slice::slice_subrange(buffer.as_slice(), 0, n);
                    Ok(vstd::slice::slice_to_vec(decoded))
                },
                Err(e) => Err(e),
            }
        },
        _ => vstd::pervasive::unreached(),
    }
}

/// Tells whether `decompress` accepts `src` for an output buffer of
/// `dst_len` bytes, that is whether `frames_ok(src, dst_len)` holds. It
/// decodes the frames it must go past to find the headers that decoding
/// reads.
pub fn frames_supported(dst_len: usize, src: &[u8]) -> (b: bool)
    ensures
        b == frames_ok(src@, dst_len as int),
{
    let mut room: usize = dst_len;
    let mut rest: &[u8] = src;
    while room > 0 && rest.len() >= HEADER_SIZE
        invariant
            frames_ok(src@, dst_len as int) == frames_ok(rest@, room as int),
        decreases rest@.len(),
    {
        let k = kind_of(rest);
        let s = read_le24(rest[3], rest[4], rest[5]);
        let t = read_le24(rest[6], rest[7], rest[8]);
        let supported = match k {
            Kind::Zlib | Kind::Lzma => true,
            Kind::LZ4 => 8 <= s,
            _ => false,
        };
        if !(t <= room && s <= rest.len() - HEADER_SIZE && supported) {
            return false;
        }
        if decode_frame(rest, s, t).is_err() {
            return true;
        }
        rest = &rest[HEADER_SIZE + s..rest.len()];
        room = room - t;
    }
    true
}

/// Decodes the chain of compressed frames in `src` into `dst`, frame after
/// frame, until `dst` is full, and returns the number of bytes written.
///
/// Each frame fills as many bytes of `dst` as its header announces; zlib and
/// xz frames must produce that many bytes, LZ4 frames write the bytes they
/// decode. A frame header that cannot be read, or a frame that cannot be
/// decoded, ends the decoding with an error; the frames decoded before it
/// stay written.
pub fn decompress(dst: &mut [u8], src: &[u8]) -> (r: Result<usize>)
    requires
        frames_ok(src@, old(dst)@.len() as int),
    ensures
        final(dst)@.len() == old(dst)@.len(),
        final(dst)@ == decode_frames(src@, old(dst)@, 0).1,
        r is Ok <==> decode_frames(src@, old(dst)@, 0).0,
        r matches Ok(n) ==> n == old(dst)@.len(),
{
    let dst_len = dst.len();
    let mut beg: usize = 0;
    let mut rest: &[u8] = src;
    while beg < dst_len
        invariant
            dst_len == dst@.len() == old(dst)@.len(),
            beg <= dst_len,
            frames_ok(rest@, dst_len - beg),
            decode_frames(src@, old(dst)@, 0) == decode_frames(rest@, dst@, beg as int),
        decreases rest@.len(),
    {
        let hdr = match read_frame_header(rest) {
            Ok(h) => h,
            Err(e) => return Err(Error::Io(e)),
        };
        let srcsz = read_le24(hdr[3], hdr[4], hdr[5]);
        let tgtsz = read_le24(hdr[6], hdr[7], hdr[8]);
        match decode_frame(rest, srcsz, tgtsz) {
            Ok(out) => write_block(dst, beg, out.as_slice()),
            Err(e) => return Err(Error::Io(e)),
        }
        let ghost old_rest = rest@;
        rest = &rest[HEADER_SIZE + srcsz..rest.len()];
        assert(rest@ =~= old_rest.skip(HEADER_SIZE + srcsz));
        beg = beg + tgtsz;
    }
    Ok(beg)
}

/// `decompress` for any input: `None`, with `dst` untouched, where a frame
/// header that decoding reads cannot be acted on (`frames_ok` fails);
/// otherwise the result of `decompress`.
pub fn try_decompress(dst: &mut [u8], src: &[u8]) -> (r: Option<Result<usize>>)
    ensures
        r is None <==> !frames_ok(src@, old(dst)@.len() as int),
        r is None ==> final(dst)@ == old(dst)@,
        r matches Some(res) ==> {
            &&& final(dst)@ == decode_frames(src@, old(dst)@, 0).1
            &&& (res is Ok <==> decode_frames(src@, old(dst)@, 0).0)
            &&& (res matches Ok(n) ==> n == old(dst)@.len())
        },
        final(dst)@.len() == old(dst)@.len(),
{
    if frames_supported(dst.len(), src) {
        Some(decompress(dst, src))
    } else {
        None
    }
}

/// The header bytes of a frame with magic `m0 m1`, method byte `method`,
/// compressed size `s` and uncompressed size `t`, each size written on three
/// bytes, least significant first.
pub open spec fn header_bytes(m0: u8, m1: u8, method: u8, s: int, t: int) -> Seq<u8> {
    seq![
        m0,
        m1,
        method,
        (s % 256) as u8,
        ((s / 256) % 256) as u8,
        (s / 65536) as u8,
        (t % 256) as u8,
        ((t / 256) % 256) as u8,
        (t / 65536) as u8,
    ]
}

/// A 24-bit size is read back byte for byte: its low byte is `b0`, its
/// middle byte `b1` and its high byte `b2`.
pub proof fn lemma_le24_bytes(b0: u8, b1: u8, b2: u8)
    ensures
        le24(b0, b1, b2) % 256 == b0,
        (le24(b0, b1, b2) / 256) % 256 == b1,
        le24(b0, b1, b2) / 65536 == b2,
{
    let v = le24(b0, b1, b2);
    assert(v == b0 + 256 * b1 + 65536 * b2);
    assert(v % 256 == b0 && (v / 256) % 256 == b1 && v / 65536 == b2) by (nonlinear_arith)
        requires
            v == b0 + 256 * b1 + 65536 * b2,
            0 <= b0 < 256,
            0 <= b1 < 256,
            0 <= b2 < 256,
    ;
}

/// Every size up to `K_MAX_COMPRESSED_BLOCK_SIZE`, written on three bytes
/// least significant first, is read back as itself.
pub proof fn lemma_le24_round_trip(n: int)
    requires
        0 <= n <= K_MAX_COMPRESSED_BLOCK_SIZE,
    ensures
        le24((n % 256) as u8, ((n / 256) % 256) as u8, (n / 65536) as u8) == n,
{
    let b0 = n % 256;
    let b1 = (n / 256) % 256;
    let b2 = n / 65536;
    assert(0 <= b0 < 256 && 0 <= b1 < 256 && 0 <= b2 < 256 && b0 + 256 * b1 + 65536 * b2 == n)
        by (nonlinear_arith)
        requires
            0 <= n <= 0xffffff,
            b0 == n % 256,
            b1 == (n / 256) % 256,
            b2 == n / 65536,
    ;
}

/// A zlib or xz frame whose payload decodes to exactly as many bytes as the
/// output buffer holds is accepted, whatever its method byte, and decoding
/// it fills the buffer with those bytes.
pub proof fn lemma_single_frame_decodes(
    m0: u8,
    m1: u8,
    method: u8,
    payload: Seq<u8>,
    out: Seq<u8>,
    dst: Seq<u8>,
)
    requires
        (m0 == 0x5a && m1 == 0x4c && zlib_read_exact(payload, dst.len()) == Some(out)) || (m0
            == 0x58 && m1 == 0x5a && xz_read_exact(payload, dst.len()) == Some(out)),
        payload.len() <= K_MAX_COMPRESSED_BLOCK_SIZE,
        dst.len() <= K_MAX_COMPRESSED_BLOCK_SIZE,
        out.len() == dst.len(),
    ensures
        frames_ok(header_bytes(m0, m1, method, payload.len() as int, dst.len() as int) + payload, dst.len() as int),
        decode_frames(header_bytes(m0, m1, method, payload.len() as int, dst.len() as int) + payload, dst, 0) == (true, out),
{
    let h = header_bytes(m0, m1, method, payload.len() as int, dst.len() as int);
    let src = h + payload;
    lemma_le24_round_trip(payload.len() as int);
    lemma_le24_round_trip(dst.len() as int);
    assert(src[0] == m0 && src[1] == m1);
    assert(src[3] == h[3] && src[4] == h[4] && src[5] == h[5]);
    assert(src[6] == h[6] && src[7] == h[7] && src[8] == h[8]);
    assert(frame_src_size(src) == payload.len());
    assert(frame_tgt_size(src) == dst.len());
    assert(src.subrange(HEADER_SIZE as int, HEADER_SIZE + frame_src_size(src)) =~= payload);
    let rest = src.skip(HEADER_SIZE + frame_src_size(src));
    assert(rest.len() == 0);
    if dst.len() > 0 {
        assert(frame_output(src) == Some(out));
        assert(splice(dst, 0, out) =~= out);
        assert(frames_ok(rest, 0));
        assert(decode_frames(rest, out, dst.len() as int) == (true, out));
    } else {
        assert(out =~= dst);
    }
}

/// The method byte of a frame header is never read: changing it changes
/// neither whether a source is accepted nor what decoding it gives.
pub proof fn lemma_method_byte_ignored(src: Seq<u8>, b: u8, room: int, dst: Seq<u8>, beg: int)
    requires
        src.len() >= HEADER_SIZE,
    ensures
        frames_ok(src.update(2, b), room) == frames_ok(src, room),
        decode_frames(src.update(2, b), dst, beg) == decode_frames(src, dst, beg),
{
    let u = src.update(2, b);
    assert(u[0] == src[0] && u[1] == src[1] && u[3] == src[3] && u[4] == src[4] && u[5]
        == src[5] && u[6] == src[6] && u[7] == src[7] && u[8] == src[8]);
    let s = frame_src_size(src);
    if HEADER_SIZE + s <= src.len() {
        assert(u.skip(HEADER_SIZE + s) =~= src.skip(HEADER_SIZE + s));
        assert(u.subrange(HEADER_SIZE as int, HEADER_SIZE + s) =~= src.subrange(
            HEADER_SIZE as int,
            HEADER_SIZE + s,
        ));
    }
}

/// A chain of frames is taken frame by frame: once a first frame `f` is
/// accepted and decodes to `out`, accepting and decoding `f + rest` is
/// accepting and decoding `rest` in the output left after `out`.
pub proof fn lemma_frames_chain(f: Seq<u8>, rest: Seq<u8>, dst: Seq<u8>, beg: int, out: Seq<u8>)
    requires
        f.len() >= HEADER_SIZE,
        f.len() == HEADER_SIZE + frame_src_size(f),
        0 <= beg < dst.len(),
        frame_fits(f, dst.len() - beg),
        frame_output(f) == Some(out),
    ensures
        frames_ok(f + rest, dst.len() - beg) == frames_ok(rest, dst.len() - beg - frame_tgt_size(f)),
        decode_frames(f + rest, dst, beg) == decode_frames(
            rest,
            splice(dst, beg, out),
            beg + frame_tgt_size(f),
        ),
{
    let src = f + rest;
    assert(src[0] == f[0] && src[1] == f[1] && src[3] == f[3] && src[4] == f[4] && src[5]
        == f[5] && src[6] == f[6] && src[7] == f[7] && src[8] == f[8]);
    let s = frame_src_size(f);
    assert(src.skip(HEADER_SIZE + s) =~= rest);
    assert(src.subrange(HEADER_SIZE as int, HEADER_SIZE + s) =~= f.subrange(
        HEADER_SIZE as int,
        HEADER_SIZE + s,
    ));
}

/// The two magic bytes are the ASCII letters that name the algorithm.
pub proof fn lemma_magic_letters()
    ensures
        kind_of_magic('Z' as u8, 'L' as u8) == Kind::Zlib,
        kind_of_magic('X' as u8, 'Z' as u8) == Kind::Lzma,
        kind_of_magic('L' as u8, '4' as u8) == Kind::LZ4,
        kind_of_magic('Z' as u8, 'S' as u8) == Kind::Zstd,
        kind_of_magic('C' as u8, 'S' as u8) == Kind::OldCompression,
{
}

/// Writing `bytes` at `at` keeps the buffer's length, puts `bytes` in
/// place, and leaves every other byte as it was.
pub proof fn lemma_splice(dst: Seq<u8>, at: int, bytes: Seq<u8>)
    requires
        0 <= at,
        at + bytes.len() <= dst.len(),
    ensures
        splice(dst, at, bytes).len() == dst.len(),
        forall|i: int| 0 <= i < bytes.len() ==> #[trigger] splice(dst, at, bytes)[at + i] == bytes[i],
        forall|i: int|
            0 <= i < dst.len() && !(at <= i < at + bytes.len()) ==> #[trigger] splice(dst, at, bytes)[i]
                == dst[i],
{
}

/// An LZ4 frame (8-byte sub-header, then the block) whose block the LZ4
/// decoder decodes into `n` bytes is accepted, whatever its method byte, and
/// decoding it writes those `n` bytes at the start of the buffer and leaves
/// the rest of the buffer as it was.
pub proof fn lemma_single_lz4_frame_decodes(
    method: u8,
    sub_header: Seq<u8>,
    block: Seq<u8>,
    dst: Seq<u8>,
    n: usize,
    buffer: Seq<u8>,
)
    requires
        sub_header.len() == 8,
        8 + block.len() <= K_MAX_COMPRESSED_BLOCK_SIZE,
        0 < dst.len() <= K_MAX_COMPRESSED_BLOCK_SIZE,
        lz4_decompress_to_buffer(
            block,
            dst.len() as i32,
            Seq::new(dst.len(), |i: int| 0u8),
        ) == Some((n, buffer)),
        n <= dst.len() <= buffer.len(),
    ensures
        frames_ok(
            header_bytes(0x4c, 0x34, method, 8 + block.len() as int, dst.len() as int) + sub_header + block,
            dst.len() as int,
        ),
        decode_frames(
            header_bytes(0x4c, 0x34, method, 8 + block.len() as int, dst.len() as int) + sub_header + block,
            dst,
            0,
        ) == (true, buffer.take(n as int) + dst.skip(n as int)),
{
    let h = header_bytes(0x4c, 0x34, method, 8 + block.len() as int, dst.len() as int);
    let payload = sub_header + block;
    let src = h + sub_header + block;
    assert(src =~= h + payload);
    lemma_le24_round_trip(8 + block.len() as int);
    lemma_le24_round_trip(dst.len() as int);
    assert(src[0] == 0x4c && src[1] == 0x34);
    assert(src[3] == h[3] && src[4] == h[4] && src[5] == h[5]);
    assert(src[6] == h[6] && src[7] == h[7] && src[8] == h[8]);
    assert(frame_src_size(src) == payload.len());
    assert(frame_tgt_size(src) == dst.len());
    assert(src.subrange(HEADER_SIZE as int, HEADER_SIZE + frame_src_size(src)) =~= payload);
    assert(payload.skip(8) =~= block);
    let out = buffer.take(n as int);
    assert(frame_output(src) == Some(out));
    let rest = src.skip(HEADER_SIZE + frame_src_size(src));
    assert(rest.len() == 0);
    let spliced = splice(dst, 0, out);
    assert(spliced =~= buffer.take(n as int) + dst.skip(n as int));
    assert(spliced.len() == dst.len());
    assert(decode_frames(rest, spliced, dst.len() as int) == (true, spliced));
    assert(decode_frames(src, dst, 0) == decode_frames(rest, spliced, dst.len() as int));
    assert(frames_ok(rest, 0));
}

} // verus!
