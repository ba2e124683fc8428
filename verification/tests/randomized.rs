//! Decompression of a stream whose block is marked randomised: every byte the inverse
//! transform yields at a position picked by the table of pseudo-random numbers had its
//! lowest bit flipped by the compressor.

use bzip2_verified::bzlib::BZ2_bzBuffToBuffDecompress;
use bzip2_verified::randtable::rand_num;

fn crc32(data: &[u8]) -> u32 {
    let mut crc: u32 = 0xffff_ffff;
    for &b in data {
        crc ^= (b as u32) << 24;
        for _ in 0..8 {
            crc = if crc & 0x8000_0000 != 0 { (crc << 1) ^ 0x04c1_1db7 } else { crc << 1 };
        }
    }
    !crc
}

/// The flip for each position of a randomised block.
fn rand_mask(n: usize) -> Vec<u8> {
    let mut mask = Vec::with_capacity(n);
    let mut to_go: i32 = 0;
    let mut t_pos: usize = 0;
    for _ in 0..n {
        if to_go == 0 {
            to_go = rand_num(t_pos);
            t_pos = (t_pos + 1) % 512;
        }
        to_go -= 1;
        mask.push(if to_go == 1 { 1 } else { 0 });
    }
    mask
}

fn get_bit(s: &[u8], k: usize) -> u8 {
    (s[k / 8] >> (7 - k % 8)) & 1
}

fn set_bit(s: &mut [u8], k: usize, b: u8) {
    let m = 1u8 << (7 - k % 8);
    if b == 1 {
        s[k / 8] |= m;
    } else {
        s[k / 8] &= !m;
    }
}

fn put_u32(s: &mut [u8], at: usize, v: u32) {
    for i in 0..32 {
        set_bit(s, at + i, ((v >> (31 - i)) & 1) as u8);
    }
}

/// Data of `n` bytes, and a one-block stream of it whose block is marked randomised. Neither
/// the data nor its flipped form holds four equal bytes in a row, so the run-length stage
/// leaves both as they are.
fn randomized_stream(n: usize) -> (Vec<u8>, Vec<u8>) {
    let mask = rand_mask(n);
    let mut data: Vec<u8> = Vec::with_capacity(n);
    let mut flipped: Vec<u8> = Vec::with_capacity(n);
    let mut x: u32 = 12345;
    while data.len() < n {
        x = x.wrapping_mul(1103515245).wrapping_add(12345);
        let b = b"bzip2 randomised blocks."[(x >> 16) as usize % 24];
        let i = data.len();
        let f = b ^ mask[i];
        if i >= 3 && data[i - 1] == b && data[i - 2] == b && data[i - 3] == b {
            continue;
        }
        if i >= 3 && flipped[i - 1] == f && flipped[i - 2] == f && flipped[i - 3] == f {
            continue;
        }
        data.push(b);
        flipped.push(f);
    }
    let mut c = bzip2::Compress::new(bzip2::Compression::new(9), 30);
    let mut out = vec![0u8; n + n / 50 + 1000];
    let res = c.compress(&flipped, &mut out, bzip2::Action::Finish);
    assert_eq!(res, Ok(bzip2::Status::StreamEnd));
    out.truncate(c.total_out() as usize);
    // Block CRC of the data, and the randomised flag right after it.
    let crc = crc32(&data);
    put_u32(&mut out, 80, crc);
    set_bit(&mut out, 112, 1);
    // The stream's trailer: the end-of-stream marker, then the combined CRC.
    let total = out.len() * 8;
    let mut end = None;
    for pad in 0..8 {
        let at = total - pad - 80;
        let mut v: u64 = 0;
        for k in at..at + 48 {
            v = (v << 1) | get_bit(&out, k) as u64;
        }
        if v == 0x1772_4538_5090 {
            end = Some(at);
            break;
        }
    }
    let at = end.expect("no end-of-stream marker");
    put_u32(&mut out, at + 48, crc);
    (data, out)
}

fn decompress_randomized(is_small: bool) {
    let (data, stream) = randomized_stream(100_000);
    // The C library reads it as the data.
    let mut d = bzip2::Decompress::new(false);
    let mut reference = vec![0u8; 256 * 1024];
    assert_eq!(d.decompress(&stream, &mut reference), Ok(bzip2::Status::StreamEnd));
    reference.truncate(d.total_out() as usize);
    assert_eq!(reference, data);

    let mut dest = vec![0u8; 256 * 1024];
    let mut dest_len = dest.len() as u32;
    let err = BZ2_bzBuffToBuffDecompress(&mut dest, &mut dest_len, &stream, stream.len() as u32, is_small as i32, 0);
    assert_eq!(err, 0);
    assert_eq!(&dest[..dest_len as usize], &data[..]);
}

#[test]
fn buff_to_buff_decompress_fast_randomized() {
    decompress_randomized(false)
}

#[test]
fn buff_to_buff_decompress_small_randomized() {
    decompress_randomized(true)
}
