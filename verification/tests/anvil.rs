use lib::anvil::{adler32, alias_of, crc32, deflate_fixed, gzip_decompress, pack_longs_disk, unpack_longs_disk, zlib_compress, zlib_decompress};
use lib::pack::inflate;

/// Deterministic pseudo-random data mixing repeated runs and noise
/// (exercises literals and LZ77 matches).
fn lcg_data(n: usize) -> Vec<u8> {
    let mut v = Vec::with_capacity(n);
    let mut s: u64 = 0x1234_5678_9ABC_DEF0;
    while v.len() < n {
        s = s.wrapping_mul(6364136223846793005).wrapping_add(1442695040888963407);
        let k = (s >> 33) as usize;
        if k % 7 == 0 {
            let run = 3 + k % 250;
            let b = (k >> 8) as u8;
            for _ in 0..run.min(n - v.len()) {
                v.push(b);
            }
        } else {
            v.push(k as u8);
        }
    }
    v
}

#[test]
fn checksum_known_vectors() {
    assert_eq!(adler32(b"Wikipedia"), 0x11E6_0398);
    assert_eq!(crc32(b"123456789"), 0xCBF4_3926);
    assert_eq!(crc32(b""), 0);
}

#[test]
fn zlib_roundtrip_and_pack_inflate_agree() {
    for size in [0usize, 1, 17, 4096, 70000] {
        let d = lcg_data(size);
        let z = zlib_compress(&d);
        assert_eq!(zlib_decompress(&z).unwrap(), d, "size {}", size);
        assert_eq!(inflate(&z[2..z.len() - 4]).unwrap(), d, "deflate body size {}", size);
        let mut bad = z.clone();
        let l = bad.len();
        bad[l - 1] = bad[l - 1].wrapping_add(1);
        assert!(zlib_decompress(&bad).is_none());
    }
}

#[test]
fn gzip_roundtrip_handbuilt() {
    let d = lcg_data(33000);
    let mut g = vec![0x1Fu8, 0x8B, 8, 0, 0, 0, 0, 0, 0, 255];
    g.extend_from_slice(&deflate_fixed(&d));
    g.extend_from_slice(&crc32(&d).to_le_bytes());
    g.extend_from_slice(&(d.len() as u32).to_le_bytes());
    assert_eq!(gzip_decompress(&g).unwrap(), d);
    let l = g.len();
    g[l - 5] ^= 0xFF;
    assert!(gzip_decompress(&g).is_none());
}

#[test]
fn pack_unpack_longs_various_bits() {
    for bits in 4u32..=8 {
        let per = (64 / bits) as usize;
        let count = per * 3 + 5;
        let vals: Vec<u32> = (0..count).map(|i| (i * 2654435761) as u32 & ((1 << bits) - 1)).collect();
        let longs = pack_longs_disk(&vals, bits);
        assert_eq!(unpack_longs_disk(&longs, bits, count).unwrap(), vals);
    }
    let vals = vec![3u32; 4096];
    assert_eq!(pack_longs_disk(&vals, 4).len(), 256);
}

#[test]
fn deflate_output_is_a_fixed_final_block() {
    let d = lcg_data(500);
    let body = deflate_fixed(&d);
    // BFINAL = 1, BTYPE = 01
    assert_eq!(body[0] & 0b111, 0b011);
    assert_eq!(inflate(&body).unwrap(), d);
}

#[test]
fn deflate_compresses_runs() {
    let d = vec![7u8; 10000];
    let body = deflate_fixed(&d);
    assert!(body.len() < 200, "run of 10000 bytes took {}", body.len());
    assert_eq!(inflate(&body).unwrap(), d);
}

#[test]
fn zlib_header_and_trailer() {
    let d = b"hello hello hello".to_vec();
    let z = zlib_compress(&d);
    assert_eq!(&z[0..2], &[0x78, 0x01]);
    assert_eq!(&z[z.len() - 4..], &adler32(&d).to_be_bytes());
}

#[test]
fn zlib_rejects_bad_headers() {
    let z = zlib_compress(b"abc");
    assert!(zlib_decompress(&z[..5]).is_none());
    let mut bad = z.clone();
    bad[0] = 0x79; // not DEFLATE
    assert!(zlib_decompress(&bad).is_none());
    let mut bad = z.clone();
    bad[1] = 0x02; // check bits wrong
    assert!(zlib_decompress(&bad).is_none());
    let mut bad = z.clone();
    bad[1] = 0x01 | 0x20; // preset dictionary
    assert!(zlib_decompress(&bad).is_none());
}

#[test]
fn gzip_with_name_and_extra_fields() {
    let d = lcg_data(1000);
    // FEXTRA (4) + FNAME (8) + FCOMMENT (16) + FHCRC (2)
    let mut g = vec![0x1Fu8, 0x8B, 8, 4 | 8 | 16 | 2, 0, 0, 0, 0, 0, 255];
    g.extend_from_slice(&3u16.to_le_bytes());
    g.extend_from_slice(&[1, 2, 3]);
    g.extend_from_slice(b"level.dat\0");
    g.extend_from_slice(b"a comment\0");
    g.extend_from_slice(&[0xAA, 0xBB]);
    g.extend_from_slice(&deflate_fixed(&d));
    g.extend_from_slice(&crc32(&d).to_le_bytes());
    g.extend_from_slice(&(d.len() as u32).to_le_bytes());
    assert_eq!(gzip_decompress(&g).unwrap(), d);
    // unterminated name
    let mut bad = vec![0x1Fu8, 0x8B, 8, 8, 0, 0, 0, 0, 0, 255];
    bad.extend_from_slice(&[b'x'; 20]);
    assert!(gzip_decompress(&bad).is_none());
    // wrong magic
    let mut bad = g.clone();
    bad[1] = 0x8C;
    assert!(gzip_decompress(&bad).is_none());
}

#[test]
fn unpack_longs_rejects_short_input() {
    let longs = pack_longs_disk(&[1, 2, 3, 4, 5], 4);
    assert!(unpack_longs_disk(&longs[..0], 4, 5).is_none());
}

#[test]
fn aliases_map_unknown_names_to_near_blocks() {
    assert_eq!(alias_of("fern"), Some("short_grass"));
    assert_eq!(alias_of("rail"), Some("air"));
    assert_eq!(alias_of("mossy_cobblestone"), Some("moss_block"));
    assert_eq!(alias_of("bell_block"), Some("glowstone"));
    assert_eq!(alias_of("stone"), None);
    assert_eq!(alias_of(""), None);
    assert_eq!(alias_of("fern_"), None);
}

#[test]
fn zlib_body_is_one_final_fixed_block() {
    for n in [0usize, 1, 17, 4096] {
        let d: Vec<u8> = (0..n).map(|i| (i * 7 % 13) as u8).collect();
        let z = zlib_compress(&d);
        assert_eq!(z[2] & 7, 3);
        assert_eq!(deflate_fixed(&d)[0] & 7, 3);
    }
}
