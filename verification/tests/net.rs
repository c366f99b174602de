use lib::net::{frame, packet_len_ok, rle_decode, rle_encode, Rdr, W};

#[test]
fn rle_roundtrip_and_compression() {
    let mut blocks = vec![0u16; 65536];
    for i in (0..65536).step_by(97) {
        blocks[i] = 3;
    }
    let enc = rle_encode(&blocks);
    assert!(enc.len() < 9000, "must compress: {}", enc.len());
    let mut out = vec![9u16; 65536];
    rle_decode(&enc, &mut out).unwrap();
    assert_eq!(out, blocks);
}

#[test]
fn rle_rejects_overflow() {
    let mut enc = Vec::new();
    enc.extend_from_slice(&7u16.to_le_bytes());
    enc.extend_from_slice(&99u32.to_le_bytes());
    let mut out = [0u16; 10];
    assert!(rle_decode(&enc, &mut out).is_none());
}

#[test]
fn writer_reader_roundtrip() {
    let mut w = W::new();
    w.u8(42).u16(300).u32(70000).i32(-5).u32(1.5f32.to_bits()).str("créperie").u64(99);
    let buf = w.done();
    let mut r = Rdr::new(&buf);
    assert_eq!(r.u8(), Some(42));
    assert_eq!(r.u16(), Some(300));
    assert_eq!(r.u32(), Some(70000));
    assert_eq!(r.i32(), Some(-5));
    assert_eq!(r.u32().map(f32::from_bits), Some(1.5));
    assert_eq!(r.str().as_deref(), Some("créperie"));
    assert_eq!(r.u64(), Some(99));
    assert_eq!(r.u8(), None, "must be exhausted");
}

#[test]
fn rle_known_encoding() {
    let enc = rle_encode(&[5, 5, 5, 1]);
    let mut want = Vec::new();
    want.extend_from_slice(&5u16.to_le_bytes());
    want.extend_from_slice(&3u32.to_le_bytes());
    want.extend_from_slice(&1u16.to_le_bytes());
    want.extend_from_slice(&1u32.to_le_bytes());
    assert_eq!(enc, want);
}

#[test]
fn rle_rejects_short_total() {
    let enc = rle_encode(&[1, 1]);
    let mut out = [0u16; 3];
    assert!(rle_decode(&enc, &mut out).is_none());
}

#[test]
fn frame_layout() {
    let f = frame(7, &[1, 2, 3]);
    assert_eq!(f, vec![4, 0, 0, 0, 7, 1, 2, 3]);
    assert!(packet_len_ok(1));
    assert!(!packet_len_ok(0));
}

#[test]
fn reader_refuses_truncated_string() {
    let mut w = W::new();
    w.u16(10).u8(b'a');
    let buf = w.done();
    let mut r = Rdr::new(&buf);
    assert_eq!(r.str(), None);
}
