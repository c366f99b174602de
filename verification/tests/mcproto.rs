use lib::mcproto::{md5, offline_uuid, pack_position, read_string, read_varint, read_varlong, unpack_position, write_string,
    write_varint, write_varlong, varint_len};

fn hex(b: &[u8]) -> String {
    b.iter().map(|x| format!("{:02x}", x)).collect()
}

#[test]
fn varint_roundtrip() {
    for v in [0i32, 1, 127, 128, 255, 256, 2097151, 2097152, -1, i32::MIN, i32::MAX] {
        let mut buf = Vec::new();
        write_varint(&mut buf, v);
        let mut p = 0;
        assert_eq!(read_varint(&buf, &mut p), Some(v));
        assert_eq!(p, buf.len());
    }
}

#[test]
fn varlong_roundtrip() {
    for v in [0i64, -1, i64::MAX, i64::MIN, 0x1234_5678_9ABC_DEF] {
        let mut buf = Vec::new();
        write_varlong(&mut buf, v);
        let mut p = 0;
        assert_eq!(read_varlong(&buf, &mut p), Some(v));
    }
}

#[test]
fn position_packing() {
    let (x, y, z) = (12_345, 319, -65_000);
    let p = pack_position(x, y, z);
    let bp = unpack_position(p);
    assert_eq!((bp.x, bp.y, bp.z), (x, y, z));
}

#[test]
fn md5_known_vectors() {
    assert_eq!(hex(&md5(b"")), "d41d8cd98f00b204e9800998ecf8427e");
    assert_eq!(hex(&md5(b"The quick brown fox jumps over the lazy dog")), "9e107d9d372bb6826bd81d3542a419d6");
}

#[test]
fn offline_uuid_shape() {
    let u = offline_uuid("Notch");
    assert_eq!(u[6] & 0xF0, 0x30);
    assert_eq!(u[8] & 0xC0, 0x80);
}

#[test]
fn string_roundtrip() {
    let mut buf = Vec::new();
    write_string(&mut buf, "bonjour é §");
    let mut p = 0;
    assert_eq!(read_string(&buf, &mut p, 1000).unwrap(), "bonjour é §");
}

#[test]
fn varint_known_bytes() {
    let mut buf = Vec::new();
    write_varint(&mut buf, 300);
    assert_eq!(buf, vec![0xAC, 0x02]);
    let mut buf = Vec::new();
    write_varint(&mut buf, -1);
    assert_eq!(buf, vec![0xFF, 0xFF, 0xFF, 0xFF, 0x0F]);
    assert_eq!(varint_len(0), 1);
    assert_eq!(varint_len(300), 2);
    assert_eq!(varint_len(u32::MAX), 5);
}

#[test]
fn varint_rejects_truncated_and_long() {
    let mut p = 0;
    assert_eq!(read_varint(&[0x80, 0x80], &mut p), None);
    let mut p = 0;
    assert_eq!(read_varint(&[0x80, 0x80, 0x80, 0x80, 0x80, 0x01], &mut p), None);
}

#[test]
fn string_longer_than_max_is_refused() {
    let mut buf = Vec::new();
    write_string(&mut buf, "abcdef");
    let mut p = 0;
    assert_eq!(read_string(&buf, &mut p, 3), None);
}

#[test]
fn md5_two_blocks() {
    let msg = vec![b'a'; 100];
    assert_eq!(hex(&md5(&msg)), "36a92cc94a9e0fa21f625f8bfb007adf");
}
