use lib::mcproto::W2;
use lib::nbt::{Nbt, NbtRdr};

#[test]
fn roundtrip_network() {
    let mut root = Nbt::compound();
    root.set("int", Nbt::Int(-42));
    root.set("s", Nbt::Str("hé".to_string()));
    root.set("list", Nbt::List(vec![Nbt::Long(1), Nbt::Long(2), Nbt::Long(i64::MAX)]));
    let mut inner = Nbt::compound();
    inner.set("f", Nbt::Float(0.5f32.to_bits()));
    root.set("inner", inner);
    root.set("la", Nbt::LongArray(vec![1, -2, 0x7FFF_FFFF_FFFF]));
    root.set("ba", Nbt::ByteArray(vec![1, 2, 255]));

    let mut buf = Vec::new();
    root.write_network(&mut buf);
    let mut r = NbtRdr::new(&buf);
    let back = r.read_network().unwrap();
    assert_eq!(r.pos(), buf.len());
    assert_eq!(back.get("int").unwrap().as_i64(), Some(-42));
    assert_eq!(back.get("s").unwrap().as_str(), Some("hé"));
    assert_eq!(back.get("list").unwrap(), &Nbt::List(vec![Nbt::Long(1), Nbt::Long(2), Nbt::Long(i64::MAX)]));
    assert_eq!(back.get("inner").unwrap().get("f").unwrap(), &Nbt::Float(0.5f32.to_bits()));
    assert_eq!(back.get("la").unwrap(), &Nbt::LongArray(vec![1, -2, 0x7FFF_FFFF_FFFF]));
    assert_eq!(back.get("ba").unwrap(), &Nbt::ByteArray(vec![1, 2, 255]));
}

#[test]
fn empty_list_and_compound() {
    let mut root = Nbt::compound();
    root.set("empty", Nbt::List(vec![]));
    root.set("ec", Nbt::compound());
    let mut buf = Vec::new();
    root.write_network(&mut buf);
    let back = NbtRdr::new(&buf).read_network().unwrap();
    assert_eq!(back.get("empty").unwrap(), &Nbt::List(vec![]));
}

#[test]
fn nbt_set_replaces_and_appends() {
    let mut root = Nbt::compound();
    root.set("a", Nbt::Byte(1));
    root.set("b", Nbt::Short(-2));
    root.set("a", Nbt::Int(3));
    assert_eq!(root, Nbt::Compound(vec![("a".to_string(), Nbt::Int(3)), ("b".to_string(), Nbt::Short(-2))]));
    let mut leaf = Nbt::Int(7);
    leaf.set("x", Nbt::Byte(0));
    assert_eq!(leaf, Nbt::Int(7));
    assert!(leaf.get("x").is_none());
    assert!(root.get("zz").is_none());
    assert_eq!(Nbt::Byte(-1).as_i64(), Some(-1));
    assert_eq!(Nbt::Double(0).as_i64(), None);
    assert_eq!(Nbt::Int(5).as_str(), None);
    assert_eq!(Nbt::compound().tag_id(), 10);
}

#[test]
fn nbt_bytes_are_exact() {
    let mut root = Nbt::compound();
    root.set("i", Nbt::IntArray(vec![1, -1]));
    root.set("s", Nbt::Short(0x0102));
    root.set("d", Nbt::Double(1.0f64.to_bits()));
    let mut buf = Vec::new();
    root.write_network(&mut buf);
    let mut want = vec![10u8];
    want.extend_from_slice(&[11, 0, 1, b'i', 0, 0, 0, 2, 0, 0, 0, 1, 0xff, 0xff, 0xff, 0xff]);
    want.extend_from_slice(&[2, 0, 1, b's', 1, 2]);
    want.extend_from_slice(&[6, 0, 1, b'd', 0x3f, 0xf0, 0, 0, 0, 0, 0, 0]);
    want.push(0);
    assert_eq!(buf, want);
    let w = W2::new().u8v(7).nbt(&root).done();
    assert_eq!(w[0], 7);
    assert_eq!(&w[1..], &want[..]);
}

#[test]
fn nbt_reader_rejects_bad_input() {
    assert!(NbtRdr::new(&[8u8, 0]).read_network().is_none());
    assert!(NbtRdr::new(&[10u8, 3, 0, 1, b'x', 0]).read_network().is_none());
    assert!(NbtRdr::new(&[10u8, 7, 0, 1, b'x', 0xff, 0xff, 0xff, 0xff, 0]).read_network().is_none());
    assert!(NbtRdr::new(&[10u8, 42, 0, 0, 0]).read_network().is_none());
    assert!(NbtRdr::new(&[10u8]).read_network().is_none());
    let mut r = NbtRdr::new(&[0u8, 0, 0, 0, 5]);
    assert_eq!(r.payload(9), Some(Nbt::List(vec![])));
    assert_eq!(r.pos(), 5);
}
