use lib::anvil::color_of;
use lib::entity_models::{blit, shelf_pack};
use lib::json::{write_json_string, P};
use lib::png::Rgba;
use lib::view::{neighbors8, offsets};

#[test]
fn json_reader_skips_space_and_literals() {
    let b = b"  \t\n true nul";
    let mut p = P::new(b);
    p.ws();
    assert_eq!(p.pos(), 5);
    assert_eq!(p.peek(), Some(b't'));
    assert_eq!(p.lit("true"), Some(()));
    assert_eq!(p.pos(), 9);
    assert_eq!(p.eat(b'x'), None);
    assert_eq!(p.eat(b' '), Some(()));
    assert_eq!(p.lit("null"), None);
    assert_eq!(p.pos(), 10);
    assert_eq!(p.lit("nul"), Some(()));
    assert_eq!(p.peek(), None);
}

#[test]
fn json_hex4_reads_like_from_str_radix() {
    let mut p = P::new(b"00e9+0Aa12zz!");
    assert_eq!(p.hex4(), Some(0xe9));
    assert_eq!(p.hex4(), Some(0x0aa));
    assert_eq!(p.pos(), 8);
    assert_eq!(p.hex4(), None);
    assert_eq!(p.pos(), 8);
    let mut q = P::new(b"12");
    assert_eq!(q.hex4(), None);
}

#[test]
fn json_strings_decode_escapes_and_utf8() {
    let src = "\"h\\u00e9\\\"x\\n\\\\ \\ud83d\\ude00 \u{e9}\\/\\b\\f\\t\\r\" tail";
    let mut p = P::new(src.as_bytes());
    let s = p.string().expect("valid string");
    assert_eq!(s, "h\u{e9}\"x\n\\ \u{1F600} \u{e9}/\u{8}\u{c}\t\r");
    assert_eq!(&src.as_bytes()[p.pos()..], b" tail");
}

#[test]
fn json_strings_reject_malformed_input() {
    assert_eq!(P::new(b"\"abc").string(), None);
    assert_eq!(P::new(b"abc\"").string(), None);
    assert_eq!(P::new(b"\"a\\qb\"").string(), None);
    assert_eq!(P::new(b"\"\\ud800x\"").string(), None);
    assert_eq!(P::new(&[b'"', 0xC3, 0x28, b'"']).string(), None);
    assert_eq!(P::new(b"\"\\udc00\"").string(), Some("\u{FFFD}".to_string()));
    assert_eq!(P::new(b"\"\"").string(), Some(String::new()));
}

#[test]
fn offsets_come_nearest_first() {
    assert_eq!(offsets(-1), vec![]);
    assert_eq!(offsets(0), vec![(0, 0)]);
    assert_eq!(
        offsets(1),
        vec![(0, 0), (-1, 0), (0, -1), (0, 1), (1, 0), (-1, -1), (-1, 1), (1, -1), (1, 1)]
    );
    let o = offsets(3);
    assert_eq!(o.len(), 49);
    for w in o.windows(2) {
        assert!(w[0].0 * w[0].0 + w[0].1 * w[0].1 <= w[1].0 * w[1].0 + w[1].1 * w[1].1);
    }
}

#[test]
fn eight_neighbours() {
    assert_eq!(
        neighbors8(5, -3),
        [(4, -3), (6, -3), (5, -4), (5, -2), (4, -4), (6, -4), (4, -2), (6, -2)]
    );
}

#[test]
fn colour_families() {
    assert_eq!(color_of(35, 32), Some(3));
    assert_eq!(color_of(32, 32), Some(0));
    assert_eq!(color_of(47, 32), Some(15));
    assert_eq!(color_of(48, 32), None);
    assert_eq!(color_of(10, 32), None);
}

#[test]
fn blit_copies_and_clips() {
    let src = Rgba { w: 2, h: 2, px: (1u8..=16).collect() };
    let mut dst = vec![0u8; 4 * 3 * 4];
    blit(&mut dst, 4, 3, 1, &src);
    let mut want = vec![0u8; 4 * 3 * 4];
    want[(1 * 4 + 3) * 4..(1 * 4 + 3) * 4 + 4].copy_from_slice(&[1, 2, 3, 4]);
    want[(2 * 4 + 3) * 4..(2 * 4 + 3) * 4 + 4].copy_from_slice(&[9, 10, 11, 12]);
    assert_eq!(dst, want);
    let mut full = vec![0u8; 4 * 4 * 4];
    blit(&mut full, 4, 0, 0, &src);
    assert_eq!(&full[0..8], &[1, 2, 3, 4, 5, 6, 7, 8]);
    assert_eq!(&full[16..24], &[9, 10, 11, 12, 13, 14, 15, 16]);
}

#[test]
fn json_strings_read_back_what_was_written() {
    for text in ["", "plain", "h\u{e9}\"x\n", "tab\tcr\rnul\u{0}\u{1f}\u{7f}", "\u{1F600}\u{800}\u{7ff}\\/"] {
        let mut out = String::new();
        write_json_string(text, &mut out);
        out.push_str(",next");
        let mut p = P::new(out.as_bytes());
        assert_eq!(p.string().as_deref(), Some(text));
        assert_eq!(&out.as_bytes()[p.pos()..], b",next");
    }
}

#[test]
fn string_fits_flags_a_low_escape_after_a_high_one() {
    let bad = br#""\ud800\u0041""#;
    let p = P::new(bad);
    assert!(!p.string_fits());
    let good = br#""\ud83d\ude00 ok""#;
    let mut p = P::new(good);
    assert!(p.string_fits());
    assert_eq!(p.string().as_deref(), Some("\u{1F600} ok"));
    let lone = br#""\ud800x""#;
    let p = P::new(lone);
    assert!(p.string_fits());
    let not_a_string = b"12";
    let p = P::new(not_a_string);
    assert!(p.string_fits());
}

#[test]
fn textures_are_shelved_in_rows() {
    let sizes = [
        Some((64u32, 32u32)),
        Some((1000, 10)),
        None,
        Some((1024, 512)),
        Some((16, 16)),
        Some((512, 1000)),
    ];
    let r = shelf_pack(&sizes);
    assert_eq!(
        r,
        vec![
            (0, 0, 64, 32),
            (0, 32, 1000, 10),
            (0, 0, 0, 0),
            (0, 0, 0, 0),
            (1000, 32, 16, 16),
            (0, 0, 0, 0),
        ]
    );
}
