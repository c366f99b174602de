use lib::font::{char_width, glyph, width, ACCENTS};

#[test]
fn all_ascii_present() {
    for c in (32..127).map(|i| i as u8 as char) {
        assert!(glyph(c).is_some(), "missing glyph {c:?}");
    }
}

#[test]
fn french_accents_compose() {
    for (ch, base, _) in ACCENTS.iter() {
        let (rows, _) = glyph(*ch).unwrap_or(([0; 8], 0));
        let (brows, _) = glyph(*base).unwrap_or(([0; 8], 0));
        let on = |r: &[u8; 8]| r.iter().filter(|&&x| x != 0).count();
        assert!(on(&rows) >= on(&brows) - 1, "accent {ch} lost ink");
    }
}

#[test]
fn glyph_widths() {
    let (rows, w) = glyph('A').unwrap();
    assert_eq!(w, 5);
    assert_eq!(rows[7], 0);
    assert_eq!(glyph('!').unwrap().1, 3);
    assert_eq!(glyph(' ').unwrap().1, 1);
    assert!(glyph('\u{263A}').is_none());
}

#[test]
fn accents_are_composed() {
    let (rows, w) = glyph('é').unwrap();
    let (base, bw) = glyph('e').unwrap();
    assert_eq!(w, bw);
    assert_eq!(rows[0], 0b00010);
    assert_eq!(&rows[1..8], &base[0..7]);
    let (ced, _) = glyph('ç').unwrap();
    assert_eq!(&ced[0..7], &glyph('c').unwrap().0[0..7]);
    assert_eq!(ced[7], 0b00010);
}

#[test]
fn string_width_sums_advances() {
    assert_eq!(char_width('A'), 6);
    assert_eq!(char_width('\u{263A}'), 5);
    assert_eq!(width("AA"), 12);
    assert_eq!(width(""), 0);
}

#[test]
fn widths_add_up() {
    assert_eq!(width(""), 0);
    assert_eq!(width("Hé ça"), width("Hé") + width(" ça"));
}
