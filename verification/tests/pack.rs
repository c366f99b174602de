use lib::anvil::{adler32, crc32};
use lib::pack::{inflate, png_decode, png_encode, zip_entries, Rgba};

#[test]
fn stored_block_roundtrip() {
    let data = b"hello hello hello world!".to_vec();
    let mut z = vec![0x78, 0x01];
    z.push(1u8);
    z.extend_from_slice(&(data.len() as u16).to_le_bytes());
    z.extend_from_slice(&(!(data.len() as u16)).to_le_bytes());
    z.extend_from_slice(&data);
    z.extend_from_slice(&adler32(&data).to_be_bytes());
    let out = inflate(&z[2..z.len() - 4]).unwrap();
    assert_eq!(out, data);
}

#[test]
fn png_roundtrip_all_filters() {
    let mut px = Vec::with_capacity(16 * 16 * 4);
    for y in 0..16u32 {
        for x in 0..16u32 {
            let v = ((x * 13 + y * 7) % 256) as u8;
            px.extend_from_slice(&[v, v.wrapping_mul(3), v.wrapping_add(9), if (x + y) % 5 == 0 { 0 } else { 255 }]);
        }
    }
    let enc = png_encode(16, 16, &px);
    let dec = png_decode(&enc).expect("decode must succeed");
    assert_eq!(dec.w, 16);
    assert_eq!(dec.h, 16);
    assert_eq!(dec.px, px);
    assert!(!dec.is_grayscale(4));
}

#[test]
fn gray_detection_and_tint_source() {
    let mut px = vec![128u8; 16 * 16 * 4];
    for i in 0..16 * 16 {
        px[i * 4] = (i % 256) as u8;
        px[i * 4 + 1] = (i % 256) as u8;
        px[i * 4 + 2] = (i % 256) as u8;
        px[i * 4 + 3] = 255;
    }
    let img = Rgba { w: 16, h: 16, px };
    assert!(img.is_grayscale(4));
    let t = img.to_tile(16);
    assert_eq!(t.px, img.px);
    let mut p8 = Vec::with_capacity(8 * 8 * 4);
    for _ in 0..(8 * 8) {
        p8.extend_from_slice(&[10u8, 20, 30, 255]);
    }
    let up = Rgba { w: 8, h: 8, px: p8 };
    let down = up.to_tile(16);
    assert_eq!(down.px[0..4], [10, 20, 30, 255]);
}

/// Raw deflate stream made of stored blocks.
fn deflate_stored(data: &[u8]) -> Vec<u8> {
    let mut out = Vec::new();
    let mut off = 0usize;
    while off < data.len() {
        let n = (data.len() - off).min(65535);
        let last = if off + n >= data.len() { 1u8 } else { 0u8 };
        out.push(last);
        out.extend_from_slice(&(n as u16).to_le_bytes());
        out.extend_from_slice(&(!(n as u16)).to_le_bytes());
        out.extend_from_slice(&data[off..off + n]);
        off += n;
    }
    if data.is_empty() {
        out.push(1u8);
        out.extend_from_slice(&0u16.to_le_bytes());
        out.extend_from_slice(&0xffffu16.to_le_bytes());
    }
    out
}

/// A zip archive built in memory (stored or stored-block deflate entries).
fn build_zip(entries: &[(&str, Vec<u8>, bool)]) -> Vec<u8> {
    let mut z: Vec<u8> = Vec::new();
    let mut central: Vec<u8> = Vec::new();
    let mut count = 0u16;
    for (name, data, stored) in entries {
        let off = z.len() as u32;
        let crc = crc32(data);
        let (method, payload): (u16, Vec<u8>) = if *stored { (0, data.clone()) } else { (8, deflate_stored(data)) };
        z.extend_from_slice(&[0x50, 0x4b, 0x03, 0x04]);
        z.extend_from_slice(&[10, 0, 0, 0]);
        z.extend_from_slice(&method.to_le_bytes());
        z.extend_from_slice(&[0u8; 4]);
        z.extend_from_slice(&crc.to_le_bytes());
        z.extend_from_slice(&(payload.len() as u32).to_le_bytes());
        z.extend_from_slice(&(data.len() as u32).to_le_bytes());
        z.extend_from_slice(&(name.len() as u16).to_le_bytes());
        z.extend_from_slice(&0u16.to_le_bytes());
        z.extend_from_slice(name.as_bytes());
        z.extend_from_slice(&payload);

        central.extend_from_slice(&[0x50, 0x4b, 0x01, 0x02]);
        central.extend_from_slice(&[10, 0, 10, 0]);
        central.extend_from_slice(&[0u8; 2]);
        central.extend_from_slice(&method.to_le_bytes());
        central.extend_from_slice(&[0u8; 4]);
        central.extend_from_slice(&crc.to_le_bytes());
        central.extend_from_slice(&(payload.len() as u32).to_le_bytes());
        central.extend_from_slice(&(data.len() as u32).to_le_bytes());
        central.extend_from_slice(&(name.len() as u16).to_le_bytes());
        central.extend_from_slice(&[0u8; 12]);
        central.extend_from_slice(&off.to_le_bytes());
        central.extend_from_slice(name.as_bytes());
        count += 1;
    }
    let cd_start = z.len();
    z.extend_from_slice(&central);
    let cd_size = z.len() - cd_start;
    z.extend_from_slice(&[0x50, 0x4b, 0x05, 0x06]);
    z.extend_from_slice(&[0u8; 4]);
    z.extend_from_slice(&count.to_le_bytes());
    z.extend_from_slice(&count.to_le_bytes());
    z.extend_from_slice(&(cd_size as u32).to_le_bytes());
    z.extend_from_slice(&(cd_start as u32).to_le_bytes());
    z.extend_from_slice(&0u16.to_le_bytes());
    z
}

#[test]
fn zip_reader_handles_stored_and_deflated() {
    let files: Vec<(&str, Vec<u8>, bool)> = vec![
        ("pack.mcmeta", b"{\"pack\":{\"pack_format\":34}}".to_vec(), true),
        ("stone.png", b"PNGDATA-STORED".to_vec(), true),
        ("assets/minecraft/textures/block/dirt.png", b"PNGDATA-DEFLATED!".to_vec(), false),
    ];
    let z = build_zip(&files);
    let ents = zip_entries(&z);
    assert_eq!(ents.len(), 3, "all three entries must be read");
    assert_eq!(ents[0].0, "pack.mcmeta");
    assert_eq!(ents[1].0, "stone.png");
    assert_eq!(ents[1].1, b"PNGDATA-STORED");
    assert_eq!(ents[2].0, "assets/minecraft/textures/block/dirt.png");
    assert_eq!(ents[2].1, b"PNGDATA-DEFLATED!");
}

#[test]
fn zip_without_end_record_is_empty() {
    assert!(zip_entries(&[0u8; 100]).is_empty());
    assert!(zip_entries(&[0u8; 10]).is_empty());
}

#[test]
fn png_rejects_bad_signature_and_interlace() {
    let px = vec![1u8; 4 * 4 * 4];
    let mut enc = png_encode(4, 4, &px);
    assert!(png_decode(&enc[1..]).is_none());
    // interlace byte of IHDR (offset 8 + 8 + 12)
    enc[28] = 1;
    assert!(png_decode(&enc).is_none());
}

#[test]
fn png_palette_and_gray_decode() {
    // 2x1 palette image, 8-bit indices, filter 0 rows, handmade
    fn chunk(out: &mut Vec<u8>, tag: &[u8; 4], body: &[u8]) {
        out.extend_from_slice(&(body.len() as u32).to_be_bytes());
        out.extend_from_slice(tag);
        out.extend_from_slice(body);
        let mut v = tag.to_vec();
        v.extend_from_slice(body);
        out.extend_from_slice(&crc32(&v).to_be_bytes());
    }
    fn zlib_stored(raw: &[u8]) -> Vec<u8> {
        let mut z = vec![0x78, 0x01, 1];
        z.extend_from_slice(&(raw.len() as u16).to_le_bytes());
        z.extend_from_slice(&(!(raw.len() as u16)).to_le_bytes());
        z.extend_from_slice(raw);
        z.extend_from_slice(&adler32(raw).to_be_bytes());
        z
    }
    let mut f = vec![137, 80, 78, 71, 13, 10, 26, 10];
    let mut ihdr = Vec::new();
    ihdr.extend_from_slice(&2u32.to_be_bytes());
    ihdr.extend_from_slice(&1u32.to_be_bytes());
    ihdr.extend_from_slice(&[8, 3, 0, 0, 0]);
    chunk(&mut f, b"IHDR", &ihdr);
    chunk(&mut f, b"PLTE", &[10, 20, 30, 40, 50, 60]);
    chunk(&mut f, b"tRNS", &[7]);
    chunk(&mut f, b"IDAT", &zlib_stored(&[0, 1, 0]));
    chunk(&mut f, b"IEND", &[]);
    let img = png_decode(&f).unwrap();
    assert_eq!(img.px, vec![40, 50, 60, 255, 10, 20, 30, 7]);
    // an index past the palette is refused
    let mut g = vec![137, 80, 78, 71, 13, 10, 26, 10];
    chunk(&mut g, b"IHDR", &ihdr);
    chunk(&mut g, b"PLTE", &[10, 20, 30]);
    chunk(&mut g, b"IDAT", &zlib_stored(&[0, 1, 0]));
    chunk(&mut g, b"IEND", &[]);
    assert!(png_decode(&g).is_none());
    // 1-bit gray, up filter on the second row
    let mut h = vec![137, 80, 78, 71, 13, 10, 26, 10];
    let mut ih = Vec::new();
    ih.extend_from_slice(&3u32.to_be_bytes());
    ih.extend_from_slice(&2u32.to_be_bytes());
    ih.extend_from_slice(&[1, 0, 0, 0, 0]);
    chunk(&mut h, b"IHDR", &ih);
    chunk(&mut h, b"IDAT", &zlib_stored(&[0, 0b1010_0000, 2, 0]));
    chunk(&mut h, b"IEND", &[]);
    let img = png_decode(&h).unwrap();
    assert_eq!((img.w, img.h), (3, 2));
    let grays: Vec<u8> = img.px.chunks(4).map(|p| p[0]).collect();
    assert_eq!(grays, vec![255, 0, 255, 255, 0, 255]);
}

#[test]
fn tile_crops_animation_strips() {
    let mut px = vec![0u8; 2 * 4 * 4];
    px[0..4].copy_from_slice(&[1, 2, 3, 4]);
    px[16..20].copy_from_slice(&[9, 9, 9, 9]);
    let strip = Rgba { w: 2, h: 4, px };
    let t = strip.to_tile(2);
    assert_eq!(t.px.len(), 16);
    assert_eq!(&t.px[0..4], &[1, 2, 3, 4]);
}
