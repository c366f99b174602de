use lib::anvil::{chunk_payload, crc32, region_bytes, parse_region, region_of, slot_of, region_key, zlib_compress, RegionData};
use lib::client::Phase;
use lib::json::write_json_string;
use lib::mobs::MobKind;
use lib::nbt::NbtRdr;
use lib::noise::{hash2i, hash3i};
use lib::pack::{is_meta_stem, norm_asset_path, png_encode, zip_names_inside, Pack};
use lib::renderer::ChunkMesh;

fn deflate_stored(data: &[u8]) -> Vec<u8> {
    let mut out = Vec::new();
    let mut off = 0usize;
    while off < data.len() {
        let n = (data.len() - off).min(65535);
        let last = if off + n >= data.len() { 1u8 } else { 0u8 };
        out.push(last);
        out.extend_from_slice(&(n as u16).to_le_bytes());
        out.extend_from_slice(&(!(n as u16)).to_le_bytes());
        out.extend_from_slice(&data[off..off + n]);
        off += n;
    }
    if data.is_empty() {
        out.push(1u8);
        out.extend_from_slice(&0u16.to_le_bytes());
        out.extend_from_slice(&0xffffu16.to_le_bytes());
    }
    out
}

/// A zip archive built in memory (stored or stored-block deflate entries).
fn build_zip(entries: &[(&str, Vec<u8>, bool)]) -> Vec<u8> {
    let mut z: Vec<u8> = Vec::new();
    let mut central: Vec<u8> = Vec::new();
    let mut count = 0u16;
    for (name, data, stored) in entries {
        let off = z.len() as u32;
        let crc = crc32(data);
        let (method, payload): (u16, Vec<u8>) = if *stored { (0, data.clone()) } else { (8, deflate_stored(data)) };
        z.extend_from_slice(&[0x50, 0x4b, 0x03, 0x04]);
        z.extend_from_slice(&[10, 0, 0, 0]);
        z.extend_from_slice(&method.to_le_bytes());
        z.extend_from_slice(&[0u8; 4]);
        z.extend_from_slice(&crc.to_le_bytes());
        z.extend_from_slice(&(payload.len() as u32).to_le_bytes());
        z.extend_from_slice(&(data.len() as u32).to_le_bytes());
        z.extend_from_slice(&(name.len() as u16).to_le_bytes());
        z.extend_from_slice(&0u16.to_le_bytes());
        z.extend_from_slice(name.as_bytes());
        z.extend_from_slice(&payload);

        central.extend_from_slice(&[0x50, 0x4b, 0x01, 0x02]);
        central.extend_from_slice(&[10, 0, 10, 0]);
        central.extend_from_slice(&[0u8; 2]);
        central.extend_from_slice(&method.to_le_bytes());
        central.extend_from_slice(&[0u8; 4]);
        central.extend_from_slice(&crc.to_le_bytes());
        central.extend_from_slice(&(payload.len() as u32).to_le_bytes());
        central.extend_from_slice(&(data.len() as u32).to_le_bytes());
        central.extend_from_slice(&(name.len() as u16).to_le_bytes());
        central.extend_from_slice(&[0u8; 12]);
        central.extend_from_slice(&off.to_le_bytes());
        central.extend_from_slice(name.as_bytes());
        count += 1;
    }
    let cd_start = z.len();
    z.extend_from_slice(&central);
    let cd_size = z.len() - cd_start;
    z.extend_from_slice(&[0x50, 0x4b, 0x05, 0x06]);
    z.extend_from_slice(&[0u8; 4]);
    z.extend_from_slice(&count.to_le_bytes());
    z.extend_from_slice(&count.to_le_bytes());
    z.extend_from_slice(&(cd_size as u32).to_le_bytes());
    z.extend_from_slice(&(cd_start as u32).to_le_bytes());
    z.extend_from_slice(&0u16.to_le_bytes());
    z
}

fn solid_png(w: u32, h: u32, rgba: [u8; 4]) -> Vec<u8> {
    let mut px = Vec::new();
    for _ in 0..w * h {
        px.extend_from_slice(&rgba);
    }
    png_encode(w, h, &px)
}

#[test]
fn asset_paths_are_normalised() {
    assert_eq!(norm_asset_path("assets/minecraft/blockstates/stone.json"), Some("blockstates/stone.json".to_string()));
    assert_eq!(norm_asset_path("C:\\packs\\x\\Assets\\Minecraft\\Models\\Block\\Torch.json"), Some("models/block/torch.json".to_string()));
    assert_eq!(norm_asset_path("/home/u/pack/assets/mc/models/item/a.json"), Some("models/item/a.json".to_string()));
    assert_eq!(norm_asset_path("assets/minecraft/textures/block/dirt.png"), None);
    assert_eq!(norm_asset_path("assets/minecraft"), None);
    assert_eq!(norm_asset_path("blockstates/stone.json"), None);
}

#[test]
fn meta_stems_are_recognised() {
    assert!(is_meta_stem("pack"));
    assert!(is_meta_stem("pack_icon"));
    assert!(is_meta_stem("pack.mcmeta"));
    assert!(!is_meta_stem("dirt"));
    assert!(!is_meta_stem("Pack"));
}

#[test]
fn pack_first_texture_wins_and_meta_is_skipped() {
    let mut p = Pack::empty();
    p.insert_png("dirt".to_string(), &solid_png(16, 16, [1, 2, 3, 255]));
    p.insert_png("dirt".to_string(), &solid_png(16, 16, [9, 9, 9, 255]));
    p.insert_png("pack".to_string(), &solid_png(16, 16, [4, 4, 4, 255]));
    p.insert_png("broken".to_string(), b"not a png");
    assert_eq!(p.len(), 1);
    assert_eq!(p.loaded_names(), &["dirt".to_string()]);
    let img = p.get_full(&["missing", "DIRT"]).expect("dirt is loaded");
    assert_eq!(&img.px[0..4], &[1, 2, 3, 255]);
    assert!(p.get_full(&["missing"]).is_none());
}

#[test]
fn pack_get_resamples_to_a_tile() {
    let mut p = Pack::empty();
    p.insert_png("water_still".to_string(), &solid_png(32, 64, [10, 20, 30, 200]));
    let t = p.get(&["water_still"]).unwrap();
    assert_eq!((t.w, t.h), (16, 16));
    assert_eq!(t.px.len(), 16 * 16 * 4);
    assert_eq!(&t.px[0..4], &[10, 20, 30, 200]);
    let full = p.get_full(&["water_still"]).unwrap();
    assert_eq!((full.w, full.h), (32, 64));
}

#[test]
fn pack_colormaps_keep_the_first() {
    let mut p = Pack::empty();
    p.insert_colormap("grass", &solid_png(256, 256, [50, 200, 60, 255]));
    p.insert_colormap("grass", &solid_png(256, 256, [1, 1, 1, 255]));
    p.insert_colormap("other", &solid_png(4, 4, [1, 1, 1, 255]));
    let g = p.colormap_grass.as_ref().unwrap();
    assert_eq!((g.w, g.h), (256, 256));
    assert_eq!(&g.px[0..4], &[50, 200, 60, 255]);
    assert!(p.colormap_foliage.is_none());
    assert_eq!(p.len(), 0);
}

#[test]
fn pack_raw_files_replace_and_list_sorted() {
    let mut p = Pack::empty();
    p.insert_raw("models/block/b.json".to_string(), b"B1".to_vec());
    p.insert_raw("blockstates/z.json".to_string(), b"Z".to_vec());
    p.insert_raw("blockstates/a.json".to_string(), b"A".to_vec());
    p.insert_raw("models/block/b.json".to_string(), b"B2".to_vec());
    assert_eq!(p.get_raw("MODELS/block/B.json"), Some(&b"B2"[..]));
    assert_eq!(p.get_raw("blockstates/a.json"), Some(&b"A"[..]));
    assert_eq!(p.get_raw("blockstates/q.json"), None);
    assert_eq!(p.raw_keys("blockstates/"), vec!["blockstates/a.json".to_string(), "blockstates/z.json".to_string()]);
    assert_eq!(p.raw_keys(""), vec!["blockstates/a.json".to_string(), "blockstates/z.json".to_string(), "models/block/b.json".to_string()]);
}

#[test]
fn pack_reads_a_zip_archive() {
    let files: Vec<(&str, Vec<u8>, bool)> = vec![
        ("pack.mcmeta", b"{}".to_vec(), true),
        ("pack.png", solid_png(16, 16, [0, 0, 0, 255]), true),
        ("assets/minecraft/textures/block/Dirt.png", solid_png(16, 16, [120, 80, 40, 255]), false),
        ("assets/minecraft/textures/block/dirt.png.mcmeta", b"{}".to_vec(), true),
        ("assets/minecraft/textures/block/STONE.PNG", solid_png(16, 16, [90, 90, 90, 255]), true),
        ("assets/minecraft/textures/colormap/grass.png", solid_png(8, 8, [5, 6, 7, 255]), true),
        ("assets/minecraft/blockstates/dirt.json", b"{\"variants\":{}}".to_vec(), true),
        ("assets/minecraft/lang/en_us.json", b"{}".to_vec(), true),
    ];
    let z = build_zip(&files);
    assert!(zip_names_inside(&z));
    let mut p = Pack::empty();
    p.scan_zip(&z);
    assert_eq!(p.loaded_names(), &["dirt".to_string(), "stone.png".to_string()]);
    assert!(p.get(&["dirt"]).is_some());
    assert!(p.colormap_grass.is_some());
    assert_eq!(p.get_raw("blockstates/dirt.json"), Some(&b"{\"variants\":{}}"[..]));
    assert_eq!(p.raw_keys(""), vec!["blockstates/dirt.json".to_string()]);
}

#[test]
fn zip_with_a_name_past_the_end_is_not_readable() {
    let files: Vec<(&str, Vec<u8>, bool)> = vec![("a.png", b"x".to_vec(), true)];
    let mut z = build_zip(&files);
    let n = z.len();
    let cd = u32::from_le_bytes([z[n - 6], z[n - 5], z[n - 4], z[n - 3]]) as usize;
    z[cd + 28] = 0xff;
    z[cd + 29] = 0xff;
    assert!(!zip_names_inside(&z));
    assert!(zip_names_inside(&[0u8; 10]));
}

#[test]
fn json_strings_are_escaped() {
    let mut out = String::from("x=");
    write_json_string("h\u{e9}\"x\n\\\t\r\u{1}", &mut out);
    assert_eq!(out, "x=\"h\u{e9}\\\"x\\n\\\\\\t\\r\\u0001\"");
    let mut e = String::new();
    write_json_string("", &mut e);
    assert_eq!(e, "\"\"");
}

#[test]
fn nbt_reader_primitives() {
    let mut b = vec![0x7f, 0x01, 0x02, 0xff, 0xff, 0xff, 0xfe];
    b.extend_from_slice(&[0, 0, 0, 0, 0, 0, 0, 5]);
    b.extend_from_slice(&[0, 3, b'a', b'b', b'c']);
    b.extend_from_slice(&[0, 9, b'x']);
    let mut r = NbtRdr::new(&b);
    assert_eq!(r.u8(), Some(0x7f));
    assert_eq!(r.u16(), Some(0x0102));
    assert_eq!(r.i32v(), Some(-2));
    assert_eq!(r.i64v(), Some(5));
    assert_eq!(r.string(), Some("abc".to_string()));
    assert_eq!(r.pos(), 20);
    assert_eq!(r.string(), None);
    assert_eq!(r.pos(), 22);
    assert_eq!(r.u8(), Some(b'x'));
    assert_eq!(r.u8(), None);
    assert_eq!(r.i64v(), None);
    assert_eq!(r.pos(), 23);
}

#[test]
fn phases_compare() {
    assert!(Phase::Connecting != Phase::Playing);
    assert_eq!(Phase::Downloading, Phase::Downloading);
}

#[test]
fn region_bytes_roundtrip() {
    let mut slots: Vec<Option<(u8, Vec<u8>)>> = vec![None; 1024];
    slots[slot_of(10, 35)] = Some((2, vec![7u8; 5000]));
    slots[0] = Some((1, vec![1, 2, 3]));
    slots[1023] = Some((3, Vec::new()));
    let bytes = region_bytes(&slots, 0x01020304);
    assert_eq!(bytes.len() % 4096, 0);
    assert_eq!(&bytes[0..4], &[0, 0, 2, 1]);
    assert_eq!(&bytes[4096..4100], &[1, 2, 3, 4]);
    let back = parse_region(&bytes).unwrap();
    assert_eq!(back.slots, slots);
    assert!(parse_region(&bytes[..100]).is_none());
    let empty = RegionData::empty();
    assert_eq!(empty.slots.len(), 1024);
    assert!(empty.slots.iter().all(|s| s.is_none()));
}

#[test]
fn region_coordinates() {
    assert_eq!(region_of(0), 0);
    assert_eq!(region_of(31), 0);
    assert_eq!(region_of(32), 1);
    assert_eq!(region_of(-1), -1);
    assert_eq!(region_of(-33), -2);
    assert_eq!(slot_of(10, 35), 10 + 32 * 3);
    assert_eq!(slot_of(-1, -1), 31 + 32 * 31);
    assert_eq!(region_key(-1, 64), (-1, 2));
}

#[test]
fn mob_ids_roundtrip() {
    for id in 0u8..=255 {
        if let Some(k) = MobKind::from_id(id) {
            assert_eq!(k.id(), id);
        }
    }
    assert!(MobKind::from_id(200).is_none());
}

#[test]
fn hashes_are_deterministic_and_spread() {
    assert_eq!(hash2i(1, 2, 42), hash2i(1, 2, 42));
    assert_ne!(hash2i(1, 2, 42), hash2i(2, 1, 42));
    assert_ne!(hash3i(1, 2, 3, 42), hash3i(1, 2, 3, 43));
    assert_eq!(hash2i(1, 2, 42), 11086748896460917095);
    assert_eq!(hash3i(1, 2, 3, 42), 10143991154276140974);
    assert_eq!(hash2i(0, 0, 0), 0);
}

#[test]
fn empty_chunk_mesh() {
    let m = ChunkMesh::empty();
    assert_eq!((m.vbo, m.ibo, m.n, m.cvbo, m.cibo, m.cn, m.wvbo, m.wibo, m.wn), (0, 0, 0, 0, 0, 0, 0, 0, 0));
}

#[test]
fn chunk_payloads_decompress_by_type() {
    let data: Vec<u8> = (0..3000u32).map(|i| (i % 7) as u8).collect();
    let z = zlib_compress(&data);
    assert_eq!(chunk_payload(2, &z), Some(data.clone()));
    assert_eq!(chunk_payload(3, &data), Some(data.clone()));
    assert_eq!(chunk_payload(1, &z), None);
    assert_eq!(chunk_payload(4, &z), None);
    assert_eq!(chunk_payload(2, &z[..z.len() - 1]), None);
}

#[test]
fn hash_of_origin_is_zero_and_arguments_are_told_apart() {
    assert_eq!(hash2i(0, 0, 0), 0);
    assert_ne!(hash2i(1, 5, 9), hash2i(2, 5, 9));
    assert_ne!(hash2i(1, 5, 9), hash2i(1, 6, 9));
    assert_ne!(hash2i(1, 5, 9), hash2i(1, 5, 10));
    assert_ne!(hash2i(-1, 0, 0), hash2i(1, 0, 0));
}
