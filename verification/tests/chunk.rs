use lib::client::{chunk_packet_data, decode_chunk, decode_container, skip_biome_container};
use lib::mcproto::R2;

#[test]
fn single_value_container_fills_the_section() {
    let data = [0u8, 7, 0, 0xAA];
    let mut r = R2::new(&data);
    let states = decode_container(&mut r).unwrap();
    assert_eq!(states.len(), 4096);
    assert!(states.iter().all(|&s| s == 7));
    assert_eq!(r.p, 3);
}

#[test]
fn single_value_container_with_words_is_refused() {
    let data = [0u8, 7, 2];
    let mut r = R2::new(&data);
    assert!(decode_container(&mut r).is_none());
}

fn packed_container(nlongs: u32, first: u64) -> Vec<u8> {
    let mut d = vec![4u8, 2, 10, 20];
    // VarInt of the word count
    let mut n = nlongs;
    loop {
        let b = (n & 0x7F) as u8;
        n >>= 7;
        if n == 0 {
            d.push(b);
            break;
        }
        d.push(b | 0x80);
    }
    d.extend_from_slice(&first.to_be_bytes());
    for _ in 1..nlongs {
        d.extend_from_slice(&0u64.to_be_bytes());
    }
    d
}

#[test]
fn packed_container_reads_palette_indices() {
    let data = packed_container(256, 0x21);
    let mut r = R2::new(&data);
    let states = decode_container(&mut r).unwrap();
    assert_eq!(states.len(), 4096);
    assert_eq!(states[0], 20); // index 1
    assert_eq!(states[1], 0); // index 2: past the palette
    assert_eq!(states[2], 10); // index 0
    assert_eq!(states[4095], 10);
    assert_eq!(r.p, data.len());
}

#[test]
fn packed_container_high_entries_of_a_word() {
    // entry 15 of the first word sits in its top four bits
    let data = packed_container(256, 0x1000_0000_0000_0000);
    let mut r = R2::new(&data);
    let states = decode_container(&mut r).unwrap();
    assert_eq!(states[15], 20);
    assert_eq!(states[14], 10);
    assert_eq!(states[16], 10);
}

#[test]
fn packed_container_with_wrong_word_count_is_refused() {
    let data = packed_container(255, 0);
    let mut r = R2::new(&data);
    assert!(decode_container(&mut r).is_none());
}

#[test]
fn packed_container_cut_short_is_refused() {
    let mut data = packed_container(256, 0);
    data.truncate(data.len() - 1);
    let mut r = R2::new(&data);
    assert!(decode_container(&mut r).is_none());
}

#[test]
fn direct_container_is_refused() {
    let data = [15u8, 0, 0];
    let mut r = R2::new(&data);
    assert!(decode_container(&mut r).is_none());
    assert_eq!(r.p, 1);
}

#[test]
fn biome_containers_are_skipped() {
    let single = [0u8, 5, 0, 9];
    let mut r = R2::new(&single);
    assert!(skip_biome_container(&mut r));
    assert_eq!(r.p, 3);

    let mut packed = vec![1u8, 1, 3, 1];
    packed.extend_from_slice(&[0u8; 8]);
    packed.push(0xEE);
    let mut r = R2::new(&packed);
    assert!(skip_biome_container(&mut r));
    assert_eq!(r.p, packed.len() - 1);

    let bad = [9u8];
    let mut r = R2::new(&bad);
    assert!(!skip_biome_container(&mut r));

    let short = [1u8, 0, 2, 0, 0];
    let mut r = R2::new(&short);
    assert!(!skip_biome_container(&mut r));
}

#[test]
fn chunk_sections_decode_bottom_up() {
    let mut data = Vec::new();
    for sy in 0..24u8 {
        data.extend_from_slice(&[0, 0]); // block count
        data.extend_from_slice(&[0, sy, 0]); // one state per section
        data.extend_from_slice(&[0, 0, 0]); // biomes
    }
    let sections = decode_chunk(&data).unwrap();
    assert_eq!(sections.len(), 24);
    for (sy, s) in sections.iter().enumerate() {
        assert_eq!(s.len(), 4096);
        assert!(s.iter().all(|&v| v == sy as u32));
    }
    // a missing trailing count reads as zero
    data.truncate(data.len() - 1);
    assert!(decode_chunk(&data).is_some());
    // the last biome container gone entirely
    data.truncate(data.len() - 2);
    assert!(decode_chunk(&data).is_none());
}

#[test]
fn chunk_packet_fields_skip_the_heightmaps() {
    let mut p = Vec::new();
    p.extend_from_slice(&(-3i32).to_be_bytes());
    p.extend_from_slice(&7i32.to_be_bytes());
    // heightmaps: a compound holding one byte tag
    p.extend_from_slice(&[0x0A, 0x01, 0x00, 0x01, b'h', 0x05, 0x00]);
    p.extend_from_slice(&[3, 1, 2, 3, 9, 9]);
    let (cx, cz, data) = chunk_packet_data(&p);
    assert_eq!((cx, cz), (-3, 7));
    assert_eq!(data, vec![1, 2, 3]);
}

#[test]
fn chunk_packet_data_is_cut_at_the_end() {
    let mut p = Vec::new();
    p.extend_from_slice(&1i32.to_be_bytes());
    p.extend_from_slice(&2i32.to_be_bytes());
    // no compound here: the length follows directly
    p.extend_from_slice(&[10, 4, 5]);
    let (cx, cz, data) = chunk_packet_data(&p);
    assert_eq!((cx, cz), (1, 2));
    assert_eq!(data, vec![4, 5]);
    let (cx, cz, data) = chunk_packet_data(&[0, 0]);
    assert_eq!((cx, cz), (0, 0));
    assert!(data.is_empty());
}
