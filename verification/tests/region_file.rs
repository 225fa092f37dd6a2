//! Tests of the region-file side: the location table, chunk extraction with
//! real zlib streams, and whole-region decoding.

use nbt_region::{
    chunk_loc_to_byte_offset, extract_chunk, get_by_name, locate_chunks, parse_chunks, Cursor,
    NbtError, Tag, TagPayload,
};
use std::io::Write;

fn zlib_compress(data: &[u8]) -> Vec<u8> {
    let mut enc =
        flate2::write::ZlibEncoder::new(Vec::new(), flate2::Compression::default());
    enc.write_all(data).unwrap();
    enc.finish().unwrap()
}

/// A chunk record: 4-byte big-endian length, scheme byte, payload.
fn chunk_record(scheme: u8, payload: &[u8]) -> Vec<u8> {
    let mut rec = Vec::new();
    rec.extend_from_slice(&((payload.len() + 1) as u32).to_be_bytes());
    rec.push(scheme);
    rec.extend_from_slice(payload);
    rec
}

#[test]
fn location_entry_computes_byte_offset() {
    // Sector offset 2, present: byte offset 2 * 4096 = 8192.
    assert_eq!(chunk_loc_to_byte_offset([0x00, 0x00, 0x02, 0x01]), Some(8192));
}

#[test]
fn location_entry_absent_when_fourth_byte_zero() {
    assert_eq!(chunk_loc_to_byte_offset([0x00, 0x00, 0x02, 0x00]), None);
    assert_eq!(chunk_loc_to_byte_offset([0x12, 0x34, 0x56, 0x00]), None);
}

#[test]
fn location_entry_three_byte_offset() {
    assert_eq!(
        chunk_loc_to_byte_offset([0x01, 0x02, 0x03, 0x09]),
        Some(0x010203u64 * 4096)
    );
}

#[test]
fn locate_chunks_stops_at_first_absent_entry() {
    let mut table = vec![0u8; 4096];
    table[0..4].copy_from_slice(&[0x00, 0x00, 0x02, 0x01]);
    table[4..8].copy_from_slice(&[0x00, 0x00, 0x04, 0x01]);
    // entry 2 is absent (all zero); entry 3 present but after the stop
    table[12..16].copy_from_slice(&[0x00, 0x00, 0x08, 0x01]);
    let offsets = locate_chunks(&table).unwrap();
    assert_eq!(offsets, vec![8192u64, 16384u64]);
}

#[test]
fn locate_chunks_reads_all_1024_entries() {
    let mut table = vec![0u8; 4096];
    for i in 0..1024usize {
        let sector = (i + 2) as u32;
        let be = sector.to_be_bytes();
        table[4 * i] = be[1];
        table[4 * i + 1] = be[2];
        table[4 * i + 2] = be[3];
        table[4 * i + 3] = 1;
    }
    let offsets = locate_chunks(&table).unwrap();
    assert_eq!(offsets.len(), 1024);
    assert_eq!(offsets[0], 2 * 4096);
    assert_eq!(offsets[1023], 1025 * 4096);
    for w in offsets.windows(2) {
        assert!(w[0] < w[1]);
    }
}

#[test]
fn locate_chunks_short_table_is_truncated() {
    let table = vec![0u8; 4095];
    assert_eq!(locate_chunks(&table), Err(NbtError::Truncated));
}

#[test]
fn extract_chunk_inflates_payload() {
    let doc: Vec<u8> = vec![0x01, 0x00, 0x01, b'a', 0x2A];
    let region = chunk_record(2, &zlib_compress(&doc));
    assert_eq!(extract_chunk(&region, 0), Ok(doc));
}

#[test]
fn extract_chunk_rejects_other_schemes() {
    // Scheme 1 (gzip) and 3 (uncompressed) are defined by the format but not
    // accepted here.
    let region = chunk_record(1, &zlib_compress(&[0x00]));
    assert_eq!(extract_chunk(&region, 0), Err(NbtError::UnsupportedCompression));
    let region = chunk_record(3, &[0x00]);
    assert_eq!(extract_chunk(&region, 0), Err(NbtError::UnsupportedCompression));
}

#[test]
fn extract_chunk_truncated_header_and_payload() {
    assert_eq!(extract_chunk(&vec![0, 0, 0, 5], 0), Err(NbtError::Truncated));
    let mut region = chunk_record(2, &zlib_compress(&[0x00]));
    region.pop();
    assert_eq!(extract_chunk(&region, 0), Err(NbtError::Truncated));
    let region = chunk_record(2, &zlib_compress(&[0x00]));
    assert_eq!(extract_chunk(&region, 9999), Err(NbtError::Truncated));
}

#[test]
fn extract_chunk_zero_length_is_truncated() {
    let region: Vec<u8> = vec![0, 0, 0, 0, 2, 0xAA];
    assert_eq!(extract_chunk(&region, 0), Err(NbtError::Truncated));
}

#[test]
fn extract_chunk_bad_stream_is_decompression_failed() {
    let region = chunk_record(2, &[0x12, 0x34, 0x56]);
    assert_eq!(extract_chunk(&region, 0), Err(NbtError::DecompressionFailed));
}

#[test]
fn empty_compressed_document_is_no_root() {
    // A record whose payload inflates to the single end byte decodes to "no
    // root", which is a valid outcome, not an error.
    let region = chunk_record(2, &zlib_compress(&[0x00]));
    let data = extract_chunk(&region, 0).unwrap();
    assert_eq!(data, vec![0x00]);
    let mut cur = Cursor::new(&data);
    assert_eq!(Tag::parse(&mut cur), Ok(None));
}

fn region_with_one_chunk(doc: &[u8]) -> Vec<u8> {
    let mut region = vec![0u8; 4096];
    region[0..4].copy_from_slice(&[0x00, 0x00, 0x01, 0x01]);
    region.extend_from_slice(&chunk_record(2, &zlib_compress(doc)));
    region
}

#[test]
fn parse_chunks_decodes_located_chunks() {
    let doc: Vec<u8> = vec![
        0x0A, 0x00, 0x00, // root compound
        0x03, 0x00, 0x01, b'n', 0x00, 0x00, 0x00, 0x07, // Int "n" = 7
        0x00,
    ];
    let region = region_with_one_chunk(&doc);
    let offsets = locate_chunks(&region).unwrap();
    assert_eq!(offsets, vec![4096u64]);
    let chunks = parse_chunks(&region, &offsets).unwrap();
    assert_eq!(chunks.len(), 1);
    let members = chunks[0].payload.as_compound().unwrap();
    let n = get_by_name(members, &b"n".to_vec()).unwrap();
    assert_eq!(n, &TagPayload::Int(7));
}

#[test]
fn parse_chunks_skips_empty_documents() {
    let region = region_with_one_chunk(&[0x00]);
    let offsets = locate_chunks(&region).unwrap();
    let chunks = parse_chunks(&region, &offsets).unwrap();
    assert_eq!(chunks.len(), 0);
}

#[test]
fn parse_chunks_propagates_extraction_errors() {
    let mut region = vec![0u8; 4096];
    region[0..4].copy_from_slice(&[0x00, 0x00, 0x01, 0x01]);
    region.extend_from_slice(&chunk_record(1, &zlib_compress(&[0x00])));
    let offsets = locate_chunks(&region).unwrap();
    assert_eq!(
        parse_chunks(&region, &offsets),
        Err(NbtError::UnsupportedCompression)
    );
}

#[test]
fn parse_chunks_walks_block_palette() {
    // The traversal a consumer makes: sections -> block_states -> palette ->
    // Name, over a hand-built chunk document.
    let mut doc: Vec<u8> = Vec::new();
    doc.extend_from_slice(&[0x0A, 0x00, 0x00]); // root
    doc.push(0x09); // List "sections"
    doc.extend_from_slice(&[0x00, 0x08]);
    doc.extend_from_slice(b"sections");
    doc.push(0x0A); // of compounds
    doc.extend_from_slice(&[0x00, 0x00, 0x00, 0x01]); // one section
    {
        doc.push(0x0A); // Compound "block_states"
        doc.extend_from_slice(&[0x00, 0x0C]);
        doc.extend_from_slice(b"block_states");
        {
            doc.push(0x09); // List "palette"
            doc.extend_from_slice(&[0x00, 0x07]);
            doc.extend_from_slice(b"palette");
            doc.push(0x0A); // of compounds
            doc.extend_from_slice(&[0x00, 0x00, 0x00, 0x01]); // one entry
            {
                doc.push(0x08); // String "Name"
                doc.extend_from_slice(&[0x00, 0x04]);
                doc.extend_from_slice(b"Name");
                doc.extend_from_slice(&[0x00, 0x0F]);
                doc.extend_from_slice(b"minecraft:stone");
                doc.push(0x00); // end palette entry
            }
            doc.push(0x00); // end block_states
        }
        doc.push(0x00); // end section
    }
    doc.push(0x00); // end root
    let region = region_with_one_chunk(&doc);
    let offsets = locate_chunks(&region).unwrap();
    let chunks = parse_chunks(&region, &offsets).unwrap();
    assert_eq!(chunks.len(), 1);
    let root = chunks[0].payload.as_compound().unwrap();
    let sections = get_by_name(root, &b"sections".to_vec()).unwrap().as_list().unwrap();
    assert_eq!(sections.len(), 1);
    let section = sections[0].as_compound().unwrap();
    let states = get_by_name(section, &b"block_states".to_vec()).unwrap().as_compound().unwrap();
    let palette = get_by_name(states, &b"palette".to_vec()).unwrap().as_list().unwrap();
    let entry = palette[0].as_compound().unwrap();
    let name = get_by_name(entry, &b"Name".to_vec()).unwrap().as_string().unwrap();
    assert_eq!(name, &b"minecraft:stone".to_vec());
}

#[test]
fn locate_chunks_skipping_passes_over_absent_entries() {
    let mut table = vec![0u8; 4096];
    table[0..4].copy_from_slice(&[0x00, 0x00, 0x02, 0x01]);
    // entry 1 absent; entry 2 present
    table[8..12].copy_from_slice(&[0x00, 0x00, 0x08, 0x01]);
    let stopping = nbt_region::locate_chunks(&table).unwrap();
    assert_eq!(stopping, vec![8192u64]);
    let skipping = nbt_region::locate_chunks_skipping(&table).unwrap();
    assert_eq!(skipping, vec![8192u64, 32768u64]);
}
