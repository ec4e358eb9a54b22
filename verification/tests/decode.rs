use std::collections::HashMap;

use storedb::block::Block;
use storedb::categories::{split_category_text, Category, CategoryBlock};
use storedb::error::StoreError;
use storedb::header::Header;
use storedb::index::IndexBlock;
use storedb::meta::{Block0, Meta, Type};
use storedb::properties::{Property, PropertyBlock};
use storedb::store::Store;
use storedb::varint::read_var_int;

const PAGE: usize = 4096;

fn put_u32(buf: &mut Vec<u8>, off: usize, v: u32) {
    buf[off..off + 4].copy_from_slice(&v.to_le_bytes());
}

fn write_page_meta(buf: &mut Vec<u8>, page_idx: usize, tag: u32, logical: u32, next: u32) {
    let off = page_idx * PAGE;
    put_u32(buf, off, 0x6462_7032);
    put_u32(buf, off + 4, PAGE as u32);
    put_u32(buf, off + 8, logical);
    put_u32(buf, off + 12, tag);
    put_u32(buf, off + 16, 0);
    put_u32(buf, off + 20, next);
}

fn property_record(index: u32, value_type: u8, prop_type: u8, name: &str) -> Vec<u8> {
    let mut rec = Vec::new();
    rec.extend_from_slice(&index.to_le_bytes());
    rec.push(value_type);
    rec.push(prop_type);
    rec.extend_from_slice(name.as_bytes());
    rec.push(0);
    rec
}

fn category_record(index: u32, text: &str) -> Vec<u8> {
    let mut rec = Vec::new();
    rec.extend_from_slice(&index.to_le_bytes());
    rec.extend_from_slice(text.as_bytes());
    rec.push(0);
    rec
}

/// Writes a typed page: preamble, then the given records after the 32-byte
/// preamble, with the logical size covering both.
fn write_records_page(buf: &mut Vec<u8>, page_idx: usize, tag: u32, next: u32, records: &[Vec<u8>]) {
    let total: usize = records.iter().map(|r| r.len()).sum();
    write_page_meta(buf, page_idx, tag, (32 + total) as u32, next);
    let mut off = page_idx * PAGE + 32;
    for rec in records {
        buf[off..off + rec.len()].copy_from_slice(rec);
        off += rec.len();
    }
}

/// A file of `pages` zeroed pages with a valid global header: no chains
/// rooted unless the caller sets the root fields.
fn base_file(pages: usize) -> Vec<u8> {
    let mut buf = vec![0u8; pages * PAGE];
    buf[0..4].copy_from_slice(&[0x38, 0x74, 0x73, 0x64]);
    put_u32(&mut buf, 36, 96);
    put_u32(&mut buf, 40, 4096);
    put_u32(&mut buf, 44, 4096);
    buf[324..324 + 8].copy_from_slice(b"store.db");
    buf
}

#[test]
fn smoke() {
    let bytes = [0x80, 0xA1, 0x20, 0x83, 0x00, 0x00, 0x00, 0x84];
    assert_eq!(read_var_int(&bytes).unwrap(), (161, 2));
}

#[test]
fn extra8() {
    let bytes = [0xfe, 0x05, 0x7a, 0xe9, 0x7f, 0xbe, 0x8b, 0x6c];
    assert_eq!(read_var_int(&bytes).unwrap(), (1542518172715884, 8));
}

#[test]
fn var_int_single_byte() {
    assert_eq!(read_var_int(&[0x05]).unwrap(), (5, 1));
}

#[test]
fn var_int_truncated_input() {
    assert_eq!(read_var_int(&[]), Err(StoreError::UnexpectedEof));
    assert_eq!(read_var_int(&[0x80]), Err(StoreError::UnexpectedEof));
}

#[test]
fn header_fields_come_from_their_offsets() {
    let mut buf = base_file(1);
    put_u32(&mut buf, 4, 7);
    put_u32(&mut buf, 8, 9);
    put_u32(&mut buf, 48, 2);
    put_u32(&mut buf, 52, 3);
    let h = Header::read_from(&buf).unwrap();
    assert_eq!(h.flags, 7);
    assert_eq!(h.header_size, 96);
    assert_eq!(h.block0_size, 4096);
    assert_eq!(h.block_size, 4096);
    assert_eq!(h.property_index, 2);
    assert_eq!(h.category_index, 3);
    assert_eq!(h.item_kind_index, 7);
    assert_eq!(h.user_tags_index, 9);
    assert_eq!(h.original_path, "store.db");
}

#[test]
fn header_bad_magic_is_invalid_format() {
    let mut buf = base_file(1);
    buf[0] = 0x39;
    assert_eq!(Header::read_from(&buf), Err(StoreError::InvalidFormat));
    assert_eq!(Store::read_from(&buf).unwrap_err(), StoreError::InvalidFormat);
}

#[test]
fn header_bad_magic_wins_over_short_file() {
    // Only the four magic bytes are present and they are wrong: the header
    // must fail on the magic before it ever looks for the other fields.
    let buf = vec![1u8, 2, 3, 4];
    assert_eq!(Header::read_from(&buf), Err(StoreError::InvalidFormat));
}

#[test]
fn header_short_file_is_eof() {
    let buf = vec![0x38, 0x74, 0x73, 0x64, 0, 0];
    assert_eq!(Header::read_from(&buf), Err(StoreError::UnexpectedEof));
}

#[test]
fn single_page_chain_yields_one_meta() {
    let mut buf = base_file(3);
    write_records_page(&mut buf, 2, 0x11, 0, &[]);
    let metas = Meta::read_chain(&buf, Some(Type::Property), 2).unwrap();
    assert_eq!(metas.len(), 1);
    assert_eq!(metas[0].next_block_index, 0);
    assert_eq!(metas[0].block_type, Some(Type::Property));
}

#[test]
fn linked_chain_comes_back_in_link_order() {
    let mut buf = base_file(6);
    write_records_page(&mut buf, 2, 0x21, 4, &[]);
    write_records_page(&mut buf, 4, 0x21, 5, &[]);
    write_records_page(&mut buf, 5, 0x21, 0, &[]);
    let metas = Meta::read_chain(&buf, Some(Type::Category), 2).unwrap();
    assert_eq!(metas.len(), 3);
    assert_eq!(metas[0].next_block_index, 4);
    assert_eq!(metas[1].next_block_index, 5);
    assert_eq!(metas[2].next_block_index, 0);
}

#[test]
fn chain_pointing_back_is_corrupt() {
    let mut buf = base_file(6);
    write_records_page(&mut buf, 2, 0x21, 4, &[]);
    write_records_page(&mut buf, 4, 0x21, 2, &[]);
    assert_eq!(
        Meta::read_chain(&buf, Some(Type::Category), 2),
        Err(StoreError::CorruptChain)
    );
    // A page that points at itself is the one-page cycle.
    let mut buf2 = base_file(3);
    write_records_page(&mut buf2, 2, 0x21, 2, &[]);
    assert_eq!(
        Meta::read_chain(&buf2, Some(Type::Category), 2),
        Err(StoreError::CorruptChain)
    );
}

#[test]
fn free_page_tags_decode_to_none() {
    let mut buf = base_file(3);
    write_records_page(&mut buf, 2, 0x00, 0, &[]);
    assert_eq!(Type::read_from(&buf, 2 * PAGE as u64 + 12).unwrap(), None);
    write_records_page(&mut buf, 2, 0x41, 0, &[]);
    assert_eq!(Type::read_from(&buf, 2 * PAGE as u64 + 12).unwrap(), None);
    // A free page never satisfies a typed chain: the walker refuses it
    // instead of handing it to a decoder.
    assert_eq!(
        Meta::read_chain(&buf, Some(Type::Property), 2),
        Err(StoreError::TypeMismatch)
    );
}

#[test]
fn unknown_page_tag_is_refused() {
    let mut buf = base_file(3);
    write_records_page(&mut buf, 2, 0x05, 0, &[]);
    assert_eq!(
        Meta::read_from(&buf, 2 * PAGE as u64),
        Err(StoreError::UnknownBlockType)
    );
}

#[test]
fn bad_page_signature_is_invalid_format() {
    let buf = base_file(3);
    assert_eq!(
        Meta::read_from(&buf, 2 * PAGE as u64),
        Err(StoreError::InvalidFormat)
    );
}

#[test]
fn property_round_trip() {
    let mut buf = base_file(3);
    let records = vec![
        property_record(1, 2, 3, "title"),
        property_record(9, 4, 5, "author"),
        property_record(7, 0, 1, ""),
    ];
    write_records_page(&mut buf, 2, 0x11, 0, &records);
    let meta = Meta::read_from(&buf, 2 * PAGE as u64).unwrap();
    let block = PropertyBlock::from_meta(&buf, 2 * PAGE as u64, meta).unwrap();
    let mut expected = HashMap::new();
    expected.insert(
        1,
        Property { name: "title".to_string(), value_type: 2, prop_type: 3 },
    );
    expected.insert(
        9,
        Property { name: "author".to_string(), value_type: 4, prop_type: 5 },
    );
    expected.insert(
        7,
        Property { name: "".to_string(), value_type: 0, prop_type: 1 },
    );
    assert_eq!(block.data, expected);
}

#[test]
fn category_round_trip() {
    let mut buf = base_file(3);
    let records = vec![
        category_record(4, "Books\u{16}\u{2}en"),
        category_record(6, "Filme"),
    ];
    write_records_page(&mut buf, 2, 0x21, 0, &records);
    let meta = Meta::read_from(&buf, 2 * PAGE as u64).unwrap();
    let block = CategoryBlock::from_meta(&buf, 2 * PAGE as u64, meta).unwrap();
    let mut expected = HashMap::new();
    expected.insert(
        4,
        Category { name: "Books".to_string(), lang: Some("en".to_string()) },
    );
    expected.insert(6, Category { name: "Filme".to_string(), lang: None });
    assert_eq!(block.data, expected);
}

#[test]
fn index_round_trip() {
    let mut buf = base_file(3);
    let records = vec![category_record(2, "Kind\u{16}\u{2}de")];
    write_records_page(&mut buf, 2, 0x81, 0, &records);
    let meta = Meta::read_from(&buf, 2 * PAGE as u64).unwrap();
    let block = IndexBlock::from_meta(&buf, 2 * PAGE as u64, meta).unwrap();
    let mut expected = HashMap::new();
    expected.insert(
        2,
        Category { name: "Kind".to_string(), lang: Some("de".to_string()) },
    );
    assert_eq!(block.data, expected);
}

#[test]
fn duplicate_index_in_one_page_fails() {
    let mut buf = base_file(3);
    let records = vec![
        property_record(5, 1, 1, "a"),
        property_record(5, 2, 2, "b"),
    ];
    write_records_page(&mut buf, 2, 0x11, 0, &records);
    let meta = Meta::read_from(&buf, 2 * PAGE as u64).unwrap();
    assert_eq!(
        PropertyBlock::from_meta(&buf, 2 * PAGE as u64, meta).unwrap_err(),
        StoreError::DuplicateRecord
    );
    let mut buf2 = base_file(3);
    let records2 = vec![category_record(5, "a"), category_record(5, "b")];
    write_records_page(&mut buf2, 2, 0x21, 0, &records2);
    let meta2 = Meta::read_from(&buf2, 2 * PAGE as u64).unwrap();
    assert_eq!(
        CategoryBlock::from_meta(&buf2, 2 * PAGE as u64, meta2).unwrap_err(),
        StoreError::DuplicateRecord
    );
}

#[test]
fn duplicate_index_across_chained_pages_fails() {
    let mut buf = base_file(5);
    put_u32(&mut buf, 48, 2);
    write_records_page(&mut buf, 2, 0x11, 3, &[property_record(5, 1, 1, "a")]);
    write_records_page(&mut buf, 3, 0x11, 0, &[property_record(5, 2, 2, "b")]);
    assert_eq!(Store::read_from(&buf).unwrap_err(), StoreError::DuplicateRecord);
}

#[test]
fn invalid_text_in_record_fails() {
    let mut buf = base_file(3);
    let mut rec = Vec::new();
    rec.extend_from_slice(&1u32.to_le_bytes());
    rec.push(1);
    rec.push(1);
    rec.push(0xFF);
    rec.push(0);
    write_records_page(&mut buf, 2, 0x11, 0, &[rec]);
    let meta = Meta::read_from(&buf, 2 * PAGE as u64).unwrap();
    assert_eq!(
        PropertyBlock::from_meta(&buf, 2 * PAGE as u64, meta).unwrap_err(),
        StoreError::InvalidText
    );
}

#[test]
fn category_text_splits_on_separator() {
    let (name, lang) = split_category_text("Books\u{16}\u{2}en");
    assert_eq!(name, "Books");
    assert_eq!(lang, Some("en".to_string()));
    let (name2, lang2) = split_category_text("Filme");
    assert_eq!(name2, "Filme");
    assert_eq!(lang2, None);
    // A third part, after a second separator, is discarded.
    let (name3, lang3) = split_category_text("a\u{16}\u{2}b\u{16}\u{2}c");
    assert_eq!(name3, "a");
    assert_eq!(lang3, Some("b".to_string()));
}

#[test]
fn block0_reads_allocation_entries() {
    let mut buf = base_file(3);
    put_u32(&mut buf, 4096, 0x6462_6D31);
    put_u32(&mut buf, 4100, 4096);
    put_u32(&mut buf, 4104, 2);
    // Two 16-byte slots from 4116 on: 8 reserved bytes, then the pair.
    put_u32(&mut buf, 4116 + 8, 3);
    put_u32(&mut buf, 4116 + 12, 4096);
    put_u32(&mut buf, 4132 + 8, 5);
    put_u32(&mut buf, 4132 + 12, 8192);
    let b0 = Block0::read_from(&buf).unwrap();
    assert_eq!(b0.physical_size, 4096);
    assert_eq!(b0.indices.len(), 2);
    assert_eq!(b0.indices[0].offset_index, 3);
    assert_eq!(b0.indices[0].dest_block_size, 4096);
    assert_eq!(b0.indices[1].offset_index, 5);
    assert_eq!(b0.indices[1].dest_block_size, 8192);
    // The second accepted signature works too; any other is refused.
    put_u32(&mut buf, 4096, 0x6462_6D32);
    assert!(Block0::read_from(&buf).is_ok());
    put_u32(&mut buf, 4096, 0x6462_6D33);
    assert_eq!(Block0::read_from(&buf), Err(StoreError::InvalidFormat));
}

#[test]
fn whole_store_decodes() {
    let mut buf = base_file(6);
    put_u32(&mut buf, 48, 2);
    put_u32(&mut buf, 52, 3);
    write_records_page(&mut buf, 2, 0x11, 4, &[property_record(1, 2, 3, "title")]);
    write_records_page(&mut buf, 4, 0x11, 0, &[property_record(2, 2, 3, "year")]);
    write_records_page(&mut buf, 3, 0x21, 0, &[category_record(8, "Books\u{16}\u{2}en")]);
    let store = Store::read_from(&buf).unwrap();
    assert_eq!(store.header.property_index, 2);
    assert_eq!(store.properties.len(), 2);
    assert_eq!(store.properties[&1].name, "title");
    assert_eq!(store.properties[&2].name, "year");
    assert_eq!(store.categories.len(), 1);
    assert_eq!(store.categories[&8].name, "Books");
    assert_eq!(store.categories[&8].lang, Some("en".to_string()));
}

#[test]
fn absent_roots_give_empty_store() {
    let buf = base_file(2);
    let store = Store::read_from(&buf).unwrap();
    assert!(store.properties.is_empty());
    assert!(store.categories.is_empty());
}

#[test]
fn wrong_chain_type_is_mismatch() {
    let mut buf = base_file(3);
    put_u32(&mut buf, 48, 2);
    write_records_page(&mut buf, 2, 0x21, 0, &[]);
    assert_eq!(Store::read_from(&buf).unwrap_err(), StoreError::TypeMismatch);
}

#[test]
fn truncated_record_is_eof() {
    let mut buf = base_file(3);
    // Logical size promises a record, but the bytes after the preamble hold
    // no terminator before the page data runs into zeroes: the name ends at
    // the first zero, so promise more than the page holds instead.
    write_page_meta(&mut buf, 2, 0x11, 40, 0);
    let meta = Meta::read_from(&buf, 2 * PAGE as u64).unwrap();
    let truncated = &buf[..2 * PAGE + 36];
    assert_eq!(
        PropertyBlock::from_meta(truncated, 2 * PAGE as u64, meta).unwrap_err(),
        StoreError::UnexpectedEof
    );
}
