//! Exact checks of the on-disk encodings, the key order, the error variants,
//! and the header lifecycle.

use memmap2::MmapMut;
use rbolt::btree::{BTreeError, WriteTxn};
use rbolt::db::{commit_dirty_pages, header_to_bytes, initialize_root_page, read_header, validate_header, DbError, Header, PageReader, ReadTxn, HEADER_SIZE, MAGIC, VERSION};
use core::cmp::Ordering;
use rbolt::order::compare_bytes;
use rbolt::page::{PageType, page_type_byte, PAGE_BODY_SIZE, PAGE_HEADER_SIZE, PAGE_SIZE, BRANCH_ELEMENT_SIZE, LEAF_ELEMENT_SIZE};

fn open_db(num_pages: usize) -> (MmapMut, Header) {
    let mut map = MmapMut::map_anon(4096 * num_pages).unwrap();
    let header = Header::new(4096);
    let hb = header_to_bytes(&header);
    map[..48].copy_from_slice(&hb);
    (map, header)
}

fn ensure_root(map: &mut MmapMut, header: &mut Header) {
    let off = 2 * 4096;
    if map.len() <= off || map[off] == 0 {
        initialize_root_page(map, header).unwrap();
    }
}

#[test]
fn test_header_layout_exact() {
    assert_eq!(PAGE_SIZE, 4096);
    assert_eq!(PAGE_HEADER_SIZE, 16);
    assert_eq!(PAGE_BODY_SIZE, 4080);
    assert_eq!(LEAF_ELEMENT_SIZE, 8);
    assert_eq!(BRANCH_ELEMENT_SIZE, 16);
    assert_eq!(HEADER_SIZE, 48);
    assert_eq!(MAGIC, 0x73796E63);
    assert_eq!(VERSION, 1);

    let h = Header::new(4096);
    assert_eq!(h.root_page_id, 0);
    assert_eq!(h.free_list_page_id, 1);
    assert_eq!(h.highest_page_id, 2);
    assert_eq!(h.tx_id, 0);

    let b = header_to_bytes(&h);
    assert_eq!(b.len(), 48);
    // magic 0x73796E63, little-endian
    assert_eq!(&b[0..4], &[0x63, 0x6E, 0x79, 0x73]);
    // version 1
    assert_eq!(&b[4..8], &[1, 0, 0, 0]);
    // page size 4096 = 0x1000
    assert_eq!(&b[8..12], &[0x00, 0x10, 0, 0]);
    // free list page id 1 at offset 24
    assert_eq!(b[24], 1);
    // highest page id 2 at offset 32
    assert_eq!(b[32], 2);
}

#[test]
fn test_page_type_codes() {
    assert_eq!(page_type_byte(PageType::Meta), 1);
    assert_eq!(page_type_byte(PageType::FreeList), 2);
    assert_eq!(page_type_byte(PageType::Leaf), 3);
    assert_eq!(page_type_byte(PageType::Branch), 4);
}

#[test]
fn test_key_order() {
    assert_eq!(compare_bytes(b"", b""), Ordering::Equal);
    assert_eq!(compare_bytes(b"", b"a"), Ordering::Less);
    assert_eq!(compare_bytes(b"a", b""), Ordering::Greater);
    assert_eq!(compare_bytes(b"abc", b"abd"), Ordering::Less);
    assert_eq!(compare_bytes(b"ab", b"abc"), Ordering::Less);
    assert_eq!(compare_bytes(b"abc", b"abc"), Ordering::Equal);
    assert_eq!(compare_bytes(&[0xffu8], &[0x01u8]), Ordering::Greater);
}

#[test]
fn test_key_and_value_size_errors() {
    let (mut map, mut header) = open_db(16);
    ensure_root(&mut map, &mut header);
    let mut wtxn = WriteTxn::new(&map, header.root_page_id, Vec::new(), header.highest_page_id);

    let big = vec![b'k'; 65536];
    match wtxn.insert(&big, b"v") {
        Err(BTreeError::KeyTooLarge { key_size, max_size }) => {
            assert_eq!(key_size, 65536);
            assert_eq!(max_size, 65535);
        },
        _ => panic!("expected KeyTooLarge"),
    }
    match wtxn.insert(b"k", &big) {
        Err(BTreeError::ValueTooLarge { value_size, max_size }) => {
            assert_eq!(value_size, 65536);
            assert_eq!(max_size, 65535);
        },
        _ => panic!("expected ValueTooLarge"),
    }
    // A pair too large for any page cannot be stored at all.
    match wtxn.insert(&vec![b'k'; 3000], &vec![b'v'; 3000]) {
        Err(BTreeError::PageFull { .. }) => {},
        _ => panic!("expected PageFull"),
    }
    // The writer stays usable after a refused insert.
    wtxn.insert(b"still", b"works").unwrap();
    let (dirty_pages, highest_page_id, root_page_id) = wtxn.prepare_commit();
    commit_dirty_pages(&mut map, &mut header, &dirty_pages, highest_page_id, root_page_id)
        .unwrap();
    let rtxn = ReadTxn::new(&map, header);
    assert_eq!(rtxn.get(b"still").unwrap(), Some(b"works".to_vec()));
    assert_eq!(rtxn.get(&vec![b'k'; 3000]).unwrap(), None);
}

#[test]
fn test_open_validation_errors() {
    let small = MmapMut::map_anon(16).unwrap();
    match read_header(&small) {
        Err(DbError::FileTooSmall { size, required }) => {
            assert_eq!(size, 16);
            assert_eq!(required, 48);
        },
        _ => panic!("expected FileTooSmall"),
    }

    let (mut map, _header) = open_db(4);
    map[0] = 0;
    let bad = read_header(&map).unwrap();
    match validate_header(&bad) {
        Err(DbError::InvalidMagic { found, expected }) => {
            assert_eq!(expected, MAGIC);
            assert_ne!(found, MAGIC);
        },
        _ => panic!("expected InvalidMagic"),
    }
}

#[test]
fn test_commit_bumps_tx_id_and_keeps_highest() {
    let (mut map, mut header) = open_db(64);
    ensure_root(&mut map, &mut header);
    let tx0 = header.tx_id;
    let high0 = header.highest_page_id;
    for round in 0..3 {
        let mut wtxn = WriteTxn::new(&map, header.root_page_id, Vec::new(), header.highest_page_id);
        for i in 0..80 {
            let key = format!("r{}_{:03}", round, i);
            wtxn.insert(key.as_bytes(), b"v").unwrap();
        }
        let (dirty_pages, highest_page_id, root_page_id) = wtxn.prepare_commit();
        assert!(highest_page_id >= header.highest_page_id);
        let before = header.tx_id;
        commit_dirty_pages(&mut map, &mut header, &dirty_pages, highest_page_id, root_page_id)
            .unwrap();
        assert_eq!(header.tx_id, before + 1);
        let persisted = read_header(&map).unwrap();
        assert_eq!(persisted.tx_id, header.tx_id);
        assert_eq!(persisted.root_page_id, header.root_page_id);
        assert!(persisted.highest_page_id >= high0);
    }
    assert_eq!(header.tx_id, tx0 + 3);
}

#[test]
fn test_snapshot_is_isolated_from_later_commit() {
    let (mut map2, mut header) = open_db(16);
    ensure_root(&mut map2, &mut header);
    {
        let mut wtxn = WriteTxn::new(&map2, header.root_page_id, Vec::new(), header.highest_page_id);
        wtxn.insert(b"epoch", b"one").unwrap();
        let (d, h, r) = wtxn.prepare_commit();
        commit_dirty_pages(&mut map2, &mut header, &d, h, r).unwrap();
    }
    // A snapshot taken now keeps its own copied header; staged changes of a
    // later writer are invisible to it.
    let snapshot_header = header;
    {
        let mut wtxn = WriteTxn::new(&map2, header.root_page_id, Vec::new(), header.highest_page_id);
        wtxn.insert(b"epoch", b"two").unwrap();
        // Not yet committed: the pre-commit state is what any reader sees.
        let rtxn = ReadTxn::new(&map2, snapshot_header);
        assert_eq!(rtxn.get(b"epoch").unwrap(), Some(b"one".to_vec()));
        let (d, h, r) = wtxn.prepare_commit();
        commit_dirty_pages(&mut map2, &mut header, &d, h, r).unwrap();
    }
    let rtxn = ReadTxn::new(&map2, header);
    assert_eq!(rtxn.get(b"epoch").unwrap(), Some(b"two".to_vec()));
}

#[test]
fn test_get_page_reads_page_headers() {
    let (mut map, mut header) = open_db(16);
    ensure_root(&mut map, &mut header);
    let rtxn = ReadTxn::new(&map, header);
    let root = rtxn.get_page(2).unwrap();
    assert_eq!(root.id, 2);
    assert_eq!(root.page_type, 3);
    assert_eq!(root.count, 0);
    // The same read through the trait, with an explicit bound.
    let via_trait = PageReader::get_page(&rtxn, 2, header.highest_page_id).unwrap();
    assert_eq!(via_trait.id, 2);
    // Beyond the snapshot's highest page id the read is refused.
    assert!(rtxn.get_page(header.highest_page_id + 1).is_err());
}
