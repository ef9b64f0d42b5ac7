use memmap2::MmapMut;
use rbolt::btree::WriteTxn;
use rbolt::db::{commit_dirty_pages, header_to_bytes, initialize_root_page, read_header, validate_header, Header, ReadTxn};

fn open_db(num_pages: usize) -> (MmapMut, Header) {
    let mut map = MmapMut::map_anon(4096 * num_pages).unwrap();
    let header = Header::new(4096);
    let hb = header_to_bytes(&header);
    map[..48].copy_from_slice(&hb);
    (map, header)
}

fn ensure_root(map: &mut MmapMut, header: &mut Header) {
    let off = 2 * 4096;
    if map.len() <= off || map[off] == 0 {
        initialize_root_page(map, header).unwrap();
    }
}

fn reopen(map: &MmapMut) -> Header {
    let header = read_header(map).unwrap();
    validate_header(&header).unwrap();
    header
}

#[test]
fn test_multiple_sequential_transactions() {
    let (mut map, mut header) = open_db(64);

    {
        ensure_root(&mut map, &mut header);
        let mut wtxn = WriteTxn::new(&map, header.root_page_id, Vec::new(), header.highest_page_id);
        for i in 0..50 {
            let key = format!("key_{:03}", i);
            let value = format!("value_txn1_{}", i);
            wtxn.insert(key.as_bytes(), value.as_bytes()).unwrap();
        }
        let (dirty_pages, highest_page_id, root_page_id) = wtxn.prepare_commit();
        commit_dirty_pages(&mut map, &mut header, &dirty_pages, highest_page_id, root_page_id)
            .unwrap();
    }

    {
        let mut wtxn = WriteTxn::new(&map, header.root_page_id, Vec::new(), header.highest_page_id);
        for i in 50..100 {
            let key = format!("key_{:03}", i);
            let value = format!("value_txn2_{}", i);
            wtxn.insert(key.as_bytes(), value.as_bytes()).unwrap();
        }
        let (dirty_pages, highest_page_id, root_page_id) = wtxn.prepare_commit();
        commit_dirty_pages(&mut map, &mut header, &dirty_pages, highest_page_id, root_page_id)
            .unwrap();
    }

    {
        let mut wtxn = WriteTxn::new(&map, header.root_page_id, Vec::new(), header.highest_page_id);
        for i in 100..150 {
            let key = format!("key_{:03}", i);
            let value = format!("value_txn3_{}", i);
            wtxn.insert(key.as_bytes(), value.as_bytes()).unwrap();
        }
        let (dirty_pages, highest_page_id, root_page_id) = wtxn.prepare_commit();
        commit_dirty_pages(&mut map, &mut header, &dirty_pages, highest_page_id, root_page_id)
            .unwrap();
    }

    {
        let header = reopen(&map);
        let rtxn = ReadTxn::new(&map, header);
        for i in 0..150 {
            let key = format!("key_{:03}", i);
            let result = rtxn.get(key.as_bytes()).unwrap();
            assert!(result.is_some(), "Key {} should exist", key);
        }
    }
}

#[test]
fn test_persistence_across_reopens() {
    let (mut map, mut header) = open_db(64);

    {
        ensure_root(&mut map, &mut header);
        let mut wtxn = WriteTxn::new(&map, header.root_page_id, Vec::new(), header.highest_page_id);

        for i in 0..100 {
            let key = format!("persistent_{:03}", i);
            let value = format!("value_{}", i);
            wtxn.insert(key.as_bytes(), value.as_bytes()).unwrap();
        }

        let (dirty_pages, highest_page_id, root_page_id) = wtxn.prepare_commit();
        commit_dirty_pages(&mut map, &mut header, &dirty_pages, highest_page_id, root_page_id)
            .unwrap();
    }

    {
        let header = reopen(&map);
        let rtxn = ReadTxn::new(&map, header);

        for i in 0..100 {
            let key = format!("persistent_{:03}", i);
            let expected_value = format!("value_{}", i);
            let result = rtxn.get(key.as_bytes()).unwrap();
            assert_eq!(
                result,
                Some(expected_value.as_bytes().to_vec()),
                "Key {} should persist across reopens",
                key
            );
        }
    }

    {
        let mut header = reopen(&map);
        let mut wtxn = WriteTxn::new(&map, header.root_page_id, Vec::new(), header.highest_page_id);

        for i in 100..150 {
            let key = format!("persistent_{:03}", i);
            let value = format!("value_{}", i);
            wtxn.insert(key.as_bytes(), value.as_bytes()).unwrap();
        }

        let (dirty_pages, highest_page_id, root_page_id) = wtxn.prepare_commit();
        commit_dirty_pages(&mut map, &mut header, &dirty_pages, highest_page_id, root_page_id)
            .unwrap();
    }

    {
        let header = reopen(&map);
        let rtxn = ReadTxn::new(&map, header);

        for i in 0..150 {
            let key = format!("persistent_{:03}", i);
            let expected_value = format!("value_{}", i);
            let result = rtxn.get(key.as_bytes()).unwrap();
            assert_eq!(
                result,
                Some(expected_value.as_bytes().to_vec()),
                "Key {} should persist",
                key
            );
        }
    }
}

#[test]
fn test_read_during_write_transaction_prep() {
    let (mut map, mut header) = open_db(16);

    {
        ensure_root(&mut map, &mut header);
        let mut wtxn = WriteTxn::new(&map, header.root_page_id, Vec::new(), header.highest_page_id);
        wtxn.insert(b"key1", b"value1").unwrap();
        let (dirty_pages, highest_page_id, root_page_id) = wtxn.prepare_commit();
        commit_dirty_pages(&mut map, &mut header, &dirty_pages, highest_page_id, root_page_id)
            .unwrap();
    }

    let mut wtxn = WriteTxn::new(&map, header.root_page_id, Vec::new(), header.highest_page_id);
    wtxn.insert(b"key2", b"value2").unwrap();

    let (dirty_pages, highest_page_id, root_page_id) = wtxn.prepare_commit();
    commit_dirty_pages(&mut map, &mut header, &dirty_pages, highest_page_id, root_page_id)
        .unwrap();

    let header2 = reopen(&map);
    let rtxn = ReadTxn::new(&map, header2);
    assert_eq!(rtxn.get(b"key1").unwrap(), Some(b"value1".to_vec()));
    assert_eq!(rtxn.get(b"key2").unwrap(), Some(b"value2".to_vec()));
}
