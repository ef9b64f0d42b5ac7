use memmap2::MmapMut;
use rbolt::btree::WriteTxn;
use rbolt::db::{commit_dirty_pages, header_to_bytes, initialize_root_page, read_header, validate_header, Header, ReadTxn};

fn open_db(num_pages: usize) -> (MmapMut, Header) {
    let mut map = MmapMut::map_anon(4096 * num_pages).unwrap();
    let header = Header::new(4096);
    let hb = header_to_bytes(&header);
    map[..48].copy_from_slice(&hb);
    (map, header)
}

fn ensure_root(map: &mut MmapMut, header: &mut Header) {
    let off = 2 * 4096;
    if map.len() <= off || map[off] == 0 {
        initialize_root_page(map, header).unwrap();
    }
}

fn reopen(map: &MmapMut) -> Header {
    let header = read_header(map).unwrap();
    validate_header(&header).unwrap();
    header
}

#[test]
fn test_compaction_triggered() {
    let (mut map, mut header) = open_db(64);

    {
        ensure_root(&mut map, &mut header);
        let mut wtxn = WriteTxn::new(&map, header.root_page_id, Vec::new(), header.highest_page_id);

        for i in 0..30 {
            let key = format!("key{:03}", i);
            let value = format!("large_value_{:03}_padding_to_make_it_big", i);
            wtxn.insert(key.as_bytes(), value.as_bytes()).unwrap();
        }

        let (dirty_pages, highest_page_id, root_page_id) = wtxn.prepare_commit();
        commit_dirty_pages(&mut map, &mut header, &dirty_pages, highest_page_id, root_page_id)
            .unwrap();
    }

    {
        let mut header = reopen(&map);
        let mut wtxn = WriteTxn::new(&map, header.root_page_id, Vec::new(), header.highest_page_id);

        for i in (0..30).step_by(2) {
            let key = format!("key{:03}", i);
            let value = "x";
            wtxn.insert(key.as_bytes(), value.as_bytes()).unwrap();
        }

        let (dirty_pages, highest_page_id, root_page_id) = wtxn.prepare_commit();
        commit_dirty_pages(&mut map, &mut header, &dirty_pages, highest_page_id, root_page_id)
            .unwrap();
    }

    {
        let mut header = reopen(&map);
        let mut wtxn = WriteTxn::new(&map, header.root_page_id, Vec::new(), header.highest_page_id);

        for i in 30..50 {
            let key = format!("key{:03}", i);
            let value = format!("value_{:03}", i);
            wtxn.insert(key.as_bytes(), value.as_bytes()).unwrap();
        }

        let (dirty_pages, highest_page_id, root_page_id) = wtxn.prepare_commit();
        commit_dirty_pages(&mut map, &mut header, &dirty_pages, highest_page_id, root_page_id)
            .unwrap();
    }

    {
        let header = reopen(&map);
        let rtxn = ReadTxn::new(&map, header);

        for i in (0..30).step_by(2) {
            let key = format!("key{:03}", i);
            let value = rtxn.get(key.as_bytes()).unwrap();
            assert_eq!(value, Some(b"x".to_vec()), "Key {} should have been updated", key);
        }

        for i in (1..30).step_by(2) {
            let key = format!("key{:03}", i);
            let value = rtxn.get(key.as_bytes()).unwrap();
            assert!(value.is_some());
            let val_str = String::from_utf8(value.unwrap()).unwrap();
            assert!(val_str.contains("large_value"), "Key {} should have original value", key);
        }

        for i in 30..50 {
            let key = format!("key{:03}", i);
            let value = rtxn.get(key.as_bytes()).unwrap();
            assert_eq!(
                value,
                Some(format!("value_{:03}", i).as_bytes().to_vec()),
                "Key {} should exist",
                key
            );
        }
    }
}

#[test]
fn test_compaction_vs_split() {
    let (mut map, mut header) = open_db(64);

    {
        ensure_root(&mut map, &mut header);
        let mut wtxn = WriteTxn::new(&map, header.root_page_id, Vec::new(), header.highest_page_id);

        for i in 0..100 {
            let key = format!("k{:04}", i);
            let value = vec![b'x'; 30];
            wtxn.insert(key.as_bytes(), &value).unwrap();
        }

        let (dirty_pages, highest_page_id, root_page_id) = wtxn.prepare_commit();
        commit_dirty_pages(&mut map, &mut header, &dirty_pages, highest_page_id, root_page_id)
            .unwrap();
    }

    {
        let mut header = reopen(&map);
        let mut wtxn = WriteTxn::new(&map, header.root_page_id, Vec::new(), header.highest_page_id);

        for i in (0..100).step_by(3) {
            let key = format!("k{:04}", i);
            let value = b"y";
            wtxn.insert(key.as_bytes(), value).unwrap();
        }

        let (dirty_pages, highest_page_id, root_page_id) = wtxn.prepare_commit();
        commit_dirty_pages(&mut map, &mut header, &dirty_pages, highest_page_id, root_page_id)
            .unwrap();
    }

    {
        let mut header = reopen(&map);
        let mut wtxn = WriteTxn::new(&map, header.root_page_id, Vec::new(), header.highest_page_id);

        for i in 100..120 {
            let key = format!("k{:04}", i);
            let value = vec![b'z'; 30];
            wtxn.insert(key.as_bytes(), &value).unwrap();
        }

        let (dirty_pages, highest_page_id, root_page_id) = wtxn.prepare_commit();
        commit_dirty_pages(&mut map, &mut header, &dirty_pages, highest_page_id, root_page_id)
            .unwrap();
    }

    {
        let header = reopen(&map);
        let rtxn = ReadTxn::new(&map, header);

        for i in 0..120 {
            let key = format!("k{:04}", i);
            let value = rtxn.get(key.as_bytes()).unwrap();
            assert!(value.is_some(), "Key {} should exist", key);
        }
    }
}
