use memmap2::MmapMut;
use rbolt::btree::WriteTxn;
use rbolt::db::{commit_dirty_pages, header_to_bytes, initialize_root_page, read_header, validate_header, Header, ReadTxn};

fn open_db(num_pages: usize) -> (MmapMut, Header) {
    let mut map = MmapMut::map_anon(4096 * num_pages).unwrap();
    let header = Header::new(4096);
    let hb = header_to_bytes(&header);
    map[..48].copy_from_slice(&hb);
    (map, header)
}

fn ensure_root(map: &mut MmapMut, header: &mut Header) {
    let off = 2 * 4096;
    if map.len() <= off || map[off] == 0 {
        initialize_root_page(map, header).unwrap();
    }
}

fn reopen(map: &MmapMut) -> Header {
    let header = read_header(map).unwrap();
    validate_header(&header).unwrap();
    header
}

#[test]
fn test_duplicate_key_overwrites() {
    let (mut map, mut header) = open_db(16);

    {
        ensure_root(&mut map, &mut header);
        let mut wtxn = WriteTxn::new(&map, header.root_page_id, Vec::new(), header.highest_page_id);

        wtxn.insert(b"mykey", b"value1").unwrap();
        wtxn.insert(b"mykey", b"value2").unwrap();
        wtxn.insert(b"mykey", b"value3").unwrap();

        let (dirty_pages, highest_page_id, root_page_id) = wtxn.prepare_commit();
        commit_dirty_pages(&mut map, &mut header, &dirty_pages, highest_page_id, root_page_id)
            .unwrap();
    }

    {
        let header = reopen(&map);
        let rtxn = ReadTxn::new(&map, header);

        let result = rtxn.get(b"mykey").unwrap();
        assert_eq!(result, Some(b"value3".to_vec()), "Should have last inserted value");
    }
}

#[test]
fn test_empty_key_and_value() {
    let (mut map, mut header) = open_db(16);

    {
        ensure_root(&mut map, &mut header);
        let mut wtxn = WriteTxn::new(&map, header.root_page_id, Vec::new(), header.highest_page_id);

        wtxn.insert(b"", b"").unwrap();
        wtxn.insert(b"nonempty", b"").unwrap();
        wtxn.insert(b"", b"nonempty").unwrap();

        let (dirty_pages, highest_page_id, root_page_id) = wtxn.prepare_commit();
        commit_dirty_pages(&mut map, &mut header, &dirty_pages, highest_page_id, root_page_id)
            .unwrap();
    }

    {
        let header = reopen(&map);
        let rtxn = ReadTxn::new(&map, header);

        assert_eq!(rtxn.get(b"").unwrap(), Some(b"nonempty".to_vec()));
        assert_eq!(rtxn.get(b"nonempty").unwrap(), Some(b"".to_vec()));
    }
}

#[test]
fn test_large_keys_and_values() {
    let (mut map, mut header) = open_db(16);

    {
        ensure_root(&mut map, &mut header);
        let mut wtxn = WriteTxn::new(&map, header.root_page_id, Vec::new(), header.highest_page_id);

        let large_key = vec![b'k'; 1024];
        let large_value = vec![b'v'; 2048];

        wtxn.insert(&large_key, &large_value).unwrap();

        let (dirty_pages, highest_page_id, root_page_id) = wtxn.prepare_commit();
        commit_dirty_pages(&mut map, &mut header, &dirty_pages, highest_page_id, root_page_id)
            .unwrap();
    }

    {
        let header = reopen(&map);
        let rtxn = ReadTxn::new(&map, header);

        let large_key = vec![b'k'; 1024];
        let expected_value = vec![b'v'; 2048];

        let result = rtxn.get(&large_key).unwrap();
        assert_eq!(result, Some(expected_value));
    }
}

#[test]
fn test_query_empty_database() {
    let (mut map, mut header) = open_db(16);

    {
        ensure_root(&mut map, &mut header);
        let header = reopen(&map);
        let rtxn = ReadTxn::new(&map, header);

        assert_eq!(rtxn.get(b"anykey").unwrap(), None);
    }
}
