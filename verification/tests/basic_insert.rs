use memmap2::MmapMut;
use rbolt::btree::WriteTxn;
use rbolt::db::{commit_dirty_pages, header_to_bytes, initialize_root_page, read_header, validate_header, Header, ReadTxn};

fn open_db(num_pages: usize) -> (MmapMut, Header) {
    let mut map = MmapMut::map_anon(4096 * num_pages).unwrap();
    let header = Header::new(4096);
    let hb = header_to_bytes(&header);
    map[..48].copy_from_slice(&hb);
    (map, header)
}

fn ensure_root(map: &mut MmapMut, header: &mut Header) {
    let off = 2 * 4096;
    if map.len() <= off || map[off] == 0 {
        initialize_root_page(map, header).unwrap();
    }
}

fn reopen(map: &MmapMut) -> Header {
    let header = read_header(map).unwrap();
    validate_header(&header).unwrap();
    header
}

#[test]
fn test_insert_and_get_single_key() {
    let (mut map, mut header) = open_db(16);

    {
        ensure_root(&mut map, &mut header);
        let mut wtxn = WriteTxn::new(&map, header.root_page_id, Vec::new(), header.highest_page_id);
        wtxn.insert(b"hello", b"world").unwrap();
        let (dirty_pages, highest_page_id, root_page_id) = wtxn.prepare_commit();
        commit_dirty_pages(&mut map, &mut header, &dirty_pages, highest_page_id, root_page_id)
            .unwrap();
    }

    {
        let header = reopen(&map);
        let rtxn = ReadTxn::new(&map, header);
        let value = rtxn.get(b"hello").unwrap();
        assert_eq!(value, Some(b"world".to_vec()));
    }
}

#[test]
fn test_insert_multiple_keys() {
    let (mut map, mut header) = open_db(16);

    {
        ensure_root(&mut map, &mut header);
        let mut wtxn = WriteTxn::new(&map, header.root_page_id, Vec::new(), header.highest_page_id);
        wtxn.insert(b"key1", b"value1").unwrap();
        wtxn.insert(b"key2", b"value2").unwrap();
        wtxn.insert(b"key3", b"value3").unwrap();
        let (dirty_pages, highest_page_id, root_page_id) = wtxn.prepare_commit();
        commit_dirty_pages(&mut map, &mut header, &dirty_pages, highest_page_id, root_page_id)
            .unwrap();
    }

    {
        let header = reopen(&map);
        let rtxn = ReadTxn::new(&map, header);
        assert_eq!(rtxn.get(b"key1").unwrap(), Some(b"value1".to_vec()));
        assert_eq!(rtxn.get(b"key2").unwrap(), Some(b"value2".to_vec()));
        assert_eq!(rtxn.get(b"key3").unwrap(), Some(b"value3".to_vec()));
        assert_eq!(rtxn.get(b"nonexistent").unwrap(), None);
    }
}
