use memmap2::MmapMut;
use rbolt::btree::WriteTxn;
use rbolt::db::{commit_dirty_pages, header_to_bytes, initialize_root_page, read_header, validate_header, Header, ReadTxn};

fn open_db(num_pages: usize) -> (MmapMut, Header) {
    let mut map = MmapMut::map_anon(4096 * num_pages).unwrap();
    let header = Header::new(4096);
    let hb = header_to_bytes(&header);
    map[..48].copy_from_slice(&hb);
    (map, header)
}

fn ensure_root(map: &mut MmapMut, header: &mut Header) {
    let off = 2 * 4096;
    if map.len() <= off || map[off] == 0 {
        initialize_root_page(map, header).unwrap();
    }
}

fn reopen(map: &MmapMut) -> Header {
    let header = read_header(map).unwrap();
    validate_header(&header).unwrap();
    header
}

#[test]
fn test_page_split() {
    let (mut map, mut header) = open_db(64);

    {
        ensure_root(&mut map, &mut header);
        let mut wtxn = WriteTxn::new(&map, header.root_page_id, Vec::new(), header.highest_page_id);

        for i in 0..200 {
            let key = format!("key_{:04}", i);
            let value = format!("value_{:04}", i);
            wtxn.insert(key.as_bytes(), value.as_bytes()).unwrap();
        }

        let (dirty_pages, highest_page_id, root_page_id) = wtxn.prepare_commit();
        commit_dirty_pages(&mut map, &mut header, &dirty_pages, highest_page_id, root_page_id)
            .unwrap();
    }

    {
        let header = reopen(&map);
        let rtxn = ReadTxn::new(&map, header);

        for i in 0..200 {
            let key = format!("key_{:04}", i);
            let expected_value = format!("value_{:04}", i);
            let result = rtxn.get(key.as_bytes()).unwrap();
            assert_eq!(result, Some(expected_value.as_bytes().to_vec()), "Key {} mismatch", key);
        }
    }
}
