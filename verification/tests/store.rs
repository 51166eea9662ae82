use rbe2rs::record::RBE2;
use rbe2rs::store::{LookupError, RBE2Storage};

#[test]
fn record_new_holds_fields() {
    let r = RBE2::new(7, 42, 123456, vec![5, 5, 9]);
    assert_eq!(r.eid, 7);
    assert_eq!(r.gm, 42);
    assert_eq!(r.cn, 123456);
    assert_eq!(r.gns, vec![5, 5, 9]);
    let empty = RBE2::new(0, 0, 0, Vec::new());
    assert_eq!(empty.gns, Vec::<u32>::new());
}

#[test]
fn roundtrip_unique_ids() {
    let batch = vec![
        RBE2::new(1, 10, 3, vec![100, 101]),
        RBE2::new(2, 20, 1, vec![101, 102]),
        RBE2::new(3, 30, 6, vec![]),
    ];
    let store = RBE2Storage::new(batch);
    let r1 = store.lookup_by_eid(1).unwrap();
    assert_eq!(r1, RBE2::new(1, 10, 3, vec![100, 101]));
    let r2 = store.lookup_by_eid(2).unwrap();
    assert_eq!(r2, RBE2::new(2, 20, 1, vec![101, 102]));
    let r3 = store.lookup_by_eid(3).unwrap();
    assert_eq!(r3, RBE2::new(3, 30, 6, vec![]));
}

#[test]
fn last_write_wins() {
    let batch = vec![
        RBE2::new(5, 10, 3, vec![100]),
        RBE2::new(6, 20, 1, vec![101]),
        RBE2::new(5, 99, 0, vec![102]),
    ];
    let store = RBE2Storage::new(batch);
    let r = store.lookup_by_eid(5).unwrap();
    assert_eq!(r, RBE2::new(5, 99, 0, vec![102]));
}

#[test]
fn node_fanout_order_and_duplicates() {
    let batch = vec![
        RBE2::new(1, 10, 3, vec![100, 101]),
        RBE2::new(2, 20, 1, vec![101, 100, 101]),
        RBE2::new(3, 30, 6, vec![102]),
    ];
    let store = RBE2Storage::new(batch);
    let hits = store.lookup_by_gn(101);
    assert_eq!(
        hits,
        vec![
            RBE2::new(1, 10, 3, vec![100, 101]),
            RBE2::new(2, 20, 1, vec![101, 100, 101]),
            RBE2::new(2, 20, 1, vec![101, 100, 101]),
        ]
    );
    let hits100 = store.lookup_by_gn(100);
    assert_eq!(
        hits100,
        vec![
            RBE2::new(1, 10, 3, vec![100, 101]),
            RBE2::new(2, 20, 1, vec![101, 100, 101]),
        ]
    );
}

#[test]
fn unreferenced_node_is_empty_not_error() {
    let batch = vec![
        RBE2::new(1, 10, 3, vec![100, 101]),
        RBE2::new(2, 20, 1, vec![101, 102]),
    ];
    let store = RBE2Storage::new(batch);
    assert_eq!(store.lookup_by_gn(999), Vec::<RBE2>::new());
}

#[test]
fn unknown_id_is_key_not_found() {
    let batch = vec![
        RBE2::new(1, 10, 3, vec![100, 101]),
        RBE2::new(2, 20, 1, vec![101, 102]),
    ];
    let store = RBE2Storage::new(batch);
    assert_eq!(store.lookup_by_eid(3), Err(LookupError::KeyNotFound(3)));
}

#[test]
fn empty_batch() {
    let store = RBE2Storage::new(Vec::new());
    assert_eq!(store.lookup_by_eid(1), Err(LookupError::KeyNotFound(1)));
    assert_eq!(store.lookup_by_gn(1), Vec::<RBE2>::new());
}

#[test]
fn example_scenario() {
    let batch = vec![
        RBE2::new(1, 10, 3, vec![100, 101]),
        RBE2::new(2, 20, 1, vec![101, 102]),
        RBE2::new(1, 99, 0, vec![]),
    ];
    let store = RBE2Storage::new(batch);
    assert_eq!(store.lookup_by_eid(1).unwrap(), RBE2::new(1, 99, 0, vec![]));
    assert_eq!(
        store.lookup_by_eid(2).unwrap(),
        RBE2::new(2, 20, 1, vec![101, 102])
    );
    assert_eq!(
        store.lookup_by_gn(101),
        vec![
            RBE2::new(1, 10, 3, vec![100, 101]),
            RBE2::new(2, 20, 1, vec![101, 102]),
        ]
    );
    assert_eq!(store.lookup_by_gn(999), Vec::<RBE2>::new());
    assert_eq!(store.lookup_by_eid(3), Err(LookupError::KeyNotFound(3)));
}

#[test]
fn duplicate_nodes_within_one_record() {
    let batch = vec![RBE2::new(8, 1, 2, vec![50, 50, 50])];
    let store = RBE2Storage::new(batch);
    let hits = store.lookup_by_gn(50);
    assert_eq!(hits.len(), 3);
    for hit in hits {
        assert_eq!(hit, RBE2::new(8, 1, 2, vec![50, 50, 50]));
    }
}

#[test]
fn queries_return_copies() {
    let batch = vec![RBE2::new(4, 7, 9, vec![60])];
    let store = RBE2Storage::new(batch);
    let mut first = store.lookup_by_eid(4).unwrap();
    first.gm = 1000;
    first.gns.push(61);
    let second = store.lookup_by_eid(4).unwrap();
    assert_eq!(second, RBE2::new(4, 7, 9, vec![60]));
    assert_eq!(store.lookup_by_gn(60), vec![RBE2::new(4, 7, 9, vec![60])]);
}
