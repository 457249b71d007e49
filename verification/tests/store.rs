use blockstore::schema::BlockData;
use blockstore::store::BlockStore;
use blockstore::timing::{log_execution_time, LogLevel};

fn cids_as_set(v: Vec<Vec<u8>>) -> Vec<Vec<u8>> {
    let mut v = v;
    v.sort();
    v
}

#[test]
fn insert_and_fetch() {
    let mut s = BlockStore::memory();
    assert!(s.add_block(b"A", b"hello", &[]));
    assert!(s.has_block(b"A"));
    assert_eq!(s.get_block(b"A"), Some(b"hello".to_vec()));
    assert_eq!(s.get_block_count(), 1);
    assert_eq!(s.get_block_size(), Some(5));
}

#[test]
fn dangling_child() {
    let mut s = BlockStore::memory();
    assert!(s.add_block(b"P", b"p", &[b"C".to_vec()]));
    assert!(s.has_cid(b"P"));
    assert!(s.has_cid(b"C"));
    assert!(!s.has_block(b"C"));
    let missing = s.get_missing_blocks(b"P");
    assert_eq!(missing, vec![b"C".to_vec()]);
}

#[test]
fn alias_preserves_through_gc() {
    let mut s = BlockStore::memory();
    assert!(s.add_block(b"P", b"p", &[b"C".to_vec()]));
    s.alias(b"root", Some(b"P"));
    assert!(s.gc());
    assert!(s.has_cid(b"P"));
    assert!(s.has_cid(b"C"));
    assert!(s.has_block(b"P"));
    s.alias(b"root", None);
    assert!(s.gc());
    s.delete_orphaned();
    assert_eq!(s.get_cids(), Vec::<Vec<u8>>::new());
    assert_eq!(s.get_block_count(), 0);
}

#[test]
fn temp_alias_scope() {
    let mut s = BlockStore::memory();
    let t = s.create_temp_alias();
    assert!(s.add_block_pinned(b"X", b"x", &[], &t));
    assert!(s.gc());
    assert!(s.has_cid(b"X"));
    s.release_temp_alias(t);
    assert!(s.gc());
    assert!(!s.has_cid(b"X"));
    assert!(!s.has_block(b"X"));
}

#[test]
fn recursive_descendants() {
    let mut s = BlockStore::memory();
    assert!(s.add_block(b"A", b"a", &[b"B".to_vec()]));
    assert!(s.add_block(b"B", b"b", &[b"C".to_vec()]));
    assert!(s.add_block(b"C", b"c", &[b"D".to_vec()]));
    assert!(s.add_block(b"D", b"d", &[]));
    let ds = cids_as_set(s.get_descendants(b"A"));
    assert_eq!(
        ds,
        vec![b"A".to_vec(), b"B".to_vec(), b"C".to_vec(), b"D".to_vec()]
    );
}

#[test]
fn idempotent_double_insert() {
    let mut s = BlockStore::memory();
    assert!(s.add_block(b"A", b"hello", &[]));
    assert!(s.add_block(b"A", b"hello", &[]));
    assert_eq!(s.get_block_count(), 1);
    assert_eq!(s.get_block_size(), Some(5));
}

#[test]
fn payload_is_immutable() {
    let mut s = BlockStore::memory();
    assert!(s.add_block(b"A", b"first", &[]));
    assert!(s.add_block(b"A", b"other", &[]));
    assert_eq!(s.get_block(b"A"), Some(b"first".to_vec()));
}

#[test]
fn empty_store() {
    let s = BlockStore::memory();
    assert!(!s.has_cid(b"A"));
    assert!(!s.has_block(b"A"));
    assert_eq!(s.get_block(b"A"), None);
    assert_eq!(s.get_block_count(), 0);
    assert_eq!(s.get_block_size(), Some(0));
    assert_eq!(s.get_cids(), Vec::<Vec<u8>>::new());
    assert_eq!(s.count_orphaned(), 0);
    assert_eq!(s.get_descendants(b"A"), Vec::<Vec<u8>>::new());
}

#[test]
fn missing_blocks_interns_unknown_root() {
    let mut s = BlockStore::memory();
    let missing = s.get_missing_blocks(b"Z");
    assert_eq!(missing, vec![b"Z".to_vec()]);
    assert!(s.has_cid(b"Z"));
    assert!(!s.has_block(b"Z"));
}

#[test]
fn missing_blocks_empty_when_complete() {
    let mut s = BlockStore::memory();
    assert!(s.add_block(b"A", b"a", &[b"B".to_vec()]));
    assert!(s.add_block(b"B", b"b", &[]));
    assert_eq!(s.get_missing_blocks(b"A"), Vec::<Vec<u8>>::new());
}

#[test]
fn alias_upsert_and_remove() {
    let mut s = BlockStore::memory();
    assert!(s.add_block(b"A", b"a", &[]));
    assert!(s.add_block(b"B", b"b", &[]));
    s.alias(b"root", Some(b"A"));
    s.alias(b"root", Some(b"B"));
    assert!(s.gc());
    assert!(s.has_block(b"B"));
    assert!(!s.has_cid(b"A"));
    s.alias(b"gone", None); // removing an absent alias is a no-op
    assert!(s.has_block(b"B"));
}

#[test]
fn alias_pins_cid_without_payload() {
    let mut s = BlockStore::memory();
    s.alias(b"pre-pin", Some(b"future"));
    assert!(s.has_cid(b"future"));
    assert!(!s.has_block(b"future"));
    assert!(s.gc());
    assert!(s.has_cid(b"future"));
}

#[test]
fn interner_is_idempotent() {
    let mut s = BlockStore::memory();
    let a = s.get_or_create_id(b"A");
    let b = s.get_or_create_id(b"B");
    let a2 = s.get_or_create_id(b"A");
    assert_eq!(a, a2);
    assert_ne!(a, b);
    assert_eq!(s.get_id(b"A"), Some(a));
    assert_eq!(s.get_id(b"C"), None);
}

#[test]
fn gc_removes_unreachable_chain() {
    let mut s = BlockStore::memory();
    assert!(s.add_block(b"A", b"a", &[b"B".to_vec()]));
    assert!(s.add_block(b"B", b"b", &[]));
    assert!(s.add_block(b"L", b"l", &[]));
    s.alias(b"root", Some(b"A"));
    assert!(s.gc());
    s.delete_orphaned();
    assert!(s.has_block(b"A"));
    assert!(s.has_block(b"B"));
    assert!(!s.has_cid(b"L"));
    assert_eq!(s.get_block_count(), 2);
}

#[test]
fn add_blocks_bulk() {
    let mut s = BlockStore::memory();
    let blocks = vec![
        BlockData {
            cid: b"A".to_vec(),
            data: b"a".to_vec(),
            links: vec![b"B".to_vec()],
        },
        BlockData {
            cid: b"B".to_vec(),
            data: b"bb".to_vec(),
            links: vec![],
        },
    ];
    s.add_blocks(&blocks);
    assert!(s.has_block(b"A"));
    assert!(s.has_block(b"B"));
    assert_eq!(s.get_block_size(), Some(3));
}

#[test]
fn temp_alias_ids_grow_and_release_only_their_rows() {
    let mut s = BlockStore::memory();
    let t1 = s.create_temp_alias();
    let t2 = s.create_temp_alias();
    assert!(s.add_block_pinned(b"X", b"x", &[], &t1));
    assert!(s.add_block_pinned(b"Y", b"y", &[], &t2));
    s.release_temp_alias(t1);
    assert!(s.gc());
    assert!(!s.has_cid(b"X"));
    assert!(s.has_block(b"Y"));
    s.release_temp_alias(t2);
}

#[test]
fn log_levels_follow_policy() {
    assert_eq!(log_execution_time(true, 5, 10), LogLevel::Debug);
    assert_eq!(log_execution_time(true, 11, 10), LogLevel::Info);
    assert_eq!(log_execution_time(false, 5, 10), LogLevel::Warn);
    assert_eq!(log_execution_time(true, 10, 10), LogLevel::Debug);
}

#[test]
fn ancestors_follow_edges_upward() {
    let mut s = BlockStore::memory();
    assert!(s.add_block(b"A", b"a", &[b"B".to_vec()]));
    assert!(s.add_block(b"B", b"b", &[b"C".to_vec()]));
    assert!(s.add_block(b"D", b"d", &[]));
    let a = s.get_id(b"A").unwrap();
    let b = s.get_id(b"B").unwrap();
    let c = s.get_id(b"C").unwrap();
    let d = s.get_id(b"D").unwrap();
    let mut anc = s.get_ancestors(c);
    anc.sort();
    let mut expected = vec![a, b];
    expected.sort();
    assert_eq!(anc, expected);
    assert_eq!(s.get_ancestors(a), Vec::<u64>::new());
    assert_eq!(s.get_ancestors(d), Vec::<u64>::new());
}

#[test]
fn first_temp_alias_id_is_two() {
    let mut s = BlockStore::memory();
    let t1 = s.create_temp_alias();
    let t2 = s.create_temp_alias();
    assert_eq!(t1.id, 2);
    assert_eq!(t2.id, 3);
    s.release_temp_alias(t2);
    s.release_temp_alias(t1);
    // with the table empty again, the numbering restarts
    let t3 = s.create_temp_alias();
    assert_eq!(t3.id, 2);
    s.release_temp_alias(t3);
}

#[test]
fn incremental_gc_drains_in_bounded_calls() {
    // with a zero budget each call still deletes at least one id, so at
    // most one call per unreachable id is ever needed
    let mut s = BlockStore::memory();
    for i in 0u8..50 {
        assert!(s.add_block(&[i], &[i], &[]));
    }
    let mut calls: u32 = 0;
    while !s.incremental_gc(0, 0) {
        calls += 1;
        assert!(calls <= 50);
    }
    assert_eq!(s.get_cids(), Vec::<Vec<u8>>::new());
    assert_eq!(s.get_block_count(), 0);
}

#[test]
fn count_orphaned_is_zero_under_cascade() {
    let mut s = BlockStore::memory();
    assert!(s.add_block(b"A", b"a", &[]));
    assert_eq!(s.count_orphaned(), 0);
    assert!(s.gc());
    s.delete_orphaned();
    assert_eq!(s.count_orphaned(), 0);
}
