use nahfs_core::codec::{decode_block_id, encode_block_id};
use nahfs_core::projector::{aggregate_usage, locate_blocks, query_path, NodeState, VolumeState};
use nahfs_core::resolver::{resolve_filtered, resolve_match, resolve_unfiltered, QueryMatch, ResolveError, ResolvedBlock};

fn m(block_id: u64, codes: Vec<u8>, lengths: Vec<u32>) -> QueryMatch {
    QueryMatch { block_id, codes, lengths }
}

#[test]
fn one_matching_block_of_three() {
    let ms = vec![m(1, vec![], vec![]), m(2, vec![4, 6], vec![100, 50]), m(3, vec![], vec![])];
    let r = resolve_filtered(&ms).unwrap();
    assert_eq!(r.len(), 1);
    assert_eq!(r[0].block_id, 2);
    assert_eq!(r[0].length, 150);
    assert!(r[0].filtered);
    assert_eq!(decode_block_id(r[0].served_id), (2, vec![4, 6]));
    assert_eq!(Some(r[0].served_id), encode_block_id(2, &vec![4, 6]));
}

#[test]
fn unresolvable_matches_give_errors() {
    assert_eq!(resolve_match(&m(1u64 << 40, vec![1], vec![1])), Err(ResolveError::Unencodable(1u64 << 40)));
    assert_eq!(resolve_match(&m(1, vec![40], vec![1])), Err(ResolveError::Unencodable(1)));
    assert_eq!(resolve_match(&m(1, vec![], vec![1])), Ok(None));
    let r = resolve_filtered(&vec![m(1, vec![2], vec![3]), m(1u64 << 33, vec![2], vec![3])]);
    assert_eq!(r, Err(ResolveError::Unencodable(1u64 << 33)));
}

#[test]
fn unfiltered_view_drops_unknown_blocks() {
    let r = resolve_unfiltered(&vec![5, 6, 7], &vec![Some(10), None, Some(30)]);
    assert_eq!(r.len(), 2);
    assert_eq!(r[0], ResolvedBlock { block_id: 5, served_id: 5, length: 10, filtered: false });
    assert_eq!(r[1], ResolvedBlock { block_id: 7, served_id: 7, length: 30, filtered: false });
}

#[test]
fn located_blocks_accumulate_offsets() {
    let bs = vec![
        ResolvedBlock { block_id: 5, served_id: 5, length: 10, filtered: false },
        ResolvedBlock { block_id: 6, served_id: 99, length: 4, filtered: true },
        ResolvedBlock { block_id: 7, served_id: 7, length: 30, filtered: false },
    ];
    let (located, length) = locate_blocks(&bs).unwrap();
    assert_eq!(length, 44);
    let offsets: Vec<u64> = located.iter().map(|l| l.offset).collect();
    assert_eq!(offsets, vec![0, 10, 14]);
    assert_eq!((located[1].block_id, located[1].physical_id, located[1].num_bytes), (99, 6, 4));
    let big = vec![
        ResolvedBlock { block_id: 1, served_id: 1, length: u64::MAX, filtered: false },
        ResolvedBlock { block_id: 2, served_id: 2, length: 1, filtered: false },
    ];
    assert!(locate_blocks(&big).is_none());
}

#[test]
fn query_is_appended_after_marker() {
    assert_eq!(query_path(&b"/data/f".to_vec(), &Some(b"q=9q".to_vec())), b"/data/f+q=9q".to_vec());
    assert_eq!(query_path(&b"/data/f".to_vec(), &None), b"/data/f".to_vec());
}

fn vol(capacity: u64, used: Option<u64>, at: u64) -> VolumeState {
    VolumeState { capacity: Some(capacity), dfs_used: used, remaining: Some(1), block_pool_used: None, non_dfs_used: Some(2), update_timestamp: at }
}

#[test]
fn usage_sums_volumes_and_takes_latest_update() {
    let node = NodeState { cache_capacity: Some(8), cache_used: None, xceiver_count: Some(3), update_timestamp: 15 };
    let u = aggregate_usage(&vec![vol(100, Some(5), 10), vol(50, None, 20)], &Some(node)).unwrap();
    assert_eq!((u.capacity, u.dfs_used, u.remaining, u.block_pool_used, u.non_dfs_used), (150, 5, 2, 0, 4));
    assert_eq!(u.last_update, Some(20));
    assert_eq!((u.cache_capacity, u.cache_used, u.xceiver_count), (Some(8), None, Some(3)));
    let none = aggregate_usage(&vec![], &None).unwrap();
    assert_eq!(none.last_update, None);
    assert_eq!(none.capacity, 0);
    assert!(aggregate_usage(&vec![vol(u64::MAX, None, 1), vol(1, None, 1)], &None).is_none());
}
