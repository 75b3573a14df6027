use nahfs_core::block::{BlockOperation, Operation, ReplicaEndpoint};
use nahfs_core::codec::{decode_block_id, encode_block_id, last_value, pack_code, unpack_code, value_of};
use nahfs_core::indexer::{index_observations, parse_decimal, scan_observations, split_records, timestamp};
use nahfs_core::store::{gather, plan_filtered_read, write_layout};
use nahfs_core::transfer::{transfer_message, FanOut};

fn code(s: &str) -> Option<Vec<char>> {
    Some(s.chars().collect())
}

const HEADER: &str = "lat,lon,id,time,note\n";

fn block(records: &[&str]) -> Vec<u8> {
    let mut s = String::from(HEADER);
    for r in records {
        s.push_str(r);
    }
    s.into_bytes()
}

#[test]
fn encode_then_decode_gives_back_block_and_codes() {
    let codes = vec![1u8, 5, 31];
    let id = encode_block_id(42, &codes).unwrap();
    assert_eq!(decode_block_id(id), (42, codes.clone()));
    assert_eq!(encode_block_id(42, &codes), Some(id));
    assert_ne!(id, 42);
}

#[test]
fn encode_is_deterministic_and_order_free() {
    let a = encode_block_id(7, &vec![3u8, 9]).unwrap();
    let b = encode_block_id(7, &vec![3u8, 9]).unwrap();
    let c = encode_block_id(7, &vec![9u8, 3]).unwrap();
    assert_eq!(a, b);
    assert_eq!(a, c);
    assert_eq!(a, (((1u64 << 3) | (1u64 << 9)) << 32) | 7);
}

#[test]
fn encode_refuses_what_it_cannot_carry() {
    assert_eq!(encode_block_id(1u64 << 32, &vec![1u8]), None);
    assert_eq!(encode_block_id(5, &vec![32u8]), None);
}

#[test]
fn alphabet_values() {
    assert_eq!(value_of('0'), Some(0));
    assert_eq!(value_of('b'), Some(10));
    assert_eq!(value_of('z'), Some(31));
    assert_eq!(value_of('a'), None);
    assert_eq!(value_of('i'), None);
}

#[test]
fn codes_pack_in_string_order() {
    let k1 = pack_code(&"9q60".chars().collect()).unwrap();
    let k2 = pack_code(&"9q61".chars().collect()).unwrap();
    let k3 = pack_code(&"aaaa".chars().collect()).unwrap();
    assert!(k1 < k2 && k2 < k3);
    assert_eq!(unpack_code(k2), "9q61".chars().collect::<Vec<char>>());
    assert_eq!(last_value(k2), Some(1));
    assert_eq!(last_value(k3), None);
    assert_eq!(pack_code(&"9q6".chars().collect()), None);
    assert_eq!(pack_code(&"9q6é".chars().collect()), None);
}

#[test]
fn decimal_parsing() {
    let d = b"+123,,18446744073709551615,18446744073709551616,12a".to_vec();
    assert_eq!(parse_decimal(&d, 0, 4), Some(123));
    assert_eq!(parse_decimal(&d, 5, 5), None);
    assert_eq!(parse_decimal(&d, 0, 1), None);
    assert_eq!(parse_decimal(&d, 6, 26), Some(u64::MAX));
    assert_eq!(parse_decimal(&d, 27, 47), None);
    assert_eq!(parse_decimal(&d, 48, 51), None);
}

#[test]
fn records_split_at_newlines() {
    let d = b"a,b\nc\n\nd,e,f".to_vec();
    let rs = split_records(&d);
    let spans: Vec<(usize, usize, usize)> = rs.iter().map(|o| (o.start, o.end, o.commas.len())).collect();
    assert_eq!(spans, vec![(0, 4, 1), (4, 6, 0), (6, 7, 0), (7, 12, 2)]);
    assert_eq!(rs[3].commas, vec![1, 3]);
}

#[test]
fn header_skipped_and_other_widths_dropped() {
    let d = block(&["1,2,a,100ms,x\n", "1,2,a,200ms\n", "3,4,b,300ms,y\n"]);
    let obs = scan_observations(&d);
    assert_eq!(obs.len(), 2);
    assert_eq!(obs[0].start, HEADER.len());
    assert_eq!(timestamp(&d, &obs[0]), Some(100));
    assert_eq!(timestamp(&d, &obs[1]), Some(300));
}

#[test]
fn scenario_two_codes_three_records() {
    let r1 = "10.0,20.0,a,100ms,x\n";
    let r2 = "30.0,40.0,b,200ms,y\n";
    let r3 = "10.1,20.1,c,150ms,z\n";
    let d = block(&[r1, r2, r3]);
    let obs = scan_observations(&d);
    assert_eq!(obs.len(), 3);
    let codes = vec![code("aaaa"), code("bbbb"), code("aaaa")];
    let idx = index_observations(&d, &obs, &codes);
    assert_eq!((idx.min_timestamp, idx.max_timestamp), (100, 200));
    assert_eq!(idx.groups.len(), 2);
    assert_eq!(unpack_code(idx.groups[0].code), vec!['a', 'a', 'a', 'a']);
    let (file, meta) = write_layout(9, &d, &Some(idx));
    let desc = meta.index.as_ref().unwrap();
    assert_eq!((desc.start_timestamp, desc.end_timestamp), (100, 200));
    assert_eq!(desc.codes.len(), 2);
    let aaaa = &file[desc.starts[0] as usize..desc.ends[0] as usize];
    assert_eq!(aaaa, format!("{}{}", r1, r3).as_bytes());
    assert_eq!(&file[desc.starts[1] as usize..desc.ends[1] as usize], r2.as_bytes());
    assert_eq!(meta.length, file.len() as u64);
    assert_eq!(meta.block_id, 9);
}

#[test]
fn offsets_partition_the_data_file() {
    let d = block(&["1,2,a,100ms,x\n", "3,4,b,300ms,y\n", "5,6,c,200ms,z\n", "7,8,d,400ms,w\n"]);
    let obs = scan_observations(&d);
    let codes = vec![code("9q61"), code("9q60"), code("9q62"), code("9q60")];
    let idx = index_observations(&d, &obs, &codes);
    let (file, meta) = write_layout(1, &d, &Some(idx));
    let desc = meta.index.unwrap();
    assert_eq!(desc.starts[0], 0);
    for i in 0..desc.codes.len() {
        assert!(desc.starts[i] <= desc.ends[i]);
        if i + 1 < desc.codes.len() {
            assert_eq!(desc.ends[i], desc.starts[i + 1]);
        }
    }
    assert_eq!(*desc.ends.last().unwrap(), file.len() as u64);
    assert_eq!(meta.length, (d.len() - HEADER.len()) as u64);
}

#[test]
fn different_codes_land_in_different_groups() {
    let r1 = "1,2,a,100ms,x\n";
    let r2 = "3,4,b,300ms,y\n";
    let d = block(&[r1, r2]);
    let obs = scan_observations(&d);
    let idx = index_observations(&d, &obs, &vec![code("u4pr"), code("9q60")]);
    assert_eq!(idx.groups.len(), 2);
    let h = HEADER.len();
    assert_eq!(idx.groups[0].ranges, vec![(h + r1.len(), d.len())]);
    assert_eq!(idx.groups[1].ranges, vec![(h, h + r1.len())]);
    let (file, _) = write_layout(1, &d, &Some(idx));
    assert_eq!(file, format!("{}{}", r2, r1).into_bytes());
}

#[test]
fn unreadable_records_are_left_out() {
    let d = block(&["1,2,a,100ms,x\n", "3,4,b,oops,y\n", "5,6,c,300ms,z\n"]);
    let obs = scan_observations(&d);
    let idx = index_observations(&d, &obs, &vec![code("9q60"), code("9q60"), None]);
    assert_eq!(idx.groups.len(), 1);
    assert_eq!(idx.groups[0].ranges.len(), 1);
    assert_eq!((idx.min_timestamp, idx.max_timestamp), (100, 100));
}

#[test]
fn empty_index_keeps_sentinel_time_range() {
    let d = block(&[]);
    let obs = scan_observations(&d);
    assert!(obs.is_empty());
    let idx = index_observations(&d, &obs, &vec![]);
    assert_eq!((idx.min_timestamp, idx.max_timestamp), (u64::MAX, 0));
}

#[test]
fn read_all_codes_gives_back_every_record() {
    let recs = ["1,2,a,100ms,x\n", "3,4,b,300ms,y\n", "5,6,c,200ms,z\n"];
    let d = block(&recs);
    let obs = scan_observations(&d);
    let idx = index_observations(&d, &obs, &vec![code("9q61"), code("9q60"), code("9q61")]);
    let (file, meta) = write_layout(3, &d, &Some(idx));
    let segs = plan_filtered_read(&meta, &vec![0u8, 1], 0).unwrap();
    let bytes = gather(&file, &segs).unwrap();
    assert_eq!(bytes, file);
    let mut got: Vec<&str> = std::str::from_utf8(&bytes).unwrap().split_inclusive('\n').collect();
    let mut want: Vec<&str> = recs.to_vec();
    got.sort();
    want.sort();
    assert_eq!(got, want);
}

#[test]
fn filtered_read_takes_matching_codes_and_skips_offset() {
    let r1 = "1,2,a,100ms,x\n";
    let r2 = "3,4,b,300ms,y\n";
    let r3 = "5,6,c,200ms,z\n";
    let d = block(&[r1, r2, r3]);
    let obs = scan_observations(&d);
    let idx = index_observations(&d, &obs, &vec![code("9q61"), code("9q60"), code("9q61")]);
    let (file, meta) = write_layout(3, &d, &Some(idx));
    let segs = plan_filtered_read(&meta, &vec![1u8], 0).unwrap();
    assert_eq!(gather(&file, &segs).unwrap(), format!("{}{}", r1, r3).into_bytes());
    let segs = plan_filtered_read(&meta, &vec![1u8], 4).unwrap();
    assert_eq!(gather(&file, &segs).unwrap(), format!("{}{}", r1, r3)[4..].as_bytes().to_vec());
}

#[test]
fn disjoint_codes_read_nothing() {
    let d = block(&["1,2,a,100ms,x\n", "3,4,b,300ms,y\n"]);
    let obs = scan_observations(&d);
    let idx = index_observations(&d, &obs, &vec![code("9q61"), code("9q60")]);
    let (_, meta) = write_layout(3, &d, &Some(idx));
    assert_eq!(plan_filtered_read(&meta, &vec![7u8, 30], 5), Some(vec![]));
}

#[test]
fn unindexed_block_is_written_verbatim() {
    let d = b"raw bytes\nmore".to_vec();
    let (file, meta) = write_layout(4, &d, &None);
    assert_eq!(file, d);
    assert_eq!(meta.length, d.len() as u64);
    assert!(meta.index.is_none());
    assert_eq!(plan_filtered_read(&meta, &vec![1u8], 0), Some(vec![]));
}

#[test]
fn gather_refuses_segments_outside_the_file() {
    assert_eq!(gather(&vec![1u8, 2, 3], &vec![(1, 4)]), None);
    assert_eq!(gather(&vec![1u8, 2, 3], &vec![(2, 1)]), None);
    assert_eq!(gather(&vec![1u8, 2, 3], &vec![(0, 1), (2, 3)]), Some(vec![1u8, 3]));
}

#[test]
fn transfer_message_frames_header_metadata_payload() {
    let m = transfer_message(&vec![2u8, 8, 1], &vec![9u8, 9]);
    assert_eq!(m, vec![0u8, 28, 82, 2, 8, 1, 9, 9]);
}

#[test]
fn failed_replica_does_not_stop_fan_out() {
    let mut f = FanOut::new(3);
    assert_eq!(f.next_replica(), Some(0));
    f.record(false);
    assert_eq!(f.next_replica(), Some(1));
    f.record(true);
    assert_eq!(f.next_replica(), Some(2));
    f.record(true);
    assert_eq!(f.next_replica(), None);
    assert_eq!(f.failed(), vec![0]);
    assert_eq!(f.delivered, vec![false, true, true]);
}

#[test]
fn block_operation_indexes_and_lays_out() {
    let d = block(&["1,2,a,100ms,x\n", "3,4,b,300ms,y\n"]);
    let replicas = vec![ReplicaEndpoint { datanode_uuid: "dn".to_string(), ip_addr: "127.0.0.1".to_string(), xfer_port: 50010 }];
    let mut op = BlockOperation::new(Operation::INDEX, 11, d.clone(), replicas);
    assert!(op.index.is_none());
    op.build_index(&vec![code("9q61"), code("9q60")]);
    assert_eq!(op.index.as_ref().unwrap().groups.len(), 2);
    let (file, meta) = op.layout();
    assert_eq!(meta.block_id, 11);
    assert_eq!(file.len(), d.len() - HEADER.len());
    assert_eq!(op.operation, Operation::INDEX);
}
