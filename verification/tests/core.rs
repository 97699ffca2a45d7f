use nailpolish::call::{consensus, ConfigError};
use nailpolish::groups::{GroupIterator, UMIGroup};
use nailpolish::ident::RecordIdentifier;
use nailpolish::index::{IndexError, IndexReader};
use nailpolish::metadata::{parse_metadata, ParsedMetadata};
use nailpolish::ordered::ReorderBuffer;
use nailpolish::records::{ReadType, Record};

fn record_bytes(k: usize) -> Vec<u8> {
    // every raw record is exactly 16 bytes: "@rK\nACGT\n+\nIIII\n"
    format!("@r{}\nACGT\n+\nIIII\n", k % 10).into_bytes()
}

fn index_content(ids: &[&str]) -> Vec<u8> {
    let mut s = String::from("#{\"version\":\"1\"}\n");
    s.push_str("id\tpos\tavg_qual\tn_bases\trec_len\tignored\n");
    for (k, id) in ids.iter().enumerate() {
        s.push_str(&format!("{}\t{}\t30.00\t4\t16\tfalse\n", id, k * 16));
    }
    s.into_bytes()
}

#[test]
fn identifier_split_and_join() {
    let id = RecordIdentifier::from_string("AAA_BBB_CCC");
    assert_eq!(id.head, "AAA");
    assert_eq!(id.tail, "BBB_CCC");
    assert_eq!(id.to_text(), "AAA_BBB_CCC");

    let plain = RecordIdentifier::from_string("solo");
    assert_eq!(plain.head, "solo");
    assert_eq!(plain.tail, "");
    assert_eq!(plain.to_text(), "solo");
}

#[test]
fn metadata_round_trip() {
    let mut rec = Record { id: b"read1".to_vec(), seq: b"ACGT".to_vec(), qual: b"IIII".to_vec() };
    rec.add_metadata(7, ReadType::Consensus, 0, 5, 3456);
    assert_eq!(String::from_utf8(rec.id.clone()).unwrap(), "read1 UT:Z:CON_5 UG:i:7 QL:f:34.56");
    let parsed = parse_metadata(&rec.id).unwrap();
    assert_eq!(
        parsed,
        ParsedMetadata {
            read_type: ReadType::Consensus,
            umi_group: 7,
            group_idx: 0,
            group_size: 5,
            has_quality: true,
            avg_qual_centi: 3456,
        }
    );

    let mut orig = Record { id: b"a b".to_vec(), seq: vec![], qual: vec![] };
    orig.add_metadata(9, ReadType::Original, 2, 4, 0);
    let p2 = parse_metadata(&orig.id).unwrap();
    assert_eq!(p2.read_type, ReadType::Original);
    assert_eq!(p2.umi_group, 9);
    assert_eq!(p2.group_idx, 2);
    assert_eq!(p2.group_size, 4);
    assert!(!p2.has_quality);

    let mut single = Record { id: b"s".to_vec(), seq: vec![], qual: vec![] };
    single.add_metadata(0, ReadType::Single, 1, 1, 205);
    let p3 = parse_metadata(&single.id).unwrap();
    assert_eq!(p3.read_type, ReadType::Single);
    assert_eq!(p3.group_size, 1);
    assert_eq!(p3.avg_qual_centi, 205);
    assert_eq!(String::from_utf8(single.id.clone()).unwrap(), "s UT:Z:SIN UG:i:0 QL:f:2.05");

    let mut ign = Record { id: b"i".to_vec(), seq: vec![], qual: vec![] };
    ign.add_metadata(3, ReadType::Ignored, 1, 2, 0);
    let p4 = parse_metadata(&ign.id).unwrap();
    assert_eq!(p4.read_type, ReadType::Ignored);
    assert_eq!(p4.umi_group, 3);
    assert!(!p4.has_quality);
}

fn expect_index_err(r: &IndexReader) -> IndexError {
    match r.get_duplicates() {
        Err(e) => e,
        Ok(_) => panic!("expected an index error"),
    }
}

#[test]
fn index_errors_by_case() {
    let r = IndexReader::new(Vec::new());
    assert_eq!(expect_index_err(&r), IndexError::MissingHeader);

    let r = IndexReader::new(b"not a header\n".to_vec());
    assert_eq!(expect_index_err(&r), IndexError::BadHeader);

    let mut c = index_content(&["A"]);
    c.extend_from_slice(b"broken row without tabs\n");
    let r = IndexReader::new(c);
    assert_eq!(expect_index_err(&r), IndexError::BadRow { line: 4 });

    let mut c = String::from("#{}\nid\tpos\tavg_qual\tn_bases\trec_len\tignored\n");
    c.push_str("A\t0\t30.00\t4\t16\tfalse\n");
    c.push_str("B\t0\t30.00\t4\t16\tfalse\n");
    let r = IndexReader::new(c.into_bytes());
    assert_eq!(expect_index_err(&r), IndexError::DuplicatePosition { line: 4 });
}

#[test]
fn ignored_rows_are_not_grouped() {
    let mut c = String::from("#{}\nid\tpos\tavg_qual\tn_bases\trec_len\tignored\n");
    c.push_str("A\t0\t30.00\t4\t16\tfalse\n");
    c.push_str("A\t16\t30.00\t4\t16\ttrue\n");
    c.push_str("B\t32\t30.00\t4\t16\tfalse\n");
    let r = IndexReader::new(c.into_bytes());
    let (map, stats) = r.get_duplicates().unwrap();
    // the ignored row is neither grouped nor counted
    assert_eq!(stats.total_reads, 2);
    assert_eq!(stats.duplicate_reads, 0);
    assert_eq!(map.len(), 2);
    let a = RecordIdentifier::from_string("A");
    assert_eq!(map.records_by_id(&a).unwrap().len(), 1);
    assert!(map.records_by_pos(16).is_none());
}

#[test]
fn duplicate_map_and_statistics() {
    let r = IndexReader::new(index_content(&["A", "A", "B", "C", "C", "C"]));
    let (map, stats) = r.get_duplicates().unwrap();
    assert_eq!(map.len(), 3);
    assert_eq!(stats.total_reads, 6);
    assert_eq!(stats.duplicate_reads, 5);
    assert_eq!(stats.duplicate_ids, 2);
    assert_eq!(stats.distribution.get(&1), Some(&1));
    assert_eq!(stats.distribution.get(&2), Some(&1));
    assert_eq!(stats.distribution.get(&3), Some(&1));
    assert_eq!(stats.proportion_duplicate_permille(), 833);

    let a = RecordIdentifier::from_string("A");
    let by_id = map.records_by_id(&a).unwrap();
    assert_eq!(by_id.len(), 2);
    assert_eq!(by_id[0].pos, 0);
    assert_eq!(by_id[1].pos, 16);
    let by_pos = map.records_by_pos(16).unwrap();
    assert_eq!(by_pos.len(), 2);
    assert!(map.records_by_pos(5).is_none());
}

#[test]
fn three_records() {
    // file order A, A, B, C, C, C: with duplicates_only unset the groups are
    // A (size 2, index 0), B (size 1, index 1), C (size 3, index 2); with it
    // set, B is skipped and the indices stay gap-free: A 0, C 1.
    let ids = ["A", "A", "B", "C", "C", "C"];
    for (dup_only, expected) in [
        (false, vec![("A", 2usize, 0usize), ("B", 1, 1), ("C", 3, 2)]),
        (true, vec![("A", 2, 0), ("C", 3, 1)]),
    ] {
        let r = IndexReader::new(index_content(&ids));
        let (map, _) = r.get_duplicates().unwrap();
        let mut it = GroupIterator::new(map, dup_only, 30000);
        let mut seen: Vec<(String, usize, usize)> = Vec::new();
        while let Some(ps) = it.next_request() {
            let payloads: Vec<Vec<u8>> = ps.iter().map(|p| record_bytes(p.pos / 16)).collect();
            let g = it.supply(payloads).unwrap();
            assert!(!g.ignore);
            assert_eq!(g.avg_qual_centi, 4000);
            seen.push((g.id.head.clone(), g.records.len(), g.index));
        }
        let want: Vec<(String, usize, usize)> =
            expected.iter().map(|(h, n, i)| (h.to_string(), *n, *i)).collect();
        assert_eq!(seen, want, "duplicates_only = {}", dup_only);
    }
}

#[test]
fn oversized_group_is_flagged() {
    let r = IndexReader::new(index_content(&["A", "A"]));
    let (map, _) = r.get_duplicates().unwrap();
    let mut it = GroupIterator::new(map, false, 20);
    let ps = it.next_request().unwrap();
    let payloads: Vec<Vec<u8>> = ps.iter().map(|p| record_bytes(p.pos / 16)).collect();
    let g = it.supply(payloads).unwrap();
    // two records of 16 bytes each exceed a 20-byte ceiling
    assert!(g.ignore);
}

#[test]
fn bad_record_fails_iterator() {
    let r = IndexReader::new(index_content(&["A", "A"]));
    let (map, _) = r.get_duplicates().unwrap();
    let mut it = GroupIterator::new(map, false, 30000);
    let ps = it.next_request().unwrap();
    let mut payloads: Vec<Vec<u8>> = ps.iter().map(|p| record_bytes(p.pos / 16)).collect();
    payloads[1] = b"no at-sign here\n".to_vec();
    let err = match it.supply(payloads) {
        Err(e) => e,
        Ok(_) => panic!("expected a decode error"),
    };
    assert_eq!(format!("{:?}", err).contains("member: 1"), true);
    // the iterator is failed terminally
    assert!(it.next_request().is_none());
}

fn mk_record(id: &str, seq: &str, qual: &str) -> Record {
    Record { id: id.as_bytes().to_vec(), seq: seq.as_bytes().to_vec(), qual: qual.as_bytes().to_vec() }
}

fn mk_group(head: &str, tail: &str, index: usize, recs: Vec<Record>, avg: u64, ignore: bool) -> UMIGroup {
    UMIGroup {
        id: RecordIdentifier { head: head.to_string(), tail: tail.to_string() },
        index,
        records: recs,
        avg_qual_centi: avg,
        ignore,
        consensus: None,
    }
}

#[test]
fn singleton_passes_through() {
    let g = mk_group("G1", "X", 0, vec![mk_record("m1", "ACGT", "IIII")], 4000, false);
    let out = consensus(vec![g], vec![], 1, false).unwrap();
    assert_eq!(
        String::from_utf8(out).unwrap(),
        "@m1 UT:Z:SIN UG:i:0 QL:f:40.00\nACGT\n+\nIIII"
    );
}

#[test]
fn oversized_members_pass_through() {
    let g = mk_group(
        "G1",
        "X",
        4,
        vec![mk_record("m1", "ACGT", "IIII"), mk_record("m2", "TTTT", "!!!!")],
        2000,
        true,
    );
    let out = consensus(vec![g], vec![], 1, false).unwrap();
    assert_eq!(
        String::from_utf8(out).unwrap(),
        "@m1 UT:Z:IGN UG:i:4\nACGT\n+\nIIII\n@m2 UT:Z:IGN UG:i:4\nTTTT\n+\n!!!!"
    );
}

#[test]
fn consensus_uses_engine_output() {
    let g = mk_group(
        "G1",
        "X",
        1,
        vec![mk_record("m1", "ACGT", "IIII"), mk_record("m2", "ACGA", "IIII")],
        4000,
        false,
    );
    let out = consensus(vec![g], vec![b"ACGT".to_vec()], 1, false).unwrap();
    assert_eq!(
        String::from_utf8(out).unwrap(),
        "@G1_X UT:Z:CON_2 UG:i:1 QL:f:40.00\nACGT\n+\nIIII"
    );
}

#[test]
fn originals_are_reported_adjacent() {
    let g = mk_group(
        "G1",
        "",
        0,
        vec![mk_record("m1", "ACGT", "IIII"), mk_record("m2", "ACGA", "JJJJ")],
        4000,
        false,
    );
    let out = consensus(vec![g], vec![b"ACGT".to_vec()], 1, true).unwrap();
    assert_eq!(
        String::from_utf8(out).unwrap(),
        "@m1 UT:Z:ORIG_1_OF_2 UG:i:0\nACGT\n+\nIIII\n\
         @m2 UT:Z:ORIG_2_OF_2 UG:i:0\nACGA\n+\nJJJJ\n\
         @G1 UT:Z:CON_2 UG:i:0 QL:f:40.00\nACGT\n+\nIIII"
    );
}

#[test]
fn consensus_threads() {
    // byte-identical output whatever the thread count
    let build = || {
        vec![
            mk_group("A", "", 0, vec![mk_record("a1", "ACGT", "IIII"), mk_record("a2", "ACGA", "IIII")], 4000, false),
            mk_group("B", "", 1, vec![mk_record("b1", "TT", "!!")], 0, false),
            mk_group("C", "", 2, vec![mk_record("c1", "GG", "II"), mk_record("c2", "GG", "II")], 4000, false),
        ]
    };
    let engine = || vec![b"ACGT".to_vec(), b"GG".to_vec()];
    let out1 = consensus(build(), engine(), 1, false).unwrap();
    let out4 = consensus(build(), engine(), 4, false).unwrap();
    assert_eq!(out1, out4);
    assert!(consensus(build(), engine(), 0, false).unwrap_err() == ConfigError::ThreadCount { threads: 0 });
}

#[test]
fn reorder_buffer_recovers_order() {
    // backpressure scenario: capacity 3, results 1 and 2 land before 0
    let mut b: ReorderBuffer<u32> = ReorderBuffer::new(3);
    assert_eq!(b.insert(1, 11), Vec::<u32>::new());
    assert_eq!(b.insert(2, 22), Vec::<u32>::new());
    assert_eq!(b.insert(0, 0), vec![0, 11, 22]);
    // a fourth result past the first window drains at once
    assert_eq!(b.insert(3, 33), vec![33]);
}
