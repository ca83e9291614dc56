use pathdns::querylog::gzip::{compress_blocks, compress_whole, join_members, read_block, read_whole};
use pathdns::querylog::history::{
    check_index, event_matches, read_history_page, HistoryBlock, HistoryIndex, HistoryQuery,
    IndexError, Segment,
};
use pathdns::querylog::{DecodedEvent, QueryLogEvent};
use pathdns::iprange::IpAddr;
use std::sync::Arc;

fn event(seq: u64, unix_micros: u64) -> Arc<QueryLogEvent> {
    Arc::new(QueryLogEvent {
        seq,
        unix_micros,
        client: IpAddr::V4(0x7f00_0001),
        client_port: 53,
        qname: format!("host-{seq}.example"),
        qtype: 1,
        rcode: if seq % 2 == 0 { 0 } else { 3 },
        elapsed_us: seq,
        response_bytes: 32,
        source: if seq % 2 == 0 { "cache" } else { "upstream" },
        rule: None,
        answer_ips: Vec::new(),
    })
}

fn decoded(seq: u64, unix_micros: u64) -> DecodedEvent {
    DecodedEvent {
        seq,
        unix_micros,
        client: "127.0.0.1".to_string(),
        client_port: 53,
        qname: format!("host-{seq}.example"),
        qtype: 1,
        rcode: if seq % 2 == 0 { 0 } else { 3 },
        elapsed_us: seq,
        response_bytes: 32,
        source: if seq % 2 == 0 { "cache" } else { "upstream" }.to_string(),
        rule: None,
        answer_ips: Vec::new(),
    }
}

fn query() -> HistoryQuery {
    HistoryQuery {
        limit: 25,
        cursor: None,
        from_micros: Some(1_250),
        to_micros: Some(1_350),
        qname: None,
        rcode: Some(0),
        source: Some("cache".to_string()),
    }
}

/// One byte per event stands for its encoded form.
fn written() -> (HistoryIndex, Vec<u8>) {
    let first: Vec<_> = (0..300).map(|n| event(n, 1_000 + n)).collect();
    let second: Vec<_> = (300..600).map(|n| event(n, 1_000 + n)).collect();
    let mut index = HistoryIndex::empty();
    index.append_batch(0, 300, &first);
    index.append_batch(300, 300, &second);
    (index, (0..600).map(|n| (n % 251) as u8).collect())
}

fn index_again() -> HistoryIndex {
    written().0
}

/// The events of each block that the index describes.
fn blocks(index: &HistoryIndex) -> Vec<Vec<DecodedEvent>> {
    index
        .blocks
        .iter()
        .map(|b| {
            (b.first_entry..b.first_entry + b.entries as u64)
                .map(|n| decoded(n, 1_000 + n))
                .collect()
        })
        .collect()
}

#[test]
fn indexed_history_supports_metadata_time_filter_and_gzip_paging() {
    let (index, data) = written();
    assert!(check_index(&index, 600).is_ok());
    assert_eq!(index.total_entries, 600);
    assert_eq!(index.start_micros, Some(1_000));
    assert_eq!(index.end_micros, Some(1_599));

    let events = blocks(&index);
    let (packed, packed_index) = compress_blocks(&data, &index).unwrap();
    let first_page = read_history_page(Segment::Indexed(index, events), &query());
    assert_eq!(first_page.events.len(), 25);
    assert_eq!(first_page.events[0].seq, 250);
    assert!(first_page.has_more);

    // The compressed segment has the same blocks.
    assert!(check_index(&packed_index, packed.len() as u64).is_ok());
    let mut unpacked = Vec::new();
    for i in 0..packed_index.blocks.len() {
        let (plain, sound) = read_block(&packed, &packed_index, i);
        assert!(sound);
        unpacked.extend(plain);
    }
    assert_eq!(unpacked, data);
    assert_eq!(read_whole(&packed, true), (data.clone(), true));
    let members: Vec<Vec<u8>> = packed_index
        .blocks
        .iter()
        .map(|b| packed[b.offset as usize..(b.offset + b.len) as usize].to_vec())
        .collect();
    assert_eq!(join_members(&index_again(), &members).0, packed);
    let events = blocks(&packed_index);
    let second_page = read_history_page(
        Segment::Indexed(packed_index, events),
        &HistoryQuery { cursor: first_page.next_cursor, ..query() },
    );
    assert_eq!(second_page.events[0].seq, 300);
    assert_eq!(second_page.total_entries, Some(600));
    assert!(second_page.indexed);
}

#[test]
fn stale_sidecar_falls_back_without_hiding_persisted_events() {
    let mut index = HistoryIndex::empty();
    index.append_batch(0, 40, &vec![event(1, 1_000)]);
    assert!(check_index(&index, 40).is_ok());
    // A second event was appended to the file, bypassing the index.
    assert_eq!(check_index(&index, 80), Err(IndexError::Incomplete));

    let page = read_history_page(
        Segment::Plain(vec![decoded(1, 1_000), decoded(2, 2_000)]),
        &HistoryQuery {
            limit: 100,
            cursor: None,
            from_micros: None,
            to_micros: None,
            qname: None,
            rcode: None,
            source: None,
        },
    );
    assert_eq!(page.events.len(), 2);
    assert!(!page.indexed);
}

#[test]
fn pages_follow_each_other_without_gap() {
    let (index, _) = written();
    let mut q = query();
    let mut cursor = None;
    let mut seen = Vec::new();
    loop {
        let events = blocks(&index);
        let copy = HistoryIndex {
            version: index.version,
            compressed_blocks: index.compressed_blocks,
            total_entries: index.total_entries,
            start_micros: index.start_micros,
            end_micros: index.end_micros,
            blocks: index.blocks.clone(),
        };
        q.cursor = cursor;
        let page = read_history_page(Segment::Indexed(copy, events), &q);
        seen.extend(page.events.iter().map(|e| e.seq));
        if !page.has_more {
            break;
        }
        cursor = page.next_cursor;
    }
    let want: Vec<u64> = (250..=350).filter(|n| n % 2 == 0).collect();
    assert_eq!(seen, want);
}

#[test]
fn faulty_indexes_are_told_apart() {
    let block = |offset: u64, len: u64, first_entry: u64, entries: u32| HistoryBlock {
        offset,
        len,
        first_entry,
        entries,
        start_micros: 0,
        end_micros: 0,
    };
    let index = |version: u8, total_entries: u64, blocks: Vec<HistoryBlock>| HistoryIndex {
        version,
        compressed_blocks: false,
        total_entries,
        start_micros: None,
        end_micros: None,
        blocks,
    };
    assert_eq!(check_index(&index(9, 0, vec![]), 0), Err(IndexError::Version));
    assert_eq!(
        check_index(&index(1, 1, vec![block(5, 5, 0, 1)]), 10),
        Err(IndexError::NotContiguous)
    );
    assert_eq!(
        check_index(&index(1, 0, vec![block(0, 0, 0, 1)]), 0),
        Err(IndexError::EmptyBlock)
    );
    assert_eq!(
        check_index(&index(1, 3, vec![block(0, 5, 0, 2), block(5, u64::MAX, 2, 1)]), 10),
        Err(IndexError::Overflow)
    );
    assert_eq!(
        check_index(&index(1, 2, vec![block(0, 5, 0, 2)]), 6),
        Err(IndexError::Incomplete)
    );
    assert_eq!(check_index(&index(1, 2, vec![block(0, 5, 0, 2)]), 5), Ok(()));
}

#[test]
fn filters_are_anded() {
    let ev = decoded(4, 1_300);
    let mut q = query();
    assert!(event_matches(&ev, &q));
    q.qname = Some("host-4".to_string());
    assert!(event_matches(&ev, &q));
    q.qname = Some("HOST-4".to_string());
    assert!(!event_matches(&ev, &q));
    q.qname = Some("other".to_string());
    assert!(!event_matches(&ev, &q));
    q.qname = None;
    q.rcode = Some(3);
    assert!(!event_matches(&ev, &q));
    q.rcode = None;
    q.source = Some("upstream".to_string());
    assert!(!event_matches(&ev, &q));
    q.source = None;
    q.from_micros = Some(1_301);
    assert!(!event_matches(&ev, &q));
}

#[test]
fn whole_segments_unpack_to_what_was_packed() {
    let data: Vec<u8> = (0..10_000u32).map(|n| (n / 7 % 256) as u8).collect();
    let packed = compress_whole(&data).unwrap();
    assert_ne!(packed, data);
    assert!(packed.len() < data.len());
    assert_eq!(read_whole(&packed, true), (data.clone(), true));
    assert_eq!(read_whole(&data, false), (data.clone(), true));
    assert!(!read_whole(&data, true).1);
    assert!(!read_whole(&packed[..packed.len() - 1], true).1);
}

#[test]
fn pages_hold_every_event_once() {
    let asked = || HistoryQuery { to_micros: None, ..query() };
    let mut seqs: Vec<u64> = Vec::new();
    let mut cursor: Option<u64> = None;
    loop {
        let index = index_again();
        let events = blocks(&index);
        let page =
            read_history_page(Segment::Indexed(index, events), &HistoryQuery { cursor, ..asked() });
        assert!(page.events.len() <= 25);
        assert_eq!(page.has_more, page.next_cursor.is_some());
        seqs.extend(page.events.iter().map(|e| e.seq));
        cursor = page.next_cursor;
        if cursor.is_none() {
            break;
        }
    }
    let wanted: Vec<u64> = (250..600).filter(|n| n % 2 == 0).collect();
    assert_eq!(seqs, wanted);
}
