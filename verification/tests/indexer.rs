use std::collections::HashMap;

use feather_index::codec::{FeatherDbKey, SpanDbValue};
use feather_index::query::{
    index_block_records, process_msg, process_msg_get_feathers, process_msg_status,
    RequestMessage, ResponseMessage,
};
use feather_index::reconciler::{decode_spans, load_spans, Reconciler};
use feather_index::remark::{parse_remark, scan_block, split_remark, ExtrinsicInfo};
use feather_index::scheduler::{check_next_batch_block, rate_per_second, BatchScheduler, Stats};
use feather_index::span::Span;
use feather_index::store::Trees;
use feather_index::IndexError;

fn temp_tree(name: &[u8]) -> (sled::Db, sled::Tree) {
    let db = sled::Config::new().temporary(true).open().unwrap();
    let tree = db.open_tree(name).unwrap();
    (db, tree)
}

fn fresh_reconciler(tree: sled::Tree, start: u32, end: u32) -> Reconciler {
    Reconciler {
        current_span: Span { start, end },
        spans: Vec::new(),
        orphans: HashMap::new(),
        tree,
        recorded: false,
    }
}

fn remark_extrinsic(account: u8, payload: &[u8]) -> ExtrinsicInfo {
    ExtrinsicInfo {
        pallet: b"System".to_vec(),
        variant: b"remark".to_vec(),
        account_id: Some(vec![account; 32]),
        remark: Some(payload.to_vec()),
    }
}

#[test]
fn codec_round_trip() {
    let bytes = feather_index::codec::u32_to_be(0x01020304);
    assert_eq!(bytes, vec![1, 2, 3, 4]);
    assert_eq!(feather_index::codec::u32_from_be(&bytes), 0x01020304);
    let value = SpanDbValue { start: 7 }.as_bytes();
    assert_eq!(value, vec![0, 0, 0, 7]);
    let parsed = SpanDbValue::read_from_bytes(&value).unwrap();
    assert_eq!(parsed.start, 7);
    assert!(SpanDbValue::read_from_bytes(&vec![1, 2, 3]).is_none());
}

#[test]
fn feather_key_round_trip() {
    let key = FeatherDbKey { block_number: 9, index: 2, account_id: vec![0xAB; 32] };
    let bytes = key.as_bytes();
    assert_eq!(bytes.len(), 38);
    let back = FeatherDbKey::read_from_bytes(&bytes).unwrap();
    assert_eq!(back.block_number, 9);
    assert_eq!(back.index, 2);
    assert_eq!(back.account_id, vec![0xAB; 32]);
    assert!(FeatherDbKey::read_from_bytes(&vec![0; 37]).is_none());
}

#[test]
fn split_remark_components() {
    let parts = split_remark(&b"FEATHER::poem::title::content".to_vec());
    assert_eq!(parts.len(), 4);
    assert_eq!(parts[0], b"FEATHER".to_vec());
    assert_eq!(parts[1], b"poem".to_vec());
    assert_eq!(parts[2], b"title".to_vec());
    assert_eq!(parts[3], b"content".to_vec());
    let overlapping = split_remark(&b"a:::b".to_vec());
    assert_eq!(overlapping.len(), 2);
    assert_eq!(overlapping[0], b"a".to_vec());
    assert_eq!(overlapping[1], b":b".to_vec());
}

#[test]
fn parse_remark_accepts_tagged_payload() {
    let parsed = parse_remark(&b"FEATHER::poem::title::content".to_vec()).unwrap();
    assert_eq!(parsed.0, b"poem".to_vec());
    assert_eq!(parsed.1, b"title".to_vec());
    assert_eq!(parsed.2, b"content".to_vec());
}

#[test]
fn parse_remark_extra_components_keep_fourth() {
    let parsed = parse_remark(&b"FEATHER::g::t::c::extra".to_vec()).unwrap();
    assert_eq!(parsed.2, b"c".to_vec());
}

#[test]
fn parse_remark_rejects_wrong_tag_or_short_split() {
    assert!(parse_remark(&b"OTHER::poem::t::c".to_vec()).is_none());
    assert!(parse_remark(&b"FEATHER::poem::t".to_vec()).is_none());
    assert!(parse_remark(&b"plain text".to_vec()).is_none());
}

#[test]
fn scan_block_counts_and_records() {
    let xts = vec![
        remark_extrinsic(0xAA, b"FEATHER::poem::t::c"),
        ExtrinsicInfo {
            pallet: b"Balances".to_vec(),
            variant: b"transfer".to_vec(),
            account_id: Some(vec![1; 32]),
            remark: None,
        },
        remark_extrinsic(0xBB, b"FEATHER::song::t2::c2"),
        // Malformed split: skipped, block still counted as indexed.
        remark_extrinsic(0xCC, b"FEATHER::incomplete"),
    ];
    let (records, count) = scan_block(77, &xts);
    assert_eq!(count, 4);
    assert_eq!(records.len(), 2);
    assert_eq!(records[0].block_number, 77);
    assert_eq!(records[0].index, 0);
    assert_eq!(records[0].account_id, vec![0xAA; 32]);
    assert_eq!(records[1].index, 2);
}

#[test]
fn orphan_cascade() {
    let (_db, tree) = temp_tree(b"span");
    let mut rec = fresh_reconciler(tree, 100, 100);
    rec.integrate_backward(99).unwrap();
    assert_eq!(rec.current_span, Span { start: 99, end: 100 });
    rec.integrate_backward(97).unwrap();
    assert_eq!(rec.current_span, Span { start: 99, end: 100 });
    assert!(rec.orphans.contains_key(&97));
    rec.integrate_backward(98).unwrap();
    assert_eq!(rec.current_span, Span { start: 97, end: 100 });
    assert!(rec.orphans.is_empty());
}

#[test]
fn integration_order_independent() {
    let descending = [99u32, 98, 97, 96];
    let interleaved = [96u32, 98, 97, 99];
    let mut outcomes = Vec::new();
    for order in [&descending, &interleaved] {
        let (_db, tree) = temp_tree(b"span");
        let mut seed = fresh_reconciler(tree.clone(), 90, 95);
        seed.finalize_on_shutdown().unwrap();
        let mut rec = Reconciler {
            current_span: Span { start: 100, end: 100 },
            spans: load_spans(&tree).unwrap(),
            orphans: HashMap::new(),
            tree: tree.clone(),
            recorded: false,
        };
        for block in order.iter() {
            rec.integrate_backward(*block).unwrap();
        }
        let orphan_count = rec.orphans.len();
        outcomes.push((rec.current_span, rec.spans.clone(), orphan_count, load_spans(&tree).unwrap()));
    }
    // Reaching block 96 touches the persisted span [90, 95], which is
    // absorbed, whichever order the batch results came in.
    assert_eq!(outcomes[0].0, Span { start: 90, end: 100 });
    assert_eq!(outcomes[0], outcomes[1]);
    assert!(outcomes[0].1.is_empty());
    assert_eq!(outcomes[0].2, 0);
}

#[test]
fn merge_on_touch() {
    let (_db, tree) = temp_tree(b"span");
    let mut old_run = fresh_reconciler(tree.clone(), 10, 20);
    old_run.finalize_on_shutdown().unwrap();
    let spans = load_spans(&tree).unwrap();
    assert_eq!(spans, vec![Span { start: 10, end: 20 }]);
    let mut rec = Reconciler {
        current_span: Span { start: 21, end: 21 },
        spans,
        orphans: HashMap::new(),
        tree: tree.clone(),
        recorded: false,
    };
    rec.integrate_backward(20).unwrap();
    assert_eq!(rec.current_span, Span { start: 10, end: 21 });
    assert!(rec.spans.is_empty());
    // The absorbed span's record is gone; the widened current span is
    // the only record left.
    let reloaded = load_spans(&tree).unwrap();
    assert_eq!(reloaded, vec![Span { start: 10, end: 21 }]);
}

#[test]
fn shutdown_persists_multi_block_span() {
    let (_db, tree) = temp_tree(b"span");
    let mut rec = fresh_reconciler(tree.clone(), 50, 55);
    rec.finalize_on_shutdown().unwrap();
    let spans = load_spans(&tree).unwrap();
    assert_eq!(spans, vec![Span { start: 50, end: 55 }]);
}

#[test]
fn shutdown_skips_single_block_span() {
    let (_db, tree) = temp_tree(b"span");
    let mut rec = fresh_reconciler(tree.clone(), 55, 55);
    rec.finalize_on_shutdown().unwrap();
    assert!(load_spans(&tree).unwrap().is_empty());
}

#[test]
fn load_reproduces_persisted_spans() {
    let (_db, tree) = temp_tree(b"span");
    let mut first = fresh_reconciler(tree.clone(), 10, 20);
    first.finalize_on_shutdown().unwrap();
    let mut second = Reconciler {
        current_span: Span { start: 30, end: 40 },
        spans: load_spans(&tree).unwrap(),
        orphans: HashMap::new(),
        tree: tree.clone(),
        recorded: false,
    };
    second.finalize_on_shutdown().unwrap();
    let spans = load_spans(&tree).unwrap();
    assert_eq!(spans, vec![Span { start: 10, end: 20 }, Span { start: 30, end: 40 }]);
    // Loading again changes nothing.
    assert_eq!(load_spans(&tree).unwrap(), spans);
}

#[test]
fn decode_spans_rejects_malformed_records() {
    let bad_value = vec![(vec![0, 0, 0, 1], vec![1, 2, 3])];
    assert!(matches!(decode_spans(&bad_value), Err(IndexError::ParseError)));
    let inverted = vec![(vec![0, 0, 0, 1], vec![0, 0, 0, 9])];
    assert!(matches!(decode_spans(&inverted), Err(IndexError::ParseError)));
    let touching = vec![
        (vec![0, 0, 0, 5], vec![0, 0, 0, 1]),
        (vec![0, 0, 0, 9], vec![0, 0, 0, 6]),
    ];
    assert!(matches!(decode_spans(&touching), Err(IndexError::ParseError)));
}

#[test]
fn resume_from_touching_span() {
    let (_db, tree) = temp_tree(b"span");
    let mut old_run = fresh_reconciler(tree.clone(), 90, 100);
    old_run.finalize_on_shutdown().unwrap();
    let (rec, next_batch) = Reconciler::resume(tree.clone(), 100).unwrap();
    assert_eq!(rec.current_span, Span { start: 90, end: 100 });
    assert!(rec.spans.is_empty());
    assert_eq!(next_batch, Some(89));
    assert!(load_spans(&tree).unwrap().is_empty());
}

#[test]
fn resume_fresh_above_head() {
    let (_db, tree) = temp_tree(b"span");
    let (rec, next_batch) = Reconciler::resume(tree, 200).unwrap();
    assert_eq!(rec.current_span, Span { start: 201, end: 201 });
    assert_eq!(next_batch, Some(200));
}

#[test]
fn resume_from_span_covering_head() {
    // The chain fell back below what was indexed: the newest persisted
    // span covers the head, so it is resumed rather than refused.
    let (_db, tree) = temp_tree(b"span");
    let mut old_run = fresh_reconciler(tree.clone(), 90, 100);
    old_run.finalize_on_shutdown().unwrap();
    let (rec, next_batch) = Reconciler::resume(tree.clone(), 95).unwrap();
    assert_eq!(rec.current_span, Span { start: 90, end: 100 });
    assert!(rec.spans.is_empty());
    assert_eq!(next_batch, Some(89));
    assert!(load_spans(&tree).unwrap().is_empty());
}

#[test]
fn extend_forward_moves_end_and_repersists() {
    let (_db, tree) = temp_tree(b"span");
    let mut rec = fresh_reconciler(tree.clone(), 100, 100);
    rec.extend_forward(101).unwrap();
    assert_eq!(rec.current_span, Span { start: 100, end: 101 });
    assert_eq!(load_spans(&tree).unwrap(), vec![Span { start: 100, end: 101 }]);
    rec.extend_forward(103).unwrap();
    assert_eq!(rec.current_span, Span { start: 100, end: 103 });
    assert_eq!(load_spans(&tree).unwrap(), vec![Span { start: 100, end: 103 }]);
}

#[test]
fn next_batch_target_skips_spans() {
    let spans = vec![Span { start: 10, end: 20 }, Span { start: 30, end: 40 }];
    let mut candidate: u32 = 35;
    let halted = check_next_batch_block(&spans, &mut candidate);
    assert!(!halted);
    assert_eq!(candidate, 29);
    let mut outside: u32 = 25;
    assert!(!check_next_batch_block(&spans, &mut outside));
    assert_eq!(outside, 25);
}

#[test]
fn next_batch_target_halts_at_genesis_span() {
    let spans = vec![Span { start: 0, end: 5 }];
    let mut candidate: u32 = 3;
    let halted = check_next_batch_block(&spans, &mut candidate);
    assert!(halted);
    assert_eq!(candidate, 3);
}

#[test]
fn scheduler_dispatches_downward_and_halts() {
    let no_spans: Vec<Span> = Vec::new();
    let mut sched = BatchScheduler::new(Some(2));
    assert_eq!(sched.next_dispatch(&no_spans), Some(2));
    assert_eq!(sched.next_dispatch(&no_spans), Some(1));
    assert_eq!(sched.next_dispatch(&no_spans), Some(0));
    assert_eq!(sched.next_dispatch(&no_spans), None);
    let mut failed = BatchScheduler::new(Some(10));
    failed.halt();
    assert_eq!(failed.next_dispatch(&no_spans), None);
}

#[test]
fn stats_rates() {
    let mut stats = Stats::new();
    stats.record(3, 1);
    stats.record(2, 0);
    assert_eq!(stats.block_count, 2);
    assert_eq!(stats.event_count, 5);
    assert_eq!(stats.key_count, 1);
    assert_eq!(rate_per_second(10, 1_000_000), 10);
    assert_eq!(rate_per_second(5, 2_000_000), 2);
    stats.reset();
    assert_eq!(stats.block_count, 0);
}

#[test]
fn query_returns_records_newest_first() {
    let (_db, tree) = temp_tree(b"feather");
    let mut feather = tree.clone();
    index_block_records(&mut feather, 5, &vec![remark_extrinsic(0xAA, b"FEATHER::poem::t5::c5")])
        .unwrap();
    index_block_records(&mut feather, 4, &vec![remark_extrinsic(0xBB, b"FEATHER::song::t4::c4")])
        .unwrap();
    index_block_records(&mut feather, 3, &vec![remark_extrinsic(0xAA, b"FEATHER::poem::t3::c3")])
        .unwrap();
    let reply = process_msg_get_feathers(&tree, 5, 10, None, None).unwrap();
    let feathers = match reply {
        ResponseMessage::Feathers(f) => f,
        _ => panic!("expected records"),
    };
    assert_eq!(feathers.len(), 3);
    assert_eq!(feathers[0].block_number, 5);
    assert_eq!(feathers[1].block_number, 4);
    assert_eq!(feathers[2].block_number, 3);
    assert_eq!(feathers[0].remark, b"FEATHER::poem::t5::c5".to_vec());

    let filtered = process_msg_get_feathers(&tree, 5, 10, Some(vec![0xAA; 32]), None).unwrap();
    let feathers = match filtered {
        ResponseMessage::Feathers(f) => f,
        _ => panic!("expected records"),
    };
    assert_eq!(feathers.len(), 2);
    assert_eq!(feathers[0].block_number, 5);
    assert_eq!(feathers[1].block_number, 3);
}

#[test]
fn query_respects_limit_genre_and_start_block() {
    let (_db, tree) = temp_tree(b"feather");
    let mut feather = tree.clone();
    for block in 1..6u32 {
        let genre: &[u8] = if block % 2 == 0 { b"song" } else { b"poem" };
        let payload = [b"FEATHER::".as_ref(), genre, b"::t::c"].concat();
        index_block_records(&mut feather, block, &vec![remark_extrinsic(0x11, &payload)])
            .unwrap();
    }
    let limited = process_msg_get_feathers(&tree, 5, 2, None, None).unwrap();
    let feathers = match limited {
        ResponseMessage::Feathers(f) => f,
        _ => panic!("expected records"),
    };
    assert_eq!(feathers.len(), 2);
    assert_eq!(feathers[0].block_number, 5);
    assert_eq!(feathers[1].block_number, 4);

    let songs = process_msg_get_feathers(&tree, 5, 10, None, Some(b"song".to_vec())).unwrap();
    let feathers = match songs {
        ResponseMessage::Feathers(f) => f,
        _ => panic!("expected records"),
    };
    assert_eq!(feathers.len(), 2);
    assert_eq!(feathers[0].block_number, 4);
    assert_eq!(feathers[1].block_number, 2);

    let from_three = process_msg_get_feathers(&tree, 3, 10, None, None).unwrap();
    let feathers = match from_three {
        ResponseMessage::Feathers(f) => f,
        _ => panic!("expected records"),
    };
    assert_eq!(feathers.len(), 3);
    assert_eq!(feathers[0].block_number, 3);
}

#[test]
fn process_msg_dispatch() {
    let db = sled::Config::new().temporary(true).open().unwrap();
    let trees = Trees {
        root: db.clone(),
        span: db.open_tree(b"span").unwrap(),
        feather: db.open_tree(b"feather").unwrap(),
    };
    let mut rec = fresh_reconciler(trees.span.clone(), 7, 9);
    rec.finalize_on_shutdown().unwrap();
    match process_msg(&trees, RequestMessage::Status).unwrap() {
        ResponseMessage::Status(spans) => {
            assert_eq!(spans, vec![Span { start: 7, end: 9 }]);
        },
        _ => panic!("expected status"),
    }
    match process_msg_status(&trees.span).unwrap() {
        ResponseMessage::Status(spans) => assert_eq!(spans.len(), 1),
        _ => panic!("expected status"),
    }
    match process_msg(&trees, RequestMessage::SizeOnDisk).unwrap() {
        ResponseMessage::SizeOnDisk(_) => (),
        _ => panic!("expected size"),
    }
    match process_msg(
        &trees,
        RequestMessage::GetFeathers { block_number: 5, limit: 1, account_id: None, genre: None },
    )
    .unwrap()
    {
        ResponseMessage::Feathers(feathers) => assert!(feathers.is_empty()),
        _ => panic!("expected records"),
    }
}
