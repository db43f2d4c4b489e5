use rust_lob::app_state::AppError;
use rust_lob::chunks::{split_chunks, total_chunks};
use rust_lob::client::decompress_data;
use rust_lob::orderbook::BidOrAsk;
use rust_lob::parser::FileUploadOrderType;
use rust_lob::processor::{decompress_if_needed, process_uploaded_orders, FinalStats};
use rust_lob::sessions::{LargeUploadSessionManager, UploadSessionManager};
use rust_lob::stream::{compress_data, UpdateBatcher};
use rust_lob::upload_flow::{upload_step, UploadAction, UploadEvent, UploadKind, UploadState};
use std::time::Duration;

fn stats_of<'a>(r: &'a [(String, FinalStats)], kind: &str) -> Option<&'a FinalStats> {
    r.iter().find(|(k, _)| k == kind).map(|(_, s)| s)
}

#[test]
fn processing_reports_each_kind() {
    let orders = vec![
        FileUploadOrderType::Add { id: 1, side: BidOrAsk::Ask, shares: 10, price: 500 },
        FileUploadOrderType::Add { id: 2, side: BidOrAsk::Ask, shares: 10, price: 510 },
        FileUploadOrderType::Add { id: 3, side: BidOrAsk::Bid, shares: 15, price: 510 },
        FileUploadOrderType::Cancel { id: 2 },
        FileUploadOrderType::Cancel { id: 42 },
    ];
    let r = process_uploaded_orders(orders);
    assert_eq!(r.len(), 2);
    assert_eq!(r[0].0, "ADD");
    assert_eq!(r[1].0, "CANCEL");
    let add = stats_of(&r, "ADD").unwrap();
    assert_eq!(add.nos, 3);
    assert_eq!(add.executed_orders_cnt, 2);
    assert_eq!(add.avl_rebalances, 0);
    let cancel = stats_of(&r, "CANCEL").unwrap();
    assert_eq!(cancel.nos, 2);
    assert_eq!(cancel.executed_orders_cnt, 0);
    assert!(stats_of(&r, "MODIFY").is_none());
}

#[test]
fn processing_counts_modify_trades() {
    let orders = vec![
        FileUploadOrderType::Add { id: 1, side: BidOrAsk::Bid, shares: 5, price: 100 },
        FileUploadOrderType::Add { id: 2, side: BidOrAsk::Ask, shares: 5, price: 120 },
        FileUploadOrderType::Modify { id: 1, shares: 5, price: 130 },
    ];
    let r = process_uploaded_orders(orders);
    assert_eq!(r.len(), 2);
    assert_eq!(stats_of(&r, "MODIFY").unwrap().executed_orders_cnt, 1);
    assert_eq!(stats_of(&r, "ADD").unwrap().executed_orders_cnt, 0);
}

#[test]
fn processing_nothing_reports_nothing() {
    assert!(process_uploaded_orders(vec![]).is_empty());
}

#[test]
fn final_stats_add_sums_fields() {
    let a = FinalStats { total_time: Duration::from_nanos(5), avl_rebalances: 1, executed_orders_cnt: 2, nos: 3 };
    let b = FinalStats { total_time: Duration::from_nanos(7), avl_rebalances: 10, executed_orders_cnt: 20, nos: 30 };
    let c = a.add(&b);
    assert_eq!(c.total_time, Duration::from_nanos(12));
    assert_eq!((c.avl_rebalances, c.executed_orders_cnt, c.nos), (11, 22, 33));
}

#[test]
fn plain_bodies_pass_through() {
    let body = b"ADD,1,BID,1,1".to_vec();
    assert_eq!(decompress_if_needed(&body, None).unwrap(), body);
    assert_eq!(decompress_if_needed(&body, Some("gzip")).unwrap(), body);
}

#[test]
fn deflate_round_trip() {
    let text = "ADD, 1, BID, 10, 5.25\nCANCEL, 1\n";
    let packed = compress_data(text).unwrap();
    assert_ne!(packed, text.as_bytes().to_vec());
    assert_eq!(decompress_if_needed(&packed, Some("deflate")).unwrap(), text.as_bytes().to_vec());
    assert_eq!(decompress_data(&packed).unwrap(), text);
}

#[test]
fn corrupt_deflate_is_a_bad_request() {
    let r = decompress_if_needed(&[0xff, 0xff, 0xff, 0xff], Some("deflate"));
    assert!(matches!(r, Err(AppError::BadRequest(_))));
}

#[test]
fn sessions_join_chunks_in_order() {
    let mut m: LargeUploadSessionManager = UploadSessionManager::new();
    m.store_chunk("s1", 1, b"world".to_vec(), 2);
    assert!(!m.is_upload_complete("s1"));
    assert_eq!(m.get_all_chunks("s1"), Err("Incomplete Upload: got 1/2 chunks".to_string()));
    m.store_chunk("s1", 0, b"hello ".to_vec(), 99);
    assert!(m.is_upload_complete("s1"));
    assert_eq!(m.get_all_chunks("s1"), Ok(b"hello world".to_vec()));
    assert_eq!(m.clear_chunks("s1"), Ok(()));
    assert!(!m.is_upload_complete("s1"));
}

#[test]
fn sessions_report_unknown_and_missing() {
    let mut m: UploadSessionManager<u64> = UploadSessionManager::new();
    assert_eq!(m.get_all_chunks("nope"), Err("Session nope not found".to_string()));
    assert_eq!(m.clear_chunks("nope"), Err("Session nope not found for deletion".to_string()));
    m.store_chunk("a", 0, vec![1, 2], 2);
    m.store_chunk("a", 5, vec![3], 2);
    assert!(m.is_upload_complete("a"));
    assert_eq!(m.get_all_chunks("a"), Err("Missing chunk 1 in session a".to_string()));
    m.store_chunk("b", 0, vec![9], 1);
    assert_eq!(m.get_all_chunks("b"), Ok(vec![9]));
}

#[test]
fn chunking_then_joining_gives_the_data_back() {
    let data: Vec<u8> = (0..=250u8).collect();
    let chunks = split_chunks(&data, 64);
    assert_eq!(chunks.len(), 4);
    assert_eq!(total_chunks(data.len(), 64), 4);
    assert_eq!(chunks[3].len(), 251 - 192);
    let mut m: LargeUploadSessionManager = UploadSessionManager::new();
    for (k, c) in chunks.into_iter().enumerate().rev() {
        m.store_chunk("up", k, c, 4);
    }
    assert!(m.is_upload_complete("up"));
    assert_eq!(m.get_all_chunks("up"), Ok(data));
}

#[test]
fn chunk_counts_round_up() {
    assert_eq!(total_chunks(0, 10), 0);
    assert_eq!(total_chunks(10, 10), 1);
    assert_eq!(total_chunks(11, 10), 2);
    assert_eq!(total_chunks(usize::MAX, 2), usize::MAX / 2 + 1);
}

#[test]
fn batcher_hands_out_full_batches() {
    let mut b: UpdateBatcher<u32> = UpdateBatcher::new();
    let mut sent = Vec::new();
    let mut pauses = 0;
    for i in 0..5_250u32 {
        let f = b.push(i);
        if let Some(batch) = f.batch {
            assert_eq!(batch.len(), 500);
            sent.extend(batch);
        }
        if f.breathe {
            pauses += 1;
        }
    }
    assert_eq!(pauses, 1);
    let rest = b.finish().unwrap();
    assert_eq!(rest.len(), 250);
    sent.extend(rest);
    assert_eq!(sent, (0..5_250u32).collect::<Vec<_>>());
    assert!(b.finish().is_none());
}

#[test]
fn accepted_chunks_come_back_whole_once_complete() {
    let mut m: UploadSessionManager<u8> = UploadSessionManager::new();
    assert_eq!(m.accept_chunk("s", 1, b"world".to_vec(), 2), Ok(None));
    assert_eq!(m.accept_chunk("s", 0, b"hello ".to_vec(), 2), Ok(Some(b"hello world".to_vec())));
    assert_eq!(m.accept_chunk("t", 5, vec![1], 1), Err("Missing chunk 0 in session t".to_string()));
}

#[test]
fn processing_sums_rebalancing_steps_per_kind() {
    let orders = vec![
        FileUploadOrderType::Add { id: 1, side: BidOrAsk::Bid, shares: 1, price: 100 },
        FileUploadOrderType::Add { id: 2, side: BidOrAsk::Bid, shares: 1, price: 200 },
        FileUploadOrderType::Add { id: 3, side: BidOrAsk::Bid, shares: 1, price: 300 },
        FileUploadOrderType::Add { id: 4, side: BidOrAsk::Bid, shares: 1, price: 400 },
        FileUploadOrderType::Cancel { id: 1 },
        FileUploadOrderType::Modify { id: 4, shares: 1, price: 50 },
    ];
    let r = process_uploaded_orders(orders);
    assert_eq!(stats_of(&r, "ADD").unwrap().avl_rebalances, 1);
    assert_eq!(stats_of(&r, "CANCEL").unwrap().avl_rebalances, 1);
    assert_eq!(stats_of(&r, "MODIFY").unwrap().avl_rebalances, 1);
}

#[test]
fn processing_counts_a_small_upload_exactly() {
    let orders = vec![
        FileUploadOrderType::Add { id: 1, side: BidOrAsk::Bid, shares: 10, price: 920 },
        FileUploadOrderType::Add { id: 2, side: BidOrAsk::Ask, shares: 4, price: 900 },
        FileUploadOrderType::Cancel { id: 1 },
        FileUploadOrderType::Cancel { id: 99 },
    ];
    let r = process_uploaded_orders(orders);
    assert_eq!(r.len(), 2);
    let add = stats_of(&r, "ADD").unwrap();
    assert_eq!((add.nos, add.executed_orders_cnt, add.avl_rebalances), (2, 1, 0));
    let cancel = stats_of(&r, "CANCEL").unwrap();
    assert_eq!((cancel.nos, cancel.executed_orders_cnt, cancel.avl_rebalances), (2, 0, 0));
}

#[test]
fn duplicate_upload_id_is_skipped() {
    let orders = vec![
        FileUploadOrderType::Add { id: 1, side: BidOrAsk::Bid, shares: 10, price: 100 },
        FileUploadOrderType::Add { id: 1, side: BidOrAsk::Bid, shares: 50, price: 200 },
        FileUploadOrderType::Add { id: 2, side: BidOrAsk::Ask, shares: 10, price: 100 },
    ];
    let r = process_uploaded_orders(orders);
    let add = stats_of(&r, "ADD").unwrap();
    assert_eq!((add.nos, add.executed_orders_cnt, add.avl_rebalances), (3, 1, 0));
}

fn run_steps(events: Vec<UploadEvent>) -> (UploadState, Vec<UploadAction>) {
    let mut state = UploadState::Idle;
    let mut all = Vec::new();
    for e in events {
        let (next, acts) = upload_step(state, e);
        state = next;
        all.extend(acts);
    }
    (state, all)
}

#[test]
fn first_small_chunk_is_checked_and_refused() {
    let (s, acts) = run_steps(vec![
        UploadEvent::ChunkArrived { kind: UploadKind::Small, chunk_number: 0, orders: 9 },
        UploadEvent::LimitChecked { within_limit: false },
    ]);
    assert_eq!(s, UploadState::Done);
    assert_eq!(
        acts,
        vec![
            UploadAction::CheckLimit { orders: 9 },
            UploadAction::RecordVisit { orders: 0, rate_limited: true },
            UploadAction::RefuseRateLimited,
        ]
    );
}

#[test]
fn last_small_chunk_is_recorded_run_and_cleared() {
    let (s, acts) = run_steps(vec![
        UploadEvent::ChunkArrived { kind: UploadKind::Small, chunk_number: 2, orders: 30 },
        UploadEvent::Stored { complete: true },
        UploadEvent::OrdersRecorded { recorded: true },
        UploadEvent::Ran,
    ]);
    assert_eq!(s, UploadState::Done);
    assert_eq!(
        acts,
        vec![
            UploadAction::Store,
            UploadAction::RecordVisit { orders: 30, rate_limited: false },
            UploadAction::RecordOrders { orders: 30 },
            UploadAction::Run,
            UploadAction::ClearAndAnswer,
        ]
    );
    let (_, acts) = run_steps(vec![
        UploadEvent::ChunkArrived { kind: UploadKind::Small, chunk_number: 1, orders: 30 },
        UploadEvent::Stored { complete: false },
    ]);
    assert_eq!(acts, vec![UploadAction::Store, UploadAction::AnswerPending]);
}

#[test]
fn complete_large_upload_is_parsed_then_checked_again() {
    let (s, acts) = run_steps(vec![
        UploadEvent::ChunkArrived { kind: UploadKind::Large, chunk_number: 0, orders: 100 },
        UploadEvent::LimitChecked { within_limit: true },
        UploadEvent::Stored { complete: true },
        UploadEvent::Parsed { orders: 80 },
        UploadEvent::LimitChecked { within_limit: false },
    ]);
    assert_eq!(s, UploadState::Done);
    assert_eq!(
        acts,
        vec![
            UploadAction::CheckLimit { orders: 100 },
            UploadAction::Store,
            UploadAction::Parse,
            UploadAction::CheckLimit { orders: 80 },
            UploadAction::RefuseRateLimited,
        ]
    );
    let (_, acts) = run_steps(vec![
        UploadEvent::ChunkArrived { kind: UploadKind::Large, chunk_number: 3, orders: 0 },
        UploadEvent::Stored { complete: true },
        UploadEvent::Parsed { orders: 0 },
    ]);
    assert_eq!(acts, vec![UploadAction::Store, UploadAction::Parse, UploadAction::AnswerParsedOnly]);
}
