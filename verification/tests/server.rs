use rust_lob::app_state::{estimate_orders_from_1stchunk, AppError, RateLimiter, RateLimits, UploadError};
use rust_lob::auth::{authorize, sign_request, RequestHeaders};
use rust_lob::client;
use rust_lob::levels::PriceLevelProcessor;
use rust_lob::stats::{bin_data, LatencyProcessor};
use rust_lob::text::{decimal, signed_decimal};
use rust_lob::socket::{socket_step, SocketAction, SocketEvent, SocketState};

fn headers() -> RequestHeaders {
    RequestHeaders {
        origin: Some("https://lob.example.com".to_string()),
        websocket_protocol: None,
        timestamp: None,
        signature: None,
        forwarded_for: None,
        user_agent: None,
    }
}

fn unauthorized(r: Result<rust_lob::app_state::RequestContext, AppError>) -> String {
    match r {
        Err(AppError::Unauthorized(m)) => m,
        other => panic!("expected a refusal, got {:?}", other),
    }
}

#[test]
fn signature_is_hex_hmac_of_path_and_timestamp() {
    assert_eq!(
        sign_request(b"secret", "/smallupload", 1_700_000_000),
        "5271e8dfe6e868814fb45b3416ea072ba12907edcca914fbaf60db7fbad9685e"
    );
}

#[test]
fn signed_fresh_request_is_accepted() {
    let mut h = headers();
    h.timestamp = Some("1700000000".to_string());
    h.signature = Some(sign_request(b"secret", "/smallupload", 1_700_000_000));
    h.user_agent = Some("tester".to_string());
    let ctx = authorize(&h, "lob.example.com", "/smallupload", 1_700_000_030, b"secret", "10.0.0.1").unwrap();
    assert_eq!(ctx.remote_ip, "10.0.0.1");
    assert_eq!(ctx.origin, "https://lob.example.com");
    assert_eq!(ctx.user_agent, "tester");
    assert_eq!(ctx.timestamp, "1700000000");
    assert_eq!(ctx.signature, "5271e8dfe6e868814fb45b3416ea072ba12907edcca914fbaf60db7fbad9685e");
}

#[test]
fn websocket_credentials_come_from_protocol_header() {
    let mut h = headers();
    h.websocket_protocol = Some(format!(" 42 , {} ", sign_request(b"key", "/wslob", 42)));
    h.forwarded_for = Some("203.0.113.9".to_string());
    let ctx = authorize(&h, "example.com", "/wslob", 50, b"key", "10.0.0.1").unwrap();
    assert_eq!(ctx.remote_ip, "203.0.113.9");
    assert_eq!(ctx.user_agent, "NA");
    assert_eq!(ctx.signature, "66b955df9a9589385b67345b310bac54270662b8d289c2c4fb3add45005585d6");
}

#[test]
fn refusals_name_their_reason() {
    let mut h = headers();
    h.timestamp = Some("100".to_string());
    h.signature = Some(sign_request(b"k", "/largeupload", 100));
    assert_eq!(unauthorized(authorize(&h, "other.org", "/largeupload", 100, b"k", "ip")), "Invalid origin");
    assert_eq!(unauthorized(authorize(&h, "example", "/largeupload", 161, b"k", "ip")), "Request expired");
    assert_eq!(unauthorized(authorize(&h, "example", "/largeupload", 99, b"k", "ip")), "Request expired");
    assert_eq!(unauthorized(authorize(&h, "example", "/largeupload", 160, b"other", "ip")), "Invalid signature");
    h.signature = None;
    assert_eq!(unauthorized(authorize(&h, "example", "/largeupload", 100, b"k", "ip")), "Missing timestamp or signature");
    let mut w = headers();
    w.websocket_protocol = Some("123".to_string());
    assert_eq!(unauthorized(authorize(&w, "example", "/wslob", 123, b"k", "ip")), "Missing timestamp or signature");
    let mut o = headers();
    o.origin = None;
    assert_eq!(unauthorized(authorize(&o, "example", "/wslob", 0, b"k", "ip")), "Invalid origin");
}

#[test]
fn rate_limits_allow_up_to_the_limit() {
    let limits = RateLimits { ip_max_orders: 2_000_000, ip_window_secs: 30, global_max_orders: 3_000_000, global_window_secs: 7200 };
    assert!(limits.check_ip(1_000_000, 1_000_000).is_ok());
    match limits.check_ip(1_000_000, 1_000_001) {
        Err(AppError::RateLimitExceeded(m)) => {
            assert_eq!(m, "IP address has exceeded the limit of 2000000 orders in a 0 hour window")
        },
        _ => panic!("over the address limit"),
    }
    assert!(limits.check_global(0, 3_000_000).is_ok());
    match limits.check_global(usize::MAX, 1) {
        Err(AppError::RateLimitExceeded(m)) => {
            assert_eq!(m, "Application has exceeded the limit of 3000000 orders in a 2 hour window")
        },
        _ => panic!("over the global limit"),
    }
    assert!(RateLimits::starts_window(5, 5));
    assert!(!RateLimits::starts_window(9, 5));
}

#[test]
fn rate_limiter_needs_a_redis_url() {
    let l = RateLimiter::new("redis://127.0.0.1:6379", 10, 60, 20, 120).unwrap();
    assert_eq!(l.limits().ip_max_orders, 10);
    assert_eq!(l.limits().global_window_secs, 120);
    assert!(matches!(RateLimiter::new("not a url", 1, 1, 1, 1), Err(AppError::InternalError(_))));
}

#[test]
fn orders_are_estimated_from_the_first_chunk() {
    let chunk = vec![b'x'; 1_048_576];
    assert_eq!(estimate_orders_from_1stchunk(&chunk, &3), 105_000);
    assert_eq!(estimate_orders_from_1stchunk(&chunk[..524_288], &2), 35_000);
    assert_eq!(estimate_orders_from_1stchunk(&chunk[..29], &1), 0);
    assert_eq!(estimate_orders_from_1stchunk(&chunk[..30], &1), 1);
}

#[test]
fn errors_answer_with_status_and_message() {
    let e = AppError::RateLimitExceeded("slow down".to_string());
    assert_eq!((e.status_code(), e.message()), (429, "slow down".to_string()));
    assert_eq!(AppError::BadRequest("x".to_string()).status_code(), 400);
    assert_eq!(AppError::DeserializeError("x".to_string()).status_code(), 400);
    assert_eq!(AppError::InternalError("x".to_string()).status_code(), 500);
    assert_eq!(AppError::Unauthorized("x".to_string()).status_code(), 401);
    assert_eq!(UploadError::InvalidChunk.message(), "Invalid chunk number");
    assert_eq!(UploadError::SessionNotFound.message(), "session not found for getting channels");
    assert_eq!(UploadError::ChannelError("closed".to_string()).message(), "closed");
}

#[test]
fn client_errors_read_with_their_kind() {
    assert_eq!(
        client::AppError::RateLimitExceeded("order limit exceeded".to_string()).to_text(),
        "Rate limit exceeded: order limit exceeded"
    );
    assert_eq!(client::AppError::SerializeError("e".to_string()).to_text(), "Serialize error :e");
    assert!(matches!(client::decompress_data(&[0xff, 0xff, 0xff, 0xff]), Err(client::AppError::DecompressionError(_))));
}

#[test]
fn grouping_merges_levels_in_a_tick() {
    let p = PriceLevelProcessor::new();
    let g = p.group_by_ticket_size(&vec![(1000, 100), (1005, 175), (900, 80)], 10);
    assert_eq!(g, vec![(1000, 275), (900, 80)]);
    let n = p.group_by_ticket_size(&vec![(-15, 1), (-10, 2), (-1, 4)], 10);
    assert_eq!(n, vec![(-20, 1), (-10, 6)]);
}

#[test]
fn totals_accumulate_and_peak() {
    let p = PriceLevelProcessor::new();
    let t = p.add_total_volume(&vec![(1000, 5), (990, 7), (980, 1)]);
    assert_eq!(t, vec![(1000, 5, 5), (990, 7, 12), (980, 1, 13)]);
    assert_eq!(p.get_max_volume(&t), 13);
    assert_eq!(p.get_max_volume(&vec![]), 0);
}

#[test]
fn deltas_keep_shown_levels_and_fill_to_twenty() {
    let p = PriceLevelProcessor::new();
    let current: Vec<(i128, u64)> = (0..20).map(|i| (1000 + i * 10, 1)).collect();
    let mut update: Vec<(i128, u64)> = (5..30).map(|i| (1000 + i * 10, 2)).collect();
    update.push((1050, 9));
    let asks = p.apply_deltas(current.clone(), update.clone(), true);
    assert_eq!(asks.len(), 20);
    assert_eq!(asks[0], (1050, 9));
    assert_eq!(asks[1], (1060, 2));
    assert!(asks.windows(2).all(|w| w[0].0 < w[1].0));
    let bids = p.apply_deltas(current, update, false);
    assert_eq!(bids[0], (1240, 2));
    assert!(bids.windows(2).all(|w| w[0].0 > w[1].0));
}

#[test]
fn histogram_bins_below_the_cap() {
    let rows = bin_data(&vec![5, 15, 12, 250, 999, 1000, 4000, -3], 10, 1000);
    assert_eq!(rows, vec![(0, 10, 2), (10, 20, 2), (250, 260, 1), (990, 1000, 1)]);
    let capped = bin_data(&vec![22, 5], 10, 25);
    assert_eq!(capped, vec![(0, 10, 1)]);
}

#[test]
fn latency_window_keeps_the_latest() {
    let mut l = LatencyProcessor::new();
    assert!(l.get_latency_update().is_none());
    for i in 0..1_500u128 {
        l.process_latency(i);
    }
    let w = l.get_latency_update().unwrap();
    assert_eq!(w.len(), 1_000);
    assert_eq!(w[0], 500);
    assert_eq!(w[999], 1_499);
    l.process_latency(7);
    let w2 = l.get_latency_update().unwrap();
    assert_eq!(w2.len(), 1_000);
    assert_eq!(w2[999], 7);
}

#[test]
fn numbers_print_in_decimal() {
    assert_eq!(decimal(0).iter().collect::<String>(), "0");
    assert_eq!(decimal(18_446_744_073_709_551_615).iter().collect::<String>(), "18446744073709551615");
    assert_eq!(decimal(u128::MAX).iter().collect::<String>(), "340282366920938463463374607431768211455");
    assert_eq!(signed_decimal(-42).iter().collect::<String>(), "-42");
    assert_eq!(signed_decimal(i64::MIN).iter().collect::<String>(), "-9223372036854775808");
}

#[test]
fn snapshot_rows_group_and_accumulate() {
    let p = PriceLevelProcessor::new();
    let rows = p.level_rows(true, &vec![], &vec![(1003, 2), (1001, 3), (990, 4)], 10, false);
    assert_eq!(rows, vec![(1000, 5, 5), (990, 4, 9)]);
}

#[test]
fn updater_keeps_raw_levels_for_the_next_update() {
    let mut p = PriceLevelProcessor::new();
    let mut raw_bids = vec![];
    let mut raw_asks = vec![];
    let (bids, asks) = p.updater(true, vec![(1001, 1), (995, 2)], vec![(1012, 3)], &mut raw_bids, &mut raw_asks);
    assert_eq!(bids, vec![(1000, 1, 1), (990, 2, 3)]);
    assert_eq!(asks, vec![(1010, 3, 3)]);
    assert_eq!(raw_bids, vec![(1001, 1), (995, 2)]);
    assert_eq!(raw_asks, vec![(1012, 3)]);
}

#[test]
fn socket_start_is_checked_recorded_then_run() {
    let (s, acts) = socket_step(SocketState::Open, SocketEvent::Start { total_objects: 500 });
    assert_eq!(s, SocketState::CheckingLimit { orders: 500 });
    assert!(matches!(acts.as_slice(), [SocketAction::CheckLimit { orders: 500 }]));

    let (s, acts) = socket_step(s, SocketEvent::LimitChecked { within_limit: true });
    assert_eq!(s, SocketState::RecordingOrders { orders: 500 });
    assert!(matches!(
        acts.as_slice(),
        [SocketAction::RecordVisit { orders: 500, rate_limited: false }, SocketAction::RecordOrders { orders: 500 }]
    ));

    let (s, acts) = socket_step(s, SocketEvent::OrdersRecorded { recorded: true });
    assert_eq!(s, SocketState::Open);
    assert!(matches!(acts.as_slice(), [SocketAction::StartSimulation { orders: 500 }]));

    let (s, acts) = socket_step(SocketState::RecordingOrders { orders: 7 }, SocketEvent::OrdersRecorded { recorded: false });
    assert_eq!(s, SocketState::Closed);
    assert!(acts.is_empty());
}

#[test]
fn socket_refused_start_is_answered_and_closed() {
    let (s, acts) = socket_step(SocketState::CheckingLimit { orders: 9 }, SocketEvent::LimitChecked { within_limit: false });
    assert_eq!(s, SocketState::Closed);
    assert_eq!(acts.len(), 3);
    assert!(matches!(acts[0], SocketAction::SendRateLimitExceeded));
    assert!(matches!(acts[1], SocketAction::RecordVisit { orders: 0, rate_limited: true }));
    match &acts[2] {
        SocketAction::Close { code, reason } => {
            assert_eq!(*code, 1009);
            assert_eq!(reason, "max order limit reached");
        },
        other => panic!("expected a close, got {:?}", other),
    }
}

#[test]
fn socket_stop_and_ack_close_normally() {
    let (s, acts) = socket_step(SocketState::Open, SocketEvent::Stop);
    assert_eq!(s, SocketState::Closed);
    match &acts[..] {
        [SocketAction::Close { code, reason }] => {
            assert_eq!(*code, 1000);
            assert_eq!(reason, "client requested to stop simulation");
        },
        other => panic!("expected a close, got {:?}", other),
    }
    let (s, acts) = socket_step(SocketState::Open, SocketEvent::Ack);
    assert_eq!(s, SocketState::Closed);
    match &acts[..] {
        [SocketAction::Close { code, reason }] => {
            assert_eq!(*code, 1000);
            assert_eq!(reason, "simulation complete");
        },
        other => panic!("expected a close, got {:?}", other),
    }
    let (s, acts) = socket_step(SocketState::Closed, SocketEvent::Start { total_objects: 1 });
    assert_eq!(s, SocketState::Closed);
    assert!(acts.is_empty());
    let (s, acts) = socket_step(SocketState::Open, SocketEvent::ClientGone);
    assert_eq!(s, SocketState::Closed);
    assert!(acts.is_empty());
}
