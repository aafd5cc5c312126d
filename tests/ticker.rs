use kdb_ticker_client::codec::{
    decode_response, encode_message, handshake_reply, handshake_request, response_body_len,
    ProtocolError,
};
use kdb_ticker_client::feed::{BinanceWebSocketClient, FeedAction, FeedEvent, FeedState};
use kdb_ticker_client::models::{normalize, normalize_at, number_field, BinanceTicker, UtcTime};
use kdb_ticker_client::number::{parse_number, Number};
use kdb_ticker_client::sink::{
    build_insert_command, finish_flush, insert_frame, start_flush, store_nanos, KdbClient,
    PendingBuffer,
};

fn value(n: Number) -> f64 {
    match n {
        Number::Finite { negative, digits, frac_len, exponent } => {
            let text = format!(
                "{}{}e{}",
                if negative { "-" } else { "" },
                String::from_utf8(digits).unwrap(),
                exponent as i128 - frac_len as i128
            );
            text.parse::<f64>().unwrap()
        }
        Number::Infinite { negative: false } => f64::INFINITY,
        Number::Infinite { negative: true } => f64::NEG_INFINITY,
        Number::NotANumber => f64::NAN,
    }
}

fn finite(negative: bool, digits: &str, frac_len: usize, exponent: i64) -> Option<Number> {
    Some(Number::Finite { negative, digits: digits.as_bytes().to_vec(), frac_len, exponent })
}

fn sample() -> BinanceTicker {
    BinanceTicker {
        event_type: "24hrTicker".to_string(),
        event_time: 1672531200000,
        symbol: "ETHUSDT".to_string(),
        price_change: "50.00".to_string(),
        price_change_percent: "2.50".to_string(),
        weighted_avg_price: "2050.00".to_string(),
        prev_close_price: "2000.00".to_string(),
        last_price: "2050.00".to_string(),
        last_quantity: "10".to_string(),
        bid_price: "2049.00".to_string(),
        bid_quantity: "100".to_string(),
        ask_price: "2051.00".to_string(),
        ask_quantity: "150".to_string(),
        open_price: "2000.00".to_string(),
        high_price: "2100.00".to_string(),
        low_price: "1950.00".to_string(),
        base_volume: "50000".to_string(),
        quote_volume: "100000000".to_string(),
        stats_open_time: 1672444800000,
        stats_close_time: 1672531200000,
        first_trade_id: 100,
        last_trade_id: 200,
        count: 101,
    }
}

#[test]
fn test_main_exists() {
    assert!(true);
}

#[test]
fn test_kdb_client_creation() {
    let client = KdbClient::new("localhost".to_string(), 5001);
    assert_eq!(client.host, "localhost");
    assert_eq!(client.port, 5001);
}

#[test]
fn test_websocket_client_creation() {
    let client = BinanceWebSocketClient::new("ETHUSDT".to_string());
    assert_eq!(client.symbol, "ETHUSDT");
}

#[test]
fn test_kdb_ticker_conversion() {
    let kdb = normalize(sample());
    assert_eq!(kdb.sym, "ETHUSDT");
    assert_eq!(value(kdb.bid), 2049.0);
    assert_eq!(value(kdb.ask), 2051.0);
    assert_eq!(value(kdb.last), 2050.0);
}

#[test]
fn concrete_event_normalizes() {
    let kdb = normalize(sample());
    assert_eq!(value(kdb.bid), 2049.0);
    assert_eq!(value(kdb.ask), 2051.0);
    assert_eq!(value(kdb.last), 2050.0);
    assert_eq!(value(kdb.volume), 50000.0);
    assert_eq!(value(kdb.bid_size), 100.0);
    assert_eq!(value(kdb.ask_size), 150.0);
    // 2023-01-01T00:00:00Z
    assert_eq!(kdb.time.secs, 1672531200);
    assert_eq!(kdb.time.nanos, 0);
}

#[test]
fn malformed_fields_default_to_zero_alone() {
    let mut t = sample();
    t.bid_price = "abc".to_string();
    t.base_volume = "".to_string();
    let kdb = normalize(t);
    assert_eq!(kdb.bid, Number::zero());
    assert_eq!(kdb.volume, Number::zero());
    assert_eq!(value(kdb.ask), 2051.0);
    assert_eq!(value(kdb.last), 2050.0);
    assert_eq!(value(kdb.bid_size), 100.0);
}

#[test]
fn out_of_range_time_is_replaced() {
    let mut t = sample();
    t.event_time = u64::MAX / 2;
    let kdb = normalize(t);
    assert!(kdb.time.secs > 1672531200);
    assert!(kdb.time.nanos < 1_000_000_000);
}

#[test]
fn millis_keep_sub_second_part() {
    let mut t = sample();
    t.event_time = 1672531200123;
    let kdb = normalize(t);
    assert_eq!(kdb.time.secs, 1672531200);
    assert_eq!(kdb.time.nanos, 123_000_000);
}

#[test]
fn numeric_texts() {
    assert_eq!(parse_number("2049.00"), finite(false, "204900", 2, 0));
    assert_eq!(parse_number("-0.5"), finite(true, "05", 1, 0));
    assert_eq!(parse_number("+7"), finite(false, "7", 0, 0));
    assert_eq!(parse_number(".25"), finite(false, "25", 2, 0));
    assert_eq!(parse_number("3."), finite(false, "3", 0, 0));
    assert_eq!(parse_number("1e5"), finite(false, "1", 0, 5));
    assert_eq!(parse_number("2.5E-3"), finite(false, "25", 1, -3));
    assert_eq!(parse_number("1e+2"), finite(false, "1", 0, 2));
    assert_eq!(parse_number("1e99999999999999999999"), finite(false, "1", 0, 1_000_000_000_000_000));
    assert_eq!(parse_number("inf"), Some(Number::Infinite { negative: false }));
    assert_eq!(parse_number("-Infinity"), Some(Number::Infinite { negative: true }));
    assert_eq!(parse_number("NaN"), Some(Number::NotANumber));
    assert_eq!(parse_number(""), None);
    assert_eq!(parse_number("."), None);
    assert_eq!(parse_number("-"), None);
    assert_eq!(parse_number("1.2.3"), None);
    assert_eq!(parse_number("12a"), None);
    assert_eq!(parse_number("1e"), None);
    assert_eq!(parse_number("e5"), None);
    assert_eq!(parse_number("infin"), None);
    assert_eq!(number_field("x1"), Number::zero());
}

#[test]
fn numeric_texts_agree_with_float_parse() {
    let texts = [
        "0.0000000000000000001",
        "92233720368.00000000",
        "9223372036854775808",
        "1e5",
        "-2.5E-3",
        "123456789012345678901234567890",
        "0.1",
        "1e400",
    ];
    for t in texts {
        let n = parse_number(t).unwrap();
        assert_eq!(value(n), t.parse::<f64>().unwrap(), "{}", t);
    }
    assert!(value(parse_number("nan").unwrap()).is_nan());
    for t in ["abc", "", "1.2.3", "--1", "1e", "0x10"] {
        assert!(t.parse::<f64>().is_err(), "{}", t);
        assert_eq!(parse_number(t), None, "{}", t);
    }
}

#[test]
fn large_volume_is_kept() {
    let mut t = sample();
    t.base_volume = "92233720368.00000000".to_string();
    t.bid_price = "1e5".to_string();
    let kdb = normalize(t);
    assert_eq!(value(kdb.volume), 92233720368.0);
    assert_eq!(value(kdb.bid), 100000.0);
}

#[test]
fn clock_value_replaces_unrepresentable_time() {
    let now = UtcTime { secs: 1_700_000_000, nanos: 5 };
    let mut t = sample();
    t.event_time = 8_210_266_876_800_000;
    assert_eq!(normalize_at(t, now).time, now);
    let mut t = sample();
    t.event_time = 8_210_266_876_799_999;
    let kdb = normalize_at(t, now);
    assert_eq!(kdb.time.secs, 8_210_266_876_799);
    assert_eq!(kdb.time.nanos, 999_000_000);
    let mut t = sample();
    t.event_time = u64::MAX;
    assert_eq!(normalize_at(t, now).time, now);
}

#[test]
fn frame_layout_and_length_field() {
    let cmd = b"abc";
    let f = encode_message(cmd);
    assert_eq!(f, vec![1, 0, 0, 0, 12, 0, 0, 0, 10, 0, b'a', b'b', b'c', 0]);
    let len = u32::from_le_bytes([f[4], f[5], f[6], f[7]]) as usize;
    assert_eq!(len, 8 + cmd.len() + 1);
    let empty = encode_message(b"");
    assert_eq!(empty, vec![1, 0, 0, 0, 9, 0, 0, 0, 10, 0, 0]);
}

#[test]
fn response_reads_declared_body_only() {
    let mut input = vec![1, 2, 0, 0, 11, 0, 0, 0, 7, 8, 9];
    input.extend_from_slice(&[42, 43, 44]);
    let (body, used) = decode_response(&input).unwrap();
    assert_eq!(body, vec![7, 8, 9]);
    assert_eq!(used, 11);
}

#[test]
fn response_errors() {
    assert_eq!(decode_response(&[1, 2, 0]), Err(ProtocolError::ConnectionClosed));
    assert_eq!(decode_response(&[1, 2, 0, 0, 12, 0, 0, 0, 7]), Err(ProtocolError::ConnectionClosed));
    assert_eq!(decode_response(&[1, 2, 0, 0, 7, 0, 0, 0]), Err(ProtocolError::LengthTooSmall));
    assert_eq!(response_body_len(&[0, 0, 0, 0, 8, 1, 0, 0]), Ok(256));
    assert_eq!(decode_response(&[1, 2, 0, 0, 8, 0, 0, 0, 5]), Ok((vec![], 8)));
}

#[test]
fn handshake_bytes() {
    assert_eq!(handshake_request(), vec![0]);
    assert_eq!(handshake_reply(&[3]), Ok(3));
    assert_eq!(handshake_reply(&[]), Err(ProtocolError::ConnectionClosed));
}

#[test]
fn store_epoch_nanos() {
    let kdb = normalize(sample());
    assert_eq!(store_nanos(kdb.time), 725_846_400_000_000_000);
    let mut t = sample();
    t.event_time = 946684799999;
    assert_eq!(store_nanos(normalize(t).time), -1_000_000);
    let far = kdb_ticker_client::models::UtcTime { secs: 400_000_000_000, nanos: 0 };
    assert_eq!(store_nanos(far), 0);
}

#[test]
fn insert_command_columns_align() {
    let a = normalize(sample());
    let mut t = sample();
    t.symbol = "BTCUSDT".to_string();
    t.bid_price = "-1.5".to_string();
    t.event_time = 946684800001;
    let b = normalize(t);
    let cmd = String::from_utf8(build_insert_command(&[a, b])).unwrap();
    assert_eq!(
        cmd,
        "`ticker insert ([] time:0D725846400000000000 0D1000000; sym:`ETHUSDT `BTCUSDT; \
         bid:204900e-2 -15e-1; ask:205100e-2 205100e-2; bidSize:100 100; askSize:150 150; \
         last:205000e-2 205000e-2; volume:50000 50000)"
    );
    for (k, part) in cmd.split("; ").enumerate() {
        let values = part.split(':').nth(1).unwrap().trim_end_matches(')');
        assert_eq!(values.split(' ').count(), 2, "column {}", k);
    }
}

#[test]
fn insert_frame_wraps_command() {
    let a = normalize(sample());
    let cmd = build_insert_command(&[a.clone()]);
    let f = insert_frame(&[a]).unwrap();
    assert_eq!(f.len(), cmd.len() + 11);
    assert_eq!(&f[10..10 + cmd.len()], &cmd[..]);
}

#[test]
fn failed_batch_returns_to_front() {
    let mut buffer = PendingBuffer::new();
    let syms = ["A", "B", "C"];
    for s in syms {
        let mut t = sample();
        t.symbol = s.to_string();
        buffer.push(normalize(t));
    }
    let batch = start_flush(&mut buffer).unwrap();
    assert_eq!(buffer.len(), 0);
    let mut t = sample();
    t.symbol = "D".to_string();
    buffer.push(normalize(t));
    finish_flush(&mut buffer, batch, false);
    let again = start_flush(&mut buffer).unwrap();
    let order: Vec<String> = again.iter().map(|r| r.sym.clone()).collect();
    assert_eq!(order, vec!["A", "B", "C", "D"]);
    finish_flush(&mut buffer, again, true);
    assert!(start_flush(&mut buffer).is_none());
}

#[test]
fn large_buffer_is_flagged() {
    let mut buffer = PendingBuffer::new();
    for _ in 0..1000 {
        buffer.push(normalize(sample()));
    }
    assert!(!buffer.is_large());
    buffer.push(normalize(sample()));
    assert!(buffer.is_large());
}

#[test]
fn reconnects_after_close() {
    let mut client = BinanceWebSocketClient::new("ETHUSDT".to_string());
    let url = match client.step(FeedEvent::Start) {
        FeedAction::Connect(u) => u,
        other => panic!("unexpected {:?}", other),
    };
    assert_eq!(url, "wss://stream.binance.com:9443/ws/ethusdt@ticker");
    assert!(matches!(client.step(FeedEvent::Connected), FeedAction::Ignore));
    assert_eq!(client.state, FeedState::Streaming);
    match client.step(FeedEvent::Ticker(sample())) {
        FeedAction::Deliver(r) => assert_eq!(value(r.bid), 2049.0),
        other => panic!("unexpected {:?}", other),
    }
    assert!(matches!(client.step(FeedEvent::Closed), FeedAction::Wait(5)));
    assert_eq!(client.state, FeedState::Disconnected);
    match client.step(FeedEvent::DelayElapsed) {
        FeedAction::Connect(u) => assert_eq!(u, url),
        other => panic!("unexpected {:?}", other),
    }
}

#[test]
fn streaming_keepalive_and_failures() {
    let mut client = BinanceWebSocketClient::new("ethusdt".to_string());
    client.step(FeedEvent::Start);
    assert!(matches!(client.step(FeedEvent::ConnectFailed), FeedAction::Wait(5)));
    client.step(FeedEvent::DelayElapsed);
    client.step(FeedEvent::Connected);
    match client.step(FeedEvent::Ping(vec![1, 2])) {
        FeedAction::SendPong(p) => assert_eq!(p, vec![1, 2]),
        other => panic!("unexpected {:?}", other),
    }
    assert!(matches!(client.step(FeedEvent::PingDue), FeedAction::SendPing));
    assert!(matches!(client.step(FeedEvent::Malformed), FeedAction::Ignore));
    assert_eq!(client.state, FeedState::Streaming);
    assert!(matches!(client.step(FeedEvent::QueueClosed), FeedAction::Wait(5)));
    assert_eq!(client.state, FeedState::Disconnected);
}
