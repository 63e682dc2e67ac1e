use rinha_fraud::calendar::{
    day_of_week, days_since_epoch, minutes_between, parse_datetime, parse_epoch_minutes, parse_u32,
};
use rinha_fraud::features::{is_unknown_merchant, mcc_risk, Features, Scaled};
use rinha_fraud::http::{
    content_length_fast, not_found_response, ready_response, request_total, route, score_response,
    Route,
};
use rinha_fraud::index::partition_key;
use rinha_fraud::json::{
    find_key, find_section, is_json_null, parse_json_bool, parse_json_float, parse_json_string,
    Decimal,
};
use rinha_fraud::references::assert_qvec_domain;
use rinha_fraud::transaction::{parse_transaction, Transaction};

const BODY: &str = r#"{"id":"tx-1","transaction":{"amount":384.88,"installments":3,
"requested_at":"2026-03-11T20:23:35Z"},"customer":{"avg_amount":769.76,"tx_count_24h":3,
"known_merchants":["MERC-009","MERC-001"]},"merchant":{"id":"MERC-001","mcc":"5912",
"avg_amount":298.95},"terminal":{"is_online":false,"card_present":true,"km_from_home":13.7090520965},
"last_transaction":{"timestamp":"2026-03-11T14:58:35Z","km_from_current":18.8626479774}}"#;

fn transaction(body: &str) -> Transaction {
    match parse_transaction(body.as_bytes()) {
        Some(tx) => tx,
        None => panic!("no transaction"),
    }
}

fn written(d: &Decimal) -> String {
    let mut s = String::new();
    if d.negative {
        s.push('-');
    }
    s.push_str(std::str::from_utf8(&d.whole).unwrap());
    s.push('.');
    s.push_str(std::str::from_utf8(&d.fraction).unwrap());
    s
}

#[test]
fn a_transaction_is_read() {
    let tx = transaction(BODY);
    assert_eq!(written(&tx.amount), "384.88");
    assert_eq!(written(&tx.installments), "3.");
    assert_eq!(tx.requested_at, b"2026-03-11T20:23:35Z");
    assert_eq!(written(&tx.avg_amount), "769.76");
    assert_eq!(written(&tx.tx_count_24h), "3.");
    assert_eq!(tx.known_merchants, vec![b"MERC-009".to_vec(), b"MERC-001".to_vec()]);
    assert_eq!(tx.merchant_id, b"MERC-001");
    assert_eq!(tx.mcc, b"5912");
    assert_eq!(written(&tx.merchant_avg_amount), "298.95");
    assert!(!tx.is_online);
    assert!(tx.card_present);
    assert_eq!(written(&tx.km_from_home), "13.7090520965");
    assert!(tx.has_last_tx);
    assert_eq!(tx.last_timestamp, b"2026-03-11T14:58:35Z");
    assert_eq!(written(&tx.km_from_last), "18.8626479774");
}

#[test]
fn missing_values_have_defaults() {
    let tx = transaction(
        r#"{"transaction":{},"customer":{},"merchant":{},"terminal":{},"last_transaction": null}"#,
    );
    assert_eq!(written(&tx.amount), ".");
    assert_eq!(written(&tx.installments), "1.");
    assert_eq!(written(&tx.avg_amount), "1.");
    assert_eq!(tx.requested_at.len(), 0);
    assert_eq!(tx.known_merchants.len(), 0);
    assert!(tx.card_present && !tx.is_online && !tx.has_last_tx);
    assert_eq!(tx.last_timestamp.len(), 0);
    assert!(is_unknown_merchant(&tx));
}

#[test]
fn all_four_sections_are_needed() {
    for name in ["transaction", "customer", "merchant", "terminal"] {
        let body = BODY.replace(&format!("\"{}\":", name), "\"other\":");
        assert!(parse_transaction(body.as_bytes()).is_none(), "{}", name);
    }
    assert!(parse_transaction(b"").is_none());
    assert!(parse_transaction(BODY.replace("\"last_transaction\":", "\"other\":").as_bytes()).is_some());
}

#[test]
fn texts_and_lists_are_cut() {
    let names: Vec<String> = (0..40).map(|i| format!("\"merchant-with-a-long-name-{}\"", i)).collect();
    let body = BODY
        .replace("\"MERC-009\",\"MERC-001\"", &names.join(" ,\n"))
        .replace("\"5912\"", "\"123456789\"");
    let tx = transaction(&body);
    assert_eq!(tx.known_merchants.len(), 32);
    assert!(tx.known_merchants.iter().all(|m| m == b"merchant-with-a-"));
    assert_eq!(tx.mcc, b"12345678");
    // what is no text in a list counts as an empty one, as often as there is room
    let tx = transaction(&BODY.replace("\"MERC-009\",\"MERC-001\"", "17"));
    assert_eq!(tx.known_merchants.len(), 32);
    assert!(tx.known_merchants.iter().all(|m| m.is_empty()));
}

#[test]
fn keys_are_found_from_a_position_on() {
    let data = br#"{"id" : 1, "idx":2,"id":  3 }"#;
    let first = find_key(data, b"id", 0).unwrap();
    assert_eq!(data[first], b'1');
    let second = find_key(data, b"id", first).unwrap();
    assert_eq!(data[second], b'3');
    assert_eq!(find_key(data, b"id", second), None);
    assert_eq!(find_key(data, b"missing", 0), None);
    assert_eq!(find_section(data, b"idx").map(|p| data[p]), Some(b'2'));
    // a key that is not followed by a colon is none
    assert_eq!(find_key(br#"["id", "id"]"#, b"id", 0), None);
    assert_eq!(find_key(data, b"id", 1_000), None);
    assert_eq!(find_key(data, b"id", usize::MAX), None);
    // the colon may be the last byte
    assert_eq!(find_key(br#""a":"#, b"a", 0), Some(4));
    assert_eq!(find_key(br#""a" :"#, b"a", 0), Some(5));
    assert_eq!(find_key(br#""a""#, b"a", 0), None);
}

#[test]
fn the_average_can_be_divided_by() {
    for zero in ["0", "0.00", "-5", "-0.5", "0.", "x", "000.000"] {
        let tx = transaction(&BODY.replace("\"avg_amount\":769.76", &format!("\"avg_amount\":{}", zero)));
        assert_eq!(written(&tx.avg_amount), "1.", "{}", zero);
    }
    for positive in ["0.001", "10", "769.76"] {
        let tx = transaction(&BODY.replace("\"avg_amount\":769.76", &format!("\"avg_amount\":{}", positive)));
        assert_eq!(written(&tx.avg_amount).trim_end_matches('.'), positive);
    }
    // the merchant's average is as it is written
    let tx = transaction(&BODY.replace("298.95", "-0"));
    assert_eq!(written(&tx.merchant_avg_amount), "-0.");
}

#[test]
fn single_values_are_read() {
    let (d, end) = parse_json_float(b"-12.50,", 0);
    assert_eq!((written(&d), end), ("-12.50".to_string(), 6));
    let (d, end) = parse_json_float(b"x7", 1);
    assert_eq!((written(&d), end), ("7.".to_string(), 2));
    let (d, end) = parse_json_float(b"abc", 0);
    assert_eq!((written(&d), end), (".".to_string(), 0));
    assert_eq!(parse_json_string(b"\"abc\",", 0), (&b"abc"[..], 5));
    assert_eq!(parse_json_string(b"\"abc", 0), (&b"abc"[..], 4));
    assert_eq!(parse_json_string(b"abc", 0), (&b""[..], 0));
    // beyond the text there is nothing
    let (d, end) = parse_json_float(b"12", 5);
    assert_eq!((written(&d), end), (".".to_string(), 5));
    assert_eq!(parse_json_string(b"\"abc\"", 9), (&b""[..], 9));
    assert_eq!(parse_json_bool(b"true", 0), (true, 4));
    assert_eq!(parse_json_bool(b" false", 1), (false, 6));
    assert_eq!(parse_json_bool(b"tru", 0), (false, 0));
    assert!(is_json_null(b"null", 0));
    assert!(!is_json_null(b"nul", 0));
}

#[test]
fn features_of_a_transaction() {
    let tx = transaction(BODY);
    let f = Features::of(&tx).unwrap();
    // 2026-03-11 is a Wednesday
    assert_eq!((f.hour, f.day), (20, 2));
    assert_eq!(f.minutes_since_last, Some(325));
    assert!(!f.unknown_merchant && !f.is_online && f.card_present);
    assert_eq!(f.mcc_risk, 2_000);
    let tx = transaction(&BODY.replace("\"id\":\"MERC-001\"", "\"id\":\"MERC-002\""));
    assert!(Features::of(&tx).unwrap().unknown_merchant);
    // without a time it is noon of a Wednesday, and there is no time since the last transaction
    let tx = transaction(&BODY.replace("2026-03-11T20:23:35Z", "2026"));
    let f = Features::of(&tx).unwrap();
    assert_eq!((f.hour, f.day, f.minutes_since_last), (12, 2, None));
    // a time that is none
    for bad in [
        "2026-13-11T20:23:35Z",
        "2026-00-11T20:23:35Z",
        "2026-03-xxT20:23:35Z",
        "2026-03-11T20:2x:35Z",
        "2026-03-99T20:23:35Z",
        "2026-03-00T20:23:35Z",
        "2026-02-29T20:23:35Z",
        "2026-04-31T20:23:35Z",
        "2026-03-11T24:23:35Z",
        "2026-03-11T99:23:35Z",
        "2026-03-11T20:60:35Z",
    ] {
        let tx = transaction(&BODY.replace("2026-03-11T20:23:35Z", bad));
        assert!(Features::of(&tx).is_none(), "{}", bad);
    }
}

#[test]
fn a_query_has_every_feature_in_its_dimension() {
    let f = Features {
        hour: 20,
        day: 2,
        minutes_since_last: Some(325),
        is_online: false,
        card_present: true,
        unknown_merchant: true,
        mcc_risk: 8_500,
    };
    let s = Scaled {
        amount: 1,
        installments: 2,
        amount_ratio: 3,
        hour: 8_696,
        day: 4,
        minutes_since_last: 5,
        km_from_last: 6,
        km_from_home: 7,
        tx_count_24h: 8,
        merchant_avg_amount: 9,
    };
    let q = f.query(&s);
    assert_eq!(q.0, [1, 2, 3, 8_696, 4, 5, 6, 7, 8, 0, 10_000, 10_000, 8_500, 9, 0, 0]);
    assert_eq!(partition_key(&q), 2 + 4 + 8 + 16 * 3 + 64 * 3);
    assert_eq!(assert_qvec_domain(&q), Ok(()));
    let q = Features { minutes_since_last: None, ..f }.query(&s);
    assert_eq!(assert_qvec_domain(&q), Ok(()));
    assert_eq!((q.0[5], q.0[6]), (-10_000, -10_000));
    assert_eq!(partition_key(&q), 2 + 4 + 16 * 3 + 64 * 3);
}

#[test]
fn merchant_category_risks() {
    let table: [(&[u8], i16); 12] = [
        (b"5411", 1_500),
        (b"5812", 3_000),
        (b"5912", 2_000),
        (b"5944", 4_500),
        (b"7801", 8_000),
        (b"7802", 7_500),
        (b"7995", 8_500),
        (b"4511", 3_500),
        (b"5311", 2_500),
        (b"5999", 5_000),
        (b"", 5_000),
        (b"54110", 5_000),
    ];
    for (mcc, risk) in table {
        assert_eq!(mcc_risk(mcc), risk);
    }
}

#[test]
fn days_of_the_week() {
    assert_eq!(day_of_week(1970, 1, 1), 3);
    assert_eq!(day_of_week(2000, 2, 29), 1);
    assert_eq!(day_of_week(2024, 2, 29), 3);
    assert_eq!(day_of_week(2026, 3, 15), 6);
    assert_eq!(day_of_week(2026, 3, 16), 0);
    // the year before year zero is a year like others
    assert_eq!(day_of_week(0, 1, 1), 5);
    assert_eq!(day_of_week(0, 2, 29), 1);
    assert_eq!(day_of_week(0, 3, 1), 2);
}

#[test]
fn days_since_the_epoch() {
    assert_eq!(days_since_epoch(1970, 1, 1), 0);
    assert_eq!(days_since_epoch(1970, 3, 1), 59);
    assert_eq!(days_since_epoch(2000, 3, 1), 11_017);
    assert_eq!(days_since_epoch(2026, 3, 11), 20_523);
    assert_eq!(days_since_epoch(1969, 12, 31), -1);
    assert_eq!(days_since_epoch(1970, 1, 1 + 1_000_000_000_000), 1_000_000_000_000);
    assert_eq!(days_since_epoch(1_970 + 400_000_000, 1, 1), 146_097_000_000);
    assert_eq!(days_since_epoch(0, 1, 1), -719_528);
    assert_eq!(days_since_epoch(0, 3, 1), -719_468);
    // the days go on over every month, leap years included
    let months = [31, 28, 31, 30, 31, 30, 31, 31, 30, 31, 30, 31];
    let mut day = days_since_epoch(-405, 1, 1);
    for y in -405i64..2105 {
        let leap = y % 4 == 0 && (y % 100 != 0 || y % 400 == 0);
        for m in 1..=12i64 {
            assert_eq!(days_since_epoch(y, m, 1), day);
            if y >= 0 {
                assert_eq!(day_of_week(y as u32, m as u32, 1) as i64, (day + 3).rem_euclid(7));
            }
            day += months[m as usize - 1] + if m == 2 && leap { 1 } else { 0 };
        }
    }
}

#[test]
fn points_in_time() {
    assert_eq!(parse_u32(b"0042"), Some(42));
    assert_eq!(parse_u32(b""), Some(0));
    assert_eq!(parse_u32(b"4a"), None);
    assert_eq!(parse_u32(b"4294967295"), Some(u32::MAX));
    assert_eq!(parse_u32(b"4294967296"), None);
    assert_eq!(parse_datetime(b"2026-03-11T20"), Some((20, 2)));
    assert_eq!(parse_datetime(b"2026-13-11T20"), None);
    assert_eq!(parse_datetime(b"2026-03-32T20"), None);
    assert_eq!(parse_datetime(b"2026-03-11T24"), None);
    assert_eq!(parse_datetime(b"2024-02-29T23"), Some((23, 3)));
    assert_eq!(parse_datetime(b"1900-02-29T23"), None);
    assert_eq!(parse_datetime(b"2000-02-29T00"), Some((0, 1)));
    assert_eq!(parse_epoch_minutes(b"1970-01-01T00:60"), None);
    assert_eq!(parse_epoch_minutes(b"1970-01-01T24:00"), None);
    assert_eq!(parse_epoch_minutes(b"1970-02-30T00:00"), None);
    assert_eq!(parse_epoch_minutes(b"1970-01-01T00:00"), Some(0));
    assert_eq!(parse_epoch_minutes(b"1970-01-02T01:05:59Z"), Some(1_505));
    assert_eq!(parse_epoch_minutes(b"1970-01-0xT01:05:59Z"), None);
    let a = b"2026-03-11T20:23:35Z";
    let b = b"2026-03-10T20:24:00Z";
    assert_eq!(minutes_between(a, b), Some(1_439));
    assert_eq!(minutes_between(b, a), Some(-1_439));
}

#[test]
fn responses_are_exact() {
    assert_eq!(
        ready_response(),
        b"HTTP/1.1 200 OK\r\nContent-Length: 0\r\nConnection: keep-alive\r\n\r\n"
    );
    assert_eq!(
        not_found_response(),
        b"HTTP/1.1 404 Not Found\r\nContent-Length: 0\r\nConnection: keep-alive\r\n\r\n"
    );
    let table = [
        ("35", "true", "0.0"),
        ("35", "true", "0.2"),
        ("35", "true", "0.4"),
        ("36", "false", "0.6"),
        ("36", "false", "0.8"),
        ("36", "false", "1.0"),
    ];
    for (n, (len, approved, score)) in table.iter().enumerate() {
        let body = format!("{{\"approved\":{},\"fraud_score\":{}}}", approved, score);
        let want = format!(
            "HTTP/1.1 200 OK\r\nContent-Type: application/json\r\nContent-Length: {}\r\nConnection: keep-alive\r\n\r\n{}",
            len, body
        );
        let got = score_response(n as u32);
        assert_eq!(String::from_utf8(got.clone()).unwrap(), want);
        assert_eq!(body.len().to_string(), *len);
        // a response is framed as a request would be
        assert_eq!(request_total(&got).unwrap().0, got.len());
    }
}

#[test]
fn requests_are_framed() {
    assert_eq!(request_total(b"GET /ready HTTP/1.1\r\n\r\n"), Some((23, 23)));
    assert_eq!(request_total(b"GET /ready HTTP/1.1\r\n\r"), None);
    assert_eq!(request_total(b""), None);
    let req = b"POST / HTTP/1.1\r\ncOnTeNt-LeNgTh:   12x\r\n\r\nabc";
    assert_eq!(request_total(req), Some((req.len() - 3 + 12, req.len() - 3)));
    // what follows the head does not change the frame
    let mut more = req.to_vec();
    more.extend_from_slice(b"Content-Length: 99\r\n\r\n");
    assert_eq!(request_total(&more), request_total(req));
    assert_eq!(content_length_fast(b"Content-Length:\r\n\r\n"), 0);
    assert_eq!(content_length_fast(b"X: 1\r\ncontent-length: 007\r\n"), 7);
    assert_eq!(content_length_fast(b"content-length: 99999999999999999999999"), usize::MAX);
    assert_eq!(content_length_fast(b"content-length"), 0);
    assert_eq!(
        request_total(b"content-length:99999999999999999999999\r\n\r\n").unwrap().0,
        usize::MAX
    );
}

#[test]
fn requests_are_routed() {
    assert!(matches!(route(b"GET /ready HTTP/1.1\r\n\r\n", 23), Route::Ready));
    assert!(matches!(route(b"GET /other", 10), Route::NotFound));
    assert!(matches!(route(b"", 0), Route::NotFound));
    assert!(matches!(route(b"GET /fraud-score", 16), Route::NotFound));
    let head = "POST /fraud-score HTTP/1.1\r\n\r\n";
    assert!(matches!(route(head.as_bytes(), head.len()), Route::Fallback));
    let req = format!("{}not json", head);
    let r = route(req.as_bytes(), head.len());
    assert!(matches!(r, Route::Fallback));
    assert_eq!(r.respond(), Some(score_response(0)));
    let req = format!("{}{}", head, BODY.replace("2026-03-11T20", "2026-99-11T20"));
    assert!(matches!(route(req.as_bytes(), head.len()), Route::Fallback));
    let req = format!("{}{}", head, BODY);
    match route(req.as_bytes(), head.len()) {
        Route::Score(tx, f) => {
            assert_eq!(tx.mcc, b"5912");
            assert_eq!(f.hour, 20);
        }
        _ => panic!("a score was expected"),
    }
    assert_eq!(route(b"GET /ready", 10).respond(), Some(ready_response()));
    assert_eq!(route(b"GET /", 5).respond(), Some(not_found_response()));
    assert!(route(req.as_bytes(), head.len()).respond().is_none());
}
