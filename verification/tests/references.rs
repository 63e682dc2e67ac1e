use rinha_fraud::grammar::ParseError;
use rinha_fraud::index::{partition_key, QVec};
use rinha_fraud::kd::BuildRecord;
use rinha_fraud::references::assert_qvec_domain;
use rinha_fraud::stream::{is_number_text, MemorySource, StreamParser, BUF_SIZE};

fn parser(text: &str) -> StreamParser<MemorySource> {
    StreamParser::new(MemorySource::new(text.as_bytes().to_vec()))
}

fn read(text: &str) -> Result<Vec<BuildRecord>, ParseError> {
    parser(text).read_references()
}

fn error(text: &str) -> ParseError {
    match read(text) {
        Ok(_) => panic!("an error was expected"),
        Err(e) => e,
    }
}

const VECTOR: &str = "[0.01, 0.0833,0.05,0.8261,0.1667,-1,-1,0.0432,0.25,0,1,0,0.2,0.0416]";

#[test]
fn references_become_records() {
    let text = format!(
        " [ {{\"vector\":{},\"label\":\"legit\"}} ,\n{{\"label\" : \"fraud\", \"vector\":{} }}]",
        VECTOR, VECTOR
    );
    let records = read(&text).unwrap();
    assert_eq!(records.len(), 2);
    let want: [i16; 16] =
        [100, 833, 500, 8261, 1667, -10_000, -10_000, 432, 2500, 0, 10_000, 0, 2000, 416, 0, 0];
    for r in &records {
        assert_eq!(r.qvec.0, want);
        assert_eq!(r.key, partition_key(&QVec(want)));
    }
    assert_eq!((records[0].label, records[1].label), (0, 1));
}

#[test]
fn unknown_fields_are_skipped() {
    let text = format!(
        "[{{\"a\":[1,[],{{\"b\":\"x\\\"]\",\"c\":{{}}}}, -1.5e3],\"n\":null,\"t\":true,\"f\":false,\
         \"vector\":{},\"label\":\"other\",\"s\":\"\"}}]",
        VECTOR
    );
    let records = read(&text).unwrap();
    assert_eq!(records.len(), 1);
    assert_eq!(records[0].label, 0);
}

#[test]
fn an_empty_array_has_no_records() {
    assert_eq!(read("[]").unwrap().len(), 0);
    assert_eq!(read("  [ \t\r\n ] and more").unwrap().len(), 0);
}

#[test]
fn the_end_of_the_text_ends_the_array() {
    let text = format!("[{{\"vector\":{},\"label\":\"fraud\"}}", VECTOR);
    assert_eq!(read(&text).unwrap().len(), 1);
    let text = format!("[{{\"vector\":{},\"label\":\"fraud\"", VECTOR);
    assert_eq!(read(&text).unwrap().len(), 1);
}

#[test]
fn a_long_text_crosses_the_buffer() {
    let entry = format!("{{\"vector\":{},\"label\":\"fraud\"}},", VECTOR);
    let n = 4_194_304 / entry.len() + 50;
    let mut text = String::from("[");
    for _ in 0..n {
        text.push_str(&entry);
    }
    text.pop();
    text.push(']');
    assert!(text.len() > 4_194_304);
    let records = read(&text).unwrap();
    assert_eq!(records.len(), n);
    assert!(records.iter().all(|r| r.qvec.0[3] == 8261 && r.label == 1));
}

#[test]
fn broken_texts_are_rejected() {
    assert_eq!(error(""), ParseError::ExpectedAtEnd(b'['));
    assert_eq!(error(" {"), ParseError::Unexpected(b'[', b'{'));
    assert_eq!(error("["), ParseError::ExpectedAtEnd(b'{'));
    assert_eq!(error("[{}]"), ParseError::MissingVector);
    let vector = format!("\"vector\":{}", VECTOR);
    assert_eq!(error(&format!("[{{{}}}]", vector)), ParseError::MissingLabel);
    assert_eq!(error("[{\"label\":\"fraud\"}]"), ParseError::MissingVector);
    assert_eq!(error("[{\"label"), ParseError::UnterminatedString);
    assert_eq!(error("[{\"x\":\"abc"), ParseError::UnterminatedString);
    assert_eq!(error("[{\"x\":abc"), ParseError::BadNumber);
    assert_eq!(error("[{\"x\" 1"), ParseError::Unexpected(b':', b'1'));
    assert_eq!(error("[{\"vector\":["), ParseError::NumberAtEnd);
    assert_eq!(error("[{\"vector\":[1 2"), ParseError::Unexpected(b',', b'2'));
    assert_eq!(error("[{\"vector\":[0.12345"), ParseError::TooManyDecimals);
    assert_eq!(error("[{\"vector\":[-,"), ParseError::NoDigit);
    assert_eq!(error("[{\"vector\":[4"), ParseError::OutOfRange);
    assert_eq!(error("[{\"vector\":[99999999999999999999"), ParseError::OutOfRange);
    let two = format!("[{{{},\"label\":\"fraud\"}} {{", vector);
    assert_eq!(error(&two), ParseError::Unexpected(b',', b'{'));
    let outside = VECTOR.replace("0.8261", "-0.1");
    let text = format!("[{{\"vector\":{},\"label\":\"fraud\"}}]", outside);
    assert_eq!(error(&text), ParseError::OutOfDomain(3));
}

#[test]
fn fixed_point_numbers() {
    let value = |text: &str| parser(text).parse_fixed4_i16();
    assert_eq!(value(" 0.0833,"), Ok(833));
    assert_eq!(value("-1"), Ok(-10_000));
    assert_eq!(value("+1.5"), Ok(15_000));
    assert_eq!(value(".25"), Ok(2_500));
    assert_eq!(value("3."), Ok(30_000));
    assert_eq!(value("3.2767"), Ok(i16::MAX));
    assert_eq!(value("3.2768"), Err(ParseError::OutOfRange));
    assert_eq!(value("-3.2768"), Ok(i16::MIN));
    assert_eq!(value("-3.2769"), Err(ParseError::OutOfRange));
    assert_eq!(value("00000000000000000000.5"), Ok(5_000));
    assert_eq!(value("."), Err(ParseError::NoDigit));
    assert_eq!(value("  "), Err(ParseError::NumberAtEnd));
}

#[test]
fn strings_keep_eight_bytes() {
    let mut out = [b'_'; 8];
    let mut p = parser(" \"label\":");
    assert_eq!(p.parse_string_into(&mut out), Ok(5));
    assert_eq!(&out, b"label___");
    assert_eq!(p.peek(), b':');
    let mut p = parser("\"0123456789\"");
    assert_eq!(p.parse_string_into(&mut out), Ok(10));
    assert_eq!(&out, b"01234567");
    assert!(!p.has_data());
    assert_eq!(parser("\"x").parse_string_into(&mut out), Err(ParseError::UnterminatedString));
}

#[test]
fn values_are_skipped_whole() {
    let rest = |text: &str| {
        let mut p = parser(text);
        p.skip_value().unwrap();
        let mut left = Vec::new();
        while p.has_data() {
            left.push(p.peek());
            p.advance();
        }
        String::from_utf8(left).unwrap()
    };
    assert_eq!(rest(" \"a\\\\\\\"b\" !"), " !");
    assert_eq!(rest("[[1,2],{\"k\":[]}],!"), ",!");
    assert_eq!(rest("{\"a\":1,\"b\":\"}\"}!"), "!");
    assert_eq!(rest("true!"), "!");
    assert_eq!(rest("false!"), "!");
    assert_eq!(rest("null!"), "!");
    assert_eq!(rest("-12.5e+3!"), "!");
    assert_eq!(rest(""), "");
    assert_eq!(rest("tr"), "");
    assert_eq!(rest("[1"), "");
    assert_eq!(parser("[1;").skip_value(), Err(ParseError::Unexpected(b',', b';')));
    assert_eq!(parser("{1").skip_value(), Err(ParseError::Unexpected(b'"', b'1')));
    assert_eq!(parser("?").skip_value(), Err(ParseError::BadNumber));
}

#[test]
fn number_texts_are_those_that_parse() {
    let texts = [
        "1", "-1", "+1", "1.", ".5", "1.5", "1e5", "1.e5", ".5E-3", "1e+05", "", ".", "-", "e5",
        "1e", "1e+", "1.2.3", "--1", "1-", "+.", "1e5.5", "00012", "-.0e0",
    ];
    for t in texts {
        assert_eq!(is_number_text(t.as_bytes()), t.parse::<f64>().is_ok(), "{}", t);
    }
}

#[test]
fn a_long_number_is_skipped_whole() {
    let mut p = parser(&format!("{},2", "1".repeat(33)));
    p.skip_number().unwrap();
    assert_eq!(p.peek(), b',');
    p.advance();
    assert_eq!(p.peek(), b'2');
    // longer than the buffer
    let mut p = parser(&format!("[-{}.5e10, 3]!", "7".repeat(BUF_SIZE + 10)));
    p.skip_value().unwrap();
    assert_eq!(p.peek(), b'!');
    assert_eq!(parser(&format!("{}-", "1".repeat(33))).skip_number(), Err(ParseError::BadNumber));
}

#[test]
fn a_nested_value_leaves_exactly_what_follows() {
    let value = "{ \"a b\" : [ 1 , \"]\\\"\" ,[ ] , { } , null ] ,\"\":{\"x\":-0.5E2 ,\"y\": false}}";
    for rest in ["", ",", "]", "}", " 1", "\"", "{"] {
        let mut p = parser(&format!(" \t\r\n{}{}", value, rest));
        p.skip_value().unwrap();
        let mut left = Vec::new();
        while p.has_data() {
            left.push(p.peek());
            p.advance();
        }
        assert_eq!(left, rest.as_bytes());
    }
}

#[test]
fn domain_of_the_features() {
    let mut q = QVec::zero();
    assert_eq!(assert_qvec_domain(&q), Ok(()));
    q.0[5] = -10_000;
    q.0[6] = -10_000;
    q.0[13] = 10_000;
    assert_eq!(assert_qvec_domain(&q), Ok(()));
    q.0[13] = 10_001;
    assert_eq!(assert_qvec_domain(&q), Err(13));
    q.0[7] = -1;
    assert_eq!(assert_qvec_domain(&q), Err(7));
    q.0[5] = -10_001;
    assert_eq!(assert_qvec_domain(&q), Err(5));
}

#[test]
fn ensure_fills_the_buffer() {
    let mut p = parser("abc");
    assert!(p.ensure(2));
    assert_eq!(p.len - p.pos, 3);
    p.advance();
    assert!(p.ensure(10));
    assert_eq!(p.peek(), b'b');
    p.advance();
    p.advance();
    assert!(!p.ensure(1));
    assert!(p.ensure(0));
    assert!(!p.has_data());
    // more than the buffer holds
    let mut p = parser(&"x".repeat(BUF_SIZE + 10));
    assert!(p.ensure(usize::MAX));
    assert_eq!(p.len - p.pos, BUF_SIZE);
}
