use offset_caption::{
    CaptionBlock, CaptionBlockError, NegativeSimpleTime, SimpleTime, VttParser, VttParserError,
};

fn ms(h: usize, m: usize, s: usize, f: usize) -> usize {
    SimpleTime::from_parts(h, m, s, f).to_milliseconds()
}

#[test]
fn doc_from_parts_getters() {
    let t = SimpleTime::from_parts(1, 2, 3, 4);
    assert_eq!(t.hour(), 1);
    assert_eq!(t.minute(), 2);
    assert_eq!(t.second(), 3);
    assert_eq!(t.millisecond(), 4);
}

#[test]
fn doc_from_milliseconds() {
    let t = SimpleTime::from_milliseconds(47_703_450);
    assert_eq!(t.hour(), 13);
    assert_eq!(t.minute(), 15);
    assert_eq!(t.second(), 3);
    assert_eq!(t.millisecond(), 450);
}

#[test]
fn doc_offset_one_second() {
    let mut t = SimpleTime::from_parts(0, 0, 0, 0);
    t.offset(1000).expect("We should be fine");
    assert_eq!(t.hour(), 0);
    assert_eq!(t.minute(), 0);
    assert_eq!(t.second(), 1);
    assert_eq!(t.millisecond(), 0);
}

#[test]
fn doc_caption_block_from() {
    let block = CaptionBlock::from(
        None,
        SimpleTime::from_milliseconds(0),
        SimpleTime::from_milliseconds(1000),
        String::from("Hello!"),
    )
    .unwrap();
    assert_eq!(block.speaker(), None);
    assert_eq!(block.start().second(), 0);
    assert_eq!(block.end().second(), 1);
    assert_eq!(block.text(), "Hello!");
}

#[test]
fn to_milliseconds_formula() {
    assert_eq!(ms(1, 2, 3, 4), 3_723_004);
    assert_eq!(ms(0, 0, 0, 0), 0);
}

#[test]
fn from_parts_accepts_documented_upper_bounds() {
    let t = SimpleTime::from_parts(0, 60, 60, 999);
    assert_eq!(t.minute(), 60);
    assert_eq!(t.second(), 60);
    assert_eq!(t.millisecond(), 999);
    assert_eq!(t.to_milliseconds(), 3_660_999);
}

#[test]
fn law_milliseconds_round_trip() {
    for m in [0usize, 1, 999, 1000, 59_999, 60_000, 3_599_999, 3_600_000, 86_057_837] {
        assert_eq!(SimpleTime::from_milliseconds(m).to_milliseconds(), m);
    }
}

#[test]
fn law_canonical_round_trip() {
    let t = SimpleTime::from_parts(23, 54, 17, 837);
    let u = SimpleTime::from_milliseconds(t.to_milliseconds());
    assert_eq!((u.hour(), u.minute(), u.second(), u.millisecond()), (23, 54, 17, 837));
}

#[test]
fn non_canonical_time_normalizes() {
    let t = SimpleTime::from_parts(0, 60, 0, 0);
    let u = SimpleTime::from_milliseconds(t.to_milliseconds());
    assert_eq!((u.hour(), u.minute(), u.second(), u.millisecond()), (1, 0, 0, 0));
}

#[test]
fn law_offset_inverse() {
    let mut t = SimpleTime::from_parts(2, 30, 15, 500);
    t.offset(-1_234_567).unwrap();
    t.offset(1_234_567).unwrap();
    assert_eq!((t.hour(), t.minute(), t.second(), t.millisecond()), (2, 30, 15, 500));
}

#[test]
fn law_offset_compose() {
    let mut a = SimpleTime::from_parts(1, 0, 0, 0);
    a.offset(5_000).unwrap();
    a.offset(-70_000).unwrap();
    let mut b = SimpleTime::from_parts(1, 0, 0, 0);
    b.offset(-65_000).unwrap();
    assert_eq!(a.to_milliseconds(), b.to_milliseconds());
    assert_eq!(a.to_milliseconds(), 3_535_000);
}

#[test]
fn offset_negative_leaves_time_unchanged() {
    let mut t = SimpleTime::from_parts(0, 0, 1, 0);
    assert!(t.offset(-1001).is_err());
    assert_eq!(t.to_milliseconds(), 1000);
    assert!(t.offset(-1000).is_ok());
    assert_eq!(t.to_milliseconds(), 0);
}

#[test]
fn offset_wraps_past_usize_max() {
    let mut t = SimpleTime::from_milliseconds(usize::MAX);
    t.offset(1).unwrap();
    assert_eq!(t.to_milliseconds(), 0);
    let mut u = SimpleTime::from_milliseconds(usize::MAX - 1);
    u.offset(5).unwrap();
    assert_eq!(u.to_milliseconds(), 3);
}

#[test]
fn negative_time_message() {
    assert_eq!(NegativeSimpleTime.to_string(), "attempted to create negative SimpleTime");
}

#[test]
fn caption_block_ends_before_start() {
    let r = CaptionBlock::from(
        Some(String::from("Ann")),
        SimpleTime::from_milliseconds(2000),
        SimpleTime::from_milliseconds(1999),
        String::from("x"),
    );
    match r {
        Err(CaptionBlockError::EndsBeforeStart(a, b)) => {
            assert_eq!(a.to_milliseconds(), 2000);
            assert_eq!(b.to_milliseconds(), 1999);
        },
        Ok(_) => panic!("accepted a block that ends before it starts"),
    }
    let ok = CaptionBlock::from(
        Some(String::from("Ann")),
        SimpleTime::from_milliseconds(2000),
        SimpleTime::from_milliseconds(2000),
        String::from("x"),
    )
    .unwrap();
    assert_eq!(ok.speaker(), Some(String::from("Ann")));
}

#[test]
fn block_number_forms() {
    assert_eq!(VttParser::block_number("+5").unwrap(), 5);
    assert_eq!(VttParser::block_number("007").unwrap(), 7);
    assert!(VttParser::block_number("").is_err());
    assert!(VttParser::block_number("+").is_err());
    assert!(VttParser::block_number("-1").is_err());
    assert!(VttParser::block_number(" 1").is_err());
    let too_big = format!("{}0", usize::MAX);
    match VttParser::block_number(&too_big) {
        Err(VttParserError::ExpectedBlockNumber(s)) => assert_eq!(s, too_big),
        other => panic!("unexpected {:?}", other),
    }
    assert_eq!(VttParser::block_number(&format!("{}", usize::MAX)).unwrap(), usize::MAX);
}

#[test]
fn timestamp_fields() {
    let t = VttParser::block_timestamp("01:02:03.004").unwrap();
    assert_eq!((t.hour(), t.minute(), t.second(), t.millisecond()), (1, 2, 3, 4));
    let t = VttParser::block_timestamp("99:60:60.999").unwrap();
    assert_eq!((t.hour(), t.minute(), t.second(), t.millisecond()), (99, 60, 60, 999));
}

#[test]
fn timestamp_second_colon_is_checked() {
    assert_eq!(invalid_timestamp("01:02x03.004"), "01:02x03.004");
    assert_eq!(invalid_timestamp("00:00-00.000"), "00:00-00.000");
}

#[test]
fn timestamp_fields_are_digits_only() {
    assert_eq!(invalid_timestamp("+1:00:00.000"), "+1:00:00.000");
    assert_eq!(invalid_timestamp("00:+1:00.000"), "00:+1:00.000");
    assert_eq!(invalid_timestamp("00:00:+1.000"), "00:00:+1.000");
    assert_eq!(invalid_timestamp("00:00:00.+12"), "00:00:00.+12");
}

fn invalid_timestamp(s: &str) -> String {
    match VttParser::block_timestamp(s) {
        Err(VttParserError::InvalidTimestamp(w)) => w,
        other => panic!("{} gave {:?}", s, other),
    }
}

#[test]
fn timestamp_errors() {
    assert_eq!(invalid_timestamp("1:02:03.004"), "1:02:03.004");
    assert_eq!(invalid_timestamp("01-02:03.004"), "01-02:03.004");
    assert_eq!(invalid_timestamp("01:02:03,004"), "01:02:03,004");
    assert_eq!(invalid_timestamp("0a:02:03.004"), "0a:02:03.004");
    assert_eq!(invalid_timestamp("01:02:03.0a4"), "01:02:03.0a4");
    assert_eq!(invalid_timestamp("é:02:03.004"), "é:02:03.004");
    assert_eq!(invalid_timestamp("01:02:03.é4"), "01:02:03.é4");
}

#[test]
fn header_errors() {
    assert!(matches!(VttParser::block_header(""), Err(VttParserError::UnexpectedEndOfFile)));
    match VttParser::block_header("Narrator") {
        Err(VttParserError::BlockHeaderInvalid(s)) => assert_eq!(s, "Narrator"),
        other => panic!("{:?}", other),
    }
    match VttParser::block_header("Ann-00:00:00.000 --> 00:00:01.000") {
        Err(VttParserError::BlockHeaderInvalid(s)) => {
            assert_eq!(s, "Ann-00:00:00.000 --> 00:00:01.000")
        },
        other => panic!("{:?}", other),
    }
    match VttParser::block_header("00:00:00.000 -> 00:00:01.000") {
        Err(VttParserError::InvalidTimestamp(s)) => assert_eq!(s, "00:00:00.000 -> 00:00:01.000"),
        other => panic!("{:?}", other),
    }
    match VttParser::block_header("Ann 00:00:00.000  --> 00:00:01.000") {
        Err(VttParserError::InvalidTimestamp(s)) => {
            assert_eq!(s, "00:00:00.000  --> 00:00:01.000")
        },
        other => panic!("{:?}", other),
    }
    match VttParser::block_header("00:00:00.000 --> 00:00:01.0") {
        Err(VttParserError::InvalidTimestamp(s)) => assert_eq!(s, "00:00:01.0"),
        other => panic!("{:?}", other),
    }
}

#[test]
fn header_timestamps_only() {
    let (a, b) = VttParser::block_header_timestamps("00:01:00.000 --> 00:02:00.500").unwrap();
    assert_eq!(a.to_milliseconds(), 60_000);
    assert_eq!(b.to_milliseconds(), 120_500);
}

#[test]
fn header_numeric_non_ascii_start_has_no_speaker() {
    // '½' is numeric, so the whole line is taken as timestamps.
    match VttParser::block_header("½ 00:00:00.000 --> 00:00:01.000") {
        Err(VttParserError::InvalidTimestamp(s)) => {
            assert_eq!(s, "½ 00:00:00.000 --> 00:00:01.000")
        },
        other => panic!("{:?}", other),
    }
    // A non-numeric non-ASCII letter is part of the speaker.
    match VttParser::block_header("Zoë 00:00:00.000 --> 00:00:01.000") {
        Ok((Some(s), _, _)) => assert_eq!(s, "Zoë"),
        other => panic!("{:?}", other),
    }
}

#[test]
fn block_with_speaker_and_crlf() {
    let b = VttParser::block("\r\n7\r\nAnn Lee 00:00:01.000 --> 00:00:02.250\r\nHello there\r\n")
        .unwrap();
    assert_eq!(b.speaker(), Some(String::from("Ann Lee")));
    assert_eq!(b.start().to_milliseconds(), 1000);
    assert_eq!(b.end().to_milliseconds(), 2250);
    assert_eq!(b.text(), "Hello there");
}

#[test]
fn block_without_final_newline() {
    let b = VttParser::block("\n1\n00:00:00.000 --> 00:00:01.000\nlast").unwrap();
    assert_eq!(b.text(), "last");
}

#[test]
fn block_errors() {
    match VttParser::block("x\n1\n00:00:00.000 --> 00:00:01.000\nt\n") {
        Err(VttParserError::ExpectedBlankLine(s)) => assert_eq!(s, "x"),
        other => panic!("{:?}", other.map(|b| b.text())),
    }
    match VttParser::block("\none\n00:00:00.000 --> 00:00:01.000\nt\n") {
        Err(VttParserError::ExpectedBlockNumber(s)) => assert_eq!(s, "one"),
        other => panic!("{:?}", other.map(|b| b.text())),
    }
    match VttParser::block("\n1\nnothing here\nt\n") {
        Err(VttParserError::BlockHeaderInvalid(s)) => assert_eq!(s, "nothing here"),
        other => panic!("{:?}", other.map(|b| b.text())),
    }
    assert!(matches!(
        VttParser::block("\n1\n00:00:00.000 --> 00:00:01.000\nt\nextra\n"),
        Err(VttParserError::UnexpectedEndOfFile)
    ));
    assert!(matches!(VttParser::block(""), Err(VttParserError::UnexpectedEndOfFile)));
}

#[test]
fn try_block_reports_where_block_would_panic() {
    assert!(VttParser::try_block("\n1\n00:61:00.000 --> 00:00:01.000\nx\n").is_none());
    assert!(VttParser::try_block("\n1\n0é:00:00.00 --> 00:00:01.000\nx\n").is_none());
    match VttParser::try_block("\n1\n00:00é0.000 --> 00:00:01.000\nx\n") {
        Some(Err(VttParserError::InvalidTimestamp(w))) => assert_eq!(w, "00:00é0.000"),
        _ => panic!("expected an invalid timestamp"),
    }
    match VttParser::try_block("\n1\n00:00:00.000 --> 00:00:01.000\nx\n") {
        Some(Ok(b)) => assert_eq!(b.end().to_milliseconds(), 1000),
        _ => panic!("expected a block"),
    }
    match VttParser::try_block("x\n") {
        Some(Err(VttParserError::UnexpectedEndOfFile)) => {},
        _ => panic!("expected an error"),
    }
}

#[test]
fn error_messages() {
    assert_eq!(VttParserError::UnexpectedEndOfFile.to_string(), "unexpected end of file");
    assert_eq!(
        VttParserError::ExpectedBlankLine(String::from("x")).to_string(),
        "expected blank line, got x"
    );
    assert_eq!(
        VttParserError::ExpectedBlockNumber(String::from("a")).to_string(),
        "expected VTT block number, got a"
    );
    assert_eq!(
        VttParserError::BlockHeaderInvalid(String::from("h")).to_string(),
        "invalid VTT block from line h"
    );
    assert_eq!(
        VttParserError::InvalidTimestamp(String::from("w")).to_string(),
        "invalid VTT block from word w"
    );
}

#[test]
fn unterminated_last_line_keeps_carriage_return() {
    let b = VttParser::block("\n1\n00:00:00.000 --> 00:00:01.000\nlast\r").unwrap();
    assert_eq!(b.text(), "last\r");
}

#[test]
fn law_block_number_of_decimal_text() {
    for n in [0usize, 1, 9, 10, 99, 100, 12345, usize::MAX - 1, usize::MAX] {
        assert_eq!(VttParser::block_number(&n.to_string()).unwrap(), n);
    }
}

#[test]
fn try_readers_for_any_text() {
    assert!(VttParser::try_block_timestamp("0é:00:00.00").is_none());
    assert!(VttParser::try_block_timestamp("00:61:00.000").is_none());
    match VttParser::try_block_timestamp("00:00:01.500") {
        Some(Ok(t)) => assert_eq!(t.to_milliseconds(), 1500),
        _ => panic!("expected a time"),
    }
    assert!(VttParser::try_block_header_timestamps("00:00:00.000 --> 00:99:00.000").is_none());
    match VttParser::try_block_header_timestamps("00:00:00.000 --> 00:00:02.000") {
        Some(Ok((a, b))) => assert_eq!((a.to_milliseconds(), b.to_milliseconds()), (0, 2000)),
        _ => panic!("expected two times"),
    }
    assert!(VttParser::try_block_header("Ann 00:61:00.000 --> 00:00:02.000").is_none());
    match VttParser::try_block_header("Ann 00:00:00.000 --> 00:00:02.000") {
        Some(Ok((Some(s), _, b))) => {
            assert_eq!(s, "Ann");
            assert_eq!(b.to_milliseconds(), 2000);
        },
        _ => panic!("expected a header"),
    }
    match VttParser::try_block_header("Ann") {
        Some(Err(VttParserError::BlockHeaderInvalid(s))) => assert_eq!(s, "Ann"),
        _ => panic!("expected an invalid header"),
    }
}
