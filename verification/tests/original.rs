use offset_caption::{SimpleTime, VttParser, VttParserError};

#[test]
fn test_to_from_millis_works() {
    let st = SimpleTime::from_parts(23, 54, 17, 837);
    assert_eq!(st.to_milliseconds(), 86057837);
    let st2 = SimpleTime::from_milliseconds(86897);
    assert_eq!(st2.to_milliseconds(), 86897);
}

#[test]
fn test_offset() {
    let mills: isize = 123456;
    let mut st = SimpleTime::from_parts(0, 0, 0, 0);
    st.offset(mills).expect("Failed offset");
    assert_eq!(st.to_milliseconds(), 123456);
}

#[test]
fn test_offset_negative_time() {
    let mills: isize = -123;
    let mut st = SimpleTime::from_milliseconds(0);
    let r = st.offset(mills);
    match r {
        Ok(()) => panic!("Test failure; was okay going negative"),
        Err(_) => assert_eq!(0, 0),
    };
}

#[test]
fn test_parse_block_no() {
    let n = VttParser::block_number("1").expect("");
    assert_eq!(n, 1);

    let n = VttParser::block_number("a");
    match n {
        Ok(_) => panic!("Test failure! VttParser parses 'a'"),
        Err(e) => {
            match e {
                VttParserError::UnexpectedEndOfFile => {
                    panic!("Test failure! VttParser wrong err");
                },
                VttParserError::ExpectedBlockNumber(s) => {
                    assert_eq!(s, "a");
                },
                _ => panic!("Unknown test failure"),
            };
        },
    };
}

#[test]
fn test_parse_block_header_no_name() {
    // Test with no speaker listed
    let test_str_1 = "00:00:00.000 --> 00:00:01.001";
    let r = VttParser::block_header(test_str_1);
    match r {
        Ok((None, start, end)) => {
            assert_eq!(start.to_milliseconds(), 0);
            assert_eq!(end.to_milliseconds(), 1001);
        },
        _ => panic!("Test failed"),
    }
}

#[test]
fn test_parse_block_header_with_name() {
    // Test with speaker listed
    let test_str_2 = "Pete Molfese 00:00:00.000 --> 00:00:01.001";
    let r = VttParser::block_header(test_str_2);
    match r {
        Ok((Some(s), start, end)) => {
            assert_eq!(s, "Pete Molfese");
            assert_eq!(start.to_milliseconds(), 0);
            assert_eq!(end.to_milliseconds(), 1001);
        },
        Ok((None, _start, _end)) => {
            panic!("Did not parse out any names");
        },
        Err(e) => {
            panic!("Test failed with error {:?}", e);
        },
    }
}

#[test]
fn test_parse_block_header_missing_start() {
    // Test that we fail for no block start
    let test_str_3 = "--> 00:00:01.001";
    let r = VttParser::block_header(test_str_3);
    match r {
        Ok((name, start, end)) => {
            panic!("Parsed {:?}, {:?}, {:?} when should have failed", name, start, end);
        },
        Err(e) => {
            match e {
                VttParserError::InvalidTimestamp(_s) => {},
                _ => panic!("Test failed in unexpected way"),
            };
        },
    };
}

#[test]
fn test_parse_block_text() {
    // Test to make sure we parse a line of text
    let test_str = "The quick brown fox jumps over the lazy dog.";
    let text = VttParser::block_text(test_str);
    assert_eq!(text, test_str.to_string());
}

#[test]
fn test_parse_block() {
    // Test to make sure we parse an entire block
    let start = "00:00:00.000";
    let end = "00:00:01.000";
    let text = "The quick brown fox jumps over the lazy dog";
    let test_input = format!("\n{}\n{} --> {}\n{}\n", 1, start, end, text);
    let cb = VttParser::block(&test_input).expect("Failed test");
    assert_eq!(cb.start().to_milliseconds(), 0);
    assert_eq!(cb.end().to_milliseconds(), 1000);
    assert_eq!(cb.speaker(), None);
    assert_eq!(cb.text(), text);
}

#[test]
fn test_parse_block_fails_insufficient_lines() {
    // Test to make sure we fail for no blank
    let x = VttParser::block("thing\n");
    match x {
        Err(VttParserError::UnexpectedEndOfFile) => {},
        _ => panic!("Didn't get unexpected EOF {:?}", x),
    };
}
