use bytie::errors::ParseError;
use bytie::range::Range;

#[test]
fn range_test_invalid_format() {
    let test_vec = vec![
        "a", "", "+", "o", "1000+", "0:", ":", "-1", "+123", "10:10", "3+0", "0:=", "0:0", "1:1",
        "0:-1",
    ];
    for t in test_vec {
        assert!(Range::from_str(t).is_err());
    }
}

#[test]
fn range_test_only_begin() {
    let r = Range::from_str("0");
    assert!(r.is_ok());
    assert_eq!(
        r.unwrap(),
        Range {
            begin: 0,
            end: None
        }
    );

    let r = Range::from_str("123");
    assert!(r.is_ok());
    assert_eq!(
        r.unwrap(),
        Range {
            begin: 123,
            end: None
        }
    );

    let r = Range::from_str("2kib");
    assert!(r.is_ok());
    assert_eq!(
        r.unwrap(),
        Range {
            begin: 2 * 1024,
            end: None,
        }
    );
}

#[test]
fn range_test_count() {
    let test_vec = vec![("0+10", 0, Some(9)), ("0+1", 0, Some(0))];

    for (format, begin, end) in test_vec {
        let r = Range::from_str(format);
        assert!(
            r.is_ok(),
            "Tested: {}, expected begin {} end: {:?}! received err: {:?}",
            format,
            begin,
            end,
            r.unwrap_err()
        );
        assert_eq!(r.unwrap(), Range { begin, end });
    }
}

#[test]
fn range_test_range() {
    let test_vec = vec![
        ("0:10", 0, Some(9)),
        ("0:=10", 0, Some(10)),
        ("512:1024", 512, Some(1023)),
        ("512:=1024", 512, Some(1024)),
    ];

    for (format, begin, end) in test_vec {
        let r = Range::from_str(format);
        assert!(
            r.is_ok(),
            "Tested: {}, expected begin {} end: {:?}! received err: {:?}",
            format,
            begin,
            end,
            r.unwrap_err()
        );
        assert_eq!(r.unwrap(), Range { begin, end });
    }
}

#[test]
fn range_inclusive_count_form() {
    // `begin+=count` is the inclusive count: the region closes one byte
    // later than `begin+count` does.
    assert_eq!(
        Range::from_str("0+=1"),
        Ok(Range {
            begin: 0,
            end: Some(1)
        })
    );
    assert_eq!(
        Range::from_str("5+=8"),
        Ok(Range {
            begin: 5,
            end: Some(13)
        })
    );
    assert_eq!(Range::from_str("3+=0"), Err(ParseError::CountZero));
}

#[test]
fn range_error_kinds() {
    assert_eq!(Range::from_str("3+0"), Err(ParseError::CountZero));
    assert_eq!(Range::from_str("10:10"), Err(ParseError::EndNotAfterBegin));
    assert_eq!(Range::from_str("10:9"), Err(ParseError::EndNotAfterBegin));
    assert_eq!(Range::from_str("zz"), Err(ParseError::Malformed));
    assert_eq!(
        Range::from_str("18446744073709551615+2"),
        Err(ParseError::Overflow)
    );
    assert_eq!(
        Range::from_str("18446744073709551615+=1"),
        Err(ParseError::Overflow)
    );
}

#[test]
fn range_colon_forms_round_trip() {
    // The `:`-form and the `:=`-form resolve to the same inclusive end.
    let exclusive = Range::from_str("0:10").unwrap();
    let inclusive = Range::from_str("0:=9").unwrap();
    assert_eq!(exclusive, inclusive);
    assert_eq!(exclusive.end, Some(9));

    let exclusive = Range::from_str("512:1024").unwrap();
    let inclusive = Range::from_str("512:=1023").unwrap();
    assert_eq!(exclusive, inclusive);
}

#[test]
fn range_hex_tokens() {
    assert_eq!(
        Range::from_str("0x10:0x20"),
        Ok(Range {
            begin: 16,
            end: Some(31)
        })
    );
}
