use bytie::position::Position;

#[test]
fn position_test_invalid_format() {
    let test_vec = vec![
        "a", "", "+", "o", "1000+", "0:", ":", "-1", "+123", "10:10", "3+0", "0:=", "0:0", "1:1",
        "0:-1",
    ];
    for t in test_vec {
        assert!(Position::from_str(t).is_err());
    }
}

#[test]
fn position_test_only_begin() {
    let r = Position::from_str("0");
    assert!(r.is_ok());
    assert_eq!(
        r.unwrap(),
        Position {
            begin: 0,
            end: None
        }
    );

    let r = Position::from_str("123");
    assert!(r.is_ok());
    assert_eq!(
        r.unwrap(),
        Position {
            begin: 123,
            end: None
        }
    );

    let r = Position::from_str("2kib");
    assert!(r.is_ok());
    assert_eq!(
        r.unwrap(),
        Position {
            begin: 2 * 1024,
            end: None
        }
    );
}

#[test]
fn position_test_count() {
    let test_vec = vec![("0+10", 0, Some(9)), ("0+1", 0, Some(0))];

    for (format, begin, end) in test_vec {
        let r = Position::from_str(format);
        assert!(
            r.is_ok(),
            "Tested: {}, expected begin {} end: {:?}! received err: {:?}",
            format,
            begin,
            end,
            r.unwrap_err()
        );
        assert_eq!(r.unwrap(), Position { begin, end });
    }
}

#[test]
fn position_test_range() {
    let test_vec = vec![
        ("0:10", 0, Some(9)),
        ("0:=10", 0, Some(10)),
        ("512:1024", 512, Some(1023)),
        ("512:=1024", 512, Some(1024)),
        ("3M:=5mib", 3_000_000, Some(5 * 1024 * 1024)),
    ];

    for (format, begin, end) in test_vec {
        let r = Position::from_str(format);
        assert!(
            r.is_ok(),
            "Tested: {}, expected begin {} end: {:?}! received err: {:?}",
            format,
            begin,
            end,
            r.unwrap_err()
        );
        assert_eq!(r.unwrap(), Position { begin, end });
    }
}
