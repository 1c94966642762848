use bytie::command::delete::DeleteCommand;
use bytie::command::Command;
use bytie::range::Range;
use bytie::errors::RunError;

#[test]
fn delete_test_small_blocksize() {
    let input = "HelloWelt!";

    for bs in vec![1, 2, 3, 4, 10] {
        for start in 0..=input.len() {
            for end in start + 1..input.len() {
                let mut exp = String::from(&input[0..start]);
                exp = exp + &input[end + 1..];
                let cmd = DeleteCommand {
                    range: Range::from_str(&format!("{}:={}", start, end)).unwrap(),
                };
                let r = cmd.run(bs, input.as_bytes(), None);
                assert!(r.is_ok(), "Error: {:?}", r.unwrap_err());
                let out = r.unwrap();
                let out = std::str::from_utf8(&out).unwrap();
                assert_eq!(exp, out);
            }
        }
    }
}

#[test]
fn delete_test_big_blocksize() {
    let input = r##"Lorem ipsum dolor sit amet, consectetur adipiscing elit,
            sed do eiusmod tempor incididunt ut labore et dolore magna aliqua.
            Ut enim ad minim veniam, quis nostrud exercitation ullamco laboris
            nisi ut aliquip ex ea commodo consequat. Duis aute irure dolor in
            reprehenderit in voluptate velit esse cillum dolore eu fugiat nulla
            pariatur. Excepteur sint occaecat cupidatat non proident, sunt in
            culpa qui officia deserunt mollit anim id est laborum"##;

    for bs in vec![32, 64, 128, 512, 1024, 2048] {
        for start in 0..=input.len() {
            for end in start + 1..input.len() {
                let mut exp = String::from(&input[0..start]);
                exp = exp + &input[end + 1..];
                let cmd = DeleteCommand {
                    range: Range::from_str(&format!("{}:={}", start, end)).unwrap(),
                };
                let r = cmd.run(bs, input.as_bytes(), None);
                assert!(r.is_ok());
                let out = r.unwrap();
                let out = std::str::from_utf8(&out).unwrap();
                assert_eq!(exp, out);
            }
        }
    }
}

#[test]
fn delete_inclusive_range_scenario() {
    // Deleting `2:=5` from "HelloWelt!" removes "lloW".
    let input = "HelloWelt!";
    let cmd = DeleteCommand {
        range: Range::from_str("2:=5").unwrap(),
    };
    for bs in vec![1, 2, 3, 4, 10] {
        let out = cmd.run(bs, input.as_bytes(), None).unwrap();
        assert_eq!(std::str::from_utf8(&out).unwrap(), "Heelt!");
    }
}

#[test]
fn delete_to_end_of_stream() {
    let cmd = DeleteCommand {
        range: Range::from_str("3").unwrap(),
    };
    for bs in vec![1, 2, 3, 4, 10] {
        let out = cmd.run(bs, b"0123456789", None).unwrap();
        assert_eq!(out, b"012".to_vec());
    }
}

#[test]
fn delete_past_end_copies_everything() {
    let cmd = DeleteCommand {
        range: Range::from_str("100:=200").unwrap(),
    };
    for bs in vec![1, 3, 10] {
        let out = cmd.run(bs, b"abc", None).unwrap();
        assert_eq!(out, b"abc".to_vec());
    }
}

#[test]
fn delete_end_before_begin_is_refused() {
    let cmd = DeleteCommand {
        range: Range {
            begin: 5,
            end: Some(2),
        },
    };
    assert_eq!(cmd.run(4, b"abcdefgh", None), Err(RunError::EndBeforeBegin));
}

#[test]
fn delete_empty_input() {
    let cmd = DeleteCommand {
        range: Range::from_str("0:=3").unwrap(),
    };
    let out = cmd.run(4, b"", None).unwrap();
    assert_eq!(out, b"".to_vec());
}
