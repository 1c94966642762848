use bytie::command::replace::ReplaceCommand;
use bytie::command::Command;
use rand::{thread_rng, Rng};
use bytie::errors::RunError;

#[test]
fn replace_test_small_blocksize() {
    let mut cmd = ReplaceCommand {
        begin: Some(0),
        value: None,
    };

    for bs in vec![1, 2, 3, 4, 10] {
        let mut rng = thread_rng();
        let len: usize = rng.gen_range(0, 30);
        let input: Vec<u8> = rng
            .sample_iter(rand::distributions::Standard)
            .take(len)
            .collect();

        for start in 0..=input.len() {
            let len: usize = rng.gen_range(0, 40);
            let text_to_replace: Vec<u8> = rng
                .sample_iter(rand::distributions::Standard)
                .take(len)
                .collect();

            let mut exp = input[0..start].to_vec();
            exp.extend_from_slice(&text_to_replace);
            if input.len() > (start + len) {
                exp.extend_from_slice(&input[start + len..]);
            }
            cmd.begin = Some(start as u64);
            cmd.value = Some(text_to_replace);
            let out = cmd.run(bs, input.as_slice(), None);
            assert!(out.is_ok());
            assert_eq!(exp, out.unwrap());
        }
    }
}

#[test]
fn replace_test_big_blocksize() {
    let mut cmd = ReplaceCommand {
        begin: Some(0),
        value: None,
    };

    for bs in vec![32, 64, 128, 512, 1024, 2048] {
        let mut rng = thread_rng();
        let len: usize = rng.gen_range(0, 10000);
        let input: Vec<u8> = rng
            .sample_iter(rand::distributions::Standard)
            .take(len)
            .collect();

        for start in 0..=input.len() {
            let len: usize = rng.gen_range(0, 2 * bs);
            let text_to_replace: Vec<u8> = rng
                .sample_iter(rand::distributions::Standard)
                .take(len)
                .collect();

            let mut exp = input[0..start].to_vec();
            exp.extend_from_slice(&text_to_replace);
            if input.len() > (start + len) {
                exp.extend_from_slice(&input[start + len..]);
            }
            cmd.begin = Some(start as u64);
            cmd.value = Some(text_to_replace);
            let out = cmd.run(bs, input.as_slice(), None);
            assert!(out.is_ok());
            assert_eq!(
                exp,
                out.unwrap(),
                "in.len: {}, replace.len: {}, start: {}",
                input.len(),
                len,
                start
            );
        }
    }
}

#[test]
fn replace_at_position_scenario() {
    // Replacing at position 3 of "0123456789" with "XY" overwrites two
    // bytes in place.
    let cmd = ReplaceCommand {
        begin: Some(3),
        value: Some(b"XY".to_vec()),
    };
    for bs in vec![1, 2, 3, 4, 10, 32, 1024] {
        let out = cmd.run(bs, b"0123456789", None).unwrap();
        assert_eq!(std::str::from_utf8(&out).unwrap(), "012XY56789");
    }
}

#[test]
fn replace_missing_payload_is_refused() {
    let cmd = ReplaceCommand {
        begin: Some(0),
        value: None,
    };
    assert_eq!(cmd.run(4, b"abc", None), Err(RunError::MissingPayload));
}

#[test]
fn replace_longer_than_rest_of_input() {
    let cmd = ReplaceCommand {
        begin: Some(2),
        value: Some(b"WXYZ".to_vec()),
    };
    for bs in vec![1, 2, 3, 10] {
        let out = cmd.run(bs, b"abc", None).unwrap();
        assert_eq!(out, b"abWXYZ".to_vec());
    }
}

#[test]
fn replace_past_end_appends() {
    let cmd = ReplaceCommand {
        begin: Some(100),
        value: Some(b"XY".to_vec()),
    };
    for bs in vec![1, 2, 3, 10] {
        let out = cmd.run(bs, b"abc", None).unwrap();
        assert_eq!(out, b"abcXY".to_vec());
    }
}

#[test]
fn replace_prefers_secondary_source_over_value() {
    let cmd = ReplaceCommand {
        begin: Some(0),
        value: Some(vec![9]),
    };
    let payload: Vec<u8> = vec![7, 8];
    let out = cmd.run(2, &[0, 1, 2], Some(payload.as_slice())).unwrap();
    assert_eq!(out, vec![7, 8, 2]);
}
