use bytie::command::cut::CutCommand;
use bytie::command::delete::DeleteCommand;
use bytie::command::replace::ReplaceCommand;
use bytie::command::Command;
use bytie::range::Range;
use bytie::command::add::{AddCommand, InsertStream};
use bytie::command::cut::CutStream;
use bytie::command::delete::DeleteStream;
use bytie::command::replace::ReplaceStream;
use bytie::command::Commands;

/// Delete and cut over the same range are complementary: splicing cut's
/// output back between delete's two flanks, at the original begin offset,
/// reproduces the input — for every tested blocksize and range.
#[test]
fn delete_cut_complementary() {
    let input: Vec<u8> = (0u8..=255).cycle().take(700).collect();
    let ranges = vec![
        "0+1", "0:=5", "0:10", "3+1", "3:=699", "3:=800", "10+20", "100:200", "650:=720", "0",
        "5", "699", "700", "800",
    ];
    for bs in vec![1, 2, 3, 4, 10, 32, 1024] {
        for expr in &ranges {
            let range = Range::from_str(expr).unwrap();
            let deleted = DeleteCommand { range }
                .run(bs, input.as_slice(), None)
                .unwrap();
            let cut = CutCommand { range }
                .run(bs, input.as_slice(), None)
                .unwrap();
            let lo = std::cmp::min(range.begin as usize, input.len());
            let mut spliced = deleted[..lo].to_vec();
            spliced.extend_from_slice(&cut);
            spliced.extend_from_slice(&deleted[lo..]);
            assert_eq!(spliced, input, "bs: {}, range: {}", bs, expr);
        }
    }
}

/// Replace is delete-then-insert when the lengths align: replacing at a
/// position, deleting the same-length range there, and re-inserting the
/// bytes the replace had overwritten reproduces the original input.
#[test]
fn replace_delete_insert_round_trip() {
    let input = b"the quick brown fox jumps over the lazy dog".to_vec();
    for bs in vec![1, 3, 7, 1024] {
        for (begin, payload) in vec![(0usize, "AB"), (4, "XYZ"), (10, "q"), (38, "MNOP")] {
            let replaced = ReplaceCommand {
                begin: Some(begin as u64),
                value: Some(payload.as_bytes().to_vec()),
            }
            .run(bs, input.as_slice(), None)
            .unwrap();

            let deleted = DeleteCommand {
                range: Range {
                    begin: begin as u64,
                    end: Some((begin + payload.len() - 1) as u64),
                },
            }
            .run(bs, replaced.as_slice(), None)
            .unwrap();

            let overwritten = input[begin..begin + payload.len()].to_vec();
            let restored = AddCommand {
                begin: Some(begin as u64),
                value: Some(overwritten),
            }
            .run(bs, deleted.as_slice(), None)
            .unwrap();

            assert_eq!(restored, input, "bs: {}, begin: {}", bs, begin);
        }
    }
}

/// A target offset that falls exactly on the last byte of a chunk must be
/// handled without losing or duplicating a byte, for every blocksize.
#[test]
fn block_boundary_targets() {
    let input = b"0123456789ABCDEF".to_vec();
    for bs in vec![1, 2, 3, 4, 8, 16, 32] {
        for target in 0..input.len() {
            // Delete exactly the one byte at `target`.
            let range = Range {
                begin: target as u64,
                end: Some(target as u64),
            };
            let out = DeleteCommand { range }
                .run(bs, input.as_slice(), None)
                .unwrap();
            let mut exp = input[..target].to_vec();
            exp.extend_from_slice(&input[target + 1..]);
            assert_eq!(out, exp, "delete bs: {}, target: {}", bs, target);

            // Cut exactly the one byte at `target`.
            let out = CutCommand { range }
                .run(bs, input.as_slice(), None)
                .unwrap();
            assert_eq!(out, vec![input[target]], "cut bs: {}, target: {}", bs, target);
        }
    }
}

/// The four streaming machines can be driven block by block, as a caller
/// with a real source would; the concatenated emissions equal what `run`
/// returns in one piece.
#[test]
fn streams_fed_block_by_block() {

    let input = b"HelloWelt!".to_vec();

    let mut stream = DeleteStream::new(2, Some(5));
    let mut out: Vec<u8> = Vec::new();
    for chunk in input.chunks(3) {
        if stream.is_done() {
            break;
        }
        out.extend_from_slice(&stream.feed(chunk));
    }
    assert_eq!(std::str::from_utf8(&out).unwrap(), "Heelt!");

    let mut stream = CutStream::new(2, Some(5));
    let mut out: Vec<u8> = Vec::new();
    for chunk in input.chunks(3) {
        if stream.is_done() {
            break;
        }
        out.extend_from_slice(&stream.feed(chunk));
    }
    assert_eq!(std::str::from_utf8(&out).unwrap(), "lloW");

    let mut stream = InsertStream::new(5, b"_!_".to_vec());
    let mut out: Vec<u8> = Vec::new();
    for chunk in input.chunks(4) {
        out.extend_from_slice(&stream.feed(chunk));
    }
    out.extend_from_slice(&stream.finish());
    assert_eq!(std::str::from_utf8(&out).unwrap(), "Hello_!_Welt!");

    let mut stream = ReplaceStream::new(5, b"####".to_vec());
    let mut out: Vec<u8> = Vec::new();
    for chunk in input.chunks(4) {
        out.extend_from_slice(&stream.feed(chunk));
    }
    out.extend_from_slice(&stream.finish());
    assert_eq!(std::str::from_utf8(&out).unwrap(), "Hello####!");
}

/// The dispatching enum runs whichever command it holds.
#[test]
fn commands_dispatch() {
    let cmd = Commands::Delete(DeleteCommand {
        range: Range::from_str("1:=2").unwrap(),
    });
    let out = cmd.run(2, b"abcd", None).unwrap();
    assert_eq!(out, b"ad".to_vec());

    let cmd = Commands::Cut(CutCommand {
        range: Range::from_str("1:=2").unwrap(),
    });
    let out = cmd.run(2, b"abcd", None).unwrap();
    assert_eq!(out, b"bc".to_vec());
}
