use bytie::command::{CommandRunner, ExecPlan, SinkSel, SourceSel};
use bytie::errors::RunError;

fn runner(in_file: Option<&str>, out_file: Option<&str>, in_place: bool) -> CommandRunner {
    CommandRunner {
        blocksize: 1024,
        in_place,
        out_file: out_file.map(|s| s.to_string()),
        in_file: in_file.map(|s| s.to_string()),
    }
}

#[test]
fn plan_file_to_stdout() {
    let plan = runner(Some("in.bin"), None, false).plan(false).unwrap();
    assert_eq!(
        plan,
        ExecPlan {
            source: SourceSel::File("in.bin".to_string()),
            payload_from_stdin: false,
            sink: SinkSel::StandardOut,
        }
    );
}

#[test]
fn plan_file_with_stdin_payload() {
    let plan = runner(Some("in.bin"), None, false).plan(true).unwrap();
    assert!(plan.payload_from_stdin);
    assert_eq!(plan.source, SourceSel::File("in.bin".to_string()));
}

#[test]
fn plan_explicit_output_wins_over_in_place() {
    let plan = runner(Some("in.bin"), Some("out.bin"), true).plan(false).unwrap();
    assert_eq!(plan.sink, SinkSel::File("out.bin".to_string()));
}

#[test]
fn plan_in_place_uses_temporary_sink() {
    let plan = runner(Some("in.bin"), None, true).plan(false).unwrap();
    assert_eq!(plan.sink, SinkSel::InPlace("in.bin".to_string()));
}

#[test]
fn plan_stdin_source() {
    let plan = runner(None, None, false).plan(true).unwrap();
    assert_eq!(
        plan,
        ExecPlan {
            source: SourceSel::StandardIn,
            payload_from_stdin: false,
            sink: SinkSel::StandardOut,
        }
    );
}

#[test]
fn plan_no_source_is_refused() {
    assert_eq!(runner(None, None, false).plan(false), Err(RunError::NoSource));
    assert_eq!(runner(None, Some("out.bin"), false).plan(false), Err(RunError::NoSource));
}

#[test]
fn plan_in_place_without_file_is_refused() {
    assert_eq!(runner(None, None, true).plan(true), Err(RunError::InPlaceNeedsFile));
}
