//! Tests of the three-stage pipeline model: schedules, capacities, ordering,
//! and the error slot.

use cutrs::depth::Depth;
use cutrs::errors::{all_succeeded, ErrorSlot};
use cutrs::pipeline::{run_pipeline, Pipeline, Stage};
use cutrs::stream::project_stream;

fn fields(names: &[&str]) -> Vec<Vec<u8>> {
    names.iter().map(|n| n.as_bytes().to_vec()).collect()
}

fn lines(records: &[&str]) -> Vec<Vec<u8>> {
    records.iter().map(|r| r.as_bytes().to_vec()).collect()
}

#[test]
fn pipeline_matches_the_sequential_reference() {
    let input = lines(&["x=1,y=2,z=3", "y=9", "z=7,x=0", "orphan,x=5"]);
    let sel = fields(&["z", "x"]);
    let piped = run_pipeline(input.clone(), sel.clone(), Depth::Written, 64);
    let reference = project_stream(&input, &sel, Depth::Written);
    assert_eq!(piped, reference);
    assert_eq!(
        piped,
        vec![
            b"z=3,x=1\n".to_vec(),
            b"\n".to_vec(),
            b"z=7,x=0\n".to_vec(),
            b"x=5\n".to_vec(),
        ]
    );
}

#[test]
fn capacity_one_gives_identical_output() {
    let input = lines(&["a=1,b=2", "b=3", "a=4,c=5", "c=6,a=7,b=8", "a=2,a=3"]);
    let sel = fields(&["a", "b"]);
    let tight = run_pipeline(input.clone(), sel.clone(), Depth::Written, 1);
    let roomy = run_pipeline(input, sel, Depth::Written, 64);
    assert_eq!(tight, roomy);
}

#[test]
fn truncated_pipeline_emits_nothing() {
    let input = lines(&["a=1", "a=2", "a=3"]);
    let sel = fields(&["a"]);
    for stage in 1u32..=5 {
        let depth = Depth::from_stage(stage).unwrap();
        let out = run_pipeline(input.clone(), sel.clone(), depth, 64);
        assert!(out.is_empty());
    }
}

#[test]
fn output_order_is_input_order_under_a_hostile_schedule() {
    let input = lines(&["n=1", "n=2", "n=3", "n=4", "n=5"]);
    let sel = fields(&["n"]);
    let mut p = Pipeline::new(input, sel, Depth::Written, 1);
    // Drive the stages backwards, one step each, so every queue runs full and
    // empty repeatedly; the output must still come out in input order.
    while !p.is_finished() {
        p.step(Stage::Sink);
        p.step(Stage::Projector);
        p.step(Stage::Source);
    }
    let out = p.into_output();
    assert_eq!(
        out,
        vec![
            b"n=1\n".to_vec(),
            b"n=2\n".to_vec(),
            b"n=3\n".to_vec(),
            b"n=4\n".to_vec(),
            b"n=5\n".to_vec(),
        ]
    );
}

#[test]
fn blocked_stages_report_no_progress() {
    let input = lines(&["a=1"]);
    let sel = fields(&["a"]);
    let mut p = Pipeline::new(input, sel, Depth::Written, 1);
    // Nothing is queued yet: the projector and the sink are blocked.
    assert!(!p.step(Stage::Projector));
    assert!(!p.step(Stage::Sink));
    // The source reads the one record; the queue (capacity 1) is now full,
    // so the source is blocked until the projector drains it.
    assert!(p.step(Stage::Source));
    assert!(!p.step(Stage::Source));
    assert!(p.step(Stage::Projector));
    // With the queue drained the source sees end of input and signals it;
    // projector and sink then drain and finish in turn.
    assert!(p.step(Stage::Source));
    assert!(p.step(Stage::Projector));
    assert!(p.step(Stage::Sink));
    assert!(p.step(Stage::Sink));
    assert!(p.is_finished());
    assert_eq!(p.into_output(), vec![b"a=1\n".to_vec()]);
}

#[test]
fn pipeline_on_its_own_output_is_byte_identical() {
    let input = lines(&["x=1,y=2,z=3", "orphan,z=9", "y=0"]);
    let sel = fields(&["z", "x"]);
    let once = run_pipeline(input, sel.clone(), Depth::Written, 64);
    let twice = run_pipeline(once.clone(), sel, Depth::Written, 64);
    assert_eq!(once, twice);
}

#[test]
fn error_slot_keeps_the_first_failure() {
    let mut slot = ErrorSlot::new();
    assert!(!slot.failed());
    slot.report(String::from("read failed"));
    slot.report(String::from("write failed"));
    assert!(slot.failed());
    assert_eq!(slot.into_first_failure(), Some(String::from("read failed")));
}

#[test]
fn all_succeeded_is_the_conjunction() {
    assert!(all_succeeded(&vec![]));
    assert!(all_succeeded(&vec![true, true]));
    assert!(!all_succeeded(&vec![true, false, true]));
}
