//! Tests of parsing and projection on single records.

use cutrs::depth::Depth;
use cutrs::bytes::{bytes_eq, split_bytes, strip_line_ends_exec};
use cutrs::project::{process_record, project_record};
use cutrs::record::{field_lookup_exec, parse_record};

fn fields(names: &[&str]) -> Vec<Vec<u8>> {
    names.iter().map(|n| n.as_bytes().to_vec()).collect()
}

#[test]
fn end_to_end_example() {
    let line = b"x=1,y=2,z=3".to_vec();
    let out = project_record(&line, &fields(&["z", "x"]));
    assert_eq!(out, b"z=3,x=1\n".to_vec());
}

#[test]
fn trailing_newline_is_stripped_before_parsing() {
    let line = b"x=1,y=2,z=3\n".to_vec();
    let out = project_record(&line, &fields(&["z", "x"]));
    assert_eq!(out, b"z=3,x=1\n".to_vec());
}

#[test]
fn duplicate_key_last_occurrence_wins() {
    let line = b"a=2,a=3".to_vec();
    let out = project_record(&line, &fields(&["a"]));
    assert_eq!(out, b"a=3\n".to_vec());
}

#[test]
fn malformed_token_is_dropped_alone() {
    let line = b"a=1,orphan,b=2".to_vec();
    let out = project_record(&line, &fields(&["a", "b"]));
    assert_eq!(out, b"a=1,b=2\n".to_vec());
}

#[test]
fn missing_field_is_silently_omitted() {
    let line = b"a=1,c=3".to_vec();
    let out = project_record(&line, &fields(&["a", "b", "c"]));
    assert_eq!(out, b"a=1,c=3\n".to_vec());
}

#[test]
fn empty_name_token_is_dropped_and_never_matches() {
    let line = b"=5,a=1".to_vec();
    let out = project_record(&line, &fields(&["", "a"]));
    assert_eq!(out, b"a=1\n".to_vec());
}

#[test]
fn value_keeps_later_assignment_characters() {
    let line = b"a=1=2".to_vec();
    let out = project_record(&line, &fields(&["a"]));
    assert_eq!(out, b"a=1=2\n".to_vec());
}

#[test]
fn no_selected_field_present_yields_bare_terminator() {
    let line = b"x=1".to_vec();
    let out = project_record(&line, &fields(&["q"]));
    assert_eq!(out, b"\n".to_vec());
}

#[test]
fn projection_is_idempotent_on_its_own_output() {
    let line = b"x=1,y=2,z=3".to_vec();
    let sel = fields(&["z", "x"]);
    let once = project_record(&line, &sel);
    let twice = project_record(&once, &sel);
    assert_eq!(once, twice);
}

#[test]
fn truncated_depths_emit_nothing() {
    let line = b"a=1,b=2".to_vec();
    let sel = fields(&["a"]);
    for stage in 1u32..=5 {
        let depth = Depth::from_stage(stage).unwrap();
        assert!(process_record(&line, &sel, depth).is_none());
    }
}

#[test]
fn full_depth_emits_the_projected_line() {
    let line = b"a=1,b=2".to_vec();
    let out = process_record(&line, &fields(&["b", "a"]), Depth::Written);
    assert_eq!(out, Some(b"b=2,a=1\n".to_vec()));
}

#[test]
fn depth_from_stage_rejects_out_of_range() {
    assert!(Depth::from_stage(0).is_none());
    assert!(Depth::from_stage(7).is_none());
    let d = Depth::from_stage(3).unwrap();
    assert_eq!(d.stage(), 3);
}

#[test]
fn parse_record_splits_at_first_assignment() {
    let line = b"k=v,empty=,x=a=b\n".to_vec();
    let pairs = parse_record(&line);
    assert_eq!(pairs.len(), 3);
    assert_eq!(pairs[0], (b"k".to_vec(), b"v".to_vec()));
    assert_eq!(pairs[1], (b"empty".to_vec(), b"".to_vec()));
    assert_eq!(pairs[2], (b"x".to_vec(), b"a=b".to_vec()));
}

#[test]
fn field_lookup_prefers_the_last_duplicate() {
    let line = b"a=1,b=2,a=3".to_vec();
    let pairs = parse_record(&line);
    let v = field_lookup_exec(&pairs, &b"a".to_vec());
    assert_eq!(v, Some(b"3".to_vec()));
    assert_eq!(field_lookup_exec(&pairs, &b"c".to_vec()), None);
}

#[test]
fn split_bytes_keeps_empty_tokens() {
    let s = b"a,,b".to_vec();
    let tokens = split_bytes(&s, b',');
    assert_eq!(tokens, vec![b"a".to_vec(), b"".to_vec(), b"b".to_vec()]);
    let empty = b"".to_vec();
    assert_eq!(split_bytes(&empty, b','), vec![b"".to_vec()]);
}

#[test]
fn strip_line_ends_removes_every_trailing_terminator() {
    let s = b"a=1\n\n".to_vec();
    assert_eq!(strip_line_ends_exec(&s), b"a=1".to_vec());
    let t = b"a=1".to_vec();
    assert_eq!(strip_line_ends_exec(&t), b"a=1".to_vec());
}

#[test]
fn bytes_eq_compares_contents() {
    assert!(bytes_eq(&b"abc".to_vec(), &b"abc".to_vec()));
    assert!(!bytes_eq(&b"abc".to_vec(), &b"abd".to_vec()));
    assert!(!bytes_eq(&b"abc".to_vec(), &b"ab".to_vec()));
}
