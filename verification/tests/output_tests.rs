use csv_transform::PipelineError;
use csv_transform::output::{encode_result, synthesize_names};

fn bv(s: &str) -> Vec<u8> {
    s.as_bytes().to_vec()
}

#[test]
fn empty_result_set_is_a_failure() {
    assert_eq!(encode_result(None, &Vec::new()), Err(PipelineError::NoRows));
}

#[test]
fn synthesized_names_are_one_indexed() {
    assert_eq!(synthesize_names(3), vec![bv("col1"), bv("col2"), bv("col3")]);
}

#[test]
fn reported_names_are_used_verbatim() {
    let rows = vec![vec![bv("1"), bv("2")]];
    let out = encode_result(Some(vec![bv("a"), bv("b")]), &rows).unwrap();
    assert_eq!(out, bv("a,b\n1,2\n"));
}

#[test]
fn missing_names_are_synthesized() {
    let rows = vec![vec![bv("1"), bv("2")], vec![bv("3"), bv("4")]];
    let out = encode_result(None, &rows).unwrap();
    assert_eq!(out, bv("col1,col2\n1,2\n3,4\n"));
}

#[test]
fn value_with_delimiter_is_quoted_in_output() {
    let rows = vec![vec![bv("x,y")]];
    let out = encode_result(Some(vec![bv("a")]), &rows).unwrap();
    assert_eq!(out, bv("a\n\"x,y\"\n"));
}

#[test]
fn ragged_result_set_is_rejected() {
    let rows = vec![vec![bv("1"), bv("2")], vec![bv("3")]];
    assert_eq!(encode_result(None, &rows), Err(PipelineError::MalformedRow));
}

#[test]
fn mismatched_reported_names_are_rejected() {
    let rows = vec![vec![bv("1"), bv("2")]];
    assert_eq!(
        encode_result(Some(vec![bv("a")]), &rows),
        Err(PipelineError::MalformedRow)
    );
}

#[test]
fn error_descriptions_are_stable() {
    assert_eq!(PipelineError::NoRows.describe(), "no records returned for query");
    assert_eq!(PipelineError::EmptySchema.describe(), "source has no header columns");
}
