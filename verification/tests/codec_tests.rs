use csv_transform::PipelineError;
use csv_transform::decode::parse_csv;
use csv_transform::encode::{encode_field, encode_record, encode_rows};

fn bv(s: &str) -> Vec<u8> {
    s.as_bytes().to_vec()
}

#[test]
fn plain_field_passes_through() {
    assert_eq!(encode_field(&bv("abc")), bv("abc"));
    assert_eq!(encode_field(&bv("")), bv(""));
}

#[test]
fn field_with_delimiter_is_quoted() {
    assert_eq!(encode_field(&bv("x,y")), bv("\"x,y\""));
}

#[test]
fn field_with_quote_is_doubled() {
    assert_eq!(encode_field(&bv("a\"b")), bv("\"a\"\"b\""));
}

#[test]
fn field_with_newline_is_quoted() {
    assert_eq!(encode_field(&bv("a\nb")), bv("\"a\nb\""));
    assert_eq!(encode_field(&bv("a\rb")), bv("\"a\rb\""));
}

#[test]
fn record_is_joined_and_terminated() {
    let rec = vec![bv("a"), bv("b"), bv("c")];
    assert_eq!(encode_record(&rec), bv("a,b,c\n"));
}

#[test]
fn rows_render_one_line_each() {
    let rows = vec![vec![bv("a"), bv("b")], vec![bv("1"), bv("2")]];
    assert_eq!(encode_rows(&rows), bv("a,b\n1,2\n"));
}

#[test]
fn parse_simple_document() {
    let rows = parse_csv(&bv("a,b\n1,2\n3,4\n")).unwrap();
    assert_eq!(rows, vec![
        vec![bv("a"), bv("b")],
        vec![bv("1"), bv("2")],
        vec![bv("3"), bv("4")],
    ]);
}

#[test]
fn parse_final_record_may_lack_terminator() {
    let rows = parse_csv(&bv("a,b\n1,2")).unwrap();
    assert_eq!(rows, vec![vec![bv("a"), bv("b")], vec![bv("1"), bv("2")]]);
}

#[test]
fn parse_quoted_fields() {
    let rows = parse_csv(&bv("\"x,y\",\"a\"\"b\"\nplain,\"\"\n")).unwrap();
    assert_eq!(rows, vec![
        vec![bv("x,y"), bv("a\"b")],
        vec![bv("plain"), bv("")],
    ]);
}

#[test]
fn parse_rejects_unterminated_quote() {
    assert_eq!(parse_csv(&bv("\"abc\n")), Err(PipelineError::MalformedRow));
}

#[test]
fn parse_rejects_garbage_after_quoted_field() {
    assert_eq!(parse_csv(&bv("\"ab\"x,y\n")), Err(PipelineError::MalformedRow));
}

#[test]
fn round_trip_with_awkward_values() {
    let rows = vec![
        vec![bv("x,y"), bv("he said \"hi\""), bv("line\nbreak")],
        vec![bv(""), bv("plain"), bv(",\",\n")],
    ];
    let encoded = encode_rows(&rows);
    assert_eq!(parse_csv(&encoded).unwrap(), rows);
}

#[test]
fn standard_reader_recovers_quoted_field() {
    let rows = vec![vec![bv("x,y"), bv("a\"b\nc")], vec![bv("1"), bv("2")]];
    let encoded = encode_rows(&rows);
    let mut reader = csv::ReaderBuilder::new().has_headers(false).from_reader(&encoded[..]);
    let mut seen: Vec<Vec<Vec<u8>>> = Vec::new();
    for record in reader.records() {
        let record = record.unwrap();
        seen.push(record.iter().map(|f| f.as_bytes().to_vec()).collect());
    }
    assert_eq!(seen, rows);
}

#[test]
fn parse_accepts_carriage_return_terminators() {
    let rows = parse_csv(&bv("a,b\r\n1,2\r\n")).unwrap();
    assert_eq!(rows, vec![vec![bv("a"), bv("b")], vec![bv("1"), bv("2")]]);
    let rows = parse_csv(&bv("a\r1\r")).unwrap();
    assert_eq!(rows, vec![vec![bv("a")], vec![bv("1")]]);
}

#[test]
fn quoted_carriage_return_stays_data() {
    let rows = parse_csv(&bv("\"a\rb\",c\n")).unwrap();
    assert_eq!(rows, vec![vec![bv("a\rb"), bv("c")]]);
}
