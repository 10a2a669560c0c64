use csv_transform::DEFAULT_BATCH_SIZE;
use csv_transform::PipelineError;
use csv_transform::batch::{BatchInserter, insert_sql};

fn bv(s: &str) -> Vec<u8> {
    s.as_bytes().to_vec()
}

fn row(n: usize) -> Vec<Vec<u8>> {
    vec![bv(&format!("{}", n)), bv("v")]
}

#[test]
fn insert_statement_shape() {
    let sql = insert_sql(&bv("table1"), &vec![bv("a"), bv("b")], 2);
    assert_eq!(sql, bv("INSERT INTO table1 (a,b) VALUES (?,?),(?,?)"));
}

#[test]
fn insert_statement_single_row_single_column() {
    let sql = insert_sql(&bv("t"), &vec![bv("c")], 1);
    assert_eq!(sql, bv("INSERT INTO t (c) VALUES (?)"));
}

#[test]
fn mismatched_width_is_rejected() {
    let mut b = BatchInserter::new(bv("table1"), vec![bv("a"), bv("b")], 300);
    assert!(matches!(b.push_row(vec![bv("1")]), Err(PipelineError::MalformedRow)));
    assert_eq!(b.finish().map(|f| f.values.len()), None);
}

#[test]
fn small_batch_flushes_only_at_finish() {
    let mut b = BatchInserter::new(bv("table1"), vec![bv("a"), bv("b")], 300);
    for n in 0..5 {
        assert!(b.push_row(row(n)).unwrap().is_none());
    }
    let last = b.finish().unwrap();
    assert_eq!(last.sql, insert_sql(&bv("table1"), &vec![bv("a"), bv("b")], 5));
    assert_eq!(last.values.len(), 10);
    assert_eq!(last.values[0], bv("0"));
    assert_eq!(last.values[1], bv("v"));
    assert_eq!(last.values[8], bv("4"));
}

#[test]
fn exactly_one_batch_flushes_once_with_no_empty_tail() {
    let mut b = BatchInserter::new(bv("table1"), vec![bv("a"), bv("b")], DEFAULT_BATCH_SIZE);
    let mut flushes = 0;
    for n in 0..DEFAULT_BATCH_SIZE {
        if let Some(fl) = b.push_row(row(n)).unwrap() {
            flushes += 1;
            assert_eq!(fl.values.len(), 2 * DEFAULT_BATCH_SIZE);
        }
    }
    assert_eq!(flushes, 1);
    assert!(b.finish().is_none());
}

#[test]
fn one_over_the_limit_flushes_twice() {
    let mut b = BatchInserter::new(bv("table1"), vec![bv("a"), bv("b")], DEFAULT_BATCH_SIZE);
    let mut flushes: Vec<usize> = Vec::new();
    for n in 0..DEFAULT_BATCH_SIZE + 1 {
        if let Some(fl) = b.push_row(row(n)).unwrap() {
            flushes.push(fl.values.len() / 2);
        }
    }
    if let Some(fl) = b.finish() {
        flushes.push(fl.values.len() / 2);
    }
    assert_eq!(flushes, vec![DEFAULT_BATCH_SIZE, 1]);
}

#[test]
fn flush_keeps_rows_in_order_across_batches() {
    let mut b = BatchInserter::new(bv("t"), vec![bv("c")], 2);
    let mut all: Vec<Vec<u8>> = Vec::new();
    for n in 0..5 {
        if let Some(fl) = b.push_row(vec![bv(&format!("{}", n))]).unwrap() {
            all.extend(fl.values);
        }
    }
    if let Some(fl) = b.finish() {
        all.extend(fl.values);
    }
    assert_eq!(all, vec![bv("0"), bv("1"), bv("2"), bv("3"), bv("4")]);
}
