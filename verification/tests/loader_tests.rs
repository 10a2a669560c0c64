use csv_transform::PipelineError;
use csv_transform::loader::{create_table_sql, plan_source, table_name};

fn bv(s: &str) -> Vec<u8> {
    s.as_bytes().to_vec()
}

#[test]
fn table_names_are_positional() {
    assert_eq!(table_name(1), bv("table1"));
    assert_eq!(table_name(2), bv("table2"));
    assert_eq!(table_name(12), bv("table12"));
}

#[test]
fn ddl_declares_every_column_as_defaulted_text() {
    let ddl = create_table_sql(&bv("table1"), &vec![bv("a"), bv("b")]).unwrap();
    assert_eq!(
        ddl,
        bv("CREATE TABLE table1 (a NOT NULL DEFAULT '', b NOT NULL DEFAULT '')")
    );
}

#[test]
fn empty_header_is_rejected() {
    assert_eq!(
        create_table_sql(&bv("table1"), &Vec::new()),
        Err(PipelineError::EmptySchema)
    );
}

#[test]
fn empty_source_fails_with_empty_schema() {
    assert_eq!(
        plan_source(&Vec::new(), 1).err(),
        Some(PipelineError::EmptySchema)
    );
}

#[test]
fn blank_header_row_fails_with_empty_schema() {
    assert_eq!(plan_source(&bv("\n1,2\n"), 1).err(), Some(PipelineError::EmptySchema));
}

#[test]
fn duplicate_column_names_fail_with_empty_schema() {
    assert_eq!(plan_source(&bv("a,a\n1,2\n"), 1).err(), Some(PipelineError::EmptySchema));
}

#[test]
fn header_only_source_plans_an_empty_table() {
    let plan = plan_source(&bv("a,b\n"), 1).unwrap();
    assert_eq!(plan.table, bv("table1"));
    assert_eq!(plan.headers, vec![bv("a"), bv("b")]);
    assert!(plan.rows.is_empty());
}

#[test]
fn plan_splits_header_and_rows() {
    let plan = plan_source(&bv("a,b\n1,2\n3,4\n"), 2).unwrap();
    assert_eq!(plan.table, bv("table2"));
    assert_eq!(
        plan.ddl,
        bv("CREATE TABLE table2 (a NOT NULL DEFAULT '', b NOT NULL DEFAULT '')")
    );
    assert_eq!(plan.headers, vec![bv("a"), bv("b")]);
    assert_eq!(plan.rows, vec![vec![bv("1"), bv("2")], vec![bv("3"), bv("4")]]);
}
