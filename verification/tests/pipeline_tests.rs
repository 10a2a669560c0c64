use csv_transform::DEFAULT_BATCH_SIZE;
use csv_transform::PipelineError;
use csv_transform::batch::{BatchInserter, Flush};
use csv_transform::encode::encode_rows;
use csv_transform::loader::plan_source;
use csv_transform::output::encode_result;
use csv_transform::decode::parse_csv;
use sqlx::sqlite::{SqlitePool, SqlitePoolOptions};
use sqlx::{Column, Row};

fn bv(s: &str) -> Vec<u8> {
    s.as_bytes().to_vec()
}

fn run<F: std::future::Future>(f: F) -> F::Output {
    tokio::runtime::Builder::new_current_thread()
        .enable_all()
        .build()
        .unwrap()
        .block_on(f)
}

async fn run_flush(pool: &SqlitePool, flush: Flush) -> Result<(), PipelineError> {
    let sql = String::from_utf8(flush.sql).unwrap();
    let mut q = sqlx::query(sqlx::AssertSqlSafe(sql));
    for v in &flush.values {
        q = q.bind(String::from_utf8(v.clone()).unwrap());
    }
    q.execute(pool).await.map_err(|_| PipelineError::StoreWriteFailed)?;
    Ok(())
}

async fn ingest(pool: &SqlitePool, data: &[u8], position: usize) -> Result<(), PipelineError> {
    let plan = plan_source(&data.to_vec(), position)?;
    let ddl = String::from_utf8(plan.ddl).unwrap();
    sqlx::query(sqlx::AssertSqlSafe(ddl))
        .execute(pool)
        .await
        .map_err(|_| PipelineError::StoreWriteFailed)?;
    let mut inserter = BatchInserter::new(plan.table, plan.headers, DEFAULT_BATCH_SIZE);
    for row in plan.rows {
        if let Some(flush) = inserter.push_row(row)? {
            run_flush(pool, flush).await?;
        }
    }
    if let Some(flush) = inserter.finish() {
        run_flush(pool, flush).await?;
    }
    Ok(())
}

async fn transform(sources: Vec<Vec<u8>>, query: &str) -> Result<Vec<u8>, PipelineError> {
    let pool = SqlitePoolOptions::new()
        .max_connections(1)
        .connect("sqlite::memory:")
        .await
        .map_err(|_| PipelineError::StoreWriteFailed)?;
    for (i, src) in sources.iter().enumerate() {
        ingest(&pool, src, i + 1).await?;
    }
    let rows = sqlx::query(sqlx::AssertSqlSafe(query.to_string()))
        .fetch_all(&pool)
        .await
        .map_err(|_| PipelineError::QueryFailed)?;
    if rows.is_empty() {
        return Err(PipelineError::NoRows);
    }
    let names: Vec<Vec<u8>> = rows[0]
        .columns()
        .iter()
        .map(|c| c.name().as_bytes().to_vec())
        .collect();
    let mut data: Vec<Vec<Vec<u8>>> = Vec::new();
    for row in &rows {
        let mut rec: Vec<Vec<u8>> = Vec::new();
        for i in 0..row.len() {
            let v: Vec<u8> = row
                .try_get_unchecked(i)
                .map_err(|_| PipelineError::NonTextValue)?;
            rec.push(v);
        }
        data.push(rec);
    }
    encode_result(Some(names), &data)
}

#[test]
fn select_with_filter_end_to_end() {
    let out = run(transform(
        vec![bv("a,b\n1,2\n3,4\n")],
        "select * from table1 where a='1'",
    ))
    .unwrap();
    assert_eq!(out, bv("a,b\n1,2\n"));
}

#[test]
fn join_of_two_sources_end_to_end() {
    let out = run(transform(
        vec![bv("id,name\n1,ann\n2,bob\n"), bv("id,age\n1,30\n2,40\n")],
        "select t1.name, t2.age from table1 t1 join table2 t2 on t1.id = t2.id order by t1.name",
    ))
    .unwrap();
    assert_eq!(out, bv("name,age\nann,30\nbob,40\n"));
}

#[test]
fn every_source_row_survives_the_round_trip() {
    let source_rows = vec![
        vec![bv("a"), bv("b")],
        vec![bv("x,y"), bv("he said \"hi\"")],
        vec![bv("line\nbreak"), bv("")],
        vec![bv("plain"), bv("2")],
    ];
    let source = encode_rows(&source_rows);
    let out = run(transform(vec![source], "select * from table1")).unwrap();
    let reparsed = parse_csv(&out).unwrap();
    assert_eq!(reparsed, source_rows);
}

#[test]
fn empty_table_then_empty_query_fails_with_no_rows() {
    let out = run(transform(vec![bv("a,b\n")], "select * from table1"));
    assert_eq!(out, Err(PipelineError::NoRows));
}

#[test]
fn batches_beyond_the_limit_all_reach_the_store() {
    let mut source = bv("a,b\n");
    for n in 0..DEFAULT_BATCH_SIZE + 1 {
        source.extend(format!("{},v\n", n).into_bytes());
    }
    let out = run(transform(vec![source], "select count(*) as n from table1")).unwrap();
    assert_eq!(out, bv(&format!("n\n{}\n", DEFAULT_BATCH_SIZE + 1)));
}

#[test]
fn delimiter_inside_value_comes_back_quoted() {
    let out = run(transform(
        vec![bv("a\n\"x,y\"\n")],
        "select * from table1",
    ))
    .unwrap();
    assert_eq!(out, bv("a\n\"x,y\"\n"));
}
