//! Turning one delimited source into a load plan: the positional table
//! name, the `CREATE TABLE` statement derived from the header row, and
//! the data rows to be batched into the store.
//!
//! Every column is declared as a text column with a non-null constraint
//! defaulting to the empty string; there is no type inference.  A header
//! whose columns would not form usable, distinct SQL identifiers is
//! rejected before any statement reaches the store.

use vstd::prelude::*;
use crate::PipelineError;
use crate::decode::{lemma_csv_round_trip, parse_csv, spec_parse_csv};
use crate::encode::encoded_rows;
use crate::text::{append_bytes, append_lit, bytes_eq, dec_digits, joined, lemma_joined_push,
    lit_bytes, push_dec};

verus! {

/// A byte a SQL identifier may hold: a letter, a digit, or an underscore.
pub open spec fn is_ident_byte(b: u8) -> bool {
    (48 <= b <= 57) || (65 <= b <= 90) || (97 <= b <= 122) || b == 95
}

/// A usable column name: non-empty, identifier bytes only, not starting
/// with a digit.
pub open spec fn valid_ident(h: Seq<u8>) -> bool {
    &&& h.len() >= 1
    &&& forall|i: int| 0 <= i < h.len() ==> is_ident_byte(#[trigger] h[i])
    &&& !(48 <= h[0] <= 57)
}

/// A usable header: at least one column, every name a valid identifier,
/// no two names equal.
pub open spec fn valid_schema(headers: Seq<Seq<u8>>) -> bool {
    &&& headers.len() >= 1
    &&& forall|i: int| 0 <= i < headers.len() ==> valid_ident(#[trigger] headers[i])
    &&& forall|i: int, j: int| 0 <= i < j < headers.len() ==> headers[i] != headers[j]
}

/// The `CREATE TABLE` statement for a table with the given columns, each
/// a text column, non-null, defaulting to the empty string.
pub open spec fn ddl_bytes(table: Seq<u8>, headers: Seq<Seq<u8>>) -> Seq<u8> {
    lit_bytes("CREATE TABLE ") + table + lit_bytes(" (") + joined(
        headers,
        lit_bytes(" NOT NULL DEFAULT '', "),
    ) + lit_bytes(" NOT NULL DEFAULT '')")
}

/// The positional name of the `position`-th source, counted from one.
pub open spec fn spec_table_name(position: nat) -> Seq<u8> {
    lit_bytes("table") + dec_digits(position)
}

/// Whether one column name is a usable identifier.
fn check_ident(h: &Vec<u8>) -> (r: bool)
    ensures
        r == valid_ident(h@),
{
    if h.len() == 0 {
        return false;
    }
    let first = h[0];
    if 48 <= first && first <= 57 {
        return false;
    }
    let mut i: usize = 0;
    while i < h.len()
        invariant
            i <= h@.len(),
            forall|k: int| 0 <= k < i ==> is_ident_byte(#[trigger] h@[k]),
        decreases h@.len() - i,
    {
        let b = h[i];
        if !((48 <= b && b <= 57) || (65 <= b && b <= 90) || (97 <= b && b <= 122) || b == 95) {
            return false;
        }
        i += 1;
    }
    true
}

/// Whether a header row can shape a table.
pub fn check_schema(headers: &Vec<Vec<u8>>) -> (r: bool)
    ensures
        r == valid_schema(headers.deep_view()),
{
    let ghost dv = headers.deep_view();
    if headers.len() == 0 {
        return false;
    }
    let mut i: usize = 0;
    while i < headers.len()
        invariant
            i <= headers@.len(),
            dv == headers.deep_view(),
            dv.len() == headers@.len(),
            forall|k: int| 0 <= k < dv.len() ==> dv[k] == #[trigger] headers@[k]@,
            forall|k: int| 0 <= k < i ==> valid_ident(#[trigger] dv[k]),
            forall|k: int, l: int| 0 <= k < l < i ==> dv[k] != dv[l],
        decreases headers@.len() - i,
    {
        if !check_ident(&headers[i]) {
            return false;
        }
        let mut j: usize = 0;
        while j < i
            invariant
                j <= i < headers@.len(),
                dv == headers.deep_view(),
                dv.len() == headers@.len(),
                forall|k: int| 0 <= k < dv.len() ==> dv[k] == #[trigger] headers@[k]@,
                forall|k: int| 0 <= k < j ==> dv[k] != dv[i as int],
            decreases i - j,
        {
            if bytes_eq(&headers[j], &headers[i]) {
                return false;
            }
            j += 1;
        }
        i += 1;
    }
    true
}

/// Build the `CREATE TABLE` statement, or reject an unusable header.
pub fn create_table_sql(table: &Vec<u8>, headers: &Vec<Vec<u8>>) -> (r: Result<
    Vec<u8>,
    PipelineError,
>)
    ensures
        match r {
            Ok(d) => valid_schema(headers.deep_view()) && d@ == ddl_bytes(
                table@,
                headers.deep_view(),
            ),
            Err(e) => e == PipelineError::EmptySchema && !valid_schema(headers.deep_view()),
        },
{
    let ghost dv = headers.deep_view();
    if !check_schema(headers) {
        return Err(PipelineError::EmptySchema);
    }
    let mut out: Vec<u8> = Vec::new();
    append_lit(&mut out, "CREATE TABLE ");
    append_bytes(&mut out, table);
    append_lit(&mut out, " (");
    let ghost prefix = out@;
    let mut i: usize = 0;
    while i < headers.len()
        invariant
            i <= headers@.len(),
            dv == headers.deep_view(),
            dv.len() == headers@.len(),
            forall|k: int| 0 <= k < dv.len() ==> dv[k] == #[trigger] headers@[k]@,
            out@ == prefix + joined(dv.take(i as int), lit_bytes(" NOT NULL DEFAULT '', ")),
        decreases headers@.len() - i,
    {
        if i > 0 {
            append_lit(&mut out, " NOT NULL DEFAULT '', ");
        }
        append_bytes(&mut out, &headers[i]);
        proof {
            lemma_joined_push(dv.take(i as int), lit_bytes(" NOT NULL DEFAULT '', "), dv[i as int]);
            assert(dv.take(i + 1) =~= dv.take(i as int).push(dv[i as int]));
            if i > 0 {
                assert(out@ =~= prefix + joined(dv.take(i + 1), lit_bytes(" NOT NULL DEFAULT '', ")));
            } else {
                assert(out@ =~= prefix + dv[0]);
            }
        }
        i += 1;
    }
    append_lit(&mut out, " NOT NULL DEFAULT '')");
    proof {
        assert(dv.take(dv.len() as int) =~= dv);
        assert(out@ =~= ddl_bytes(table@, dv));
    }
    Ok(out)
}

/// The positional table name for the `position`-th source, counted
/// from one: `table1`, `table2`, and so on.
pub fn table_name(position: usize) -> (r: Vec<u8>)
    ensures
        r@ == spec_table_name(position as nat),
{
    let mut out: Vec<u8> = Vec::new();
    append_lit(&mut out, "table");
    push_dec(&mut out, position as u64);
    out
}

/// Everything the store needs to ingest one source: its assigned name,
/// the `CREATE TABLE` statement, the column list, and the data rows.
pub struct SourcePlan {
    /// The assigned positional table name.
    pub table: Vec<u8>,
    /// The `CREATE TABLE` statement to run before loading.
    pub ddl: Vec<u8>,
    /// The column names, from the source's first record.
    pub headers: Vec<Vec<u8>>,
    /// The data rows, in source order.
    pub rows: Vec<Vec<Vec<u8>>>,
}

/// What planning yields on given source bytes: the first record is the
/// header and the rest are data rows; a source that cannot be parsed, or
/// whose header cannot shape a table, is rejected.
pub open spec fn spec_plan(data: Seq<u8>, position: nat) -> Result<
    (Seq<u8>, Seq<u8>, Seq<Seq<u8>>, Seq<Seq<Seq<u8>>>),
    PipelineError,
> {
    match spec_parse_csv(data) {
        None => Err(PipelineError::MalformedRow),
        Some(recs) => if recs.len() == 0 || !valid_schema(recs[0]) {
            Err(PipelineError::EmptySchema)
        } else {
            Ok(
                (
                    spec_table_name(position),
                    ddl_bytes(spec_table_name(position), recs[0]),
                    recs[0],
                    recs.skip(1),
                ),
            )
        },
    }
}

/// Plan the ingestion of one source.  Nothing is handed to the store on
/// failure: a source with an unusable header is rejected before any
/// statement exists.
pub fn plan_source(data: &Vec<u8>, position: usize) -> (r: Result<SourcePlan, PipelineError>)
    ensures
        match r {
            Ok(p) => spec_plan(data@, position as nat) == Ok::<_, PipelineError>(
                (p.table@, p.ddl@, p.headers.deep_view(), p.rows.deep_view()),
            ),
            Err(e) => spec_plan(data@, position as nat) == Err::<
                (Seq<u8>, Seq<u8>, Seq<Seq<u8>>, Seq<Seq<Seq<u8>>>),
                _,
            >(e),
        },
{
    let mut recs = match parse_csv(data) {
        Ok(recs) => recs,
        Err(_) => {
            return Err(PipelineError::MalformedRow);
        },
    };
    if recs.len() == 0 {
        return Err(PipelineError::EmptySchema);
    }
    let ghost recs0 = recs.deep_view();
    let headers = recs.remove(0);
    proof {
        assert(headers.deep_view() =~~= recs0[0]);
        assert(recs.deep_view() =~~= recs0.skip(1));
    }
    let table = table_name(position);
    let ddl = match create_table_sql(&table, &headers) {
        Ok(ddl) => ddl,
        Err(e) => {
            return Err(e);
        },
    };
    Ok(SourcePlan { table, ddl, headers, rows: recs })
}

/// Ingestion round trip: a source encoded from a usable header and any
/// data rows is planned back into exactly that header and those rows, so
/// every source row reaches the store field for field.
pub proof fn lemma_plan_encoded_source(
    header: Seq<Seq<u8>>,
    rows: Seq<Seq<Seq<u8>>>,
    position: nat,
)
    requires
        valid_schema(header),
        forall|k: int| 0 <= k < rows.len() ==> (#[trigger] rows[k]).len() >= 1,
    ensures
        spec_plan(encoded_rows(seq![header] + rows), position) == Ok::<_, PipelineError>(
            (
                spec_table_name(position),
                ddl_bytes(spec_table_name(position), header),
                header,
                rows,
            ),
        ),
{
    let recs = seq![header] + rows;
    assert forall|k: int| 0 <= k < recs.len() implies (#[trigger] recs[k]).len() >= 1 by {
        if k == 0 {
            assert(recs[0] == header);
        } else {
            assert(recs[k] == rows[k - 1]);
        }
    }
    lemma_csv_round_trip(recs);
    assert(recs[0] == header);
    assert(recs.skip(1) =~= rows);
}

} // verus!
