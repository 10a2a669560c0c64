//! Bounded batched loading: the shape of the parameterized multi-row
//! `INSERT` statement, and the accumulator that gathers rows until a
//! batch is full.
//!
//! Rows are never interpolated into the statement text: the statement
//! carries one placeholder group per row, and the values travel beside
//! it, bound positionally in row-major order.  A batch is flushed exactly
//! when it reaches the configured limit, a final partial batch is flushed
//! once the source is exhausted, and an empty batch is never flushed.

use vstd::prelude::*;
use vstd::arithmetic::div_mod::lemma_fundamental_div_mod_converse;
use crate::PipelineError;
use crate::text::{append_bytes, append_lit, joined, lemma_joined_push, lit_bytes};

verus! {

/// One parenthesized placeholder group, a `?` per column.
pub open spec fn placeholder_group(ncols: nat) -> Seq<u8> {
    lit_bytes("(") + joined(Seq::new(ncols, |i: int| lit_bytes("?")), lit_bytes(","))
        + lit_bytes(")")
}

/// The parameterized multi-row `INSERT` statement: explicit column list,
/// one placeholder group per row.
pub open spec fn insert_sql_bytes(table: Seq<u8>, headers: Seq<Seq<u8>>, nrows: nat) -> Seq<u8> {
    lit_bytes("INSERT INTO ") + table + lit_bytes(" (") + joined(headers, lit_bytes(","))
        + lit_bytes(") VALUES ") + joined(
        Seq::new(nrows, |i: int| placeholder_group(headers.len())),
        lit_bytes(","),
    )
}

/// Build the `INSERT` statement for `nrows` rows into the given columns.
pub fn insert_sql(table: &Vec<u8>, headers: &Vec<Vec<u8>>, nrows: usize) -> (r: Vec<u8>)
    ensures
        r@ == insert_sql_bytes(table@, headers.deep_view(), nrows as nat),
{
    let ghost dv = headers.deep_view();
    let ghost ncols = dv.len();
    let mut group: Vec<u8> = Vec::new();
    append_lit(&mut group, "(");
    let ghost qs = Seq::new(ncols, |i: int| lit_bytes("?"));
    let mut i: usize = 0;
    while i < headers.len()
        invariant
            i <= headers@.len(),
            dv == headers.deep_view(),
            ncols == dv.len() == headers@.len(),
            qs == Seq::new(ncols, |k: int| lit_bytes("?")),
            group@ == lit_bytes("(") + joined(qs.take(i as int), lit_bytes(",")),
        decreases headers@.len() - i,
    {
        if i > 0 {
            append_lit(&mut group, ",");
        }
        append_lit(&mut group, "?");
        proof {
            lemma_joined_push(qs.take(i as int), lit_bytes(","), lit_bytes("?"));
            assert(qs.take(i + 1) =~= qs.take(i as int).push(lit_bytes("?")));
            if i > 0 {
                assert(group@ =~= lit_bytes("(") + joined(qs.take(i + 1), lit_bytes(",")));
            } else {
                assert(group@ =~= lit_bytes("(") + lit_bytes("?"));
            }
        }
        i += 1;
    }
    append_lit(&mut group, ")");
    proof {
        assert(qs.take(qs.len() as int) =~= qs);
        assert(group@ =~= placeholder_group(ncols));
    }
    let mut out: Vec<u8> = Vec::new();
    append_lit(&mut out, "INSERT INTO ");
    append_bytes(&mut out, table);
    append_lit(&mut out, " (");
    let ghost colstart = out@;
    let mut j: usize = 0;
    while j < headers.len()
        invariant
            j <= headers@.len(),
            dv == headers.deep_view(),
            ncols == dv.len() == headers@.len(),
            forall|k: int| 0 <= k < dv.len() ==> dv[k] == #[trigger] headers@[k]@,
            out@ == colstart + joined(dv.take(j as int), lit_bytes(",")),
        decreases headers@.len() - j,
    {
        if j > 0 {
            append_lit(&mut out, ",");
        }
        append_bytes(&mut out, &headers[j]);
        proof {
            lemma_joined_push(dv.take(j as int), lit_bytes(","), dv[j as int]);
            assert(dv.take(j + 1) =~= dv.take(j as int).push(dv[j as int]));
            if j > 0 {
                assert(out@ =~= colstart + joined(dv.take(j + 1), lit_bytes(",")));
            } else {
                assert(out@ =~= colstart + dv[0]);
            }
        }
        j += 1;
    }
    append_lit(&mut out, ") VALUES ");
    proof {
        assert(dv.take(dv.len() as int) =~= dv);
    }
    let ghost valstart = out@;
    let ghost groups = Seq::new(nrows as nat, |k: int| placeholder_group(ncols));
    let mut k: usize = 0;
    while k < nrows
        invariant
            k <= nrows,
            group@ == placeholder_group(ncols),
            groups == Seq::new(nrows as nat, |m: int| placeholder_group(ncols)),
            out@ == valstart + joined(groups.take(k as int), lit_bytes(",")),
        decreases nrows - k,
    {
        if k > 0 {
            append_lit(&mut out, ",");
        }
        append_bytes(&mut out, &group);
        proof {
            lemma_joined_push(groups.take(k as int), lit_bytes(","), placeholder_group(ncols));
            assert(groups.take(k + 1) =~= groups.take(k as int).push(placeholder_group(ncols)));
            if k > 0 {
                assert(out@ =~= valstart + joined(groups.take(k + 1), lit_bytes(",")));
            } else {
                assert(out@ =~= valstart + placeholder_group(ncols));
            }
        }
        k += 1;
    }
    proof {
        assert(groups.take(groups.len() as int) =~= groups);
        assert(out@ =~= insert_sql_bytes(table@, dv, nrows as nat));
    }
    out
}

/// Copy one field value.
fn copy_field(f: &Vec<u8>) -> (r: Vec<u8>)
    ensures
        r@ == f@,
{
    let mut out: Vec<u8> = Vec::new();
    append_bytes(&mut out, f);
    out
}

/// The row-major flattening of a batch: every field of every row, in
/// order, as the store will bind them.
fn flatten_rows(rows: &Vec<Vec<Vec<u8>>>) -> (r: Vec<Vec<u8>>)
    ensures
        r.deep_view() == rows.deep_view().flatten(),
{
    let ghost dv = rows.deep_view();
    let mut out: Vec<Vec<u8>> = Vec::new();
    proof {
        assert(out.deep_view() =~~= dv.take(0).flatten());
    }
    let mut i: usize = 0;
    while i < rows.len()
        invariant
            i <= rows@.len(),
            dv == rows.deep_view(),
            dv.len() == rows@.len(),
            forall|k: int| 0 <= k < dv.len() ==> dv[k] == #[trigger] rows@[k].deep_view(),
            out.deep_view() == dv.take(i as int).flatten(),
        decreases rows@.len() - i,
    {
        let row = &rows[i];
        let ghost rdv = dv[i as int];
        let ghost out0 = out.deep_view();
        let mut j: usize = 0;
        while j < row.len()
            invariant
                j <= row@.len(),
                rdv == row.deep_view(),
                rdv.len() == row@.len(),
                forall|k: int| 0 <= k < rdv.len() ==> rdv[k] == #[trigger] row@[k]@,
                out.deep_view() == out0 + rdv.take(j as int),
            decreases row@.len() - j,
        {
            let f = copy_field(&row[j]);
            let ghost fv = f@;
            out.push(f);
            proof {
                assert(out.deep_view() =~~= (out0 + rdv.take(j as int)).push(fv));
                assert(rdv.take(j + 1) =~= rdv.take(j as int).push(rdv[j as int]));
                assert((out0 + rdv.take(j as int)).push(rdv[j as int]) =~= out0 + rdv.take(j + 1));
            }
            j += 1;
        }
        proof {
            assert(rdv.take(rdv.len() as int) =~= rdv);
            dv.take(i as int).lemma_flatten_push(rdv);
            assert(dv.take(i + 1) =~= dv.take(i as int).push(rdv));
        }
        i += 1;
    }
    proof {
        assert(dv.take(dv.len() as int) =~= dv);
    }
    out
}

/// One flush handed to the store: the statement, and the values to bind
/// positionally, row-major.
pub struct Flush {
    /// The parameterized `INSERT` statement.
    pub sql: Vec<u8>,
    /// The bound values, one per placeholder, row-major.
    pub values: Vec<Vec<u8>>,
    /// The rows this flush carries.
    pub rows: Ghost<Seq<Seq<Seq<u8>>>>,
}

/// The accumulator that loads one table: rows are pushed one at a time,
/// and a [`Flush`] is emitted exactly when the batch reaches its limit,
/// or for the remainder on [`BatchInserter::finish`].
pub struct BatchInserter {
    table: Vec<u8>,
    headers: Vec<Vec<u8>>,
    limit: usize,
    pending: Vec<Vec<Vec<u8>>>,
    flushed: Ghost<Seq<Seq<Seq<Seq<u8>>>>>,
}

impl BatchInserter {
    /// The table this inserter loads.
    pub closed spec fn table_bytes(self) -> Seq<u8> {
        self.table@
    }

    /// The column list of the target table.
    pub closed spec fn columns(self) -> Seq<Seq<u8>> {
        self.headers.deep_view()
    }

    /// The batch limit the inserter was created with.
    pub closed spec fn batch_limit(self) -> nat {
        self.limit as nat
    }

    /// Every batch flushed so far, in order.
    pub closed spec fn flushes(self) -> Seq<Seq<Seq<Seq<u8>>>> {
        self.flushed@
    }

    /// The rows accumulated since the last flush.
    pub closed spec fn pending_rows(self) -> Seq<Seq<Seq<u8>>> {
        self.pending.deep_view()
    }

    /// Every row accepted so far, flushed or pending, in order.
    pub open spec fn loaded(self) -> Seq<Seq<Seq<u8>>> {
        self.flushes().flatten() + self.pending_rows()
    }

    /// Well-formed: a positive limit, at least one column, fewer pending
    /// rows than the limit, every accepted row as wide as the column
    /// list, and every emitted flush exactly at the limit.
    pub closed spec fn wf(self) -> bool {
        &&& self.limit >= 1
        &&& self.headers@.len() >= 1
        &&& self.pending@.len() < self.limit
        &&& forall|i: int|
            0 <= i < self.pending.deep_view().len() ==> (#[trigger] self.pending.deep_view()[i]).len()
                == self.headers@.len()
        &&& forall|i: int|
            0 <= i < self.flushed@.len() ==> (#[trigger] self.flushed@[i]).len() == self.limit
    }

    /// A fresh, empty inserter.
    pub fn new(table: Vec<u8>, headers: Vec<Vec<u8>>, limit: usize) -> (r: Self)
        requires
            limit >= 1,
            headers@.len() >= 1,
        ensures
            r.wf(),
            r.table_bytes() == table@,
            r.columns() == headers.deep_view(),
            r.batch_limit() == limit as nat,
            r.flushes() == Seq::<Seq<Seq<Seq<u8>>>>::empty(),
            r.pending_rows() == Seq::<Seq<Seq<u8>>>::empty(),
    {
        let r = BatchInserter {
            table,
            headers,
            limit,
            pending: Vec::new(),
            flushed: Ghost(Seq::empty()),
        };
        proof {
            assert(r.pending.deep_view() =~~= Seq::<Seq<Seq<u8>>>::empty());
        }
        r
    }

    /// Accept one row.  A row whose width differs from the column list is
    /// rejected and nothing changes; otherwise the row joins the batch,
    /// and the batch is emitted as a flush exactly when it reaches the
    /// limit.
    pub fn push_row(&mut self, row: Vec<Vec<u8>>) -> (r: Result<Option<Flush>, PipelineError>)
        requires
            old(self).wf(),
        ensures
            final(self).wf(),
            final(self).table_bytes() == old(self).table_bytes(),
            final(self).columns() == old(self).columns(),
            final(self).batch_limit() == old(self).batch_limit(),
            match r {
                Err(e) => {
                    &&& e == PipelineError::MalformedRow
                    &&& row.deep_view().len() != old(self).columns().len()
                    &&& *final(self) == *old(self)
                },
                Ok(opt) => {
                    &&& row.deep_view().len() == old(self).columns().len()
                    &&& match opt {
                        None => {
                            &&& old(self).pending_rows().len() + 1 < old(self).batch_limit()
                            &&& final(self).flushes() == old(self).flushes()
                            &&& final(self).pending_rows() == old(self).pending_rows().push(
                                row.deep_view(),
                            )
                        },
                        Some(fl) => {
                            &&& old(self).pending_rows().len() + 1 == old(self).batch_limit()
                            &&& fl.rows@ == old(self).pending_rows().push(row.deep_view())
                            &&& final(self).flushes() == old(self).flushes().push(fl.rows@)
                            &&& final(self).pending_rows() == Seq::<Seq<Seq<u8>>>::empty()
                            &&& fl.sql@ == insert_sql_bytes(
                                old(self).table_bytes(),
                                old(self).columns(),
                                old(self).batch_limit(),
                            )
                            &&& fl.values.deep_view() == fl.rows@.flatten()
                        },
                    }
                },
            },
    {
        if row.len() != self.headers.len() {
            proof {
                assert(row.deep_view().len() == row@.len());
            }
            return Err(PipelineError::MalformedRow);
        }
        let ghost pending0 = self.pending.deep_view();
        let ghost rowdv = row.deep_view();
        self.pending.push(row);
        proof {
            assert(self.pending.deep_view() =~~= pending0.push(rowdv));
        }
        if self.pending.len() == self.limit {
            let sql = insert_sql(&self.table, &self.headers, self.limit);
            let values = flatten_rows(&self.pending);
            let ghost batch = self.pending.deep_view();
            let fl = Flush { sql, values, rows: Ghost(batch) };
            self.pending.clear();
            let ghost hist0 = self.flushed@;
            proof {
                assert(self.pending.deep_view() =~~= Seq::<Seq<Seq<u8>>>::empty());
            }
            self.flushed = Ghost(hist0.push(batch));
            Ok(Some(fl))
        } else {
            Ok(None)
        }
    }

    /// Emit the final partial batch, if any row is pending.  An empty
    /// batch is never flushed.
    pub fn finish(self) -> (r: Option<Flush>)
        requires
            self.wf(),
        ensures
            match r {
                None => {
                    &&& self.pending_rows().len() == 0
                    &&& self.loaded() == self.flushes().flatten()
                },
                Some(fl) => {
                    &&& self.pending_rows().len() >= 1
                    &&& fl.rows@ == self.pending_rows()
                    &&& self.loaded() == self.flushes().push(fl.rows@).flatten()
                    &&& fl.sql@ == insert_sql_bytes(
                        self.table_bytes(),
                        self.columns(),
                        self.pending_rows().len(),
                    )
                    &&& fl.values.deep_view() == fl.rows@.flatten()
                },
            },
    {
        if self.pending.len() == 0 {
            proof {
                assert(self.pending.deep_view() =~~= Seq::<Seq<Seq<u8>>>::empty());
                assert(self.loaded() =~= self.flushes().flatten());
            }
            return None;
        }
        let sql = insert_sql(&self.table, &self.headers, self.pending.len());
        let values = flatten_rows(&self.pending);
        let ghost batch = self.pending.deep_view();
        proof {
            self.flushes().lemma_flatten_push(batch);
            assert(self.loaded() =~= self.flushes().push(batch).flatten());
        }
        Some(Flush { sql, values, rows: Ghost(batch) })
    }
}

/// The length of a flattening of uniformly sized batches.
proof fn lemma_flatten_uniform(s: Seq<Seq<Seq<Seq<u8>>>>, w: nat)
    requires
        forall|i: int| 0 <= i < s.len() ==> (#[trigger] s[i]).len() == w,
    ensures
        s.flatten().len() == s.len() * w,
    decreases s.len(),
{
    if s.len() == 0 {
    } else {
        lemma_flatten_uniform(s.drop_first(), w);
        assert(s.flatten() == s.first() + s.drop_first().flatten());
        assert((s.len() - 1) * w + w == s.len() * w) by (nonlinear_arith);
    }
}

/// Batching law: however many rows a well-formed inserter has accepted,
/// it has emitted exactly one full flush per `batch_limit` of them, and
/// the remainder, less than one full batch, is still pending.
pub proof fn lemma_flush_count(b: &BatchInserter)
    requires
        b.wf(),
    ensures
        b.flushes().len() == b.loaded().len() as int / b.batch_limit() as int,
        b.pending_rows().len() == b.loaded().len() as int % b.batch_limit() as int,
{
    lemma_flatten_uniform(b.flushes(), b.batch_limit());
    assert(b.loaded().len() == b.flushes().len() * b.batch_limit() + b.pending_rows().len());
    lemma_fundamental_div_mod_converse(
        b.loaded().len() as int,
        b.batch_limit() as int,
        b.flushes().len() as int,
        b.pending_rows().len() as int,
    );
}

} // verus!
