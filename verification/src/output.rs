//! Serializing a result set back to delimited text: the header row comes
//! first, taken verbatim from the store's reported column names when
//! there are any and synthesized as `col1`, `col2`, … otherwise; then one
//! encoded record per result row, in result-set order.
//!
//! An empty result set is a failure, not an empty output: the pipeline
//! exists to produce visible transformed data.

use vstd::prelude::*;
use crate::PipelineError;
use crate::encode::{encode_record, encode_rows, encoded_record, encoded_rows};
use crate::text::{append_bytes, append_lit, dec_digits, lit_bytes, push_dec};

verus! {

/// The synthesized column names `col1` … `colN`.
pub open spec fn synthetic_names(n: nat) -> Seq<Seq<u8>> {
    Seq::new(n, |i: int| lit_bytes("col") + dec_digits((i + 1) as nat))
}

/// The header actually written: reported names verbatim, or synthesized
/// ones when the store reports none.
pub open spec fn header_names(names: Option<Seq<Seq<u8>>>, width: nat) -> Seq<Seq<u8>> {
    match names {
        Some(ns) => ns,
        None => synthetic_names(width),
    }
}

/// Whether every row has exactly `w` columns.
pub open spec fn uniform_width(rows: Seq<Seq<Seq<u8>>>, w: nat) -> bool {
    forall|i: int| 0 <= i < rows.len() ==> (#[trigger] rows[i]).len() == w
}

/// What serialization yields: the header record followed by every result
/// row, or the error owed for an empty or ragged result set.
pub open spec fn spec_encode_result(names: Option<Seq<Seq<u8>>>, rows: Seq<Seq<Seq<u8>>>) -> Result<
    Seq<u8>,
    PipelineError,
> {
    if rows.len() == 0 {
        Err(PipelineError::NoRows)
    } else if !uniform_width(rows, rows[0].len()) || (names matches Some(ns) && ns.len()
        != rows[0].len()) {
        Err(PipelineError::MalformedRow)
    } else {
        Ok(encoded_record(header_names(names, rows[0].len())) + encoded_rows(rows))
    }
}

/// Build the synthesized column names for a result of `n` columns.
pub fn synthesize_names(n: usize) -> (r: Vec<Vec<u8>>)
    ensures
        r.deep_view() == synthetic_names(n as nat),
{
    let mut out: Vec<Vec<u8>> = Vec::new();
    proof {
        assert(out.deep_view() =~~= synthetic_names(n as nat).take(0));
    }
    let mut i: usize = 0;
    while i < n
        invariant
            i <= n,
            out.deep_view() == synthetic_names(n as nat).take(i as int),
        decreases n - i,
    {
        let mut name: Vec<u8> = Vec::new();
        append_lit(&mut name, "col");
        push_dec(&mut name, (i as u64) + 1);
        let ghost nv = name@;
        out.push(name);
        proof {
            assert(nv == lit_bytes("col") + dec_digits((i + 1) as nat));
            assert(out.deep_view() =~~= synthetic_names(n as nat).take(i as int).push(nv));
            assert(synthetic_names(n as nat).take(i + 1) =~= synthetic_names(n as nat).take(
                i as int,
            ).push(synthetic_names(n as nat)[i as int]));
        }
        i += 1;
    }
    proof {
        assert(synthetic_names(n as nat).take(n as int) =~= synthetic_names(n as nat));
    }
    out
}

/// Serialize a result set: header first, then every row, each record on
/// its own line.  An empty result set is reported as `NoRows`; a ragged
/// one, or reported names that do not match the width, as a malformed
/// row.
pub fn encode_result(names: Option<Vec<Vec<u8>>>, rows: &Vec<Vec<Vec<u8>>>) -> (r: Result<
    Vec<u8>,
    PipelineError,
>)
    ensures
        match r {
            Ok(out) => spec_encode_result(names.deep_view(), rows.deep_view()) == Ok::<
                _,
                PipelineError,
            >(out@),
            Err(e) => spec_encode_result(names.deep_view(), rows.deep_view()) == Err::<
                Seq<u8>,
                _,
            >(e),
        },
{
    let ghost dv = rows.deep_view();
    if rows.len() == 0 {
        return Err(PipelineError::NoRows);
    }
    let width = rows[0].len();
    proof {
        assert(dv[0] == rows@[0].deep_view());
        assert(dv[0].len() == rows@[0]@.len());
    }
    let mut i: usize = 0;
    while i < rows.len()
        invariant
            i <= rows@.len(),
            dv == rows.deep_view(),
            dv.len() == rows@.len(),
            dv.len() >= 1,
            forall|k: int| 0 <= k < dv.len() ==> dv[k] == #[trigger] rows@[k].deep_view(),
            forall|k: int| 0 <= k < dv.len() ==> (#[trigger] dv[k]).len() == rows@[k]@.len(),
            width == dv[0].len(),
            forall|k: int| 0 <= k < i ==> (#[trigger] dv[k]).len() == width,
        decreases rows@.len() - i,
    {
        if rows[i].len() != width {
            proof {
                assert(dv[i as int].len() != width as nat);
                assert(!uniform_width(dv, dv[0].len()));
            }
            return Err(PipelineError::MalformedRow);
        }
        i += 1;
    }
    let header: Vec<Vec<u8>> = match names {
        Some(ns) => {
            if ns.len() != width {
                proof {
                    assert(ns.deep_view().len() == ns@.len());
                }
                return Err(PipelineError::MalformedRow);
            }
            proof {
                assert(ns.deep_view().len() == ns@.len());
            }
            ns
        },
        None => synthesize_names(width),
    };
    let mut out = encode_record(&header);
    let body = encode_rows(rows);
    append_bytes(&mut out, &body);
    proof {
        assert(uniform_width(dv, width as nat));
    }
    Ok(out)
}

} // verus!
