//! Delimited-text parsing: a strict recursive-descent reader for the
//! format written by [`crate::encode`].
//!
//! A record is a comma-separated list of fields terminated by a line
//! feed, a carriage return, or the pair of the two (the final record may
//! omit the terminator); a field is either raw, running to the next
//! delimiter or terminator, or quoted, with embedded quotes doubled.  A quoted field followed by anything but a delimiter,
//! a terminator or the end of input is rejected, as is an unterminated
//! quoted field.

use vstd::prelude::*;
use crate::PipelineError;
use crate::text::{COMMA, CR, LF, QUOTE};
use crate::encode::{encoded_field, encoded_fields, encoded_record, encoded_rows, escaped, field_needs_quoting};

verus! {

/// The index of the first delimiter or record terminator at or after `i`.
pub open spec fn raw_end(s: Seq<u8>, i: int) -> int
    decreases s.len() - i,
{
    if i < 0 || i >= s.len() {
        i
    } else if s[i] == COMMA || s[i] == LF || s[i] == CR {
        i
    } else {
        raw_end(s, i + 1)
    }
}

/// `raw_end` stops at the first special byte, and not before.
pub proof fn lemma_raw_end_bounds(s: Seq<u8>, i: int)
    requires
        0 <= i <= s.len(),
    ensures
        i <= raw_end(s, i) <= s.len(),
        forall|k: int| i <= k < raw_end(s, i) ==> s[k] != COMMA && s[k] != LF && s[k] != CR,
        raw_end(s, i) < s.len() ==> s[raw_end(s, i)] == COMMA || s[raw_end(s, i)] == LF || s[raw_end(
            s,
            i,
        )] == CR,
    decreases s.len() - i,
{
    if i < s.len() && s[i] != COMMA && s[i] != LF && s[i] != CR {
        lemma_raw_end_bounds(s, i + 1);
    }
}

/// Parse the body of a quoted field, `i` pointing just after the opening
/// quote: `None` on an unterminated field, otherwise the field body and
/// the index just after the closing quote.
pub open spec fn parse_quoted(s: Seq<u8>, i: int) -> Option<(Seq<u8>, int)>
    decreases s.len() - i,
{
    if i < 0 || i >= s.len() {
        None
    } else if s[i] == QUOTE {
        if i + 1 < s.len() && s[i + 1] == QUOTE {
            match parse_quoted(s, i + 2) {
                Some(step) => Some((seq![QUOTE] + step.0, step.1)),
                None => None,
            }
        } else {
            Some((Seq::empty(), i + 1))
        }
    } else {
        match parse_quoted(s, i + 1) {
            Some(step) => Some((seq![s[i]] + step.0, step.1)),
            None => None,
        }
    }
}

/// A parsed quoted field ends past at least the closing quote and within
/// the input.
pub proof fn lemma_parse_quoted_bounds(s: Seq<u8>, i: int)
    requires
        0 <= i <= s.len(),
    ensures
        parse_quoted(s, i) matches Some(step) ==> i + 1 <= step.1 <= s.len(),
    decreases s.len() - i,
{
    if i < s.len() {
        if s[i] == QUOTE {
            if i + 1 < s.len() && s[i + 1] == QUOTE {
                lemma_parse_quoted_bounds(s, i + 2);
            }
        } else {
            lemma_parse_quoted_bounds(s, i + 1);
        }
    }
}

/// Parse one field beginning at `i`: the field and the index of the byte
/// that follows it (a delimiter, a terminator, or the end of input).
pub open spec fn parse_field(s: Seq<u8>, i: int) -> Option<(Seq<u8>, int)> {
    if 0 <= i < s.len() && s[i] == QUOTE {
        parse_quoted(s, i + 1)
    } else {
        Some((s.subrange(i, raw_end(s, i)), raw_end(s, i)))
    }
}

/// A parsed field ends at or after its start, within the input.
pub proof fn lemma_parse_field_bounds(s: Seq<u8>, i: int)
    requires
        0 <= i <= s.len(),
    ensures
        parse_field(s, i) matches Some(step) ==> i <= step.1 <= s.len(),
{
    if 0 <= i < s.len() && s[i] == QUOTE {
        lemma_parse_quoted_bounds(s, i + 1);
    } else {
        lemma_raw_end_bounds(s, i);
    }
}

/// Parse one record beginning at `i`: its fields and the index just after
/// the record, past its terminator when there is one.
pub open spec fn parse_record(s: Seq<u8>, i: int) -> Option<(Seq<Seq<u8>>, int)>
    decreases s.len() - i,
{
    match parse_field(s, i) {
        None => None,
        Some(step) => {
            let f = step.0;
            let j = step.1;
            if j >= s.len() {
                Some((seq![f], j))
            } else if s[j] == LF {
                Some((seq![f], j + 1))
            } else if s[j] == CR {
                if j + 1 < s.len() && s[j + 1] == LF {
                    Some((seq![f], j + 2))
                } else {
                    Some((seq![f], j + 1))
                }
            } else if s[j] == COMMA && i <= j && j + 1 <= s.len() {
                match parse_record(s, j + 1) {
                    Some(rest) => Some((seq![f] + rest.0, rest.1)),
                    None => None,
                }
            } else {
                None
            }
        },
    }
}

/// A parsed record holds at least one field and consumes at least one
/// byte of a non-empty input.
pub proof fn lemma_parse_record_bounds(s: Seq<u8>, i: int)
    requires
        0 <= i <= s.len(),
    ensures
        parse_record(s, i) matches Some(step) ==> {
            &&& step.0.len() >= 1
            &&& i <= step.1 <= s.len()
            &&& i < s.len() ==> i < step.1
        },
    decreases s.len() - i,
{
    lemma_parse_field_bounds(s, i);
    if parse_field(s, i) is Some {
        let step = parse_field(s, i)->Some_0;
        let j = step.1;
        if j < s.len() && s[j] != LF && s[j] != CR && s[j] == COMMA && i <= j && j + 1 <= s.len() {
            lemma_parse_record_bounds(s, j + 1);
        }
    }
}

/// Parse every record of the input; the empty input holds no records.
pub open spec fn parse_rows(s: Seq<u8>, i: int) -> Option<Seq<Seq<Seq<u8>>>>
    decreases s.len() - i,
{
    if i >= s.len() {
        Some(Seq::empty())
    } else {
        match parse_record(s, i) {
            None => None,
            Some(step) => {
                if i < step.1 <= s.len() {
                    match parse_rows(s, step.1) {
                        Some(rest) => Some(seq![step.0] + rest),
                        None => None,
                    }
                } else {
                    None
                }
            },
        }
    }
}

/// Parse a whole document into its records.
pub open spec fn spec_parse_csv(s: Seq<u8>) -> Option<Seq<Seq<Seq<u8>>>> {
    parse_rows(s, 0)
}

/// The view of one exec parsing step over a single field.
pub open spec fn field_step_view(r: Option<(Vec<u8>, usize)>) -> Option<(Seq<u8>, int)> {
    match r {
        Some(step) => Some((step.0@, step.1 as int)),
        None => None,
    }
}

/// The view of one exec parsing step over a record.
pub open spec fn record_step_view(r: Option<(Vec<Vec<u8>>, usize)>) -> Option<
    (Seq<Seq<u8>>, int),
> {
    match r {
        Some(step) => Some((step.0.deep_view(), step.1 as int)),
        None => None,
    }
}

/// Scan to the end of a raw field.
fn scan_raw(s: &Vec<u8>, i: usize) -> (j: usize)
    requires
        i <= s@.len(),
    ensures
        j as int == raw_end(s@, i as int),
        i <= j <= s@.len(),
    decreases s@.len() - i,
{
    if i >= s.len() {
        i
    } else if s[i] == COMMA || s[i] == LF || s[i] == CR {
        i
    } else {
        scan_raw(s, i + 1)
    }
}

/// Copy `s[i..j]` into a fresh buffer.
fn copy_range(s: &Vec<u8>, i: usize, j: usize) -> (r: Vec<u8>)
    requires
        i <= j <= s@.len(),
    ensures
        r@ == s@.subrange(i as int, j as int),
{
    let mut out: Vec<u8> = Vec::new();
    let mut k = i;
    while k < j
        invariant
            i <= k <= j <= s@.len(),
            out@ == s@.subrange(i as int, k as int),
        decreases j - k,
    {
        out.push(s[k]);
        proof {
            assert(s@.subrange(i as int, k + 1) =~= s@.subrange(i as int, k as int).push(
                s@[k as int],
            ));
        }
        k += 1;
    }
    out
}

/// Read a quoted field body.
fn take_quoted(s: &Vec<u8>, i: usize) -> (r: Option<(Vec<u8>, usize)>)
    requires
        i <= s@.len(),
    ensures
        field_step_view(r) == parse_quoted(s@, i as int),
    decreases s@.len() - i,
{
    if i >= s.len() {
        None
    } else if s[i] == QUOTE {
        if i + 1 < s.len() && s[i + 1] == QUOTE {
            match take_quoted(s, i + 2) {
                Some((mut f, j)) => {
                    let ghost f0 = f@;
                    f.insert(0, QUOTE);
                    proof {
                        assert(f@ =~= seq![QUOTE] + f0);
                    }
                    Some((f, j))
                },
                None => None,
            }
        } else {
            Some((Vec::new(), i + 1))
        }
    } else {
        let b = s[i];
        match take_quoted(s, i + 1) {
            Some((mut f, j)) => {
                let ghost f0 = f@;
                f.insert(0, b);
                proof {
                    assert(f@ =~= seq![s@[i as int]] + f0);
                }
                Some((f, j))
            },
            None => None,
        }
    }
}

/// Read one field.
fn take_field(s: &Vec<u8>, i: usize) -> (r: Option<(Vec<u8>, usize)>)
    requires
        i <= s@.len(),
    ensures
        field_step_view(r) == parse_field(s@, i as int),
{
    if i < s.len() && s[i] == QUOTE {
        take_quoted(s, i + 1)
    } else {
        proof {
            lemma_raw_end_bounds(s@, i as int);
        }
        let j = scan_raw(s, i);
        let f = copy_range(s, i, j);
        Some((f, j))
    }
}

/// Read one record.
fn take_record(s: &Vec<u8>, i: usize) -> (r: Option<(Vec<Vec<u8>>, usize)>)
    requires
        i <= s@.len(),
    ensures
        record_step_view(r) == parse_record(s@, i as int),
    decreases s@.len() - i,
{
    match take_field(s, i) {
        None => None,
        Some((f, j)) => {
            proof {
                lemma_parse_field_bounds(s@, i as int);
            }
            if j >= s.len() {
                let mut v: Vec<Vec<u8>> = Vec::new();
                let ghost fv = f@;
                v.push(f);
                proof {
                    assert(v.deep_view() =~~= seq![fv]);
                }
                Some((v, j))
            } else if s[j] == LF {
                let mut v: Vec<Vec<u8>> = Vec::new();
                let ghost fv = f@;
                v.push(f);
                proof {
                    assert(v.deep_view() =~~= seq![fv]);
                }
                Some((v, j + 1))
            } else if s[j] == CR {
                let mut v: Vec<Vec<u8>> = Vec::new();
                let ghost fv = f@;
                v.push(f);
                proof {
                    assert(v.deep_view() =~~= seq![fv]);
                }
                if j + 1 < s.len() && s[j + 1] == LF {
                    Some((v, j + 2))
                } else {
                    Some((v, j + 1))
                }
            } else if s[j] == COMMA {
                match take_record(s, j + 1) {
                    Some((mut fs, k)) => {
                        let ghost fs0 = fs.deep_view();
                        let ghost fv = f@;
                        fs.insert(0, f);
                        proof {
                            assert(fs.deep_view() =~~= seq![fv] + fs0);
                        }
                        Some((fs, k))
                    },
                    None => None,
                }
            } else {
                None
            }
        },
    }
}

/// Read every record.
fn take_rows(s: &Vec<u8>, i: usize) -> (r: Option<Vec<Vec<Vec<u8>>>>)
    requires
        i <= s@.len(),
    ensures
        match r {
            Some(rows) => parse_rows(s@, i as int) == Some(rows.deep_view()),
            None => parse_rows(s@, i as int) is None,
        },
    decreases s@.len() - i,
{
    if i >= s.len() {
        let rows: Vec<Vec<Vec<u8>>> = Vec::new();
        proof {
            assert(rows.deep_view() =~~= Seq::<Seq<Seq<u8>>>::empty());
        }
        Some(rows)
    } else {
        match take_record(s, i) {
            None => None,
            Some((rec, j)) => {
                proof {
                    lemma_parse_record_bounds(s@, i as int);
                }
                match take_rows(s, j) {
                    Some(mut rows) => {
                        let ghost rows0 = rows.deep_view();
                        let ghost recv = rec.deep_view();
                        rows.insert(0, rec);
                        proof {
                            assert(rows.deep_view() =~~= seq![recv] + rows0);
                        }
                        Some(rows)
                    },
                    None => None,
                }
            },
        }
    }
}

/// Parse a delimited-text document into records.  A document the strict
/// reader cannot accept is reported as a malformed row.
pub fn parse_csv(s: &Vec<u8>) -> (r: Result<Vec<Vec<Vec<u8>>>, PipelineError>)
    ensures
        match r {
            Ok(rows) => spec_parse_csv(s@) == Some(rows.deep_view()),
            Err(e) => spec_parse_csv(s@) is None && e == PipelineError::MalformedRow,
        },
{
    match take_rows(s, 0) {
        Some(rows) => Ok(rows),
        None => Err(PipelineError::MalformedRow),
    }
}

/// `raw_end` lands exactly on the first special byte.
proof fn lemma_raw_end_at(s: Seq<u8>, i: int, j: int)
    requires
        0 <= i <= j <= s.len(),
        forall|k: int| i <= k < j ==> s[k] != COMMA && s[k] != LF && s[k] != CR,
        j == s.len() || s[j] == COMMA || s[j] == LF || s[j] == CR,
    ensures
        raw_end(s, i) == j,
    decreases j - i,
{
    if i < j {
        lemma_raw_end_at(s, i + 1, j);
    }
}

/// Parsing a quoted encoding recovers the field: after the escaped body
/// and the closing quote, parsing stops exactly there.
proof fn lemma_parse_quoted_escaped(s: Seq<u8>, i: int, f: Seq<u8>)
    requires
        0 <= i,
        i + escaped(f).len() + 1 <= s.len(),
        s.subrange(i, i + escaped(f).len() + 1) == escaped(f) + seq![QUOTE],
        i + escaped(f).len() + 1 < s.len() ==> s[i + escaped(f).len() + 1] != QUOTE,
    ensures
        parse_quoted(s, i) == Some((f, i + escaped(f).len() + 1)),
    decreases f.len(),
{
    let e = escaped(f);
    let w = e + seq![QUOTE];
    assert forall|k: int| 0 <= k < w.len() implies s[i + k] == w[k] by {
        assert(s.subrange(i, i + e.len() + 1)[k] == s[i + k]);
    }
    if f.len() == 0 {
        assert(w[0] == QUOTE);
        assert(s[i + 0] == w[0]);
        assert(s[i] == QUOTE);
        assert(parse_quoted(s, i) == Some((Seq::<u8>::empty(), i + 1)));
        assert(f =~= Seq::<u8>::empty());
    } else {
        let tail = f.skip(1);
        let et = escaped(tail);
        if f[0] == QUOTE {
            assert(e == seq![QUOTE, QUOTE] + et);
            assert(w[0] == QUOTE && w[1] == QUOTE);
            assert(s[i + 0] == w[0]);
            assert(s[i + 1] == w[1]);
            assert(s[i] == QUOTE);
            assert(s[i + 1] == QUOTE);
            assert forall|k: int| 0 <= k < et.len() + 1 implies s.subrange(
                i + 2,
                i + 2 + et.len() + 1,
            )[k] == (et + seq![QUOTE])[k] by {
                assert(s.subrange(i + 2, i + 2 + et.len() + 1)[k] == s[i + 2 + k]);
                assert(w[k + 2] == (et + seq![QUOTE])[k]);
            }
            assert(s.subrange(i + 2, i + 2 + et.len() + 1) =~= et + seq![QUOTE]);
            lemma_parse_quoted_escaped(s, i + 2, tail);
            assert(seq![QUOTE] + tail =~= f);
        } else {
            assert(e == seq![f[0]] + et);
            assert(w[0] == f[0]);
            assert(s[i + 0] == w[0]);
            assert(s[i] == f[0]);
            assert forall|k: int| 0 <= k < et.len() + 1 implies s.subrange(
                i + 1,
                i + 1 + et.len() + 1,
            )[k] == (et + seq![QUOTE])[k] by {
                assert(s.subrange(i + 1, i + 1 + et.len() + 1)[k] == s[i + 1 + k]);
                assert(w[k + 1] == (et + seq![QUOTE])[k]);
            }
            assert(s.subrange(i + 1, i + 1 + et.len() + 1) =~= et + seq![QUOTE]);
            lemma_parse_quoted_escaped(s, i + 1, tail);
            assert(seq![s[i]] + tail =~= f);
        }
    }
}

/// Parsing an encoded field recovers it when the byte that follows is a
/// delimiter, a terminator, or the end of the input.
proof fn lemma_parse_field_encoded(s: Seq<u8>, i: int, f: Seq<u8>)
    requires
        0 <= i,
        i + encoded_field(f).len() <= s.len(),
        s.subrange(i, i + encoded_field(f).len()) == encoded_field(f),
        i + encoded_field(f).len() == s.len() || s[i + encoded_field(f).len()] == COMMA || s[i
            + encoded_field(f).len()] == LF,
    ensures
        parse_field(s, i) == Some((f, i + encoded_field(f).len())),
{
    let e = encoded_field(f);
    assert forall|k: int| 0 <= k < e.len() implies s[i + k] == e[k] by {
        assert(s.subrange(i, i + e.len())[k] == s[i + k]);
    }
    if field_needs_quoting(f) {
        assert(e == seq![QUOTE] + escaped(f) + seq![QUOTE]);
        assert(e[0] == QUOTE);
        assert(s[i + 0] == e[0]);
        assert(s[i] == QUOTE);
        assert forall|k: int| 0 <= k < escaped(f).len() + 1 implies s.subrange(
            i + 1,
            i + 1 + escaped(f).len() + 1,
        )[k] == (escaped(f) + seq![QUOTE])[k] by {
            assert(s.subrange(i + 1, i + 1 + escaped(f).len() + 1)[k] == s[i + 1 + k]);
            assert(e[k + 1] == (escaped(f) + seq![QUOTE])[k]);
        }
        assert(s.subrange(i + 1, i + 1 + escaped(f).len() + 1) =~= escaped(f) + seq![QUOTE]);
        lemma_parse_quoted_escaped(s, i + 1, f);
    } else {
        assert(e == f);
        assert forall|k: int| i <= k < i + f.len() implies s[k] != COMMA && s[k] != LF && s[k]
            != CR by {
            assert(s[i + (k - i)] == f[k - i]);
            if s[k] == COMMA {
                assert(f.contains(COMMA));
            }
            if s[k] == LF {
                assert(f.contains(LF));
            }
            if s[k] == CR {
                assert(f.contains(CR));
            }
        }
        lemma_raw_end_at(s, i, i + f.len());
        if f.len() > 0 {
            assert(s[i + 0] == e[0]);
            if s[i] == QUOTE {
                assert(f[0] == QUOTE);
                assert(f.contains(QUOTE));
            }
        }
        assert(s.subrange(i, raw_end(s, i)) =~= f);
    }
}

/// Parsing an encoded record recovers its fields and stops just past the
/// terminator.
proof fn lemma_parse_record_encoded(s: Seq<u8>, i: int, fields: Seq<Seq<u8>>)
    requires
        0 <= i,
        fields.len() >= 1,
        i + encoded_record(fields).len() <= s.len(),
        s.subrange(i, i + encoded_record(fields).len()) == encoded_record(fields),
    ensures
        parse_record(s, i) == Some((fields, i + encoded_record(fields).len())),
    decreases fields.len(),
{
    let er = encoded_record(fields);
    let e0 = encoded_field(fields[0]);
    let m = fields.map_values(|f: Seq<u8>| encoded_field(f));
    assert(m[0] == e0);
    assert forall|k: int| 0 <= k < er.len() implies s[i + k] == er[k] by {
        assert(s.subrange(i, i + er.len())[k] == s[i + k]);
    }
    if fields.len() == 1 {
        assert(m =~= seq![e0]);
        assert(encoded_fields(fields) == e0);
        assert(er == e0 + seq![LF]);
        assert forall|k: int| 0 <= k < e0.len() implies s.subrange(i, i + e0.len())[k] == e0[k] by {
            assert(s.subrange(i, i + e0.len())[k] == s[i + k]);
            assert(er[k] == e0[k]);
        }
        assert(s.subrange(i, i + e0.len()) =~= e0);
        assert(er[e0.len() as int] == LF);
        assert(s[i + e0.len()] == er[e0.len() as int]);
        lemma_parse_field_encoded(s, i, fields[0]);
        assert(seq![fields[0]] =~= fields);
    } else {
        assert(m.skip(1) =~= fields.skip(1).map_values(|f: Seq<u8>| encoded_field(f)));
        assert(encoded_fields(fields) == e0 + seq![COMMA] + encoded_fields(fields.skip(1)));
        let rest = encoded_record(fields.skip(1));
        assert(rest == encoded_fields(fields.skip(1)) + seq![LF]);
        assert(er =~= e0 + seq![COMMA] + rest);
        assert forall|k: int| 0 <= k < e0.len() implies s.subrange(i, i + e0.len())[k] == e0[k] by {
            assert(s.subrange(i, i + e0.len())[k] == s[i + k]);
            assert(er[k] == e0[k]);
        }
        assert(s.subrange(i, i + e0.len()) =~= e0);
        assert(er[e0.len() as int] == COMMA);
        assert(s[i + e0.len()] == er[e0.len() as int]);
        lemma_parse_field_encoded(s, i, fields[0]);
        let j = i + e0.len();
        assert forall|k: int| 0 <= k < rest.len() implies s.subrange(j + 1, j + 1 + rest.len())[k]
            == rest[k] by {
            assert(s.subrange(j + 1, j + 1 + rest.len())[k] == s[j + 1 + k]);
            assert(er[e0.len() + 1 + k] == rest[k]);
        }
        assert(s.subrange(j + 1, j + 1 + rest.len()) =~= rest);
        lemma_parse_record_encoded(s, j + 1, fields.skip(1));
        assert(seq![fields[0]] + fields.skip(1) =~= fields);
    }
}

/// Parsing an encoded row set recovers every record.
proof fn lemma_parse_rows_encoded(s: Seq<u8>, i: int, rows: Seq<Seq<Seq<u8>>>)
    requires
        0 <= i <= s.len(),
        forall|k: int| 0 <= k < rows.len() ==> (#[trigger] rows[k]).len() >= 1,
        i + encoded_rows(rows).len() == s.len(),
        s.subrange(i, s.len() as int) == encoded_rows(rows),
    ensures
        parse_rows(s, i) == Some(rows),
    decreases rows.len(),
{
    if rows.len() == 0 {
        assert(rows =~= Seq::<Seq<Seq<u8>>>::empty());
    } else {
        let er = encoded_rows(rows);
        let r0 = encoded_record(rows[0]);
        let rest = encoded_rows(rows.skip(1));
        assert(er == r0 + rest);
        assert forall|k: int| 0 <= k < er.len() implies s[i + k] == er[k] by {
            assert(s.subrange(i, s.len() as int)[k] == s[i + k]);
        }
        assert forall|k: int| 0 <= k < r0.len() implies s.subrange(i, i + r0.len())[k] == r0[k] by {
            assert(s.subrange(i, i + r0.len())[k] == s[i + k]);
            assert(er[k] == r0[k]);
        }
        assert(s.subrange(i, i + r0.len()) =~= r0);
        lemma_parse_record_encoded(s, i, rows[0]);
        let j = i + r0.len();
        assert forall|k: int| 0 <= k < rest.len() implies s.subrange(j, s.len() as int)[k]
            == rest[k] by {
            assert(s.subrange(j, s.len() as int)[k] == s[j + k]);
            assert(er[r0.len() + k] == rest[k]);
        }
        assert(s.subrange(j, s.len() as int) =~= rest);
        lemma_parse_rows_encoded(s, j, rows.skip(1));
        assert(seq![rows[0]] + rows.skip(1) =~= rows);
    }
}

/// Round-trip law for whole documents: a row set whose records each hold
/// at least one field is recovered exactly by parsing its encoding.
pub proof fn lemma_csv_round_trip(rows: Seq<Seq<Seq<u8>>>)
    requires
        forall|k: int| 0 <= k < rows.len() ==> (#[trigger] rows[k]).len() >= 1,
    ensures
        spec_parse_csv(encoded_rows(rows)) == Some(rows),
{
    let s = encoded_rows(rows);
    assert(s.subrange(0, s.len() as int) =~= s);
    lemma_parse_rows_encoded(s, 0, rows);
}

/// Round-trip law for one field: however it was quoted and escaped, the
/// encoded form parses back to the original value.
pub proof fn lemma_field_round_trip(f: Seq<u8>)
    ensures
        parse_field(encoded_field(f) + seq![LF], 0) == Some(
            (f, encoded_field(f).len() as int),
        ),
{
    let s = encoded_field(f) + seq![LF];
    assert(s.subrange(0, encoded_field(f).len() as int) =~= encoded_field(f));
    assert(s[encoded_field(f).len() as int] == LF);
    lemma_parse_field_encoded(s, 0, f);
}

} // verus!
