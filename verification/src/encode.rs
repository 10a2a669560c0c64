//! Delimited-text encoding: the quoting rules for one field, and the
//! rendering of records and whole row sets.
//!
//! A field is quoted exactly when it contains the delimiter, a quote, or a
//! line break; embedded quotes are doubled.  Records are joined by commas
//! and each record, the header included, is terminated by one line feed,
//! so the output never ends in a blank record.

use vstd::prelude::*;
use crate::text::{COMMA, CR, LF, QUOTE, append_bytes, joined, lemma_joined_push};

verus! {

/// A field must be wrapped in quotes iff it contains the delimiter, a
/// quote, or a line break.
pub open spec fn field_needs_quoting(f: Seq<u8>) -> bool {
    f.contains(COMMA) || f.contains(QUOTE) || f.contains(LF) || f.contains(CR)
}

/// The quote-doubling escape of a field body.
pub open spec fn escaped(f: Seq<u8>) -> Seq<u8>
    decreases f.len(),
{
    if f.len() == 0 {
        Seq::empty()
    } else {
        (if f[0] == QUOTE {
            seq![QUOTE, QUOTE]
        } else {
            seq![f[0]]
        }) + escaped(f.skip(1))
    }
}

/// The encoding of one field: quoted and escaped when necessary, verbatim
/// otherwise.
pub open spec fn encoded_field(f: Seq<u8>) -> Seq<u8> {
    if field_needs_quoting(f) {
        seq![QUOTE] + escaped(f) + seq![QUOTE]
    } else {
        f
    }
}

/// The fields of one record, encoded and joined by the delimiter.
pub open spec fn encoded_fields(r: Seq<Seq<u8>>) -> Seq<u8> {
    joined(r.map_values(|f: Seq<u8>| encoded_field(f)), seq![COMMA])
}

/// One full record: its fields followed by the record terminator.
pub open spec fn encoded_record(r: Seq<Seq<u8>>) -> Seq<u8> {
    encoded_fields(r) + seq![LF]
}

/// A whole row set, one record after the other.
pub open spec fn encoded_rows(rows: Seq<Seq<Seq<u8>>>) -> Seq<u8>
    decreases rows.len(),
{
    if rows.len() == 0 {
        Seq::empty()
    } else {
        encoded_record(rows[0]) + encoded_rows(rows.skip(1))
    }
}

/// Escaping distributes over appending one byte.
pub proof fn lemma_escaped_push(f: Seq<u8>, b: u8)
    ensures
        escaped(f.push(b)) == escaped(f) + (if b == QUOTE {
            seq![QUOTE, QUOTE]
        } else {
            seq![b]
        }),
    decreases f.len(),
{
    let tail: Seq<u8> = if b == QUOTE {
        seq![QUOTE, QUOTE]
    } else {
        seq![b]
    };
    if f.len() == 0 {
        assert(f.push(b) =~= seq![b]);
        assert(seq![b].skip(1) =~= Seq::<u8>::empty());
        assert(escaped(Seq::<u8>::empty()) == Seq::<u8>::empty());
        assert(escaped(seq![b]) =~= tail);
        assert(escaped(f.push(b)) =~= escaped(f) + tail);
    } else {
        lemma_escaped_push(f.skip(1), b);
        assert(f.push(b).skip(1) =~= f.skip(1).push(b));
        assert(f.push(b)[0] == f[0]);
        let head: Seq<u8> = if f[0] == QUOTE {
            seq![QUOTE, QUOTE]
        } else {
            seq![f[0]]
        };
        assert(escaped(f.push(b)) == head + (escaped(f.skip(1)) + tail));
        assert(head + (escaped(f.skip(1)) + tail) =~= (head + escaped(f.skip(1))) + tail);
    }
}

/// Appending one more record extends the rendering of a row set.
pub proof fn lemma_encoded_rows_push(rows: Seq<Seq<Seq<u8>>>, r: Seq<Seq<u8>>)
    ensures
        encoded_rows(rows.push(r)) == encoded_rows(rows) + encoded_record(r),
    decreases rows.len(),
{
    if rows.len() == 0 {
        assert(rows.push(r) =~= seq![r]);
        assert(seq![r].skip(1) =~= Seq::<Seq<Seq<u8>>>::empty());
        assert(encoded_rows(Seq::<Seq<Seq<u8>>>::empty()) == Seq::<u8>::empty());
        assert(encoded_rows(seq![r]) =~= encoded_record(r));
        assert(encoded_rows(rows.push(r)) =~= encoded_rows(rows) + encoded_record(r));
    } else {
        lemma_encoded_rows_push(rows.skip(1), r);
        assert(rows.push(r).skip(1) =~= rows.skip(1).push(r));
        assert(rows.push(r)[0] == rows[0]);
        assert(encoded_rows(rows.push(r)) == encoded_record(rows[0]) + (encoded_rows(rows.skip(1))
            + encoded_record(r)));
        assert(encoded_record(rows[0]) + (encoded_rows(rows.skip(1)) + encoded_record(r)) =~= (
        encoded_record(rows[0]) + encoded_rows(rows.skip(1))) + encoded_record(r));
    }
}

/// Whether a field needs quoting.
pub fn needs_quoting(f: &Vec<u8>) -> (r: bool)
    ensures
        r == field_needs_quoting(f@),
{
    let mut i: usize = 0;
    while i < f.len()
        invariant
            i <= f@.len(),
            forall|k: int|
                0 <= k < i ==> f@[k] != COMMA && f@[k] != QUOTE && f@[k] != LF && f@[k] != CR,
        decreases f@.len() - i,
    {
        let b = f[i];
        if b == COMMA || b == QUOTE || b == LF || b == CR {
            return true;
        }
        i += 1;
    }
    false
}

/// Encode one field, quoting and escaping as the rules demand.
pub fn encode_field(f: &Vec<u8>) -> (r: Vec<u8>)
    ensures
        r@ == encoded_field(f@),
{
    if !needs_quoting(f) {
        let mut out: Vec<u8> = Vec::new();
        append_bytes(&mut out, f);
        return out;
    }
    let mut out: Vec<u8> = Vec::new();
    out.push(QUOTE);
    let mut i: usize = 0;
    while i < f.len()
        invariant
            i <= f@.len(),
            out@ == seq![QUOTE] + escaped(f@.take(i as int)),
        decreases f@.len() - i,
    {
        let b = f[i];
        if b == QUOTE {
            out.push(QUOTE);
            out.push(QUOTE);
        } else {
            out.push(b);
        }
        proof {
            lemma_escaped_push(f@.take(i as int), f@[i as int]);
            assert(f@.take(i + 1) =~= f@.take(i as int).push(f@[i as int]));
            if f@[i as int] == QUOTE {
                assert(out@ =~= seq![QUOTE] + escaped(f@.take(i + 1)));
            } else {
                assert(out@ =~= seq![QUOTE] + escaped(f@.take(i + 1)));
            }
        }
        i += 1;
    }
    out.push(QUOTE);
    proof {
        assert(f@.take(f@.len() as int) =~= f@);
        assert(out@ =~= seq![QUOTE] + escaped(f@) + seq![QUOTE]);
    }
    out
}

/// Encode one record: encoded fields joined by the delimiter, then the
/// record terminator.
pub fn encode_record(fields: &Vec<Vec<u8>>) -> (r: Vec<u8>)
    ensures
        r@ == encoded_record(fields.deep_view()),
{
    let ghost dv = fields.deep_view();
    let mut out: Vec<u8> = Vec::new();
    let mut i: usize = 0;
    while i < fields.len()
        invariant
            i <= fields@.len(),
            dv == fields.deep_view(),
            dv.len() == fields@.len(),
            forall|k: int| 0 <= k < dv.len() ==> dv[k] == #[trigger] fields@[k]@,
            out@ == joined(dv.take(i as int).map_values(|f: Seq<u8>| encoded_field(f)), seq![
                COMMA,
            ]),
        decreases fields@.len() - i,
    {
        if i > 0 {
            out.push(COMMA);
        }
        let ef = encode_field(&fields[i]);
        append_bytes(&mut out, &ef);
        proof {
            let parts = dv.take(i as int).map_values(|f: Seq<u8>| encoded_field(f));
            lemma_joined_push(parts, seq![COMMA], encoded_field(dv[i as int]));
            assert(dv.take(i + 1).map_values(|f: Seq<u8>| encoded_field(f)) =~= parts.push(
                encoded_field(dv[i as int]),
            ));
            if i > 0 {
                assert(out@ =~= joined(parts, seq![COMMA]) + seq![COMMA] + encoded_field(
                    dv[i as int],
                ));
            } else {
                assert(out@ =~= encoded_field(dv[0]));
            }
        }
        i += 1;
    }
    out.push(LF);
    proof {
        assert(dv.take(dv.len() as int) =~= dv);
        assert(out@ =~= encoded_fields(dv) + seq![LF]);
    }
    out
}

/// Encode a whole row set, one record per line.
pub fn encode_rows(rows: &Vec<Vec<Vec<u8>>>) -> (r: Vec<u8>)
    ensures
        r@ == encoded_rows(rows.deep_view()),
{
    let ghost dv = rows.deep_view();
    let mut out: Vec<u8> = Vec::new();
    let mut i: usize = 0;
    while i < rows.len()
        invariant
            i <= rows@.len(),
            dv == rows.deep_view(),
            dv.len() == rows@.len(),
            forall|k: int| 0 <= k < dv.len() ==> dv[k] == #[trigger] rows@[k].deep_view(),
            out@ == encoded_rows(dv.take(i as int)),
        decreases rows@.len() - i,
    {
        let er = encode_record(&rows[i]);
        append_bytes(&mut out, &er);
        proof {
            lemma_encoded_rows_push(dv.take(i as int), dv[i as int]);
            assert(dv.take(i + 1) =~= dv.take(i as int).push(dv[i as int]));
        }
        i += 1;
    }
    proof {
        assert(dv.take(dv.len() as int) =~= dv);
    }
    out
}

} // verus!
