//! Byte-level building blocks shared by the statement builders and the
//! delimited-text codec: notable byte values, literal-to-byte conversion,
//! and joining byte sequences with a separator.

use vstd::prelude::*;
use vstd::string::StrSliceExecFns;

verus! {

/// The field delimiter, `,`.
pub const COMMA: u8 = 44;

/// The quote character, `"`.
pub const QUOTE: u8 = 34;

/// Line feed, the record terminator.
pub const LF: u8 = 10;

/// Carriage return; never emitted bare, always quoted inside a field.
pub const CR: u8 = 13;

/// The bytes of a string literal, one byte per character.  Only ever
/// applied to ASCII literals, whose characters are their own bytes.
pub open spec fn lit_bytes(s: &str) -> Seq<u8> {
    Seq::new(s@.len(), |i: int| s@[i] as u8)
}

/// `parts` concatenated with `sep` between consecutive parts.
pub open spec fn joined(parts: Seq<Seq<u8>>, sep: Seq<u8>) -> Seq<u8>
    decreases parts.len(),
{
    if parts.len() == 0 {
        Seq::empty()
    } else if parts.len() == 1 {
        parts[0]
    } else {
        parts[0] + sep + joined(parts.skip(1), sep)
    }
}

/// Appending one more part extends a join by one separator and the part.
pub proof fn lemma_joined_push(parts: Seq<Seq<u8>>, sep: Seq<u8>, x: Seq<u8>)
    ensures
        parts.len() == 0 ==> joined(parts.push(x), sep) == x,
        parts.len() > 0 ==> joined(parts.push(x), sep) == joined(parts, sep) + sep + x,
    decreases parts.len(),
{
    if parts.len() == 0 {
        assert(parts.push(x) =~= seq![x]);
    } else if parts.len() == 1 {
        assert(parts.push(x)[0] == parts[0]);
        assert(parts.push(x).skip(1) =~= seq![x]);
        assert(joined(seq![x], sep) == x);
        assert(joined(parts.push(x), sep) == parts[0] + sep + x);
    } else {
        lemma_joined_push(parts.skip(1), sep, x);
        assert(parts.push(x).skip(1) =~= parts.skip(1).push(x));
        assert(parts.push(x)[0] == parts[0]);
        assert(joined(parts.push(x), sep) == parts[0] + sep + (joined(parts.skip(1), sep) + sep
            + x));
        assert(parts[0] + sep + (joined(parts.skip(1), sep) + sep + x) =~= (parts[0] + sep
            + joined(parts.skip(1), sep)) + sep + x);
    }
}

/// Append the bytes of an ASCII literal to a buffer.
pub fn append_lit(out: &mut Vec<u8>, s: &str)
    ensures
        final(out)@ == old(out)@ + lit_bytes(s),
{
    let n = s.unicode_len();
    let mut i: usize = 0;
    while i < n
        invariant
            i <= n,
            n == s@.len(),
            out@ == old(out)@ + lit_bytes(s).take(i as int),
        decreases n - i,
    {
        let c = s.get_char(i);
        out.push(#[verifier::truncate] (c as u8));
        proof {
            assert(lit_bytes(s).take(i + 1) =~= lit_bytes(s).take(i as int).push(
                s@[i as int] as u8,
            ));
        }
        i += 1;
    }
    proof {
        assert(lit_bytes(s).take(n as int) =~= lit_bytes(s));
    }
}

/// Append a byte buffer to another.
pub fn append_bytes(out: &mut Vec<u8>, b: &Vec<u8>)
    ensures
        final(out)@ == old(out)@ + b@,
{
    let mut i: usize = 0;
    while i < b.len()
        invariant
            i <= b@.len(),
            out@ == old(out)@ + b@.take(i as int),
        decreases b@.len() - i,
    {
        out.push(b[i]);
        proof {
            assert(b@.take(i + 1) =~= b@.take(i as int).push(b@[i as int]));
        }
        i += 1;
    }
    proof {
        assert(b@.take(b@.len() as int) =~= b@);
    }
}

/// Whether two byte buffers hold the same bytes.
pub fn bytes_eq(a: &Vec<u8>, b: &Vec<u8>) -> (r: bool)
    ensures
        r == (a@ == b@),
{
    if a.len() != b.len() {
        assert(a@ != b@);
        return false;
    }
    let mut i: usize = 0;
    while i < a.len()
        invariant
            i <= a@.len(),
            a@.len() == b@.len(),
            forall|k: int| 0 <= k < i ==> a@[k] == b@[k],
        decreases a@.len() - i,
    {
        if a[i] != b[i] {
            return false;
        }
        i += 1;
    }
    proof {
        assert(a@ =~= b@);
    }
    true
}

/// The decimal digits of `n`, most significant first.
pub open spec fn dec_digits(n: nat) -> Seq<u8>
    decreases n,
{
    if n < 10 {
        seq![(48 + n) as u8]
    } else {
        dec_digits(n / 10).push((48 + n % 10) as u8)
    }
}

/// Append the decimal rendering of `n` to a buffer.
pub fn push_dec(out: &mut Vec<u8>, n: u64)
    ensures
        final(out)@ == old(out)@ + dec_digits(n as nat),
    decreases n,
{
    if n < 10 {
        out.push(48 + n as u8);
        proof {
            assert(old(out)@ + dec_digits(n as nat) =~= old(out)@.push((48 + n) as u8));
        }
    } else {
        push_dec(out, n / 10);
        out.push(48 + (n % 10) as u8);
        proof {
            assert(old(out)@ + dec_digits(n as nat) =~= (old(out)@ + dec_digits((n / 10) as nat))
                .push((48 + n % 10) as u8));
        }
    }
}

} // verus!
