//! Rendering of one line of the task-list report: `- [x] 3: buy milk`,
//! with a space in place of the `x` while the task is open.

use vstd::prelude::*;
use crate::text::{append_bytes, append_lit, dec_digits, lit_bytes, push_dec};

verus! {

/// The decimal rendering of a possibly negative number.
pub open spec fn signed_dec(n: int) -> Seq<u8> {
    if n < 0 {
        lit_bytes("-") + dec_digits((-n) as nat)
    } else {
        dec_digits(n as nat)
    }
}

/// One line of the listing: the done marker, the task id, and the
/// description.
pub open spec fn todo_line(id: int, description: Seq<u8>, done: bool) -> Seq<u8> {
    lit_bytes("- [") + (if done {
        lit_bytes("x")
    } else {
        lit_bytes(" ")
    }) + lit_bytes("] ") + signed_dec(id) + lit_bytes(": ") + description
}

/// Render one line of the listing.
pub fn format_todo_line(id: i64, description: &Vec<u8>, done: bool) -> (r: Vec<u8>)
    ensures
        r@ == todo_line(id as int, description@, done),
{
    let mut out: Vec<u8> = Vec::new();
    append_lit(&mut out, "- [");
    if done {
        append_lit(&mut out, "x");
    } else {
        append_lit(&mut out, " ");
    }
    append_lit(&mut out, "] ");
    if id < 0 {
        append_lit(&mut out, "-");
        let magnitude: u64 = ((-(id + 1)) as u64) + 1;
        proof {
            assert(magnitude == -(id as int));
        }
        push_dec(&mut out, magnitude);
    } else {
        push_dec(&mut out, id as u64);
    }
    append_lit(&mut out, ": ");
    append_bytes(&mut out, description);
    out
}

} // verus!
