//! Identifiers of responses and calls.
use vstd::prelude::*;

use crate::sampling::{xorshift, Xorshift64};
use crate::text::{in_base, law_digits_are_unique, push_hex, push_six_digits, six_digits};

verus! {

/// The 24 bits that follow from a time.
pub open spec fn noise(ts: u64) -> u64 {
    xorshift(ts ^ 0xdead_beef_cafe_babe) & 0xff_ffff
}

/// The identifier made at second `ts`: the time in hexadecimal, six digits that
/// follow from it.
pub open spec fn id_text(prefix: Seq<char>, ts: u64) -> Seq<char> {
    prefix + "-"@ + in_base(ts as nat, 16) + six_digits(noise(ts) as nat)
}

/// An identifier, made at second `ts`.
pub fn gen_id_with_prefix(prefix: &str, ts: u64) -> (id: String)
    ensures
        id@ == id_text(prefix@, ts),
{
    let mut rng = Xorshift64::new(ts ^ 0xdead_beef_cafe_babe);
    let noise: u64 = rng.next_u64() & 0xff_ffff;
    let mut s = String::new();
    s.append(prefix);
    s.append("-");
    push_hex(&mut s, ts);
    push_six_digits(&mut s, noise);
    assert(s@ =~= id_text(prefix@, ts));
    s
}

/// The identifier of a completion, made at second `ts`.
pub fn gen_id(ts: u64) -> (id: String)
    ensures
        id@ == id_text("cmpl"@, ts),
{
    gen_id_with_prefix("cmpl", ts)
}

/// Identifiers with the same prefix tell the seconds apart in which they were made.
pub proof fn law_ids_tell_seconds_apart(prefix: Seq<char>, a: u64, b: u64)
    requires
        id_text(prefix, a) == id_text(prefix, b),
    ensures
        a == b,
{
    let x = id_text(prefix, a);
    let n = prefix.len() + "-"@.len();
    assert(x.subrange(n as int, x.len() - 6) =~= in_base(a as nat, 16));
    assert(x.subrange(n as int, x.len() - 6) =~= in_base(b as nat, 16));
    law_digits_are_unique(a as nat, b as nat, 16);
}

} // verus!
