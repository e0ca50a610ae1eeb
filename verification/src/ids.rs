//! Identifier generation: the wall clock's nanosecond timestamp rendered in
//! lowercase hexadecimal.

use crate::codec::chars_of;
use std::time::SystemTime;
use std::time::UNIX_EPOCH;
use vstd::prelude::*;

verus! {

/// The lowercase hexadecimal digit with value `d`.
pub open spec fn hex_digit(d: int) -> char {
    if d < 10 {
        ((48 + d) as u8) as char
    } else {
        ((87 + d) as u8) as char
    }
}

/// The lowercase hexadecimal digits of `n`, most significant first.
pub open spec fn hex_digits(n: int) -> Seq<char>
    decreases n,
{
    if n <= 0 {
        Seq::empty()
    } else {
        hex_digits(n / 16).push(hex_digit(n % 16))
    }
}

/// The lowercase hexadecimal rendering of a nonnegative number: its digits,
/// or "0".
pub open spec fn hex_of(n: int) -> Seq<char> {
    if n == 0 {
        seq!['0']
    } else {
        hex_digits(n)
    }
}

/// Relies on `SystemTime::now` and `duration_since`: nanoseconds since the
/// Unix epoch, or zero for a clock before it. Nothing is assumed of the
/// value.
#[verifier::external_body]
fn now_unix_nanos() -> (r: u128) {
    SystemTime::now().duration_since(UNIX_EPOCH).map(|d| d.as_nanos()).unwrap_or(0)
}

/// Append the hexadecimal digits of a positive number.
fn push_hex_digits(out: &mut Vec<u8>, n: u128)
    ensures
        final(out)@ == old(out)@ + hex_digits(n as int).map(|i: int, ch: char| ch as u8),
        forall|i: int|
            old(out)@.len() <= i < final(out)@.len() ==> #[trigger] final(out)@[i] < 128,
    decreases n,
{
    if n == 0 {
        proof {
            assert(out@ =~= out@ + hex_digits(0).map(|i: int, ch: char| ch as u8));
        }
        return ;
    }
    let ghost base = out@;
    push_hex_digits(out, n / 16);
    let d: u8 = (n % 16) as u8;
    let b: u8 = if d < 10 {
        48 + d
    } else {
        87 + d
    };
    out.push(b);
    proof {
        assert(b as char == hex_digit(n as int % 16));
        assert(out@ =~= base + hex_digits(n as int).map(|i: int, ch: char| ch as u8));
    }
}

/// Render `n` in lowercase hexadecimal.
pub fn to_hex(n: u128) -> (r: String)
    ensures
        r@ == hex_of(n as int),
{
    let mut out: Vec<u8> = Vec::new();
    if n == 0 {
        out.push(48);
        proof {
            assert(chars_of(out@) =~= hex_of(0));
        }
    } else {
        push_hex_digits(&mut out, n);
        proof {
            assert(chars_of(out@) =~= hex_of(n as int)) by {
                let m = hex_digits(n as int).map(|i: int, ch: char| ch as u8);
                assert(out@ =~= m);
                assert forall|i: int| 0 <= i < m.len() implies chars_of(m)[i] == hex_digits(
                    n as int,
                )[i] by {
                    lemma_hex_digit_ascii(n as int, i);
                    let ch = hex_digits(n as int)[i];
                    assert(m[i] == ch as u8);
                    assert((ch as u8) as char == ch);
                }
            }
        }
    }
    crate::codec::ascii_to_string(out)
}

/// Hexadecimal digit characters are ASCII.
proof fn lemma_hex_digit_ascii(n: int, i: int)
    requires
        0 <= i < hex_digits(n).len(),
    ensures
        48 <= (hex_digits(n)[i] as int) && (hex_digits(n)[i] as int) < 123,
    decreases n,
{
    if n > 0 && i < hex_digits(n / 16).len() {
        lemma_hex_digit_ascii(n / 16, i);
    }
}

/// A fresh identifier: the wall clock's nanosecond timestamp in lowercase
/// hexadecimal. Different calls may observe different times, so nothing is
/// promised beyond the shape of the result.
pub fn generate_id() -> (r: String)
    ensures
        exists|n: int| 0 <= n && r@ == hex_of(n),
{
    let t = now_unix_nanos();
    let r = to_hex(t);
    proof {
        assert(0 <= t as int && r@ == hex_of(t as int));
    }
    r
}

} // verus!
