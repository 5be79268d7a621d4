//! Byte-level helpers: digit runs, prefixes and UTF-8 text.
use crate::frame::{digits_value, is_digit, lemma_digits_value_grows, lemma_digits_value_step, NINE, ZERO};
use vstd::prelude::*;
use vstd::utf8::*;

verus! {

pub open spec fn all_digits(t: Seq<u8>) -> bool {
    forall|i: int| 0 <= i < t.len() ==> is_digit(#[trigger] t[i])
}

pub open spec fn starts_with(s: Seq<u8>, p: Seq<u8>) -> bool {
    p.len() <= s.len() && s.take(p.len() as int) == p
}

pub open spec fn all_ascii(s: Seq<u8>) -> bool {
    forall|i: int| 0 <= i < s.len() ==> #[trigger] s[i] < 0x80
}

/// ASCII bytes are valid UTF-8.
pub proof fn lemma_ascii_valid_utf8(s: Seq<u8>)
    requires
        all_ascii(s),
    ensures
        valid_utf8(s),
    decreases s.len(),
{
    if s.len() > 0 {
        let b = s[0];
        assert(b < 0x80);
        assert((b & 0x7f) as u32 <= 0x7f) by (bit_vector);
        assert(all_ascii(s.drop_first()));
        lemma_ascii_valid_utf8(s.drop_first());
        assert(pop_first_scalar(s) =~= s.drop_first());
    }
}

/// Reads a run of ASCII digits as a number no larger than `limit`.
pub fn digits_to_u64(t: &[u8], limit: u64) -> (r: Option<u64>)
    ensures
        r == (if all_digits(t@) && digits_value(t@) <= limit {
            Some(digits_value(t@) as u64)
        } else {
            None::<u64>
        }),
{
    let len = t.len();
    let mut v: u64 = 0;
    let mut i: usize = 0;
    while i < len
        invariant
            i <= len,
            len == t@.len(),
            forall|m: int| 0 <= m < i ==> is_digit(#[trigger] t@[m]),
            v == digits_value(t@.take(i as int)),
            v <= limit,
        decreases len - i,
    {
        let c = t[i];
        if c < ZERO || c > NINE {
            return None;
        }
        let d = (c - ZERO) as u64;
        proof {
            lemma_digits_value_step(t@, i as int);
        }
        if d > limit || v > (limit - d) / 10 {
            proof {
                if all_digits(t@) {
                    lemma_digits_value_grows(t@, i as int + 1, len as int);
                    assert(t@.take(len as int) =~= t@);
                    assert(v * 10 + d > limit) by (nonlinear_arith)
                        requires
                            d > limit || v > (limit - d) / 10,
                            d <= 9,
                    ;
                }
            }
            return None;
        }
        assert(v * 10 + d <= limit) by (nonlinear_arith)
            requires
                v <= (limit - d) / 10,
                d <= limit,
        ;
        v = v * 10 + d;
        i = i + 1;
    }
    assert(t@.take(len as int) =~= t@);
    Some(v)
}

/// Whether `s` opens with the bytes of `p`.
pub fn has_prefix(s: &[u8], p: &[u8]) -> (r: bool)
    ensures
        r == starts_with(s@, p@),
{
    if p.len() > s.len() {
        return false;
    }
    let mut i: usize = 0;
    while i < p.len()
        invariant
            i <= p@.len() <= s@.len(),
            forall|m: int| 0 <= m < i ==> s@[m] == p@[m],
        decreases p@.len() - i,
    {
        if s[i] != p[i] {
            assert(s@.take(p@.len() as int)[i as int] != p@[i as int]);
            return false;
        }
        i = i + 1;
    }
    assert(s@.take(p@.len() as int) =~= p@);
    true
}

/// Relies on `std::str::from_utf8`: it accepts exactly the valid UTF-8 byte
/// sequences, and then views the same bytes as text.
#[verifier::external_body]
pub(crate) fn utf8_text<'a>(b: &'a [u8]) -> (r: Option<&'a str>)
    ensures
        r is Some <==> valid_utf8(b@),
        r matches Some(s) ==> encode_utf8(s@) == b@,
{
    std::str::from_utf8(b).ok()
}

} // verus!
