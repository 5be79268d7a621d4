//! The frame: `<decimal length>:<payload><tag>`, shared by both decoders and the encoder.
use vstd::prelude::*;

verus! {

pub const COLON: u8 = 0x3a;

pub const ZERO: u8 = 0x30;

pub const NINE: u8 = 0x39;

pub const MINUS: u8 = 0x2d;

pub const PLUS: u8 = 0x2b;

pub const TAG_BOOL: u8 = 0x21;

pub const TAG_STR: u8 = 0x2c;

pub const TAG_INT: u8 = 0x23;

pub const TAG_FLOAT: u8 = 0x5e;

pub const TAG_NULL: u8 = 0x7e;

pub const TAG_LIST: u8 = 0x5d;

pub const TAG_DICT: u8 = 0x7d;

pub open spec fn is_digit(b: u8) -> bool {
    ZERO <= b && b <= NINE
}

/// How many ASCII digits open `s`.
pub open spec fn digit_run(s: Seq<u8>) -> nat
    decreases s.len(),
{
    if s.len() > 0 && is_digit(s[0]) {
        1 + digit_run(s.drop_first())
    } else {
        0
    }
}

/// The number that a run of ASCII digits spells, most significant digit first.
pub open spec fn digits_value(s: Seq<u8>) -> nat
    decreases s.len(),
{
    if s.len() == 0 {
        0
    } else {
        digits_value(s.drop_last()) * 10 + (s.last() - ZERO) as nat
    }
}

/// The decimal text of `n`, without leading zeros.
pub open spec fn decimal(n: nat) -> Seq<u8>
    decreases n,
{
    if n < 10 {
        seq![(ZERO + n) as u8]
    } else {
        decimal(n / 10).push((ZERO + n % 10) as u8)
    }
}

/// The frame that carries `payload` under `tag`.
pub open spec fn frame(payload: Seq<u8>, tag: u8) -> Seq<u8> {
    decimal(payload.len()) + seq![COLON] + payload + seq![tag]
}

#[derive(Clone, Copy, Debug, PartialEq, Eq, Structural)]
pub enum FrameError {
    /// The input does not open with one or more digits and a colon.
    Header,
    /// The declared length runs past the end of the input.
    Truncated,
}

/// Where the frame that opens `s` lies: `Ok((start, end))` puts its payload at
/// `s[start..end]`, its tag at `s[end]` and what follows it at `s[end + 1..]`.
pub open spec fn frame_bounds(s: Seq<u8>) -> Result<(int, int), FrameError> {
    let k = digit_run(s) as int;
    if k == 0 || k >= s.len() || s[k] != COLON {
        Err(FrameError::Header)
    } else if k + 1 + digits_value(s.take(k)) + 1 > s.len() {
        Err(FrameError::Truncated)
    } else {
        Ok((k + 1, k + 1 + digits_value(s.take(k))))
    }
}

pub open spec fn frame_payload(s: Seq<u8>) -> Seq<u8>
    recommends
        frame_bounds(s) is Ok,
{
    let (a, b) = frame_bounds(s)->Ok_0;
    s.subrange(a, b)
}

pub open spec fn frame_tag(s: Seq<u8>) -> u8
    recommends
        frame_bounds(s) is Ok,
{
    s[frame_bounds(s)->Ok_0.1]
}

pub open spec fn frame_rest(s: Seq<u8>) -> Seq<u8>
    recommends
        frame_bounds(s) is Ok,
{
    s.skip(frame_bounds(s)->Ok_0.1 + 1)
}

pub proof fn lemma_digit_run(s: Seq<u8>, k: int)
    requires
        0 <= k <= s.len(),
        forall|j: int| 0 <= j < k ==> is_digit(#[trigger] s[j]),
        k == s.len() || !is_digit(s[k]),
    ensures
        digit_run(s) == k,
    decreases k,
{
    if k > 0 {
        lemma_digit_run(s.drop_first(), k - 1);
    }
}

pub proof fn lemma_digits_value_step(s: Seq<u8>, i: int)
    requires
        0 <= i < s.len(),
    ensures
        digits_value(s.take(i + 1)) == digits_value(s.take(i)) * 10 + (s[i] - ZERO) as nat,
{
    assert(s.take(i + 1).drop_last() =~= s.take(i));
}

pub proof fn lemma_digits_value_grows(s: Seq<u8>, i: int, j: int)
    requires
        0 <= i <= j <= s.len(),
        forall|m: int| 0 <= m < s.len() ==> is_digit(#[trigger] s[m]),
    ensures
        digits_value(s.take(i)) <= digits_value(s.take(j)),
    decreases j - i,
{
    if i < j {
        lemma_digits_value_grows(s, i, j - 1);
        lemma_digits_value_step(s, j - 1);
    }
}

/// Every byte of a decimal text is a digit, and the text spells the number.
pub proof fn lemma_decimal(n: nat)
    ensures
        decimal(n).len() >= 1,
        forall|j: int| 0 <= j < decimal(n).len() ==> is_digit(#[trigger] decimal(n)[j]),
        digits_value(decimal(n)) == n,
    decreases n,
{
    if n >= 10 {
        lemma_decimal(n / 10);
        let d = decimal(n);
        assert(d.drop_last() =~= decimal(n / 10));
        assert(d.last() - ZERO == n % 10);
        assert(digits_value(d) == digits_value(decimal(n / 10)) * 10 + n % 10);
        assert(n == (n / 10) * 10 + n % 10) by (nonlinear_arith);
    } else {
        let d = decimal(n);
        assert(d.drop_last() =~= Seq::<u8>::empty());
        assert(d.last() - ZERO == n);
        assert(digits_value(d) == digits_value(d.drop_last()) * 10 + n);
    }
}

/// A one-digit decimal text belongs to a number below ten; larger numbers
/// take two digits or more.
pub proof fn lemma_decimal_one_digit(n: nat)
    ensures
        n < 10 ==> decimal(n) == seq![(ZERO + n) as u8],
        n >= 10 ==> decimal(n).len() >= 2,
{
    if n >= 10 {
        lemma_decimal(n / 10);
    }
}

/// The payload of a frame is exactly as long as its length prefix says.
pub proof fn lemma_payload_length(s: Seq<u8>)
    requires
        frame_bounds(s) is Ok,
    ensures
        frame_payload(s).len() == digits_value(s.take(digit_run(s) as int)),
        frame_bounds(s)->Ok_0.1 < s.len(),
{
}

/// A frame built from a payload and a tag is split back into that payload, that
/// tag and whatever followed it: the declared length is the payload's length.
pub proof fn lemma_frame_bounds(payload: Seq<u8>, tag: u8, rest: Seq<u8>)
    ensures
        frame_bounds(frame(payload, tag) + rest) == Ok::<(int, int), FrameError>(
            (
                decimal(payload.len()).len() + 1 as int,
                decimal(payload.len()).len() + 1 + payload.len() as int,
            ),
        ),
        frame_payload(frame(payload, tag) + rest) == payload,
        frame_tag(frame(payload, tag) + rest) == tag,
        frame_rest(frame(payload, tag) + rest) == rest,
{
    let d = decimal(payload.len());
    let s = frame(payload, tag) + rest;
    let k = d.len() as int;
    lemma_decimal(payload.len());
    assert forall|j: int| 0 <= j < k implies is_digit(#[trigger] s[j]) by {
        assert(s[j] == d[j]);
    }
    assert(s[k] == COLON);
    lemma_digit_run(s, k);
    assert(s.take(k) =~= d);
    assert(s.subrange(k + 1, k + 1 + payload.len()) =~= payload);
    assert(s.skip(k + 1 + payload.len() + 1) =~= rest);
}

/// The frame minus its last byte is cut short.
pub proof fn lemma_frame_one_short(payload: Seq<u8>, tag: u8)
    ensures
        frame_bounds(frame(payload, tag).drop_last()) == Err::<(int, int), FrameError>(
            FrameError::Truncated,
        ),
{
    let d = decimal(payload.len());
    let s = frame(payload, tag).drop_last();
    let k = d.len() as int;
    lemma_decimal(payload.len());
    assert forall|j: int| 0 <= j < k implies is_digit(#[trigger] s[j]) by {
        assert(s[j] == d[j]);
    }
    assert(s[k] == COLON);
    lemma_digit_run(s, k);
    assert(s.take(k) =~= d);
}

/// Finds the frame that opens `s`: its payload is `s[start..end]` and its tag `s[end]`.
pub fn split_frame(s: &[u8]) -> (r: Result<(usize, usize), FrameError>)
    ensures
        match r {
            Ok((a, b)) => frame_bounds(s@) == Ok::<(int, int), FrameError>((a as int, b as int)),
            Err(e) => frame_bounds(s@) == Err::<(int, int), FrameError>(e),
        },
{
    let len = s.len();
    let mut k: usize = 0;
    while k < len && ZERO <= s[k] && s[k] <= NINE
        invariant
            k <= len,
            len == s@.len(),
            forall|j: int| 0 <= j < k ==> is_digit(#[trigger] s@[j]),
        decreases len - k,
    {
        k = k + 1;
    }
    proof {
        lemma_digit_run(s@, k as int);
    }
    if k == 0 || k >= len || s[k] != COLON {
        return Err(FrameError::Header);
    }
    let ghost digits = s@.take(k as int);
    assert forall|m: int| 0 <= m < digits.len() implies is_digit(#[trigger] digits[m]) by {
        assert(digits[m] == s@[m]);
    }
    let mut n: usize = 0;
    let mut i: usize = 0;
    while i < k
        invariant
            i <= k,
            k < len,
            len == s@.len(),
            digits == s@.take(k as int),
            digit_run(s@) == k,
            s@[k as int] == COLON,
            forall|m: int| 0 <= m < digits.len() ==> is_digit(#[trigger] digits[m]),
            n == digits_value(digits.take(i as int)),
            n <= len,
        decreases k - i,
    {
        assert(digits[i as int] == s@[i as int]);
        let d = (s[i] - ZERO) as usize;
        proof {
            lemma_digits_value_step(digits, i as int);
            lemma_digits_value_grows(digits, i as int + 1, k as int);
            assert(digits.take(k as int) =~= digits);
        }
        if n > len / 10 {
            assert(n * 10 > len) by (nonlinear_arith)
                requires
                    n > len / 10,
            ;
            return Err(FrameError::Truncated);
        }
        assert(n * 10 <= len) by (nonlinear_arith)
            requires
                n <= len / 10,
        ;
        let m = n * 10;
        if d > len - m {
            return Err(FrameError::Truncated);
        }
        n = m + d;
        i = i + 1;
    }
    assert(digits.take(k as int) =~= digits);
    if n >= len - k - 1 {
        return Err(FrameError::Truncated);
    }
    Ok((k + 1, k + 1 + n))
}

} // verus!
