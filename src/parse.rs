//! The untyped decoder: one frame into a tree of values.
use crate::frame::{
    digit_run, digits_value, frame, frame_bounds, is_digit, lemma_digit_run, lemma_frame_bounds,
    lemma_frame_one_short, split_frame, FrameError,
    MINUS, NINE, PLUS, TAG_BOOL, TAG_DICT, TAG_FLOAT, TAG_INT, TAG_LIST, TAG_NULL, TAG_STR, ZERO,
};
use crate::text::{all_digits, digits_to_u64};
use vstd::prelude::*;
use vstd::utf8::*;

verus! {

#[derive(Clone, Copy, Debug, PartialEq, Eq, Structural)]
pub enum ParseError {
    /// The tag is none of the known ones.
    UnknownSegmentType,
    /// A length prefix, or an integer payload, is not a decimal integer.
    UnableToParseInt,
    /// A float payload is not a decimal floating-point literal.
    UnableToParseFloat,
    /// A null frame has a payload.
    NoneZeroLengthNull,
    /// A frame declares more bytes than remain.
    UnableToTake,
    /// A dict key is not a string.
    FoundNonStringKey,
}

/// A decoded value.
#[derive(Debug, PartialEq)]
pub enum Value {
    Bool(bool),
    Str(String),
    Int(i64),
    /// A floating-point number, as the decimal literal that the frame holds.
    Float(String),
    Null,
    List(Vec<Value>),
    /// Entries in the order in which their keys first appear; each key once,
    /// bound to the last value given for it.
    Dict(Vec<(String, Value)>),
}

/// The mathematical form of a value.
pub enum Node {
    Bool(bool),
    Str(Seq<char>),
    Int(int),
    Float(Seq<char>),
    Null,
    List(Seq<Node>),
    Dict(Seq<(Seq<char>, Node)>),
}

impl View for Value {
    type V = Node;

    open spec fn view(&self) -> Node
        decreases self,
    {
        match self {
            Value::Bool(b) => Node::Bool(*b),
            Value::Str(s) => Node::Str(s@),
            Value::Int(i) => Node::Int(*i as int),
            Value::Float(s) => Node::Float(s@),
            Value::Null => Node::Null,
            Value::List(items) => Node::List(
                Seq::new(
                    items@.len(),
                    |i: int|
                        if 0 <= i < items@.len() {
                            items@[i]@
                        } else {
                            Node::Null
                        },
                ),
            ),
            Value::Dict(entries) => Node::Dict(
                Seq::new(
                    entries@.len(),
                    |i: int|
                        (
                            entries@[i].0@,
                            if 0 <= i < entries@.len() {
                                entries@[i].1@
                            } else {
                                Node::Null
                            },
                        ),
                ),
            ),
        }
    }
}

pub const DOT: u8 = 0x2e;

/// The text that a string payload becomes: UTF-8 decoded, with each invalid
/// sequence replaced by U+FFFD.
pub uninterp spec fn lossy_text(b: Seq<u8>) -> Seq<char>;

/// Relies on `String::from_utf8_lossy`: the text depends on the bytes alone,
/// and valid UTF-8 is decoded unchanged.
#[verifier::external_body]
fn lossy_string(b: &[u8]) -> (r: String)
    ensures
        r@ == lossy_text(b@),
        valid_utf8(b@) ==> r@ == decode_utf8(b@),
{
    String::from_utf8_lossy(b).into_owned()
}

/// The value of an integer payload, as `i64::from_str` reads it: an optional
/// sign, then one or more digits, within the range of an `i64`.
pub open spec fn int_value(t: Seq<u8>) -> Option<int> {
    if t.len() > 1 && t[0] == MINUS {
        if all_digits(t.skip(1)) && digits_value(t.skip(1)) <= 0x8000_0000_0000_0000 {
            Some(-(digits_value(t.skip(1)) as int))
        } else {
            None
        }
    } else if t.len() > 1 && t[0] == PLUS {
        if all_digits(t.skip(1)) && digits_value(t.skip(1)) <= i64::MAX {
            Some(digits_value(t.skip(1)) as int)
        } else {
            None
        }
    } else if t.len() > 0 && all_digits(t) && digits_value(t) <= i64::MAX {
        Some(digits_value(t) as int)
    } else {
        None
    }
}

pub open spec fn ascii_lower(b: u8) -> u8 {
    if 0x41 <= b && b <= 0x5a {
        (b + 0x20) as u8
    } else {
        b
    }
}

/// `t` spells the lower-case `word`, ignoring ASCII case.
pub open spec fn lower_eq(t: Seq<u8>, word: Seq<u8>) -> bool {
    t.len() == word.len() && forall|i: int| 0 <= i < t.len() ==> ascii_lower(#[trigger] t[i]) == word[i]
}

pub open spec fn word_inf() -> Seq<u8> {
    seq![0x69u8, 0x6e, 0x66]
}

pub open spec fn word_infinity() -> Seq<u8> {
    seq![0x69u8, 0x6e, 0x66, 0x69, 0x6e, 0x69, 0x74, 0x79]
}

pub open spec fn word_nan() -> Seq<u8> {
    seq![0x6eu8, 0x61, 0x6e]
}

pub open spec fn is_sign(b: u8) -> bool {
    b == PLUS || b == MINUS
}

/// One or more digits, after an optional sign.
pub open spec fn signed_digits(d: Seq<u8>) -> bool {
    let v = if d.len() > 0 && is_sign(d[0]) {
        d.skip(1)
    } else {
        d
    };
    v.len() >= 1 && digit_run(v) == v.len()
}

/// `e` or `E`, then signed digits.
pub open spec fn exponent(e: Seq<u8>) -> bool {
    e.len() >= 1 && (e[0] == 0x65 || e[0] == 0x45) && signed_digits(e.skip(1))
}

/// Digits with an optional fraction (at least one digit in all), then an optional exponent.
pub open spec fn decimal_number(u: Seq<u8>) -> bool {
    let i = digit_run(u) as int;
    let has_dot = i < u.len() && u[i] == DOT;
    let f = if has_dot {
        digit_run(u.skip(i + 1)) as int
    } else {
        0
    };
    let m = if has_dot {
        i + 1 + f
    } else {
        i
    };
    i + f >= 1 && (m == u.len() || exponent(u.skip(m)))
}

/// A float payload as `f64::from_str` accepts it: an optional sign, then
/// `inf`, `infinity`, `nan` (in any case) or a decimal number.
pub open spec fn float_text(t: Seq<u8>) -> bool {
    let u = if t.len() > 0 && is_sign(t[0]) {
        t.skip(1)
    } else {
        t
    };
    lower_eq(u, word_inf()) || lower_eq(u, word_infinity()) || lower_eq(u, word_nan())
        || decimal_number(u)
}

/// The error of the untyped decoder for a frame that does not split.
pub open spec fn frame_parse_error(e: FrameError) -> ParseError {
    match e {
        FrameError::Header => ParseError::UnableToParseInt,
        FrameError::Truncated => ParseError::UnableToTake,
    }
}

/// The dict after `k` is bound to `v`: a key already present keeps its place
/// and takes the new value; a new key goes last.
pub open spec fn dict_insert(entries: Seq<(Seq<char>, Node)>, k: Seq<char>, v: Node) -> Seq<
    (Seq<char>, Node),
> {
    if exists|i: int| 0 <= i < entries.len() && entries[i].0 == k {
        entries.update(choose|i: int| 0 <= i < entries.len() && entries[i].0 == k, (k, v))
    } else {
        entries.push((k, v))
    }
}

pub open spec fn distinct_keys(entries: Seq<(Seq<char>, Node)>) -> bool {
    forall|i: int, j: int|
        0 <= i < entries.len() && 0 <= j < entries.len() && i != j ==> entries[i].0
            != entries[j].0
}

/// What a frame's payload decodes to under its tag. A bool is true exactly
/// when its payload is four bytes long, whatever they are.
pub open spec fn value_of(payload: Seq<u8>, tag: u8) -> Result<Node, ParseError>
    decreases payload.len(), 1nat,
{
    if tag == TAG_BOOL {
        Ok(Node::Bool(payload.len() == 4))
    } else if tag == TAG_STR {
        Ok(Node::Str(lossy_text(payload)))
    } else if tag == TAG_INT {
        match int_value(payload) {
            Some(i) => Ok(Node::Int(i)),
            None => Err(ParseError::UnableToParseInt),
        }
    } else if tag == TAG_FLOAT {
        if float_text(payload) {
            Ok(Node::Float(lossy_text(payload)))
        } else {
            Err(ParseError::UnableToParseFloat)
        }
    } else if tag == TAG_NULL {
        if payload.len() == 0 {
            Ok(Node::Null)
        } else {
            Err(ParseError::NoneZeroLengthNull)
        }
    } else if tag == TAG_LIST {
        match items_of(payload) {
            Ok(items) => Ok(Node::List(items)),
            Err(e) => Err(e),
        }
    } else if tag == TAG_DICT {
        match entries_of(payload, seq![]) {
            Ok(entries) => Ok(Node::Dict(entries)),
            Err(e) => Err(e),
        }
    } else {
        Err(ParseError::UnknownSegmentType)
    }
}

/// The values of the frames that make up a list payload, in order; every byte
/// must belong to one of them.
pub open spec fn items_of(p: Seq<u8>) -> Result<Seq<Node>, ParseError>
    decreases p.len(), 0nat,
{
    if p.len() == 0 {
        Ok(seq![])
    } else {
        match frame_bounds(p) {
            Err(e) => Err(frame_parse_error(e)),
            Ok((a, b)) => match value_of(p.subrange(a, b), p[b]) {
                Err(e) => Err(e),
                Ok(n) => match items_of(p.skip(b + 1)) {
                    Ok(rest) => Ok(seq![n] + rest),
                    Err(e) => Err(e),
                },
            },
        }
    }
}

/// The entries of a dict payload, read as key frame, value frame, key frame,
/// ... and bound in turn into `acc`; every key must decode to a string.
pub open spec fn entries_of(p: Seq<u8>, acc: Seq<(Seq<char>, Node)>) -> Result<
    Seq<(Seq<char>, Node)>,
    ParseError,
>
    decreases p.len(), 0nat,
{
    if p.len() == 0 {
        Ok(acc)
    } else {
        match frame_bounds(p) {
            Err(e) => Err(frame_parse_error(e)),
            Ok((a, b)) => match value_of(p.subrange(a, b), p[b]) {
                Err(e) => Err(e),
                Ok(Node::Str(k)) => {
                    let q = p.skip(b + 1);
                    match frame_bounds(q) {
                        Err(e) => Err(frame_parse_error(e)),
                        Ok((c, d)) => match value_of(q.subrange(c, d), q[d]) {
                            Err(e) => Err(e),
                            Ok(v) => entries_of(q.skip(d + 1), dict_insert(acc, k, v)),
                        },
                    }
                },
                Ok(_) => Err(ParseError::FoundNonStringKey),
            },
        }
    }
}

/// What the frame that opens `s` decodes to, and what follows it.
pub open spec fn parse_frame(s: Seq<u8>) -> Result<(Node, Seq<u8>), ParseError> {
    match frame_bounds(s) {
        Err(e) => Err(frame_parse_error(e)),
        Ok((a, b)) => match value_of(s.subrange(a, b), s[b]) {
            Ok(n) => Ok((n, s.skip(b + 1))),
            Err(e) => Err(e),
        },
    }
}

/// A bool frame's truth depends on its payload's length alone: four bytes,
/// whatever they are, read as true, and any other length as false.
pub proof fn lemma_bool_by_length(p: Seq<u8>, rest: Seq<u8>)
    ensures
        parse_frame(frame(p, TAG_BOOL) + rest) == Ok::<(Node, Seq<u8>), ParseError>(
            (Node::Bool(p.len() == 4), rest),
        ),
{
    lemma_frame_bounds(p, TAG_BOOL, rest);
}

/// A dict whose first frame decodes to anything but a string is rejected
/// with `FoundNonStringKey`.
pub proof fn lemma_non_string_key(key: Seq<u8>, tag: u8, rest: Seq<u8>)
    requires
        value_of(key, tag) is Ok,
        !(value_of(key, tag)->Ok_0 is Str),
    ensures
        value_of(frame(key, tag) + rest, TAG_DICT) == Err::<Node, ParseError>(
            ParseError::FoundNonStringKey,
        ),
{
    lemma_frame_bounds(key, tag, rest);
    assert(frame(key, tag) + rest != Seq::<u8>::empty()) by {
        assert((frame(key, tag) + rest).len() > 0);
    }
}

/// A frame cut one byte short is `UnableToTake`.
pub proof fn lemma_one_byte_short_untyped(p: Seq<u8>, tag: u8)
    ensures
        parse_frame(frame(p, tag).drop_last()) == Err::<(Node, Seq<u8>), ParseError>(
            ParseError::UnableToTake,
        ),
{
    lemma_frame_one_short(p, tag);
}

pub open spec fn list_nodes(items: Seq<Value>) -> Seq<Node> {
    Seq::new(items.len(), |i: int| items[i]@)
}

pub open spec fn entry_nodes(entries: Seq<(String, Value)>) -> Seq<(Seq<char>, Node)> {
    Seq::new(entries.len(), |i: int| (entries[i].0@, entries[i].1@))
}

/// `acc` followed by what `r` holds, or the error of `r`.
pub open spec fn prepend(acc: Seq<Node>, r: Result<Seq<Node>, ParseError>) -> Result<
    Seq<Node>,
    ParseError,
> {
    match r {
        Ok(rest) => Ok(acc + rest),
        Err(e) => Err(e),
    }
}

fn frame_error(e: FrameError) -> (r: ParseError)
    ensures
        r == frame_parse_error(e),
{
    match e {
        FrameError::Header => ParseError::UnableToParseInt,
        FrameError::Truncated => ParseError::UnableToTake,
    }
}

fn parse_int(t: &[u8]) -> (r: Option<i64>)
    ensures
        r matches Some(v) ==> int_value(t@) == Some(v as int),
        r is None ==> int_value(t@) is None,
{
    if t.len() > 1 && (t[0] == MINUS || t[0] == PLUS) {
        let m = &t[1..t.len()];
        assert(m@ =~= t@.skip(1));
        if t[0] == MINUS {
            match digits_to_u64(m, 0x8000_0000_0000_0000) {
                Some(n) => if n == 0x8000_0000_0000_0000 {
                    Some(i64::MIN)
                } else {
                    Some(-(n as i64))
                },
                None => None,
            }
        } else {
            match digits_to_u64(m, i64::MAX as u64) {
                Some(n) => Some(n as i64),
                None => None,
            }
        }
    } else if t.len() > 0 {
        match digits_to_u64(t, i64::MAX as u64) {
            Some(n) => Some(n as i64),
            None => None,
        }
    } else {
        None
    }
}

/// The end of the run of digits that starts at `start`.
fn skip_digits(t: &[u8], start: usize) -> (r: usize)
    requires
        start <= t@.len(),
    ensures
        start <= r <= t@.len(),
        r - start == digit_run(t@.skip(start as int)),
{
    let mut k = start;
    while k < t.len() && ZERO <= t[k] && t[k] <= NINE
        invariant
            start <= k <= t@.len(),
            forall|j: int| start <= j < k ==> is_digit(#[trigger] t@[j]),
        decreases t@.len() - k,
    {
        k = k + 1;
    }
    let ghost s = t@.skip(start as int);
    assert forall|j: int| 0 <= j < k - start implies is_digit(#[trigger] s[j]) by {
        assert(s[j] == t@[start + j]);
    }
    proof {
        if k < t@.len() {
            assert(s[k - start] == t@[k as int]);
        }
        lemma_digit_run(s, k - start);
    }
    k
}

fn is_sign_byte(b: u8) -> (r: bool)
    ensures
        r == is_sign(b),
{
    b == PLUS || b == MINUS
}

fn signed_digits_ok(d: &[u8]) -> (r: bool)
    ensures
        r == signed_digits(d@),
{
    let start: usize = if d.len() > 0 && is_sign_byte(d[0]) {
        1
    } else {
        0
    };
    let k = skip_digits(d, start);
    proof {
        if start == 0 {
            assert(d@.skip(0) =~= d@);
        }
    }
    k > start && k == d.len()
}

fn exponent_ok(e: &[u8]) -> (r: bool)
    ensures
        r == exponent(e@),
{
    if e.len() < 1 || (e[0] != 0x65 && e[0] != 0x45) {
        return false;
    }
    let d = &e[1..e.len()];
    assert(d@ =~= e@.skip(1));
    signed_digits_ok(d)
}

fn decimal_number_ok(u: &[u8]) -> (r: bool)
    ensures
        r == decimal_number(u@),
{
    let i = skip_digits(u, 0);
    assert(u@.skip(0) =~= u@);
    let has_dot = i < u.len() && u[i] == DOT;
    let m = if has_dot {
        skip_digits(u, i + 1)
    } else {
        i
    };
    let f = if has_dot {
        m - i - 1
    } else {
        0
    };
    if i + f == 0 {
        return false;
    }
    if m == u.len() {
        return true;
    }
    let e = &u[m..u.len()];
    assert(e@ =~= u@.skip(m as int));
    exponent_ok(e)
}

fn lower_byte(b: u8) -> (r: u8)
    ensures
        r == ascii_lower(b),
{
    if 0x41 <= b && b <= 0x5a {
        b + 0x20
    } else {
        b
    }
}

fn matches_word(u: &[u8], w: &[u8]) -> (r: bool)
    ensures
        r == lower_eq(u@, w@),
{
    if u.len() != w.len() {
        return false;
    }
    let mut i: usize = 0;
    while i < u.len()
        invariant
            i <= u@.len() == w@.len(),
            forall|j: int| 0 <= j < i ==> ascii_lower(#[trigger] u@[j]) == w@[j],
        decreases u@.len() - i,
    {
        if lower_byte(u[i]) != w[i] {
            return false;
        }
        i = i + 1;
    }
    true
}

fn float_text_ok(t: &[u8]) -> (r: bool)
    ensures
        r == float_text(t@),
{
    let u = if t.len() > 0 && is_sign_byte(t[0]) {
        &t[1..t.len()]
    } else {
        t
    };
    assert(u@ =~= if t@.len() > 0 && is_sign(t@[0]) {
        t@.skip(1)
    } else {
        t@
    });
    let inf: [u8; 3] = [0x69, 0x6e, 0x66];
    let infinity: [u8; 8] = [0x69, 0x6e, 0x66, 0x69, 0x6e, 0x69, 0x74, 0x79];
    let nan: [u8; 3] = [0x6e, 0x61, 0x6e];
    assert(inf@ =~= word_inf());
    assert(infinity@ =~= word_infinity());
    assert(nan@ =~= word_nan());
    matches_word(u, inf.as_slice()) || matches_word(u, infinity.as_slice()) || matches_word(
        u,
        nan.as_slice(),
    ) || decimal_number_ok(u)
}

/// Binds `k` to `v` in a dict whose keys are distinct.
fn insert_entry(entries: &mut Vec<(String, Value)>, k: String, v: Value)
    requires
        distinct_keys(entry_nodes(old(entries)@)),
    ensures
        entry_nodes(final(entries)@) == dict_insert(entry_nodes(old(entries)@), k@, v@),
        distinct_keys(entry_nodes(final(entries)@)),
{
    let ghost before = entry_nodes(entries@);
    let mut i: usize = 0;
    while i < entries.len()
        invariant
            i <= entries@.len(),
            entries@ == old(entries)@,
            before == entry_nodes(entries@),
            distinct_keys(before),
            forall|j: int| 0 <= j < i ==> (#[trigger] entries@[j]).0@ != k@,
        decreases entries@.len() - i,
    {
        if entries[i].0 == k {
            let ghost kv = k@;
            let ghost vv = v@;
            entries.remove(i);
            entries.insert(i, (k, v));
            proof {
                assert(before[i as int].0 == kv);
                let c = choose|j: int| 0 <= j < before.len() && before[j].0 == kv;
                assert(c == i);
                assert(entry_nodes(entries@) =~= before.update(i as int, (kv, vv)));
            }
            return;
        }
        i = i + 1;
    }
    let ghost kv = k@;
    let ghost vv = v@;
    entries.push((k, v));
    proof {
        assert(!exists|j: int| 0 <= j < before.len() && before[j].0 == kv) by {
            assert forall|j: int| 0 <= j < before.len() implies before[j].0 != kv by {
                assert(before[j].0 == entries@[j].0@);
            }
        }
        assert(entry_nodes(entries@) =~= before.push((kv, vv)));
    }
}

/// Decodes a frame's payload under its tag.
fn parse_value(payload: &[u8], tag: u8) -> (r: Result<Value, ParseError>)
    ensures
        match r {
            Ok(v) => value_of(payload@, tag) == Ok::<Node, ParseError>(v@),
            Err(e) => value_of(payload@, tag) == Err::<Node, ParseError>(e),
        },
    decreases payload@.len(), 1nat,
{
    if tag == TAG_BOOL {
        Ok(Value::Bool(payload.len() == 4))
    } else if tag == TAG_STR {
        Ok(Value::Str(lossy_string(payload)))
    } else if tag == TAG_INT {
        match parse_int(payload) {
            Some(i) => Ok(Value::Int(i)),
            None => Err(ParseError::UnableToParseInt),
        }
    } else if tag == TAG_FLOAT {
        if float_text_ok(payload) {
            Ok(Value::Float(lossy_string(payload)))
        } else {
            Err(ParseError::UnableToParseFloat)
        }
    } else if tag == TAG_NULL {
        if payload.len() == 0 {
            Ok(Value::Null)
        } else {
            Err(ParseError::NoneZeroLengthNull)
        }
    } else if tag == TAG_LIST {
        let items = parse_list(payload)?;
        let r = Value::List(items);
        assert(r@ == Node::List(list_nodes(items@))) by {
            assert(list_nodes(items@) =~= match r@ {
                Node::List(s) => s,
                _ => seq![],
            });
        }
        Ok(r)
    } else if tag == TAG_DICT {
        let entries = parse_dict(payload)?;
        let r = Value::Dict(entries);
        assert(r@ == Node::Dict(entry_nodes(entries@))) by {
            assert(r@ is Dict);
            let view_entries = r@->Dict_0;
            assert(view_entries.len() == entries@.len());
            assert forall|i: int| 0 <= i < entries@.len() implies view_entries[i] == entry_nodes(
                entries@,
            )[i] by {
                assert(view_entries[i].0 == entries@[i].0@);
                assert(view_entries[i].1 == entries@[i].1@);
            }
            assert(entry_nodes(entries@) =~= view_entries);
        }
        Ok(r)
    } else {
        Err(ParseError::UnknownSegmentType)
    }
}

fn parse_list(p: &[u8]) -> (r: Result<Vec<Value>, ParseError>)
    ensures
        match r {
            Ok(items) => items_of(p@) == Ok::<Seq<Node>, ParseError>(list_nodes(items@)),
            Err(e) => items_of(p@) == Err::<Seq<Node>, ParseError>(e),
        },
    decreases p@.len(), 0nat,
{
    let mut items: Vec<Value> = Vec::new();
    let mut pos: usize = 0;
    assert(p@.skip(0) =~= p@);
    assert(list_nodes(items@) + seq![] =~= seq![]);
    while pos < p.len()
        invariant
            pos <= p@.len(),
            items_of(p@) == prepend(list_nodes(items@), items_of(p@.skip(pos as int))),
        decreases p@.len() - pos,
    {
        let rest = &p[pos..p.len()];
        assert(rest@ =~= p@.skip(pos as int));
        let (a, b) = match split_frame(rest) {
            Ok(x) => x,
            Err(e) => {
                return Err(frame_error(e));
            },
        };
        let v = parse_value(&rest[a..b], rest[b])?;
        let ghost before = items@;
        items.push(v);
        proof {
            assert(rest@.skip(b + 1) =~= p@.skip(pos + b + 1));
            assert(list_nodes(items@) =~= list_nodes(before).push(v@));
            match items_of(rest@.skip(b + 1)) {
                Ok(tail) => {
                    assert(list_nodes(before) + (seq![v@] + tail) =~= list_nodes(items@) + tail);
                },
                Err(_) => {},
            }
        }
        pos = pos + b + 1;
    }
    assert(p@.skip(pos as int) =~= Seq::<u8>::empty());
    assert(list_nodes(items@) + seq![] =~= list_nodes(items@));
    Ok(items)
}

fn parse_dict(p: &[u8]) -> (r: Result<Vec<(String, Value)>, ParseError>)
    ensures
        match r {
            Ok(entries) => entries_of(p@, seq![]) == Ok::<Seq<(Seq<char>, Node)>, ParseError>(
                entry_nodes(entries@),
            ) && distinct_keys(entry_nodes(entries@)),
            Err(e) => entries_of(p@, seq![]) == Err::<Seq<(Seq<char>, Node)>, ParseError>(e),
        },
    decreases p@.len(), 0nat,
{
    let mut entries: Vec<(String, Value)> = Vec::new();
    let mut pos: usize = 0;
    assert(p@.skip(0) =~= p@);
    assert(entry_nodes(entries@) =~= seq![]);
    while pos < p.len()
        invariant
            pos <= p@.len(),
            entries_of(p@, seq![]) == entries_of(p@.skip(pos as int), entry_nodes(entries@)),
            distinct_keys(entry_nodes(entries@)),
        decreases p@.len() - pos,
    {
        let rest = &p[pos..p.len()];
        assert(rest@ =~= p@.skip(pos as int));
        let (a, b) = match split_frame(rest) {
            Ok(x) => x,
            Err(e) => {
                return Err(frame_error(e));
            },
        };
        let key = parse_value(&rest[a..b], rest[b])?;
        let k = match key {
            Value::Str(k) => k,
            _ => {
                return Err(ParseError::FoundNonStringKey);
            },
        };
        let after = &rest[b + 1..rest.len()];
        assert(after@ =~= rest@.skip(b + 1));
        let (c, d) = match split_frame(after) {
            Ok(x) => x,
            Err(e) => {
                return Err(frame_error(e));
            },
        };
        let v = parse_value(&after[c..d], after[d])?;
        insert_entry(&mut entries, k, v);
        proof {
            assert(after@.skip(d + 1) =~= p@.skip(pos + b + 1 + d + 1));
        }
        pos = pos + b + 1 + d + 1;
    }
    assert(p@.skip(pos as int) =~= Seq::<u8>::empty());
    Ok(entries)
}

/// Decodes the frame that opens `input` into a value tree, and returns the
/// bytes that follow it.
pub fn parse(input: &[u8]) -> (r: Result<(&[u8], Value), ParseError>)
    ensures
        match r {
            Ok((rest, v)) => parse_frame(input@) == Ok::<(Node, Seq<u8>), ParseError>(
                (v@, rest@),
            ),
            Err(e) => parse_frame(input@) == Err::<(Node, Seq<u8>), ParseError>(e),
        },
{
    let (a, b) = match split_frame(input) {
        Ok(x) => x,
        Err(e) => {
            return Err(frame_error(e));
        },
    };
    let v = parse_value(&input[a..b], input[b])?;
    let rest = &input[b + 1..input.len()];
    assert(rest@ =~= input@.skip(b + 1));
    Ok((rest, v))
}

} // verus!
