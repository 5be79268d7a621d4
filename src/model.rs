//! The shapes of typed data that the encoder and the decoder serve, what the
//! encoder writes for each, what the decoder reads back, and the laws that
//! tie the two together.
use crate::de::{
    bool_step, compound_step, enum_step, false_frame, null_frame, signed_step, signed_value,
    string_step, true_frame, unit_step, unsigned_step, EnumShape,
};
use crate::error::Error;
use crate::frame::{
    decimal, frame, frame_bounds, is_digit, lemma_decimal, lemma_frame_bounds, TAG_DICT, TAG_INT,
    TAG_LIST, TAG_NULL, TAG_STR, ZERO,
};
use crate::ser::{
    append_top, close_top, int_text, lemma_frame_valid_utf8, lemma_int_text_valid_utf8,
};
use crate::text::{all_ascii, lemma_ascii_valid_utf8, starts_with};
use vstd::prelude::*;
use vstd::utf8::*;

verus! {

/// A value of the typed data model. Structs are dicts with text keys, tuples
/// are lists, and newtype, tuple and struct variants are `Variant`s whose
/// content is the inner value, a list or a dict.
pub enum Datum {
    Bool(bool),
    Unsigned(u64),
    Signed(i64),
    Text(Seq<char>),
    Unit,
    /// An optional value that is absent.
    Absent,
    /// An optional value that is present.
    Present(Box<Datum>),
    List(Seq<Datum>),
    Dict(Seq<(Datum, Datum)>),
    UnitVariant(Seq<char>),
    Variant(Seq<char>, Box<Datum>),
}

/// The bytes that the encoder writes for a value.
pub open spec fn encoding(d: Datum) -> Seq<u8>
    decreases d,
{
    match d {
        Datum::Bool(b) => if b {
            true_frame()
        } else {
            false_frame()
        },
        Datum::Unsigned(n) => frame(decimal(n as nat), TAG_INT),
        Datum::Signed(i) => frame(int_text(i as int), TAG_INT),
        Datum::Text(t) => frame(encode_utf8(t), TAG_STR),
        Datum::Unit => null_frame(),
        Datum::Absent => null_frame(),
        Datum::Present(x) => encoding(*x),
        Datum::List(items) => frame(encode_items(items), TAG_LIST),
        Datum::Dict(entries) => frame(encode_entries(entries), TAG_DICT),
        Datum::UnitVariant(name) => frame(encode_utf8(name), TAG_STR),
        Datum::Variant(name, x) => frame(frame(encode_utf8(name), TAG_STR) + encoding(*x), TAG_DICT),
    }
}

pub open spec fn encode_items(items: Seq<Datum>) -> Seq<u8>
    decreases items,
{
    if items.len() == 0 {
        seq![]
    } else {
        encoding(items[0]) + encode_items(items.subrange(1, items.len() as int))
    }
}

pub open spec fn encode_entries(entries: Seq<(Datum, Datum)>) -> Seq<u8>
    decreases entries,
{
    if entries.len() == 0 {
        seq![]
    } else {
        encoding(entries[0].0) + encoding(entries[0].1) + encode_entries(
            entries.subrange(1, entries.len() as int),
        )
    }
}

/// The encoder's stack after it is walked through `d`, one `Serializer`
/// call for each step: scalars go to the top buffer, a list or a map opens a
/// buffer of its own and closes it, a variant opens one that starts with its
/// name.
pub open spec fn emit(stack: Seq<Seq<u8>>, d: Datum) -> Seq<Seq<u8>>
    decreases d,
{
    match d {
        Datum::Present(x) => emit(stack, *x),
        Datum::List(items) => close_top(emit_items(stack.push(seq![]), items), TAG_LIST),
        Datum::Dict(entries) => close_top(emit_entries(stack.push(seq![]), entries), TAG_DICT),
        Datum::Variant(name, x) => close_top(
            emit(stack.push(frame(encode_utf8(name), TAG_STR)), *x),
            TAG_DICT,
        ),
        _ => append_top(stack, encoding(d)),
    }
}

pub open spec fn emit_items(stack: Seq<Seq<u8>>, items: Seq<Datum>) -> Seq<Seq<u8>>
    decreases items,
{
    if items.len() == 0 {
        stack
    } else {
        emit_items(emit(stack, items[0]), items.subrange(1, items.len() as int))
    }
}

pub open spec fn emit_entries(stack: Seq<Seq<u8>>, entries: Seq<(Datum, Datum)>) -> Seq<Seq<u8>>
    decreases entries,
{
    if entries.len() == 0 {
        stack
    } else {
        emit_entries(
            emit(emit(stack, entries[0].0), entries[0].1),
            entries.subrange(1, entries.len() as int),
        )
    }
}

/// What the decoder reads from `s` when asked for a value shaped like `d`,
/// one `Deserializer` call for each step, and what it leaves; `None` when a
/// step fails. An optional value reads as absent when the null frame comes
/// next; a list or a map must use up its payload exactly, and so must a
/// variant's content.
pub open spec fn decoding(d: Datum, s: Seq<u8>) -> Option<(Datum, Seq<u8>)>
    decreases d,
{
    match d {
        Datum::Bool(_) => match bool_step(s) {
            Ok((b, r)) => Some((Datum::Bool(b), r)),
            Err(_) => None,
        },
        Datum::Unsigned(_) => match unsigned_step(s) {
            Ok((n, r)) => Some((Datum::Unsigned(n), r)),
            Err(_) => None,
        },
        Datum::Signed(_) => match signed_step(s) {
            Ok((i, r)) => Some((Datum::Signed(i), r)),
            Err(_) => None,
        },
        Datum::Text(_) => match string_step(s) {
            Ok((t, r)) => Some((Datum::Text(t), r)),
            Err(_) => None,
        },
        Datum::Unit => match unit_step(s) {
            Ok((_, r)) => Some((Datum::Unit, r)),
            Err(_) => None,
        },
        Datum::Absent => if starts_with(s, null_frame()) {
            Some((Datum::Absent, s.skip(3)))
        } else {
            None
        },
        Datum::Present(x) => if starts_with(s, null_frame()) {
            Some((Datum::Absent, s.skip(3)))
        } else {
            match decoding(*x, s) {
                Some((v, r)) => Some((Datum::Present(Box::new(v)), r)),
                None => None,
            }
        },
        Datum::List(items) => match compound_step(s, TAG_LIST, Error::ParsingSeq) {
            Ok((p, r)) => match decode_items(items, p) {
                Some(vs) => Some((Datum::List(vs), r)),
                None => None,
            },
            Err(_) => None,
        },
        Datum::Dict(entries) => match compound_step(s, TAG_DICT, Error::ParsingMap) {
            Ok((p, r)) => match decode_entries(entries, p) {
                Some(vs) => Some((Datum::Dict(vs), r)),
                None => None,
            },
            Err(_) => None,
        },
        Datum::UnitVariant(_) => match enum_step(s) {
            Ok((EnumShape::Name(n), r)) => Some((Datum::UnitVariant(n), r)),
            _ => None,
        },
        Datum::Variant(_, x) => match enum_step(s) {
            Ok((EnumShape::Payload(p), r)) => match string_step(p) {
                Ok((n, q)) => match decoding(*x, q) {
                    Some((v, q2)) => if q2.len() == 0 {
                        Some((Datum::Variant(n, Box::new(v)), r))
                    } else {
                        None
                    },
                    None => None,
                },
                Err(_) => None,
            },
            _ => None,
        },
    }
}

pub open spec fn decode_items(shapes: Seq<Datum>, p: Seq<u8>) -> Option<Seq<Datum>>
    decreases shapes,
{
    if shapes.len() == 0 {
        if p.len() == 0 {
            Some(seq![])
        } else {
            None
        }
    } else {
        match decoding(shapes[0], p) {
            Some((v, q)) => match decode_items(shapes.subrange(1, shapes.len() as int), q) {
                Some(vs) => Some(seq![v] + vs),
                None => None,
            },
            None => None,
        }
    }
}

pub open spec fn decode_entries(shapes: Seq<(Datum, Datum)>, p: Seq<u8>) -> Option<
    Seq<(Datum, Datum)>,
>
    decreases shapes,
{
    if shapes.len() == 0 {
        if p.len() == 0 {
            Some(seq![])
        } else {
            None
        }
    } else {
        match decoding(shapes[0].0, p) {
            Some((k, q)) => match decoding(shapes[0].1, q) {
                Some((v, q2)) => match decode_entries(
                    shapes.subrange(1, shapes.len() as int),
                    q2,
                ) {
                    Some(vs) => Some(seq![(k, v)] + vs),
                    None => None,
                },
                None => None,
            },
            None => None,
        }
    }
}

/// A top-level decode: the value when it uses up the input, `UnusedParseData`
/// when bytes are left over, `None` when the value itself cannot be read.
pub open spec fn decode_whole(d: Datum, s: Seq<u8>) -> Option<Result<Datum, Error>> {
    match decoding(d, s) {
        Some((v, r)) => Some(
            if r.len() == 0 {
                Ok(v)
            } else {
                Err(Error::UnusedParseData)
            },
        ),
        None => None,
    }
}

/// Values written as the null frame.
pub open spec fn encodes_null(d: Datum) -> bool
    decreases d,
{
    match d {
        Datum::Unit => true,
        Datum::Absent => true,
        Datum::Present(x) => encodes_null(*x),
        _ => false,
    }
}

/// The values that survive a round trip: all but a present optional value
/// whose content is itself written as the null frame (`Some(())`), which
/// reads back as absent.
pub open spec fn supported(d: Datum) -> bool
    decreases d,
{
    match d {
        Datum::Present(x) => !encodes_null(*x) && supported(*x),
        Datum::List(items) => forall|i: int| 0 <= i < items.len() ==> supported(#[trigger] items[i]),
        Datum::Dict(entries) => forall|i: int|
            0 <= i < entries.len() ==> supported(#[trigger] entries[i].0) && supported(
                entries[i].1,
            ),
        Datum::Variant(_, x) => supported(*x),
        _ => true,
    }
}

/// A frame with any tag but the null tag does not open with the null frame.
proof fn lemma_frame_not_null(p: Seq<u8>, t: u8, rest: Seq<u8>)
    requires
        t != TAG_NULL,
    ensures
        !starts_with(frame(p, t) + rest, null_frame()),
{
    let s = frame(p, t) + rest;
    let d = decimal(p.len());
    lemma_decimal(p.len());
    if starts_with(s, null_frame()) {
        assert(s.take(3)[0] == s[0] && s.take(3)[1] == s[1] && s.take(3)[2] == s[2]);
        if d.len() >= 2 {
            assert(s[1] == d[1]);
            assert(is_digit(d[1]));
        } else {
            if p.len() >= 10 {
                lemma_decimal(p.len() / 10);
                assert(d.len() >= 2);
            }
            assert(d =~= seq![(ZERO + p.len()) as u8]);
            assert(s[0] == d[0]);
            assert(p.len() == 0);
            assert(s[2] == t);
        }
    }
}

proof fn lemma_not_null_encoding(d: Datum, rest: Seq<u8>)
    requires
        !encodes_null(d),
    ensures
        !starts_with(encoding(d) + rest, null_frame()),
    decreases d,
{
    let s = encoding(d) + rest;
    match d {
        Datum::Bool(b) => {
            assert(s.take(3)[0] == s[0]);
            if b {
                assert(s[0] == true_frame()[0]);
            } else {
                assert(s[0] == false_frame()[0]);
            }
        },
        Datum::Unsigned(n) => lemma_frame_not_null(decimal(n as nat), TAG_INT, rest),
        Datum::Signed(i) => lemma_frame_not_null(int_text(i as int), TAG_INT, rest),
        Datum::Text(t) => lemma_frame_not_null(encode_utf8(t), TAG_STR, rest),
        Datum::Present(x) => lemma_not_null_encoding(*x, rest),
        Datum::List(items) => lemma_frame_not_null(encode_items(items), TAG_LIST, rest),
        Datum::Dict(entries) => lemma_frame_not_null(encode_entries(entries), TAG_DICT, rest),
        Datum::UnitVariant(name) => lemma_frame_not_null(encode_utf8(name), TAG_STR, rest),
        Datum::Variant(name, x) => lemma_frame_not_null(
            frame(encode_utf8(name), TAG_STR) + encoding(*x),
            TAG_DICT,
            rest,
        ),
        _ => {},
    }
}

proof fn lemma_signed_value(i: int)
    requires
        i64::MIN <= i <= i64::MAX,
    ensures
        signed_value(int_text(i)) == Some(i),
{
    let t = int_text(i);
    if i < 0 {
        lemma_decimal((-i) as nat);
        assert(t.skip(1) =~= decimal((-i) as nat));
    } else {
        lemma_decimal(i as nat);
        assert(is_digit(t[0]));
    }
}

proof fn lemma_text_frame(t: Seq<char>, tag: u8, rest: Seq<u8>)
    ensures
        frame_bounds(frame(encode_utf8(t), tag) + rest) is Ok,
        valid_utf8(encode_utf8(t)),
        decode_utf8(encode_utf8(t)) == t,
{
    lemma_frame_bounds(encode_utf8(t), tag, rest);
    encode_utf8_valid_utf8(t);
    encode_utf8_decode_utf8(t);
}

proof fn lemma_decode_bool(b: bool, rest: Seq<u8>)
    ensures
        decoding(Datum::Bool(b), encoding(Datum::Bool(b)) + rest) == Some((Datum::Bool(b), rest)),
{
    let s = encoding(Datum::Bool(b)) + rest;
    if b {
        assert(s.take(7) =~= true_frame());
        assert(s.skip(7) =~= rest);
    } else {
        assert(s.take(7)[0] == s[0]);
        assert(s.take(8) =~= false_frame());
        assert(s.skip(8) =~= rest);
    }
}

proof fn lemma_decode_unsigned(n: u64, rest: Seq<u8>)
    ensures
        decoding(Datum::Unsigned(n), encoding(Datum::Unsigned(n)) + rest) == Some(
            (Datum::Unsigned(n), rest),
        ),
{
    lemma_frame_bounds(decimal(n as nat), TAG_INT, rest);
    lemma_decimal(n as nat);
}

proof fn lemma_decode_signed(i: i64, rest: Seq<u8>)
    ensures
        decoding(Datum::Signed(i), encoding(Datum::Signed(i)) + rest) == Some(
            (Datum::Signed(i), rest),
        ),
{
    lemma_frame_bounds(int_text(i as int), TAG_INT, rest);
    lemma_signed_value(i as int);
}

proof fn lemma_decode_text(t: Seq<char>, rest: Seq<u8>)
    ensures
        decoding(Datum::Text(t), encoding(Datum::Text(t)) + rest) == Some((Datum::Text(t), rest)),
        decoding(Datum::UnitVariant(t), encoding(Datum::UnitVariant(t)) + rest) == Some(
            (Datum::UnitVariant(t), rest),
        ),
{
    lemma_frame_bounds(encode_utf8(t), TAG_STR, rest);
    lemma_text_frame(t, TAG_STR, rest);
}

proof fn lemma_decode_null(rest: Seq<u8>)
    ensures
        decoding(Datum::Unit, encoding(Datum::Unit) + rest) == Some((Datum::Unit, rest)),
        decoding(Datum::Absent, encoding(Datum::Absent) + rest) == Some((Datum::Absent, rest)),
{
    let s = null_frame() + rest;
    assert(s.take(3) =~= null_frame());
    assert(s.skip(3) =~= rest);
}

proof fn lemma_decode_list(items: Seq<Datum>, rest: Seq<u8>)
    requires
        decode_items(items, encode_items(items)) == Some(items),
    ensures
        decoding(Datum::List(items), encoding(Datum::List(items)) + rest) == Some(
            (Datum::List(items), rest),
        ),
{
    lemma_frame_bounds(encode_items(items), TAG_LIST, rest);
}

proof fn lemma_decode_dict(entries: Seq<(Datum, Datum)>, rest: Seq<u8>)
    requires
        decode_entries(entries, encode_entries(entries)) == Some(entries),
    ensures
        decoding(Datum::Dict(entries), encoding(Datum::Dict(entries)) + rest) == Some(
            (Datum::Dict(entries), rest),
        ),
{
    lemma_frame_bounds(encode_entries(entries), TAG_DICT, rest);
}

proof fn lemma_decode_variant(name: Seq<char>, x: Datum, rest: Seq<u8>)
    requires
        decoding(x, encoding(x)) == Some((x, Seq::<u8>::empty())),
    ensures
        decoding(
            Datum::Variant(name, Box::new(x)),
            encoding(Datum::Variant(name, Box::new(x))) + rest,
        ) == Some((Datum::Variant(name, Box::new(x)), rest)),
{
    let inner = encoding(x);
    let content = frame(encode_utf8(name), TAG_STR) + inner;
    lemma_frame_bounds(content, TAG_DICT, rest);
    lemma_frame_bounds(encode_utf8(name), TAG_STR, inner);
    lemma_text_frame(name, TAG_STR, inner);
}

/// The decoder reads back what the encoder wrote for a supported value, and
/// leaves whatever followed it.
pub proof fn lemma_decoding(d: Datum, rest: Seq<u8>)
    requires
        supported(d),
    ensures
        decoding(d, encoding(d) + rest) == Some((d, rest)),
    decreases d,
{
    match d {
        Datum::Bool(b) => lemma_decode_bool(b, rest),
        Datum::Unsigned(n) => lemma_decode_unsigned(n, rest),
        Datum::Signed(i) => lemma_decode_signed(i, rest),
        Datum::Text(t) => lemma_decode_text(t, rest),
        Datum::Unit => lemma_decode_null(rest),
        Datum::Absent => lemma_decode_null(rest),
        Datum::Present(x) => {
            lemma_not_null_encoding(*x, rest);
            lemma_decoding(*x, rest);
        },
        Datum::List(items) => {
            lemma_decode_items(items);
            lemma_decode_list(items, rest);
        },
        Datum::Dict(entries) => {
            lemma_decode_entries(entries);
            lemma_decode_dict(entries, rest);
        },
        Datum::UnitVariant(name) => lemma_decode_text(name, rest),
        Datum::Variant(name, x) => {
            lemma_decoding(*x, seq![]);
            assert(encoding(*x) + seq![] =~= encoding(*x));
            lemma_decode_variant(name, *x, rest);
        },
    }
}

proof fn lemma_decode_items(items: Seq<Datum>)
    requires
        forall|i: int| 0 <= i < items.len() ==> supported(#[trigger] items[i]),
    ensures
        decode_items(items, encode_items(items)) == Some(items),
    decreases items,
{
    if items.len() > 0 {
        let tail = items.subrange(1, items.len() as int);
        assert forall|i: int| 0 <= i < tail.len() implies supported(#[trigger] tail[i]) by {
            assert(tail[i] == items[i + 1]);
        }
        assert(supported(items[0]));
        lemma_decoding(items[0], encode_items(tail));
        lemma_decode_items(tail);
        assert(seq![items[0]] + tail =~= items);
    }
}

proof fn lemma_decode_entries(entries: Seq<(Datum, Datum)>)
    requires
        forall|i: int|
            0 <= i < entries.len() ==> supported(#[trigger] entries[i].0) && supported(
                entries[i].1,
            ),
    ensures
        decode_entries(entries, encode_entries(entries)) == Some(entries),
    decreases entries,
{
    if entries.len() > 0 {
        let tail = entries.subrange(1, entries.len() as int);
        assert forall|i: int| 0 <= i < tail.len() implies supported(#[trigger] tail[i].0)
            && supported(tail[i].1) by {
            assert(tail[i] == entries[i + 1]);
        }
        assert(supported(entries[0].0) && supported(entries[0].1));
        let k = encoding(entries[0].0);
        let v = encoding(entries[0].1);
        assert(k + v + encode_entries(tail) =~= k + (v + encode_entries(tail)));
        lemma_decoding(entries[0].0, v + encode_entries(tail));
        lemma_decoding(entries[0].1, encode_entries(tail));
        lemma_decode_entries(tail);
        assert(seq![(entries[0].0, entries[0].1)] + tail =~= entries);
    }
}

proof fn lemma_append_top_twice(stack: Seq<Seq<u8>>, a: Seq<u8>, b: Seq<u8>)
    requires
        stack.len() >= 1,
    ensures
        append_top(append_top(stack, a), b) == append_top(stack, a + b),
{
    assert(stack.last() + a + b =~= stack.last() + (a + b));
    assert(append_top(append_top(stack, a), b) =~= append_top(stack, a + b));
}

/// Walking the encoder through a value appends exactly that value's encoding
/// to the top buffer: every compound opened on the way is closed again, with
/// a length prefix that counts its content.
pub proof fn lemma_emit(stack: Seq<Seq<u8>>, d: Datum)
    requires
        stack.len() >= 1,
    ensures
        emit(stack, d) == append_top(stack, encoding(d)),
    decreases d,
{
    match d {
        Datum::Present(x) => lemma_emit(stack, *x),
        Datum::List(items) => {
            let opened = stack.push(seq![]);
            lemma_emit_items(opened, items);
            assert(append_top(opened, encode_items(items)) =~= stack.push(encode_items(items)));
            assert(stack.push(encode_items(items)).drop_last() =~= stack);
        },
        Datum::Dict(entries) => {
            let opened = stack.push(seq![]);
            lemma_emit_entries(opened, entries);
            assert(append_top(opened, encode_entries(entries)) =~= stack.push(
                encode_entries(entries),
            ));
            assert(stack.push(encode_entries(entries)).drop_last() =~= stack);
        },
        Datum::Variant(name, x) => {
            let head = frame(encode_utf8(name), TAG_STR);
            let opened = stack.push(head);
            lemma_emit(opened, *x);
            assert(append_top(opened, encoding(*x)) =~= stack.push(head + encoding(*x)));
            assert(stack.push(head + encoding(*x)).drop_last() =~= stack);
        },
        _ => {},
    }
}

proof fn lemma_emit_items(stack: Seq<Seq<u8>>, items: Seq<Datum>)
    requires
        stack.len() >= 1,
    ensures
        emit_items(stack, items) == append_top(stack, encode_items(items)),
    decreases items,
{
    if items.len() == 0 {
        assert(append_top(stack, seq![]) =~= stack);
    } else {
        let tail = items.subrange(1, items.len() as int);
        lemma_emit(stack, items[0]);
        lemma_emit_items(append_top(stack, encoding(items[0])), tail);
        lemma_append_top_twice(stack, encoding(items[0]), encode_items(tail));
    }
}

proof fn lemma_emit_entries(stack: Seq<Seq<u8>>, entries: Seq<(Datum, Datum)>)
    requires
        stack.len() >= 1,
    ensures
        emit_entries(stack, entries) == append_top(stack, encode_entries(entries)),
    decreases entries,
{
    if entries.len() == 0 {
        assert(append_top(stack, seq![]) =~= stack);
    } else {
        let tail = entries.subrange(1, entries.len() as int);
        let k = encoding(entries[0].0);
        let v = encoding(entries[0].1);
        lemma_emit(stack, entries[0].0);
        lemma_emit(append_top(stack, k), entries[0].1);
        lemma_append_top_twice(stack, k, v);
        lemma_emit_entries(append_top(stack, k + v), tail);
        lemma_append_top_twice(stack, k + v, encode_entries(tail));
    }
}

/// What the encoder writes is valid UTF-8.
pub proof fn lemma_encoding_valid_utf8(d: Datum)
    ensures
        valid_utf8(encoding(d)),
    decreases d,
{
    match d {
        Datum::Bool(b) => {
            let f = encoding(d);
            assert(all_ascii(f));
            lemma_ascii_valid_utf8(f);
        },
        Datum::Unsigned(n) => {
            lemma_int_text_valid_utf8(n as int);
            lemma_frame_valid_utf8(decimal(n as nat), TAG_INT);
        },
        Datum::Signed(i) => {
            lemma_int_text_valid_utf8(i as int);
            lemma_frame_valid_utf8(int_text(i as int), TAG_INT);
        },
        Datum::Text(t) => {
            encode_utf8_valid_utf8(t);
            lemma_frame_valid_utf8(encode_utf8(t), TAG_STR);
        },
        Datum::Present(x) => lemma_encoding_valid_utf8(*x),
        Datum::List(items) => {
            lemma_items_valid_utf8(items);
            lemma_frame_valid_utf8(encode_items(items), TAG_LIST);
        },
        Datum::Dict(entries) => {
            lemma_entries_valid_utf8(entries);
            lemma_frame_valid_utf8(encode_entries(entries), TAG_DICT);
        },
        Datum::UnitVariant(name) => {
            encode_utf8_valid_utf8(name);
            lemma_frame_valid_utf8(encode_utf8(name), TAG_STR);
        },
        Datum::Variant(name, x) => {
            encode_utf8_valid_utf8(name);
            lemma_frame_valid_utf8(encode_utf8(name), TAG_STR);
            lemma_encoding_valid_utf8(*x);
            valid_utf8_concat(frame(encode_utf8(name), TAG_STR), encoding(*x));
            lemma_frame_valid_utf8(frame(encode_utf8(name), TAG_STR) + encoding(*x), TAG_DICT);
        },
        _ => {
            let f = null_frame();
            assert(all_ascii(f));
            lemma_ascii_valid_utf8(f);
        },
    }
}

proof fn lemma_items_valid_utf8(items: Seq<Datum>)
    ensures
        valid_utf8(encode_items(items)),
    decreases items,
{
    if items.len() == 0 {
        assert(all_ascii(encode_items(items)));
        lemma_ascii_valid_utf8(encode_items(items));
    } else {
        let tail = items.subrange(1, items.len() as int);
        lemma_encoding_valid_utf8(items[0]);
        lemma_items_valid_utf8(tail);
        valid_utf8_concat(encoding(items[0]), encode_items(tail));
    }
}

proof fn lemma_entries_valid_utf8(entries: Seq<(Datum, Datum)>)
    ensures
        valid_utf8(encode_entries(entries)),
    decreases entries,
{
    if entries.len() == 0 {
        assert(all_ascii(encode_entries(entries)));
        lemma_ascii_valid_utf8(encode_entries(entries));
    } else {
        let tail = entries.subrange(1, entries.len() as int);
        lemma_encoding_valid_utf8(entries[0].0);
        lemma_encoding_valid_utf8(entries[0].1);
        lemma_entries_valid_utf8(tail);
        valid_utf8_concat(encoding(entries[0].0), encoding(entries[0].1));
        valid_utf8_concat(encoding(entries[0].0) + encoding(entries[0].1), encode_entries(tail));
    }
}

/// Round trip: encoding a supported value from a fresh encoder leaves one
/// buffer, holding the value's encoding, which is text; decoding that output
/// as the same shape gives the value back and uses up the input.
pub proof fn lemma_round_trip(d: Datum)
    requires
        supported(d),
    ensures
        emit(seq![Seq::<u8>::empty()], d) == seq![encoding(d)],
        valid_utf8(encoding(d)),
        decode_whole(d, encoding(d)) == Some(Ok::<Datum, Error>(d)),
{
    lemma_encoding_valid_utf8(d);
    lemma_emit(seq![Seq::<u8>::empty()], d);
    assert(append_top(seq![Seq::<u8>::empty()], encoding(d)) =~= seq![encoding(d)]);
    lemma_decoding(d, seq![]);
    assert(encoding(d) + seq![] =~= encoding(d));
}

/// A well-formed value followed by more bytes is rejected as a whole: the
/// value reads back, and the bytes left over are `UnusedParseData`.
pub proof fn lemma_trailing_data(d: Datum, extra: Seq<u8>)
    requires
        supported(d),
        extra.len() > 0,
    ensures
        decode_whole(d, encoding(d) + extra) == Some(Err::<Datum, Error>(Error::UnusedParseData)),
{
    lemma_decoding(d, extra);
}

} // verus!
