//! The typed decoder: a cursor over borrowed input from which a data model
//! pulls one value at a time, shaped as it asks (a bool, an integer, a string,
//! a sequence, a map, an enum). Strings come back borrowed from the input.
use crate::error::Error;
use crate::frame::{
    decimal, digits_value, frame, frame_bounds, lemma_decimal, lemma_decimal_one_digit,
    lemma_frame_one_short, split_frame, FrameError, COLON, MINUS, TAG_BOOL, TAG_DICT, TAG_FLOAT,
    TAG_INT, TAG_LIST, TAG_NULL, TAG_STR,
};
use crate::text::{all_digits, digits_to_u64, has_prefix, starts_with, utf8_text};
use vstd::prelude::*;
use vstd::utf8::*;

verus! {

/// `0:~`, the null frame.
pub open spec fn null_frame() -> Seq<u8> {
    seq![0x30u8, COLON, TAG_NULL]
}

/// `4:true!`
pub open spec fn true_frame() -> Seq<u8> {
    seq![0x34u8, COLON, 0x74, 0x72, 0x75, 0x65, TAG_BOOL]
}

/// `5:false!`
pub open spec fn false_frame() -> Seq<u8> {
    seq![0x35u8, COLON, 0x66, 0x61, 0x6c, 0x73, 0x65, TAG_BOOL]
}

/// `true`
pub open spec fn true_text() -> Seq<u8> {
    seq![0x74u8, 0x72, 0x75, 0x65]
}

/// `false`
pub open spec fn false_text() -> Seq<u8> {
    seq![0x66u8, 0x61, 0x6c, 0x73, 0x65]
}

/// The error for a frame that does not split: `header` where its length prefix
/// is malformed, `Eof` where it declares more bytes than remain.
pub open spec fn split_error(e: FrameError, header: Error) -> Error {
    match e {
        FrameError::Header => header,
        FrameError::Truncated => Error::Eof,
    }
}

/// A call that either read a value and left the cursor at `after`, or failed
/// and left the cursor where it was.
pub open spec fn advances_as<T>(
    r: Result<T, Error>,
    expected: Result<(T, Seq<u8>), Error>,
    before: Seq<u8>,
    after: Seq<u8>,
) -> bool {
    match r {
        Ok(v) => expected == Ok::<(T, Seq<u8>), Error>((v, after)),
        Err(e) => expected == Err::<(T, Seq<u8>), Error>(e) && after == before,
    }
}

/// A bool is the exact text `4:true!` or `5:false!`; the content is compared.
pub open spec fn bool_step(s: Seq<u8>) -> Result<(bool, Seq<u8>), Error> {
    if starts_with(s, true_frame()) {
        Ok((true, s.skip(7)))
    } else if starts_with(s, false_frame()) {
        Ok((false, s.skip(8)))
    } else {
        Err(Error::ParsingBool)
    }
}

pub open spec fn unit_step(s: Seq<u8>) -> Result<((), Seq<u8>), Error> {
    if starts_with(s, null_frame()) {
        Ok(((), s.skip(3)))
    } else {
        Err(Error::ParsingUnit)
    }
}

/// An unsigned integer: the payload is all digits (none reads as zero) and fits in a `u64`.
pub open spec fn unsigned_step(s: Seq<u8>) -> Result<(u64, Seq<u8>), Error> {
    match frame_bounds(s) {
        Err(e) => Err(split_error(e, Error::ParsingUnsigned)),
        Ok((a, b)) => {
            let t = s.subrange(a, b);
            if all_digits(t) && digits_value(t) <= u64::MAX {
                Ok((digits_value(t) as u64, s.skip(b + 1)))
            } else {
                Err(Error::ParsingUnsigned)
            }
        },
    }
}

/// The signed value of an integer payload: digits, after a `-` for a negative number.
pub open spec fn signed_value(t: Seq<u8>) -> Option<int> {
    if t.len() > 0 && t[0] == MINUS {
        let m = t.skip(1);
        if all_digits(m) && digits_value(m) <= 0x8000_0000_0000_0000 {
            Some(-(digits_value(m) as int))
        } else {
            None
        }
    } else if all_digits(t) && digits_value(t) <= i64::MAX {
        Some(digits_value(t) as int)
    } else {
        None
    }
}

pub open spec fn signed_step(s: Seq<u8>) -> Result<(i64, Seq<u8>), Error> {
    match frame_bounds(s) {
        Err(e) => Err(split_error(e, Error::ParsingUnsigned)),
        Ok((a, b)) => match signed_value(s.subrange(a, b)) {
            Some(v) => Ok((v as i64, s.skip(b + 1))),
            None => Err(Error::ParsingUnsigned),
        },
    }
}

/// A string: a frame tagged `,` whose payload is valid UTF-8.
pub open spec fn string_step(s: Seq<u8>) -> Result<(Seq<char>, Seq<u8>), Error> {
    match frame_bounds(s) {
        Err(e) => Err(split_error(e, Error::ParsingString)),
        Ok((a, b)) => if s[b] != TAG_STR {
            Err(Error::ParsingString)
        } else if !valid_utf8(s.subrange(a, b)) {
            Err(Error::NonUtf8Str)
        } else {
            Ok((decode_utf8(s.subrange(a, b)), s.skip(b + 1)))
        },
    }
}

/// A sequence or a map: a frame with the given tag; its payload holds the
/// elements and becomes the cursor that they are read from.
pub open spec fn compound_step(s: Seq<u8>, tag: u8, err: Error) -> Result<
    (Seq<u8>, Seq<u8>),
    Error,
> {
    match frame_bounds(s) {
        Err(e) => Err(split_error(e, err)),
        Ok((a, b)) => if s[b] != tag {
            Err(err)
        } else {
            Ok((s.subrange(a, b), s.skip(b + 1)))
        },
    }
}

/// The tag of the next frame, which trails its payload.
pub open spec fn tag_step(s: Seq<u8>) -> Result<u8, Error> {
    if s.len() == 0 {
        Err(Error::Eof)
    } else {
        match frame_bounds(s) {
            Err(e) => Err(split_error(e, Error::ParsingLength)),
            Ok((a, b)) => Ok(s[b]),
        }
    }
}

/// The kinds of value that a frame may hold, by its tag.
#[derive(Clone, Copy, Debug, PartialEq, Eq, Structural)]
pub enum Kind {
    Unit,
    Bool,
    Str,
    Float,
    Int,
    List,
    Dict,
}

pub open spec fn kind_of_tag(t: u8) -> Option<Kind> {
    if t == TAG_NULL {
        Some(Kind::Unit)
    } else if t == TAG_BOOL {
        Some(Kind::Bool)
    } else if t == TAG_STR {
        Some(Kind::Str)
    } else if t == TAG_FLOAT {
        Some(Kind::Float)
    } else if t == TAG_INT {
        Some(Kind::Int)
    } else if t == TAG_LIST {
        Some(Kind::List)
    } else if t == TAG_DICT {
        Some(Kind::Dict)
    } else {
        None
    }
}

pub open spec fn kind_step(s: Seq<u8>) -> Result<Kind, Error> {
    match tag_step(s) {
        Err(e) => Err(e),
        Ok(t) => match kind_of_tag(t) {
            Some(k) => Ok(k),
            None => Err(Error::UnknownSegmentType),
        },
    }
}

/// How an enum value is framed: a bare string holding a unit variant's name,
/// or a map frame whose payload holds the variant's name and its content.
pub enum EnumShape {
    Name(Seq<char>),
    Payload(Seq<u8>),
}

pub open spec fn enum_step(s: Seq<u8>) -> Result<(EnumShape, Seq<u8>), Error> {
    match frame_bounds(s) {
        Err(e) => Err(split_error(e, Error::ParsingEnum)),
        Ok((a, b)) => if s[b] == TAG_STR {
            if valid_utf8(s.subrange(a, b)) {
                Ok((EnumShape::Name(decode_utf8(s.subrange(a, b))), s.skip(b + 1)))
            } else {
                Err(Error::NonUtf8Str)
            }
        } else if s[b] == TAG_DICT {
            Ok((EnumShape::Payload(s.subrange(a, b)), s.skip(b + 1)))
        } else {
            Err(Error::ParsingEnum)
        },
    }
}

/// The typed decoder reads a bool frame only when its payload is exactly
/// `true` or `false`: any other payload, of four, five or any other length,
/// is an error and is never coerced.
pub proof fn lemma_bool_exact(p: Seq<u8>, rest: Seq<u8>)
    ensures
        bool_step(frame(p, TAG_BOOL) + rest) == (if p == true_text() {
            Ok::<(bool, Seq<u8>), Error>((true, rest))
        } else if p == false_text() {
            Ok::<(bool, Seq<u8>), Error>((false, rest))
        } else {
            Err::<(bool, Seq<u8>), Error>(Error::ParsingBool)
        }),
{
    let s = frame(p, TAG_BOOL) + rest;
    let d = decimal(p.len());
    lemma_decimal(p.len());
    lemma_decimal_one_digit(p.len());
    if p == true_text() {
        assert(s.take(7) =~= true_frame());
        assert(s.skip(7) =~= rest);
    } else if p == false_text() {
        assert(s.take(7)[0] == s[0]);
        assert(s.take(8) =~= false_frame());
        assert(s.skip(8) =~= rest);
    } else {
        if starts_with(s, true_frame()) {
            assert(s[0] == s.take(7)[0] && s[1] == s.take(7)[1]);
            if p.len() >= 10 {
                assert(s[1] == d[1]);
            }
            assert(s[0] == d[0]);
            assert(p.len() == 4);
            assert(p =~= s.take(7).subrange(2, 6));
            assert(p =~= true_text());
        }
        if starts_with(s, false_frame()) {
            assert(s[0] == s.take(8)[0] && s[1] == s.take(8)[1]);
            if p.len() >= 10 {
                assert(s[1] == d[1]);
            }
            assert(s[0] == d[0]);
            assert(p.len() == 5);
            assert(p =~= s.take(8).subrange(2, 7));
            assert(p =~= false_text());
        }
    }
}

/// A frame cut one byte short reads as `Eof` in the typed decoder, whatever
/// shape is asked for.
pub proof fn lemma_one_byte_short(p: Seq<u8>, tag: u8)
    ensures
        unsigned_step(frame(p, tag).drop_last()) == Err::<(u64, Seq<u8>), Error>(Error::Eof),
        signed_step(frame(p, tag).drop_last()) == Err::<(i64, Seq<u8>), Error>(Error::Eof),
        string_step(frame(p, tag).drop_last()) == Err::<(Seq<char>, Seq<u8>), Error>(Error::Eof),
        compound_step(frame(p, tag).drop_last(), TAG_LIST, Error::ParsingSeq) == Err::<
            (Seq<u8>, Seq<u8>),
            Error,
        >(Error::Eof),
        compound_step(frame(p, tag).drop_last(), TAG_DICT, Error::ParsingMap) == Err::<
            (Seq<u8>, Seq<u8>),
            Error,
        >(Error::Eof),
        enum_step(frame(p, tag).drop_last()) == Err::<(EnumShape, Seq<u8>), Error>(Error::Eof),
        tag_step(frame(p, tag).drop_last()) == Err::<u8, Error>(Error::Eof),
{
    lemma_frame_one_short(p, tag);
}

/// A cursor over the part of the input that is still to be decoded.
pub struct Deserializer<'de> {
    input: &'de [u8],
}

impl<'de> View for Deserializer<'de> {
    type V = Seq<u8>;

    closed spec fn view(&self) -> Seq<u8> {
        self.input@
    }
}

/// What an enum frame holds, as `Deserializer::parse_enum` found it.
pub enum Variant<'de> {
    /// A unit variant, by name.
    Unit(&'de str),
    /// The payload of a one-pair map: the variant's name, then its content.
    Payload(Deserializer<'de>),
}

impl<'de> View for Variant<'de> {
    type V = EnumShape;

    open spec fn view(&self) -> EnumShape {
        match self {
            Variant::Unit(name) => EnumShape::Name(name@),
            Variant::Payload(d) => EnumShape::Payload(d@),
        }
    }
}

impl<'de> Deserializer<'de> {
    /// A cursor at the start of the text's bytes.
    pub fn from_str(input: &'de str) -> (r: Self)
        ensures
            r@ == encode_utf8(input@),
    {
        Deserializer { input: input.as_bytes() }
    }

    /// A cursor at the start of `input`.
    pub fn from_bytes(input: &'de [u8]) -> (r: Self)
        ensures
            r@ == input@,
    {
        Deserializer { input }
    }

    /// Whether all of the input has been consumed.
    pub fn is_empty(&self) -> (r: bool)
        ensures
            r == (self@.len() == 0),
    {
        self.input.len() == 0
    }

    /// Succeeds when all of the input has been consumed; trailing bytes are an error.
    pub fn end(&self) -> (r: Result<(), Error>)
        ensures
            r == (if self@.len() == 0 {
                Ok::<(), Error>(())
            } else {
                Err::<(), Error>(Error::UnusedParseData)
            }),
    {
        if self.input.len() == 0 {
            Ok(())
        } else {
            Err(Error::UnusedParseData)
        }
    }

    /// Moves the cursor past the first `n` bytes.
    fn advance(&mut self, n: usize)
        requires
            n <= old(self)@.len(),
        ensures
            final(self)@ == old(self)@.skip(n as int),
    {
        let inp = self.input;
        self.input = &inp[n..inp.len()];
    }

    /// Reads `4:true!` or `5:false!`.
    pub fn parse_bool(&mut self) -> (r: Result<bool, Error>)
        ensures
            advances_as(r, bool_step(old(self)@), old(self)@, final(self)@),
    {
        let t: [u8; 7] = [0x34, COLON, 0x74, 0x72, 0x75, 0x65, TAG_BOOL];
        let f: [u8; 8] = [0x35, COLON, 0x66, 0x61, 0x6c, 0x73, 0x65, TAG_BOOL];
        assert(t@ =~= true_frame());
        assert(f@ =~= false_frame());
        if has_prefix(self.input, t.as_slice()) {
            self.advance(7);
            Ok(true)
        } else if has_prefix(self.input, f.as_slice()) {
            self.advance(8);
            Ok(false)
        } else {
            Err(Error::ParsingBool)
        }
    }

    /// The tag of the next frame: its last byte, which tells what kind of value it holds.
    pub fn last_char(&self) -> (r: Result<u8, Error>)
        ensures
            r == tag_step(self@),
    {
        if self.input.len() == 0 {
            return Err(Error::Eof);
        }
        match split_frame(self.input) {
            Ok((_, b)) => Ok(self.input[b]),
            Err(FrameError::Header) => Err(Error::ParsingLength),
            Err(FrameError::Truncated) => Err(Error::Eof),
        }
    }

    /// The kind of value that the next frame holds, by its tag.
    pub fn next_kind(&self) -> (r: Result<Kind, Error>)
        ensures
            r == kind_step(self@),
    {
        let t = self.last_char()?;
        if t == TAG_NULL {
            Ok(Kind::Unit)
        } else if t == TAG_BOOL {
            Ok(Kind::Bool)
        } else if t == TAG_STR {
            Ok(Kind::Str)
        } else if t == TAG_FLOAT {
            Ok(Kind::Float)
        } else if t == TAG_INT {
            Ok(Kind::Int)
        } else if t == TAG_LIST {
            Ok(Kind::List)
        } else if t == TAG_DICT {
            Ok(Kind::Dict)
        } else {
            Err(Error::UnknownSegmentType)
        }
    }

    /// Finds the next frame, or the error for the shape that was asked for.
    fn next_frame(&self, header: Error) -> (r: Result<(usize, usize), Error>)
        ensures
            match r {
                Ok((a, b)) => frame_bounds(self@) == Ok::<(int, int), FrameError>(
                    (a as int, b as int),
                ) && a <= b < self@.len(),
                Err(e) => frame_bounds(self@) is Err && e == split_error(
                    frame_bounds(self@)->Err_0,
                    header,
                ),
            },
    {
        match split_frame(self.input) {
            Ok(p) => Ok(p),
            Err(FrameError::Header) => Err(header),
            Err(FrameError::Truncated) => Err(Error::Eof),
        }
    }

    /// Reads an unsigned integer.
    pub fn parse_unsigned(&mut self) -> (r: Result<u64, Error>)
        ensures
            advances_as(r, unsigned_step(old(self)@), old(self)@, final(self)@),
    {
        let (a, b) = self.next_frame(Error::ParsingUnsigned)?;
        let inp = self.input;
        assert(b < inp.len());
        match digits_to_u64(&inp[a..b], u64::MAX) {
            Some(v) => {
                self.advance(b + 1);
                Ok(v)
            },
            None => Err(Error::ParsingUnsigned),
        }
    }

    /// Reads a signed integer: digits, after a `-` for a negative number.
    pub fn parse_signed(&mut self) -> (r: Result<i64, Error>)
        ensures
            advances_as(r, signed_step(old(self)@), old(self)@, final(self)@),
    {
        let (a, b) = self.next_frame(Error::ParsingUnsigned)?;
        let inp = self.input;
        assert(b < inp.len());
        let t = &inp[a..b];
        let v: i64;
        if t.len() > 0 && t[0] == MINUS {
            let m = &t[1..t.len()];
            assert(m@ =~= t@.skip(1));
            match digits_to_u64(m, 0x8000_0000_0000_0000) {
                Some(n) => {
                    if n == 0x8000_0000_0000_0000 {
                        v = i64::MIN;
                    } else {
                        v = -(n as i64);
                    }
                },
                None => {
                    return Err(Error::ParsingUnsigned);
                },
            }
        } else {
            match digits_to_u64(t, i64::MAX as u64) {
                Some(n) => {
                    v = n as i64;
                },
                None => {
                    return Err(Error::ParsingUnsigned);
                },
            }
        }
        self.advance(b + 1);
        Ok(v)
    }

    /// Reads a string, borrowed from the input.
    pub fn parse_string(&mut self) -> (r: Result<&'de str, Error>)
        ensures
            match r {
                Ok(t) => string_step(old(self)@) == Ok::<(Seq<char>, Seq<u8>), Error>(
                    (t@, final(self)@),
                ),
                Err(e) => string_step(old(self)@) == Err::<(Seq<char>, Seq<u8>), Error>(e)
                    && final(self)@ == old(self)@,
            },
    {
        let (a, b) = self.next_frame(Error::ParsingString)?;
        let inp = self.input;
        if inp[b] != TAG_STR {
            return Err(Error::ParsingString);
        }
        match utf8_text(&inp[a..b]) {
            Some(text) => {
                proof {
                    encode_utf8_decode_utf8(text@);
                }
                self.advance(b + 1);
                Ok(text)
            },
            None => Err(Error::NonUtf8Str),
        }
    }

    /// Reads `0:~`.
    pub fn parse_unit(&mut self) -> (r: Result<(), Error>)
        ensures
            advances_as(r, unit_step(old(self)@), old(self)@, final(self)@),
    {
        let n: [u8; 3] = [0x30, COLON, TAG_NULL];
        assert(n@ =~= null_frame());
        if has_prefix(self.input, n.as_slice()) {
            self.advance(3);
            Ok(())
        } else {
            Err(Error::ParsingUnit)
        }
    }

    /// Reads `0:~` if that is what comes next, for an absent optional value;
    /// otherwise leaves the cursor where it is.
    pub fn parse_none(&mut self) -> (r: bool)
        ensures
            r == starts_with(old(self)@, null_frame()),
            final(self)@ == (if r {
                old(self)@.skip(3)
            } else {
                old(self)@
            }),
    {
        let n: [u8; 3] = [0x30, COLON, TAG_NULL];
        assert(n@ =~= null_frame());
        if has_prefix(self.input, n.as_slice()) {
            self.advance(3);
            true
        } else {
            false
        }
    }

    /// Floating-point values are not supported by the typed decoder: this
    /// always fails, whatever the input holds.
    pub fn parse_float(&self) -> (r: Result<(), Error>)
        ensures
            r == Err::<(), Error>(Error::UnsupportedType),
    {
        Err(Error::UnsupportedType)
    }

    fn parse_compound(&mut self, tag: u8, err: Error) -> (r: Result<Deserializer<'de>, Error>)
        ensures
            match r {
                Ok(d) => compound_step(old(self)@, tag, err) == Ok::<(Seq<u8>, Seq<u8>), Error>(
                    (d@, final(self)@),
                ),
                Err(e) => compound_step(old(self)@, tag, err) == Err::<
                    (Seq<u8>, Seq<u8>),
                    Error,
                >(e) && final(self)@ == old(self)@,
            },
    {
        let (a, b) = match split_frame(self.input) {
            Ok(p) => p,
            Err(FrameError::Header) => {
                return Err(err);
            },
            Err(FrameError::Truncated) => {
                return Err(Error::Eof);
            },
        };
        let inp = self.input;
        if inp[b] != tag {
            return Err(err);
        }
        self.advance(b + 1);
        Ok(Deserializer { input: &inp[a..b] })
    }

    /// Reads the frame of a sequence and returns a cursor over its payload, from
    /// which the elements are read until it is empty.
    pub fn parse_seq(&mut self) -> (r: Result<Deserializer<'de>, Error>)
        ensures
            match r {
                Ok(d) => compound_step(old(self)@, TAG_LIST, Error::ParsingSeq) == Ok::<
                    (Seq<u8>, Seq<u8>),
                    Error,
                >((d@, final(self)@)),
                Err(e) => compound_step(old(self)@, TAG_LIST, Error::ParsingSeq) == Err::<
                    (Seq<u8>, Seq<u8>),
                    Error,
                >(e) && final(self)@ == old(self)@,
            },
    {
        self.parse_compound(TAG_LIST, Error::ParsingSeq)
    }

    /// Reads the frame of a map and returns a cursor over its payload, from
    /// which keys and values are read in turn until it is empty.
    pub fn parse_map(&mut self) -> (r: Result<Deserializer<'de>, Error>)
        ensures
            match r {
                Ok(d) => compound_step(old(self)@, TAG_DICT, Error::ParsingMap) == Ok::<
                    (Seq<u8>, Seq<u8>),
                    Error,
                >((d@, final(self)@)),
                Err(e) => compound_step(old(self)@, TAG_DICT, Error::ParsingMap) == Err::<
                    (Seq<u8>, Seq<u8>),
                    Error,
                >(e) && final(self)@ == old(self)@,
            },
    {
        self.parse_compound(TAG_DICT, Error::ParsingMap)
    }

    /// Reads the frame of an enum value: a string naming a unit variant, or a
    /// map whose one pair holds the variant's name and its content.
    pub fn parse_enum(&mut self) -> (r: Result<Variant<'de>, Error>)
        ensures
            match r {
                Ok(v) => enum_step(old(self)@) == Ok::<(EnumShape, Seq<u8>), Error>(
                    (v@, final(self)@),
                ),
                Err(e) => enum_step(old(self)@) == Err::<(EnumShape, Seq<u8>), Error>(e)
                    && final(self)@ == old(self)@,
            },
    {
        let (a, b) = self.next_frame(Error::ParsingEnum)?;
        let inp = self.input;
        if inp[b] == TAG_STR {
            match utf8_text(&inp[a..b]) {
                Some(name) => {
                    proof {
                        encode_utf8_decode_utf8(name@);
                    }
                    self.advance(b + 1);
                    Ok(Variant::Unit(name))
                },
                None => Err(Error::NonUtf8Str),
            }
        } else if inp[b] == TAG_DICT {
            self.advance(b + 1);
            Ok(Variant::Payload(Deserializer { input: &inp[a..b] }))
        } else {
            Err(Error::ParsingEnum)
        }
    }
}

} // verus!
