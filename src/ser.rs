//! The staged encoder. A compound's length prefix must be written before its
//! content, yet is only known once that content is complete; so each open
//! compound gets a buffer of its own on a stack, and closing it wraps the
//! buffer as a frame and appends that frame to the buffer below.
use crate::de::{false_frame, null_frame, true_frame};
use crate::error::Error;
use crate::frame::{decimal, frame, lemma_decimal, COLON, MINUS, TAG_DICT, TAG_FLOAT, TAG_INT, TAG_LIST, TAG_STR, ZERO};
use crate::text::{all_ascii, lemma_ascii_valid_utf8, utf8_text};
use vstd::prelude::*;
use vstd::utf8::*;

verus! {

/// The decimal text of a signed integer, with a `-` before a negative one.
pub open spec fn int_text(i: int) -> Seq<u8> {
    if i < 0 {
        seq![MINUS] + decimal((-i) as nat)
    } else {
        decimal(i as nat)
    }
}

/// The stack once `bytes` are appended to its top buffer; an empty stack stays empty.
pub open spec fn append_top(stack: Seq<Seq<u8>>, bytes: Seq<u8>) -> Seq<Seq<u8>> {
    if stack.len() == 0 {
        stack
    } else {
        stack.update(stack.len() - 1, stack.last() + bytes)
    }
}

/// The stack once its top buffer is wrapped as a frame with `tag` and appended to the buffer below.
pub open spec fn close_top(stack: Seq<Seq<u8>>, tag: u8) -> Seq<Seq<u8>> {
    append_top(stack.drop_last(), frame(stack.last(), tag))
}

/// Decimal digits and the tag bytes are ASCII, so a frame around valid
/// UTF-8 is valid UTF-8.
pub proof fn lemma_frame_valid_utf8(payload: Seq<u8>, tag: u8)
    requires
        valid_utf8(payload),
        tag < 0x80,
    ensures
        valid_utf8(frame(payload, tag)),
{
    let d = decimal(payload.len());
    lemma_decimal(payload.len());
    assert(all_ascii(d));
    lemma_ascii_valid_utf8(d);
    assert(all_ascii(seq![COLON]));
    lemma_ascii_valid_utf8(seq![COLON]);
    assert(all_ascii(seq![tag]));
    lemma_ascii_valid_utf8(seq![tag]);
    valid_utf8_concat(d, seq![COLON]);
    valid_utf8_concat(d + seq![COLON], payload);
    valid_utf8_concat(d + seq![COLON] + payload, seq![tag]);
}

pub proof fn lemma_int_text_valid_utf8(i: int)
    ensures
        valid_utf8(int_text(i)),
{
    lemma_decimal(if i < 0 { (-i) as nat } else { i as nat });
    assert(all_ascii(int_text(i)));
    lemma_ascii_valid_utf8(int_text(i));
}

fn push_decimal(buf: &mut Vec<u8>, n: u64)
    ensures
        final(buf)@ == old(buf)@ + decimal(n as nat),
    decreases n,
{
    if n >= 10 {
        push_decimal(buf, n / 10);
    }
    buf.push(ZERO + (n % 10) as u8);
    assert(final(buf)@ =~= old(buf)@ + decimal(n as nat)) by {
        if n < 10 {
            assert(decimal(n as nat) =~= seq![(ZERO + n) as u8]);
        }
    }
}

fn push_bytes(buf: &mut Vec<u8>, b: &[u8])
    ensures
        final(buf)@ == old(buf)@ + b@,
{
    let mut i: usize = 0;
    while i < b.len()
        invariant
            i <= b@.len(),
            buf@ == old(buf)@ + b@.take(i as int),
        decreases b@.len() - i,
    {
        buf.push(b[i]);
        assert(b@.take(i + 1) =~= b@.take(i as int).push(b@[i as int]));
        i = i + 1;
    }
    assert(b@.take(b@.len() as int) =~= b@);
}

fn push_frame(buf: &mut Vec<u8>, payload: &[u8], tag: u8)
    ensures
        final(buf)@ == old(buf)@ + frame(payload@, tag),
{
    push_decimal(buf, payload.len() as u64);
    buf.push(COLON);
    push_bytes(buf, payload);
    buf.push(tag);
    assert(final(buf)@ =~= old(buf)@ + frame(payload@, tag));
}

fn int_payload(v: i64) -> (r: Vec<u8>)
    ensures
        r@ == int_text(v as int),
{
    let mut text: Vec<u8> = Vec::new();
    if v < 0 {
        text.push(MINUS);
        let magnitude: u64 = if v == i64::MIN {
            0x8000_0000_0000_0000
        } else {
            (-v) as u64
        };
        push_decimal(&mut text, magnitude);
        assert(text@ =~= int_text(v as int));
    } else {
        push_decimal(&mut text, v as u64);
        assert(text@ =~= int_text(v as int));
    }
    text
}

/// The encoder's state: a stack of output buffers, one for each compound that
/// is still open, above the buffer of the whole output.
pub struct Serializer {
    output: Vec<Vec<u8>>,
}

impl View for Serializer {
    type V = Seq<Seq<u8>>;

    closed spec fn view(&self) -> Seq<Seq<u8>> {
        self.output@.map_values(|b: Vec<u8>| b@)
    }
}

impl Serializer {
    /// Every buffer holds valid UTF-8, so the finished output is text. A new
    /// encoder is well formed, and every method keeps it so.
    pub open spec fn wf(&self) -> bool {
        forall|i: int| 0 <= i < self@.len() ==> valid_utf8(#[trigger] self@[i])
    }

    /// An encoder with one empty buffer, for the whole output.
    pub fn new() -> (r: Serializer)
        ensures
            r@ == seq![Seq::<u8>::empty()],
            r.wf(),
    {
        let mut output: Vec<Vec<u8>> = Vec::new();
        output.push(Vec::new());
        let r = Serializer { output };
        assert(r@ =~= seq![Seq::<u8>::empty()]);
        r
    }

    /// The buffers on the stack, bottom first.
    pub fn depth(&self) -> (r: usize)
        ensures
            r == self@.len(),
    {
        self.output.len()
    }

    fn append_to_top(&mut self, bytes: &[u8])
        ensures
            old(self).wf() && valid_utf8(bytes@) ==> final(self).wf(),
            final(self)@ == append_top(old(self)@, bytes@),
    {
        let ghost before = self@;
        match self.output.pop() {
            Some(top) => {
                let mut top = top;
                let ghost old_top = top@;
                push_bytes(&mut top, bytes);
                self.output.push(top);
                assert(self@ =~= append_top(before, bytes@));
                proof {
                    if before.len() > 0 && valid_utf8(before.last()) && valid_utf8(bytes@) {
                        valid_utf8_concat(old_top, bytes@);
                        assert(self@.last() == old_top + bytes@);
                    }
                }
            },
            None => {},
        }
    }

    /// Appends the bytes of `v` to the buffer on top of the stack.
    pub fn add_to_output(&mut self, v: &str)
        ensures
            old(self).wf() ==> final(self).wf(),
            final(self)@ == append_top(old(self)@, encode_utf8(v@)),
    {
        proof {
            encode_utf8_valid_utf8(v@);
        }
        self.append_to_top(v.as_bytes());
    }

    /// Opens a compound: a fresh empty buffer goes on top of the stack.
    pub fn add_string_to_stack(&mut self)
        ensures
            old(self).wf() ==> final(self).wf(),
            final(self)@ == old(self)@.push(Seq::<u8>::empty()),
    {
        let ghost before = self@;
        self.output.push(Vec::new());
        assert(self@ =~= before.push(Seq::<u8>::empty()));
    }

    /// Takes the buffer on top of the stack off it.
    pub fn pop_string(&mut self) -> (r: Option<Vec<u8>>)
        ensures
            old(self).wf() ==> final(self).wf(),
            old(self)@.len() == 0 ==> r is None && final(self)@ == old(self)@,
            old(self)@.len() > 0 ==> (r matches Some(b) && b@ == old(self)@.last()
                && final(self)@ == old(self)@.drop_last()),
    {
        let ghost before = self@;
        let r = self.output.pop();
        assert(self@ =~= if before.len() == 0 {
            before
        } else {
            before.drop_last()
        });
        r
    }

    fn push_frame_to_top(&mut self, payload: &[u8], tag: u8)
        requires
            tag < 0x80,
        ensures
            old(self).wf() && valid_utf8(payload@) ==> final(self).wf(),
            final(self)@ == append_top(old(self)@, frame(payload@, tag)),
    {
        let mut f: Vec<u8> = Vec::new();
        push_frame(&mut f, payload, tag);
        proof {
            if valid_utf8(payload@) {
                lemma_frame_valid_utf8(payload@, tag);
            }
            assert(f@ =~= frame(payload@, tag));
        }
        self.append_to_top(f.as_slice());
    }

    /// Writes `4:true!` or `5:false!`.
    pub fn serialize_bool(&mut self, v: bool)
        ensures
            old(self).wf() ==> final(self).wf(),
            final(self)@ == append_top(old(self)@, if v { true_frame() } else { false_frame() }),
    {
        let t: [u8; 7] = [0x34, COLON, 0x74, 0x72, 0x75, 0x65, 0x21];
        let f: [u8; 8] = [0x35, COLON, 0x66, 0x61, 0x6c, 0x73, 0x65, 0x21];
        assert(t@ =~= true_frame());
        assert(f@ =~= false_frame());
        proof {
            assert(all_ascii(t@));
            lemma_ascii_valid_utf8(t@);
            assert(all_ascii(f@));
            lemma_ascii_valid_utf8(f@);
        }
        if v {
            self.append_to_top(t.as_slice());
        } else {
            self.append_to_top(f.as_slice());
        }
    }

    /// Writes a signed integer as its decimal text under the `#` tag.
    pub fn serialize_i64(&mut self, v: i64)
        ensures
            old(self).wf() ==> final(self).wf(),
            final(self)@ == append_top(old(self)@, frame(int_text(v as int), TAG_INT)),
    {
        let text = int_payload(v);
        proof {
            lemma_int_text_valid_utf8(v as int);
        }
        self.push_frame_to_top(text.as_slice(), TAG_INT);
    }

    /// Writes an unsigned integer as its decimal text under the `#` tag.
    pub fn serialize_u64(&mut self, v: u64)
        ensures
            old(self).wf() ==> final(self).wf(),
            final(self)@ == append_top(old(self)@, frame(decimal(v as nat), TAG_INT)),
    {
        let mut text: Vec<u8> = Vec::new();
        push_decimal(&mut text, v);
        proof {
            assert(text@ =~= decimal(v as nat));
            lemma_int_text_valid_utf8(v as int);
        }
        self.push_frame_to_top(text.as_slice(), TAG_INT);
    }

    /// Writes a string under the `,` tag; the length is that of its UTF-8 bytes.
    pub fn serialize_str(&mut self, v: &str)
        ensures
            old(self).wf() ==> final(self).wf(),
            final(self)@ == append_top(old(self)@, frame(encode_utf8(v@), TAG_STR)),
    {
        proof {
            encode_utf8_valid_utf8(v@);
        }
        self.push_frame_to_top(v.as_bytes(), TAG_STR);
    }

    /// Writes the decimal text of a floating-point number under the `^` tag.
    pub fn serialize_float_text(&mut self, text: &str)
        ensures
            old(self).wf() ==> final(self).wf(),
            final(self)@ == append_top(old(self)@, frame(encode_utf8(text@), TAG_FLOAT)),
    {
        proof {
            encode_utf8_valid_utf8(text@);
        }
        self.push_frame_to_top(text.as_bytes(), TAG_FLOAT);
    }

    /// Writes bytes as a string; they must be valid UTF-8.
    pub fn serialize_bytes(&mut self, v: &[u8]) -> (r: Result<(), Error>)
        ensures
            old(self).wf() ==> final(self).wf(),
            valid_utf8(v@) ==> r is Ok && final(self)@ == append_top(
                old(self)@,
                frame(v@, TAG_STR),
            ),
            !valid_utf8(v@) ==> r == Err::<(), Error>(Error::NonUtf8Str) && final(self)@ == old(
                self,
            )@,
    {
        match utf8_text(v) {
            Some(_) => {
                self.push_frame_to_top(v, TAG_STR);
                Ok(())
            },
            None => Err(Error::NonUtf8Str),
        }
    }

    /// Writes `0:~`, for a unit or an absent value.
    pub fn serialize_unit(&mut self)
        ensures
            old(self).wf() ==> final(self).wf(),
            final(self)@ == append_top(old(self)@, null_frame()),
    {
        let n: [u8; 3] = [0x30, COLON, 0x7e];
        assert(n@ =~= null_frame());
        proof {
            assert(all_ascii(n@));
            lemma_ascii_valid_utf8(n@);
        }
        self.append_to_top(n.as_slice());
    }

    fn end_compound(&mut self, tag: u8) -> (r: Result<(), Error>)
        requires
            tag < 0x80,
        ensures
            old(self).wf() ==> final(self).wf(),
            old(self)@.len() >= 2 ==> r is Ok && final(self)@ == close_top(old(self)@, tag),
            old(self)@.len() < 2 ==> r == Err::<(), Error>(Error::StackProblem) && final(self)@
                == old(self)@,
    {
        if self.output.len() < 2 {
            return Err(Error::StackProblem);
        }
        let ghost before = self@;
        let top = self.output.pop().unwrap();
        proof {
            assert(top@ == before.last());
            assert(self@ =~= before.drop_last());
        }
        self.push_frame_to_top(top.as_slice(), tag);
        Ok(())
    }

    /// Closes the innermost open sequence: its buffer, wrapped as a `]` frame,
    /// is appended to the buffer below.
    pub fn end_seq(&mut self) -> (r: Result<(), Error>)
        ensures
            old(self).wf() ==> final(self).wf(),
            old(self)@.len() >= 2 ==> r is Ok && final(self)@ == close_top(old(self)@, TAG_LIST),
            old(self)@.len() < 2 ==> r == Err::<(), Error>(Error::StackProblem) && final(self)@
                == old(self)@,
    {
        self.end_compound(TAG_LIST)
    }

    /// Closes the innermost open map, struct or variant: its buffer, wrapped as
    /// a `}` frame, is appended to the buffer below.
    pub fn end_map(&mut self) -> (r: Result<(), Error>)
        ensures
            old(self).wf() ==> final(self).wf(),
            old(self)@.len() >= 2 ==> r is Ok && final(self)@ == close_top(old(self)@, TAG_DICT),
            old(self)@.len() < 2 ==> r == Err::<(), Error>(Error::StackProblem) && final(self)@
                == old(self)@,
    {
        self.end_compound(TAG_DICT)
    }

    /// Opens a variant that carries content: a fresh buffer goes on top of the
    /// stack, holding the variant's name as a string frame. The content follows
    /// it, and `end_map` closes both as one map frame.
    pub fn begin_variant(&mut self, name: &str)
        ensures
            old(self).wf() ==> final(self).wf(),
            final(self)@ == old(self)@.push(frame(encode_utf8(name@), TAG_STR)),
    {
        self.add_string_to_stack();
        self.serialize_str(name);
    }

    /// The finished output: the one buffer left once every compound is closed.
    pub fn into_string(self) -> (r: Result<String, Error>)
        ensures
            match r {
                Ok(t) => self@.len() == 1 && encode_utf8(t@) == self@[0],
                Err(e) => if self@.len() != 1 {
                    e == Error::StackProblem
                } else {
                    !valid_utf8(self@[0]) && e == Error::NonUtf8Str
                },
            },
            self.wf() && self@.len() == 1 ==> r is Ok,
    {
        if self.output.len() != 1 {
            return Err(Error::StackProblem);
        }
        assert(self@[0] == self.output@[0]@);
        match utf8_text(self.output[0].as_slice()) {
            Some(text) => Ok(text.to_owned()),
            None => Err(Error::NonUtf8Str),
        }
    }
}

} // verus!
