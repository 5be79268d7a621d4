use tnetstring::de::{Kind, Variant};
use tnetstring::frame::{split_frame, FrameError};
use tnetstring::parse::{parse, ParseError, Value};
use tnetstring::{Deserializer, Error, Serializer};

fn parsed(input: &[u8]) -> Value {
    let (rest, v) = parse(input).unwrap();
    assert!(rest.is_empty());
    v
}

#[test]
fn null_is_strict() {
    assert_eq!(parse(b"0:~"), Ok((&b""[..], Value::Null)));
    assert_eq!(parse(b"1:a~"), Err(ParseError::NoneZeroLengthNull));
    assert_eq!(parse(b"0:1~"), Err(ParseError::UnknownSegmentType));
}

#[test]
fn untyped_bool_goes_by_length() {
    assert_eq!(parsed(b"4:xyz%!"), Value::Bool(true));
    assert_eq!(parsed(b"5:aaaaa!"), Value::Bool(false));
    assert_eq!(parsed(b"4:true!"), Value::Bool(true));
    assert_eq!(parsed(b"5:false!"), Value::Bool(false));
    assert_eq!(parsed(b"0:!"), Value::Bool(false));
}

#[test]
fn typed_bool_is_exact() {
    for bad in ["4:tRue!", "4:xyz%!", "5:fals3!", "5:aaaaa!", "04:true!", "4:true,", "0:!"] {
        let mut de = Deserializer::from_str(bad);
        assert_eq!(de.parse_bool(), Err(Error::ParsingBool), "{}", bad);
    }
    let mut de = Deserializer::from_str("4:true!5:false!");
    assert_eq!(de.parse_bool(), Ok(true));
    assert_eq!(de.parse_bool(), Ok(false));
    assert!(de.is_empty());
}

#[test]
fn dict_keys_must_be_strings() {
    assert_eq!(parse(b"11:4:true!1:a,}"), Err(ParseError::FoundNonStringKey));
    assert_eq!(parse(b"8:1:1#1:a,}"), Err(ParseError::FoundNonStringKey));
    assert_eq!(parse(b"0:}"), Ok((&b""[..], Value::Dict(Vec::new()))));
}

#[test]
fn dict_keeps_one_entry_per_key() {
    let v = parsed(b"16:1:a,1:1#1:a,1:2#}");
    assert_eq!(v, Value::Dict(vec![(String::from("a"), Value::Int(2))]));
    let v = parsed(b"24:1:a,1:1#1:b,1:2#1:a,1:3#}");
    assert_eq!(
        v,
        Value::Dict(vec![(String::from("a"), Value::Int(3)), (String::from("b"), Value::Int(2))])
    );
}

#[test]
fn untyped_nested_containers() {
    assert_eq!(parsed(b"10:2:10#2:10#]"), Value::List(vec![Value::Int(10), Value::Int(10)]));
    assert_eq!(
        parsed(b"14:10:2:10#2:10#]]"),
        Value::List(vec![Value::List(vec![Value::Int(10), Value::Int(10)])])
    );
    assert_eq!(
        parsed(b"27:3:int,1:1#3:seq,8:1:a,1:b,]}"),
        Value::Dict(vec![
            (String::from("int"), Value::Int(1)),
            (
                String::from("seq"),
                Value::List(vec![Value::Str(String::from("a")), Value::Str(String::from("b"))])
            ),
        ])
    );
    assert_eq!(parse(b"5:1:a,x]"), Err(ParseError::UnableToParseInt));
    assert_eq!(parse(b"5:3:a,,]"), Err(ParseError::UnableToTake));
}

#[test]
fn untyped_integers() {
    assert_eq!(parsed(b"2:+5#"), Value::Int(5));
    assert_eq!(parsed(b"2:-1#"), Value::Int(-1));
    assert_eq!(parsed(b"20:-9223372036854775808#"), Value::Int(i64::MIN));
    assert_eq!(parsed(b"19:9223372036854775807#"), Value::Int(i64::MAX));
    assert_eq!(parse(b"19:9223372036854775808#"), Err(ParseError::UnableToParseInt));
    assert_eq!(parse(b"0:#"), Err(ParseError::UnableToParseInt));
    assert_eq!(parse(b"1:-#"), Err(ParseError::UnableToParseInt));
    assert_eq!(parse(b"1:x#"), Err(ParseError::UnableToParseInt));
}

#[test]
fn untyped_floats() {
    assert_eq!(parsed(b"4:1.25^"), Value::Float(String::from("1.25")));
    for good in ["1", ".5", "1.", "-1e5", "+2.5E-3", "inf", "-Infinity", "NaN"] {
        let input = format!("{}:{}^", good.len(), good);
        assert_eq!(parsed(input.as_bytes()), Value::Float(String::from(good)), "{}", good);
        assert!(good.parse::<f64>().is_ok());
    }
    for bad in ["abc", ".", "1e", "e5", "1.2.3", "", "--1", "infinit"] {
        let input = format!("{}:{}^", bad.len(), bad);
        assert_eq!(parse(input.as_bytes()), Err(ParseError::UnableToParseFloat), "{}", bad);
        assert!(bad.parse::<f64>().is_err());
    }
}

#[test]
fn untyped_strings_replace_invalid_utf8() {
    assert_eq!(parsed(b"1:a,"), Value::Str(String::from("a")));
    assert_eq!(parsed(&[b'1', b':', 0xff, b',']), Value::Str(String::from("\u{fffd}")));
    assert_eq!(parsed("2:\u{e9},".as_bytes()), Value::Str(String::from("\u{e9}")));
}

#[test]
fn untyped_leaves_what_follows() {
    assert_eq!(parse(b"1:a,xyz"), Ok((&b"xyz"[..], Value::Str(String::from("a")))));
}

#[test]
fn untyped_frame_errors() {
    assert_eq!(parse(b""), Err(ParseError::UnableToParseInt));
    assert_eq!(parse(b":a,"), Err(ParseError::UnableToParseInt));
    assert_eq!(parse(b"1a,"), Err(ParseError::UnableToParseInt));
    assert_eq!(parse(b"1:a?"), Err(ParseError::UnknownSegmentType));
    assert_eq!(parse(b"99999999999999999999999:a,"), Err(ParseError::UnableToTake));
}

#[test]
fn one_byte_short_is_cut_off() {
    let frame = b"5:abcde,";
    assert_eq!(parse(frame), Ok((&b""[..], Value::Str(String::from("abcde")))));
    let short = &frame[..frame.len() - 1];
    assert_eq!(parse(short), Err(ParseError::UnableToTake));
    let text = "5:abcde";
    assert_eq!(Deserializer::from_str(text).parse_string(), Err(Error::Eof));
    assert_eq!(Deserializer::from_str("2:10").parse_unsigned(), Err(Error::Eof));
    assert_eq!(Deserializer::from_str("2:10").parse_signed(), Err(Error::Eof));
    assert_eq!(Deserializer::from_str("4:1:1#").parse_seq().err(), Some(Error::Eof));
}

#[test]
fn frame_length_is_exact() {
    assert_eq!(split_frame(b"5:abcde,rest"), Ok((2, 7)));
    assert_eq!(split_frame(b"10:0123456789]"), Ok((3, 13)));
    assert_eq!(split_frame(b"0:~"), Ok((2, 2)));
    assert_eq!(split_frame(b"5:abcde"), Err(FrameError::Truncated));
    assert_eq!(split_frame(b"x:"), Err(FrameError::Header));
    assert_eq!(split_frame(b"12"), Err(FrameError::Header));
}

#[test]
fn typed_nested_containers() {
    let mut de = Deserializer::from_str("10:2:10#2:10#]");
    let mut items = de.parse_seq().unwrap();
    let mut out = Vec::new();
    while !items.is_empty() {
        out.push(items.parse_signed().unwrap());
    }
    assert_eq!(out, vec![10, 10]);
    assert_eq!(de.end(), Ok(()));

    let mut s = Serializer::new();
    s.add_string_to_stack();
    s.serialize_i64(10);
    s.serialize_i64(10);
    s.end_seq().unwrap();
    assert_eq!(s.into_string(), Ok(String::from("10:2:10#2:10#]")));
}

#[test]
fn compounds_that_are_not_last_are_read_whole() {
    let mut de = Deserializer::from_str("14:4:1:1#]4:1:2#]]");
    let mut outer = de.parse_seq().unwrap();
    let mut first = outer.parse_seq().unwrap();
    assert_eq!(first.parse_signed(), Ok(1));
    assert_eq!(first.end(), Ok(()));
    let mut second = outer.parse_seq().unwrap();
    assert_eq!(second.parse_signed(), Ok(2));
    assert_eq!(second.end(), Ok(()));
    assert!(outer.is_empty());
    assert_eq!(de.end(), Ok(()));
}

#[test]
fn enum_encodings_both_ways() {
    let mut s = Serializer::new();
    s.serialize_str("Unit");
    let unit = s.into_string().unwrap();
    assert_eq!(unit, "4:Unit,");
    match Deserializer::from_str(&unit).parse_enum().unwrap() {
        Variant::Unit(name) => assert_eq!(name, "Unit"),
        Variant::Payload(_) => panic!("expected a unit variant"),
    }

    let mut s = Serializer::new();
    s.begin_variant("Newtype");
    s.serialize_u64(1);
    s.end_map().unwrap();
    let newtype = s.into_string().unwrap();
    assert_eq!(newtype, "14:7:Newtype,1:1#}");
    let mut de = Deserializer::from_str(&newtype);
    match de.parse_enum().unwrap() {
        Variant::Payload(mut content) => {
            assert_eq!(content.parse_string(), Ok("Newtype"));
            assert_eq!(content.parse_unsigned(), Ok(1));
            assert_eq!(content.end(), Ok(()));
        },
        Variant::Unit(_) => panic!("expected a variant with content"),
    }
    assert_eq!(de.end(), Ok(()));

    assert_eq!(Deserializer::from_str("1:1#").parse_enum().err(), Some(Error::ParsingEnum));
}

#[test]
fn trailing_data_is_rejected() {
    let mut de = Deserializer::from_str("1:1#extra");
    assert_eq!(de.parse_unsigned(), Ok(1));
    assert_eq!(de.end(), Err(Error::UnusedParseData));

    let mut de = Deserializer::from_str("0:~0:~");
    assert_eq!(de.parse_unit(), Ok(()));
    assert_eq!(de.end(), Err(Error::UnusedParseData));
}

#[test]
fn floats_are_unsupported_when_typed() {
    for input in ["4:1.00^", "1:1^", "3:1.5^", "0:~", ""] {
        let de = Deserializer::from_str(input);
        assert_eq!(de.parse_float(), Err(Error::UnsupportedType));
    }
}

#[test]
fn round_trip_of_a_struct() {
    let mut s = Serializer::new();
    s.add_string_to_stack();
    s.serialize_str("name");
    s.serialize_str("caf\u{e9}");
    s.serialize_str("values");
    s.add_string_to_stack();
    s.serialize_i64(-7);
    s.serialize_i64(i64::MIN);
    s.end_seq().unwrap();
    s.serialize_str("flag");
    s.serialize_bool(false);
    s.serialize_str("none");
    s.serialize_unit();
    s.end_map().unwrap();
    let text = s.into_string().unwrap();

    let mut de = Deserializer::from_str(&text);
    let mut fields = de.parse_map().unwrap();
    assert_eq!(fields.parse_string(), Ok("name"));
    assert_eq!(fields.parse_string(), Ok("caf\u{e9}"));
    assert_eq!(fields.parse_string(), Ok("values"));
    let mut values = fields.parse_seq().unwrap();
    assert_eq!(values.parse_signed(), Ok(-7));
    assert_eq!(values.parse_signed(), Ok(i64::MIN));
    assert_eq!(values.end(), Ok(()));
    assert_eq!(fields.parse_string(), Ok("flag"));
    assert_eq!(fields.parse_bool(), Ok(false));
    assert_eq!(fields.parse_string(), Ok("none"));
    assert!(fields.parse_none());
    assert_eq!(fields.end(), Ok(()));
    assert_eq!(de.end(), Ok(()));
}

#[test]
fn typed_decoder_errors() {
    assert_eq!(Deserializer::from_str("1:x#").parse_unsigned(), Err(Error::ParsingUnsigned));
    assert_eq!(
        Deserializer::from_str("20:18446744073709551616#").parse_unsigned(),
        Err(Error::ParsingUnsigned)
    );
    assert_eq!(
        Deserializer::from_str("19:9223372036854775808#").parse_signed(),
        Err(Error::ParsingUnsigned)
    );
    assert_eq!(Deserializer::from_str("x:1#").parse_unsigned(), Err(Error::ParsingUnsigned));
    assert_eq!(Deserializer::from_str("0:#").parse_unsigned(), Ok(0));
    assert_eq!(Deserializer::from_str("1:a#").parse_string(), Err(Error::ParsingString));
    assert_eq!(Deserializer::from_str(":a,").parse_string(), Err(Error::ParsingString));
    assert_eq!(
        Deserializer::from_bytes(&[b'1', b':', 0xff, b',']).parse_string(),
        Err(Error::NonUtf8Str)
    );
    assert_eq!(Deserializer::from_str("1:1#").parse_seq().err(), Some(Error::ParsingSeq));
    assert_eq!(Deserializer::from_str("0:]").parse_map().err(), Some(Error::ParsingMap));
    assert_eq!(Deserializer::from_str("0:]").parse_unit(), Err(Error::ParsingUnit));
    assert_eq!(Deserializer::from_str("x:").last_char(), Err(Error::ParsingLength));
    assert_eq!(Deserializer::from_str("").last_char(), Err(Error::Eof));
    assert_eq!(Deserializer::from_str("9:a,").last_char(), Err(Error::Eof));
    assert_eq!(Deserializer::from_str("0:?").next_kind(), Err(Error::UnknownSegmentType));

    let mut de = Deserializer::from_str("1:1#");
    assert_eq!(de.parse_bool(), Err(Error::ParsingBool));
    assert_eq!(de.parse_unsigned(), Ok(1));
}

#[test]
fn next_kind_reads_the_tag() {
    let cases = [
        ("0:~", Kind::Unit),
        ("4:true!", Kind::Bool),
        ("1:a,", Kind::Str),
        ("1:1^", Kind::Float),
        ("1:1#", Kind::Int),
        ("0:]", Kind::List),
        ("0:}", Kind::Dict),
        ("1:a,1:1#", Kind::Str),
    ];
    for (input, kind) in cases {
        assert_eq!(Deserializer::from_str(input).next_kind(), Ok(kind), "{}", input);
    }
    assert_eq!(Deserializer::from_str("1:a,1:1#").last_char(), Ok(b','));
}

#[test]
fn error_descriptions() {
    assert_eq!(Error::Eof.description(), "error eof");
    assert_eq!(Error::UnusedParseData.description(), "unused parse data");
    assert_eq!(Error::NonUtf8Str.description(), "error parsing string that wasn't utf8");
    assert_eq!(Error::Message(String::from("custom")).description(), "custom");
}
