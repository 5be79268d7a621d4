use tnetstring::de::{Kind, Variant};
use tnetstring::{Deserializer, Error};

fn strings_of(mut seq: Deserializer) -> Vec<String> {
    let mut items = Vec::new();
    while !seq.is_empty() {
        items.push(seq.parse_string().unwrap().to_owned());
    }
    items
}

#[test]
fn de_test_struct() {
    let j = "27:3:int,1:1#3:seq,8:1:a,1:b,]}";
    let mut de = Deserializer::from_str(j);
    let mut fields = de.parse_map().unwrap();
    assert_eq!(fields.parse_string(), Ok("int"));
    assert_eq!(fields.parse_unsigned(), Ok(1));
    assert_eq!(fields.parse_string(), Ok("seq"));
    let seq = fields.parse_seq().unwrap();
    assert_eq!(strings_of(seq), vec!["a".to_owned(), "b".to_owned()]);
    assert!(fields.is_empty());
    assert_eq!(de.end(), Ok(()));
}

#[test]
fn test_struct_with_neg() {
    let t = "2:-1#";
    let mut de = Deserializer::from_str(t);
    assert_eq!(de.next_kind(), Ok(Kind::Int));
    assert_eq!(de.parse_signed(), Ok(-1));
    assert_eq!(de.end(), Ok(()));
}

#[test]
fn test_option() {
    let input = "13:6:option,1:1#}";
    let mut de = Deserializer::from_str(input);
    let mut fields = de.parse_map().unwrap();
    assert_eq!(fields.parse_string(), Ok("option"));
    assert!(!fields.parse_none());
    assert_eq!(fields.parse_signed(), Ok(1));
    assert!(fields.is_empty());
    assert_eq!(de.end(), Ok(()));

    let input = "12:6:option,0:~}";
    let mut de = Deserializer::from_str(input);
    let mut fields = de.parse_map().unwrap();
    assert_eq!(fields.parse_string(), Ok("option"));
    assert!(fields.parse_none());
    assert!(fields.is_empty());
    assert_eq!(de.end(), Ok(()));
}

fn unit_variant(j: &str) -> String {
    let mut de = Deserializer::from_str(j);
    let name = match de.parse_enum().unwrap() {
        Variant::Unit(name) => name.to_owned(),
        Variant::Payload(_) => panic!("expected a unit variant"),
    };
    assert_eq!(de.end(), Ok(()));
    name
}

fn payload_variant<'a>(de: &mut Deserializer<'a>) -> (String, Deserializer<'a>) {
    match de.parse_enum().unwrap() {
        Variant::Payload(mut content) => {
            let name = content.parse_string().unwrap().to_owned();
            (name, content)
        },
        Variant::Unit(_) => panic!("expected a variant with content"),
    }
}

#[test]
fn de_test_enum() {
    assert_eq!(unit_variant("4:Unit,"), "Unit");
    assert_eq!(unit_variant("3:Foo,"), "Foo");

    let mut de = Deserializer::from_str("14:7:Newtype,1:1#}");
    let (name, mut content) = payload_variant(&mut de);
    assert_eq!(name, "Newtype");
    assert_eq!(content.parse_unsigned(), Ok(1));
    assert_eq!(content.end(), Ok(()));
    assert_eq!(de.end(), Ok(()));

    let mut de = Deserializer::from_str("9:1:N,2:20#}");
    let (name, mut content) = payload_variant(&mut de);
    assert_eq!(name, "N");
    assert_eq!(content.parse_unsigned(), Ok(20));
    assert_eq!(content.end(), Ok(()));
    assert_eq!(de.end(), Ok(()));

    let mut de = Deserializer::from_str("19:5:Tuple,8:1:1#1:2#]}");
    let (name, mut content) = payload_variant(&mut de);
    assert_eq!(name, "Tuple");
    let mut items = content.parse_seq().unwrap();
    assert_eq!(items.parse_unsigned(), Ok(1));
    assert_eq!(items.parse_unsigned(), Ok(2));
    assert_eq!(items.end(), Ok(()));
    assert_eq!(content.end(), Ok(()));
    assert_eq!(de.end(), Ok(()));

    let mut de = Deserializer::from_str("20:6:Struct,8:1:a,1:1#}}");
    let (name, mut content) = payload_variant(&mut de);
    assert_eq!(name, "Struct");
    let mut fields = content.parse_map().unwrap();
    assert_eq!(fields.parse_string(), Ok("a"));
    assert_eq!(fields.parse_unsigned(), Ok(1));
    assert_eq!(fields.end(), Ok(()));
    assert_eq!(content.end(), Ok(()));
    assert_eq!(de.end(), Ok(()));
}

#[test]
fn test_unit() {
    let mut de = Deserializer::from_str("0:~");
    assert_eq!(de.parse_unit(), Ok(()));
    assert_eq!(de.end(), Ok(()));
}

#[test]
fn de_test_bool() {
    let mut de = Deserializer::from_str("4:true!");
    assert_eq!(de.parse_bool(), Ok(true));
    assert_eq!(de.end(), Ok(()));

    let mut de = Deserializer::from_str("5:false!");
    assert_eq!(de.parse_bool(), Ok(false));
    assert_eq!(de.end(), Ok(()));
}

#[test]
fn test_char() {
    let mut de = Deserializer::from_str("1:a,");
    assert_eq!(de.next_kind(), Ok(Kind::Str));
    let s = de.parse_string().unwrap();
    assert_eq!(s.chars().collect::<Vec<char>>(), vec!['a']);
    assert_eq!(de.end(), Ok(()));

    // Two characters: the data model refuses this string as a char.
    let mut de = Deserializer::from_str("2:ab,");
    let s = de.parse_string().unwrap();
    assert_eq!(s, "ab");
    assert_eq!(s.chars().count(), 2);
}

#[test]
fn test_string() {
    let mut de = Deserializer::from_str("1:a,");
    assert_eq!(de.parse_string().map(String::from), Ok(String::from("a")));
    assert_eq!(de.end(), Ok(()));
}

#[test]
fn de_test_str() {
    let t = "1:a,";
    let mut de = Deserializer::from_str(t);
    let s = de.parse_string().unwrap();
    assert_eq!(s, "a");
    // Borrowed from the input, not copied.
    assert_eq!(s.as_ptr(), t[2..].as_ptr());
}

fn any_integer(t: &str) -> i64 {
    let mut de = Deserializer::from_str(t);
    assert_eq!(de.next_kind(), Ok(Kind::Int));
    let v = de.parse_signed().unwrap();
    assert_eq!(de.end(), Ok(()));
    v
}

#[test]
fn test_u8() {
    assert_eq!(u8::try_from(any_integer("3:255#")), Ok(u8::MAX));
}

#[test]
fn test_u16() {
    assert_eq!(u16::try_from(any_integer("5:65535#")), Ok(u16::MAX));
}

#[test]
fn test_u32() {
    let mut de = Deserializer::from_str("10:4294967295#");
    assert_eq!(de.parse_unsigned(), Ok(u32::MAX as u64));
    assert_eq!(de.end(), Ok(()));
}

#[test]
fn test_u64() {
    let mut de = Deserializer::from_str("20:18446744073709551615#");
    assert_eq!(de.parse_unsigned(), Ok(u64::MAX));
    assert_eq!(de.end(), Ok(()));
}

#[test]
fn test_i8() {
    assert_eq!(i8::try_from(any_integer("3:127#")), Ok(i8::MAX));
    assert_eq!(i8::try_from(any_integer("4:-128#")), Ok(i8::MIN));
}

#[test]
fn test_i16() {
    assert_eq!(i16::try_from(any_integer("5:32767#")), Ok(i16::MAX));
    assert_eq!(i16::try_from(any_integer("6:-32768#")), Ok(i16::MIN));
}

#[test]
fn test_i32() {
    assert_eq!(i32::try_from(any_integer("10:2147483647#")), Ok(i32::MAX));
    assert_eq!(i32::try_from(any_integer("11:-2147483648#")), Ok(i32::MIN));
}

#[test]
fn test_i64() {
    let mut de = Deserializer::from_str("19:9223372036854775807#");
    assert_eq!(de.parse_signed(), Ok(i64::MAX));
    let mut de = Deserializer::from_str("20:-9223372036854775808#");
    assert_eq!(de.parse_signed(), Ok(i64::MIN));
}

#[test]
fn test_unimplemented_f32() {
    let de = Deserializer::from_str("4:1.00^");
    assert_eq!(de.parse_float(), Err(Error::UnsupportedType));
}

#[test]
fn test_unimplemented_f64() {
    let de = Deserializer::from_str("4:1.00^");
    assert_eq!(de.next_kind(), Ok(Kind::Float));
    assert_eq!(de.parse_float(), Err(Error::UnsupportedType));
}

#[test]
fn test_bytes() {
    let mut de = Deserializer::from_str("6:012345,");
    let s = de.parse_string().unwrap();
    assert_eq!(s.as_bytes(), &[48, 49, 50, 51, 52, 53]);
}
