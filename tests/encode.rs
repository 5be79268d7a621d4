use tnetstring::{Error, Serializer};

fn one<F: FnOnce(&mut Serializer)>(write: F) -> String {
    let mut s = Serializer::new();
    write(&mut s);
    s.into_string().unwrap()
}

#[test]
fn ser_test_bool() {
    assert_eq!(one(|s| s.serialize_bool(true)), "4:true!");
    assert_eq!(one(|s| s.serialize_bool(false)), "5:false!");
}

#[test]
fn ser_test_str() {
    assert_eq!(one(|s| s.serialize_str("true")), "4:true,");
    assert_eq!(one(|s| s.serialize_str("false")), "5:false,");
    assert_eq!(one(|s| s.serialize_str("3:foo,3:bar,")), "12:3:foo,3:bar,,");
}

#[test]
fn test_ints() {
    assert_eq!(one(|s| s.serialize_i64(-1)), "2:-1#");
    assert_eq!(one(|s| s.serialize_i64(12340)), "5:12340#");
    assert_eq!(one(|s| s.serialize_i64(0)), "1:0#");
}

#[test]
fn test_floats() {
    let frame = |v: f64| one(|s| s.serialize_float_text(&v.to_string()));
    assert_eq!(frame(1.00), "1:1^");
    assert_eq!(frame(-1.0), "2:-1^");
    assert_eq!(frame(1.25), "4:1.25^");
    assert_eq!(frame(123.4), "5:123.4^");
}

#[test]
fn test_vec() {
    let strs = one(|s| {
        s.add_string_to_stack();
        s.serialize_str("foo");
        s.serialize_str("bar");
        s.end_seq().unwrap();
    });
    assert_eq!(strs, "12:3:foo,3:bar,]");

    let ints = one(|s| {
        s.add_string_to_stack();
        s.serialize_i64(10);
        s.serialize_i64(10);
        s.end_seq().unwrap();
    });
    assert_eq!(ints, "10:2:10#2:10#]");

    let nested = one(|s| {
        s.add_string_to_stack();
        s.add_string_to_stack();
        s.serialize_i64(10);
        s.serialize_i64(10);
        s.end_seq().unwrap();
        s.end_seq().unwrap();
    });
    assert_eq!(nested, "14:10:2:10#2:10#]]");
}

#[test]
fn test_tuple() {
    let t = one(|s| {
        s.add_string_to_stack();
        s.serialize_str("foo");
        s.serialize_str("bar");
        s.end_seq().unwrap();
    });
    assert_eq!(t, "12:3:foo,3:bar,]");
}

#[test]
fn test_tuple_struct() {
    let t = one(|s| {
        s.add_string_to_stack();
        s.serialize_str("foo");
        s.serialize_str("bar");
        s.end_seq().unwrap();
    });
    assert_eq!(t, "12:3:foo,3:bar,]");
}

#[test]
fn test_tuple_variant() {
    let t = one(|s| {
        s.begin_variant("T");
        s.add_string_to_stack();
        s.serialize_str("foo");
        s.serialize_str("bar");
        s.end_seq().unwrap();
        s.end_map().unwrap();
    });
    assert_eq!(t, "20:1:T,12:3:foo,3:bar,]}");
}

#[test]
fn test_newtype_struct() {
    assert_eq!(one(|s| s.serialize_str("foo")), "3:foo,");
}

#[test]
fn test_newtype_variant() {
    let t = one(|s| {
        s.begin_variant("T");
        s.serialize_str("foo");
        s.end_map().unwrap();
    });
    assert_eq!(t, "10:1:T,3:foo,}");
}

#[test]
fn test_null() {
    assert_eq!(one(|s| s.serialize_unit()), "0:~");
}

#[test]
fn test_map() {
    let t = one(|s| {
        s.add_string_to_stack();
        s.serialize_str("hello");
        s.serialize_str("world");
        s.end_map().unwrap();
    });
    assert_eq!(t, "16:5:hello,5:world,}");
}

#[test]
fn ser_test_struct() {
    let t = one(|s| {
        s.add_string_to_stack();
        s.serialize_str("int");
        s.serialize_u64(10);
        s.end_map().unwrap();
    });
    assert_eq!(t, "11:3:int,2:10#}");

    let t = one(|s| {
        s.add_string_to_stack();
        s.serialize_str("int");
        s.serialize_u64(1);
        s.serialize_str("seq");
        s.add_string_to_stack();
        s.serialize_str("a");
        s.serialize_str("b");
        s.end_seq().unwrap();
        s.end_map().unwrap();
    });
    assert_eq!(t, "27:3:int,1:1#3:seq,8:1:a,1:b,]}");
}

#[test]
fn test_struct_variant() {
    let t = one(|s| {
        s.begin_variant("A");
        s.add_string_to_stack();
        s.serialize_str("b");
        s.serialize_i64(10);
        s.end_map().unwrap();
        s.end_map().unwrap();
    });
    assert_eq!(t, "16:1:A,9:1:b,2:10#}}");
}

#[test]
fn ser_test_enum() {
    assert_eq!(one(|s| s.serialize_str("Unit")), "4:Unit,");

    let n = one(|s| {
        s.begin_variant("Newtype");
        s.serialize_u64(1);
        s.end_map().unwrap();
    });
    assert_eq!(n, "14:7:Newtype,1:1#}");

    let t = one(|s| {
        s.begin_variant("Tuple");
        s.add_string_to_stack();
        s.serialize_u64(1);
        s.serialize_u64(2);
        s.end_seq().unwrap();
        s.end_map().unwrap();
    });
    assert_eq!(t, "19:5:Tuple,8:1:1#1:2#]}");

    let st = one(|s| {
        s.begin_variant("Struct");
        s.add_string_to_stack();
        s.serialize_str("a");
        s.serialize_u64(1);
        s.end_map().unwrap();
        s.end_map().unwrap();
    });
    assert_eq!(st, "20:6:Struct,8:1:a,1:1#}}");
}

#[test]
fn variants_in_a_sequence_are_framed_apart() {
    let t = one(|s| {
        s.add_string_to_stack();
        s.begin_variant("N");
        s.serialize_u64(1);
        s.end_map().unwrap();
        s.begin_variant("N");
        s.serialize_u64(2);
        s.end_map().unwrap();
        s.end_seq().unwrap();
    });
    assert_eq!(t, "22:8:1:N,1:1#}8:1:N,1:2#}]");
}

#[test]
fn struct_variant_with_two_fields() {
    let t = one(|s| {
        s.begin_variant("A");
        s.add_string_to_stack();
        s.serialize_str("b");
        s.serialize_i64(1);
        s.serialize_str("c");
        s.serialize_i64(2);
        s.end_map().unwrap();
        s.end_map().unwrap();
    });
    assert_eq!(t, "24:1:A,16:1:b,1:1#1:c,1:2#}}");
}

#[test]
fn extreme_integers() {
    assert_eq!(one(|s| s.serialize_i64(i64::MIN)), "20:-9223372036854775808#");
    assert_eq!(one(|s| s.serialize_i64(i64::MAX)), "19:9223372036854775807#");
    assert_eq!(one(|s| s.serialize_u64(u64::MAX)), "20:18446744073709551615#");
    assert_eq!(one(|s| s.serialize_u64(0)), "1:0#");
}

#[test]
fn string_length_counts_bytes() {
    assert_eq!(one(|s| s.serialize_str("\u{e9}")), "2:\u{e9},");
    assert_eq!(one(|s| s.serialize_str("")), "0:,");
}

#[test]
fn bytes_must_be_text() {
    assert_eq!(one(|s| s.serialize_bytes(b"012").unwrap()), "3:012,");
    let mut s = Serializer::new();
    assert_eq!(s.serialize_bytes(&[0xff, 0xfe]), Err(Error::NonUtf8Str));
    assert_eq!(s.into_string(), Ok(String::new()));
}

#[test]
fn unbalanced_stack_is_a_stack_problem() {
    let mut s = Serializer::new();
    assert_eq!(s.end_seq(), Err(Error::StackProblem));
    assert_eq!(s.end_map(), Err(Error::StackProblem));
    s.add_string_to_stack();
    assert_eq!(s.depth(), 2);
    assert_eq!(s.into_string(), Err(Error::StackProblem));

    let mut s = Serializer::new();
    assert_eq!(s.pop_string(), Some(Vec::new()));
    assert_eq!(s.pop_string(), None);
    s.add_to_output("lost");
    assert_eq!(s.into_string(), Err(Error::StackProblem));
}

#[test]
fn add_to_output_appends_raw_text() {
    let mut s = Serializer::new();
    s.add_to_output("1:a,");
    s.add_string_to_stack();
    s.add_to_output("xy");
    assert_eq!(s.pop_string(), Some(b"xy".to_vec()));
    assert_eq!(s.into_string(), Ok(String::from("1:a,")));
}
