use gearbox::bencode::{parse_bvalue, BValue, Dict, ParseError, Parser};
use gearbox::conversion::{ConversionError, FromBValue};

#[test]
fn test_string_parsing() {
    let s = b"3:cow";
    let mut parser = Parser::new(s).unwrap();
    assert_eq!(b"cow", parser.parse_string().unwrap());
    assert_eq!(parser.next_pos, 5);
}

#[test]
fn test_int_parsing() {
    let s = b"i123e";
    assert_eq!(parse_bvalue(s).unwrap(), BValue::Int(123isize));
}

#[test]
fn test_list_parsing() {
    let s = b"l4:spam4:eggse";
    let mut parser = Parser::new(s).unwrap();
    let v = parser.parse_value().unwrap();
    assert_eq!(v, BValue::List(vec![BValue::String(b"spam"), BValue::String(b"eggs")]));
}

#[test]
fn test_dict_parsing() {
    let s = b"d3:cow3:moo4:spami3ee";
    let bv = parse_bvalue(s).unwrap();
    assert_eq!(
        bv,
        BValue::Dict(
            Dict::from_entries(vec![
                (&b"cow"[..], BValue::String(&b"moo"[..])),
                (&b"spam"[..], BValue::Int(3)),
            ]),
            s
        )
    );
}

#[test]
fn integers_are_read() {
    assert_eq!(parse_bvalue(b"i-42e").unwrap(), BValue::Int(-42));
    assert_eq!(parse_bvalue(b"i007e").unwrap(), BValue::Int(7));
    assert_eq!(parse_bvalue(b"ie").unwrap(), BValue::Int(0));
    assert_eq!(parse_bvalue(b"i-e").unwrap(), BValue::Int(0));
    assert_eq!(
        parse_bvalue(b"i9223372036854775807e").unwrap(),
        BValue::Int(9223372036854775807)
    );
}

#[test]
fn parse_errors_say_what_is_wrong() {
    assert_eq!(parse_bvalue(b""), Err(ParseError::EmptyInput));
    assert_eq!(parse_bvalue(b"i12"), Err(ParseError::EOF));
    assert_eq!(parse_bvalue(b"i"), Err(ParseError::EOF));
    assert_eq!(parse_bvalue(b"5:cow"), Err(ParseError::EOF));
    assert_eq!(parse_bvalue(b"l"), Err(ParseError::EOF));
    assert_eq!(parse_bvalue(b"d3:cow"), Err(ParseError::EOF));
    assert_eq!(parse_bvalue(b"x"), Err(ParseError::UnexpectedToken(b'x')));
    assert_eq!(parse_bvalue(b"i1x"), Err(ParseError::UnexpectedToken(b'x')));
    assert_eq!(parse_bvalue(b"3;cow"), Err(ParseError::UnexpectedToken(b';')));
    assert_eq!(parse_bvalue(b"di1ei2ee"), Err(ParseError::UnexpectedToken(b'i')));
    assert_eq!(parse_bvalue(b"99999999999999999999999:a"), Err(ParseError::NumberTooLarge));
    assert_eq!(parse_bvalue(b"18446744073709551615:a"), Err(ParseError::NumberTooLarge));
    assert_eq!(parse_bvalue(b"i9223372036854775808e"), Err(ParseError::NumberTooLarge));
}

#[test]
fn parse_errors_have_messages() {
    assert_eq!(ParseError::EOF.message(), "End of file");
    assert_eq!(ParseError::EmptyInput.message(), "No input given");
    assert_eq!(ParseError::UnexpectedToken(120).message(), "Unexpected byte: 120");
    assert_eq!(ParseError::NumberTooLarge.message(), "Number is too large");
}

#[test]
fn what_follows_a_value_does_not_matter() {
    assert_eq!(parse_bvalue(b"i1ei2e").unwrap(), BValue::Int(1));
    assert_eq!(parse_bvalue(b"3:cowbell").unwrap(), BValue::String(b"cow"));
}

#[test]
fn dictionaries_keep_their_own_text() {
    let outer = parse_bvalue(b"ld1:ai1eei5ee").unwrap();
    match outer {
        BValue::List(items) => {
            assert_eq!(items.len(), 2);
            match &items[0] {
                BValue::Dict(_, text) => {
                    assert_eq!(*text, b"d1:ai1ee");
                    assert_eq!(parse_bvalue(text).unwrap(), items[0]);
                }
                _ => panic!("not a dictionary"),
            }
        }
        _ => panic!("not a list"),
    }
}

#[test]
fn of_two_entries_with_one_key_the_later_counts() {
    let mut bv = parse_bvalue(b"d1:ai1e1:ai2ee").unwrap();
    assert_eq!(bv.get(b"a"), Ok(BValue::Int(2)));
}

#[test]
fn nested_values_are_read_back() {
    let bv = parse_bvalue(b"d4:infod5:filesld6:lengthi3eee4:name1:nee").unwrap();
    let files = BValue::List(vec![BValue::Dict(
        Dict::from_entries(vec![(&b"length"[..], BValue::Int(3))]),
        b"d6:lengthi3ee",
    )]);
    let info = BValue::Dict(
        Dict::from_entries(vec![(&b"name"[..], BValue::String(b"n")), (&b"files"[..], files)]),
        b"d5:filesld6:lengthi3eee4:name1:ne",
    );
    assert_eq!(
        bv,
        BValue::Dict(
            Dict::from_entries(vec![(&b"info"[..], info)]),
            b"d4:infod5:filesld6:lengthi3eee4:name1:nee"
        )
    );
}

#[test]
fn get_takes_a_value_out() {
    let mut bv = parse_bvalue(b"d3:cow3:moo4:spami3ee").unwrap();
    assert_eq!(bv.get(b"cow"), Ok(BValue::String(b"moo")));
    assert_eq!(bv.get(b"cow"), Err(ConversionError::KeyDoesNotExist));
    assert_eq!(bv.get(b"spam"), Ok(BValue::Int(3)));
    match &bv {
        BValue::Dict(d, text) => {
            assert_eq!(*d, Dict::new());
            assert_eq!(*text, b"d3:cow3:moo4:spami3ee");
        }
        _ => panic!("not a dictionary"),
    }
    let mut number = BValue::Int(1);
    assert_eq!(number.get(b"cow"), Err(ConversionError::WrongBValueConstructor));
}

#[test]
fn values_are_converted() {
    assert_eq!(<&[u8]>::from_bvalue(BValue::String(b"abc")), Ok(&b"abc"[..]));
    assert_eq!(Vec::<u8>::from_bvalue(BValue::String(b"abc")), Ok(b"abc".to_vec()));
    assert_eq!(<&str>::from_bvalue(BValue::String("kühe".as_bytes())), Ok("kühe"));
    assert_eq!(String::from_bvalue(BValue::String(b"abc")), Ok("abc".to_string()));
    assert_eq!(isize::from_bvalue(BValue::Int(-3)), Ok(-3));
    assert_eq!(usize::from_bvalue(BValue::Int(3)), Ok(3));
    assert_eq!(u64::from_bvalue(BValue::Int(3)), Ok(3));
    assert_eq!(
        Vec::<String>::from_bvalue(BValue::List(vec![BValue::String(b"a"), BValue::String(b"b")])),
        Ok(vec!["a".to_string(), "b".to_string()])
    );
}

#[test]
fn bad_values_are_not_converted() {
    let wrong = ConversionError::WrongBValueConstructor;
    assert_eq!(<&[u8]>::from_bvalue(BValue::Int(1)), Err(wrong));
    assert_eq!(Vec::<u8>::from_bvalue(BValue::Int(1)), Err(wrong));
    assert_eq!(<&str>::from_bvalue(BValue::Int(1)), Err(wrong));
    assert_eq!(String::from_bvalue(BValue::List(vec![])), Err(wrong));
    assert_eq!(isize::from_bvalue(BValue::String(b"1")), Err(wrong));
    assert_eq!(usize::from_bvalue(BValue::Int(-1)), Err(wrong));
    assert_eq!(u64::from_bvalue(BValue::Int(-1)), Err(wrong));
    assert_eq!(Vec::<String>::from_bvalue(BValue::Int(1)), Err(wrong));
    assert_eq!(
        <&str>::from_bvalue(BValue::String(b"\xff\xfe")),
        Err(ConversionError::BadEncoding)
    );
    assert_eq!(
        String::from_bvalue(BValue::String(b"\xc3")),
        Err(ConversionError::BadEncoding)
    );
    // the first error counts
    assert_eq!(
        Vec::<String>::from_bvalue(BValue::List(vec![
            BValue::String(b"a"),
            BValue::String(b"\xff"),
            BValue::Int(1),
        ])),
        Err(ConversionError::BadEncoding)
    );
}

#[test]
fn conversion_errors_have_messages() {
    assert_eq!(ConversionError::BadEncoding.message(), "String is not utf8-encoded");
    assert_eq!(ConversionError::WrongBValueConstructor.message(), "Unexpected Constructor");
    assert_eq!(ConversionError::KeyDoesNotExist.message(), "Key does not exist");
    assert_eq!(ConversionError::OtherError.message(), "Other error");
}
