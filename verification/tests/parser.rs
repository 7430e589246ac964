use kvs::commands::Command;
use kvs::parser::{
    deserialize, encode_null_bulk_string, encode_simple_string, parse_array, parse_bulk_string,
    parse_error, parse_integer, parse_resp_type, parse_simple_string, serialize, RespType,
};

fn test_roundtrip(cmd: Command) {
    let serialized = serialize(&cmd);
    let mut bytes = serialized.as_bytes();
    let parsed_cmd = deserialize(&mut bytes).unwrap();
    assert_eq!(cmd, parsed_cmd);
}

#[test]
fn parse_get() {
    test_roundtrip(Command::Get("mykey".to_owned()));
}

#[test]
fn parse_set() {
    test_roundtrip(Command::Put("mykey".to_owned(), "myvalue".to_owned()));
}

#[test]
fn parse_ping_with_message() {
    test_roundtrip(Command::Ping(Some("foo".to_owned())));
}

#[test]
fn parse_ping_empty() {
    test_roundtrip(Command::Ping(None));
}

#[test]
fn test_parse_simple_string() {
    let input = String::from("+OK\r\n");
    let mut bytes = input.as_bytes();
    assert_eq!(RespType::SimpleString, parse_resp_type(&mut bytes).unwrap());
    assert_eq!("OK".to_owned(), parse_simple_string(&mut bytes).unwrap());
}

#[test]
fn test_parse_integer_zero() {
    let input = String::from(":0\r\n");
    let mut bytes = input.as_bytes();
    assert_eq!(RespType::Integer, parse_resp_type(&mut bytes).unwrap());
    assert_eq!(0, parse_integer(&mut bytes).unwrap());
}

#[test]
fn test_parse_integer_1000() {
    let input = String::from(":1000\r\n");
    let mut bytes = input.as_bytes();
    assert_eq!(RespType::Integer, parse_resp_type(&mut bytes).unwrap());
    assert_eq!(1000, parse_integer(&mut bytes).unwrap());
}

#[test]
fn test_parse_error() {
    let input = String::from("-Error message\r\n");
    let mut bytes = input.as_bytes();
    assert_eq!(RespType::Error, parse_resp_type(&mut bytes).unwrap());
    assert_eq!("Error message".to_owned(), parse_error(&mut bytes).unwrap());
}

#[test]
fn test_parse_bulk_string_empty() {
    let input = String::from("$0\r\n\r\n");
    let mut bytes = input.as_bytes();
    assert_eq!(RespType::BulkString, parse_resp_type(&mut bytes).unwrap());
    assert_eq!(Some("".to_owned()), parse_bulk_string(&mut bytes).unwrap());
}

#[test]
fn test_parse_bulk_string_null() {
    let input = String::from("$-1\r\n");
    let mut bytes = input.as_bytes();
    assert_eq!(RespType::BulkString, parse_resp_type(&mut bytes).unwrap());
    assert_eq!(None, parse_bulk_string(&mut bytes).unwrap());
}

#[test]
fn test_parse_bulk_string() {
    let input = String::from("$6\r\nfoobar\r\n");
    let mut bytes = input.as_bytes();
    assert_eq!(RespType::BulkString, parse_resp_type(&mut bytes).unwrap());
    assert_eq!(
        Some("foobar".to_owned()),
        parse_bulk_string(&mut bytes).unwrap()
    );
}

#[test]
fn test_parse_array_empty() {
    let input = String::from("*0\r\n");
    let mut bytes = input.as_bytes();
    assert_eq!(RespType::Array, parse_resp_type(&mut bytes).unwrap());
    assert_eq!(0, parse_array(&mut bytes).unwrap().unwrap().len());
}

#[test]
fn test_parse_array_null() {
    let input = String::from("*-1\r\n");
    let mut bytes = input.as_bytes();
    assert_eq!(RespType::Array, parse_resp_type(&mut bytes).unwrap());
    assert_eq!(None, parse_array(&mut bytes).unwrap());
}

#[test]
fn test_parse_array() {
    let input = String::from("*3\r\n$3\r\nfoo\r\n$-1\r\n$3\r\nbar\r\n");
    let mut bytes = input.as_bytes();
    assert_eq!(RespType::Array, parse_resp_type(&mut bytes).unwrap());
    assert_eq!(
        vec![Some("foo".to_owned()), None, Some("bar".to_owned())],
        parse_array(&mut bytes).unwrap().unwrap()
    );
}

#[test]
fn test_encode_simple_string() {
    assert_eq!(
        "+OK\r\n".to_owned(),
        String::from_utf8_lossy(&encode_simple_string("OK"))
    );
}

#[test]
fn test_encode_null_bulk_string() {
    assert_eq!(
        "$-1\r\n".to_owned(),
        String::from_utf8_lossy(&encode_null_bulk_string())
    );
}

#[test]
fn serialize_lays_out_an_array_of_bulk_strings() {
    let cmd = Command::Put("k".to_owned(), "héllo".to_owned());
    assert_eq!(serialize(&cmd), "*3\r\n$3\r\nSET\r\n$1\r\nk\r\n$6\r\nhéllo\r\n");
    assert_eq!(serialize(&Command::Ping(None)), "*1\r\n$4\r\nPING\r\n");
}

#[test]
fn deserialize_leaves_the_reader_behind_the_command() {
    let input = b"*2\r\n$3\r\nGET\r\n$1\r\na\r\nrest";
    let mut bytes: &[u8] = input;
    assert_eq!(deserialize(&mut bytes).unwrap(), Command::Get("a".to_owned()));
    assert_eq!(bytes, b"rest");
}

#[test]
fn deserialize_refuses_what_is_no_array() {
    let mut bytes: &[u8] = b"+OK\r\n";
    assert_eq!(
        deserialize(&mut bytes),
        Err("Expected '*' but found '+'".to_owned())
    );
    let mut empty: &[u8] = b"";
    assert_eq!(deserialize(&mut empty), Err("Empty buffer".to_owned()));
}

#[test]
fn deserialize_refuses_unknown_and_short_commands() {
    let mut bytes: &[u8] = b"*1\r\n$3\r\nDEL\r\n";
    assert_eq!(
        deserialize(&mut bytes),
        Err("Expected COMMAND, but found 'DEL'".to_owned())
    );
    let mut none: &[u8] = b"*0\r\n";
    assert!(deserialize(&mut none).is_err());
    let mut short: &[u8] = b"*1\r\n$3\r\nGET\r\n";
    assert!(deserialize(&mut short).is_err());
    let mut shorter: &[u8] = b"*2\r\n$3\r\nSET\r\n$1\r\nk\r\n";
    assert!(deserialize(&mut shorter).is_err());
}

#[test]
fn deserialize_reads_bytes_beyond_ascii_as_replacement_characters() {
    let mut bytes: &[u8] = b"*2\r\n$3\r\nGET\r\n$2\r\n\xc3\xa9\r\n";
    assert_eq!(
        deserialize(&mut bytes).unwrap(),
        Command::Get("\u{fffd}\u{fffd}".to_owned())
    );
}

#[test]
fn parse_integer_reads_signs_and_refuses_the_rest() {
    let mut plus: &[u8] = b"+17\r\n";
    assert_eq!(parse_integer(&mut plus), Ok(17));
    let mut minus: &[u8] = b"-2147483648\r\n";
    assert_eq!(parse_integer(&mut minus), Ok(i32::MIN));
    let mut max: &[u8] = b"2147483647\r\n";
    assert_eq!(parse_integer(&mut max), Ok(i32::MAX));
    let mut over: &[u8] = b"2147483648\r\n";
    assert_eq!(
        parse_integer(&mut over),
        Err("'2147483648' cannot be parsed as int".to_owned())
    );
    let mut empty: &[u8] = b"\r\n";
    assert_eq!(parse_integer(&mut empty), Err("'' cannot be parsed as int".to_owned()));
    let mut word: &[u8] = b"12a\r\nx";
    assert_eq!(parse_integer(&mut word), Err("'12a' cannot be parsed as int".to_owned()));
    assert_eq!(word, b"x");
}

#[test]
fn parse_resp_type_refuses_other_bytes() {
    let mut bytes: &[u8] = b"?";
    assert_eq!(
        parse_resp_type(&mut bytes),
        Err("Expected one of [+, -, :, $, *], but got '?'".to_owned())
    );
    let mut empty: &[u8] = b"";
    assert_eq!(
        parse_resp_type(&mut empty),
        Err("parse_resp_type: Empty buffer".to_owned())
    );
}

#[test]
fn parse_bulk_string_reports_short_input_and_bad_endings() {
    let mut short: &[u8] = b"5\r\nabc";
    assert_eq!(
        parse_bulk_string(&mut short),
        Err("Expected 5 bytes in bulk string but found only 3".to_owned())
    );
    let mut no_cr: &[u8] = b"3\r\nabcXY";
    assert_eq!(
        parse_bulk_string(&mut no_cr),
        Err("Expected CR, but found '88'".to_owned())
    );
    let mut no_lf: &[u8] = b"3\r\nabc\rY";
    assert_eq!(
        parse_bulk_string(&mut no_lf),
        Err("Expected LF, but found '89'".to_owned())
    );
    let mut ended: &[u8] = b"3\r\nabc";
    assert_eq!(
        parse_bulk_string(&mut ended),
        Err("Expected CR, but found '0'".to_owned())
    );
    let mut negative: &[u8] = b"-2\r\n";
    assert!(parse_bulk_string(&mut negative).is_err());
}

#[test]
fn parse_bulk_string_decodes_utf8() {
    let mut bytes: &[u8] = b"2\r\n\xc3\xa9\r\n";
    assert_eq!(parse_bulk_string(&mut bytes), Ok(Some("é".to_owned())));
    let mut broken: &[u8] = b"1\r\n\xc3\r\n";
    assert_eq!(parse_bulk_string(&mut broken), Ok(Some("\u{fffd}".to_owned())));
}

#[test]
fn parse_array_refuses_other_items() {
    let mut bytes: &[u8] = b"1\r\n:5\r\n";
    assert_eq!(
        parse_array(&mut bytes),
        Err("Only string as currently supported in arrays, but got type Integer".to_owned())
    );
}
