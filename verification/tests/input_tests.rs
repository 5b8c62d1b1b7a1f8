use db::input::{parse_vals, read_value, try_parse_val, try_parse_vals};
use db::row::RowVal;

#[test]
fn values_of_a_command_line() {
    assert_eq!(
        parse_vals(&["42", " \"hi\" ", "true", "false", "\"\"", "+7"]),
        vec![
            RowVal::U32(42),
            RowVal::Bytes(b"hi".to_vec()),
            RowVal::Bool(true),
            RowVal::Bool(false),
            RowVal::Bytes(vec![]),
            RowVal::U32(7),
        ]
    );
    assert_eq!(parse_vals(&[]), vec![]);
}

#[test]
fn values_without_a_meaning() {
    assert_eq!(try_parse_val("x"), None);
    assert_eq!(try_parse_val(""), None);
    assert_eq!(try_parse_val("-1"), None);
    assert_eq!(try_parse_val("4294967296"), None);
    assert_eq!(try_parse_val("\""), None);
    assert_eq!(try_parse_val("\"open"), None);
    assert_eq!(try_parse_val("True"), None);
    assert_eq!(try_parse_val("4294967295"), Some(RowVal::U32(u32::MAX)));
    assert_eq!(try_parse_val("\ttrue\n"), Some(RowVal::Bool(true)));
    assert_eq!(try_parse_val("\"a\"b\""), Some(RowVal::Bytes(b"a\"b".to_vec())));
    assert_eq!(try_parse_val("\" 1 \""), Some(RowVal::Bytes(b" 1 ".to_vec())));
    assert_eq!(try_parse_val("\"é\""), Some(RowVal::Bytes(vec![0xC3, 0xA9])));
    assert_eq!(try_parse_vals(&["1", "x"]), None);
    assert_eq!(try_parse_vals(&["1", "true"]), Some(vec![RowVal::U32(1), RowVal::Bool(true)]));
}

#[test]
fn a_value_is_read_with_its_number() {
    assert_eq!(read_value("12", Some(12)), Some(RowVal::U32(12)));
    assert_eq!(read_value("12", None), None);
    assert_eq!(read_value("true", Some(1)), Some(RowVal::Bool(true)));
    assert_eq!(read_value("false", None), Some(RowVal::Bool(false)));
    assert_eq!(read_value("\"12\"", Some(12)), Some(RowVal::Bytes(b"12".to_vec())));
    assert_eq!(read_value("\"12", Some(12)), None);
    assert_eq!(read_value("", None), None);
}
