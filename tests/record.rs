use tavern_database::record::{encode_record, frame_record, parse_record};
use tavern_database::text::{chars_of, log_lines};
use tavern_database::Tx;

fn tx(from: &str, to: &str, value: u64, data: &str) -> Tx {
    Tx { from: from.to_string(), to: to.to_string(), value, data: data.to_string() }
}

fn parse(line: &str) -> Option<Tx> {
    parse_record(&chars_of(line))
}

fn same(a: &Tx, b: &Tx) -> bool {
    a.from == b.from && a.to == b.to && a.value == b.value && a.data == b.data
}

#[test]
fn persisted_lines_parse_back() {
    let reward = tx("andrej", "andrej", 100, "reward");
    let transfer = tx("andrej", "babayaga", 1, "");
    let a = encode_record(&reward).unwrap();
    let b = encode_record(&transfer).unwrap();
    assert_eq!(a, r#"{"from":"andrej","to":"andrej","value":100,"data":"reward"}"#);
    assert_eq!(b, r#"{"from":"andrej","to":"babayaga","value":1,"data":""}"#);
    assert!(same(&parse(&a).unwrap(), &reward));
    assert!(same(&parse(&b).unwrap(), &transfer));
}

#[test]
fn escaped_strings_round_trip() {
    let t = tx("\u{e9}\"\\", "tab\there", u64::MAX, "new\nline");
    let line = encode_record(&t).unwrap();
    assert!(!line.contains('\n'));
    assert!(same(&parse(&line).unwrap(), &t));
}

#[test]
fn frame_record_places_literals() {
    let r = frame_record("\"x\"", "\"y\"", 0, "\"\"");
    assert_eq!(r, r#"{"from":"x","to":"y","value":0,"data":""}"#);
    let r = frame_record("\"x\"", "\"y\"", 1234567890, "\"z\"");
    assert_eq!(r, r#"{"from":"x","to":"y","value":1234567890,"data":"z"}"#);
}

#[test]
fn whitespace_between_tokens_is_accepted() {
    let t = parse(" { \"from\" : \"a\" ,\t\"to\":\"b\", \"value\" : 42 , \"data\" : \"reward\" } \r").unwrap();
    assert!(same(&t, &tx("a", "b", 42, "reward")));
}

#[test]
fn escapes_are_decoded() {
    let t = parse(r#"{"from":"ab","to":"c\"d","value":7,"data":"\\"}"#).unwrap();
    assert!(same(&t, &tx("ab", "c\"d", 7, "\\")));
}

#[test]
fn malformed_records_are_refused() {
    let bad = [
        "",
        "not a record",
        r#"{"from":"a","to":"b","value":1}"#,
        r#"{"to":"b","from":"a","value":1,"data":""}"#,
        r#"{"from":"a","to":"b","value":01,"data":""}"#,
        r#"{"from":"a","to":"b","value":-1,"data":""}"#,
        r#"{"from":"a","to":"b","value":1.5,"data":""}"#,
        r#"{"from":"a","to":"b","value":18446744073709551616,"data":""}"#,
        r#"{"from":"a","to":"b","value":"1","data":""}"#,
        r#"{"from":"a","to":"b","value":1,"data":""} x"#,
        r#"{"from":"a","to":"b","value":1,"data":"\q"}"#,
        r#"{"from":"a","to":"b","value":1,"data":"open}"#,
    ];
    for line in bad {
        assert!(parse(line).is_none(), "accepted {}", line);
    }
}

#[test]
fn largest_value_is_accepted() {
    let t = parse(r#"{"from":"a","to":"b","value":18446744073709551615,"data":""}"#).unwrap();
    assert_eq!(t.value, u64::MAX);
    let t = parse(r#"{"from":"a","to":"b","value":0,"data":""}"#).unwrap();
    assert_eq!(t.value, 0);
}

#[test]
fn log_lines_skip_empty_lines() {
    let lines = log_lines("a\n\nbc\n");
    let lines: Vec<String> = lines.iter().map(|l| l.iter().collect()).collect();
    assert_eq!(lines, vec!["a".to_string(), "bc".to_string()]);
    assert!(log_lines("").is_empty());
    assert!(log_lines("\n\n").is_empty());
    let lines: Vec<String> = log_lines(" x ").iter().map(|l| l.iter().collect()).collect();
    assert_eq!(lines, vec![" x ".to_string()]);
}
