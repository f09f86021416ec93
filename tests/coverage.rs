use cardinal::coverage::Coverage;
use cardinal::json::{parse_line, Json, Line};

fn record(text: &str) -> Json {
    match parse_line(text) {
        Line::Record(j) => j,
        _ => panic!("not a record: {text}"),
    }
}

fn count(text: &str) -> Coverage {
    let mut c = Coverage::new();
    c.add_record(&record(text));
    c
}

fn sorted(c: &Coverage) -> Vec<(String, u32)> {
    let mut v: Vec<(String, u32)> = c.results().iter().map(|(k, v)| (k.clone(), *v)).collect();
    v.sort();
    v
}

fn pairs(items: &[(&str, u32)]) -> Vec<(String, u32)> {
    let mut v: Vec<(String, u32)> = items.iter().map(|(k, v)| (k.to_string(), *v)).collect();
    v.sort();
    v
}

#[test]
fn coverage_example() {
    let c = count(r#"{"a":"x","b":[1,2]}"#);
    assert_eq!(sorted(&c), pairs(&[("", 1), ("/", 1), ("/a", 1), ("/b", 1), ("/b[]", 2)]));
}

#[test]
fn coverage_emptiness_propagation() {
    let c = count(r#"{"a": null, "b": "", "c": []}"#);
    assert!(c.results().is_empty());
}

#[test]
fn coverage_nested_objects() {
    let c = count(
        r#"{"phoneNumbers":[{"type": "home","number": "212 555-1234"},{"type": "office","number": "646 555-4567"}]}"#,
    );
    assert_eq!(
        sorted(&c),
        pairs(&[
            ("", 1),
            ("/", 1),
            ("/phoneNumbers", 1),
            ("/phoneNumbers[]", 2),
            ("/phoneNumbers[]/", 2),
            ("/phoneNumbers[]/type", 2),
            ("/phoneNumbers[]/number", 2),
        ])
    );
}

#[test]
fn coverage_duplicate_member_last_wins() {
    let c = count(r#"{"a": 0, "a": null}"#);
    assert!(c.results().is_empty());
}

#[test]
fn coverage_empty_member_name() {
    let c = count(r#"{"": 0}"#);
    assert_eq!(sorted(&c), pairs(&[("", 1), ("/", 2)]));
}

#[test]
fn coverage_aliasing_member_name() {
    let c = count(r#"{"a[]": 0, "a": [0]}"#);
    assert_eq!(sorted(&c), pairs(&[("", 1), ("/", 1), ("/a", 1), ("/a[]", 2)]));
}

#[test]
fn coverage_scalar_root() {
    assert_eq!(sorted(&count("true")), pairs(&[("", 1)]));
    assert_eq!(sorted(&count("0")), pairs(&[("", 1)]));
    assert!(count("null").results().is_empty());
    assert!(count(r#""""#).results().is_empty());
    assert!(count("{}").results().is_empty());
    assert!(count("[]").results().is_empty());
}

#[test]
fn coverage_doubling() {
    let line = r#"{"a":"x","b":[1,2],"c":{"d":[{"e":true}]}}"#;
    let single = count(line);
    let mut merged = count(line);
    merged.merge(count(line));
    let expected: Vec<(String, u32)> = sorted(&single).into_iter().map(|(k, v)| (k, 2 * v)).collect();
    assert_eq!(sorted(&merged), expected);
}

#[test]
fn coverage_partition_invariance() {
    let lines = [
        r#"{"a":"x","b":[1,2]}"#,
        r#"{"a":"","b":[],"c":{"d":1}}"#,
        r#"{"b":[null,{"x":"y"}]}"#,
        r#"[1,[],{}]"#,
    ];
    let mut whole = Coverage::new();
    for l in lines.iter() {
        whole.add_record(&record(l));
    }
    let mut left = Coverage::new();
    let mut right = Coverage::new();
    for (i, l) in lines.iter().enumerate() {
        if i % 2 == 0 {
            left.add_record(&record(l));
        } else {
            right.add_record(&record(l));
        }
    }
    let mut a = Coverage::new();
    a.merge(left);
    let mut right_first = right;
    right_first.merge(a);
    assert_eq!(sorted(&right_first), sorted(&whole));
    assert_eq!(whole.results().get("/b[]"), Some(&3));
    assert_eq!(whole.results().get("/b[]/x"), Some(&1));
}

#[test]
fn blank_and_invalid_lines() {
    assert!(matches!(parse_line("   \t"), Line::Blank));
    assert!(matches!(parse_line(""), Line::Blank));
    assert!(matches!(parse_line("{not json"), Line::Invalid));
    assert!(matches!(parse_line(r#"{"a":1}"#), Line::Record(_)));
}

#[test]
fn member_lookup() {
    let r = record(r#"{"ocid":"x-1","n":2}"#);
    assert_eq!(r.get_str("ocid").map(|s| s.as_str()), Some("x-1"));
    assert!(r.get_str("n").is_none());
    assert!(r.get("missing").is_none());
}

#[test]
fn coverage_order_invariance() {
    let lines = [r#"{"a":[1,{"b":""}]}"#, r#"{"a":[],"c":true}"#, r#"[{"d":null},{"d":"x"}]"#];
    let mut forward = Coverage::new();
    for l in lines.iter() {
        forward.add_record(&record(l));
    }
    let mut backward = Coverage::new();
    for l in lines.iter().rev() {
        backward.add_record(&record(l));
    }
    assert_eq!(sorted(&forward), sorted(&backward));
    assert_eq!(
        sorted(&forward),
        pairs(&[("", 3), ("/", 2), ("/a", 1), ("/a[]", 1), ("/c", 1), ("[]", 1), ("[]/", 1), ("[]/d", 1)])
    );
}
