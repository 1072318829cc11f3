use task_wrestler::text::join_strs;
use task_wrestler::text::parse_u32;
use task_wrestler::text::split_str;
use task_wrestler::text::strip_lead_str;
use task_wrestler::text::strip_quotes_str;
use task_wrestler::text::u32_to_string;

#[test]
fn split_on_commas() {
    assert_eq!(split_str("a,b,,c", ','), vec!["a", "b", "", "c"]);
    assert_eq!(split_str("", ','), vec![""]);
    assert_eq!(split_str(",", ','), vec!["", ""]);
    assert_eq!(split_str("plain", ','), vec!["plain"]);
}

#[test]
fn join_undoes_split() {
    let parts = split_str("a,b,,c", ',');
    assert_eq!(join_strs(&parts, ","), "a,b,,c");
    assert_eq!(join_strs(&Vec::new(), ","), "");
    assert_eq!(join_strs(&vec!["one".to_string()], ","), "one");
}

#[test]
fn decimal_formatting() {
    assert_eq!(u32_to_string(0), "0");
    assert_eq!(u32_to_string(7), "7");
    assert_eq!(u32_to_string(105), "105");
    assert_eq!(u32_to_string(4294967295), "4294967295");
}

#[test]
fn decimal_parsing() {
    assert_eq!(parse_u32("0"), Some(0));
    assert_eq!(parse_u32("007"), Some(7));
    assert_eq!(parse_u32("4294967295"), Some(4294967295));
    assert_eq!(parse_u32("4294967296"), None);
    assert_eq!(parse_u32("99999999999999999999"), None);
    assert_eq!(parse_u32(""), None);
    assert_eq!(parse_u32("12a"), None);
    assert_eq!(parse_u32("-1"), None);
    assert_eq!(parse_u32("+1"), None);
}

#[test]
fn stripping_markers() {
    assert_eq!(strip_lead_str(":project", ':'), "project");
    assert_eq!(strip_lead_str("::double", ':'), ":double");
    assert_eq!(strip_lead_str("bare", ':'), "bare");
    assert_eq!(strip_lead_str("", ':'), "");
    assert_eq!(strip_quotes_str("\"title\""), "title");
    assert_eq!(strip_quotes_str("\"\""), "");
    assert_eq!(strip_quotes_str("\""), "\"");
    assert_eq!(strip_quotes_str("unquoted"), "unquoted");
}
