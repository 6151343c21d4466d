use udtaleordbog::{
    parse_udtaleordbog, phone_set, str_lt, DecodeError, LoadError, Loader, WordEntry, HEADER_LINES,
};

fn header() -> Vec<String> {
    (1..=6).map(|i| format!("header line {i}")).collect()
}

fn file(data: &[&str]) -> Vec<String> {
    let mut v = header();
    v.extend(data.iter().map(|s| s.to_string()));
    v
}

#[test]
fn header_has_six_lines() {
    assert_eq!(HEADER_LINES, 6);
}

#[test]
fn one_malformed_line_in_ten() {
    let lines = file(&["hund;/hun/;#hun#", "bad;/bad/", "kaffe;/kafə/;#kaf_fə#", "hus;/hus/;#hus#"]);
    assert_eq!(lines.len(), 10);
    let r = parse_udtaleordbog(&lines);
    assert_eq!(r.diagnostics.len(), 1);
    assert_eq!(r.diagnostics[0].line_number, 8);
    match &r.diagnostics[0].error {
        DecodeError::MalformedLine { fields } => {
            assert_eq!(fields, &vec!["bad".to_string(), "/bad/".to_string()])
        }
    }
    assert_eq!(r.result.unwrap_err(), LoadError::AggregateFailure { count: 1 });
}

#[test]
fn every_malformed_line_is_reported() {
    let lines = file(&["a;b", "ok;/o/;#o#", "x;y;z;w", "", "fine;/f/;#f#"]);
    let r = parse_udtaleordbog(&lines);
    let numbers: Vec<usize> = r.diagnostics.iter().map(|d| d.line_number).collect();
    assert_eq!(numbers, vec![7, 9, 10]);
    assert_eq!(r.result.unwrap_err(), LoadError::AggregateFailure { count: 3 });
}

#[test]
fn header_lines_are_not_decoded() {
    let lines = file(&["hund;/hun/;#hun#"]);
    let r = parse_udtaleordbog(&lines);
    assert!(r.diagnostics.is_empty());
    let entries = r.result.unwrap();
    assert_eq!(entries.len(), 1);
    assert_eq!(entries[0].word, "hund");
}

#[test]
fn wellformed_file_keeps_order() {
    let lines = file(&["hund;/hun/;#hun#", "kaffe;/kafə/;#kaf_fə#", "and;/an/;#an#"]);
    let r = parse_udtaleordbog(&lines);
    assert!(r.diagnostics.is_empty());
    let words: Vec<String> = r.result.unwrap().into_iter().map(|e| e.word).collect();
    assert_eq!(words, vec!["hund", "kaffe", "and"]);
}

#[test]
fn short_file_has_no_entries() {
    let lines: Vec<String> = vec!["only;a;header".to_string(), "x".to_string()];
    let r = parse_udtaleordbog(&lines);
    assert!(r.diagnostics.is_empty());
    assert!(r.result.unwrap().is_empty());
}

#[test]
fn loader_reports_as_it_goes() {
    let mut l = Loader::new();
    for h in header() {
        assert!(l.feed(&h).is_none());
    }
    assert!(l.feed("hund;/hun/;#hun#").is_none());
    let d = l.feed("broken").unwrap();
    assert_eq!(d.line_number, 8);
    assert_eq!(l.lines_seen(), 8);
    assert_eq!(l.finish().unwrap_err(), LoadError::AggregateFailure { count: 1 });
}

#[test]
fn loader_without_errors_returns_entries() {
    let mut l = Loader::new();
    for line in file(&["hund;/hun/;#hun#", "kaffe;/kafə/;#kaf_fə#"]) {
        assert!(l.feed(&line).is_none());
    }
    let entries = l.finish().unwrap();
    assert_eq!(entries.len(), 2);
    assert_eq!(entries[1].pronunciation, "kafə");
}

#[test]
fn phone_set_is_sorted_and_distinct() {
    let entries: Vec<WordEntry> = ["kaffe;/kafə/;#kaf_fə#", "hund;/hun/;#hun#", "kop;/kɔp/;#kaf#hun_b#"]
        .iter()
        .map(|l| WordEntry::from_line(l).unwrap())
        .collect();
    let set = phone_set(&entries);
    assert_eq!(set, vec!["b", "fə", "hun", "kaf"]);
}

#[test]
fn phone_set_of_nothing_is_empty() {
    assert!(phone_set(&Vec::new()).is_empty());
}

#[test]
fn phone_set_orders_like_str() {
    let entries: Vec<WordEntry> = ["a;b;#ø_z_a_ab_#æ#"]
        .iter()
        .map(|l| WordEntry::from_line(l).unwrap())
        .collect();
    let set = phone_set(&entries);
    let mut expected: Vec<String> = vec!["ø", "z", "a", "ab", "æ"].into_iter().map(String::from).collect();
    expected.sort();
    assert_eq!(set, expected);
}

#[test]
fn str_lt_is_lexicographic() {
    assert!(str_lt("a", "b"));
    assert!(str_lt("", "a"));
    assert!(str_lt("ab", "abc"));
    assert!(!str_lt("abc", "ab"));
    assert!(!str_lt("a", "a"));
    assert!(str_lt("z", "æ"));
}
