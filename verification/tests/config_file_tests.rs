use lib::config_file::{
    config_path_from_args, exists_as_val_in_map, load_config, lookup_entry, parse_config_entries,
    ConfigParseError, LoadConfigError, ParseConfig, SearchContents,
};
use lib::text::{str_contains, str_chars, chars_to_ascii_lower, chars_to_string};

fn entries(text: &str) -> Vec<(String, String)> {
    match parse_config_entries(text.as_bytes().to_vec()) {
        Ok(e) => e,
        Err(e) => panic!("unexpected error {:?}", e),
    }
}

fn pairs(v: &[(&str, &str)]) -> Vec<(String, String)> {
    v.iter().map(|(k, v)| (k.to_string(), v.to_string())).collect()
}

fn parse_error(text: &[u8]) -> Option<ConfigParseError> {
    match parse_config_entries(text.to_vec()) {
        Err(LoadConfigError::Parse(e)) => Some(e),
        _ => None,
    }
}

fn load(text: &str) -> Result<ParseConfig, LoadConfigError> {
    load_config(&entries(text))
}

fn load_error(text: &str) -> Option<ConfigParseError> {
    match load(text) {
        Err(LoadConfigError::Parse(e)) => Some(e),
        _ => None,
    }
}

#[test]
fn parses_key_value_lines() {
    assert_eq!(
        entries("search_dir=/tmp\nsearch_contents=file_name\n"),
        pairs(&[("search_dir", "/tmp"), ("search_contents", "file_name")])
    );
    assert_eq!(entries("a=b=c"), pairs(&[("a", "b=c")]));
    assert_eq!(entries("a="), pairs(&[("a", "")]));
    assert_eq!(entries(""), pairs(&[]));
}

#[test]
fn a_trailing_key_without_value_is_ignored() {
    assert_eq!(entries("a=1\nbcd"), pairs(&[("a", "1")]));
}

#[test]
fn the_first_byte_of_a_line_belongs_to_the_key() {
    assert_eq!(entries("=x=1"), pairs(&[("=x", "1")]));
    assert_eq!(entries("a=1\n\nb=2"), pairs(&[("a", "1"), ("\nb", "2")]));
}

#[test]
fn a_line_without_eq_is_an_error() {
    assert_eq!(parse_error(b"abc\nd=1"), Some(ConfigParseError::ExpectedEqDelimiter));
    assert_eq!(parse_error(b"a=1\nbc\nd=2"), Some(ConfigParseError::ExpectedEqDelimiter));
}

#[test]
fn invalid_utf8_is_an_error() {
    assert!(matches!(parse_config_entries(vec![b'k', 0xff, b'=', b'v']), Err(LoadConfigError::Utf(_))));
    assert!(matches!(parse_config_entries(vec![b'k', b'=', 0xc3]), Err(LoadConfigError::Utf(_))));
}

#[test]
fn later_keys_win() {
    let e = entries("a=1\na=2\n");
    assert_eq!(lookup_entry(&e, "a").map(|s| s.as_str()), Some("2"));
    assert_eq!(lookup_entry(&e, "b"), None);
}

#[test]
fn flags_are_true_only_when_set_to_true() {
    let e = pairs(&[("case_sensitive", "true"), ("start_of_line", "yes")]);
    assert_eq!(exists_as_val_in_map(&e, "case_sensitive", "true", 1).ok(), Some(true));
    assert_eq!(exists_as_val_in_map(&e, "missing", "true", 1).ok(), Some(false));
    assert_eq!(exists_as_val_in_map(&e, "start_of_line", "true", 1).err(), Some(1));
}

#[test]
fn loads_a_full_config() {
    let c = load(
        "search_dir=/data\nsearch_contents=file_contents\ncase_sensitive=true\nsearch_str=x{search}\n",
    )
    .ok()
    .unwrap();
    assert_eq!(c.search_dir, "/data");
    assert_eq!(c.search_contents, SearchContents::FileContents);
    assert!(c.case_sensitive);
    assert!(!c.start_of_line);
    assert_eq!(c.search_str, "x{search}");
    assert_eq!(c.search_pattern("has"), "xhas");
}

#[test]
fn search_str_defaults_to_the_marker() {
    let c = load("search_dir=.\nsearch_contents=file_name").ok().unwrap();
    assert_eq!(c.search_contents, SearchContents::FileName);
    assert_eq!(c.search_str, "{search}");
    assert!(!c.case_sensitive);
    assert_eq!(c.search_pattern("has"), "has");
}

#[test]
fn config_value_errors() {
    assert_eq!(
        load_error("search_dir=.\nsearch_contents=both"),
        Some(ConfigParseError::UnexpectedSearchContentsValue)
    );
    assert_eq!(
        load_error("search_dir=.\nsearch_contents=file_name\ncase_sensitive=no"),
        Some(ConfigParseError::UnexpectedCaseSensitiveValue)
    );
    assert_eq!(
        load_error("search_dir=.\nsearch_contents=file_name\nstart_of_line=false"),
        Some(ConfigParseError::UnexpectedStartOfLineValue)
    );
    assert_eq!(
        load_error("search_dir=.\nsearch_contents=file_name\nsearch_str=abc"),
        Some(ConfigParseError::SearchStringDoesNotHaveSearchInsert)
    );
}

#[test]
fn config_path_comes_after_dash_c() {
    let args = |v: &[&str]| v.iter().map(|s| s.to_string()).collect::<Vec<_>>();
    assert_eq!(config_path_from_args(&args(&["prog", "-c", "cfg"])), Ok(Some("cfg".to_string())));
    assert_eq!(config_path_from_args(&args(&["prog", "-c", "a", "-c", "b"])), Ok(Some("b".to_string())));
    assert_eq!(config_path_from_args(&args(&["prog"])), Ok(None));
    assert_eq!(config_path_from_args(&args(&["prog", "-c"])), Err(ConfigParseError::MissingConfigArg));
    assert_eq!(config_path_from_args(&args(&["prog", "-c", "-c"])), Err(ConfigParseError::MissingConfigArg));
}

#[test]
fn config_error_messages() {
    assert_eq!(ConfigParseError::ExpectedEqDelimiter.message(), "expected eq delimiter");
    assert_eq!(ConfigParseError::MissingConfigArg.message(), "missing config file path");
    assert_eq!(
        ConfigParseError::UnexpectedSearchContentsValue.message(),
        "unexpected search_contents value"
    );
    assert_eq!(
        ConfigParseError::SearchStringDoesNotHaveSearchInsert.message(),
        "search_str does not include have {search}"
    );
}

#[test]
fn text_helpers() {
    assert!(str_contains("hello world", "lo w"));
    assert!(!str_contains("hello", "hello!"));
    assert!(str_contains("abc", ""));
    let lower = chars_to_ascii_lower(&str_chars("AbC-É"));
    assert_eq!(chars_to_string(&lower), "abc-É");
}
