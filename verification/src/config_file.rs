//! The configuration file of the command-line program: `key=value` lines
//! naming the directory to search, what to search in, and the search string.
//!
//! Scanning for a key starts one byte after the start of a line: the first
//! byte of a line always belongs to the key. A line whose key is not followed
//! by `=` before the end of the line is an error; text after the last
//! complete `key=` is ignored. A key given twice keeps its last value.
use vstd::prelude::*;
use vstd::utf8::{decode_utf8, valid_utf8};

use crate::text;
use crate::utils::search_insert;

verus! {

/// Why a configuration cannot be loaded.
#[derive(Debug, PartialEq, Eq, Structural)]
pub enum ConfigParseError {
    ExpectedEqDelimiter,
    UnexpectedSearchContentsValue,
    MissingConfigArg,
    UnexpectedCaseSensitiveValue,
    UnexpectedStartOfLineValue,
    SearchStringDoesNotHaveSearchInsert,
}

impl ConfigParseError {
    /// The human-readable description of the error.
    pub fn message(&self) -> (m: &'static str)
        ensures
            match self {
                ConfigParseError::ExpectedEqDelimiter => m@ == "expected eq delimiter"@,
                ConfigParseError::UnexpectedSearchContentsValue => m@
                    == "unexpected search_contents value"@,
                ConfigParseError::MissingConfigArg => m@ == "missing config file path"@,
                ConfigParseError::UnexpectedCaseSensitiveValue => m@
                    == "unexpected case_sensitive value"@,
                ConfigParseError::UnexpectedStartOfLineValue => m@
                    == "unexpected start_of_line value"@,
                ConfigParseError::SearchStringDoesNotHaveSearchInsert => m@
                    == "search_str does not include have {search}"@,
            },
    {
        match self {
            ConfigParseError::ExpectedEqDelimiter => "expected eq delimiter",
            ConfigParseError::UnexpectedSearchContentsValue => "unexpected search_contents value",
            ConfigParseError::MissingConfigArg => "missing config file path",
            ConfigParseError::UnexpectedCaseSensitiveValue => "unexpected case_sensitive value",
            ConfigParseError::UnexpectedStartOfLineValue => "unexpected start_of_line value",
            ConfigParseError::SearchStringDoesNotHaveSearchInsert => {
                "search_str does not include have {search}"
            },
        }
    }
}

#[verifier::external_type_specification]
#[verifier::external_body]
pub struct ExFromUtf8Error(std::string::FromUtf8Error);

/// Why a configuration file cannot be loaded.
#[derive(Debug)]
pub enum LoadConfigError {
    Utf(std::string::FromUtf8Error),
    Parse(ConfigParseError),
}

/// What the program searches in.
#[derive(Debug, PartialEq, Eq, Structural)]
pub enum SearchContents {
    FileName,
    FileContents,
}

/// The program's configuration.
pub struct ParseConfig {
    pub search_dir: String,
    pub search_str: String,
    pub search_contents: SearchContents,
    pub case_sensitive: bool,
    pub start_of_line: bool,
}

/// The kind of failure met while reading the entries of a configuration.
#[derive(Debug, PartialEq, Eq, Structural)]
pub enum EntryFault {
    /// A line ends before its key is followed by `=`.
    ExpectedEqDelimiter,
    /// A key or a value is not valid UTF-8.
    InvalidUtf8,
}

/// The byte is `=`.
pub open spec fn is_eq_byte(b: u8) -> bool {
    b == '=' as u8
}

/// The byte is a newline.
pub open spec fn is_newline_byte(b: u8) -> bool {
    b == '\n' as u8
}

/// The first index after `pos` that holds `=` or a newline, if any.
pub open spec fn key_end(b: Seq<u8>, pos: int) -> Option<int>
    decreases b.len() - pos,
{
    if pos + 1 >= b.len() {
        None
    } else if is_eq_byte(b[pos + 1]) || is_newline_byte(b[pos + 1]) {
        Some(pos + 1)
    } else {
        key_end(b, pos + 1)
    }
}

/// The first index after `pos` that holds a newline, or the length of `b`.
pub open spec fn value_end(b: Seq<u8>, pos: int) -> int
    decreases b.len() - pos,
{
    if pos + 1 >= b.len() {
        b.len() as int
    } else if is_newline_byte(b[pos + 1]) {
        pos + 1
    } else {
        value_end(b, pos + 1)
    }
}

/// The `(key, value)` entries of the configuration text `b` from index `pos`
/// on, in order, or the first fault met.
pub open spec fn parse_entries_from(b: Seq<u8>, pos: int) -> Result<
    Seq<(Seq<char>, Seq<char>)>,
    EntryFault,
>
    decreases b.len() + 1 - pos,
    when pos >= 0
{
    if pos >= b.len() {
        Ok(Seq::empty())
    } else {
        match key_end(b, pos) {
            None => Ok(Seq::empty()),
            Some(j) => if is_newline_byte(b[j]) {
                Err(EntryFault::ExpectedEqDelimiter)
            } else {
                proof {
                    lemma_key_end_bounds(b, pos);
                    lemma_value_end_bounds(b, j);
                }
                let e = value_end(b, j);
                let key = b.subrange(pos, j);
                let value = b.subrange(j + 1, e);
                if !valid_utf8(key) || !valid_utf8(value) {
                    Err(EntryFault::InvalidUtf8)
                } else {
                    match parse_entries_from(b, e + 1) {
                        Ok(rest) => Ok(seq![(decode_utf8(key), decode_utf8(value))] + rest),
                        Err(f) => Err(f),
                    }
                }
            },
        }
    }
}

/// The entries of a configuration text, or the first fault met.
pub open spec fn parse_entries(b: Seq<u8>) -> Result<Seq<(Seq<char>, Seq<char>)>, EntryFault> {
    parse_entries_from(b, 0)
}

/// The views of the entries.
pub open spec fn entries_view(v: Seq<(String, String)>) -> Seq<(Seq<char>, Seq<char>)> {
    v.map_values(|e: (String, String)| (e.0@, e.1@))
}

/// The value of the last entry with the key, if any.
pub open spec fn lookup(entries: Seq<(Seq<char>, Seq<char>)>, key: Seq<char>) -> Option<Seq<char>>
    decreases entries.len(),
{
    if entries.len() == 0 {
        None
    } else if entries.last().0 == key {
        Some(entries.last().1)
    } else {
        lookup(entries.drop_last(), key)
    }
}

/// A value ends at the first newline after the `=` at `pos`, or at the end
/// of the text: no byte before that end is a newline.
pub proof fn lemma_value_end_is_line_end(b: Seq<u8>, pos: int)
    requires
        0 <= pos < b.len(),
    ensures
        pos < value_end(b, pos) <= b.len(),
        forall|m: int| pos < m < value_end(b, pos) ==> b[m] != '\n' as u8,
        value_end(b, pos) < b.len() ==> b[value_end(b, pos)] == '\n' as u8,
    decreases b.len() - pos,
{
    if pos + 1 < b.len() && !is_newline_byte(b[pos + 1]) {
        lemma_value_end_is_line_end(b, pos + 1);
    }
}

/// A key ends at the first `=` or newline after its first byte at `pos`;
/// there is none when no later byte is `=` or a newline.
pub proof fn lemma_key_end_is_delimiter(b: Seq<u8>, pos: int)
    requires
        0 <= pos,
    ensures
        key_end(b, pos) matches Some(j) ==> {
            &&& pos < j < b.len()
            &&& (b[j] == '=' as u8 || b[j] == '\n' as u8)
            &&& forall|m: int| pos < m < j ==> b[m] != '=' as u8 && b[m] != '\n' as u8
        },
        key_end(b, pos) is None ==> forall|m: int| pos < m < b.len() ==> b[m] != '=' as u8 && b[m]
            != '\n' as u8,
    decreases b.len() - pos,
{
    if pos + 1 < b.len() && !(is_eq_byte(b[pos + 1]) || is_newline_byte(b[pos + 1])) {
        lemma_key_end_is_delimiter(b, pos + 1);
    }
}

/// One line `key=value`: a non-empty key without `=` or newline, and a value
/// without newline (spaces and `=` included), both UTF-8, is read as exactly
/// that entry.
pub proof fn lemma_parse_one_line(key: Seq<u8>, value: Seq<u8>)
    requires
        key.len() > 0,
        forall|m: int| 0 <= m < key.len() ==> key[m] != '=' as u8 && key[m] != '\n' as u8,
        forall|m: int| 0 <= m < value.len() ==> value[m] != '\n' as u8,
        valid_utf8(key),
        valid_utf8(value),
    ensures
        parse_entries(key + seq!['=' as u8] + value + seq!['\n' as u8]) == Ok::<_, EntryFault>(
            seq![(decode_utf8(key), decode_utf8(value))],
        ),
{
    let b = key + seq!['=' as u8] + value + seq!['\n' as u8];
    let kl = key.len() as int;
    let e = kl + 1 + value.len();
    assert(b.len() == e + 1);
    assert forall|m: int| 0 <= m < kl implies b[m] == key[m] by {}
    assert(b[kl] == '=' as u8);
    assert forall|m: int| kl < m < e implies b[m] == value[m - kl - 1] by {}
    assert(b[e] == '\n' as u8);
    lemma_key_end_is_delimiter(b, 0);
    match key_end(b, 0) {
        Some(j) => {
            if j < kl {
                assert(b[j] == key[j]);
            }
            if j > kl {
                assert(b[kl] == '=' as u8);
            }
            assert(j == kl);
        },
        None => {
            assert(b[kl] == '=' as u8);
        },
    }
    lemma_value_end_is_line_end(b, kl);
    let ve = value_end(b, kl);
    if ve < e {
        assert(b[ve] == value[ve - kl - 1]);
    }
    assert(ve == e);
    assert(b.subrange(0, kl) =~= key);
    assert(b.subrange(kl + 1, e) =~= value);
    assert(parse_entries_from(b, e + 1) == Ok::<_, EntryFault>(Seq::<(Seq<char>, Seq<char>)>::empty()));
    assert(seq![(decode_utf8(key), decode_utf8(value))] + Seq::<(Seq<char>, Seq<char>)>::empty()
        =~= seq![(decode_utf8(key), decode_utf8(value))]);
}

/// `String::from_utf8`: the bytes as a string when they are valid UTF-8,
/// otherwise an error.
#[verifier::external_body]
fn string_from_utf8(bytes: Vec<u8>) -> (r: Result<String, std::string::FromUtf8Error>)
    ensures
        r is Ok <==> valid_utf8(bytes@),
        r matches Ok(s) ==> s@ == decode_utf8(bytes@),
{
    String::from_utf8(bytes)
}

/// The bytes `b[lo..hi]`.
fn copy_range(b: &Vec<u8>, lo: usize, hi: usize) -> (r: Vec<u8>)
    requires
        lo <= hi <= b.len(),
    ensures
        r@ == b@.subrange(lo as int, hi as int),
{
    let mut r: Vec<u8> = Vec::new();
    let mut i: usize = lo;
    while i < hi
        invariant
            lo <= i <= hi <= b.len(),
            r@ == b@.subrange(lo as int, i as int),
        decreases hi - i,
    {
        r.push(b[i]);
        assert(b@.subrange(lo as int, i + 1) =~= b@.subrange(lo as int, i as int).push(b@[i as int]));
        i = i + 1;
    }
    r
}

/// Where the key that starts at `pos` ends.
fn scan_key_end(b: &Vec<u8>, pos: usize) -> (r: Option<usize>)
    requires
        pos < b.len(),
    ensures
        r is None <==> key_end(b@, pos as int) is None,
        r matches Some(j) ==> key_end(b@, pos as int) == Some(j as int) && pos < j < b.len(),
{
    let mut i: usize = pos;
    while i + 1 < b.len()
        invariant
            pos <= i < b.len(),
            key_end(b@, pos as int) == key_end(b@, i as int),
        decreases b.len() - i,
    {
        if b[i + 1] == '=' as u8 || b[i + 1] == '\n' as u8 {
            return Some(i + 1);
        }
        i = i + 1;
    }
    None
}

/// Where the value that follows the `=` at `eq` ends.
fn scan_value_end(b: &Vec<u8>, eq: usize) -> (r: usize)
    requires
        eq < b.len(),
    ensures
        r == value_end(b@, eq as int),
        eq < r <= b.len(),
{
    let mut i: usize = eq;
    while i + 1 < b.len()
        invariant
            eq <= i < b.len(),
            value_end(b@, eq as int) == value_end(b@, i as int),
        decreases b.len() - i,
    {
        if b[i + 1] == '\n' as u8 {
            return i + 1;
        }
        i = i + 1;
    }
    b.len()
}

/// `key_end` lies after its start.
pub proof fn lemma_key_end_bounds(b: Seq<u8>, pos: int)
    ensures
        key_end(b, pos) matches Some(j) ==> pos < j < b.len(),
    decreases b.len() - pos,
{
    if pos + 1 < b.len() && !(is_eq_byte(b[pos + 1]) || is_newline_byte(b[pos + 1])) {
        lemma_key_end_bounds(b, pos + 1);
    }
}

/// `value_end` lies after its start.
pub proof fn lemma_value_end_bounds(b: Seq<u8>, pos: int)
    requires
        0 <= pos < b.len(),
    ensures
        pos < value_end(b, pos) <= b.len(),
    decreases b.len() - pos,
{
    if pos + 1 < b.len() && !is_newline_byte(b[pos + 1]) {
        lemma_value_end_bounds(b, pos + 1);
    }
}

/// The `(key, value)` entries of a configuration text, in order.
pub fn parse_config_entries(config_contents: Vec<u8>) -> (r: Result<Vec<(String, String)>, LoadConfigError>)
    ensures
        match parse_entries(config_contents@) {
            Ok(es) => r matches Ok(v) && entries_view(v@) == es,
            Err(EntryFault::ExpectedEqDelimiter) => r matches Err(LoadConfigError::Parse(e)) && e
                == ConfigParseError::ExpectedEqDelimiter,
            Err(EntryFault::InvalidUtf8) => r matches Err(LoadConfigError::Utf(_)),
        },
{
    let b = &config_contents;
    let mut entries: Vec<(String, String)> = Vec::new();
    let mut pos: usize = 0;
    while pos < b.len()
        invariant
            b@ == config_contents@,
            pos <= b.len(),
            match parse_entries_from(b@, pos as int) {
                Ok(rest) => parse_entries(b@) == Ok::<_, EntryFault>(entries_view(entries@) + rest),
                Err(f) => parse_entries(b@) == Err::<Seq<(Seq<char>, Seq<char>)>, _>(f),
            },
        decreases b.len() - pos,
    {
        let start = pos;
        match scan_key_end(b, start) {
            None => {
                assert(entries_view(entries@) + Seq::empty() =~= entries_view(entries@));
                pos = b.len();
            },
            Some(eq_pos) => {
                if b[eq_pos] == '\n' as u8 {
                    assert(parse_entries_from(b@, pos as int) == Err::<Seq<(Seq<char>, Seq<char>)>, _>(
                        EntryFault::ExpectedEqDelimiter,
                    ));
                    return Err(LoadConfigError::Parse(ConfigParseError::ExpectedEqDelimiter));
                }
                let end = scan_value_end(b, eq_pos);
                let ghost key_bytes = b@.subrange(start as int, eq_pos as int);
                let ghost value_bytes = b@.subrange(eq_pos + 1, end as int);
                let key = match string_from_utf8(copy_range(b, start, eq_pos)) {
                    Ok(k) => k,
                    Err(e) => {
                        assert(parse_entries_from(b@, pos as int) == Err::<Seq<(Seq<char>, Seq<char>)>, _>(
                            EntryFault::InvalidUtf8,
                        ));
                        return Err(LoadConfigError::Utf(e));
                    },
                };
                let value = match string_from_utf8(copy_range(b, eq_pos + 1, end)) {
                    Ok(v) => v,
                    Err(e) => {
                        assert(parse_entries_from(b@, pos as int) == Err::<Seq<(Seq<char>, Seq<char>)>, _>(
                            EntryFault::InvalidUtf8,
                        ));
                        return Err(LoadConfigError::Utf(e));
                    },
                };
                let ghost before = entries_view(entries@);
                let ghost kv = (key@, value@);
                proof {
                    assert(parse_entries_from(b@, pos as int) == match parse_entries_from(b@, end + 1) {
                        Ok(rest) => Ok(seq![kv] + rest),
                        Err(f) => Err(f),
                    });
                    if end as int == b@.len() {
                        assert(parse_entries_from(b@, end + 1) == parse_entries_from(b@, end as int));
                    }
                }
                entries.push((key, value));
                proof {
                    assert(entries_view(entries@) =~= before.push(kv));
                    match parse_entries_from(b@, end + 1) {
                        Ok(rest) => {
                            assert(before + (seq![kv] + rest) =~= entries_view(entries@) + rest);
                        },
                        Err(f) => {},
                    }
                }
                if end < b.len() {
                    pos = end + 1;
                } else {
                    pos = end;
                }
            },
        }
    }
    proof {
        assert(parse_entries_from(b@, pos as int) == Ok::<_, EntryFault>(Seq::<(Seq<char>, Seq<char>)>::empty()));
        assert(entries_view(entries@) + Seq::empty() =~= entries_view(entries@));
    }
    Ok(entries)
}

/// Whether two character sequences are equal.
fn chars_equal(a: &Vec<char>, b: &Vec<char>) -> (r: bool)
    ensures
        r == (a@ == b@),
{
    if a.len() != b.len() {
        return false;
    }
    let mut i: usize = 0;
    while i < a.len()
        invariant
            a.len() == b.len(),
            i <= a.len(),
            forall|k: int| 0 <= k < i ==> a@[k] == b@[k],
        decreases a.len() - i,
    {
        if a[i] != b[i] {
            return false;
        }
        i = i + 1;
    }
    assert(a@ =~= b@);
    true
}

/// Whether a string holds exactly the given text.
fn str_equal(a: &str, b: &str) -> (r: bool)
    ensures
        r == (a@ == b@),
{
    chars_equal(&text::str_chars(a), &text::str_chars(b))
}

/// The value of the last entry with the key, if any.
pub fn lookup_entry<'a>(entries: &'a Vec<(String, String)>, key: &str) -> (r: Option<&'a String>)
    ensures
        match lookup(entries_view(entries@), key@) {
            Some(v) => r matches Some(s) && s@ == v,
            None => r is None,
        },
{
    let mut i: usize = entries.len();
    assert(entries@.take(i as int) =~= entries@);
    while i > 0
        invariant
            i <= entries.len(),
            lookup(entries_view(entries@), key@) == lookup(entries_view(entries@.take(i as int)), key@),
        decreases i,
    {
        let ghost pre = entries_view(entries@.take(i as int));
        assert(pre.drop_last() =~= entries_view(entries@.take(i - 1)));
        assert(pre.last() == (entries@[i - 1].0@, entries@[i - 1].1@));
        if str_equal(entries[i - 1].0.as_str(), key) {
            return Some(&entries[i - 1].1);
        }
        i = i - 1;
    }
    assert(entries_view(entries@.take(0)) =~= Seq::<(Seq<char>, Seq<char>)>::empty());
    None
}

/// Whether the key is set to `val`: `false` when it is not set, `true` when
/// it is set to `val`, `err` when it is set to anything else.
pub fn exists_as_val_in_map<E>(entries: &Vec<(String, String)>, key: &str, val: &str, err: E) -> (r: Result<bool, E>)
    ensures
        match lookup(entries_view(entries@), key@) {
            None => r == Ok::<bool, E>(false),
            Some(v) => if v == val@ {
                r == Ok::<bool, E>(true)
            } else {
                r == Err::<bool, E>(err)
            },
        },
{
    match lookup_entry(entries, key) {
        None => Ok(false),
        Some(v) => {
            if str_equal(v.as_str(), val) {
                Ok(true)
            } else {
                Err(err)
            }
        },
    }
}

/// The configuration an entry list sets up; its `search_dir` and
/// `search_contents` must be set.
///
/// `search_contents` is `file_name` or `file_contents`; `case_sensitive` and
/// `start_of_line` are `true` when set to `true`, `false` when not set; a
/// `search_str` must hold the `{search}` marker and defaults to `{search}`.
pub fn load_config(entries: &Vec<(String, String)>) -> (r: Result<ParseConfig, LoadConfigError>)
    requires
        lookup(entries_view(entries@), "search_dir"@) is Some,
        lookup(entries_view(entries@), "search_contents"@) is Some,
    ensures
        ({
            let es = entries_view(entries@);
            let contents = lookup(es, "search_contents"@)->0;
            let case_sensitive = lookup(es, "case_sensitive"@);
            let start_of_line = lookup(es, "start_of_line"@);
            let search_str = lookup(es, "search_str"@);
            if contents != "file_name"@ && contents != "file_contents"@ {
                r matches Err(LoadConfigError::Parse(e)) && e
                    == ConfigParseError::UnexpectedSearchContentsValue
            } else if case_sensitive matches Some(v) && v != "true"@ {
                r matches Err(LoadConfigError::Parse(e)) && e
                    == ConfigParseError::UnexpectedCaseSensitiveValue
            } else if start_of_line matches Some(v) && v != "true"@ {
                r matches Err(LoadConfigError::Parse(e)) && e
                    == ConfigParseError::UnexpectedStartOfLineValue
            } else if search_str matches Some(v) && !text::contains_seq(v, search_insert()) {
                r matches Err(LoadConfigError::Parse(e)) && e
                    == ConfigParseError::SearchStringDoesNotHaveSearchInsert
            } else {
                r matches Ok(c) && {
                    &&& c.search_dir@ == lookup(es, "search_dir"@)->0
                    &&& c.search_contents == (if contents == "file_name"@ {
                        SearchContents::FileName
                    } else {
                        SearchContents::FileContents
                    })
                    &&& c.case_sensitive == (case_sensitive is Some)
                    &&& c.start_of_line == (start_of_line is Some)
                    &&& c.search_str@ == (match search_str {
                        Some(v) => v,
                        None => search_insert(),
                    })
                }
            }
        }),
        // a loaded search string always holds the marker
        r matches Ok(c) ==> text::contains_seq(c.search_str@, search_insert()),
{
    let search_dir = lookup_entry(entries, "search_dir").unwrap();
    let search_contents = lookup_entry(entries, "search_contents").unwrap();
    let search_contents = if str_equal(search_contents.as_str(), "file_name") {
        SearchContents::FileName
    } else if str_equal(search_contents.as_str(), "file_contents") {
        SearchContents::FileContents
    } else {
        return Err(LoadConfigError::Parse(ConfigParseError::UnexpectedSearchContentsValue));
    };
    let case_sensitive = match exists_as_val_in_map(
        entries,
        "case_sensitive",
        "true",
        ConfigParseError::UnexpectedCaseSensitiveValue,
    ) {
        Ok(b) => b,
        Err(e) => {
            return Err(LoadConfigError::Parse(e));
        },
    };
    let start_of_line = match exists_as_val_in_map(
        entries,
        "start_of_line",
        "true",
        ConfigParseError::UnexpectedStartOfLineValue,
    ) {
        Ok(b) => b,
        Err(e) => {
            return Err(LoadConfigError::Parse(e));
        },
    };
    let search_str = match lookup_entry(entries, "search_str") {
        Some(value) => {
            let chars = text::str_chars(value.as_str());
            if !text::contains_chars(&chars, &crate::utils::search_insert_chars()) {
                return Err(LoadConfigError::Parse(ConfigParseError::SearchStringDoesNotHaveSearchInsert));
            }
            value.clone()
        },
        None => {
            assert(text::matches_at(search_insert(), search_insert(), 0)) by {
                assert(search_insert().subrange(0, search_insert().len() as int) =~= search_insert());
            }
            text::chars_to_string(&crate::utils::search_insert_chars())
        },
    };
    Ok(ParseConfig {
        search_dir: search_dir.clone(),
        search_str,
        search_contents,
        case_sensitive,
        start_of_line,
    })
}

/// The value after the last `-c` flag among the arguments, if any; a `-c`
/// that is the last argument is missing its value.
pub open spec fn config_arg(args: Seq<String>, n: int) -> Option<String>
    decreases n,
{
    if n <= 0 {
        None
    } else if args[n - 1]@ == "-c"@ && n < args.len() {
        Some(args[n])
    } else {
        config_arg(args, n - 1)
    }
}

/// The configuration file path given with `-c` (the last one wins), or
/// `MissingConfigArg` when the last argument is a `-c` without a value.
pub fn config_path_from_args(args: &Vec<String>) -> (r: Result<Option<String>, ConfigParseError>)
    ensures
        if args@.len() > 0 && args@.last()@ == "-c"@ {
            r == Err::<Option<String>, _>(ConfigParseError::MissingConfigArg)
        } else {
            r == Ok::<_, ConfigParseError>(config_arg(args@, args@.len() as int))
        },
{
    let mut config_file: Option<String> = None;
    let mut i: usize = 0;
    while i < args.len()
        invariant
            i <= args.len(),
            config_file == config_arg(args@, i as int),
            forall|k: int| 0 <= k < i ==> !(args@[k]@ == "-c"@ && k + 1 >= args@.len()),
        decreases args.len() - i,
    {
        if str_equal(args[i].as_str(), "-c") {
            if args.len() <= i + 1 {
                return Err(ConfigParseError::MissingConfigArg);
            }
            config_file = Some(args[i + 1].clone());
        }
        i = i + 1;
    }
    proof {
        if args@.len() > 0 && args@.last()@ == "-c"@ {
            assert(args@[args@.len() - 1]@ == "-c"@);
        }
    }
    Ok(config_file)
}

impl ParseConfig {
    /// The text searched for: the configured search string with every
    /// `{search}` replaced by `search_str`.
    pub fn search_pattern(&self, search_str: &str) -> (r: String)
        ensures
            r@ == text::replace_all(self.search_str@, search_insert(), search_str@),
    {
        let raw = text::str_chars(self.search_str.as_str());
        let with = text::str_chars(search_str);
        let replaced = text::replace_chars(&raw, &crate::utils::search_insert_chars(), &with);
        text::chars_to_string(&replaced)
    }
}

} // verus!
