use lib::lib_error::{CreateConfigError, SearchError};
use lib::search::{
    build_search_strs, concat_chunk_results, div_ceil, file_contents_chunks,
    filter_by_file_filters, reusable_last_results, search_chunk, search_entries,
    search_file_names, search_names_with_config, to_owned_chunks,
};
use lib::utils::{LastRunInfo, NonZeroUsize, ParseConfig, SearchContents, SearchStrData};

fn named(names: &[&str]) -> Vec<(String, Option<String>)> {
    names
        .iter()
        .map(|n| (n.to_string(), Some(n.to_string())))
        .collect()
}

fn with_contents(files: &[(&str, &str)]) -> Vec<(String, Option<String>)> {
    files
        .iter()
        .map(|(n, c)| (n.to_string(), Some(c.to_string())))
        .collect()
}

fn sorted(mut v: Vec<String>) -> Vec<String> {
    v.sort();
    v
}

fn strs(v: &[&str]) -> Vec<String> {
    v.iter().map(|s| s.to_string()).collect()
}

fn config(search_strs: &[&str], contents: SearchContents) -> ParseConfig {
    ParseConfig::try_new(vec![".".to_string()], strs(search_strs), contents, None)
        .ok()
        .unwrap()
}

/// A file name search, as the command runs it on a directory listing.
fn name_search(config: &ParseConfig, entries: Vec<(String, Option<String>)>, search: &str) -> Vec<String> {
    let search_strs = build_search_strs(config, search);
    let from_start = match config.search_contents {
        SearchContents::FileName(from_start) => from_start,
        _ => unreachable!(),
    };
    search_file_names(entries, &search_strs[0].replaced_str, from_start)
}

/// A contents search: filter, split into chunks, search each chunk, join.
fn contents_search(
    config: &ParseConfig,
    entries: Vec<(String, Option<String>)>,
    search: &str,
    cores: usize,
) -> Vec<String> {
    let (filters, in_line) = match &config.search_contents {
        SearchContents::FileContents(filters, in_line) => (filters.clone(), *in_line),
        _ => unreachable!(),
    };
    let contents: std::collections::HashMap<String, Option<String>> =
        entries.iter().map(|(n, c)| (n.clone(), c.clone())).collect();
    let paired: Vec<(String, Option<String>)> =
        entries.into_iter().map(|(n, _)| (n.clone(), Some(n))).collect();
    let chunks = file_contents_chunks(paired, filters.as_ref(), NonZeroUsize::new(cores).unwrap());
    let search_strs = build_search_strs(config, search);
    let results: Vec<Vec<String>> = chunks
        .into_iter()
        .map(|chunk| {
            let chunk = chunk
                .into_iter()
                .map(|n| {
                    let c = contents[&n].clone();
                    (n, c)
                })
                .collect();
            search_chunk(chunk, &search_strs, in_line)
        })
        .collect();
    concat_chunk_results(results)
}

#[test]
fn test_search_file_names() {
    let entries = || named(&["another-file2.txt", "some-file1.txt", "the-the-file.txt"]);
    let mut config = config(&["{search}"], SearchContents::FileName(false));

    assert_eq!(
        sorted(name_search(&config, entries(), "the")),
        strs(&["another-file2.txt", "the-the-file.txt"])
    );
    assert_eq!(name_search(&config, entries(), "some"), strs(&["some-file1.txt"]));

    config.search_strs = strs(&["m{search}"]);
    assert_eq!(name_search(&config, entries(), "e-"), strs(&["some-file1.txt"]));
}

#[test]
fn test_search_reuses_last_run() {
    let entries = || named(&["another-file2.txt", "some-file1.txt", "the-the-file.txt"]);
    let config = config(&["{search}"], SearchContents::FileName(false));

    let seed = name_search(&config, entries(), "the-the");
    assert_eq!(seed, strs(&["the-the-file.txt"]));

    let last_run = LastRunInfo::new("th".len(), seed);
    let reused = reusable_last_results(Some(last_run), "the").expect("reused");
    let res = name_search(&config, named(&reused.iter().map(|s| s.as_str()).collect::<Vec<_>>()), "the");
    assert_eq!(res, strs(&["the-the-file.txt"]));

    let seed = name_search(&config, entries(), "the-the");
    let last_run = LastRunInfo::new("the".len(), seed);
    assert!(reusable_last_results(Some(last_run), "the").is_none());
    let res = name_search(&config, entries(), "the");
    assert_eq!(sorted(res), strs(&["another-file2.txt", "the-the-file.txt"]));
}

#[test]
fn test_search_file_contents() {
    let files = [
        ("a.txt", "the quick brown fox"),
        ("b.txt", "lazy dog sleeps with a_key"),
        ("c.txt", "quick response needed"),
        ("d.txt", "nothing interesting here"),
        ("e.txt", "brown sugar recipe"),
        ("f.txt", "unique_token_xyz present"),
    ];
    let files2 = [("other.txt", "a_key in a file"), ("a_file.txt", "some_Text in a file")];
    let all = || {
        let mut v = with_contents(&files);
        v.extend(with_contents(&files2));
        v
    };
    let mut config = config(&["{search}"], SearchContents::FileContents(None, false));

    assert_eq!(sorted(contents_search(&config, all(), "quick", 4)), strs(&["a.txt", "c.txt"]));
    assert_eq!(sorted(contents_search(&config, all(), "brown", 4)), strs(&["a.txt", "e.txt"]));
    assert_eq!(contents_search(&config, all(), "unique_token_xyz", 4), strs(&["f.txt"]));
    assert_eq!(contents_search(&config, all(), "zzz_absent_zzz", 4), Vec::<String>::new());
    assert_eq!(contents_search(&config, all(), "a_key", 4), strs(&["b.txt", "other.txt"]));

    config.search_strs = strs(&["un{search}"]);
    assert_eq!(contents_search(&config, all(), "ique_token_xyz", 4), strs(&["f.txt"]));
}

#[test]
fn chunked_search_equals_serial_search() {
    let files = [
        ("a", "alpha"),
        ("b", "beta alpha"),
        ("c", "gamma"),
        ("d", "ALPHA"),
        ("e", "delta"),
        ("f", "alphabet"),
        ("g", "omega"),
    ];
    let config = config(&["{search}"], SearchContents::FileContents(None, false));
    let serial = contents_search(&config, with_contents(&files), "alpha", 1);
    assert_eq!(serial, strs(&["a", "b", "d", "f"]));
    for cores in 2..10 {
        assert_eq!(contents_search(&config, with_contents(&files), "alpha", cores), serial);
    }
}

#[test]
fn try_new_rejects_missing_search_strings() {
    let r = ParseConfig::try_new(vec![], vec![], SearchContents::FileName(false), None);
    assert_eq!(r.err(), Some(CreateConfigError::MissingSearchStrs));
}

#[test]
fn try_new_rejects_several_strings_for_anchored_name_search() {
    let r = ParseConfig::try_new(vec![], strs(&["a", "b"]), SearchContents::FileName(true), None);
    assert_eq!(r.err(), Some(CreateConfigError::TooManySearchStrs));
    let r = ParseConfig::try_new(vec![], strs(&["a", "b"]), SearchContents::FileName(false), None);
    assert!(r.is_ok());
    let r = ParseConfig::try_new(
        vec![],
        strs(&["a", "b"]),
        SearchContents::FileContents(None, true),
        NonZeroUsize::new(3),
    )
    .ok()
    .unwrap();
    assert_eq!(r.search_strs, strs(&["a", "b"]));
    assert_eq!(r.parallel_preference.unwrap().get(), 3);
}

#[test]
fn default_config_searches_names_anywhere() {
    let c = ParseConfig::default();
    assert!(c.search_dirs.is_empty());
    assert!(c.search_strs.is_empty());
    assert!(matches!(c.search_contents, SearchContents::FileName(false)));
    assert!(c.parallel_preference.is_none());
}

#[test]
fn non_zero_count() {
    assert!(NonZeroUsize::new(0).is_none());
    assert_eq!(NonZeroUsize::new(7).unwrap().get(), 7);
}

#[test]
fn search_str_data_replaces_marker_and_records_prefix() {
    let d = SearchStrData::new("m{search}", "e-");
    assert_eq!(d.replaced_str, "me-");
    assert_eq!(d.prefix_end_index, Some(1));
    assert_eq!(d.search_str, "e-");

    let d = SearchStrData::new("{search}", "abc");
    assert_eq!(d.replaced_str, "abc");
    assert_eq!(d.prefix_end_index, Some(0));

    let d = SearchStrData::new("plain", "abc");
    assert_eq!(d.replaced_str, "plain");
    assert_eq!(d.prefix_end_index, None);

    let d = SearchStrData::new("{search}-{search}", "x");
    assert_eq!(d.replaced_str, "x-x");
    assert_eq!(d.prefix_end_index, Some(0));

    // the prefix index counts bytes
    let d = SearchStrData::new("é={search}", "v");
    assert_eq!(d.replaced_str, "é=v");
    assert_eq!(d.prefix_end_index, Some(3));
}

#[test]
fn name_search_from_start() {
    let entries = named(&["abc", "xabc", "ab"]);
    assert_eq!(search_file_names(entries, "ab", true), strs(&["abc", "ab"]));
    let entries = named(&["abc", "xabc", "ab"]);
    assert_eq!(search_file_names(entries, "ab", false), strs(&["abc", "xabc", "ab"]));
}

#[test]
fn name_search_skips_names_that_are_not_utf8() {
    let entries = vec![("x".to_string(), None), ("ab".to_string(), Some("ab".to_string()))];
    assert_eq!(search_file_names(entries, "", false), strs(&["ab"]));
}

#[test]
fn chunks_split_items_in_order() {
    let chunks = to_owned_chunks(vec![1, 2, 3, 4, 5], NonZeroUsize::new(2).unwrap());
    assert_eq!(chunks, vec![vec![1, 2], vec![3, 4], vec![5]]);
    let chunks = to_owned_chunks(vec![1, 2, 3, 4], NonZeroUsize::new(2).unwrap());
    assert_eq!(chunks, vec![vec![1, 2], vec![3, 4]]);
    let chunks = to_owned_chunks(Vec::<u8>::new(), NonZeroUsize::new(3).unwrap());
    assert!(chunks.is_empty());
}

#[test]
fn division_rounds_up() {
    assert_eq!(div_ceil(10, 3), 4);
    assert_eq!(div_ceil(9, 3), 3);
    assert_eq!(div_ceil(0, 3), 0);
    assert_eq!(div_ceil(1, 8), 1);
}

#[test]
fn contents_chunks_one_per_core() {
    let entries = named(&["a", "b", "c", "d", "e"]);
    let chunks = file_contents_chunks(entries, None, NonZeroUsize::new(2).unwrap());
    assert_eq!(chunks, vec![strs(&["a", "b", "c"]), strs(&["d", "e"])]);

    let entries = named(&["a", "b"]);
    let chunks = file_contents_chunks(entries, None, NonZeroUsize::new(8).unwrap());
    assert_eq!(chunks, vec![strs(&["a"]), strs(&["b"])]);

    let chunks = file_contents_chunks(Vec::<(String, Option<String>)>::new(), None, NonZeroUsize::new(8).unwrap());
    assert!(chunks.is_empty());
}

#[test]
fn file_filters_keep_names_with_a_filter() {
    let filters = strs(&[".rs", ".toml"]);
    let entries = named(&["main.rs", "notes.txt", "Cargo.toml"]);
    assert_eq!(filter_by_file_filters(entries, Some(&filters)), strs(&["main.rs", "Cargo.toml"]));

    let no_filters: Vec<String> = vec![];
    let entries = named(&["main.rs"]);
    assert!(filter_by_file_filters(entries, Some(&no_filters)).is_empty());

    let entries = named(&["main.rs", "notes.txt"]);
    assert_eq!(filter_by_file_filters(entries, None), strs(&["main.rs", "notes.txt"]));
}

fn one_file_matches(search_strs: &[&str], search: &str, in_line: bool, contents: &str) -> bool {
    let cfg = config(search_strs, SearchContents::FileContents(None, in_line));
    let data = build_search_strs(&cfg, search);
    let hits = search_chunk(vec![(0u8, Some(contents.to_string()))], &data, in_line);
    !hits.is_empty()
}

#[test]
fn in_line_search_looks_after_the_prefix_on_its_line() {
    let file = "a_test=some text before my_string";
    assert!(one_file_matches(&["a_test={search}"], "my_string", true, file));
    assert!(!one_file_matches(&["a_test={search}"], "my_string", false, file));

    // the searched text must be on the prefix's line
    let file = "a_test=some text\nmy_string";
    assert!(!one_file_matches(&["a_test={search}"], "my_string", true, file));
    // only the first occurrence of the prefix counts
    let file = "a_test=x\na_test=my_string";
    assert!(!one_file_matches(&["a_test={search}"], "my_string", true, file));
    // only the text after the prefix is searched
    assert!(!one_file_matches(&["a_test={search}"], "test", true, "a_test=foo"));
    assert!(one_file_matches(&["a_test={search}"], "test", false, "a_test=test"));
    assert!(one_file_matches(&["a_test={search}"], "foo", true, "a_test=foo"));
    // a line that ends inside the prefix leaves nothing to search
    assert!(!one_file_matches(&["a\nb={search}"], "1", true, "xa\nb=1"));
    assert!(one_file_matches(&["a\nb={search}"], "1", false, "xa\nb=1"));
    // without a prefix the in-line mode falls back to a plain search
    assert!(one_file_matches(&["{search}"], "my_string", true, "zz my_string"));
}

#[test]
fn contents_search_ignores_ascii_case() {
    assert!(one_file_matches(&["{search}"], "quick", false, "THE QUICK FOX"));
    assert!(one_file_matches(&["{search}"], "QUICK", false, "the quick fox"));
    assert!(one_file_matches(&["Key={search}"], "VALUE", true, "key=value"));
}

#[test]
fn contents_search_needs_every_search_string() {
    assert!(one_file_matches(&["{search}", "fox"], "quick", false, "the quick fox"));
    assert!(!one_file_matches(&["{search}", "dog"], "quick", false, "the quick fox"));
}

#[test]
fn unreadable_files_never_match() {
    let cfg = config(&["{search}"], SearchContents::FileContents(None, false));
    let data = build_search_strs(&cfg, "");
    let hits = search_chunk(vec![(1u8, None), (2u8, Some(String::new()))], &data, false);
    assert_eq!(hits, vec![2u8]);
}

#[test]
fn concatenates_chunk_results_in_order() {
    assert_eq!(concat_chunk_results(vec![vec![1, 2], vec![], vec![3]]), vec![1, 2, 3]);
}

#[test]
fn last_run_is_reused_only_for_longer_text() {
    assert_eq!(reusable_last_results(Some(LastRunInfo::new(2, vec![7])), "abc"), Some(vec![7]));
    assert_eq!(reusable_last_results(Some(LastRunInfo::new(3, vec![7])), "abc"), None);
    assert_eq!(reusable_last_results::<u8>(None, "abc"), None);
    // the length is counted in bytes
    assert_eq!(reusable_last_results(Some(LastRunInfo::new(2, vec![7])), "é"), None);
    assert_eq!(reusable_last_results(Some(LastRunInfo::new(1, vec![7])), "é"), Some(vec![7]));
}

#[test]
fn search_error_message() {
    assert_eq!(SearchError::FailedToGetFileName.message(), "failed to get file name");
}

#[test]
fn name_search_with_config_uses_the_first_string() {
    let cfg = config(&["m{search}", "ignored"], SearchContents::FileName(false));
    let entries = named(&["another-file2.txt", "some-file1.txt", "the-the-file.txt"]);
    assert_eq!(search_names_with_config(&cfg, "e-", entries), strs(&["some-file1.txt"]));
    let cfg = config(&["the{search}"], SearchContents::FileName(true));
    let entries = named(&["another-file2.txt", "the-the-file.txt"]);
    assert_eq!(search_names_with_config(&cfg, "-", entries), strs(&["the-the-file.txt"]));
}

#[test]
fn entries_search_fails_on_a_missing_text() {
    let entries = vec![(1, Some("has it".to_string())), (2, Some("no".to_string()))];
    assert_eq!(search_entries(entries, "has"), Ok(vec![1]));
    let entries = vec![(1, Some("has it".to_string())), (2, None)];
    assert_eq!(search_entries(entries, "has"), Err(SearchError::FailedToGetFileName));
    assert_eq!(search_entries(Vec::<(u8, Option<String>)>::new(), "has"), Ok(vec![]));
}

#[test]
fn chunk_count_follows_core_count() {
    // 10 entries on 4 cores: chunks of 3, so 4 chunks
    let names: Vec<String> = (0..10).map(|i| i.to_string()).collect();
    let entries: Vec<(String, Option<String>)> = names.iter().map(|n| (n.clone(), Some(n.clone()))).collect();
    let chunks = file_contents_chunks(entries, None, NonZeroUsize::new(4).unwrap());
    assert_eq!(chunks.iter().map(|c| c.len()).collect::<Vec<_>>(), vec![3, 3, 3, 1]);
    // 9 entries on 4 cores: chunks of 3, so only 3 chunks
    let entries: Vec<(String, Option<String>)> = names[..9].iter().map(|n| (n.clone(), Some(n.clone()))).collect();
    let chunks = file_contents_chunks(entries, None, NonZeroUsize::new(4).unwrap());
    assert_eq!(chunks.iter().map(|c| c.len()).collect::<Vec<_>>(), vec![3, 3, 3]);
}
