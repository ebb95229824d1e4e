//! The search configuration and the per-search-string data derived from it.
use vstd::prelude::*;

use crate::lib_error::CreateConfigError;
use crate::text;

verus! {

/// The marker in a configured search string that the text searched for
/// replaces: `{search}`.
pub open spec fn search_insert() -> Seq<char> {
    seq!['{', 's', 'e', 'a', 'r', 'c', 'h', '}']
}

/// The characters of the `{search}` marker.
pub fn search_insert_chars() -> (v: Vec<char>)
    ensures
        v@ == search_insert(),
{
    let v = vec!['{', 's', 'e', 'a', 'r', 'c', 'h', '}'];
    assert(v@ =~= search_insert());
    v
}

/// A count that is never zero, such as a number of threads or a chunk size.
#[derive(Clone, Copy, Debug)]
pub struct NonZeroUsize {
    value: usize,
}

impl NonZeroUsize {
    #[verifier::type_invariant]
    spec fn positive(self) -> bool {
        self.value > 0
    }

    /// The count.
    pub closed spec fn spec_value(self) -> usize {
        self.value
    }

    /// `Some` count `n` when `n` is not zero.
    pub fn new(n: usize) -> (r: Option<NonZeroUsize>)
        ensures
            r is Some <==> n > 0,
            r matches Some(c) ==> c.spec_value() == n,
    {
        if n > 0 {
            Some(NonZeroUsize { value: n })
        } else {
            None
        }
    }

    /// The count, which is positive.
    pub fn get(&self) -> (n: usize)
        ensures
            n == self.spec_value(),
            n > 0,
    {
        proof {
            use_type_invariant(self);
        }
        self.value
    }
}

/// What a search looks at.
pub enum SearchContents {
    /// The entries' file names; `true` asks for names that start with the
    /// search string, `false` for names that contain it.
    FileName(bool),
    /// The entries' contents. The first field optionally restricts the
    /// search to entries whose name contains one of the given filters. The
    /// second turns on in-line search: the searched-for text is then looked
    /// for only from the end of the configured text before `{search}` to the
    /// end of that line.
    ///
    /// For example, with the search string `a_test={search}` and the text
    /// `my_string`, a file holding `a_test=some text before my_string`
    /// matches in-line, but not otherwise; a file holding `a_test=foo` does
    /// not match `test` in-line.
    FileContents(Option<Vec<String>>, bool),
}

/// Where and how to search.
pub struct ParseConfig {
    pub search_dirs: Vec<String>,
    pub search_strs: Vec<String>,
    pub search_contents: SearchContents,
    pub parallel_preference: Option<NonZeroUsize>,
}

impl Default for ParseConfig {
    fn default() -> (r: Self)
        ensures
            r.search_dirs@.len() == 0,
            r.search_strs@.len() == 0,
            r.search_contents == SearchContents::FileName(false),
            r.parallel_preference is None,
    {
        ParseConfig {
            search_dirs: Vec::new(),
            search_strs: Vec::new(),
            search_contents: SearchContents::FileName(false),
            parallel_preference: None,
        }
    }
}

impl ParseConfig {
    /// The configuration, unless no search string is given, or more than one
    /// is given for a file name search anchored at the start of the name.
    pub fn try_new(
        search_dirs: Vec<String>,
        search_strs: Vec<String>,
        search_contents: SearchContents,
        parallel_preference: Option<NonZeroUsize>,
    ) -> (r: Result<Self, CreateConfigError>)
        ensures
            search_strs@.len() == 0 ==> r == Err::<Self, _>(CreateConfigError::MissingSearchStrs),
            search_strs@.len() > 1 && search_contents == SearchContents::FileName(true) ==> r
                == Err::<Self, _>(CreateConfigError::TooManySearchStrs),
            r is Ok <==> search_strs@.len() > 0 && !(search_strs@.len() > 1 && search_contents
                == SearchContents::FileName(true)),
            r matches Ok(c) ==> {
                &&& c.search_dirs == search_dirs
                &&& c.search_strs == search_strs
                &&& c.search_contents == search_contents
                &&& c.parallel_preference == parallel_preference
            },
    {
        if search_strs.len() == 0 {
            return Err(CreateConfigError::MissingSearchStrs);
        }
        if let SearchContents::FileName(from_start) = search_contents {
            if from_start && search_strs.len() > 1 {
                return Err(CreateConfigError::TooManySearchStrs);
            }
        }
        Ok(ParseConfig { search_dirs, search_strs, search_contents, parallel_preference })
    }
}

/// The results of an earlier search and the length, in bytes, of the text
/// searched for then.
pub struct LastRunInfo<T> {
    pub last_run_search_str_len: usize,
    pub last_run_results: Vec<T>,
}

impl<T> LastRunInfo<T> {
    /// The record of a search for a text of `last_run_search_str_len` bytes
    /// that found `last_run_results`.
    pub fn new(last_run_search_str_len: usize, last_run_results: Vec<T>) -> (r: Self)
        ensures
            r.last_run_search_str_len == last_run_search_str_len,
            r.last_run_results == last_run_results,
    {
        LastRunInfo { last_run_search_str_len, last_run_results }
    }
}

/// One configured search string with the searched-for text put in place of
/// its `{search}` marker.
pub struct SearchStrData<'a> {
    /// Byte offset of the first `{search}` in the configured string.
    pub prefix_end_index: Option<usize>,
    /// The text searched for.
    pub search_str: &'a str,
    /// The configured string with every `{search}` replaced by `search_str`.
    pub replaced_str: String,
}

impl<'a> SearchStrData<'a> {
    /// This is the data for the configured string `raw` and the text
    /// `search_str`: the text replaces every `{search}` marker, and the
    /// prefix index is the byte offset of the first marker.
    pub open spec fn is_data_for(self, raw: Seq<char>, search_str: &'a str) -> bool {
        &&& self.search_str == search_str
        &&& self.replaced_str@ == text::replace_all(raw, search_insert(), search_str@)
        &&& match text::first_match(raw, search_insert()) {
            Some(k) => self.prefix_end_index == Some(text::utf8_len(raw.take(k)) as usize)
                && text::utf8_len(raw.take(k)) <= usize::MAX
                // the text before the marker is kept, and ends on a character boundary
                && text::is_boundary(self.replaced_str@, text::utf8_len(raw.take(k)) as int)
                && text::byte_prefix(self.replaced_str@, text::utf8_len(raw.take(k)) as int)
                == raw.take(k),
            None => self.prefix_end_index is None,
        }
    }

    /// The data for the configured string `raw_search_str` and the text
    /// `search_str`.
    pub fn new(raw_search_str: &str, search_str: &'a str) -> (r: Self)
        ensures
            r.is_data_for(raw_search_str@, search_str),
    {
        let raw = text::str_chars(raw_search_str);
        let insert = search_insert_chars();
        let with = text::str_chars(search_str);
        let replaced = text::replace_chars(&raw, &insert, &with);
        let found = text::find_in_window(&raw, &insert, 0, raw.len());
        assert(raw@.subrange(0, raw@.len() as int) =~= raw@);
        let prefix_end_index = match found {
            Some(k) => {
                proof {
                    text::lemma_first_match_some(raw@, search_insert());
                }
                let total = text::str_utf8_len(raw_search_str);
                let b = text::utf8_len_of_prefix(&raw, k, total);
                proof {
                    text::lemma_replace_at_first_match(raw@, search_insert(), with@, k as int);
                    let rep = text::replace_all(raw@, search_insert(), with@);
                    assert(rep.take(k as int) =~= raw@.take(k as int));
                    text::lemma_byte_prefix_is(rep, k as int);
                }
                Some(b)
            },
            None => None,
        };
        SearchStrData {
            prefix_end_index,
            search_str,
            replaced_str: text::chars_to_string(&replaced),
        }
    }
}

/// A configured string without a `{search}` marker is searched for as it
/// stands, and has no prefix index.
pub proof fn lemma_search_str_without_marker(d: SearchStrData, raw: Seq<char>, search_str: &str)
    requires
        d.is_data_for(raw, search_str),
        !text::contains_seq(raw, search_insert()),
    ensures
        d.replaced_str@ == raw,
        d.prefix_end_index is None,
{
    text::lemma_replace_no_match(raw, search_insert(), search_str@);
}

/// A configured string with a `{search}` marker is searched for with the
/// searched-for text in the marker's place: the replaced string holds the
/// text right after the configured text that preceded the first marker.
pub proof fn lemma_search_str_with_marker(d: SearchStrData, raw: Seq<char>, search_str: &str)
    requires
        d.is_data_for(raw, search_str),
        text::contains_seq(raw, search_insert()),
    ensures
        d.prefix_end_index is Some,
        text::first_match(raw, search_insert()) matches Some(k) && text::matches_at(d.replaced_str@, search_str@, k),
        text::contains_seq(d.replaced_str@, search_str@),
{
    text::lemma_first_match_some(raw, search_insert());
    let k = text::first_match(raw, search_insert())->0;
    text::lemma_replace_at_first_match(raw, search_insert(), search_str@, k);
    let rest = text::replace_all(
        raw.subrange(k + search_insert().len(), raw.len() as int),
        search_insert(),
        search_str@,
    );
    let rep = raw.take(k) + search_str@ + rest;
    assert(rep.subrange(k, k + search_str@.len()) =~= search_str@);
}

/// The plain `{search}` pattern searches for exactly the given text.
pub proof fn lemma_plain_marker_is_search_text(search: Seq<char>)
    ensures
        text::replace_all(search_insert(), search_insert(), search) == search,
{
    let m = search_insert();
    let n = m.len() as int;
    assert(text::matches_at(m, m, 0)) by {
        assert(m.subrange(0, n) =~= m);
    }
    assert(m.subrange(n, n) =~= Seq::<char>::empty());
    assert(text::replace_all(m.subrange(n, n), m, search) =~= Seq::<char>::empty());
    assert(search + Seq::<char>::empty() =~= search);
}

} // verus!
