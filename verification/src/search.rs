//! The search itself: which directory entries match, by name or by contents,
//! and how the entries are split into chunks for parallel searching.
//!
//! Directory entries are handed in as pairs of an entry of any type and the
//! text that the search reads of it (its file name, or its contents), `None`
//! where that text could not be had as UTF-8.
use vstd::prelude::*;

use crate::text;
use crate::lib_error::SearchError;
use crate::utils::{search_insert, LastRunInfo, NonZeroUsize, ParseConfig, SearchContents, SearchStrData};

verus! {

broadcast use vstd::std_specs::vec::group_vec_axioms;

/// The entries of `s` whose text satisfies `keep`, in their order.
pub open spec fn keep_matching<T, A>(s: Seq<(T, A)>, keep: spec_fn(A) -> bool) -> Seq<T>
    decreases s.len(),
{
    if s.len() == 0 {
        Seq::empty()
    } else {
        let rest = keep_matching(s.drop_last(), keep);
        if keep(s.last().1) {
            rest.push(s.last().0)
        } else {
            rest
        }
    }
}

/// A file name matches the searched string: it starts with it when
/// `from_start`, else it contains it. A name that is not UTF-8 never matches.
pub open spec fn name_matches(name: Option<String>, search: Seq<char>, from_start: bool) -> bool {
    match name {
        Some(n) => if from_start {
            text::starts_with_seq(n@, search)
        } else {
            text::contains_seq(n@, search)
        },
        None => false,
    }
}

/// Whether a file name matches the searched characters `needle`.
fn name_matches_exec(name: &Option<String>, needle: &Vec<char>, from_start: bool) -> (b: bool)
    ensures
        b == name_matches(*name, needle@, from_start),
{
    match name {
        Some(n) => {
            let chars = text::str_chars(n.as_str());
            if from_start {
                text::matches_at_index(&chars, needle, 0)
            } else {
                text::contains_chars(&chars, needle)
            }
        },
        None => false,
    }
}

/// The entries whose names match `search_str`, in their order.
pub fn search_file_names<T>(dir_contents: Vec<(T, Option<String>)>, search_str: &str, from_start: bool) -> (r: Vec<T>)
    ensures
        r@ == keep_matching(dir_contents@, |n: Option<String>| name_matches(n, search_str@, from_start)),
{
    let needle = text::str_chars(search_str);
    let ghost orig = dir_contents@;
    let mut res_paths: Vec<T> = Vec::new();
    for dir_entry in it: dir_contents.into_iter()
        invariant
            needle@ == search_str@,
            it.seq() == orig,
            it.index() == orig.len() ==> res_paths@ == keep_matching(orig, |n: Option<String>| name_matches(n, search_str@, from_start)),
            res_paths@ == keep_matching(it.seq().take(it.index() as int), |n: Option<String>| name_matches(n, search_str@, from_start)),
    {
        let ghost done = it.seq().take(it.index() as int);
        let ghost cur = dir_entry;
        assert(cur == it.seq()[it.index()]);
        let (entry, name) = dir_entry;
        let hit = name_matches_exec(&name, &needle, from_start);
        assert(it.seq().take(it.index() + 1).drop_last() =~= done);
        assert(it.seq().take(it.index() + 1).last() == cur);
        if hit {
            res_paths.push(entry);
        }
        assert(it.index() + 1 == orig.len() ==> it.seq().take(it.index() + 1) =~= orig);
    }
    res_paths
}


/// The item's in-line mode applies: in-line search is on and the item's
/// `{search}` marker has text before it.
pub open spec fn uses_line_prefix(item: SearchStrData, search_in_line: bool) -> bool {
    search_in_line && (item.prefix_end_index matches Some(p) && p > 0)
}

/// The configured text before the item's `{search}` marker, lower-cased.
pub open spec fn line_prefix(item: SearchStrData) -> Seq<char> {
    text::lower_seq(text::byte_prefix(item.replaced_str@, item.prefix_end_index->0 as int))
}

/// The item can be looked for: where its in-line mode applies, its prefix
/// index falls on a character boundary of its replaced string.
pub open spec fn line_prefix_well_placed(item: SearchStrData, search_in_line: bool) -> bool {
    uses_line_prefix(item, search_in_line) ==> text::is_boundary(
        item.replaced_str@,
        item.prefix_end_index->0 as int,
    )
}

/// The lower-cased file text `file` matches one search item.
///
/// In in-line mode the first occurrence of the item's prefix is found, and
/// the searched-for text must occur between the end of that prefix and the
/// end of its line (nowhere, when the line ends inside the prefix);
/// otherwise the whole replaced string must occur somewhere in the file.
pub open spec fn item_matches(file: Seq<char>, item: SearchStrData, search_in_line: bool) -> bool {
    if uses_line_prefix(item, search_in_line) {
        match text::first_match(file, line_prefix(item)) {
            Some(i) => {
                let end = match text::first_match(file.subrange(i, file.len() as int), seq!['\n']) {
                    Some(j) => i + j,
                    None => file.len() as int,
                };
                let start = i + line_prefix(item).len();
                let stop = if end < start { start } else { end };
                text::contains_seq(file.subrange(start, stop), text::lower_seq(item.search_str@))
            },
            None => false,
        }
    } else {
        text::contains_seq(file, text::lower_seq(item.replaced_str@))
    }
}

/// A file's text matches every search item (checked on its lower-cased text).
pub open spec fn file_matches(data: Seq<char>, items: Seq<SearchStrData>, search_in_line: bool) -> bool {
    forall|k: int| 0 <= k < items.len() ==> item_matches(text::lower_seq(data), #[trigger] items[k], search_in_line)
}

/// Checking a file's text against the items, in order and stopping at the
/// first one that fails, only ever looks for well-placed prefixes.
pub open spec fn file_check_defined(data: Seq<char>, items: Seq<SearchStrData>, search_in_line: bool) -> bool {
    forall|k: int|
        0 <= k < items.len() && (forall|j: int| 0 <= j < k ==> item_matches(text::lower_seq(data), #[trigger] items[j], search_in_line))
            ==> line_prefix_well_placed(#[trigger] items[k], search_in_line)
}

/// Whether the lower-cased file text `file` matches the item.
fn item_matches_exec(file: &Vec<char>, item: &SearchStrData, search_in_line: bool) -> (b: bool)
    requires
        line_prefix_well_placed(*item, search_in_line),
    ensures
        b == item_matches(file@, *item, search_in_line),
{
    if search_in_line {
        if let Some(p) = item.prefix_end_index {
            if p > 0 {
                let replaced = text::str_chars(item.replaced_str.as_str());
                let total = text::str_utf8_len(item.replaced_str.as_str());
                let k = text::char_count_before_byte(&replaced, p, total);
                let before = text::take_chars(&replaced, k);
                let prefix = text::chars_to_ascii_lower(&before);
                match text::find_in_window(file, &prefix, 0, file.len()) {
                    Some(i) => {
                        proof {
                            assert(file@.subrange(0, file@.len() as int) =~= file@);
                            text::lemma_first_match_some(file@, prefix@);
                        }
                        let newline = vec!['\n'];
                        assert(newline@ =~= seq!['\n']);
                        let end = match text::find_in_window(file, &newline, i, file.len()) {
                            Some(j) => {
                                proof {
                                    text::lemma_first_match_some(
                                        file@.subrange(i as int, file@.len() as int),
                                        newline@,
                                    );
                                }
                                j
                            },
                            None => file.len(),
                        };
                        let start = i + prefix.len();
                        let stop = if end < start {
                            start
                        } else {
                            end
                        };
                        let wanted = text::str_chars(item.search_str);
                        let wanted = text::chars_to_ascii_lower(&wanted);
                        let found = text::find_in_window(file, &wanted, start, stop);
                        proof {
                            if text::contains_seq(file@.subrange(start as int, stop as int), wanted@) {
                                text::lemma_first_match_some(file@.subrange(start as int, stop as int), wanted@);
                            }
                        }
                        return found.is_some();
                    },
                    None => {
                        assert(file@.subrange(0, file@.len() as int) =~= file@);
                        return false;
                    },
                }
            }
        }
    }
    let replaced = text::str_chars(item.replaced_str.as_str());
    let wanted = text::chars_to_ascii_lower(&replaced);
    text::contains_chars(file, &wanted)
}

/// Whether a file's text matches every item, checked in order.
fn file_matches_exec(data: &str, items: &Vec<SearchStrData>, search_in_line: bool) -> (b: bool)
    requires
        file_check_defined(data@, items@, search_in_line),
    ensures
        b == file_matches(data@, items@, search_in_line),
{
    let chars = text::str_chars(data);
    let file = text::chars_to_ascii_lower(&chars);
    let mut k: usize = 0;
    while k < items.len()
        invariant
            k <= items.len(),
            file@ == text::lower_seq(data@),
            file_check_defined(data@, items@, search_in_line),
            forall|j: int| 0 <= j < k ==> item_matches(file@, #[trigger] items@[j], search_in_line),
        decreases items.len() - k,
    {
        assert(line_prefix_well_placed(items@[k as int], search_in_line));
        if !item_matches_exec(&file, &items[k], search_in_line) {
            return false;
        }
        k = k + 1;
    }
    true
}

/// The entries of a chunk whose contents match every search item, in their
/// order. Each entry comes with its contents, `None` where they could not be
/// read as UTF-8.
pub fn search_chunk<'a, T>(chunk: Vec<(T, Option<String>)>, search_strs: &Vec<SearchStrData<'a>>, search_in_line: bool) -> (r: Vec<T>)
    requires
        forall|i: int| 0 <= i < chunk@.len() ==> ((#[trigger] chunk@[i]).1 matches Some(d) ==> file_check_defined(d@, search_strs@, search_in_line)),
    ensures
        r@ == keep_matching(chunk@, |c: Option<String>| c matches Some(d) && file_matches(d@, search_strs@, search_in_line)),
{
    let ghost orig = chunk@;
    let mut res_paths: Vec<T> = Vec::new();
    for dir_entry in it: chunk.into_iter()
        invariant
            it.seq() == orig,
            forall|i: int| 0 <= i < orig.len() ==> ((#[trigger] orig[i]).1 matches Some(d) ==> file_check_defined(d@, search_strs@, search_in_line)),
            res_paths@ == keep_matching(it.seq().take(it.index() as int), |c: Option<String>| c matches Some(d) && file_matches(d@, search_strs@, search_in_line)),
            it.index() == orig.len() ==> res_paths@ == keep_matching(orig, |c: Option<String>| c matches Some(d) && file_matches(d@, search_strs@, search_in_line)),
    {
        let ghost done = it.seq().take(it.index() as int);
        let ghost cur = dir_entry;
        assert(cur == orig[it.index()]);
        let (entry, contents) = dir_entry;
        let hit = match &contents {
            Some(d) => file_matches_exec(d.as_str(), search_strs, search_in_line),
            None => false,
        };
        assert(it.seq().take(it.index() + 1).drop_last() =~= done);
        assert(it.seq().take(it.index() + 1).last() == cur);
        if hit {
            res_paths.push(entry);
        }
        assert(it.index() + 1 == orig.len() ==> it.seq().take(it.index() + 1) =~= orig);
    }
    res_paths
}


/// A file name passes the file filters: with no filters every entry passes,
/// otherwise its name must contain one of them.
pub open spec fn passes_file_filters(name: Option<String>, file_filters: Option<Seq<String>>) -> bool {
    match file_filters {
        None => true,
        Some(filters) => match name {
            Some(n) => contains_some_filter(n@, filters),
            None => false,
        },
    }
}

/// The name contains one of the filters.
pub open spec fn contains_some_filter(name: Seq<char>, filters: Seq<String>) -> bool {
    exists|i: int| 0 <= i < filters.len() && text::contains_seq(name, #[trigger] filters[i]@)
}

/// The filters as a sequence, if any.
pub open spec fn filters_view(file_filters: Option<&Vec<String>>) -> Option<Seq<String>> {
    match file_filters {
        Some(f) => Some(f@),
        None => None,
    }
}

/// Whether a name contains one of the filters.
fn passes_file_filters_exec(name: &Option<String>, file_filters: Option<&Vec<String>>) -> (b: bool)
    requires
        file_filters matches Some(f) && f@.len() > 0 ==> name is Some,
    ensures
        b == passes_file_filters(*name, filters_view(file_filters)),
{
    match file_filters {
        None => true,
        Some(filters) => {
            let mut i: usize = 0;
            while i < filters.len()
                invariant
                    i <= filters.len(),
                    file_filters == Some(filters),
                    filters@.len() > 0 ==> name is Some,
                    forall|j: int| 0 <= j < i ==> !(name matches Some(n) && text::contains_seq(n@, #[trigger] filters@[j]@)),
                decreases filters.len() - i,
            {
                match name {
                    Some(n) => {
                        let chars = text::str_chars(n.as_str());
                        let filter = text::str_chars(filters[i].as_str());
                        if text::contains_chars(&chars, &filter) {
                            assert(contains_some_filter(n@, filters@));
                            return true;
                        }
                    },
                    None => {},
                }
                i = i + 1;
            }
            false
        },
    }
}

/// The entries that pass the file filters, in their order.
pub fn filter_by_file_filters<T>(dir_contents: Vec<(T, Option<String>)>, file_filters: Option<&Vec<String>>) -> (r: Vec<T>)
    requires
        file_filters matches Some(f) && f@.len() > 0 ==> forall|i: int| 0 <= i < dir_contents@.len() ==> (#[trigger] dir_contents@[i]).1 is Some,
    ensures
        r@ == keep_matching(dir_contents@, |n: Option<String>| passes_file_filters(n, filters_view(file_filters))),
{
    let ghost orig = dir_contents@;
    let mut kept: Vec<T> = Vec::new();
    for dir_entry in it: dir_contents.into_iter()
        invariant
            it.seq() == orig,
            file_filters matches Some(f) && f@.len() > 0 ==> forall|i: int| 0 <= i < orig.len() ==> (#[trigger] orig[i]).1 is Some,
            kept@ == keep_matching(it.seq().take(it.index() as int), |n: Option<String>| passes_file_filters(n, filters_view(file_filters))),
            it.index() == orig.len() ==> kept@ == keep_matching(orig, |n: Option<String>| passes_file_filters(n, filters_view(file_filters))),
    {
        let ghost done = it.seq().take(it.index() as int);
        let ghost cur = dir_entry;
        assert(cur == orig[it.index()]);
        let (entry, name) = dir_entry;
        let pass = passes_file_filters_exec(&name, file_filters);
        assert(it.seq().take(it.index() + 1).drop_last() =~= done);
        assert(it.seq().take(it.index() + 1).last() == cur);
        if pass {
            kept.push(entry);
        }
        assert(it.index() + 1 == orig.len() ==> it.seq().take(it.index() + 1) =~= orig);
    }
    kept
}

/// `n / d` rounded up.
pub open spec fn ceil_div(n: int, d: int) -> int {
    (n + d - 1) / d
}

/// `n / d` rounded up, for a positive `d`.
pub fn div_ceil(n: usize, d: usize) -> (q: usize)
    requires
        d > 0,
    ensures
        q == ceil_div(n as int, d as int),
{
    let q = n / d;
    let r = n % d;
    proof {
        assert(n == d * q + r) by (nonlinear_arith)
            requires
                d > 0,
                q == n / d,
                r == n % d,
        ;
    }
    if r != 0 {
        proof {
            assert((n + d - 1) / (d as int) == q + 1) by (nonlinear_arith)
                requires
                    d > 0,
                    n == d * q + r,
                    0 < r < d,
            ;
            assert(q + 1 <= n) by (nonlinear_arith)
                requires
                    d > 0,
                    n == d * q + r,
                    0 < r < d,
            ;
        }
        q + 1
    } else {
        proof {
            assert((n + d - 1) / (d as int) == q) by (nonlinear_arith)
                requires
                    d > 0,
                    n == d * q,
            ;
        }
        q
    }
}

/// The views of a sequence of vectors.
pub open spec fn views<T>(v: Seq<Vec<T>>) -> Seq<Seq<T>> {
    v.map_values(|c: Vec<T>| c@)
}

/// `chunks` splits `items` into consecutive chunks of `size` items, the last
/// one possibly shorter and none of them empty.
pub open spec fn is_chunking<T>(chunks: Seq<Seq<T>>, items: Seq<T>, size: int) -> bool {
    &&& chunks.flatten() == items
    &&& forall|i: int| 0 <= i < chunks.len() ==> 0 < (#[trigger] chunks[i]).len() <= size
    &&& forall|i: int| 0 <= i < chunks.len() - 1 ==> (#[trigger] chunks[i]).len() == size
}

/// Counting chunks: `full` chunks of `size` and `rest` more items make
/// `full` chunks, plus one when `rest` is not zero.
proof fn lemma_chunk_count(full: int, size: int, rest: int)
    requires
        full >= 0,
        size > 0,
        0 <= rest < size,
    ensures
        ceil_div(full * size + rest, size) == full + (if rest > 0 { 1int } else { 0int }),
{
    if rest > 0 {
        assert((full * size + rest + size - 1) / size == full + 1) by (nonlinear_arith)
            requires
                full >= 0,
                size > 0,
                0 < rest < size,
        ;
    } else {
        assert((full * size + size - 1) / size == full) by (nonlinear_arith)
            requires
                full >= 0,
                size > 0,
        ;
    }
}

/// Splits `items` into consecutive chunks of `chunk_size` items; the last
/// chunk holds what is left.
pub fn to_owned_chunks<T>(items: Vec<T>, chunk_size: NonZeroUsize) -> (r: Vec<Vec<T>>)
    ensures
        is_chunking(views(r@), items@, chunk_size.spec_value() as int),
        r@.len() == ceil_div(items@.len() as int, chunk_size.spec_value() as int),
{
    let size = chunk_size.get();
    let ghost orig = items@;
    let mut res: Vec<Vec<T>> = Vec::with_capacity(div_ceil(items.len(), size));
    let mut chunk: Vec<T> = Vec::with_capacity(size);
    for item in it: items.into_iter()
        invariant
            size > 0,
            size == chunk_size.spec_value(),
            it.seq() == orig,
            views(res@).flatten() + chunk@ == it.seq().take(it.index() as int),
            forall|i: int| 0 <= i < res@.len() ==> (#[trigger] res@[i])@.len() == size,
            chunk@.len() < size,
            res@.len() * size + chunk@.len() == it.index(),
    {
        let ghost before_res = res@;
        let ghost before_chunk = chunk@;
        assert(item == it.seq()[it.index()]);
        assert(it.seq().take(it.index() + 1) =~= it.seq().take(it.index() as int).push(item));
        chunk.push(item);
        assert(views(res@).flatten() + chunk@ =~= (views(res@).flatten() + before_chunk).push(item));
        assert(views(res@).flatten() + chunk@ =~= it.seq().take(it.index() + 1));
        if chunk.len() == size {
            assert((res@.len() + 1) * size == res@.len() * size + size) by (nonlinear_arith);
            res.push(chunk);
            chunk = Vec::with_capacity(size);
            proof {
                assert(views(res@) =~= views(before_res).push(before_chunk.push(item)));
                views(before_res).lemma_flatten_push(before_chunk.push(item));
                assert(views(res@).flatten() + chunk@ =~= it.seq().take(it.index() + 1));
            }
        }
    }
    let ghost full = res@.len() as int;
    let ghost rem = chunk@;
    assert(views(res@).flatten() + rem =~= orig) by {
        assert(orig.take(orig.len() as int) =~= orig);
    }
    if chunk.len() > 0 {
        let ghost before_res = res@;
        res.push(chunk);
        proof {
            assert(views(res@) =~= views(before_res).push(rem));
            views(before_res).lemma_flatten_push(rem);
        }
    } else {
        assert(views(res@).flatten() + rem =~= views(res@).flatten());
    }
    proof {
        lemma_chunk_count(full, size as int, rem.len() as int);
    }
    res
}


/// With `n` items split among `cores`, chunks of `ceil(n / cores)` items
/// number at most `cores`.
pub proof fn lemma_chunks_fit_cores(n: int, cores: int)
    requires
        n > 0,
        cores > 0,
    ensures
        ceil_div(n, cores) > 0,
        ceil_div(n, ceil_div(n, cores)) <= cores,
        ceil_div(n, ceil_div(n, cores)) <= n,
{
    let s = (n + cores - 1) / cores;
    assert(s * cores >= n && s > 0) by (nonlinear_arith)
        requires
            n > 0,
            cores > 0,
            s == (n + cores - 1) / cores,
    ;
    assert((n + s - 1) / s <= cores) by (nonlinear_arith)
        requires
            n > 0,
            cores > 0,
            s > 0,
            s * cores >= n,
    ;
    assert((n + s - 1) / s <= n) by (nonlinear_arith)
        requires
            n > 0,
            s > 0,
    ;
}

/// The entries that a contents search reads: those that pass the filters.
pub open spec fn filtered_entries<T>(dir_contents: Seq<(T, Option<String>)>, file_filters: Option<Seq<String>>) -> Seq<T> {
    keep_matching(dir_contents, |n: Option<String>| passes_file_filters(n, file_filters))
}

/// The entries that pass the file filters, split into one chunk per core:
/// consecutive chunks of `ceil(n / cores)` entries, so that there are at most
/// `cores` of them, none empty.
pub fn file_contents_chunks<T>(dir_contents: Vec<(T, Option<String>)>, file_filters: Option<&Vec<String>>, core_count: NonZeroUsize) -> (r: Vec<Vec<T>>)
    requires
        file_filters matches Some(f) && f@.len() > 0 ==> forall|i: int| 0 <= i < dir_contents@.len() ==> (#[trigger] dir_contents@[i]).1 is Some,
    ensures
        is_chunking(views(r@), filtered_entries(dir_contents@, filters_view(file_filters)),
            ceil_div(filtered_entries(dir_contents@, filters_view(file_filters)).len() as int, core_count.spec_value() as int)),
        r@.len() <= core_count.spec_value(),
        ({
            let n = filtered_entries(dir_contents@, filters_view(file_filters)).len() as int;
            &&& r@.len() == (if n == 0 {
                0
            } else {
                ceil_div(n, ceil_div(n, core_count.spec_value() as int))
            })
            &&& r@.len() <= n
        }),
{
    let kept = filter_by_file_filters(dir_contents, file_filters);
    if kept.len() == 0 {
        let r: Vec<Vec<T>> = Vec::new();
        assert(views(r@) =~= Seq::<Seq<T>>::empty());
        assert(views(r@).flatten() =~= kept@);
        return r;
    }
    let cores = core_count.get();
    proof {
        lemma_chunks_fit_cores(kept@.len() as int, cores as int);
    }
    let per_core = div_ceil(kept.len(), cores);
    match NonZeroUsize::new(per_core) {
        Some(chunk_size) => to_owned_chunks(kept, chunk_size),
        None => Vec::new(),
    }
}

/// The results of the chunks, one after another.
pub fn concat_chunk_results<T>(results: Vec<Vec<T>>) -> (r: Vec<T>)
    ensures
        r@ == views(results@).flatten(),
{
    let ghost orig = results@;
    let mut all: Vec<T> = Vec::new();
    for chunk in it: results.into_iter()
        invariant
            it.seq() == orig,
            all@ == views(it.seq().take(it.index() as int)).flatten(),
            it.index() == orig.len() ==> all@ == views(orig).flatten(),
    {
        let ghost before = all@;
        let ghost cur = chunk@;
        assert(chunk == it.seq()[it.index()]);
        let mut chunk = chunk;
        all.append(&mut chunk);
        proof {
            assert(views(it.seq().take(it.index() + 1)) =~= views(it.seq().take(it.index() as int)).push(cur));
            views(it.seq().take(it.index() as int)).lemma_flatten_push(cur);
        }
        assert(it.index() + 1 == orig.len() ==> it.seq().take(it.index() + 1) =~= orig);
    }
    all
}

/// The results of an earlier search, to be searched again in place of the
/// directories, when the text now searched for is longer (in bytes) than the
/// one searched for then.
pub fn reusable_last_results<T>(last_run_info_option: Option<LastRunInfo<T>>, search_str: &str) -> (r: Option<Vec<T>>)
    ensures
        match last_run_info_option {
            Some(info) => if (info.last_run_search_str_len as int) < text::utf8_len(search_str@) {
                r == Some(info.last_run_results)
            } else {
                r is None
            },
            None => r is None,
        },
{
    match last_run_info_option {
        Some(info) => {
            if info.last_run_search_str_len < text::str_utf8_len(search_str) {
                Some(info.last_run_results)
            } else {
                None
            }
        },
        None => None,
    }
}

/// The search data of every configured search string, in order, for the
/// text `search_str`.
pub fn build_search_strs<'a>(config: &ParseConfig, search_str: &'a str) -> (r: Vec<SearchStrData<'a>>)
    ensures
        r@.len() == config.search_strs@.len(),
        forall|i: int| 0 <= i < r@.len() ==> (#[trigger] r@[i]).is_data_for(config.search_strs@[i]@, search_str),
{
    let mut r: Vec<SearchStrData<'a>> = Vec::new();
    let mut i: usize = 0;
    while i < config.search_strs.len()
        invariant
            i <= config.search_strs@.len(),
            r@.len() == i,
            forall|j: int| 0 <= j < i ==> (#[trigger] r@[j]).is_data_for(config.search_strs@[j]@, search_str),
        decreases config.search_strs@.len() - i,
    {
        let d = SearchStrData::new(config.search_strs[i].as_str(), search_str);
        r.push(d);
        i = i + 1;
    }
    r
}


/// The entries of `s` (with their texts) whose text satisfies `keep`.
pub open spec fn keep_matching_pairs<T, A>(s: Seq<(T, A)>, keep: spec_fn(A) -> bool) -> Seq<(T, A)>
    decreases s.len(),
{
    if s.len() == 0 {
        Seq::empty()
    } else {
        let rest = keep_matching_pairs(s.drop_last(), keep);
        if keep(s.last().1) {
            rest.push(s.last())
        } else {
            rest
        }
    }
}

/// Searching two lists one after the other gives the results of searching
/// their concatenation.
pub proof fn lemma_keep_matching_concat<T, A>(a: Seq<(T, A)>, b: Seq<(T, A)>, keep: spec_fn(A) -> bool)
    ensures
        keep_matching(a + b, keep) == keep_matching(a, keep) + keep_matching(b, keep),
    decreases b.len(),
{
    if b.len() == 0 {
        assert(a + b =~= a);
        assert(keep_matching(a, keep) + keep_matching(b, keep) =~= keep_matching(a, keep));
    } else {
        assert((a + b).drop_last() =~= a + b.drop_last());
        assert((a + b).last() == b.last());
        lemma_keep_matching_concat(a, b.drop_last(), keep);
        if keep(b.last().1) {
            assert(keep_matching(a, keep) + keep_matching(b.drop_last(), keep).push(b.last().0)
                =~= (keep_matching(a, keep) + keep_matching(b.drop_last(), keep)).push(b.last().0));
        }
    }
}

/// Searching the chunks of a list one by one and concatenating their results,
/// in chunk order, gives the results of searching the whole list: a search
/// split over threads finds what a serial search finds, in the same order.
pub proof fn lemma_chunked_search_is_whole_search<T, A>(chunks: Seq<Seq<(T, A)>>, keep: spec_fn(A) -> bool)
    ensures
        keep_matching(chunks.flatten(), keep) == chunks.map_values(|c: Seq<(T, A)>| keep_matching(c, keep)).flatten(),
    decreases chunks.len(),
{
    if chunks.len() == 0 {
        assert(chunks.map_values(|c: Seq<(T, A)>| keep_matching(c, keep)) =~= Seq::<Seq<T>>::empty());
    } else {
        let rest = chunks.drop_first();
        lemma_chunked_search_is_whole_search(rest, keep);
        lemma_keep_matching_concat(chunks.first(), rest.flatten(), keep);
        let m = chunks.map_values(|c: Seq<(T, A)>| keep_matching(c, keep));
        assert(m.drop_first() =~= rest.map_values(|c: Seq<(T, A)>| keep_matching(c, keep)));
        assert(m.first() == keep_matching(chunks.first(), keep));
    }
}

/// Narrowing a search: when the new predicate only accepts texts the old one
/// accepted, searching the old results gives the same entries as searching
/// everything again.
pub proof fn lemma_search_within_results<T, A>(s: Seq<(T, A)>, wide: spec_fn(A) -> bool, narrow: spec_fn(A) -> bool)
    requires
        forall|a: A| #[trigger] narrow(a) ==> wide(a),
    ensures
        keep_matching(keep_matching_pairs(s, wide), narrow) == keep_matching(s, narrow),
    decreases s.len(),
{
    if s.len() > 0 {
        lemma_search_within_results(s.drop_last(), wide, narrow);
        let prev = keep_matching_pairs(s.drop_last(), wide);
        if wide(s.last().1) {
            assert(prev.push(s.last()).drop_last() =~= prev);
        }
    }
}

/// The shorter text is found wherever the longer one is: it starts the
/// longer text for a search anchored at the start of names, and occurs in it
/// otherwise.
pub open spec fn narrows(shorter: Seq<char>, longer: Seq<char>, from_start: bool) -> bool {
    if from_start {
        text::starts_with_seq(longer, shorter)
    } else {
        text::contains_seq(longer, shorter)
    }
}

/// A name that matches a text also matches every text that it narrows.
pub proof fn lemma_name_match_narrows(name: Option<String>, shorter: Seq<char>, longer: Seq<char>, from_start: bool)
    requires
        narrows(shorter, longer, from_start),
        name_matches(name, longer, from_start),
    ensures
        name_matches(name, shorter, from_start),
{
    let n = name->0@;
    let i = if from_start {
        0
    } else {
        choose|i: int| text::matches_at(n, longer, i)
    };
    let j = if from_start {
        0
    } else {
        choose|j: int| text::matches_at(longer, shorter, j)
    };
    assert(text::matches_at(n, longer, i));
    assert(text::matches_at(longer, shorter, j));
    assert(n.subrange(i, i + longer.len()) == longer);
    assert(longer.subrange(j, j + shorter.len()) == shorter);
    assert(n.subrange(i + j, i + j + shorter.len()) =~= n.subrange(i, i + longer.len()).subrange(
        j,
        j + shorter.len(),
    ));
    assert(text::matches_at(n, shorter, i + j));
}

/// Searching file names again among the results of an earlier search gives
/// the results of a new search, when the earlier text narrows the new one
/// (it starts it, for an anchored search, or occurs in it, otherwise): the
/// earlier results can stand in for the directories.
pub proof fn lemma_narrowed_name_search<T>(entries: Seq<(T, Option<String>)>, shorter: Seq<char>, longer: Seq<char>, from_start: bool)
    requires
        narrows(shorter, longer, from_start),
    ensures
        keep_matching(
            keep_matching_pairs(entries, |n: Option<String>| name_matches(n, shorter, from_start)),
            |n: Option<String>| name_matches(n, longer, from_start),
        ) == keep_matching(entries, |n: Option<String>| name_matches(n, longer, from_start)),
{
    let wide = |n: Option<String>| name_matches(n, shorter, from_start);
    let narrow = |n: Option<String>| name_matches(n, longer, from_start);
    assert forall|a: Option<String>| #[trigger] narrow(a) implies wide(a) by {
        lemma_name_match_narrows(a, shorter, longer, from_start);
    }
    lemma_search_within_results(entries, wide, narrow);
}

/// Each item paired with its text.
pub open spec fn with_texts<T>(items: Seq<T>, text_of: spec_fn(T) -> Option<String>) -> Seq<(T, Option<String>)> {
    items.map_values(|t: T| (t, text_of(t)))
}

/// The entry's contents were read and match every search item.
pub open spec fn contents_hit(contents: Option<String>, items: Seq<SearchStrData>, search_in_line: bool) -> bool {
    contents matches Some(d) && file_matches(d@, items, search_in_line)
}

/// Pairing items with their texts commutes with flattening chunks.
pub proof fn lemma_with_texts_flatten<T>(chunks: Seq<Seq<T>>, text_of: spec_fn(T) -> Option<String>)
    ensures
        chunks.map_values(|c: Seq<T>| with_texts(c, text_of)).flatten() == with_texts(chunks.flatten(), text_of),
    decreases chunks.len(),
{
    let m = chunks.map_values(|c: Seq<T>| with_texts(c, text_of));
    if chunks.len() == 0 {
        assert(with_texts(chunks.flatten(), text_of) =~= Seq::<(T, Option<String>)>::empty());
    } else {
        let rest = chunks.drop_first();
        lemma_with_texts_flatten(rest, text_of);
        assert(m.drop_first() =~= rest.map_values(|c: Seq<T>| with_texts(c, text_of)));
        assert(with_texts(chunks.first() + rest.flatten(), text_of) =~= with_texts(chunks.first(), text_of)
            + with_texts(rest.flatten(), text_of));
    }
}

/// A contents search split into chunks of any size finds, once the chunk
/// results are joined in order, exactly the entries a serial search finds:
/// the result does not depend on the number of threads.
pub proof fn lemma_contents_search_independent_of_chunking<T>(
    chunks: Seq<Seq<T>>,
    items: Seq<T>,
    size: int,
    contents_of: spec_fn(T) -> Option<String>,
    search_strs: Seq<SearchStrData>,
    search_in_line: bool,
)
    requires
        is_chunking(chunks, items, size),
    ensures
        chunks.map_values(
            |c: Seq<T>| keep_matching(with_texts(c, contents_of), |d: Option<String>| contents_hit(d, search_strs, search_in_line)),
        ).flatten() == keep_matching(
            with_texts(items, contents_of),
            |d: Option<String>| contents_hit(d, search_strs, search_in_line),
        ),
{
    let hit = |d: Option<String>| contents_hit(d, search_strs, search_in_line);
    let paired = chunks.map_values(|c: Seq<T>| with_texts(c, contents_of));
    lemma_with_texts_flatten(chunks, contents_of);
    lemma_chunked_search_is_whole_search(paired, hit);
    assert(paired.map_values(|c: Seq<(T, Option<String>)>| keep_matching(c, hit)) =~= chunks.map_values(
        |c: Seq<T>| keep_matching(with_texts(c, contents_of), hit),
    ));
}

/// The configuration's name search is anchored at the start of names.
pub open spec fn config_from_start(config: ParseConfig) -> bool {
    match config.search_contents {
        SearchContents::FileName(from_start) => from_start,
        SearchContents::FileContents(_, _) => false,
    }
}

/// The entries whose names match the configuration's first search string
/// with `search_str` in place of its `{search}` markers; the other search
/// strings take no part in a name search.
pub fn search_names_with_config<T>(config: &ParseConfig, search_str: &str, dir_contents: Vec<(T, Option<String>)>) -> (r: Vec<T>)
    requires
        config.search_contents is FileName,
        config.search_strs@.len() > 0,
    ensures
        r@ == keep_matching(
            dir_contents@,
            |n: Option<String>| name_matches(
                n,
                text::replace_all(config.search_strs@[0]@, search_insert(), search_str@),
                config_from_start(*config),
            ),
        ),
{
    let search_strs = build_search_strs(config, search_str);
    let from_start = match config.search_contents {
        SearchContents::FileName(from_start) => from_start,
        SearchContents::FileContents(_, _) => false,
    };
    search_file_names(dir_contents, search_strs[0].replaced_str.as_str(), from_start)
}

/// The text of an entry holds the pattern.
pub open spec fn text_contains(entry_text: Option<String>, pattern: Seq<char>) -> bool {
    entry_text matches Some(t) && text::contains_seq(t@, pattern)
}

/// The entries whose text contains `pattern`, in order; an entry whose text
/// is missing (a name that is not UTF-8) makes the whole search fail.
pub fn search_entries<T>(entries: Vec<(T, Option<String>)>, pattern: &str) -> (r: Result<Vec<T>, SearchError>)
    ensures
        r is Err <==> exists|i: int| 0 <= i < entries@.len() && (#[trigger] entries@[i]).1 is None,
        r matches Err(e) ==> e == SearchError::FailedToGetFileName,
        r matches Ok(v) ==> v@ == keep_matching(entries@, |t: Option<String>| text_contains(t, pattern@)),
{
    let needle = text::str_chars(pattern);
    let ghost orig = entries@;
    let mut res: Vec<T> = Vec::new();
    for entry in it: entries.into_iter()
        invariant
            needle@ == pattern@,
            it.seq() == orig,
            forall|i: int| 0 <= i < it.index() ==> (#[trigger] orig[i]).1 is Some,
            res@ == keep_matching(it.seq().take(it.index() as int), |t: Option<String>| text_contains(t, pattern@)),
            it.index() == orig.len() ==> res@ == keep_matching(orig, |t: Option<String>| text_contains(t, pattern@)),
    {
        let ghost done = it.seq().take(it.index() as int);
        let ghost cur = entry;
        assert(cur == orig[it.index()]);
        let (item, entry_text) = entry;
        let hit = match &entry_text {
            Some(t) => text::contains_chars(&text::str_chars(t.as_str()), &needle),
            None => {
                return Err(SearchError::FailedToGetFileName);
            },
        };
        assert(it.seq().take(it.index() + 1).drop_last() =~= done);
        assert(it.seq().take(it.index() + 1).last() == cur);
        if hit {
            res.push(item);
        }
        assert(it.index() + 1 == orig.len() ==> it.seq().take(it.index() + 1) =~= orig);
    }
    Ok(res)
}

/// The contents search ignores ASCII case: lower-casing a file's text first
/// does not change whether it matches.
pub proof fn lemma_contents_search_ignores_case(data: Seq<char>, items: Seq<SearchStrData>, search_in_line: bool)
    ensures
        file_matches(text::lower_seq(data), items, search_in_line) == file_matches(data, items, search_in_line),
{
    text::lemma_lower_idempotent(data);
}


/// In-line search, found: when the lower-cased text before the item's marker
/// first occurs in the (lower-cased) file at `i`, and the lower-cased
/// searched-for text occurs at `k`, after that prefix and before any newline
/// that follows `i`, the file matches the item. Newlines before `i` play no
/// part.
pub proof fn lemma_in_line_match(file: Seq<char>, item: SearchStrData, i: int, k: int)
    requires
        item.prefix_end_index matches Some(p) && p > 0,
        text::matches_at(
            file,
            text::lower_seq(text::byte_prefix(item.replaced_str@, item.prefix_end_index->0 as int)),
            i,
        ),
        forall|j: int|
            0 <= j < i ==> !text::matches_at(
                file,
                text::lower_seq(text::byte_prefix(item.replaced_str@, item.prefix_end_index->0 as int)),
                j,
            ),
        i + text::byte_prefix(item.replaced_str@, item.prefix_end_index->0 as int).len() <= k,
        text::matches_at(file, text::lower_seq(item.search_str@), k),
        forall|m: int| i <= m < k + item.search_str@.len() ==> file[m] != '\n',
    ensures
        item_matches(file, item, true),
{
    let pre = text::lower_seq(text::byte_prefix(item.replaced_str@, item.prefix_end_index->0 as int));
    let want = text::lower_seq(item.search_str@);
    assert(pre == line_prefix(item));
    assert(text::is_first_match(file, pre, i));
    text::lemma_first_match_is(file, pre, i);
    let rest = file.subrange(i, file.len() as int);
    let nl = seq!['\n'];
    let end = match text::first_match(rest, nl) {
        Some(j) => i + j,
        None => file.len() as int,
    };
    if text::contains_seq(rest, nl) {
        text::lemma_first_match_some(rest, nl);
        let j = text::first_match(rest, nl)->0;
        assert(rest.subrange(j, j + 1)[0] == '\n');
        assert(file[i + j] == '\n');
        assert(end >= k + want.len());
    }
    let start = i + pre.len();
    assert(start <= k && k + want.len() <= end);
    text::lemma_matches_window(file, want, start, end, k);
    assert(text::contains_seq(file.subrange(start, end), want));
}

/// In-line search, only then: a file that matches an item in in-line mode,
/// looking for a non-empty text, holds the lower-cased text before the
/// marker, first at some `i`, and the searched-for text after it at some
/// `k`, with no newline from `i` to the end of that text.
pub proof fn lemma_in_line_match_found(file: Seq<char>, item: SearchStrData)
    requires
        item.prefix_end_index matches Some(p) && p > 0,
        item.search_str@.len() > 0,
        item_matches(file, item, true),
    ensures
        exists|i: int, k: int|
            {
                &&& text::matches_at(
                    file,
                    text::lower_seq(text::byte_prefix(item.replaced_str@, item.prefix_end_index->0 as int)),
                    i,
                )
                &&& forall|j: int|
                    0 <= j < i ==> !text::matches_at(
                        file,
                        text::lower_seq(text::byte_prefix(item.replaced_str@, item.prefix_end_index->0 as int)),
                        j,
                    )
                &&& i + text::byte_prefix(item.replaced_str@, item.prefix_end_index->0 as int).len() <= k
                &&& text::matches_at(file, text::lower_seq(item.search_str@), k)
                &&& forall|m: int| i <= m < k + item.search_str@.len() ==> file[m] != '\n'
            },
{
    let pre = line_prefix(item);
    let want = text::lower_seq(item.search_str@);
    let i = text::first_match(file, pre)->0;
    text::lemma_first_match_some(file, pre);
    let rest = file.subrange(i, file.len() as int);
    let nl = seq!['\n'];
    let end = match text::first_match(rest, nl) {
        Some(j) => i + j,
        None => file.len() as int,
    };
    if text::contains_seq(rest, nl) {
        text::lemma_first_match_some(rest, nl);
    }
    let start = i + pre.len();
    let stop = if end < start { start } else { end };
    let w = file.subrange(start, stop);
    let m = choose|m: int| text::matches_at(w, want, m);
    assert(text::matches_at(w, want, m));
    assert(stop > start);
    let k = start + m;
    text::lemma_matches_window(file, want, start, stop, k);
    assert forall|q: int| i <= q < k + item.search_str@.len() implies file[q] != '\n' by {
        if text::contains_seq(rest, nl) {
            text::lemma_first_match_some(rest, nl);
            assert(!text::matches_at(rest, nl, q - i));
            assert(rest.subrange(q - i, q - i + 1) =~= seq![file[q]]);
        } else {
            assert(!text::matches_at(rest, nl, q - i));
            assert(rest.subrange(q - i, q - i + 1) =~= seq![file[q]]);
        }
    }
    assert(want.len() == item.search_str@.len());
}


/// Filtering with two predicates that agree on every text keeps the same
/// entries.
pub proof fn lemma_keep_matching_same_predicate<T, A>(s: Seq<(T, A)>, k1: spec_fn(A) -> bool, k2: spec_fn(A) -> bool)
    requires
        forall|a: A| #[trigger] k1(a) == k2(a),
    ensures
        keep_matching(s, k1) == keep_matching(s, k2),
    decreases s.len(),
{
    if s.len() > 0 {
        lemma_keep_matching_same_predicate(s.drop_last(), k1, k2);
        assert(k1(s.last().1) == k2(s.last().1));
    }
}

/// The name search of a configuration keeps exactly the entries whose name
/// is UTF-8 and holds the pattern: at its very start for `FileName(true)`,
/// anywhere for `FileName(false)`.
pub proof fn lemma_config_name_search<T>(config: ParseConfig, pattern: Seq<char>, entries: Seq<(T, Option<String>)>)
    requires
        config.search_contents is FileName,
    ensures
        keep_matching(entries, |n: Option<String>| name_matches(n, pattern, config_from_start(config)))
            == keep_matching(
            entries,
            |n: Option<String>|
                n matches Some(s) && if config.search_contents == SearchContents::FileName(true) {
                    pattern.len() <= s@.len() && s@.subrange(0, pattern.len() as int) == pattern
                } else {
                    exists|i: int|
                        0 <= i && i + pattern.len() <= s@.len() && #[trigger] s@.subrange(i, i + pattern.len())
                            == pattern
                },
        ),
{
    let k1 = |n: Option<String>| name_matches(n, pattern, config_from_start(config));
    let k2 = |n: Option<String>|
        n matches Some(s) && if config.search_contents == SearchContents::FileName(true) {
            pattern.len() <= s@.len() && s@.subrange(0, pattern.len() as int) == pattern
        } else {
            exists|i: int|
                0 <= i && i + pattern.len() <= s@.len() && #[trigger] s@.subrange(i, i + pattern.len()) == pattern
        };
    assert forall|a: Option<String>| #[trigger] k1(a) == k2(a) by {
        if let Some(s) = a {
            if config.search_contents != SearchContents::FileName(true) {
                if k2(a) {
                    let i = choose|i: int|
                        0 <= i && i + pattern.len() <= s@.len() && #[trigger] s@.subrange(i, i + pattern.len())
                            == pattern;
                    assert(text::matches_at(s@, pattern, i));
                }
            }
        }
    }
    lemma_keep_matching_same_predicate(entries, k1, k2);
}

/// The program's search keeps exactly the entries whose text holds the
/// pattern at some index.
pub proof fn lemma_entries_search<T>(entries: Seq<(T, Option<String>)>, pattern: Seq<char>)
    ensures
        keep_matching(entries, |t: Option<String>| text_contains(t, pattern)) == keep_matching(
            entries,
            |t: Option<String>|
                t matches Some(s) && exists|i: int|
                    0 <= i && i + pattern.len() <= s@.len() && #[trigger] s@.subrange(i, i + pattern.len())
                        == pattern,
        ),
{
    let k1 = |t: Option<String>| text_contains(t, pattern);
    let k2 = |t: Option<String>|
        t matches Some(s) && exists|i: int|
            0 <= i && i + pattern.len() <= s@.len() && #[trigger] s@.subrange(i, i + pattern.len()) == pattern;
    assert forall|a: Option<String>| #[trigger] k1(a) == k2(a) by {
        if let Some(s) = a {
            if k2(a) {
                let i = choose|i: int|
                    0 <= i && i + pattern.len() <= s@.len() && #[trigger] s@.subrange(i, i + pattern.len())
                        == pattern;
                assert(text::matches_at(s@, pattern, i));
            }
        }
    }
    lemma_keep_matching_same_predicate(entries, k1, k2);
}

/// With file filters, an entry passes exactly when its name is UTF-8 and
/// one of the filters occurs in it at some index; with no filters every
/// entry passes.
pub proof fn lemma_file_filters(name: Option<String>, file_filters: Option<Seq<String>>)
    ensures
        passes_file_filters(name, file_filters) == match file_filters {
            None => true,
            Some(filters) => name matches Some(n) && exists|f: int, i: int|
                0 <= f < filters.len() && 0 <= i && i + filters[f]@.len() <= n@.len()
                    && #[trigger] n@.subrange(i, i + filters[f]@.len()) == filters[f]@,
        },
{
    if let Some(filters) = file_filters {
        if let Some(n) = name {
            if exists|f: int, i: int|
                0 <= f < filters.len() && 0 <= i && i + filters[f]@.len() <= n@.len()
                    && #[trigger] n@.subrange(i, i + filters[f]@.len()) == filters[f]@ {
                let (f, i) = choose|f: int, i: int|
                    0 <= f < filters.len() && 0 <= i && i + filters[f]@.len() <= n@.len()
                        && #[trigger] n@.subrange(i, i + filters[f]@.len()) == filters[f]@;
                assert(text::matches_at(n@, filters[f]@, i));
                assert(text::contains_seq(n@, filters[f]@));
            }
            if contains_some_filter(n@, filters) {
                let f = choose|f: int| 0 <= f < filters.len() && text::contains_seq(n@, #[trigger] filters[f]@);
                let i = choose|i: int| text::matches_at(n@, filters[f]@, i);
                assert(0 <= f < filters.len() && 0 <= i && i + filters[f]@.len() <= n@.len()
                    && #[trigger] n@.subrange(i, i + filters[f]@.len()) == filters[f]@);
            }
        }
    }
}

} // verus!
