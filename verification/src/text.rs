//! Character-level string operations used by the search: substring search,
//! ASCII lower-casing, pattern replacement and the byte offsets of UTF-8 text.
//!
//! Strings are modelled by their view, a `Seq<char>`. Byte offsets, as `str`
//! indexing and `str::find` use them, are the length of the UTF-8 encoding of
//! the characters before the offset.
use vstd::prelude::*;
use vstd::utf8::{encode_utf8, encode_scalar, char_is_scalar};

verus! {

/// `t` occurs in `s` starting at index `i`.
pub open spec fn matches_at(s: Seq<char>, t: Seq<char>, i: int) -> bool {
    0 <= i && i + t.len() <= s.len() && s.subrange(i, i + t.len()) == t
}

/// `t` occurs somewhere in `s` (the empty sequence occurs in every sequence).
pub open spec fn contains_seq(s: Seq<char>, t: Seq<char>) -> bool {
    exists|i: int| matches_at(s, t, i)
}

/// `s` begins with `t`.
pub open spec fn starts_with_seq(s: Seq<char>, t: Seq<char>) -> bool {
    matches_at(s, t, 0)
}

/// `i` is the leftmost index at which `t` occurs in `s`.
pub open spec fn is_first_match(s: Seq<char>, t: Seq<char>, i: int) -> bool {
    &&& matches_at(s, t, i)
    &&& forall|j: int| 0 <= j < i ==> !matches_at(s, t, j)
}

/// The leftmost index at which `t` occurs in `s`, if any.
pub open spec fn first_match(s: Seq<char>, t: Seq<char>) -> Option<int> {
    if contains_seq(s, t) {
        Some(choose|i: int| is_first_match(s, t, i))
    } else {
        None
    }
}

/// ASCII lower-casing of one character: 'A'..='Z' become 'a'..='z', every
/// other character is unchanged.
pub open spec fn ascii_lower(c: char) -> char {
    if 'A' <= c <= 'Z' {
        ((c as u32) + 32) as char
    } else {
        c
    }
}

/// ASCII lower-casing of a character sequence.
pub open spec fn lower_seq(s: Seq<char>) -> Seq<char> {
    s.map_values(|c: char| ascii_lower(c))
}

/// Replaces, scanning from the left, every non-overlapping occurrence of the
/// non-empty pattern `p` in `s` by `r`.
pub open spec fn replace_all(s: Seq<char>, p: Seq<char>, r: Seq<char>) -> Seq<char>
    decreases s.len(),
{
    if s.len() == 0 {
        Seq::empty()
    } else if p.len() > 0 && matches_at(s, p, 0) {
        r + replace_all(s.subrange(p.len() as int, s.len() as int), p, r)
    } else {
        seq![s[0]] + replace_all(s.subrange(1, s.len() as int), p, r)
    }
}

/// Number of bytes of the UTF-8 encoding of `s`.
pub open spec fn utf8_len(s: Seq<char>) -> nat {
    encode_utf8(s).len()
}

/// The byte offset `b` falls on a character boundary of `s`: it is the
/// UTF-8 length of some prefix of `s`.
pub open spec fn is_boundary(s: Seq<char>, b: int) -> bool {
    exists|k: int| 0 <= k <= s.len() && #[trigger] utf8_len(s.take(k)) == b
}

/// The characters of `s` that lie before the byte offset `b` (the text of
/// `&s[0..b]`), given that `b` is a character boundary of `s`.
pub open spec fn byte_prefix(s: Seq<char>, b: int) -> Seq<char> {
    s.take(choose|k: int| 0 <= k <= s.len() && #[trigger] utf8_len(s.take(k)) == b)
}

// ---------------------------------------------------------------- lemmas

/// A match at `i` has a leftmost match at or before it.
pub proof fn lemma_first_match_exists(s: Seq<char>, t: Seq<char>, i: int)
    requires
        matches_at(s, t, i),
    ensures
        exists|k: int| 0 <= k <= i && is_first_match(s, t, k),
    decreases i,
{
    if exists|j: int| 0 <= j < i && matches_at(s, t, j) {
        let j = choose|j: int| 0 <= j < i && matches_at(s, t, j);
        lemma_first_match_exists(s, t, j);
    } else {
        assert(is_first_match(s, t, i));
    }
}

/// `first_match` is exactly the leftmost match.
pub proof fn lemma_first_match_is(s: Seq<char>, t: Seq<char>, i: int)
    requires
        is_first_match(s, t, i),
    ensures
        first_match(s, t) == Some(i),
{
    let c = choose|k: int| is_first_match(s, t, k);
    assert(is_first_match(s, t, c));
    if c < i {
        assert(!matches_at(s, t, c));
    } else if c > i {
        assert(!matches_at(s, t, i));
    }
}

/// When there is a match, `first_match` names a leftmost match.
pub proof fn lemma_first_match_some(s: Seq<char>, t: Seq<char>)
    requires
        contains_seq(s, t),
    ensures
        first_match(s, t) matches Some(i) && is_first_match(s, t, i),
{
    let w = choose|i: int| matches_at(s, t, i);
    lemma_first_match_exists(s, t, w);
    let k = choose|k: int| 0 <= k <= w && is_first_match(s, t, k);
    lemma_first_match_is(s, t, k);
}

/// UTF-8 encoding distributes over concatenation.
pub proof fn lemma_encode_concat(a: Seq<char>, b: Seq<char>)
    ensures
        encode_utf8(a + b) == encode_utf8(a) + encode_utf8(b),
    decreases a.len(),
{
    if a.len() == 0 {
        assert(a + b =~= b);
        assert(encode_utf8(a) =~= Seq::<u8>::empty());
        assert(encode_utf8(a) + encode_utf8(b) =~= encode_utf8(b));
    } else {
        assert((a + b).drop_first() =~= a.drop_first() + b);
        assert((a + b)[0] == a[0]);
        lemma_encode_concat(a.drop_first(), b);
        assert(encode_utf8(a + b) =~= encode_scalar(a[0] as u32) + (encode_utf8(a.drop_first())
            + encode_utf8(b)));
    }
}

/// The UTF-8 encoding of one character is between one and four bytes long.
pub proof fn lemma_scalar_width(c: char)
    ensures
        1 <= encode_scalar(c as u32).len() <= 4,
{
    char_is_scalar(c);
}

/// Growing a prefix by one character adds that character's width.
pub proof fn lemma_utf8_len_take_step(s: Seq<char>, k: int)
    requires
        0 <= k < s.len(),
    ensures
        utf8_len(s.take(k + 1)) == utf8_len(s.take(k)) + encode_scalar(s[k] as u32).len(),
        utf8_len(s.take(k)) < utf8_len(s.take(k + 1)),
{
    assert(s.take(k + 1) =~= s.take(k) + seq![s[k]]);
    lemma_encode_concat(s.take(k), seq![s[k]]);
    let one = seq![s[k]];
    assert(one[0] == s[k]);
    assert(one.drop_first() =~= Seq::<char>::empty());
    assert(encode_utf8(one.drop_first()) =~= Seq::<u8>::empty());
    assert(encode_utf8(one) == encode_scalar(one[0] as u32) + encode_utf8(one.drop_first()));
    assert(encode_utf8(one) =~= encode_scalar(s[k] as u32));
    lemma_scalar_width(s[k]);
}

/// Longer prefixes have strictly longer encodings.
pub proof fn lemma_utf8_len_take_mono(s: Seq<char>, j: int, k: int)
    requires
        0 <= j < k <= s.len(),
    ensures
        utf8_len(s.take(j)) < utf8_len(s.take(k)),
    decreases k - j,
{
    lemma_utf8_len_take_step(s, k - 1);
    if j < k - 1 {
        lemma_utf8_len_take_mono(s, j, k - 1);
    }
}

/// A prefix is no longer than the whole encoding.
pub proof fn lemma_utf8_len_take_le(s: Seq<char>, k: int)
    requires
        0 <= k <= s.len(),
    ensures
        utf8_len(s.take(k)) <= utf8_len(s),
{
    assert(s.take(s.len() as int) =~= s);
    if k < s.len() {
        lemma_utf8_len_take_mono(s, k, s.len() as int);
    }
}

/// A character boundary names exactly one prefix.
pub proof fn lemma_byte_prefix_is(s: Seq<char>, k: int)
    requires
        0 <= k <= s.len(),
    ensures
        is_boundary(s, utf8_len(s.take(k)) as int),
        byte_prefix(s, utf8_len(s.take(k)) as int) == s.take(k),
{
    let b = utf8_len(s.take(k)) as int;
    assert(0 <= k <= s.len() && utf8_len(s.take(k)) == b);
    let c = choose|c: int| 0 <= c <= s.len() && #[trigger] utf8_len(s.take(c)) == b;
    if c < k {
        lemma_utf8_len_take_mono(s, c, k);
    } else if c > k {
        lemma_utf8_len_take_mono(s, k, c);
    }
}

/// Lower-casing twice is lower-casing once.
pub proof fn lemma_lower_idempotent(s: Seq<char>)
    ensures
        lower_seq(lower_seq(s)) == lower_seq(s),
{
    assert forall|i: int| 0 <= i < s.len() implies ascii_lower(ascii_lower(s[i])) == ascii_lower(
        s[i],
    ) by {
        let c = s[i];
        if 'A' <= c <= 'Z' {
            assert((c as u32) + 32 >= 97);
        }
    }
    assert(lower_seq(lower_seq(s)) =~= lower_seq(s));
}

/// A match at `i` in `s` is a match at `i - lo` in the window `s[lo..hi]`
/// when it ends before `hi`.
pub proof fn lemma_matches_window(s: Seq<char>, t: Seq<char>, lo: int, hi: int, i: int)
    requires
        0 <= lo <= i,
        lo <= hi <= s.len(),
    ensures
        matches_at(s.subrange(lo, hi), t, i - lo) <==> (i + t.len() <= hi && matches_at(s, t, i)),
{
    if i + t.len() <= hi {
        assert(s.subrange(lo, hi).subrange(i - lo, i - lo + t.len()) =~= s.subrange(
            i,
            i + t.len(),
        ));
    }
}

/// Dropping the first character shifts every match one place to the left.
pub proof fn lemma_matches_tail(s: Seq<char>, t: Seq<char>, j: int)
    requires
        s.len() > 0,
        0 <= j,
    ensures
        matches_at(s.subrange(1, s.len() as int), t, j) <==> matches_at(s, t, j + 1),
{
    if j + 1 + t.len() <= s.len() {
        assert(s.subrange(1, s.len() as int).subrange(j, j + t.len()) =~= s.subrange(
            j + 1,
            j + 1 + t.len(),
        ));
    }
}

/// Text without an occurrence of the pattern is left unchanged.
pub proof fn lemma_replace_no_match(s: Seq<char>, p: Seq<char>, r: Seq<char>)
    requires
        p.len() > 0,
        !contains_seq(s, p),
    ensures
        replace_all(s, p, r) == s,
    decreases s.len(),
{
    if s.len() > 0 {
        let t = s.subrange(1, s.len() as int);
        assert(!matches_at(s, p, 0));
        assert forall|j: int| !matches_at(t, p, j) by {
            if j >= 0 {
                lemma_matches_tail(s, p, j);
            }
        }
        lemma_replace_no_match(t, p, r);
        assert(seq![s[0]] + t =~= s);
    }
}

/// Replacement keeps the text before the first occurrence of the pattern and
/// puts the replacement in its place.
pub proof fn lemma_replace_at_first_match(s: Seq<char>, p: Seq<char>, r: Seq<char>, k: int)
    requires
        p.len() > 0,
        is_first_match(s, p, k),
    ensures
        replace_all(s, p, r) == s.take(k) + r + replace_all(
            s.subrange(k + p.len(), s.len() as int),
            p,
            r,
        ),
    decreases k,
{
    if k == 0 {
        assert(s.take(0) + r =~= r);
    } else {
        let t = s.subrange(1, s.len() as int);
        assert(!matches_at(s, p, 0));
        lemma_matches_tail(s, p, k - 1);
        assert forall|j: int| 0 <= j < k - 1 implies !matches_at(t, p, j) by {
            lemma_matches_tail(s, p, j);
        }
        lemma_replace_at_first_match(t, p, r, k - 1);
        assert(t.subrange(k - 1 + p.len(), t.len() as int) =~= s.subrange(
            k + p.len(),
            s.len() as int,
        ));
        assert(seq![s[0]] + t.take(k - 1) =~= s.take(k));
        assert(seq![s[0]] + (t.take(k - 1) + r + replace_all(
            s.subrange(k + p.len(), s.len() as int),
            p,
            r,
        )) =~= s.take(k) + r + replace_all(s.subrange(k + p.len(), s.len() as int), p, r));
    }
}

// ------------------------------------------------------------- executable

/// `String::push`: appends one character to the end of the string.
#[verifier::external_body]
fn string_push(s: &mut String, c: char)
    ensures
        final(s)@ == old(s)@.push(c),
{
    s.push(c);
}

/// The characters of a string slice.
pub fn str_chars(s: &str) -> (v: Vec<char>)
    ensures
        v@ == s@,
{
    let mut v: Vec<char> = Vec::new();
    for c in it: s.chars()
        invariant
            v@ == it.seq().take(it.index() as int),
    {
        v.push(c);
    }
    v
}

/// A string made of the given characters.
pub fn chars_to_string(v: &Vec<char>) -> (s: String)
    ensures
        s@ == v@,
{
    let mut s = String::new();
    let mut i: usize = 0;
    while i < v.len()
        invariant
            i <= v.len(),
            s@ == v@.take(i as int),
        decreases v.len() - i,
    {
        string_push(&mut s, v[i]);
        assert(v@.take(i as int + 1) =~= v@.take(i as int).push(v@[i as int]));
        i = i + 1;
    }
    assert(v@.take(v.len() as int) =~= v@);
    s
}

/// ASCII lower-casing of one character.
pub fn char_to_ascii_lower(c: char) -> (r: char)
    ensures
        r == ascii_lower(c),
{
    if 'A' <= c && c <= 'Z' {
        ((c as u8) + 32) as char
    } else {
        c
    }
}

/// ASCII lower-casing of a character sequence.
pub fn chars_to_ascii_lower(v: &Vec<char>) -> (r: Vec<char>)
    ensures
        r@ == lower_seq(v@),
{
    let mut r: Vec<char> = Vec::new();
    let mut i: usize = 0;
    while i < v.len()
        invariant
            i <= v.len(),
            r@ == lower_seq(v@.take(i as int)),
        decreases v.len() - i,
    {
        let c = char_to_ascii_lower(v[i]);
        r.push(c);
        assert(lower_seq(v@.take(i as int + 1)) =~= lower_seq(v@.take(i as int)).push(c));
        i = i + 1;
    }
    assert(v@.take(v.len() as int) =~= v@);
    r
}

/// Whether `needle` occurs in `hay` at index `i`.
pub fn matches_at_index(hay: &Vec<char>, needle: &Vec<char>, i: usize) -> (b: bool)
    ensures
        b == matches_at(hay@, needle@, i as int),
{
    if i > hay.len() || needle.len() > hay.len() - i {
        return false;
    }
    let mut j: usize = 0;
    while j < needle.len()
        invariant
            i + needle.len() <= hay.len(),
            j <= needle.len(),
            forall|k: int| 0 <= k < j ==> hay@[i + k] == needle@[k],
        decreases needle.len() - j,
    {
        if hay[i + j] != needle[j] {
            assert(hay@.subrange(i as int, i + needle.len())[j as int] != needle@[j as int]);
            return false;
        }
        j = j + 1;
    }
    assert(hay@.subrange(i as int, i + needle@.len()) =~= needle@);
    true
}

/// The leftmost occurrence of `needle` in the window `hay[lo..hi]`, as an
/// index into `hay`.
pub fn find_in_window(hay: &Vec<char>, needle: &Vec<char>, lo: usize, hi: usize) -> (r: Option<
    usize,
>)
    requires
        lo <= hi <= hay.len(),
    ensures
        match first_match(hay@.subrange(lo as int, hi as int), needle@) {
            Some(k) => r == Some((lo + k) as usize),
            None => r is None,
        },
{
    let ghost w = hay@.subrange(lo as int, hi as int);
    let mut i: usize = lo;
    while i <= hi && needle.len() <= hi - i
        invariant
            lo <= i,
            lo <= hi <= hay.len(),
            w == hay@.subrange(lo as int, hi as int),
            forall|j: int| 0 <= j < i - lo ==> !matches_at(w, needle@, j),
        decreases hi - i + 1,
    {
        if matches_at_index(hay, needle, i) {
            proof {
                lemma_matches_window(hay@, needle@, lo as int, hi as int, i as int);
                lemma_first_match_is(w, needle@, i - lo);
            }
            return Some(i);
        }
        proof {
            lemma_matches_window(hay@, needle@, lo as int, hi as int, i as int);
            if needle@.len() == 0 {
                assert(hay@.subrange(i as int, i as int) =~= needle@);
            }
        }
        i = i + 1;
    }
    assert(!contains_seq(w, needle@)) by {
        if contains_seq(w, needle@) {
            let j = choose|j: int| matches_at(w, needle@, j);
            assert(!matches_at(w, needle@, j));
        }
    }
    None
}

/// Whether `needle` occurs in `hay`.
pub fn contains_chars(hay: &Vec<char>, needle: &Vec<char>) -> (b: bool)
    ensures
        b == contains_seq(hay@, needle@),
{
    let r = find_in_window(hay, needle, 0, hay.len());
    proof {
        assert(hay@.subrange(0, hay@.len() as int) =~= hay@);
        if contains_seq(hay@, needle@) {
            lemma_first_match_some(hay@, needle@);
        }
    }
    r.is_some()
}

/// Whether `needle` occurs in `hay`.
pub fn str_contains(hay: &str, needle: &str) -> (b: bool)
    ensures
        b == contains_seq(hay@, needle@),
{
    contains_chars(&str_chars(hay), &str_chars(needle))
}

/// Replaces every non-overlapping occurrence of the non-empty `pattern` in
/// `s`, from the left, by `replacement`.
pub fn replace_chars(s: &Vec<char>, pattern: &Vec<char>, replacement: &Vec<char>) -> (r: Vec<char>)
    requires
        pattern@.len() > 0,
    ensures
        r@ == replace_all(s@, pattern@, replacement@),
{
    let mut out: Vec<char> = Vec::new();
    let mut i: usize = 0;
    assert(s@.subrange(0, s@.len() as int) =~= s@);
    while i < s.len()
        invariant
            i <= s.len(),
            pattern@.len() > 0,
            out@ + replace_all(s@.subrange(i as int, s@.len() as int), pattern@, replacement@)
                == replace_all(s@, pattern@, replacement@),
        decreases s.len() - i,
    {
        let ghost rest = s@.subrange(i as int, s@.len() as int);
        let ghost before = out@;
        if matches_at_index(s, pattern, i) {
            proof {
                assert(rest.subrange(0, pattern@.len() as int) =~= s@.subrange(
                    i as int,
                    i + pattern@.len(),
                ));
                assert(rest.subrange(pattern@.len() as int, rest.len() as int) =~= s@.subrange(
                    i + pattern@.len(),
                    s@.len() as int,
                ));
            }
            let mut k: usize = 0;
            while k < replacement.len()
                invariant
                    k <= replacement.len(),
                    out@ == before + replacement@.take(k as int),
                decreases replacement.len() - k,
            {
                out.push(replacement[k]);
                assert(replacement@.take(k as int + 1) =~= replacement@.take(k as int).push(
                    replacement@[k as int],
                ));
                k = k + 1;
            }
            assert(replacement@.take(replacement@.len() as int) =~= replacement@);
            assert(out@ + replace_all(
                s@.subrange(i + pattern@.len(), s@.len() as int),
                pattern@,
                replacement@,
            ) =~= before + replace_all(rest, pattern@, replacement@));
            i = i + pattern.len();
        } else {
            proof {
                assert(!matches_at(rest, pattern@, 0)) by {
                    if matches_at(rest, pattern@, 0) {
                        assert(rest.subrange(0, pattern@.len() as int) =~= s@.subrange(
                            i as int,
                            i + pattern@.len(),
                        ));
                    }
                }
                assert(rest.subrange(1, rest.len() as int) =~= s@.subrange(
                    i + 1,
                    s@.len() as int,
                ));
            }
            out.push(s[i]);
            assert(out@ + replace_all(s@.subrange(i + 1, s@.len() as int), pattern@, replacement@)
                =~= before + replace_all(rest, pattern@, replacement@));
            i = i + 1;
        }
    }
    assert(replace_all(s@.subrange(i as int, s@.len() as int), pattern@, replacement@)
        =~= Seq::<char>::empty());
    assert(out@ + Seq::<char>::empty() =~= out@);
    out
}

/// The first `k` characters of `v`.
pub fn take_chars(v: &Vec<char>, k: usize) -> (r: Vec<char>)
    requires
        k <= v.len(),
    ensures
        r@ == v@.take(k as int),
{
    let mut r: Vec<char> = Vec::new();
    let mut i: usize = 0;
    while i < k
        invariant
            i <= k <= v.len(),
            r@ == v@.take(i as int),
        decreases k - i,
    {
        r.push(v[i]);
        assert(v@.take(i as int + 1) =~= v@.take(i as int).push(v@[i as int]));
        i = i + 1;
    }
    r
}

/// Number of bytes in the UTF-8 encoding of one character.
pub fn char_utf8_width(c: char) -> (w: usize)
    ensures
        w == encode_scalar(c as u32).len(),
{
    proof {
        char_is_scalar(c);
    }
    let v = c as u32;
    if v <= 0x7F {
        1
    } else if v <= 0x7FF {
        2
    } else if v <= 0xFFFF {
        3
    } else {
        4
    }
}

/// Number of UTF-8 bytes of the first `k` characters of `s`.
pub fn utf8_len_of_prefix(s: &Vec<char>, k: usize, total: usize) -> (b: usize)
    requires
        k <= s.len(),
        total == utf8_len(s@),
    ensures
        b == utf8_len(s@.take(k as int)),
{
    let mut b: usize = 0;
    let mut i: usize = 0;
    assert(s@.take(0) =~= Seq::<char>::empty());
    while i < k
        invariant
            i <= k <= s.len(),
            total == utf8_len(s@),
            b == utf8_len(s@.take(i as int)),
        decreases k - i,
    {
        proof {
            lemma_utf8_len_take_step(s@, i as int);
            lemma_utf8_len_take_le(s@, i + 1);
        }
        b = b + char_utf8_width(s[i]);
        i = i + 1;
    }
    b
}

/// The number of characters of `s` that lie before the byte offset `b`, a
/// character boundary of `s`.
pub fn char_count_before_byte(s: &Vec<char>, b: usize, total: usize) -> (k: usize)
    requires
        is_boundary(s@, b as int),
        total == utf8_len(s@),
    ensures
        k <= s.len(),
        utf8_len(s@.take(k as int)) == b,
        byte_prefix(s@, b as int) == s@.take(k as int),
{
    let ghost target = choose|k: int| 0 <= k <= s@.len() && #[trigger] utf8_len(s@.take(k)) == b;
    let mut acc: usize = 0;
    let mut i: usize = 0;
    assert(s@.take(0) =~= Seq::<char>::empty());
    while acc < b
        invariant
            0 <= target <= s.len(),
            utf8_len(s@.take(target)) == b,
            i <= target,
            total == utf8_len(s@),
            acc == utf8_len(s@.take(i as int)),
        decreases target - i,
    {
        proof {
            if i == target {
                assert(false);
            }
            assert(i < target);
            lemma_utf8_len_take_step(s@, i as int);
            lemma_utf8_len_take_le(s@, i + 1);
            if i + 1 < target {
                lemma_utf8_len_take_mono(s@, i + 1, target);
            }
        }
        acc = acc + char_utf8_width(s[i]);
        i = i + 1;
    }
    proof {
        if i < target {
            lemma_utf8_len_take_mono(s@, i as int, target);
        }
        lemma_byte_prefix_is(s@, i as int);
    }
    i
}

/// Number of UTF-8 bytes of a string slice.
pub fn str_utf8_len(s: &str) -> (n: usize)
    ensures
        n == utf8_len(s@),
{
    let b = s.as_bytes();
    b.len()
}

} // verus!
