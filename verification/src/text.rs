//! Character-level helpers shared by the rest of the crate: Unicode
//! whitespace, ASCII punctuation, trimming, joining and substring search,
//! each stated over the `Seq<char>` view of a string.
use vstd::prelude::*;
use vstd::string::*;

verus! {

// ---------------------------------------------------------------------------
// Character classes
// ---------------------------------------------------------------------------

/// The Unicode `White_Space` property, which is what `char::is_whitespace`
/// tests: the ASCII controls tab through carriage return, space, and
/// U+0085, U+00A0, U+1680, U+2000..=U+200A, U+2028, U+2029, U+202F,
/// U+205F, U+3000.
pub open spec fn is_ws(c: char) -> bool {
    let u = c as u32;
    ||| u == 0x20
    ||| 0x09 <= u <= 0x0d
    ||| u == 0x85
    ||| u == 0xa0
    ||| u == 0x1680
    ||| 0x2000 <= u <= 0x200a
    ||| u == 0x2028
    ||| u == 0x2029
    ||| u == 0x202f
    ||| u == 0x205f
    ||| u == 0x3000
}

/// ASCII punctuation as `char::is_ascii_punctuation` defines it:
/// `! " # $ % & ' ( ) * + , - . /`, `: ; < = > ? @`, `[ \ ] ^ _ \``,
/// `{ | } ~`.
pub open spec fn is_punct(c: char) -> bool {
    let u = c as u32;
    ||| 0x21 <= u <= 0x2f
    ||| 0x3a <= u <= 0x40
    ||| 0x5b <= u <= 0x60
    ||| 0x7b <= u <= 0x7e
}

/// Every character of `s` is ASCII punctuation (true of the empty sequence).
pub open spec fn all_punct(s: Seq<char>) -> bool {
    forall|i: int| 0 <= i < s.len() ==> is_punct(#[trigger] s[i])
}

/// Every character of `s` is whitespace (true of the empty sequence).
pub open spec fn all_ws(s: Seq<char>) -> bool {
    forall|i: int| 0 <= i < s.len() ==> is_ws(#[trigger] s[i])
}

/// `s` is non-empty and made of ASCII punctuation only.
pub open spec fn is_pure_punct(s: Seq<char>) -> bool {
    s.len() > 0 && all_punct(s)
}

/// ASCII lowercase of one character (`char::to_ascii_lowercase`).
pub open spec fn ascii_lower(c: char) -> char {
    if 'A' <= c && c <= 'Z' {
        ((c as u32) + 32) as char
    } else {
        c
    }
}

/// ASCII lowercase of a whole sequence (`str::to_ascii_lowercase`).
pub open spec fn ascii_lower_seq(s: Seq<char>) -> Seq<char> {
    s.map_values(|c: char| ascii_lower(c))
}

pub fn is_whitespace_char(c: char) -> (b: bool)
    ensures
        b == is_ws(c),
{
    let u = c as u32;
    u == 0x20 || (0x09 <= u && u <= 0x0d) || u == 0x85 || u == 0xa0 || u == 0x1680 || (0x2000
        <= u && u <= 0x200a) || u == 0x2028 || u == 0x2029 || u == 0x202f || u == 0x205f || u
        == 0x3000
}

pub fn is_punctuation_char(c: char) -> (b: bool)
    ensures
        b == is_punct(c),
{
    let u = c as u32;
    (0x21 <= u && u <= 0x2f) || (0x3a <= u && u <= 0x40) || (0x5b <= u && u <= 0x60) || (0x7b
        <= u && u <= 0x7e)
}

pub fn ascii_lower_char(c: char) -> (r: char)
    ensures
        r == ascii_lower(c),
{
    if 'A' <= c && c <= 'Z' {
        let b: u8 = c as u8;
        ((b + 32) as char)
    } else {
        c
    }
}

// ---------------------------------------------------------------------------
// Trimming and stripping
// ---------------------------------------------------------------------------

/// `s` without its leading whitespace.
pub open spec fn trim_start(s: Seq<char>) -> Seq<char>
    decreases s.len(),
{
    if s.len() > 0 && is_ws(s[0]) {
        trim_start(s.drop_first())
    } else {
        s
    }
}

/// `s` without its trailing whitespace.
pub open spec fn trim_end(s: Seq<char>) -> Seq<char>
    decreases s.len(),
{
    if s.len() > 0 && is_ws(s.last()) {
        trim_end(s.drop_last())
    } else {
        s
    }
}

/// `s` without leading and trailing whitespace (`str::trim`).
pub open spec fn trim(s: Seq<char>) -> Seq<char> {
    trim_end(trim_start(s))
}

/// `s` without every leading copy of `c` (`str::trim_start_matches(c)`).
pub open spec fn strip_leading(s: Seq<char>, c: char) -> Seq<char>
    decreases s.len(),
{
    if s.len() > 0 && s[0] == c {
        strip_leading(s.drop_first(), c)
    } else {
        s
    }
}

/// `s` without every trailing ASCII punctuation character
/// (`str::trim_end_matches(char::is_ascii_punctuation)`).
pub open spec fn strip_trailing_punct(s: Seq<char>) -> Seq<char>
    decreases s.len(),
{
    if s.len() > 0 && is_punct(s.last()) {
        strip_trailing_punct(s.drop_last())
    } else {
        s
    }
}

pub proof fn lemma_trim_start_at(s: Seq<char>, lo: int)
    requires
        0 <= lo <= s.len(),
        forall|k: int| 0 <= k < lo ==> is_ws(#[trigger] s[k]),
        lo == s.len() || !is_ws(s[lo]),
    ensures
        trim_start(s) == s.subrange(lo, s.len() as int),
    decreases lo,
{
    if lo == 0 {
        assert(s.subrange(0, s.len() as int) =~= s);
    } else {
        let t = s.drop_first();
        assert forall|k: int| 0 <= k < lo - 1 implies is_ws(#[trigger] t[k]) by {
            assert(t[k] == s[k + 1]);
        }
        assert(lo - 1 == t.len() || t[lo - 1] == s[lo]);
        lemma_trim_start_at(t, lo - 1);
        assert(t.subrange(lo - 1, t.len() as int) =~= s.subrange(lo, s.len() as int));
    }
}

pub proof fn lemma_trim_end_at(s: Seq<char>, hi: int)
    requires
        0 <= hi <= s.len(),
        forall|k: int| hi <= k < s.len() ==> is_ws(#[trigger] s[k]),
        hi == 0 || !is_ws(s[hi - 1]),
    ensures
        trim_end(s) == s.subrange(0, hi),
    decreases s.len() - hi,
{
    if hi == s.len() {
        assert(s.subrange(0, hi) =~= s);
    } else {
        let t = s.drop_last();
        assert forall|k: int| hi <= k < t.len() implies is_ws(#[trigger] t[k]) by {
            assert(t[k] == s[k]);
        }
        assert(is_ws(s[s.len() - 1]));
        lemma_trim_end_at(t, hi);
        assert(t.subrange(0, hi) =~= s.subrange(0, hi));
    }
}

pub proof fn lemma_strip_leading_at(s: Seq<char>, c: char, lo: int)
    requires
        0 <= lo <= s.len(),
        forall|k: int| 0 <= k < lo ==> #[trigger] s[k] == c,
        lo == s.len() || s[lo] != c,
    ensures
        strip_leading(s, c) == s.subrange(lo, s.len() as int),
    decreases lo,
{
    if lo == 0 {
        assert(s.subrange(0, s.len() as int) =~= s);
    } else {
        let t = s.drop_first();
        assert forall|k: int| 0 <= k < lo - 1 implies #[trigger] t[k] == c by {
            assert(t[k] == s[k + 1]);
        }
        assert(lo - 1 == t.len() || t[lo - 1] == s[lo]);
        lemma_strip_leading_at(t, c, lo - 1);
        assert(t.subrange(lo - 1, t.len() as int) =~= s.subrange(lo, s.len() as int));
    }
}

pub proof fn lemma_strip_trailing_punct_at(s: Seq<char>, hi: int)
    requires
        0 <= hi <= s.len(),
        forall|k: int| hi <= k < s.len() ==> is_punct(#[trigger] s[k]),
        hi == 0 || !is_punct(s[hi - 1]),
    ensures
        strip_trailing_punct(s) == s.subrange(0, hi),
    decreases s.len() - hi,
{
    if hi == s.len() {
        assert(s.subrange(0, hi) =~= s);
    } else {
        let t = s.drop_last();
        assert forall|k: int| hi <= k < t.len() implies is_punct(#[trigger] t[k]) by {
            assert(t[k] == s[k]);
        }
        assert(is_punct(s[s.len() - 1]));
        lemma_strip_trailing_punct_at(t, hi);
        assert(t.subrange(0, hi) =~= s.subrange(0, hi));
    }
}

/// The trimmed text is empty exactly when every character is whitespace.
pub proof fn lemma_trim_empty_iff_all_ws(s: Seq<char>)
    ensures
        trim(s).len() == 0 <==> all_ws(s),
        trim_start(s).len() == 0 <==> all_ws(s),
    decreases s.len(),
{
    if s.len() > 0 && is_ws(s[0]) {
        lemma_trim_empty_iff_all_ws(s.drop_first());
        if all_ws(s.drop_first()) {
            assert forall|i: int| 0 <= i < s.len() implies is_ws(#[trigger] s[i]) by {
                if i > 0 {
                    assert(s[i] == s.drop_first()[i - 1]);
                }
            }
        }
        if all_ws(s) {
            assert forall|i: int| 0 <= i < s.drop_first().len() implies is_ws(
                #[trigger] s.drop_first()[i],
            ) by {
                assert(s.drop_first()[i] == s[i + 1]);
            }
        }
    } else {
        if s.len() > 0 {
            assert(!is_ws(s[0]));
            assert(!all_ws(s));
            lemma_trim_end_keeps_first(s);
        }
    }
}

/// Trimming the end of a sequence whose first character is not whitespace
/// leaves that character in place.
pub proof fn lemma_trim_end_keeps_first(s: Seq<char>)
    requires
        s.len() > 0,
        !is_ws(s[0]),
    ensures
        trim_end(s).len() > 0,
        trim_end(s)[0] == s[0],
    decreases s.len(),
{
    if is_ws(s.last()) {
        assert(s.len() > 1);
        lemma_trim_end_keeps_first(s.drop_last());
    }
}

/// The index of the first non-whitespace character of `v` (its length
/// when there is none).
pub fn first_non_ws(v: &Vec<char>) -> (lo: usize)
    ensures
        lo <= v.len(),
        forall|k: int| 0 <= k < lo ==> is_ws(#[trigger] v@[k]),
        lo == v.len() || !is_ws(v@[lo as int]),
{
    let mut lo: usize = 0;
    while lo < v.len() && is_whitespace_char(v[lo])
        invariant
            lo <= v.len(),
            forall|k: int| 0 <= k < lo ==> is_ws(#[trigger] v@[k]),
        decreases v.len() - lo,
    {
        lo = lo + 1;
    }
    lo
}

/// `s` with leading and trailing whitespace removed (`str::trim`).
pub fn trim_str(s: &str) -> (r: String)
    ensures
        r@ == trim(s@),
{
    let v = chars_of(s);
    let n = v.len();
    let lo = first_non_ws(&v);
    let mut hi: usize = n;
    while hi > lo && is_whitespace_char(v[hi - 1])
        invariant
            lo <= hi <= n,
            n == v.len(),
            forall|k: int| hi <= k < n ==> is_ws(#[trigger] v@[k]),
        decreases hi,
    {
        hi = hi - 1;
    }
    proof {
        lemma_trim_start_at(s@, lo as int);
        let t = s@.subrange(lo as int, n as int);
        assert forall|k: int| hi - lo <= k < t.len() implies is_ws(#[trigger] t[k]) by {
            assert(t[k] == v@[k + lo]);
        }
        if hi > lo {
            assert(t[hi - lo - 1] == v@[hi - 1]);
        }
        lemma_trim_end_at(t, hi - lo);
        assert(t.subrange(0, hi - lo) =~= s@.subrange(lo as int, hi as int));
    }
    String::from_str(s.substring_char(lo, hi))
}

/// `s` with every leading `c` removed (`str::trim_start_matches(c)`).
pub fn strip_leading_str(s: &str, c: char) -> (r: String)
    ensures
        r@ == strip_leading(s@, c),
{
    let v = chars_of(s);
    let mut lo: usize = 0;
    while lo < v.len() && v[lo] == c
        invariant
            lo <= v.len(),
            v@ == s@,
            forall|k: int| 0 <= k < lo ==> #[trigger] v@[k] == c,
        decreases v.len() - lo,
    {
        lo = lo + 1;
    }
    proof {
        lemma_strip_leading_at(s@, c, lo as int);
    }
    String::from_str(s.substring_char(lo, v.len()))
}

/// `s` with every trailing ASCII punctuation character removed.
pub fn strip_trailing_punct_str(s: &str) -> (r: String)
    ensures
        r@ == strip_trailing_punct(s@),
{
    let v = chars_of(s);
    let mut hi: usize = v.len();
    while hi > 0 && is_punctuation_char(v[hi - 1])
        invariant
            hi <= v.len(),
            v@ == s@,
            forall|k: int| hi <= k < v.len() ==> is_punct(#[trigger] v@[k]),
        decreases hi,
    {
        hi = hi - 1;
    }
    proof {
        lemma_strip_trailing_punct_at(s@, hi as int);
    }
    String::from_str(s.substring_char(0, hi))
}

/// Whether every character of `s` is ASCII punctuation.
pub fn all_punct_str(s: &str) -> (b: bool)
    ensures
        b == all_punct(s@),
{
    let v = chars_of(s);
    let mut i: usize = 0;
    while i < v.len()
        invariant
            i <= v.len(),
            v@ == s@,
            forall|k: int| 0 <= k < i ==> is_punct(#[trigger] v@[k]),
        decreases v.len() - i,
    {
        if !is_punctuation_char(v[i]) {
            return false;
        }
        i = i + 1;
    }
    true
}

/// Whether every character of `s` is whitespace, i.e. `s.trim().is_empty()`.
pub fn all_ws_str(s: &str) -> (b: bool)
    ensures
        b == all_ws(s@),
        b == (trim(s@).len() == 0),
{
    proof {
        lemma_trim_empty_iff_all_ws(s@);
    }
    let v = chars_of(s);
    let lo = first_non_ws(&v);
    lo == v.len()
}

/// Whether `s` is non-empty and made of ASCII punctuation only.
pub fn is_pure_punctuation(s: &str) -> (b: bool)
    ensures
        b == is_pure_punct(s@),
{
    s.unicode_len() > 0 && all_punct_str(s)
}

// ---------------------------------------------------------------------------
// Joining and searching
// ---------------------------------------------------------------------------

/// `parts` joined with a single space between neighbours.
pub open spec fn join_spaced(parts: Seq<Seq<char>>) -> Seq<char>
    decreases parts.len(),
{
    if parts.len() == 0 {
        Seq::empty()
    } else if parts.len() == 1 {
        parts[0]
    } else {
        join_spaced(parts.drop_last()) + seq![' '] + parts.last()
    }
}

/// `needle` occurs in `hay` starting at index `i`.
pub open spec fn occurs_at(hay: Seq<char>, needle: Seq<char>, i: int) -> bool {
    0 <= i && i + needle.len() <= hay.len() && hay.subrange(i, i + needle.len()) == needle
}

/// `needle` occurs somewhere in `hay`.
pub open spec fn contains_seq(hay: Seq<char>, needle: Seq<char>) -> bool {
    exists|i: int| occurs_at(hay, needle, i)
}

/// Whether `c` occurs in `s`.
pub fn has_char(s: &str, c: char) -> (b: bool)
    ensures
        b == s@.contains(c),
{
    let v = chars_of(s);
    let mut i: usize = 0;
    while i < v.len()
        invariant
            i <= v.len(),
            v@ == s@,
            forall|k: int| 0 <= k < i ==> #[trigger] v@[k] != c,
        decreases v.len() - i,
    {
        if v[i] == c {
            assert(s@[i as int] == c);
            return true;
        }
        i = i + 1;
    }
    false
}

/// Whether `needle` occurs in the ASCII-lowercased `hay` at index `i`.
fn matches_lowered_at(hay: &Vec<char>, needle: &Vec<char>, i: usize) -> (b: bool)
    requires
        i + needle.len() <= hay.len(),
    ensures
        b == occurs_at(ascii_lower_seq(hay@), needle@, i as int),
{
    let ghost low = ascii_lower_seq(hay@);
    let m = needle.len();
    let mut k: usize = 0;
    while k < m
        invariant
            i + m <= hay.len(),
            m == needle.len(),
            low == ascii_lower_seq(hay@),
            k <= m,
            forall|t: int| 0 <= t < k ==> low[i + t] == needle@[t],
        decreases m - k,
    {
        if ascii_lower_char(hay[i + k]) != needle[k] {
            assert(low.subrange(i as int, i + m)[k as int] == low[i + k]);
            return false;
        }
        k = k + 1;
    }
    assert(low.subrange(i as int, i + m) =~= needle@);
    true
}

/// Whether `needle` occurs in the ASCII-lowercased `hay`.
pub fn contains_ascii_lowercased(hay: &Vec<char>, needle: &Vec<char>) -> (b: bool)
    ensures
        b == contains_seq(ascii_lower_seq(hay@), needle@),
{
    let ghost low = ascii_lower_seq(hay@);
    let n = hay.len();
    let m = needle.len();
    if m > n {
        assert forall|i: int| !occurs_at(low, needle@, i) by {}
        return false;
    }
    let last = n - m;
    let mut i: usize = 0;
    loop
        invariant
            i <= last,
            last == n - m,
            m <= n,
            n == hay.len(),
            m == needle.len(),
            low == ascii_lower_seq(hay@),
            forall|j: int| 0 <= j < i ==> !occurs_at(low, needle@, j),
        decreases last - i,
    {
        if matches_lowered_at(hay, needle, i) {
            return true;
        }
        if i == last {
            assert forall|j: int| !occurs_at(low, needle@, j) by {
                if j == i {
                }
            }
            return false;
        }
        i = i + 1;
    }
}

/// The characters of `s`, in order.
pub fn chars_of(s: &str) -> (v: Vec<char>)
    ensures
        v@ == s@,
{
    let mut v: Vec<char> = Vec::new();
    for c in it: s.chars()
        invariant
            v@ == it.seq().take(it.index() as int),
            it.seq() == s@,
    {
        v.push(c);
    }
    v
}

} // verus!
