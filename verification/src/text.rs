//! Character-level text utilities shared by the parser and the index helpers.
//!
//! Text is handled as sequences of `char` (the view of `str` and `String`).
//! Whitespace, alphanumeric and control-character classes come from the
//! standard library through small trusted wrappers; everything built on top
//! of them (trimming, line splitting, string assembly) is verified here.

use vstd::prelude::*;

verus! {

/// Whether `c` has the Unicode `White_Space` property (PropList.txt):
/// U+0009..U+000D, U+0020, U+0085, U+00A0, U+1680, U+2000..U+200A, U+2028,
/// U+2029, U+202F, U+205F and U+3000.
pub open spec fn white_space(c: char) -> bool {
    let n = c as u32;
    (0x09 <= n && n <= 0x0d) || n == 0x20 || n == 0x85 || n == 0xa0 || n == 0x1680 || (0x2000 <= n
        && n <= 0x200a) || n == 0x2028 || n == 0x2029 || n == 0x202f || n == 0x205f || n == 0x3000
}

/// Whether `c` is alphabetic or numeric, as `char::is_alphanumeric` decides.
pub uninterp spec fn alphanumeric(c: char) -> bool;

/// Whether `c` is in the Unicode general category `Cc` (control codes):
/// U+0000..U+001F and U+007F..U+009F.
pub open spec fn control_code(c: char) -> bool {
    let n = c as u32;
    n <= 0x1f || (0x7f <= n && n <= 0x9f)
}

/// Calls `char::is_whitespace`, which is documented to decide the Unicode
/// `White_Space` property; see [`white_space`].
#[verifier::external_body]
pub(crate) fn is_white(c: char) -> (r: bool)
    ensures
        r == white_space(c),
{
    c.is_whitespace()
}

/// Whether `c` is an ASCII letter or digit.
pub open spec fn ascii_alnum(c: char) -> bool {
    ('a' <= c && c <= 'z') || ('A' <= c && c <= 'Z') || ('0' <= c && c <= '9')
}

/// Calls `char::is_alphanumeric` (alphabetic or numeric); the result is the
/// named predicate `alphanumeric(c)`. Stated too: among ASCII characters the
/// alphabetic ones are the letters and the numeric ones the digits.
#[verifier::external_body]
pub(crate) fn is_alnum(c: char) -> (r: bool)
    ensures
        r == alphanumeric(c),
        (c as u32) < 128 ==> (r <==> ascii_alnum(c)),
{
    c.is_alphanumeric()
}

/// Calls `char::is_control`, which is documented to decide the general
/// category `Cc`; see [`control_code`].
#[verifier::external_body]
pub(crate) fn is_control(c: char) -> (r: bool)
    ensures
        r == control_code(c),
{
    c.is_control()
}

/// Calls `String::push`, which appends `c` at the end of `s`.
#[verifier::external_body]
pub(crate) fn push_char(s: &mut String, c: char)
    ensures
        final(s)@ == old(s)@.push(c),
{
    s.push(c);
}

/// The characters of `s`, in order.
pub fn chars_of(s: &str) -> (r: Vec<char>)
    ensures
        r@ == s@,
{
    let mut out: Vec<char> = Vec::new();
    for c in it: s.chars()
        invariant
            out@ == it.seq().take(it.index() as int),
            it.seq() == s@,
    {
        out.push(c);
    }
    out
}

/// A `String` holding the characters `v[lo..hi]`.
pub fn string_of_range(v: &Vec<char>, lo: usize, hi: usize) -> (r: String)
    requires
        lo <= hi <= v.len(),
    ensures
        r@ == v@.subrange(lo as int, hi as int),
{
    let mut out = String::new();
    let mut i = lo;
    while i < hi
        invariant
            lo <= i <= hi <= v.len(),
            out@ == v@.subrange(lo as int, i as int),
        decreases hi - i,
    {
        push_char(&mut out, v[i]);
        i += 1;
        assert(out@ =~= v@.subrange(lo as int, i as int));
    }
    out
}

/// A `String` holding all the characters of `v`.
pub fn string_of(v: &Vec<char>) -> (r: String)
    ensures
        r@ == v@,
{
    let r = string_of_range(v, 0, v.len());
    assert(v@.subrange(0, v@.len() as int) =~= v@);
    r
}

/// `s` without its leading whitespace (what `str::trim_start` returns).
pub open spec fn trim_start(s: Seq<char>) -> Seq<char>
    decreases s.len(),
{
    if s.len() > 0 && white_space(s[0]) {
        trim_start(s.drop_first())
    } else {
        s
    }
}

/// `s` without its trailing whitespace (what `str::trim_end` returns).
pub open spec fn trim_end(s: Seq<char>) -> Seq<char>
    decreases s.len(),
{
    if s.len() > 0 && white_space(s.last()) {
        trim_end(s.drop_last())
    } else {
        s
    }
}

/// `s` without leading and trailing whitespace (what `str::trim` returns).
pub open spec fn trim(s: Seq<char>) -> Seq<char> {
    trim_end(trim_start(s))
}

/// If `s[lo..k]` is all whitespace and `s[k]` is not (or `k == hi`),
/// then trimming the start of `s[lo..hi]` leaves `s[k..hi]`.
pub proof fn lemma_trim_start_at(s: Seq<char>, lo: int, k: int, hi: int)
    requires
        0 <= lo <= k <= hi <= s.len(),
        forall|j: int| lo <= j < k ==> white_space(#[trigger] s[j]),
        k < hi ==> !white_space(s[k]),
    ensures
        trim_start(s.subrange(lo, hi)) == s.subrange(k, hi),
    decreases k - lo,
{
    if lo < k {
        lemma_trim_start_at(s, lo + 1, k, hi);
        assert(s.subrange(lo, hi).drop_first() =~= s.subrange(lo + 1, hi));
    }
}

/// If `s[k..hi]` is all whitespace and `s[k-1]` is not (or `k == lo`),
/// then trimming the end of `s[lo..hi]` leaves `s[lo..k]`.
pub proof fn lemma_trim_end_at(s: Seq<char>, lo: int, k: int, hi: int)
    requires
        0 <= lo <= k <= hi <= s.len(),
        forall|j: int| k <= j < hi ==> white_space(#[trigger] s[j]),
        lo < k ==> !white_space(s[k - 1]),
    ensures
        trim_end(s.subrange(lo, hi)) == s.subrange(lo, k),
    decreases hi - k,
{
    if k < hi {
        lemma_trim_end_at(s, lo, k, hi - 1);
        assert(s.subrange(lo, hi).drop_last() =~= s.subrange(lo, hi - 1));
    }
}

/// The first index in `lo..hi` whose character is not whitespace (or `hi`).
pub fn skip_white(v: &Vec<char>, lo: usize, hi: usize) -> (k: usize)
    requires
        lo <= hi <= v.len(),
    ensures
        lo <= k <= hi,
        forall|j: int| lo <= j < k ==> white_space(#[trigger] v@[j]),
        k < hi ==> !white_space(v@[k as int]),
        trim_start(v@.subrange(lo as int, hi as int)) == v@.subrange(k as int, hi as int),
{
    let mut k = lo;
    while k < hi && is_white(v[k])
        invariant
            lo <= k <= hi <= v.len(),
            forall|j: int| lo <= j < k ==> white_space(#[trigger] v@[j]),
        decreases hi - k,
    {
        k += 1;
    }
    proof {
        lemma_trim_start_at(v@, lo as int, k as int, hi as int);
    }
    k
}

/// The end of `v[lo..hi]` once trailing whitespace is dropped.
pub fn skip_white_back(v: &Vec<char>, lo: usize, hi: usize) -> (k: usize)
    requires
        lo <= hi <= v.len(),
    ensures
        lo <= k <= hi,
        forall|j: int| k <= j < hi ==> white_space(#[trigger] v@[j]),
        lo < k ==> !white_space(v@[k - 1]),
        trim_end(v@.subrange(lo as int, hi as int)) == v@.subrange(lo as int, k as int),
{
    let mut k = hi;
    while k > lo && is_white(v[k - 1])
        invariant
            lo <= k <= hi <= v.len(),
            forall|j: int| k <= j < hi ==> white_space(#[trigger] v@[j]),
        decreases k - lo,
    {
        k -= 1;
    }
    proof {
        lemma_trim_end_at(v@, lo as int, k as int, hi as int);
    }
    k
}

/// The bounds of `v[lo..hi]` once leading and trailing whitespace is dropped.
pub fn trim_bounds(v: &Vec<char>, lo: usize, hi: usize) -> (r: (usize, usize))
    requires
        lo <= hi <= v.len(),
    ensures
        lo <= r.0 <= r.1 <= hi,
        trim(v@.subrange(lo as int, hi as int)) == v@.subrange(r.0 as int, r.1 as int),
{
    let a = skip_white(v, lo, hi);
    let b = skip_white_back(v, a, hi);
    (a, b)
}

/// Pieces of `s` between `'\n'` characters (what `str::split('\n')` yields):
/// one more piece than there are newlines.
pub open spec fn split_lines(s: Seq<char>) -> Seq<Seq<char>>
    decreases s.len(),
{
    if s.len() == 0 {
        seq![Seq::<char>::empty()]
    } else {
        let prev = split_lines(s.drop_last());
        if s.last() == '\n' {
            prev.push(Seq::<char>::empty())
        } else {
            prev.update(prev.len() - 1, prev.last().push(s.last()))
        }
    }
}

/// There is always at least one line.
pub proof fn lemma_split_lines_nonempty(s: Seq<char>)
    ensures
        split_lines(s).len() >= 1,
    decreases s.len(),
{
    if s.len() > 0 {
        lemma_split_lines_nonempty(s.drop_last());
    }
}

/// A body has at most one more line than it has characters.
pub proof fn lemma_split_lines_len(s: Seq<char>)
    ensures
        split_lines(s).len() <= s.len() + 1,
    decreases s.len(),
{
    if s.len() > 0 {
        lemma_split_lines_len(s.drop_last());
        lemma_split_lines_nonempty(s.drop_last());
    }
}

/// The lines of `v`, split at each `'\n'` (the newline itself is in no line).
pub fn lines_of(v: &Vec<char>) -> (r: Vec<Vec<char>>)
    ensures
        r.len() == split_lines(v@).len(),
        forall|k: int| 0 <= k < r.len() ==> (#[trigger] r[k])@ == split_lines(v@)[k],
{
    let mut out: Vec<Vec<char>> = Vec::new();
    let mut cur: Vec<char> = Vec::new();
    let mut i: usize = 0;
    while i < v.len()
        invariant
            i <= v.len(),
            out.len() + 1 == split_lines(v@.take(i as int)).len(),
            forall|k: int| 0 <= k < out.len() ==> (#[trigger] out[k])@ == split_lines(v@.take(i as int))[k],
            cur@ == split_lines(v@.take(i as int)).last(),
        decreases v.len() - i,
    {
        let ghost before = split_lines(v@.take(i as int));
        proof {
            lemma_split_lines_nonempty(v@.take(i as int));
            assert(v@.take(i + 1).drop_last() =~= v@.take(i as int));
            assert(v@.take(i + 1).last() == v@[i as int]);
        }
        let c = v[i];
        if c == '\n' {
            let mut done: Vec<char> = Vec::new();
            std::mem::swap(&mut done, &mut cur);
            out.push(done);
        } else {
            cur.push(c);
        }
        i += 1;
        proof {
            let after = split_lines(v@.take(i as int));
            assert forall|k: int| 0 <= k < out.len() implies (#[trigger] out[k])@ == after[k] by {
                if k < before.len() - 1 {
                    assert(out[k]@ == before[k]);
                }
            }
        }
    }
    proof {
        lemma_split_lines_nonempty(v@);
        assert(v@.take(v@.len() as int) =~= v@);
    }
    out.push(cur);
    out
}

} // verus!

verus! {

/// Index of the first `c` in `s` at or after `i` (or `s.len()` when there is none).
pub open spec fn find_from(s: Seq<char>, c: char, i: int) -> int
    decreases s.len() - i,
{
    if i >= s.len() || s[i] == c {
        i
    } else {
        find_from(s, c, i + 1)
    }
}

/// Index of the first `c` in `s`, or `s.len()` when `s` holds no `c`.
pub open spec fn find(s: Seq<char>, c: char) -> int {
    find_from(s, c, 0)
}

/// `find_from` lands on the first occurrence.
pub proof fn lemma_find_from_at(s: Seq<char>, c: char, i: int, k: int)
    requires
        0 <= i <= k <= s.len(),
        forall|j: int| i <= j < k ==> #[trigger] s[j] != c,
        k < s.len() ==> s[k] == c,
    ensures
        find_from(s, c, i) == k,
    decreases k - i,
{
    if i < k {
        lemma_find_from_at(s, c, i + 1, k);
    }
}

/// The first index in `lo..hi` holding `c`, or `hi`.
pub fn find_in(v: &Vec<char>, c: char, lo: usize, hi: usize) -> (k: usize)
    requires
        lo <= hi <= v.len(),
    ensures
        lo <= k <= hi,
        k - lo == find(v@.subrange(lo as int, hi as int), c),
        forall|j: int| lo <= j < k ==> #[trigger] v@[j] != c,
        k < hi ==> v@[k as int] == c,
{
    let mut k = lo;
    while k < hi && v[k] != c
        invariant
            lo <= k <= hi <= v.len(),
            forall|j: int| lo <= j < k ==> #[trigger] v@[j] != c,
        decreases hi - k,
    {
        k += 1;
    }
    proof {
        let s = v@.subrange(lo as int, hi as int);
        assert forall|j: int| 0 <= j < k - lo implies #[trigger] s[j] != c by {
            assert(s[j] == v@[lo + j]);
        }
        lemma_find_from_at(s, c, 0, k - lo);
    }
    k
}

/// A `String` holding `v[lo..hi]` with surrounding whitespace dropped.
pub fn trimmed_string(v: &Vec<char>, lo: usize, hi: usize) -> (r: String)
    requires
        lo <= hi <= v.len(),
    ensures
        r@ == trim(v@.subrange(lo as int, hi as int)),
{
    let (a, b) = trim_bounds(v, lo, hi);
    string_of_range(v, a, b)
}

} // verus!
