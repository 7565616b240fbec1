//! Character-level helpers shared by the text queries.
//!
//! Text is handled as a sequence of `char`s: exec code works on `Vec<char>`
//! with index ranges, and the contracts speak of `Seq<char>`.

use vstd::prelude::*;
use vstd::utf8::{decode_utf8, valid_utf8};

verus! {

broadcast use vstd::string::group_string_axioms;

// ---------------------------------------------------------------------------
// Specification vocabulary
// ---------------------------------------------------------------------------

/// The Unicode `White_Space` property, which is what `char::is_whitespace`
/// tests.
pub open spec fn is_ws(c: char) -> bool {
    let u = c as u32;
    ||| (9 <= u && u <= 13)
    ||| u == 32
    ||| u == 0x85
    ||| u == 0xA0
    ||| u == 0x1680
    ||| (0x2000 <= u && u <= 0x200A)
    ||| u == 0x2028
    ||| u == 0x2029
    ||| u == 0x202F
    ||| u == 0x205F
    ||| u == 0x3000
}

/// Number of leading whitespace characters.
pub open spec fn lead_ws(s: Seq<char>) -> nat
    decreases s.len(),
{
    if s.len() > 0 && is_ws(s[0]) {
        1 + lead_ws(s.drop_first())
    } else {
        0
    }
}

/// Number of trailing whitespace characters.
pub open spec fn trail_ws(s: Seq<char>) -> nat
    decreases s.len(),
{
    if s.len() > 0 && is_ws(s.last()) {
        1 + trail_ws(s.drop_last())
    } else {
        0
    }
}

/// `str::trim_start`.
pub open spec fn trim_start(s: Seq<char>) -> Seq<char> {
    s.skip(lead_ws(s) as int)
}

/// `str::trim_end`.
pub open spec fn trim_end(s: Seq<char>) -> Seq<char> {
    s.take(s.len() - trail_ws(s))
}

/// `str::trim`.
pub open spec fn trim(s: Seq<char>) -> Seq<char> {
    trim_end(trim_start(s))
}

/// `p` is a prefix of `s`.
pub open spec fn starts_with(s: Seq<char>, p: Seq<char>) -> bool {
    p.len() <= s.len() && s.take(p.len() as int) == p
}

/// `p` is a suffix of `s`.
pub open spec fn ends_with(s: Seq<char>, p: Seq<char>) -> bool {
    p.len() <= s.len() && s.skip(s.len() - p.len()) == p
}

/// `p` occurs in `s` starting at index `i`.
pub open spec fn occurs_at(s: Seq<char>, p: Seq<char>, i: int) -> bool {
    0 <= i && i + p.len() <= s.len() && s.subrange(i, i + p.len()) == p
}

/// `p` occurs somewhere in `s`.
pub open spec fn contains(s: Seq<char>, p: Seq<char>) -> bool {
    exists|i: int| occurs_at(s, p, i)
}

/// `i` is the first position at which `p` occurs in `s` (what `str::find` reports,
/// counted in characters).
pub open spec fn first_at(s: Seq<char>, p: Seq<char>, i: int) -> bool {
    occurs_at(s, p, i) && forall|j: int| 0 <= j < i ==> !occurs_at(s, p, j)
}

/// `i` is the last position at which `p` occurs in `s` (what `str::rfind` reports).
pub open spec fn last_at(s: Seq<char>, p: Seq<char>, i: int) -> bool {
    occurs_at(s, p, i) && forall|j: int| i < j <= s.len() ==> !occurs_at(s, p, j)
}

/// Index of the first `c` in `s`, or `s.len()` when there is none.
pub open spec fn index_of_char(s: Seq<char>, c: char) -> nat
    decreases s.len(),
{
    if s.len() == 0 {
        0
    } else if s[0] == c {
        0
    } else {
        1 + index_of_char(s.drop_first(), c)
    }
}

/// ASCII lower-casing of one character (`char::to_ascii_lowercase`).
pub open spec fn ascii_lower(c: char) -> char {
    if 'A' <= c && c <= 'Z' {
        ((c as u32) + 32) as char
    } else {
        c
    }
}

/// ASCII lower-casing of a text (`str::to_ascii_lowercase`).
pub open spec fn ascii_lower_seq(s: Seq<char>) -> Seq<char> {
    Seq::new(s.len(), |i: int| ascii_lower(s[i]))
}

/// `str::eq_ignore_ascii_case`.
pub open spec fn eq_ignore_ascii_case(a: Seq<char>, b: Seq<char>) -> bool {
    ascii_lower_seq(a) == ascii_lower_seq(b)
}

/// `char::is_ascii_digit`.
pub open spec fn is_ascii_digit(c: char) -> bool {
    '0' <= c && c <= '9'
}

/// `char::is_ascii_alphanumeric`.
pub open spec fn is_ascii_alnum(c: char) -> bool {
    ('0' <= c && c <= '9') || ('a' <= c && c <= 'z') || ('A' <= c && c <= 'Z')
}

/// Number of occurrences of `c` in `s`.
pub open spec fn count_char(s: Seq<char>, c: char) -> nat
    decreases s.len(),
{
    if s.len() == 0 {
        0
    } else {
        count_char(s.drop_last(), c) + (if s.last() == c { 1nat } else { 0nat })
    }
}

/// Removes one `\r` at the end (the part of a `\r\n` ending that `str::lines` drops).
pub open spec fn strip_cr(s: Seq<char>) -> Seq<char> {
    if s.len() > 0 && s.last() == '\r' {
        s.drop_last()
    } else {
        s
    }
}

/// `str::lines`: split at `\n`, drop a `\r` before each `\n`, and no empty
/// line after a final `\n`.
pub open spec fn lines_of(s: Seq<char>) -> Seq<Seq<char>>
    decreases s.len(),
{
    if s.len() == 0 {
        seq![]
    } else {
        let i = index_of_char(s, '\n');
        if i < s.len() {
            seq![strip_cr(s.take(i as int))] + lines_of(s.skip(i as int + 1))
        } else {
            seq![s]
        }
    }
}

/// `s` joined with `\n` between the parts (`[T]::join("\n")`).
pub open spec fn join_lines(ls: Seq<Seq<char>>) -> Seq<char>
    decreases ls.len(),
{
    if ls.len() == 0 {
        seq![]
    } else if ls.len() == 1 {
        ls[0]
    } else {
        join_lines(ls.drop_last()) + seq!['\n'] + ls.last()
    }
}

// ---------------------------------------------------------------------------
// Lemmas about the vocabulary
// ---------------------------------------------------------------------------

/// `lead_ws` counts exactly the whitespace run at the front.
pub proof fn lemma_lead_ws(s: Seq<char>, n: int)
    requires
        0 <= n <= s.len(),
        forall|j: int| 0 <= j < n ==> is_ws(s[j]),
        n == s.len() || !is_ws(s[n]),
    ensures
        lead_ws(s) == n,
    decreases n,
{
    if n > 0 {
        let t = s.drop_first();
        assert forall|j: int| 0 <= j < n - 1 implies is_ws(t[j]) by {
            assert(t[j] == s[j + 1]);
        }
        if n - 1 < t.len() {
            assert(t[n - 1] == s[n]);
        }
        lemma_lead_ws(t, n - 1);
    }
}

/// `trail_ws` counts exactly the whitespace run at the back.
pub proof fn lemma_trail_ws(s: Seq<char>, n: int)
    requires
        0 <= n <= s.len(),
        forall|j: int| s.len() - n <= j < s.len() ==> is_ws(s[j]),
        n == s.len() || !is_ws(s[s.len() - n - 1]),
    ensures
        trail_ws(s) == n,
    decreases n,
{
    if n > 0 {
        let t = s.drop_last();
        assert forall|j: int| t.len() - (n - 1) <= j < t.len() implies is_ws(t[j]) by {
            assert(t[j] == s[j]);
        }
        if n - 1 < t.len() {
            assert(t[t.len() - (n - 1) - 1] == s[s.len() - n - 1]);
        }
        lemma_trail_ws(t, n - 1);
    }
}

/// `index_of_char` is the first occurrence.
pub proof fn lemma_index_of_char(s: Seq<char>, c: char, n: int)
    requires
        0 <= n <= s.len(),
        forall|j: int| 0 <= j < n ==> s[j] != c,
        n == s.len() || s[n] == c,
    ensures
        index_of_char(s, c) == n,
    decreases n,
{
    if n > 0 {
        let t = s.drop_first();
        assert forall|j: int| 0 <= j < n - 1 implies t[j] != c by {
            assert(t[j] == s[j + 1]);
        }
        if n - 1 < t.len() {
            assert(t[n - 1] == s[n]);
        }
        lemma_index_of_char(t, c, n - 1);
    }
}

/// Counting a character over a prefix that grows by one.
pub proof fn lemma_count_char_step(s: Seq<char>, c: char, i: int)
    requires
        0 <= i < s.len(),
    ensures
        count_char(s.take(i + 1), c) == count_char(s.take(i), c) + (if s[i] == c { 1nat } else { 0nat }),
{
    assert(s.take(i + 1).drop_last() == s.take(i));
}

// ---------------------------------------------------------------------------
// Conversions
// ---------------------------------------------------------------------------

/// `String::push`, specified by what the standard library documents: the
/// character is appended at the end.
pub assume_specification[ String::push ](s: &mut String, ch: char)
    ensures
        final(s)@ == old(s)@.push(ch),
;

/// What `str::to_lowercase` returns for a string: the full Unicode lowercase
/// mapping, a function of the string alone.
pub uninterp spec fn lowercase(s: Seq<char>) -> Seq<char>;

/// `str::to_lowercase`.  The result is [`lowercase`] of the argument; the
/// mapping itself (Unicode tables, context-dependent sigma) is not stated.
#[verifier::external_body]
pub(crate) fn to_lower(s: &str) -> (r: String)
    ensures
        r@ == lowercase(s@),
{
    s.to_lowercase()
}

/// What `char::to_uppercase` yields for a character: its full Unicode
/// uppercase mapping (one or more characters), a function of the character
/// alone.
pub uninterp spec fn uppercase_of(c: char) -> Seq<char>;

/// `char::to_uppercase`, collected into a string. The result is
/// [`uppercase_of`] of the character; the mapping itself (Unicode tables)
/// is not stated.
#[verifier::external_body]
pub(crate) fn char_to_upper(c: char) -> (r: String)
    ensures
        r@ == uppercase_of(c),
{
    c.to_uppercase().collect()
}

/// The lowercase form of a character vector, as a character vector.
pub fn lower_vec(v: &Vec<char>) -> (r: Vec<char>)
    ensures
        r@ == lowercase(v@),
{
    let s = string_of(v);
    let l = to_lower(s.as_str());
    chars_of(l.as_str())
}

/// What `char::is_alphanumeric` reports: the Unicode Alphabetic or Numeric
/// property, taken from Unicode tables.
pub uninterp spec fn unicode_alnum(c: char) -> bool;

/// `char::is_alphanumeric`; its result is [`unicode_alnum`] of the argument.
pub assume_specification[ char::is_alphanumeric ](c: char) -> (r: bool)
    ensures
        r == unicode_alnum(c),
;

/// What `char::is_uppercase` reports: the Unicode Uppercase property,
/// taken from Unicode tables.
pub uninterp spec fn unicode_upper(c: char) -> bool;

/// `char::is_uppercase`; its result is [`unicode_upper`] of the argument.
pub assume_specification[ char::is_uppercase ](c: char) -> (r: bool)
    ensures
        r == unicode_upper(c),
;

/// A character that can continue an AL identifier: alphanumeric or `_`.
pub open spec fn word_char(c: char) -> bool {
    unicode_alnum(c) || c == '_'
}

/// Index of the first character of `s` that cannot continue an identifier,
/// or its length.
pub open spec fn word_end(s: Seq<char>) -> nat
    decreases s.len(),
{
    if s.len() == 0 || !word_char(s[0]) {
        0
    } else {
        1 + word_end(s.drop_first())
    }
}

/// Whether `c` can continue an identifier.
pub fn is_word_char(c: char) -> (b: bool)
    ensures
        b == word_char(c),
{
    c.is_alphanumeric() || c == '_'
}

pub proof fn lemma_word_end(s: Seq<char>, n: int)
    requires
        0 <= n <= s.len(),
        forall|j: int| 0 <= j < n ==> word_char(s[j]),
        n == s.len() || !word_char(s[n]),
    ensures
        word_end(s) == n,
    decreases n,
{
    if n > 0 {
        let t = s.drop_first();
        assert forall|j: int| 0 <= j < n - 1 implies word_char(t[j]) by {
            assert(t[j] == s[j + 1]);
        }
        if n - 1 < t.len() {
            assert(t[n - 1] == s[n]);
        }
        lemma_word_end(t, n - 1);
    }
}

/// The length of the identifier at the start of `v`.
pub fn word_end_of(v: &Vec<char>) -> (r: usize)
    ensures
        r == word_end(v@),
        r <= v@.len(),
{
    let mut i: usize = 0;
    while i < v.len() && is_word_char(v[i])
        invariant
            i <= v@.len(),
            forall|j: int| 0 <= j < i ==> word_char(v@[j]),
        decreases v@.len() - i,
    {
        i = i + 1;
    }
    proof {
        lemma_word_end(v@, i as int);
    }
    i
}

/// The characters of a string slice, in order.
pub fn chars_of(s: &str) -> (v: Vec<char>)
    ensures
        v@ == s@,
{
    let mut v: Vec<char> = Vec::new();
    for c in it: s.chars()
        invariant
            v@ == it.seq().take(it.index() as int),
            it.seq() == s@,
    {
        v.push(c);
    }
    v
}

/// A `String` holding the characters `v[lo..hi]`.
pub fn string_of_range(v: &Vec<char>, lo: usize, hi: usize) -> (s: String)
    requires
        lo <= hi <= v.len(),
    ensures
        s@ == v@.subrange(lo as int, hi as int),
{
    let mut s = String::new();
    let mut i = lo;
    while i < hi
        invariant
            lo <= i <= hi <= v.len(),
            s@ == v@.subrange(lo as int, i as int),
        decreases hi - i,
    {
        s.push(v[i]);
        i = i + 1;
        assert(s@ == v@.subrange(lo as int, i as int));
    }
    s
}

/// A `String` holding the characters of `v`.
pub fn string_of(v: &Vec<char>) -> (s: String)
    ensures
        s@ == v@,
{
    let s = string_of_range(v, 0, v.len());
    assert(v@.subrange(0, v@.len() as int) == v@);
    s
}

/// Appends the characters of `t` to `s`.
pub fn push_str(s: &mut String, t: &str)
    ensures
        final(s)@ == old(s)@ + t@,
{
    let ghost s0 = s@;
    for c in it: t.chars()
        invariant
            s@ == s0 + it.seq().take(it.index() as int),
            it.seq() == t@,
    {
        s.push(c);
    }
    assert(t@.take(t@.len() as int) == t@);
}

/// Appends the characters `v[lo..hi]` to `s`.
pub fn push_range(s: &mut String, v: &Vec<char>, lo: usize, hi: usize)
    requires
        lo <= hi <= v.len(),
    ensures
        final(s)@ == old(s)@ + v@.subrange(lo as int, hi as int),
{
    let ghost s0 = s@;
    let mut i = lo;
    while i < hi
        invariant
            lo <= i <= hi <= v.len(),
            s@ == s0 + v@.subrange(lo as int, i as int),
        decreases hi - i,
    {
        s.push(v[i]);
        i = i + 1;
        assert(s@ == s0 + v@.subrange(lo as int, i as int));
    }
}

/// Appends the characters of `v` to `s`.
pub fn push_chars(s: &mut String, v: &Vec<char>)
    ensures
        final(s)@ == old(s)@ + v@,
{
    push_range(s, v, 0, v.len());
    assert(v@.subrange(0, v@.len() as int) == v@);
}

/// Appends `v[lo..hi]` to the character vector `out`.
pub fn extend_range(out: &mut Vec<char>, v: &Vec<char>, lo: usize, hi: usize)
    requires
        lo <= hi <= v.len(),
    ensures
        final(out)@ == old(out)@ + v@.subrange(lo as int, hi as int),
{
    let ghost o0 = out@;
    let mut i = lo;
    while i < hi
        invariant
            lo <= i <= hi <= v.len(),
            out@ == o0 + v@.subrange(lo as int, i as int),
        decreases hi - i,
    {
        out.push(v[i]);
        i = i + 1;
        assert(out@ == o0 + v@.subrange(lo as int, i as int));
    }
}

/// Appends all of `v` to `out`.
pub fn extend_all(out: &mut Vec<char>, v: &Vec<char>)
    ensures
        final(out)@ == old(out)@ + v@,
{
    extend_range(out, v, 0, v.len());
    assert(v@.subrange(0, v@.len() as int) == v@);
}

/// A copy of `v[lo..hi]`.
pub fn copy_range(v: &Vec<char>, lo: usize, hi: usize) -> (r: Vec<char>)
    requires
        lo <= hi <= v.len(),
    ensures
        r@ == v@.subrange(lo as int, hi as int),
{
    let mut r: Vec<char> = Vec::new();
    extend_range(&mut r, v, lo, hi);
    r
}

// ---------------------------------------------------------------------------
// Character classes
// ---------------------------------------------------------------------------

/// `char::is_whitespace`.
pub fn char_is_ws(c: char) -> (b: bool)
    ensures
        b == is_ws(c),
{
    let u = c as u32;
    (9 <= u && u <= 13) || u == 32 || u == 0x85 || u == 0xA0 || u == 0x1680 || (0x2000 <= u
        && u <= 0x200A) || u == 0x2028 || u == 0x2029 || u == 0x202F || u == 0x205F || u == 0x3000
}

/// `char::to_ascii_lowercase`.
pub fn char_ascii_lower(c: char) -> (r: char)
    ensures
        r == ascii_lower(c),
{
    if 'A' <= c && c <= 'Z' {
        let u = (c as u32) + 32;
        assert(0x61 <= u <= 0x7A);
        char_from_ascii(u)
    } else {
        c
    }
}

/// The character with the given ASCII code.
fn char_from_ascii(u: u32) -> (c: char)
    requires
        u < 128,
    ensures
        c == u as char,
{
    let b = u as u8;
    b as char
}

/// `char::is_ascii_digit`.
pub fn char_is_ascii_digit(c: char) -> (b: bool)
    ensures
        b == is_ascii_digit(c),
{
    '0' <= c && c <= '9'
}

/// `char::is_ascii_alphanumeric`.
pub fn char_is_ascii_alnum(c: char) -> (b: bool)
    ensures
        b == is_ascii_alnum(c),
{
    ('0' <= c && c <= '9') || ('a' <= c && c <= 'z') || ('A' <= c && c <= 'Z')
}

// ---------------------------------------------------------------------------
// Trimming
// ---------------------------------------------------------------------------

/// Start of `v[lo..hi]` after its leading whitespace.
pub fn skip_ws(v: &Vec<char>, lo: usize, hi: usize) -> (a: usize)
    requires
        lo <= hi <= v.len(),
    ensures
        lo <= a <= hi,
        a - lo == lead_ws(v@.subrange(lo as int, hi as int)),
{
    let mut i = lo;
    while i < hi && char_is_ws(v[i])
        invariant
            lo <= i <= hi <= v.len(),
            forall|j: int| lo <= j < i ==> is_ws(v@[j]),
        decreases hi - i,
    {
        i = i + 1;
    }
    proof {
        lemma_lead_ws(v@.subrange(lo as int, hi as int), i - lo);
    }
    i
}

/// End of `v[lo..hi]` before its trailing whitespace.
pub fn skip_ws_back(v: &Vec<char>, lo: usize, hi: usize) -> (b: usize)
    requires
        lo <= hi <= v.len(),
    ensures
        lo <= b <= hi,
        hi - b == trail_ws(v@.subrange(lo as int, hi as int)),
{
    let mut i = hi;
    while i > lo && char_is_ws(v[i - 1])
        invariant
            lo <= i <= hi <= v.len(),
            forall|j: int| i <= j < hi ==> is_ws(v@[j]),
        decreases i - lo,
    {
        i = i - 1;
    }
    proof {
        let s = v@.subrange(lo as int, hi as int);
        lemma_trail_ws(s, hi - i);
    }
    i
}

/// The range of `v[lo..hi]` that `str::trim` keeps.
pub fn trim_range(v: &Vec<char>, lo: usize, hi: usize) -> (r: (usize, usize))
    requires
        lo <= hi <= v.len(),
    ensures
        lo <= r.0 <= r.1 <= hi,
        v@.subrange(r.0 as int, r.1 as int) == trim(v@.subrange(lo as int, hi as int)),
        v@.subrange(r.0 as int, hi as int) == trim_start(v@.subrange(lo as int, hi as int)),
{
    let a = skip_ws(v, lo, hi);
    let b = skip_ws_back(v, a, hi);
    proof {
        let s = v@.subrange(lo as int, hi as int);
        assert(s.skip(lead_ws(s) as int) == v@.subrange(a as int, hi as int));
        let t = v@.subrange(a as int, hi as int);
        assert(t.take(t.len() - trail_ws(t)) == v@.subrange(a as int, b as int));
    }
    (a, b)
}

/// `str::trim` on a whole text.
pub fn trim_vec(v: &Vec<char>) -> (r: Vec<char>)
    ensures
        r@ == trim(v@),
{
    let (a, b) = trim_range(v, 0, v.len());
    assert(v@.subrange(0, v@.len() as int) == v@);
    copy_range(v, a, b)
}

// ---------------------------------------------------------------------------
// Searching
// ---------------------------------------------------------------------------

/// Whether `p` occurs in `v` at index `i`.
pub fn matches_at(v: &Vec<char>, i: usize, p: &Vec<char>) -> (b: bool)
    ensures
        b == occurs_at(v@, p@, i as int),
{
    if i > v.len() || p.len() > v.len() - i {
        return false;
    }
    let mut k: usize = 0;
    while k < p.len()
        invariant
            i + p.len() <= v.len(),
            k <= p.len(),
            forall|j: int| 0 <= j < k ==> v@[i + j] == p@[j],
        decreases p.len() - k,
    {
        if v[i + k] != p[k] {
            assert(v@.subrange(i as int, i + p.len())[k as int] != p@[k as int]);
            return false;
        }
        k = k + 1;
    }
    assert(v@.subrange(i as int, i + p.len()) == p@);
    true
}

/// Whether `p` is a prefix of `v[lo..]` .
pub fn starts_with_at(v: &Vec<char>, lo: usize, p: &Vec<char>) -> (b: bool)
    requires
        lo <= v.len(),
    ensures
        b == starts_with(v@.skip(lo as int), p@),
{
    let b = matches_at(v, lo, p);
    proof {
        if b {
            assert(v@.skip(lo as int).take(p@.len() as int) == v@.subrange(lo as int, lo + p@.len()));
        } else if p@.len() <= v@.skip(lo as int).len() {
            assert(v@.skip(lo as int).take(p@.len() as int) == v@.subrange(lo as int, lo + p@.len()));
        }
    }
    b
}

/// Position of the first occurrence of `p` in `v` at or after `from`.
pub fn find_from(v: &Vec<char>, p: &Vec<char>, from: usize) -> (r: Option<usize>)
    requires
        from <= v.len(),
    ensures
        r matches Some(i) ==> from <= i && occurs_at(v@, p@, i as int) && forall|j: int|
            from <= j < i ==> !occurs_at(v@, p@, j),
        r is None ==> forall|j: int| from <= j ==> !occurs_at(v@, p@, j),
{
    let mut i = from;
    loop
        invariant
            from <= i <= v.len(),
            forall|j: int| from <= j < i ==> !occurs_at(v@, p@, j),
        decreases v.len() - i,
    {
        if matches_at(v, i, p) {
            return Some(i);
        }
        if i == v.len() {
            return None;
        }
        i = i + 1;
    }
}

/// Position of the first occurrence of `p` in `v` (`str::find`, in characters).
pub fn find(v: &Vec<char>, p: &Vec<char>) -> (r: Option<usize>)
    ensures
        r matches Some(i) ==> first_at(v@, p@, i as int),
        r is None ==> !contains(v@, p@),
{
    find_from(v, p, 0)
}

/// Whether `p` occurs in `v` (`str::contains`).
pub fn contains_vec(v: &Vec<char>, p: &Vec<char>) -> (b: bool)
    ensures
        b == contains(v@, p@),
{
    find(v, p).is_some()
}

/// Position of the last occurrence of `p` in `v` (`str::rfind`, in characters).
pub fn rfind(v: &Vec<char>, p: &Vec<char>) -> (r: Option<usize>)
    ensures
        r matches Some(i) ==> last_at(v@, p@, i as int),
        r is None ==> !contains(v@, p@),
{
    if p.len() > v.len() {
        return None;
    }
    let mut i = v.len() - p.len();
    loop
        invariant
            p.len() <= v.len(),
            i <= v.len() - p.len(),
            forall|j: int| i < j <= v.len() ==> !occurs_at(v@, p@, j),
        decreases i,
    {
        if matches_at(v, i, p) {
            return Some(i);
        }
        if i == 0 {
            return None;
        }
        i = i - 1;
    }
}

/// Position of the first `c` in `v[lo..hi]`, or `hi`.
pub fn find_char_in(v: &Vec<char>, c: char, lo: usize, hi: usize) -> (r: usize)
    requires
        lo <= hi <= v.len(),
    ensures
        lo <= r <= hi,
        r - lo == index_of_char(v@.subrange(lo as int, hi as int), c),
        forall|j: int| lo <= j < r ==> v@[j] != c,
        r < hi ==> v@[r as int] == c,
{
    let mut i = lo;
    while i < hi && v[i] != c
        invariant
            lo <= i <= hi <= v.len(),
            forall|j: int| lo <= j < i ==> v@[j] != c,
        decreases hi - i,
    {
        i = i + 1;
    }
    proof {
        lemma_index_of_char(v@.subrange(lo as int, hi as int), c, i - lo);
    }
    i
}

/// Number of occurrences of `c` in `v[lo..hi]`.
pub fn count_char_in(v: &Vec<char>, c: char, lo: usize, hi: usize) -> (n: usize)
    requires
        lo <= hi <= v.len(),
    ensures
        n == count_char(v@.subrange(lo as int, hi as int), c),
{
    let mut n: usize = 0;
    let mut i = lo;
    while i < hi
        invariant
            lo <= i <= hi <= v.len(),
            n == count_char(v@.subrange(lo as int, i as int), c),
            n <= i - lo,
        decreases hi - i,
    {
        proof {
            let s = v@.subrange(lo as int, hi as int);
            lemma_count_char_step(s, c, i - lo);
            assert(s.take(i - lo) == v@.subrange(lo as int, i as int));
            assert(s.take(i - lo + 1) == v@.subrange(lo as int, i + 1));
        }
        if v[i] == c {
            n = n + 1;
        }
        i = i + 1;
    }
    n
}

// ---------------------------------------------------------------------------
// Case
// ---------------------------------------------------------------------------

/// `str::to_ascii_lowercase` on `v[lo..hi]`.
pub fn ascii_lower_range(v: &Vec<char>, lo: usize, hi: usize) -> (r: Vec<char>)
    requires
        lo <= hi <= v.len(),
    ensures
        r@ == ascii_lower_seq(v@.subrange(lo as int, hi as int)),
{
    let mut r: Vec<char> = Vec::new();
    let mut i = lo;
    while i < hi
        invariant
            lo <= i <= hi <= v.len(),
            r@.len() == i - lo,
            forall|j: int| 0 <= j < r@.len() ==> r@[j] == ascii_lower(v@[lo + j]),
        decreases hi - i,
    {
        r.push(char_ascii_lower(v[i]));
        i = i + 1;
    }
    assert(r@ == ascii_lower_seq(v@.subrange(lo as int, hi as int)));
    r
}

/// `str::to_ascii_lowercase`.
pub fn ascii_lower_vec(v: &Vec<char>) -> (r: Vec<char>)
    ensures
        r@ == ascii_lower_seq(v@),
{
    let r = ascii_lower_range(v, 0, v.len());
    assert(v@.subrange(0, v@.len() as int) == v@);
    r
}

/// `str::eq_ignore_ascii_case` on character vectors.
pub fn eq_ignore_case(a: &Vec<char>, b: &Vec<char>) -> (r: bool)
    ensures
        r == eq_ignore_ascii_case(a@, b@),
{
    let la = ascii_lower_vec(a);
    let lb = ascii_lower_vec(b);
    if la.len() != lb.len() {
        return false;
    }
    let mut i: usize = 0;
    while i < la.len()
        invariant
            la.len() == lb.len(),
            la@ == ascii_lower_seq(a@),
            lb@ == ascii_lower_seq(b@),
            i <= la.len(),
            forall|j: int| 0 <= j < i ==> la@[j] == lb@[j],
        decreases la.len() - i,
    {
        if la[i] != lb[i] {
            assert(la@[i as int] != lb@[i as int]);
            return false;
        }
        i = i + 1;
    }
    assert(la@ == lb@);
    true
}

/// Equality of two character vectors.
pub fn vec_eq(a: &Vec<char>, b: &Vec<char>) -> (r: bool)
    ensures
        r == (a@ == b@),
{
    if a.len() != b.len() {
        return false;
    }
    let mut i: usize = 0;
    while i < a.len()
        invariant
            a.len() == b.len(),
            i <= a.len(),
            forall|j: int| 0 <= j < i ==> a@[j] == b@[j],
        decreases a.len() - i,
    {
        if a[i] != b[i] {
            return false;
        }
        i = i + 1;
    }
    assert(a@ == b@);
    true
}

// ---------------------------------------------------------------------------
// Lines
// ---------------------------------------------------------------------------

/// Splitting at the first `\n` of `s[lo..]` peels one line off `lines_of`.
proof fn lemma_lines_step(s: Seq<char>, lo: int, j: int)
    requires
        0 <= lo < s.len(),
        lo <= j <= s.len(),
        j - lo == index_of_char(s.skip(lo), '\n'),
    ensures
        j < s.len() ==> lines_of(s.skip(lo)) == seq![strip_cr(s.subrange(lo, j))] + lines_of(
            s.skip(j + 1),
        ),
        j == s.len() ==> lines_of(s.skip(lo)) == seq![s.skip(lo)],
{
    let t = s.skip(lo);
    assert(t.len() > 0);
    if j < s.len() {
        assert(t.take(j - lo) == s.subrange(lo, j));
        assert(t.skip(j - lo + 1) == s.skip(j + 1));
    }
}

/// `str::lines` on a character vector: the bounds `(start, end)` of each line.
pub fn line_bounds(v: &Vec<char>) -> (r: Vec<(usize, usize)>)
    ensures
        r@.len() == lines_of(v@).len(),
        forall|k: int|
            0 <= k < r@.len() ==> r@[k].0 <= r@[k].1 <= v@.len() && #[trigger] lines_of(v@)[k]
                == v@.subrange(r@[k].0 as int, r@[k].1 as int),
{
    let mut r: Vec<(usize, usize)> = Vec::new();
    let mut lo: usize = 0;
    let n = v.len();
    assert(v@.skip(0) == v@);
    while lo < n
        invariant
            n == v.len(),
            lo <= n,
            lines_of(v@) == Seq::new(r@.len(), |k: int| v@.subrange(r@[k].0 as int, r@[k].1 as int))
                + lines_of(v@.skip(lo as int)),
            forall|k: int| 0 <= k < r@.len() ==> (#[trigger] r@[k]).0 <= r@[k].1 <= v@.len(),
        decreases n - lo,
    {
        let j = find_char_in(v, '\n', lo, n);
        proof {
            assert(v@.subrange(lo as int, n as int) == v@.skip(lo as int));
            lemma_lines_step(v@, lo as int, j as int);
        }
        let ghost old_r = r@;
        if j < n {
            let e = if j > lo && v[j - 1] == '\r' {
                j - 1
            } else {
                j
            };
            proof {
                let seg = v@.subrange(lo as int, j as int);
                if j > lo && v@[j - 1] == '\r' {
                    assert(strip_cr(seg) == v@.subrange(lo as int, e as int));
                } else {
                    assert(strip_cr(seg) == seg);
                }
            }
            r.push((lo, e));
            proof {
                let f1 = Seq::new(old_r.len(), |k: int| v@.subrange(old_r[k].0 as int, old_r[k].1 as int));
                let f2 = Seq::new(r@.len(), |k: int| v@.subrange(r@[k].0 as int, r@[k].1 as int));
                assert(f2 == f1.push(v@.subrange(lo as int, e as int)));
            }
            lo = j + 1;
        } else {
            r.push((lo, n));
            proof {
                let f1 = Seq::new(old_r.len(), |k: int| v@.subrange(old_r[k].0 as int, old_r[k].1 as int));
                let f2 = Seq::new(r@.len(), |k: int| v@.subrange(r@[k].0 as int, r@[k].1 as int));
                assert(f2 == f1.push(v@.subrange(lo as int, n as int)));
                assert(v@.skip(n as int).len() == 0);
                assert(lines_of(v@.skip(n as int)) =~= seq![]);
            }
            lo = n;
        }
    }
    proof {
        assert(v@.skip(n as int).len() == 0);
        let f = Seq::new(r@.len(), |k: int| v@.subrange(r@[k].0 as int, r@[k].1 as int));
        assert(lines_of(v@) =~= f);
        assert forall|k: int| 0 <= k < r@.len() implies #[trigger] lines_of(v@)[k]
            == v@.subrange(r@[k].0 as int, r@[k].1 as int) by {
            assert(f[k] == v@.subrange(r@[k].0 as int, r@[k].1 as int));
        }
    }
    r
}

/// `join_lines` grows by one line at a time.
pub proof fn lemma_join_lines_push(ls: Seq<Seq<char>>, l: Seq<char>)
    ensures
        join_lines(ls.push(l)) == if ls.len() == 0 {
            l
        } else {
            join_lines(ls) + seq!['\n'] + l
        },
{
    assert(ls.push(l).drop_last() == ls);
}


/// The views of a sequence of character vectors.
pub open spec fn seqs_of(v: Seq<Vec<char>>) -> Seq<Seq<char>> {
    v.map_values(|x: Vec<char>| x@)
}

/// `b` holds the bounds of the lines of `v`, in order.
pub open spec fn bounds_are_lines(b: Seq<(usize, usize)>, v: Seq<char>) -> bool {
    &&& b.len() == lines_of(v).len()
    &&& forall|j: int|
        0 <= j < b.len() ==> b[j].0 <= b[j].1 <= v.len() && #[trigger] lines_of(v)[j]
            == v.subrange(b[j].0 as int, b[j].1 as int)
}

/// The lines of `v` (`str::lines`), each as a character vector.
pub fn lines_vec(v: &Vec<char>) -> (r: Vec<Vec<char>>)
    ensures
        seqs_of(r@) == lines_of(v@),
{
    let b = line_bounds(v);
    assert(b@.len() == lines_of(v@).len());
    assert forall|j: int| 0 <= j < b@.len() implies (#[trigger] b@[j]).0 <= b@[j].1 <= v@.len() by {
        assert(lines_of(v@)[j] == v@.subrange(b@[j].0 as int, b@[j].1 as int));
    }
    assert(bounds_are_lines(b@, v@));
    let mut r: Vec<Vec<char>> = Vec::new();
    let mut k: usize = 0;
    while k < b.len()
        invariant
            k <= b@.len(),
            b@.len() == lines_of(v@).len(),
            bounds_are_lines(b@, v@),
            seqs_of(r@) == lines_of(v@).take(k as int),
        decreases b@.len() - k,
    {
        let (lo, hi) = b[k];
        assert(lines_of(v@)[k as int] == v@.subrange(lo as int, hi as int));
        let line = copy_range(v, lo, hi);
        let ghost prev = r@;
        r.push(line);
        assert(seqs_of(r@) =~= seqs_of(prev).push(line@));
        assert(lines_of(v@).take(k + 1) =~= lines_of(v@).take(k as int).push(line@));
        k = k + 1;
    }
    assert(lines_of(v@).take(lines_of(v@).len() as int) =~= lines_of(v@));
    r
}

/// The lines joined with `\n` between them.
pub fn join_vec_lines(ls: &Vec<Vec<char>>) -> (r: Vec<char>)
    ensures
        r@ == join_lines(seqs_of(ls@)),
{
    let mut r: Vec<char> = Vec::new();
    let mut k: usize = 0;
    while k < ls.len()
        invariant
            k <= ls@.len(),
            r@ == join_lines(seqs_of(ls@).take(k as int)),
        decreases ls@.len() - k,
    {
        proof {
            lemma_join_lines_push(seqs_of(ls@).take(k as int), ls@[k as int]@);
            assert(seqs_of(ls@).take(k as int).push(ls@[k as int]@) =~= seqs_of(ls@).take(k + 1));
        }
        if k > 0 {
            r.push('\n');
        }
        extend_all(&mut r, &ls[k]);
        k = k + 1;
    }
    assert(seqs_of(ls@).take(ls@.len() as int) =~= seqs_of(ls@));
    r
}

/// The leading whitespace of `line`.
pub fn leading_ws_vec(line: &Vec<char>) -> (r: Vec<char>)
    ensures
        r@ == line@.take(lead_ws(line@) as int),
{
    let a = skip_ws(line, 0, line.len());
    assert(line@.subrange(0, line@.len() as int) =~= line@);
    let r = copy_range(line, 0, a);
    assert(r@ =~= line@.take(a as int));
    r
}

/// Whether `v` starts with the characters of `p`.
pub fn vec_starts_with(v: &Vec<char>, p: &str) -> (b: bool)
    ensures
        b == starts_with(v@, p@),
{
    let pv = chars_of(p);
    let b = starts_with_at(v, 0, &pv);
    proof {
        assert(v@.skip(0) =~= v@);
    }
    b
}

/// Whether the characters of `p` occur in `v`.
pub fn vec_contains(v: &Vec<char>, p: &str) -> (b: bool)
    ensures
        b == contains(v@, p@),
{
    let pv = chars_of(p);
    contains_vec(v, &pv)
}


/// Whether `v` ends with `p`.
pub fn ends_with_vec(v: &Vec<char>, p: &Vec<char>) -> (b: bool)
    ensures
        b == ends_with(v@, p@),
{
    if p.len() > v.len() {
        return false;
    }
    let b = matches_at(v, v.len() - p.len(), p);
    proof {
        assert(v@.subrange(v@.len() - p@.len(), v@.len() as int) =~= v@.skip(v@.len() - p@.len()));
    }
    b
}


/// The pieces of `s` between occurrences of `c` (`str::split(c)`; at least
/// one piece).
pub open spec fn split_on(s: Seq<char>, c: char) -> Seq<Seq<char>>
    decreases s.len(),
{
    let i = index_of_char(s, c);
    if i < s.len() {
        seq![s.take(i as int)] + split_on(s.skip(i as int + 1), c)
    } else {
        seq![s]
    }
}

/// `str::split(c)` on a character vector.
pub fn split_on_vec(s: &Vec<char>, c: char) -> (r: Vec<Vec<char>>)
    ensures
        seqs_of(r@) == split_on(s@, c),
{
    let mut out: Vec<Vec<char>> = Vec::new();
    let mut start: usize = 0;
    assert(s@.skip(0) =~= s@);
    loop
        invariant
            start <= s@.len(),
            split_on(s@, c) == seqs_of(out@) + split_on(s@.skip(start as int), c),
        decreases s@.len() - start,
    {
        let e = find_char_in(s, c, start, s.len());
        let piece = copy_range(s, start, e);
        let ghost o0 = seqs_of(out@);
        let ghost rest = s@.skip(start as int);
        assert(s@.subrange(start as int, s@.len() as int) =~= rest);
        assert(piece@ =~= rest.take(e - start));
        out.push(piece);
        assert(seqs_of(out@) =~= o0.push(piece@));
        if e == s.len() {
            assert(split_on(rest, c) =~= seq![rest]);
            assert(o0 + seq![rest] =~= seqs_of(out@));
            return out;
        }
        assert(rest.skip(e - start + 1) =~= s@.skip(e + 1));
        assert(split_on(rest, c) =~= seq![piece@] + split_on(s@.skip(e + 1), c));
        assert(o0 + (seq![piece@] + split_on(s@.skip(e + 1), c)) =~= seqs_of(out@) + split_on(
            s@.skip(e + 1),
            c,
        ));
        start = e + 1;
    }
}

/// Number of leading `c` of `s`.
pub open spec fn lead_count(s: Seq<char>, c: char) -> nat
    decreases s.len(),
{
    if s.len() > 0 && s[0] == c {
        1 + lead_count(s.drop_first(), c)
    } else {
        0
    }
}

/// Number of trailing `c` of `s`.
pub open spec fn trail_count(s: Seq<char>, c: char) -> nat
    decreases s.len(),
{
    if s.len() > 0 && s.last() == c {
        1 + trail_count(s.drop_last(), c)
    } else {
        0
    }
}

/// `str::trim_matches(c)`: `s` without its leading and trailing `c`.
pub open spec fn strip_char(s: Seq<char>, c: char) -> Seq<char> {
    if lead_count(s, c) == s.len() {
        Seq::empty()
    } else {
        s.subrange(lead_count(s, c) as int, s.len() - trail_count(s, c))
    }
}

proof fn lemma_lead_count(s: Seq<char>, c: char, n: int)
    requires
        0 <= n <= s.len(),
        forall|j: int| 0 <= j < n ==> s[j] == c,
        n == s.len() || s[n] != c,
    ensures
        lead_count(s, c) == n,
    decreases n,
{
    if n > 0 {
        let t = s.drop_first();
        assert forall|j: int| 0 <= j < n - 1 implies t[j] == c by {
            assert(t[j] == s[j + 1]);
        }
        if n - 1 < t.len() {
            assert(t[n - 1] == s[n]);
        }
        lemma_lead_count(t, c, n - 1);
    }
}

proof fn lemma_trail_count(s: Seq<char>, c: char, n: int)
    requires
        0 <= n <= s.len(),
        forall|j: int| s.len() - n <= j < s.len() ==> s[j] == c,
        n == s.len() || s[s.len() - n - 1] != c,
    ensures
        trail_count(s, c) == n,
    decreases n,
{
    if n > 0 {
        let t = s.drop_last();
        assert forall|j: int| t.len() - (n - 1) <= j < t.len() implies t[j] == c by {
            assert(t[j] == s[j]);
        }
        if n - 1 < t.len() {
            assert(t[t.len() - (n - 1) - 1] == s[s.len() - n - 1]);
        }
        lemma_trail_count(t, c, n - 1);
    }
}

/// `str::trim_matches(c)` on a character vector.
pub fn strip_char_vec(v: &Vec<char>, c: char) -> (r: Vec<char>)
    ensures
        r@ == strip_char(v@, c),
{
    let mut a: usize = 0;
    while a < v.len() && v[a] == c
        invariant
            a <= v@.len(),
            forall|j: int| 0 <= j < a ==> v@[j] == c,
        decreases v@.len() - a,
    {
        a = a + 1;
    }
    proof {
        lemma_lead_count(v@, c, a as int);
    }
    if a == v.len() {
        return Vec::new();
    }
    let mut b: usize = v.len();
    while b > a && v[b - 1] == c
        invariant
            a < v@.len(),
            a <= b <= v@.len(),
            forall|j: int| b <= j < v@.len() ==> v@[j] == c,
        decreases b,
    {
        b = b - 1;
    }
    proof {
        assert(v@[a as int] != c);
        lemma_trail_count(v@, c, v@.len() - b);
    }
    copy_range(v, a, b)
}

/// The character sequences of a sequence of strings.
pub open spec fn strs(v: Seq<String>) -> Seq<Seq<char>> {
    v.map_values(|s: String| s@)
}

/// Index of the last `c` in `s` (`str::rfind(c)`), if any.
pub open spec fn rindex_of_char(s: Seq<char>, c: char) -> Option<nat>
    decreases s.len(),
{
    if s.len() == 0 {
        None
    } else if s.last() == c {
        Some((s.len() - 1) as nat)
    } else {
        rindex_of_char(s.drop_last(), c)
    }
}

/// Position of the last `c` in `v`.
pub fn rfind_char(v: &Vec<char>, c: char) -> (r: Option<usize>)
    ensures
        r matches Some(i) ==> rindex_of_char(v@, c) == Some(i as nat) && i < v@.len() && v@[i as int]
            == c,
        r is None ==> rindex_of_char(v@, c) is None,
{
    let mut i: usize = v.len();
    assert(v@.take(i as int) =~= v@);
    while i > 0
        invariant
            i <= v@.len(),
            rindex_of_char(v@, c) == rindex_of_char(v@.take(i as int), c),
        decreases i,
    {
        let ghost t = v@.take(i as int);
        assert(t.drop_last() =~= v@.take(i - 1));
        if v[i - 1] == c {
            return Some(i - 1);
        }
        i = i - 1;
    }
    None
}

/// `s` without its leading characters that belong to `set`
/// (`str::trim_start_matches` with a set of characters).
pub open spec fn skip_any(s: Seq<char>, set: Seq<char>) -> Seq<char>
    decreases s.len(),
{
    if s.len() > 0 && set.contains(s[0]) {
        skip_any(s.drop_first(), set)
    } else {
        s
    }
}

/// `skip_any` on a character vector.
pub fn skip_any_vec(v: &Vec<char>, set: &Vec<char>) -> (r: Vec<char>)
    ensures
        r@ == skip_any(v@, set@),
{
    let mut i: usize = 0;
    assert(v@.skip(0) =~= v@);
    loop
        invariant
            i <= v@.len(),
            skip_any(v@, set@) == skip_any(v@.skip(i as int), set@),
        decreases v@.len() - i,
    {
        if i == v.len() || !contains_char(set, v[i]) {
            let r = copy_range(v, i, v.len());
            assert(r@ =~= v@.skip(i as int));
            return r;
        }
        assert(v@.skip(i as int).drop_first() =~= v@.skip(i + 1));
        i = i + 1;
    }
}

/// Whether `c` is one of the characters of `set`.
pub fn contains_char(set: &Vec<char>, c: char) -> (b: bool)
    ensures
        b == set@.contains(c),
{
    let mut i: usize = 0;
    while i < set.len()
        invariant
            i <= set@.len(),
            forall|j: int| 0 <= j < i ==> set@[j] != c,
        decreases set@.len() - i,
    {
        if set[i] == c {
            assert(set@[i as int] == c);
            return true;
        }
        i = i + 1;
    }
    false
}

/// Index of the first character of `s` that belongs to `set`, or `s.len()`
/// (`str::find` with a set of characters, counted in characters).
pub open spec fn index_of_any(s: Seq<char>, set: Seq<char>) -> nat
    decreases s.len(),
{
    if s.len() == 0 || set.contains(s[0]) {
        0
    } else {
        1 + index_of_any(s.drop_first(), set)
    }
}

/// Position of the first character of `v` that belongs to `set`, or its length.
pub fn find_any(v: &Vec<char>, set: &Vec<char>) -> (r: usize)
    ensures
        r == index_of_any(v@, set@),
        r <= v@.len(),
{
    let mut i: usize = 0;
    assert(v@.skip(0) =~= v@);
    loop
        invariant
            i <= v@.len(),
            index_of_any(v@, set@) == i + index_of_any(v@.skip(i as int), set@),
        decreases v@.len() - i,
    {
        if i == v.len() || contains_char(set, v[i]) {
            return i;
        }
        assert(v@.skip(i as int).drop_first() =~= v@.skip(i + 1));
        i = i + 1;
    }
}

/// The character sequence of an optional string.
pub open spec fn opt_view(o: Option<String>) -> Option<Seq<char>> {
    match o {
        Some(s) => Some(s@),
        None => None,
    }
}

/// The first position at which `p` occurs in `s` (meaningful when it does).
pub open spec fn first_index(s: Seq<char>, p: Seq<char>) -> int {
    choose|i: int| first_at(s, p, i)
}

/// A first occurrence is the first occurrence.
pub proof fn lemma_first_index(s: Seq<char>, p: Seq<char>, i: int)
    requires
        first_at(s, p, i),
    ensures
        first_index(s, p) == i,
        contains(s, p),
{
    let j = first_index(s, p);
    assert(first_at(s, p, j));
    if j < i {
        assert(!occurs_at(s, p, j));
    } else if i < j {
        assert(!occurs_at(s, p, i));
    }
}

/// The text that a byte string encodes in UTF-8 (`None` when the bytes are
/// not well-formed UTF-8).
pub open spec fn utf8_text(b: Seq<u8>) -> Option<Seq<char>> {
    if valid_utf8(b) {
        Some(decode_utf8(b))
    } else {
        None
    }
}

/// `std::str::from_utf8`: `Ok` exactly when the bytes are well-formed
/// UTF-8, with the characters they encode.
#[verifier::external_body]
pub(crate) fn text_from_utf8(b: &[u8]) -> (r: Option<String>)
    ensures
        r is Some <==> valid_utf8(b@),
        r matches Some(s) ==> s@ == decode_utf8(b@),
{
    match std::str::from_utf8(b) {
        Ok(s) => Some(s.to_string()),
        Err(_) => None,
    }
}

} // verus!
