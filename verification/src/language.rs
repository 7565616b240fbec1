//! AL language vocabulary: the object-type keywords that open an AL
//! object, the reserved words of the language, and how a source file names
//! its object type.

use vstd::prelude::*;

use crate::text::{
    ascii_lower_seq, chars_of, is_ws, lines_of, starts_with, trim, ascii_lower_vec, vec_eq,
    lines_vec, seqs_of, trim_vec, vec_starts_with, char_is_ws,
};

verus! {

/// Number of AL object-type keywords.
pub const OBJECT_KEYWORD_COUNT: usize = 21;

/// The `i`-th AL object-type keyword, in lowercase.
pub open spec fn object_keyword_name(i: int) -> Seq<char> {
    if i == 0 {
        "table"@
    } else if i == 1 {
        "tableextension"@
    } else if i == 2 {
        "page"@
    } else if i == 3 {
        "pageextension"@
    } else if i == 4 {
        "pagecustomization"@
    } else if i == 5 {
        "report"@
    } else if i == 6 {
        "reportextension"@
    } else if i == 7 {
        "requestpage"@
    } else if i == 8 {
        "codeunit"@
    } else if i == 9 {
        "query"@
    } else if i == 10 {
        "xmlport"@
    } else if i == 11 {
        "enum"@
    } else if i == 12 {
        "enumextension"@
    } else if i == 13 {
        "interface"@
    } else if i == 14 {
        "permissionset"@
    } else if i == 15 {
        "permissionsetextension"@
    } else if i == 16 {
        "profile"@
    } else if i == 17 {
        "profileextension"@
    } else if i == 18 {
        "controladdin"@
    } else if i == 19 {
        "entitlement"@
    } else if i == 20 {
        "dotnet"@
    } else {
        Seq::empty()
    }
}

/// `t` is an AL object-type keyword (in lowercase).
pub open spec fn is_object_keyword(t: Seq<char>) -> bool {
    exists|i: int| 0 <= i < OBJECT_KEYWORD_COUNT && #[trigger] object_keyword_name(i) == t
}

fn object_keyword_str(i: usize) -> (r: &'static str)
    requires
        i < OBJECT_KEYWORD_COUNT,
    ensures
        r@ == object_keyword_name(i as int),
{
    match i {
        0 => "table",
        1 => "tableextension",
        2 => "page",
        3 => "pageextension",
        4 => "pagecustomization",
        5 => "report",
        6 => "reportextension",
        7 => "requestpage",
        8 => "codeunit",
        9 => "query",
        10 => "xmlport",
        11 => "enum",
        12 => "enumextension",
        13 => "interface",
        14 => "permissionset",
        15 => "permissionsetextension",
        16 => "profile",
        17 => "profileextension",
        18 => "controladdin",
        19 => "entitlement",
        20 => "dotnet",
        _ => "dotnet",
    }
}

/// The object type a token names (ASCII case-insensitively), as its
/// canonical lowercase keyword.
pub open spec fn object_keyword_of(token: Seq<char>) -> Option<Seq<char>> {
    if is_object_keyword(ascii_lower_seq(token)) {
        Some(ascii_lower_seq(token))
    } else {
        None
    }
}

/// Looks a token up among the AL object-type keywords.
pub fn object_type_by_keyword(token: &Vec<char>) -> (r: Option<&'static str>)
    ensures
        r matches Some(k) ==> object_keyword_of(token@) == Some(k@),
        r is None ==> object_keyword_of(token@) is None,
{
    let lower = ascii_lower_vec(token);
    let mut i: usize = 0;
    while i < OBJECT_KEYWORD_COUNT
        invariant
            i <= OBJECT_KEYWORD_COUNT,
            lower@ == ascii_lower_seq(token@),
            forall|j: int| 0 <= j < i ==> object_keyword_name(j) != lower@,
        decreases OBJECT_KEYWORD_COUNT - i,
    {
        let k = object_keyword_str(i);
        if vec_eq(&lower, &chars_of(k)) {
            return Some(k);
        }
        i = i + 1;
    }
    None
}

/// Number of AL reserved words.
pub const KEYWORD_COUNT: usize = 38;

/// The `i`-th AL reserved word, in lowercase.
pub open spec fn keyword_name(i: int) -> Seq<char> {
    if i == 0 {
        "and"@
    } else if i == 1 {
        "array"@
    } else if i == 2 {
        "asserterror"@
    } else if i == 3 {
        "begin"@
    } else if i == 4 {
        "break"@
    } else if i == 5 {
        "case"@
    } else if i == 6 {
        "continue"@
    } else if i == 7 {
        "div"@
    } else if i == 8 {
        "do"@
    } else if i == 9 {
        "downto"@
    } else if i == 10 {
        "else"@
    } else if i == 11 {
        "end"@
    } else if i == 12 {
        "event"@
    } else if i == 13 {
        "exit"@
    } else if i == 14 {
        "false"@
    } else if i == 15 {
        "for"@
    } else if i == 16 {
        "foreach"@
    } else if i == 17 {
        "function"@
    } else if i == 18 {
        "if"@
    } else if i == 19 {
        "in"@
    } else if i == 20 {
        "internal"@
    } else if i == 21 {
        "local"@
    } else if i == 22 {
        "mod"@
    } else if i == 23 {
        "not"@
    } else if i == 24 {
        "of"@
    } else if i == 25 {
        "or"@
    } else if i == 26 {
        "procedure"@
    } else if i == 27 {
        "protected"@
    } else if i == 28 {
        "repeat"@
    } else if i == 29 {
        "then"@
    } else if i == 30 {
        "to"@
    } else if i == 31 {
        "trigger"@
    } else if i == 32 {
        "true"@
    } else if i == 33 {
        "until"@
    } else if i == 34 {
        "var"@
    } else if i == 35 {
        "while"@
    } else if i == 36 {
        "with"@
    } else if i == 37 {
        "xor"@
    } else {
        Seq::empty()
    }
}

/// `w` is an AL reserved word (compared as given: callers lowercase first).
pub open spec fn is_keyword_spec(w: Seq<char>) -> bool {
    exists|i: int| 0 <= i < KEYWORD_COUNT && #[trigger] keyword_name(i) == w
}

fn keyword_str(i: usize) -> (r: &'static str)
    requires
        i < KEYWORD_COUNT,
    ensures
        r@ == keyword_name(i as int),
{
    match i {
        0 => "and",
        1 => "array",
        2 => "asserterror",
        3 => "begin",
        4 => "break",
        5 => "case",
        6 => "continue",
        7 => "div",
        8 => "do",
        9 => "downto",
        10 => "else",
        11 => "end",
        12 => "event",
        13 => "exit",
        14 => "false",
        15 => "for",
        16 => "foreach",
        17 => "function",
        18 => "if",
        19 => "in",
        20 => "internal",
        21 => "local",
        22 => "mod",
        23 => "not",
        24 => "of",
        25 => "or",
        26 => "procedure",
        27 => "protected",
        28 => "repeat",
        29 => "then",
        30 => "to",
        31 => "trigger",
        32 => "true",
        33 => "until",
        34 => "var",
        35 => "while",
        36 => "with",
        37 => "xor",
        _ => "xor",
    }
}

/// Whether `w` is an AL reserved word.
pub fn is_keyword(w: &Vec<char>) -> (b: bool)
    ensures
        b == is_keyword_spec(w@),
{
    let mut i: usize = 0;
    while i < KEYWORD_COUNT
        invariant
            i <= KEYWORD_COUNT,
            forall|j: int| 0 <= j < i ==> keyword_name(j) != w@,
        decreases KEYWORD_COUNT - i,
    {
        if vec_eq(w, &chars_of(keyword_str(i))) {
            return true;
        }
        i = i + 1;
    }
    false
}

// ---------------------------------------------------------------------------
// The object a source file declares
// ---------------------------------------------------------------------------

/// The first line of `ls` that, trimmed, is neither empty nor a `//`
/// comment, trimmed.
pub open spec fn first_code_line(ls: Seq<Seq<char>>) -> Option<Seq<char>>
    decreases ls.len(),
{
    if ls.len() == 0 {
        None
    } else if trim(ls[0]).len() > 0 && !starts_with(trim(ls[0]), "//"@) {
        Some(trim(ls[0]))
    } else {
        first_code_line(ls.drop_first())
    }
}

/// Index of the first whitespace character of `s`, or its length.
pub open spec fn ws_index(s: Seq<char>) -> nat
    decreases s.len(),
{
    if s.len() == 0 {
        0
    } else if is_ws(s[0]) {
        0
    } else {
        1 + ws_index(s.drop_first())
    }
}

/// The first whitespace-delimited token of `s`.
pub open spec fn first_token(s: Seq<char>) -> Seq<char> {
    s.take(ws_index(s) as int)
}

/// The object-type keyword that starts the first code line of `source`.
pub open spec fn source_object_keyword(source: Seq<char>) -> Option<Seq<char>> {
    match first_code_line(lines_of(source)) {
        Some(l) => object_keyword_of(first_token(l)),
        None => None,
    }
}

proof fn lemma_ws_index(s: Seq<char>, n: int)
    requires
        0 <= n <= s.len(),
        forall|j: int| 0 <= j < n ==> !is_ws(s[j]),
        n == s.len() || is_ws(s[n]),
    ensures
        ws_index(s) == n,
    decreases n,
{
    if n > 0 {
        let t = s.drop_first();
        assert forall|j: int| 0 <= j < n - 1 implies !is_ws(t[j]) by {
            assert(t[j] == s[j + 1]);
        }
        if n - 1 < t.len() {
            assert(t[n - 1] == s[n]);
        }
        lemma_ws_index(t, n - 1);
    }
}

/// The first token of `s`.
pub fn first_token_of(s: &Vec<char>) -> (r: Vec<char>)
    ensures
        r@ == first_token(s@),
{
    let mut i: usize = 0;
    while i < s.len() && !char_is_ws(s[i])
        invariant
            i <= s@.len(),
            forall|j: int| 0 <= j < i ==> !is_ws(s@[j]),
        decreases s@.len() - i,
    {
        i = i + 1;
    }
    proof {
        lemma_ws_index(s@, i as int);
    }
    let r = crate::text::copy_range(s, 0, i);
    assert(r@ =~= s@.take(i as int));
    r
}

/// The first code line of `source` (see [`first_code_line`]).
pub fn first_code_line_of(source: &Vec<char>) -> (r: Option<Vec<char>>)
    ensures
        r matches Some(l) ==> first_code_line(lines_of(source@)) == Some(l@),
        r is None ==> first_code_line(lines_of(source@)) is None,
{
    let ls = lines_vec(source);
    let ghost all = seqs_of(ls@);
    let mut k: usize = 0;
    assert(all.skip(0) =~= all);
    while k < ls.len()
        invariant
            k <= ls@.len(),
            all == seqs_of(ls@),
            all == lines_of(source@),
            first_code_line(all) == first_code_line(all.skip(k as int)),
        decreases ls@.len() - k,
    {
        let t = trim_vec(&ls[k]);
        assert(all.skip(k as int)[0] == ls@[k as int]@);
        assert(all.skip(k as int).drop_first() =~= all.skip(k + 1));
        if t.len() > 0 && !vec_starts_with(&t, "//") {
            return Some(t);
        }
        k = k + 1;
    }
    None
}

/// The object-type keyword of the object `source` declares (see
/// [`source_object_keyword`]).
pub fn detect_object_keyword(source: &str) -> (r: Option<&'static str>)
    ensures
        r matches Some(k) ==> source_object_keyword(source@) == Some(k@),
        r is None ==> source_object_keyword(source@) is None,
{
    let v = chars_of(source);
    match first_code_line_of(&v) {
        Some(line) => {
            let token = first_token_of(&line);
            object_type_by_keyword(&token)
        },
        None => None,
    }
}

} // verus!
