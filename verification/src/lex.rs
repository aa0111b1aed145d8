//! Character classes and the line-level lexical primitives: horizontal
//! whitespace, character runs, the end-of-line and blank-line recognizers,
//! the quoted-string lexer and the currency-ticker lexer.

use vstd::prelude::*;

verus! {

// ---------------------------------------------------------------------------
// Character classes (ASCII)
// ---------------------------------------------------------------------------

/// Horizontal whitespace: the indent of a metadata line.
pub open spec fn is_hspace(c: char) -> bool {
    c == ' ' || c == '\t'
}

pub open spec fn is_lower(c: char) -> bool {
    97 <= c as u32 && c as u32 <= 122
}

pub open spec fn is_upper(c: char) -> bool {
    65 <= c as u32 && c as u32 <= 90
}

pub open spec fn is_digit(c: char) -> bool {
    48 <= c as u32 && c as u32 <= 57
}

/// Characters allowed in a key after its leading lowercase letter.
pub open spec fn is_key_char(c: char) -> bool {
    is_lower(c) || is_upper(c) || is_digit(c) || c == '-' || c == '_'
}

/// Characters allowed in a currency ticker after its leading uppercase letter.
pub open spec fn is_ticker_char(c: char) -> bool {
    is_upper(c) || is_digit(c)
}

/// Characters that may stand inside a trailing comment.
pub open spec fn is_comment_char(c: char) -> bool {
    c != '\n'
}

// ---------------------------------------------------------------------------
// Character runs
// ---------------------------------------------------------------------------

/// Length of the longest run of characters satisfying `pred` starting at `pos`.
pub open spec fn run_count(s: Seq<char>, pos: int, pred: spec_fn(char) -> bool) -> nat
    decreases s.len() - pos,
{
    if 0 <= pos && pos < s.len() && pred(s[pos]) {
        1 + run_count(s, pos + 1, pred)
    } else {
        0
    }
}

pub open spec fn hspace_pred() -> spec_fn(char) -> bool {
    |c: char| is_hspace(c)
}

pub open spec fn key_pred() -> spec_fn(char) -> bool {
    |c: char| is_key_char(c)
}

pub open spec fn digit_pred() -> spec_fn(char) -> bool {
    |c: char| is_digit(c)
}

pub open spec fn ticker_pred() -> spec_fn(char) -> bool {
    |c: char| is_ticker_char(c)
}

pub open spec fn comment_pred() -> spec_fn(char) -> bool {
    |c: char| is_comment_char(c)
}

pub open spec fn hspace_count(s: Seq<char>, pos: int) -> nat {
    run_count(s, pos, hspace_pred())
}

pub open spec fn key_count(s: Seq<char>, pos: int) -> nat {
    run_count(s, pos, key_pred())
}

pub open spec fn digit_count(s: Seq<char>, pos: int) -> nat {
    run_count(s, pos, digit_pred())
}

pub open spec fn ticker_count(s: Seq<char>, pos: int) -> nat {
    run_count(s, pos, ticker_pred())
}

pub open spec fn comment_count(s: Seq<char>, pos: int) -> nat {
    run_count(s, pos, comment_pred())
}

/// A run stays inside the input, consists of characters satisfying `pred`,
/// and is maximal: the character after it (if any) fails `pred`.
pub proof fn lemma_run_count_bounds(s: Seq<char>, pos: int, pred: spec_fn(char) -> bool)
    requires
        0 <= pos <= s.len(),
    ensures
        pos + run_count(s, pos, pred) <= s.len(),
        forall|i: int| pos <= i < pos + run_count(s, pos, pred) ==> pred(#[trigger] s[i]),
        pos + run_count(s, pos, pred) == s.len() || !pred(s[pos + run_count(s, pos, pred)]),
    decreases s.len() - pos,
{
    if pos < s.len() && pred(s[pos]) {
        lemma_run_count_bounds(s, pos + 1, pred);
    }
}

/// A maximal run of `pred` characters of length `k` starting at `pos`
/// determines `run_count` exactly.
pub proof fn lemma_run_count_exact(s: Seq<char>, pos: int, pred: spec_fn(char) -> bool, k: int)
    requires
        0 <= pos,
        0 <= k,
        pos + k <= s.len(),
        forall|i: int| pos <= i < pos + k ==> pred(#[trigger] s[i]),
        pos + k == s.len() || !pred(s[pos + k]),
    ensures
        run_count(s, pos, pred) == k,
    decreases k,
{
    if k > 0 {
        assert(pred(s[pos]));
        lemma_run_count_exact(s, pos + 1, pred, k - 1);
    }
}

// ---------------------------------------------------------------------------
// Executable character classes
// ---------------------------------------------------------------------------

pub fn hspace_char(c: char) -> (r: bool)
    ensures
        r == is_hspace(c),
{
    c == ' ' || c == '\t'
}

pub fn lower_char(c: char) -> (r: bool)
    ensures
        r == is_lower(c),
{
    let u = c as u32;
    97 <= u && u <= 122
}

pub fn upper_char(c: char) -> (r: bool)
    ensures
        r == is_upper(c),
{
    let u = c as u32;
    65 <= u && u <= 90
}

pub fn digit_char(c: char) -> (r: bool)
    ensures
        r == is_digit(c),
{
    let u = c as u32;
    48 <= u && u <= 57
}

pub fn key_char(c: char) -> (r: bool)
    ensures
        r == is_key_char(c),
{
    lower_char(c) || upper_char(c) || digit_char(c) || c == '-' || c == '_'
}

pub fn ticker_char(c: char) -> (r: bool)
    ensures
        r == is_ticker_char(c),
{
    upper_char(c) || digit_char(c)
}

// ---------------------------------------------------------------------------
// Executable run skippers
// ---------------------------------------------------------------------------

pub fn skip_hspace(s: &Vec<char>, pos: usize) -> (r: usize)
    requires
        pos <= s.len(),
    ensures
        r as int == pos + hspace_count(s@, pos as int),
        r <= s.len(),
{
    let mut i = pos;
    loop
        invariant
            pos <= i <= s.len(),
            hspace_count(s@, pos as int) == (i - pos) + hspace_count(s@, i as int),
        ensures
            pos <= i <= s.len(),
            hspace_count(s@, pos as int) == i - pos,
        decreases s.len() - i,
    {
        if i < s.len() && hspace_char(s[i]) {
            i = i + 1;
        } else {
            break;
        }
    }
    i
}

pub fn skip_key_chars(s: &Vec<char>, pos: usize) -> (r: usize)
    requires
        pos <= s.len(),
    ensures
        r as int == pos + key_count(s@, pos as int),
        r <= s.len(),
{
    let mut i = pos;
    loop
        invariant
            pos <= i <= s.len(),
            key_count(s@, pos as int) == (i - pos) + key_count(s@, i as int),
        ensures
            pos <= i <= s.len(),
            key_count(s@, pos as int) == i - pos,
        decreases s.len() - i,
    {
        if i < s.len() && key_char(s[i]) {
            i = i + 1;
        } else {
            break;
        }
    }
    i
}

pub fn skip_digits(s: &Vec<char>, pos: usize) -> (r: usize)
    requires
        pos <= s.len(),
    ensures
        r as int == pos + digit_count(s@, pos as int),
        r <= s.len(),
{
    let mut i = pos;
    loop
        invariant
            pos <= i <= s.len(),
            digit_count(s@, pos as int) == (i - pos) + digit_count(s@, i as int),
        ensures
            pos <= i <= s.len(),
            digit_count(s@, pos as int) == i - pos,
        decreases s.len() - i,
    {
        if i < s.len() && digit_char(s[i]) {
            i = i + 1;
        } else {
            break;
        }
    }
    i
}

pub fn skip_ticker_chars(s: &Vec<char>, pos: usize) -> (r: usize)
    requires
        pos <= s.len(),
    ensures
        r as int == pos + ticker_count(s@, pos as int),
        r <= s.len(),
{
    let mut i = pos;
    loop
        invariant
            pos <= i <= s.len(),
            ticker_count(s@, pos as int) == (i - pos) + ticker_count(s@, i as int),
        ensures
            pos <= i <= s.len(),
            ticker_count(s@, pos as int) == i - pos,
        decreases s.len() - i,
    {
        if i < s.len() && ticker_char(s[i]) {
            i = i + 1;
        } else {
            break;
        }
    }
    i
}

pub fn skip_comment_chars(s: &Vec<char>, pos: usize) -> (r: usize)
    requires
        pos <= s.len(),
    ensures
        r as int == pos + comment_count(s@, pos as int),
        r <= s.len(),
{
    let mut i = pos;
    loop
        invariant
            pos <= i <= s.len(),
            comment_count(s@, pos as int) == (i - pos) + comment_count(s@, i as int),
        ensures
            pos <= i <= s.len(),
            comment_count(s@, pos as int) == i - pos,
        decreases s.len() - i,
    {
        if i < s.len() && s[i] != '\n' {
            i = i + 1;
        } else {
            break;
        }
    }
    i
}

/// Copy of `s[a..b]` as a fresh vector.
pub fn copy_range(s: &Vec<char>, a: usize, b: usize) -> (r: Vec<char>)
    requires
        a <= b <= s.len(),
    ensures
        r@ == s@.subrange(a as int, b as int),
{
    let mut out: Vec<char> = Vec::new();
    let mut i = a;
    while i < b
        invariant
            a <= i <= b <= s.len(),
            out@ == s@.subrange(a as int, i as int),
        decreases b - i,
    {
        out.push(s[i]);
        proof {
            assert(out@ =~= s@.subrange(a as int, (i + 1) as int));
        }
        i = i + 1;
    }
    out
}

// ---------------------------------------------------------------------------
// End-of-line and blank-line primitives
// ---------------------------------------------------------------------------

/// What the end-of-line primitive consumes at `pos`: optional horizontal
/// whitespace, an optional trailing comment, then the line terminator or the
/// end of the input.  `None` when other content stands before the terminator.
pub open spec fn spec_eol(s: Seq<char>, pos: int) -> Option<nat> {
    let c0 = hspace_count(s, pos);
    let j: int = pos + c0;
    let c1: nat = if j < s.len() && s[j] == ';' {
        1 + comment_count(s, j + 1)
    } else {
        0
    };
    let j2: int = j + c1;
    if j2 == s.len() {
        Some((c0 + c1) as nat)
    } else if s[j2] == '\n' {
        Some((c0 + c1 + 1) as nat)
    } else if s[j2] == '\r' && j2 + 1 < s.len() && s[j2 + 1] == '\n' {
        Some((c0 + c1 + 2) as nat)
    } else {
        None
    }
}

/// What the blank-line primitive consumes at `pos`: a whole line of only
/// whitespace and an optional comment.  Unlike `spec_eol` it never matches at
/// the end of the input, so a match always consumes at least one character.
pub open spec fn spec_blank(s: Seq<char>, pos: int) -> Option<nat> {
    if pos < s.len() {
        spec_eol(s, pos)
    } else {
        None
    }
}

pub proof fn lemma_eol_bounds(s: Seq<char>, pos: int)
    requires
        0 <= pos <= s.len(),
    ensures
        spec_eol(s, pos) matches Some(c) ==> pos + c <= s.len(),
        spec_blank(s, pos) matches Some(c) ==> 1 <= c && pos + c <= s.len(),
{
    lemma_run_count_bounds(s, pos, hspace_pred());
    let j: int = pos + hspace_count(s, pos);
    if j < s.len() && s[j] == ';' {
        lemma_run_count_bounds(s, j + 1, comment_pred());
        let j2: int = j + 1 + comment_count(s, j + 1);
        if j2 < s.len() {
            assert(is_comment_char(s[j2]) == comment_pred()(s[j2]));
        }
    }
}

/// End-of-line primitive: consumes the line terminator, and any horizontal
/// whitespace and trailing comment before it; succeeds without consuming at
/// the end of the input; fails if non-comment content follows.
pub fn end_of_line(s: &Vec<char>, pos: usize) -> (r: Option<usize>)
    requires
        pos <= s.len(),
    ensures
        match r {
            Some(c) => spec_eol(s@, pos as int) == Some(c as nat) && pos + c <= s.len(),
            None => spec_eol(s@, pos as int) is None,
        },
{
    proof {
        lemma_eol_bounds(s@, pos as int);
    }
    let j = skip_hspace(s, pos);
    let j2 = if j < s.len() && s[j] == ';' {
        skip_comment_chars(s, j + 1)
    } else {
        j
    };
    proof {
        lemma_run_count_bounds(s@, j as int, comment_pred());
    }
    if j2 == s.len() {
        Some(j2 - pos)
    } else if s[j2] == '\n' {
        Some(j2 + 1 - pos)
    } else if s[j2] == '\r' && j2 + 1 < s.len() && s[j2 + 1] == '\n' {
        Some(j2 + 2 - pos)
    } else {
        None
    }
}

/// Blank-line primitive: consumes a line of only optional whitespace plus an
/// optional trailing comment and its terminator; fails otherwise.
pub fn empty_line(s: &Vec<char>, pos: usize) -> (r: Option<usize>)
    requires
        pos <= s.len(),
    ensures
        match r {
            Some(c) => spec_blank(s@, pos as int) == Some(c as nat) && 1 <= c && pos + c
                <= s.len(),
            None => spec_blank(s@, pos as int) is None,
        },
{
    proof {
        lemma_eol_bounds(s@, pos as int);
    }
    if pos < s.len() {
        end_of_line(s, pos)
    } else {
        None
    }
}

// ---------------------------------------------------------------------------
// Quoted string literal
// ---------------------------------------------------------------------------

/// The character an escape sequence `\c` stands for.
pub open spec fn unescape_char(c: char) -> char {
    if c == 'n' {
        '\n'
    } else if c == 't' {
        '\t'
    } else {
        c
    }
}

/// The body of a string literal, after the opening quote: characters up to
/// the closing quote, with `\c` escapes replaced by the character they stand
/// for.  Fails on a raw line break or when no closing quote comes.
/// Returns the count of source characters consumed (closing quote included)
/// and the unescaped text.
pub open spec fn spec_string_body(s: Seq<char>, pos: int) -> Option<(nat, Seq<char>)>
    decreases s.len() - pos,
{
    if pos < 0 || pos >= s.len() {
        None
    } else if s[pos] == '"' {
        Some((1, Seq::empty()))
    } else if s[pos] == '\n' {
        None
    } else if s[pos] == '\\' {
        if pos + 1 < s.len() && s[pos + 1] != '\n' {
            match spec_string_body(s, pos + 2) {
                Some((c, t)) => Some(((2 + c) as nat, seq![unescape_char(s[pos + 1])] + t)),
                None => None,
            }
        } else {
            None
        }
    } else {
        match spec_string_body(s, pos + 1) {
            Some((c, t)) => Some(((1 + c) as nat, seq![s[pos]] + t)),
            None => None,
        }
    }
}

/// A whole string literal at `pos`: an opening quote, the escaped body, the
/// closing quote.  Returns characters consumed and the unescaped text.
pub open spec fn spec_string(s: Seq<char>, pos: int) -> Option<(nat, Seq<char>)> {
    if 0 <= pos && pos < s.len() && s[pos] == '"' {
        match spec_string_body(s, pos + 1) {
            Some((c, t)) => Some(((1 + c) as nat, t)),
            None => None,
        }
    } else {
        None
    }
}

pub proof fn lemma_string_body_bounds(s: Seq<char>, pos: int)
    requires
        0 <= pos <= s.len(),
    ensures
        spec_string_body(s, pos) matches Some(ct) ==> 1 <= ct.0 && pos + ct.0 <= s.len(),
    decreases s.len() - pos,
{
    if pos < s.len() {
        if s[pos] == '\\' {
            if pos + 1 < s.len() && s[pos + 1] != '\n' {
                lemma_string_body_bounds(s, pos + 2);
            }
        } else if s[pos] != '"' && s[pos] != '\n' {
            lemma_string_body_bounds(s, pos + 1);
        }
    }
}

fn unescape(c: char) -> (r: char)
    ensures
        r == unescape_char(c),
{
    if c == 'n' {
        '\n'
    } else if c == 't' {
        '\t'
    } else {
        c
    }
}

fn string_body(s: &Vec<char>, pos: usize) -> (r: Option<(usize, Vec<char>)>)
    requires
        pos <= s.len(),
    ensures
        match r {
            Some(ct) => spec_string_body(s@, pos as int) == Some((ct.0 as nat, ct.1@)) && pos
                + ct.0 <= s.len(),
            None => spec_string_body(s@, pos as int) is None,
        },
    decreases s.len() - pos,
{
    proof {
        lemma_string_body_bounds(s@, pos as int);
    }
    if pos >= s.len() {
        return None;
    }
    let c = s[pos];
    if c == '"' {
        Some((1, Vec::new()))
    } else if c == '\n' {
        None
    } else if c == '\\' {
        if pos + 1 < s.len() && s[pos + 1] != '\n' {
            match string_body(s, pos + 2) {
                Some((cnt, t)) => {
                    let mut t2 = t;
                    let e = unescape(s[pos + 1]);
                    t2.insert(0, e);
                    proof {
                        assert(t2@ =~= seq![unescape_char(s@[pos + 1])] + t@);
                    }
                    Some((2 + cnt, t2))
                },
                None => None,
            }
        } else {
            None
        }
    } else {
        match string_body(s, pos + 1) {
            Some((cnt, t)) => {
                let mut t2 = t;
                t2.insert(0, c);
                proof {
                    assert(t2@ =~= seq![s@[pos as int]] + t@);
                }
                Some((1 + cnt, t2))
            },
            None => None,
        }
    }
}

/// String-literal lexer: consumes a quoted, escape-aware literal and returns
/// the unescaped text; fails if no opening quote stands at `pos` or the
/// literal is unterminated on its line.
pub fn string_literal(s: &Vec<char>, pos: usize) -> (r: Option<(usize, Vec<char>)>)
    requires
        pos <= s.len(),
    ensures
        match r {
            Some(ct) => spec_string(s@, pos as int) == Some((ct.0 as nat, ct.1@)) && 2 <= ct.0
                && pos + ct.0 <= s.len(),
            None => spec_string(s@, pos as int) is None,
        },
{
    if pos < s.len() && s[pos] == '"' {
        proof {
            lemma_string_body_bounds(s@, pos + 1);
        }
        match string_body(s, pos + 1) {
            Some((cnt, t)) => Some((1 + cnt, t)),
            None => None,
        }
    } else {
        None
    }
}

// ---------------------------------------------------------------------------
// Currency ticker
// ---------------------------------------------------------------------------

/// A ticker token at `pos`: an uppercase letter, then uppercase letters and
/// digits.  Returns characters consumed and the token's text.
pub open spec fn spec_currency_token(s: Seq<char>, pos: int) -> Option<(nat, Seq<char>)> {
    if 0 <= pos && pos < s.len() && is_upper(s[pos]) {
        let c: nat = 1 + ticker_count(s, pos + 1);
        Some((c, s.subrange(pos, pos + c)))
    } else {
        None
    }
}

/// Currency-ticker lexer: consumes an uppercase-leading ticker token; fails
/// if the leading character is not an uppercase letter.
pub fn currency_token(s: &Vec<char>, pos: usize) -> (r: Option<(usize, Vec<char>)>)
    requires
        pos <= s.len(),
    ensures
        match r {
            Some(ct) => spec_currency_token(s@, pos as int) == Some((ct.0 as nat, ct.1@)) && 1
                <= ct.0 && pos + ct.0 <= s.len(),
            None => spec_currency_token(s@, pos as int) is None,
        },
{
    if pos < s.len() && upper_char(s[pos]) {
        proof {
            lemma_run_count_bounds(s@, pos + 1, ticker_pred());
        }
        let end = skip_ticker_chars(s, pos + 1);
        let text = copy_range(s, pos, end);
        Some((end - pos, text))
    } else {
        None
    }
}

} // verus!
