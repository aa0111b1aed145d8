//! Canonical literal text for each value variant, and the proof that
//! re-parsing rendered text through the value grammar yields the value back.

use vstd::prelude::*;
use crate::expr::digit_of;
use crate::expr::digits_val;
use crate::expr::in_i64;
use crate::expr::den_ok;
use crate::expr::spec_literal;
use crate::expr::spec_expr;
use crate::lex::digit_pred;
use crate::lex::hspace_pred;
use crate::lex::key_pred;
use crate::lex::is_lower;
use crate::lex::is_digit;
use crate::lex::is_hspace;
use crate::lex::is_ticker_char;
use crate::lex::is_upper;
use crate::lex::lemma_run_count_exact;
use crate::lex::spec_string_body;
use crate::lex::spec_currency_token;
use crate::lex::ticker_pred;
use crate::lex::unescape_char;
use crate::metadata::spec_entry;
use crate::metadata::spec_value;
use crate::metadata::wf_key;
use crate::value::Currency;
use crate::value::SpecValue;
use crate::value::Value;
use crate::value::wf_spec_value;
use crate::value::wf_ticker;

verus! {

// ---------------------------------------------------------------------------
// Rendering, at the specification level
// ---------------------------------------------------------------------------

/// The digit character for a value between 0 and 9.
pub open spec fn digit_char_of(d: int) -> char {
    if d == 0 {
        '0'
    } else if d == 1 {
        '1'
    } else if d == 2 {
        '2'
    } else if d == 3 {
        '3'
    } else if d == 4 {
        '4'
    } else if d == 5 {
        '5'
    } else if d == 6 {
        '6'
    } else if d == 7 {
        '7'
    } else if d == 8 {
        '8'
    } else {
        '9'
    }
}

/// Decimal digits of a nonnegative value, most significant first.
pub open spec fn nat_digits(n: int) -> Seq<char>
    decreases n,
{
    if n < 10 {
        seq![digit_char_of(n)]
    } else {
        nat_digits(n / 10) + seq![digit_char_of(n % 10)]
    }
}

/// Decimal digits of a value, with a leading minus sign when negative.
pub open spec fn int_digits(n: int) -> Seq<char> {
    if n < 0 {
        seq!['-'] + nat_digits(-n)
    } else {
        nat_digits(n)
    }
}

/// Canonical text of a number: the numerator alone for a whole value, else
/// numerator and denominator joined by a spaced division sign.
pub open spec fn render_number(num: int, den: int) -> Seq<char> {
    if den == 1 {
        int_digits(num)
    } else {
        int_digits(num) + seq![' ', '/', ' '] + int_digits(den)
    }
}

/// The escape sequence a character is written as inside a string literal.
pub open spec fn esc_char(c: char) -> Seq<char> {
    if c == '"' {
        seq!['\\', '"']
    } else if c == '\\' {
        seq!['\\', '\\']
    } else if c == '\n' {
        seq!['\\', 'n']
    } else if c == '\t' {
        seq!['\\', 't']
    } else {
        seq![c]
    }
}

/// The escaped body of a string literal.
pub open spec fn escape_seq(t: Seq<char>) -> Seq<char>
    decreases t.len(),
{
    if t.len() == 0 {
        Seq::empty()
    } else {
        esc_char(t[0]) + escape_seq(t.drop_first())
    }
}

/// Canonical text of a string value: quoted, with escapes.
pub open spec fn render_string(t: Seq<char>) -> Seq<char> {
    seq!['"'] + escape_seq(t) + seq!['"']
}

/// Canonical literal text of a value.
pub open spec fn render_value(v: SpecValue) -> Seq<char> {
    match v {
        SpecValue::String(t) => render_string(t),
        SpecValue::Number(num, den) => render_number(num, den),
        SpecValue::Currency(t) => t,
    }
}

// ---------------------------------------------------------------------------
// Rendering, executable
// ---------------------------------------------------------------------------

fn digit_char_exec(d: u64) -> (r: char)
    requires
        d <= 9,
    ensures
        r == digit_char_of(d as int),
{
    if d == 0 {
        '0'
    } else if d == 1 {
        '1'
    } else if d == 2 {
        '2'
    } else if d == 3 {
        '3'
    } else if d == 4 {
        '4'
    } else if d == 5 {
        '5'
    } else if d == 6 {
        '6'
    } else if d == 7 {
        '7'
    } else if d == 8 {
        '8'
    } else {
        '9'
    }
}

fn push_nat_digits(out: &mut Vec<char>, n: u64)
    ensures
        final(out)@ == old(out)@ + nat_digits(n as int),
    decreases n,
{
    if n < 10 {
        let c = digit_char_exec(n);
        out.push(c);
        proof {
            assert(out@ =~= old(out)@ + nat_digits(n as int));
        }
    } else {
        push_nat_digits(out, n / 10);
        let c = digit_char_exec(n % 10);
        out.push(c);
        proof {
            assert(out@ =~= old(out)@ + nat_digits(n as int));
        }
    }
}

fn push_int_digits(out: &mut Vec<char>, n: i64)
    ensures
        final(out)@ == old(out)@ + int_digits(n as int),
{
    if n < 0 {
        out.push('-');
        let mag = (-(n as i128)) as u64;
        push_nat_digits(out, mag);
        proof {
            assert(out@ =~= old(out)@ + int_digits(n as int));
        }
    } else {
        push_nat_digits(out, n as u64);
    }
}

/// Renders a value to its canonical literal text.
pub fn render(v: &Value) -> (r: Vec<char>)
    requires
        v.wf(),
    ensures
        r@ == render_value(v@),
{
    match v {
        Value::String(t) => {
            let mut out: Vec<char> = Vec::new();
            out.push('"');
            let mut i: usize = 0;
            while i < t.len()
                invariant
                    i <= t.len(),
                    out@ == seq!['"'] + escape_seq(t@.take(i as int)),
                decreases t.len() - i,
            {
                let c = t[i];
                if c == '"' {
                    out.push('\\');
                    out.push('"');
                } else if c == '\\' {
                    out.push('\\');
                    out.push('\\');
                } else if c == '\n' {
                    out.push('\\');
                    out.push('n');
                } else if c == '\t' {
                    out.push('\\');
                    out.push('t');
                } else {
                    out.push(c);
                }
                proof {
                    lemma_escape_push(t@.take(i as int), t@[i as int]);
                    assert(t@.take(i as int).push(t@[i as int]) =~= t@.take(i + 1));
                    assert(out@ =~= seq!['"'] + escape_seq(t@.take(i + 1)));
                }
                i = i + 1;
            }
            out.push('"');
            proof {
                assert(t@.take(t@.len() as int) =~= t@);
                assert(out@ =~= render_string(t@));
            }
            out
        },
        Value::Number(d) => {
            let mut out: Vec<char> = Vec::new();
            if d.den == 1 {
                push_int_digits(&mut out, d.num);
                proof {
                    assert(out@ =~= render_number(d.num as int, d.den as int));
                }
            } else {
                push_int_digits(&mut out, d.num);
                out.push(' ');
                out.push('/');
                out.push(' ');
                push_int_digits(&mut out, d.den);
                proof {
                    assert(out@ =~= render_number(d.num as int, d.den as int));
                }
            }
            out
        },
        Value::Currency(c) => {
            let chars = c.chars();
            let out = crate::lex::copy_range(chars, 0, chars.len());
            proof {
                assert(out@ =~= c@);
            }
            out
        },
    }
}

/// Escaping one more character appends that character's escape sequence.
proof fn lemma_escape_push(t: Seq<char>, c: char)
    ensures
        escape_seq(t.push(c)) == escape_seq(t) + esc_char(c),
    decreases t.len(),
{
    let w = t.push(c);
    if t.len() == 0 {
        assert(w[0] == c);
        assert(w.drop_first() =~= Seq::<char>::empty());
        assert(escape_seq(w.drop_first()) =~= Seq::<char>::empty());
        assert(escape_seq(w) == esc_char(c) + escape_seq(w.drop_first()));
        assert(escape_seq(w) =~= escape_seq(t) + esc_char(c));
    } else {
        assert(w.drop_first() =~= t.drop_first().push(c));
        lemma_escape_push(t.drop_first(), c);
        assert(escape_seq(w) =~= escape_seq(t) + esc_char(c));
    }
}

// ---------------------------------------------------------------------------
// Round trip: parsing rendered text yields the value back
// ---------------------------------------------------------------------------

/// Digits of a nonnegative value are digits and denote the value.
proof fn lemma_nat_digits_props(n: int)
    requires
        n >= 0,
    ensures
        nat_digits(n).len() >= 1,
        forall|i: int| 0 <= i < nat_digits(n).len() ==> is_digit(#[trigger] nat_digits(n)[i]),
        digits_val(nat_digits(n)) == n,
    decreases n,
{
    assert(digits_val(Seq::<char>::empty()) == 0);
    if n < 10 {
        assert(is_digit(digit_char_of(n)));
        assert(nat_digits(n) == seq![digit_char_of(n)]);
        assert(nat_digits(n).last() == digit_char_of(n));
        assert(nat_digits(n).drop_last() =~= Seq::<char>::empty());
        assert(digits_val(nat_digits(n)) == digits_val(nat_digits(n).drop_last()) * 10
            + digit_of(nat_digits(n).last()));
        assert(digit_of(digit_char_of(n)) == n);
        assert(forall|i: int|
            0 <= i < nat_digits(n).len() ==> #[trigger] nat_digits(n)[i] == digit_char_of(n));
    } else {
        lemma_nat_digits_props(n / 10);
        let d = nat_digits(n);
        assert(d.drop_last() =~= nat_digits(n / 10));
        assert(d.last() == digit_char_of(n % 10));
        assert(is_digit(digit_char_of(n % 10)));
        assert(digit_of(digit_char_of(n % 10)) == n % 10);
        vstd::arithmetic::div_mod::lemma_fundamental_div_mod(n, 10);
        assert(digits_val(d) == (n / 10) * 10 + n % 10);
        assert forall|i: int| 0 <= i < d.len() implies is_digit(#[trigger] d[i]) by {
            if i < d.len() - 1 {
                assert(d[i] == nat_digits(n / 10)[i]);
            } else {
                assert(d[i] == digit_char_of(n % 10));
            }
        }
    }
}

/// An embedded maximal digit run determines the run count and its value.
proof fn lemma_digits_embed(s: Seq<char>, pos: int, d: Seq<char>)
    requires
        0 <= pos,
        pos + d.len() <= s.len(),
        forall|i: int| 0 <= i < d.len() ==> s[pos + i] == #[trigger] d[i],
        forall|i: int| 0 <= i < d.len() ==> is_digit(#[trigger] d[i]),
        pos + d.len() == s.len() || !is_digit(s[pos + d.len()]),
    ensures
        crate::lex::digit_count(s, pos) == d.len(),
        digits_val(s.subrange(pos, pos + d.len())) == digits_val(d),
{
    assert forall|i: int| pos <= i < pos + d.len() implies digit_pred()(#[trigger] s[i]) by {
        assert(s[i] == d[i - pos]);
    }
    lemma_run_count_exact(s, pos, digit_pred(), d.len() as int);
    assert(s.subrange(pos, pos + d.len()) =~= d);
}

/// An embedded rendered integer, ended by anything that cannot extend a
/// numeric literal, parses as a whole literal denoting that integer.
proof fn lemma_literal_embed(s: Seq<char>, pos: int, num: int)
    requires
        in_i64(num),
        0 <= pos,
        pos + int_digits(num).len() <= s.len(),
        forall|i: int|
            0 <= i < int_digits(num).len() ==> s[pos + i] == #[trigger] int_digits(num)[i],
        pos + int_digits(num).len() == s.len() || (!is_digit(s[pos + int_digits(num).len()])
            && s[pos + int_digits(num).len()] != '.'),
    ensures
        spec_literal(s, pos) == Some(((int_digits(num).len()) as nat, (num, 1int))),
{
    let l = int_digits(num);
    if num < 0 {
        let d = nat_digits(-num);
        lemma_nat_digits_props(-num);
        assert(l[0] == '-');
        assert(s[pos] == '-');
        assert forall|i: int| 0 <= i < d.len() implies s[pos + 1 + i] == #[trigger] d[i] by {
            assert(l[1 + i] == d[i]);
        }
        lemma_digits_embed(s, pos + 1, d);
    } else {
        let d = nat_digits(num);
        lemma_nat_digits_props(num);
        assert(s[pos] == d[0]);
        assert(is_digit(d[0]));
        assert(s[pos] != '-' && s[pos] != '+');
        lemma_digits_embed(s, pos, d);
    }
}

/// The escaped body of a string, followed by a closing quote, parses back to
/// the unescaped text.
proof fn lemma_string_body_embed(s: Seq<char>, pos: int, t: Seq<char>)
    requires
        0 <= pos,
        pos + escape_seq(t).len() < s.len(),
        forall|i: int|
            0 <= i < escape_seq(t).len() ==> s[pos + i] == #[trigger] escape_seq(t)[i],
        s[pos + escape_seq(t).len()] == '"',
    ensures
        spec_string_body(s, pos) == Some(((escape_seq(t).len() + 1) as nat, t)),
    decreases t.len(),
{
    let e = escape_seq(t);
    if t.len() == 0 {
        assert(s[pos] == '"');
    } else {
        let c = t[0];
        let rest = t.drop_first();
        let erest = escape_seq(rest);
        assert(e == esc_char(c) + erest);
        if c == '"' || c == '\\' || c == '\n' || c == '\t' {
            let ec: char = if c == '"' {
                '"'
            } else if c == '\\' {
                '\\'
            } else if c == '\n' {
                'n'
            } else {
                't'
            };
            assert(e[0] == '\\' && e[1] == ec);
            assert(s[pos] == '\\');
            assert(s[pos + 1] == ec);
            assert(unescape_char(ec) == c);
            assert forall|i: int| 0 <= i < erest.len() implies s[pos + 2 + i] == #[trigger] erest[i] by {
                assert(e[2 + i] == erest[i]);
            }
            lemma_string_body_embed(s, pos + 2, rest);
            assert(seq![unescape_char(s[pos + 1])] + rest =~= t);
        } else {
            assert(e[0] == c);
            assert(s[pos] == c);
            assert forall|i: int| 0 <= i < erest.len() implies s[pos + 1 + i] == #[trigger] erest[i] by {
                assert(e[1 + i] == erest[i]);
            }
            lemma_string_body_embed(s, pos + 1, rest);
            assert(seq![s[pos]] + rest =~= t);
        }
    }
}

/// A rendered string value embedded at `pos` parses back through the value
/// grammar, whatever follows its closing quote.
proof fn lemma_string_embed(s: Seq<char>, pos: int, t: Seq<char>)
    requires
        0 <= pos,
        pos + render_string(t).len() <= s.len(),
        forall|i: int|
            0 <= i < render_string(t).len() ==> s[pos + i] == #[trigger] render_string(t)[i],
    ensures
        spec_value(s, pos) == Some(((render_string(t).len()) as nat, SpecValue::String(t))),
{
    let r = render_string(t);
    let e = escape_seq(t);
    assert(r[0] == '"');
    assert(s[pos] == '"');
    assert forall|i: int| 0 <= i < e.len() implies s[pos + 1 + i] == #[trigger] e[i] by {
        assert(r[1 + i] == e[i]);
    }
    assert(s[pos + 1 + e.len() as int] == '"') by {
        assert(r[1 + e.len() as int] == '"');
    }
    lemma_string_body_embed(s, pos + 1, t);
}

/// A rendered number embedded at `pos`, ended by a line break or the end of
/// the input, is no string literal, and the expression grammar reads it in
/// full.
#[verifier::rlimit(100)]
#[verifier::spinoff_prover]
proof fn lemma_number_embed(s: Seq<char>, pos: int, num: int, den: int)
    requires
        in_i64(num),
        den_ok(den),
        0 <= pos,
        pos + render_number(num, den).len() <= s.len(),
        forall|i: int|
            0 <= i < render_number(num, den).len() ==> s[pos + i] == #[trigger] render_number(
                num,
                den,
            )[i],
        pos + render_number(num, den).len() == s.len() || s[pos + render_number(num, den).len()]
            == '\n',
    ensures
        spec_value(s, pos) == Some(
            ((render_number(num, den).len()) as nat, SpecValue::Number(num, den)),
        ),
{
    let r = render_number(num, den);
    let a = int_digits(num);
    let end: int = pos + r.len();
    if num < 0 {
        lemma_nat_digits_props(-num);
        assert(a[0] == '-');
    } else {
        lemma_nat_digits_props(num);
        assert(is_digit(a[0]));
    }
    assert(crate::lex::hspace_count(s, end) == 0);
    if den == 1 {
        assert(s[pos] == a[0]) by {
            assert(r[0] == a[0]);
        }
        assert(s[pos] != '"' && s[pos] != '(');
        lemma_literal_embed(s, pos, num);
        assert(spec_expr(s, pos) == Some((a.len() as nat, (num, 1int))));
    } else {
        let b = int_digits(den);
        lemma_nat_digits_props(den);
        assert(is_digit(b[0]));
        let la = a.len() as int;
        let lb = b.len() as int;
        assert(r.len() == la + 3 + lb);
        assert forall|i: int| 0 <= i < la implies s[pos + i] == #[trigger] a[i] by {
            assert(r[i] == a[i]);
        }
        assert(s[pos] == a[0]);
        assert(s[pos] != '"' && s[pos] != '(');
        assert(s[pos + la] == ' ' && s[pos + la + 1] == '/' && s[pos + la + 2] == ' ') by {
            assert(r[la] == ' ' && r[la + 1] == '/' && r[la + 2] == ' ');
        }
        assert forall|i: int| 0 <= i < lb implies s[pos + la + 3 + i] == #[trigger] b[i] by {
            assert(r[la + 3 + i] == b[i]);
        }
        lemma_literal_embed(s, pos, num);
        // the spaced division sign and the denominator
        assert(!is_hspace('/'));
        lemma_run_count_exact(s, pos + la, hspace_pred(), 1);
        lemma_run_count_exact(s, pos + la + 2, hspace_pred(), 1);
        lemma_literal_embed(s, pos + la + 3, den);
        assert(num * 1 == num && 1 * den == den) by (nonlinear_arith);
        assert(crate::expr::spec_term_rest(s, end, (num, den)) == Some((0nat, (num, den))));
        assert(crate::expr::rat_div((num, 1int), (den, 1int)) == Some((num, den)));
        assert(crate::expr::spec_term_rest(s, pos + la, (num, 1int)) == Some(
            ((3 + lb) as nat, (num, den)),
        ));
        assert(crate::expr::spec_term(s, pos) == Some((r.len() as nat, (num, den))));
        assert(crate::expr::spec_expr_rest(s, end, (num, den)) == Some((0nat, (num, den))));
        assert(spec_expr(s, pos) == Some((r.len() as nat, (num, den))));
    }
}

/// A rendered ticker embedded at `pos`, ended by a line break or the end of
/// the input, is neither a string literal nor an expression, and the ticker
/// lexer reads it in full.
proof fn lemma_currency_embed(s: Seq<char>, pos: int, t: Seq<char>)
    requires
        wf_ticker(t),
        0 <= pos,
        pos + t.len() <= s.len(),
        forall|i: int| 0 <= i < t.len() ==> s[pos + i] == #[trigger] t[i],
        pos + t.len() == s.len() || s[pos + t.len()] == '\n',
    ensures
        spec_value(s, pos) == Some((t.len() as nat, SpecValue::Currency(t))),
{
    assert(s[pos] == t[0]);
    assert(is_upper(s[pos]));
    assert(s[pos] != '"' && s[pos] != '(' && s[pos] != '-' && s[pos] != '+');
    assert(!is_digit(s[pos]));
    lemma_run_count_exact(s, pos, digit_pred(), 0);
    assert forall|i: int| pos + 1 <= i < pos + t.len() implies ticker_pred()(
        #[trigger] s[i],
    ) by {
        assert(s[i] == t[i - pos]);
        assert(is_ticker_char(t[i - pos]));
    }
    lemma_run_count_exact(s, pos + 1, ticker_pred(), t.len() - 1);
    assert(spec_currency_token(s, pos) == Some(
        (t.len() as nat, s.subrange(pos, pos + t.len())),
    ));
    assert(s.subrange(pos, pos + t.len()) =~= t);
}

/// A rendered value embedded at `pos`, ended by a line break or the end of
/// the input, parses back through the value grammar.
proof fn lemma_value_embed(s: Seq<char>, pos: int, v: SpecValue)
    requires
        wf_spec_value(v),
        0 <= pos,
        pos + render_value(v).len() <= s.len(),
        forall|i: int|
            0 <= i < render_value(v).len() ==> s[pos + i] == #[trigger] render_value(v)[i],
        pos + render_value(v).len() == s.len() || s[pos + render_value(v).len()] == '\n',
    ensures
        spec_value(s, pos) == Some(((render_value(v).len()) as nat, v)),
{
    match v {
        SpecValue::String(t) => {
            lemma_string_embed(s, pos, t);
        },
        SpecValue::Number(num, den) => {
            lemma_number_embed(s, pos, num, den);
        },
        SpecValue::Currency(t) => {
            lemma_currency_embed(s, pos, t);
        },
    }
}

/// Round trip, value level: rendering any well-formed value to its canonical
/// literal text and re-parsing that text through the value grammar yields
/// the value back, with the whole text consumed.
pub proof fn lemma_render_round_trip(v: SpecValue)
    requires
        wf_spec_value(v),
    ensures
        spec_value(render_value(v), 0) == Some(((render_value(v).len()) as nat, v)),
{
    lemma_value_embed(render_value(v), 0, v);
}

/// Round trip, entry level: a synthetic indented line binding a well-formed
/// key to a value's canonical literal text parses as one entry yielding
/// that key and an equal value, with the whole line consumed.
#[verifier::rlimit(100)]
#[verifier::spinoff_prover]
pub proof fn lemma_entry_round_trip(key: Seq<char>, v: SpecValue)
    requires
        wf_key(key),
        wf_spec_value(v),
    ensures
        spec_entry(
            seq![' '] + key + seq![':', ' '] + render_value(v) + seq!['\n'],
            0,
        ) == Some(
            ((key.len() + render_value(v).len() + 4) as nat,
            key,
            v),
        ),
{
    let r = render_value(v);
    let line = seq![' '] + key + seq![':', ' '] + r + seq!['\n'];
    let kl = key.len() as int;
    let rl = r.len() as int;
    assert(line.len() == kl + rl + 4);
    assert(line[0] == ' ');
    assert forall|i: int| 0 <= i < kl implies line[1 + i] == #[trigger] key[i] by {}
    assert(line[1 + kl] == ':' && line[2 + kl] == ' ');
    assert forall|i: int| 0 <= i < rl implies line[3 + kl + i] == #[trigger] r[i] by {}
    assert(line[3 + kl + rl] == '\n');
    // the indent: one space, then the key's lowercase letter
    assert(is_lower(line[1]));
    assert(!is_hspace(line[1]));
    lemma_run_count_exact(line, 0, hspace_pred(), 1);
    // the key: its tail characters, ended by the colon
    assert forall|i: int| 2 <= i < 1 + kl implies key_pred()(#[trigger] line[i]) by {
        assert(line[i] == key[i - 1]);
    }
    assert(!crate::lex::is_key_char(':'));
    lemma_run_count_exact(line, 2, key_pred(), kl - 1);
    assert(line.subrange(1, 1 + kl) =~= key);
    // one space after the colon, then the value's first character
    match v {
        SpecValue::String(t) => {
            assert(line[3 + kl] == r[0]);
            assert(r[0] == '"');
        },
        SpecValue::Number(num, den) => {
            if num < 0 {
                lemma_nat_digits_props(-num);
                assert(r[0] == '-');
            } else {
                lemma_nat_digits_props(num);
                assert(is_digit(r[0]));
            }
            assert(line[3 + kl] == r[0]);
        },
        SpecValue::Currency(t) => {
            assert(line[3 + kl] == r[0]);
            assert(is_upper(r[0]));
        },
    }
    assert(!is_hspace(line[3 + kl]));
    lemma_run_count_exact(line, 2 + kl, hspace_pred(), 1);
    // the value itself, then the line terminator
    lemma_value_embed(line, 3 + kl, v);
    assert(crate::lex::hspace_count(line, 3 + kl + rl) == 0);
    assert(crate::lex::spec_eol(line, 3 + kl + rl) == Some(1nat));
}

} // verus!
