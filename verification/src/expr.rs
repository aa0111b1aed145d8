//! Decimal-expression parser: literals, the four arithmetic operators with
//! the usual precedence, and parentheses, evaluated exactly over fractions.
//!
//! Binary operators take at least one horizontal space on each side, so a
//! token such as `2023-05-27` is not read as a subtraction.  An evaluation
//! whose exact result leaves the `i64` range makes the whole expression fail.

use vstd::prelude::*;
use crate::lex::digit_count;
use crate::lex::digit_pred;
use crate::lex::hspace_count;
use crate::lex::is_digit;
use crate::lex::lemma_run_count_bounds;
use crate::lex::skip_digits;
use crate::lex::skip_hspace;
use crate::value::Decimal;

verus! {

/// Magnitude cap for a parsed number: `-cap` is `i64::MIN`.
pub const MAG_CAP: u64 = 9_223_372_036_854_775_808;

/// A numerator in range.
pub open spec fn in_i64(n: int) -> bool {
    i64::MIN <= n <= i64::MAX
}

/// A denominator in range: positive, so the sign lives in the numerator.
pub open spec fn den_ok(d: int) -> bool {
    1 <= d <= i64::MAX
}

// ---------------------------------------------------------------------------
// Exact rational arithmetic
// ---------------------------------------------------------------------------

/// Exact sum of two fractions; fails when it leaves the representable range.
pub open spec fn rat_add(a: (int, int), b: (int, int)) -> Option<(int, int)> {
    let n = a.0 * b.1 + b.0 * a.1;
    let d = a.1 * b.1;
    if in_i64(n) && den_ok(d) {
        Some((n, d))
    } else {
        None
    }
}

/// Exact difference of two fractions.
pub open spec fn rat_sub(a: (int, int), b: (int, int)) -> Option<(int, int)> {
    let n = a.0 * b.1 - b.0 * a.1;
    let d = a.1 * b.1;
    if in_i64(n) && den_ok(d) {
        Some((n, d))
    } else {
        None
    }
}

/// Exact product of two fractions.
pub open spec fn rat_mul(a: (int, int), b: (int, int)) -> Option<(int, int)> {
    let n = a.0 * b.0;
    let d = a.1 * b.1;
    if in_i64(n) && den_ok(d) {
        Some((n, d))
    } else {
        None
    }
}

/// Exact quotient of two fractions; fails on a zero divisor.  The result's
/// denominator is kept positive.
pub open spec fn rat_div(a: (int, int), b: (int, int)) -> Option<(int, int)> {
    if b.0 == 0 {
        None
    } else {
        let n = if b.0 < 0 {
            -(a.0 * b.1)
        } else {
            a.0 * b.1
        };
        let d = if b.0 < 0 {
            -(a.1 * b.0)
        } else {
            a.1 * b.0
        };
        if in_i64(n) && den_ok(d) {
            Some((n, d))
        } else {
            None
        }
    }
}

/// Bound on the product of two values whose magnitude is at most `2^63`.
proof fn lemma_prod_bound(x: int, y: int)
    requires
        -9223372036854775808 <= x <= 9223372036854775808,
        -9223372036854775808 <= y <= 9223372036854775808,
    ensures
        -85070591730234615865843651857942052864 <= x * y
            <= 85070591730234615865843651857942052864,
{
    assert(-85070591730234615865843651857942052864 <= x * y
        <= 85070591730234615865843651857942052864) by (nonlinear_arith)
        requires
            -9223372036854775808 <= x <= 9223372036854775808,
            -9223372036854775808 <= y <= 9223372036854775808,
    ;
}

/// Tighter bound for a numerator-denominator product: the denominator stays
/// under `2^63`, so two such products sum safely inside `i128`.
proof fn lemma_num_den_prod_bound(x: int, y: int)
    requires
        -9223372036854775808 <= x <= 9223372036854775807,
        1 <= y <= 9223372036854775807,
    ensures
        -85070591730234615856620279821087277056 <= x * y
            <= 85070591730234615856620279821087277056,
{
    assert(-85070591730234615856620279821087277056 <= x * y
        <= 85070591730234615856620279821087277056) by (nonlinear_arith)
        requires
            -9223372036854775808 <= x <= 9223372036854775807,
            1 <= y <= 9223372036854775807,
    ;
}

/// The product of two positive values is positive.
proof fn lemma_pos_prod(x: int, y: int)
    requires
        1 <= x,
        1 <= y,
    ensures
        1 <= x * y,
{
    assert(1 <= x * y) by (nonlinear_arith)
        requires
            1 <= x,
            1 <= y,
    ;
}

fn rat_add_exec(a: Decimal, b: Decimal) -> (r: Option<Decimal>)
    requires
        a.wf(),
        b.wf(),
    ensures
        match r {
            Some(c) => rat_add((a.num as int, a.den as int), (b.num as int, b.den as int))
                == Some((c.num as int, c.den as int)) && c.wf(),
            None => rat_add((a.num as int, a.den as int), (b.num as int, b.den as int)) is None,
        },
{
    proof {
        lemma_num_den_prod_bound(a.num as int, b.den as int);
        lemma_num_den_prod_bound(b.num as int, a.den as int);
        lemma_prod_bound(a.den as int, b.den as int);
        lemma_pos_prod(a.den as int, b.den as int);
    }
    let n = a.num as i128 * b.den as i128 + b.num as i128 * a.den as i128;
    let d = a.den as i128 * b.den as i128;
    if n < i64::MIN as i128 || n > i64::MAX as i128 || d > i64::MAX as i128 {
        None
    } else {
        Some(Decimal { num: n as i64, den: d as i64 })
    }
}

fn rat_sub_exec(a: Decimal, b: Decimal) -> (r: Option<Decimal>)
    requires
        a.wf(),
        b.wf(),
    ensures
        match r {
            Some(c) => rat_sub((a.num as int, a.den as int), (b.num as int, b.den as int))
                == Some((c.num as int, c.den as int)) && c.wf(),
            None => rat_sub((a.num as int, a.den as int), (b.num as int, b.den as int)) is None,
        },
{
    proof {
        lemma_num_den_prod_bound(a.num as int, b.den as int);
        lemma_num_den_prod_bound(b.num as int, a.den as int);
        lemma_prod_bound(a.den as int, b.den as int);
        lemma_pos_prod(a.den as int, b.den as int);
    }
    let n = a.num as i128 * b.den as i128 - b.num as i128 * a.den as i128;
    let d = a.den as i128 * b.den as i128;
    if n < i64::MIN as i128 || n > i64::MAX as i128 || d > i64::MAX as i128 {
        None
    } else {
        Some(Decimal { num: n as i64, den: d as i64 })
    }
}

fn rat_mul_exec(a: Decimal, b: Decimal) -> (r: Option<Decimal>)
    requires
        a.wf(),
        b.wf(),
    ensures
        match r {
            Some(c) => rat_mul((a.num as int, a.den as int), (b.num as int, b.den as int))
                == Some((c.num as int, c.den as int)) && c.wf(),
            None => rat_mul((a.num as int, a.den as int), (b.num as int, b.den as int)) is None,
        },
{
    proof {
        lemma_prod_bound(a.num as int, b.num as int);
        lemma_prod_bound(a.den as int, b.den as int);
        lemma_pos_prod(a.den as int, b.den as int);
    }
    let n = a.num as i128 * b.num as i128;
    let d = a.den as i128 * b.den as i128;
    if n < i64::MIN as i128 || n > i64::MAX as i128 || d > i64::MAX as i128 {
        None
    } else {
        Some(Decimal { num: n as i64, den: d as i64 })
    }
}

fn rat_div_exec(a: Decimal, b: Decimal) -> (r: Option<Decimal>)
    requires
        a.wf(),
        b.wf(),
    ensures
        match r {
            Some(c) => rat_div((a.num as int, a.den as int), (b.num as int, b.den as int))
                == Some((c.num as int, c.den as int)) && c.wf(),
            None => rat_div((a.num as int, a.den as int), (b.num as int, b.den as int)) is None,
        },
{
    if b.num == 0 {
        return None;
    }
    proof {
        lemma_prod_bound(a.num as int, b.den as int);
        lemma_prod_bound(a.den as int, b.num as int);
        if b.num >= 1 {
            lemma_pos_prod(a.den as int, b.num as int);
        } else {
            lemma_pos_prod(a.den as int, -(b.num as int));
            assert(a.den as int * -(b.num as int) == -(a.den as int * b.num as int))
                by (nonlinear_arith);
        }
    }
    let n0 = a.num as i128 * b.den as i128;
    let d0 = a.den as i128 * b.num as i128;
    let n = if b.num < 0 {
        -n0
    } else {
        n0
    };
    let d = if b.num < 0 {
        -d0
    } else {
        d0
    };
    if n < i64::MIN as i128 || n > i64::MAX as i128 || d > i64::MAX as i128 {
        None
    } else {
        Some(Decimal { num: n as i64, den: d as i64 })
    }
}

// ---------------------------------------------------------------------------
// Digit strings
// ---------------------------------------------------------------------------

pub open spec fn digit_of(c: char) -> int {
    c as u32 - 48
}

/// The value a digit string denotes, most significant digit first.
pub open spec fn digits_val(s: Seq<char>) -> int
    decreases s.len(),
{
    if s.len() == 0 {
        0
    } else {
        digits_val(s.drop_last()) * 10 + digit_of(s.last())
    }
}

pub open spec fn pow10(k: nat) -> int
    decreases k,
{
    if k == 0 {
        1
    } else {
        10 * pow10((k - 1) as nat)
    }
}

pub proof fn lemma_pow10_pos(k: nat)
    ensures
        pow10(k) >= 1,
    decreases k,
{
    if k > 0 {
        lemma_pow10_pos((k - 1) as nat);
    }
}

pub proof fn lemma_pow10_mono(a: nat, b: nat)
    requires
        a <= b,
    ensures
        pow10(a) <= pow10(b),
    decreases b,
{
    if a < b {
        lemma_pow10_mono(a, (b - 1) as nat);
        lemma_pow10_pos((b - 1) as nat);
    }
}

pub proof fn lemma_pow10_18()
    ensures
        pow10(18) == 1_000_000_000_000_000_000,
        pow10(19) == 10_000_000_000_000_000_000,
{
    reveal_with_fuel(pow10, 21);
}

/// A digit string's value is nonnegative and below `10^length`.
pub proof fn lemma_digits_val_bound(s: Seq<char>)
    requires
        forall|i: int| 0 <= i < s.len() ==> is_digit(#[trigger] s[i]),
    ensures
        0 <= digits_val(s) < pow10(s.len()),
    decreases s.len(),
{
    if s.len() > 0 {
        assert(forall|i: int|
            0 <= i < s.drop_last().len() ==> is_digit(#[trigger] s.drop_last()[i]));
        lemma_digits_val_bound(s.drop_last());
        assert(is_digit(s.last()));
    }
}

/// Computes the value of the digit run `s[from..to]`, or reports that it
/// exceeds the magnitude cap.
fn digits_value(s: &Vec<char>, from: usize, to: usize) -> (r: Option<u64>)
    requires
        from <= to <= s.len(),
        forall|i: int| from <= i < to ==> is_digit(#[trigger] s@[i]),
    ensures
        match r {
            Some(m) => m as int == digits_val(s@.subrange(from as int, to as int)) && m
                <= MAG_CAP,
            None => digits_val(s@.subrange(from as int, to as int)) > MAG_CAP,
        },
{
    let mut acc: u128 = 0;
    let mut over: bool = false;
    let mut i = from;
    while i < to
        invariant
            from <= i <= to <= s.len(),
            forall|j: int| from <= j < to ==> is_digit(#[trigger] s@[j]),
            !over ==> acc as int == digits_val(s@.subrange(from as int, i as int)) && acc
                <= MAG_CAP as u128,
            over ==> digits_val(s@.subrange(from as int, i as int)) > MAG_CAP,
        decreases to - i,
    {
        let c = s[i];
        let d = (c as u32 - 48) as u128;
        proof {
            assert(is_digit(s@[i as int]));
            let pre = s@.subrange(from as int, i as int);
            let post = s@.subrange(from as int, (i + 1) as int);
            assert(post.drop_last() =~= pre);
            assert(post.last() == s@[i as int]);
        }
        if !over {
            let next = acc * 10 + d;
            if next > MAG_CAP as u128 {
                over = true;
            } else {
                acc = next;
            }
        }
        i = i + 1;
    }
    if over {
        None
    } else {
        Some(acc as u64)
    }
}

// ---------------------------------------------------------------------------
// Numeric literals
// ---------------------------------------------------------------------------

/// A numeric literal at `pos`: an optional sign, digits, and an optional
/// fraction part after a dot.  `2.75` denotes the fraction `275 / 100`.
/// Fails when the denoted value leaves the representable range.
pub open spec fn spec_literal(s: Seq<char>, pos: int) -> Option<(nat, (int, int))> {
    let neg = 0 <= pos && pos < s.len() && s[pos] == '-';
    let plus = 0 <= pos && pos < s.len() && s[pos] == '+';
    let sc: nat = if neg || plus {
        1
    } else {
        0
    };
    let p: int = pos + sc;
    let d1 = digit_count(s, p);
    if d1 == 0 {
        None
    } else {
        let ip = digits_val(s.subrange(p, p + d1));
        let e1: int = p + d1;
        if e1 < s.len() && s[e1] == '.' && digit_count(s, e1 + 1) > 0 {
            let d2 = digit_count(s, e1 + 1);
            let fp = digits_val(s.subrange(e1 + 1, e1 + 1 + d2));
            let mag = ip * pow10(d2) + fp;
            let n = if neg {
                -mag
            } else {
                mag
            };
            if in_i64(n) && den_ok(pow10(d2)) {
                Some(((sc + d1 + 1 + d2) as nat, (n, pow10(d2))))
            } else {
                None
            }
        } else {
            let n = if neg {
                -ip
            } else {
                ip
            };
            if in_i64(n) {
                Some(((sc + d1) as nat, (n, 1)))
            } else {
                None
            }
        }
    }
}

fn pow10_exec(k: usize) -> (r: u64)
    requires
        k <= 18,
    ensures
        r as int == pow10(k as nat),
{
    proof {
        lemma_pow10_18();
    }
    let mut p: u64 = 1;
    let mut j: usize = 0;
    while j < k
        invariant
            j <= k <= 18,
            p as int == pow10(j as nat),
        decreases k - j,
    {
        proof {
            lemma_pow10_mono((j + 1) as nat, 18);
            lemma_pow10_pos(j as nat);
            lemma_pow10_18();
        }
        p = p * 10;
        j = j + 1;
    }
    p
}

/// Numeric-literal parser.
fn literal(s: &Vec<char>, pos: usize) -> (r: Option<(usize, Decimal)>)
    requires
        pos <= s.len(),
    ensures
        match r {
            Some(cd) => spec_literal(s@, pos as int) == Some(
                (cd.0 as nat, (cd.1.num as int, cd.1.den as int)),
            ) && pos + cd.0 <= s.len() && cd.1.wf(),
            None => spec_literal(s@, pos as int) is None,
        },
{
    let neg = pos < s.len() && s[pos] == '-';
    let plus = pos < s.len() && s[pos] == '+';
    let p = if neg || plus {
        pos + 1
    } else {
        pos
    };
    let e1 = skip_digits(s, p);
    if e1 == p {
        return None;
    }
    proof {
        lemma_run_count_bounds(s@, p as int, digit_pred());
        assert(forall|i: int| p <= i < e1 ==> is_digit(#[trigger] s@[i]));
    }
    let ip_opt = digits_value(s, p, e1);
    let ghost ip = digits_val(s@.subrange(p as int, e1 as int));
    proof {
        lemma_digits_val_bound(s@.subrange(p as int, e1 as int));
        lemma_pow10_pos((e1 - p) as nat);
    }
    let has_frac = e1 < s.len() && s[e1] == '.' && {
        let e = skip_digits(s, e1 + 1);
        e > e1 + 1
    };
    if has_frac {
        let e2 = skip_digits(s, e1 + 1);
        let d2 = e2 - (e1 + 1);
        proof {
            lemma_run_count_bounds(s@, e1 + 1, digit_pred());
            assert(forall|i: int| e1 + 1 <= i < e2 ==> is_digit(#[trigger] s@[i]));
            lemma_digits_val_bound(s@.subrange(e1 + 1, e2 as int));
            lemma_pow10_18();
        }
        let ghost fp = digits_val(s@.subrange(e1 + 1, e2 as int));
        let ghost p10 = pow10(d2 as nat);
        let ghost mag = ip * p10 + fp;
        if d2 > 18 {
            proof {
                lemma_pow10_mono(19, d2 as nat);
            }
            return None;
        }
        let p10e = pow10_exec(d2);
        proof {
            lemma_pow10_mono(d2 as nat, 18);
        }
        match ip_opt {
            None => {
                // integer part already exceeds the cap, so the whole
                // magnitude does too
                proof {
                    assert(ip * p10 >= ip) by (nonlinear_arith)
                        requires
                            ip >= 0,
                            p10 >= 1,
                    ;
                    assert(fp >= 0);
                }
                None
            },
            Some(ipe) => {
                let fpe = match digits_value(s, e1 + 1, e2) {
                    Some(v) => v,
                    None => {
                        proof {
                            lemma_pow10_mono(d2 as nat, 18);
                            assert(false);
                        }
                        0
                    },
                };
                proof {
                    assert(ip * p10 <= 9223372036854775808 * 1000000000000000000)
                        by (nonlinear_arith)
                        requires
                            0 <= ip <= 9223372036854775808,
                            0 <= p10 <= 1000000000000000000,
                    ;
                    assert(ip * p10 >= 0) by (nonlinear_arith)
                        requires
                            ip >= 0,
                            p10 >= 0,
                    ;
                }
                let mag128 = ipe as u128 * p10e as u128 + fpe as u128;
                let limit: u128 = if neg {
                    MAG_CAP as u128
                } else {
                    (MAG_CAP - 1) as u128
                };
                if mag128 > limit {
                    None
                } else {
                    let num: i64 = if neg {
                        if mag128 == MAG_CAP as u128 {
                            i64::MIN
                        } else {
                            -(mag128 as i64)
                        }
                    } else {
                        mag128 as i64
                    };
                    Some((e2 - pos, Decimal { num, den: p10e as i64 }))
                }
            },
        }
    } else {
        match ip_opt {
            None => None,
            Some(ipe) => {
                let limit: u64 = if neg {
                    MAG_CAP
                } else {
                    MAG_CAP - 1
                };
                if ipe > limit {
                    None
                } else {
                    let num: i64 = if neg {
                        if ipe == MAG_CAP {
                            i64::MIN
                        } else {
                            -(ipe as i64)
                        }
                    } else {
                        ipe as i64
                    };
                    Some((e1 - pos, Decimal { num, den: 1 }))
                }
            },
        }
    }
}

// ---------------------------------------------------------------------------
// Expression grammar
// ---------------------------------------------------------------------------

/// Input characters left at `pos`: the measure of the grammar's recursion.
pub open spec fn rem(s: Seq<char>, pos: int) -> int {
    if pos <= s.len() {
        s.len() - pos
    } else {
        0
    }
}

/// A factor: a parenthesized expression or a literal.
pub open spec fn spec_factor(s: Seq<char>, pos: int) -> Option<(nat, (int, int))>
    decreases rem(s, pos), 1int,
{
    if 0 <= pos && pos < s.len() && s[pos] == '(' {
        match spec_expr(s, pos + 1) {
            Some((c, v)) => {
                let e: int = pos + 1 + c;
                if e < s.len() && s[e] == ')' {
                    Some(((2 + c) as nat, v))
                } else {
                    None
                }
            },
            None => None,
        }
    } else {
        spec_literal(s, pos)
    }
}

/// A term: a factor followed by `*` or `/` factors, evaluated left to right.
pub open spec fn spec_term(s: Seq<char>, pos: int) -> Option<(nat, (int, int))>
    decreases rem(s, pos), 2int,
{
    match spec_factor(s, pos) {
        Some((c, v)) => match spec_term_rest(s, pos + c, v) {
            Some((c2, v2)) => Some(((c + c2) as nat, v2)),
            None => None,
        },
        None => None,
    }
}

/// Continuation of a term: a spaced `*` or `/` and its operand, repeated.
/// Where no operator (or no operand) follows, the term ends there.
pub open spec fn spec_term_rest(s: Seq<char>, pos: int, acc: (int, int)) -> Option<
    (nat, (int, int)),
>
    decreases rem(s, pos), 0int,
{
    let h1 = hspace_count(s, pos);
    let p1: int = pos + h1;
    if h1 > 0 && p1 < s.len() && (s[p1] == '*' || s[p1] == '/') {
        let h2 = hspace_count(s, p1 + 1);
        let p2: int = p1 + 1 + h2;
        if h2 > 0 {
            match spec_factor(s, p2) {
                Some((cf, v)) => {
                    let applied = if s[p1] == '*' {
                        rat_mul(acc, v)
                    } else {
                        rat_div(acc, v)
                    };
                    match applied {
                        Some(acc2) => match spec_term_rest(s, p2 + cf, acc2) {
                            Some((c2, v2)) => Some(((h1 + 1 + h2 + cf + c2) as nat, v2)),
                            None => None,
                        },
                        None => None,
                    }
                },
                None => Some((0, acc)),
            }
        } else {
            Some((0, acc))
        }
    } else {
        Some((0, acc))
    }
}

/// An expression: a term followed by `+` or `-` terms, evaluated left to
/// right.
pub open spec fn spec_expr(s: Seq<char>, pos: int) -> Option<(nat, (int, int))>
    decreases rem(s, pos), 3int,
{
    match spec_term(s, pos) {
        Some((c, v)) => match spec_expr_rest(s, pos + c, v) {
            Some((c2, v2)) => Some(((c + c2) as nat, v2)),
            None => None,
        },
        None => None,
    }
}

/// Continuation of an expression: a spaced `+` or `-` and its term, repeated.
pub open spec fn spec_expr_rest(s: Seq<char>, pos: int, acc: (int, int)) -> Option<
    (nat, (int, int)),
>
    decreases rem(s, pos), 0int,
{
    let h1 = hspace_count(s, pos);
    let p1: int = pos + h1;
    if h1 > 0 && p1 < s.len() && (s[p1] == '+' || s[p1] == '-') {
        let h2 = hspace_count(s, p1 + 1);
        let p2: int = p1 + 1 + h2;
        if h2 > 0 {
            match spec_term(s, p2) {
                Some((ct, v)) => {
                    let applied = if s[p1] == '+' {
                        rat_add(acc, v)
                    } else {
                        rat_sub(acc, v)
                    };
                    match applied {
                        Some(acc2) => match spec_expr_rest(s, p2 + ct, acc2) {
                            Some((c2, v2)) => Some(((h1 + 1 + h2 + ct + c2) as nat, v2)),
                            None => None,
                        },
                        None => None,
                    }
                },
                None => Some((0, acc)),
            }
        } else {
            Some((0, acc))
        }
    } else {
        Some((0, acc))
    }
}

fn factor(s: &Vec<char>, pos: usize) -> (r: Option<(usize, Decimal)>)
    requires
        pos <= s.len(),
    ensures
        match r {
            Some(cd) => spec_factor(s@, pos as int) == Some(
                (cd.0 as nat, (cd.1.num as int, cd.1.den as int)),
            ) && pos + cd.0 <= s.len() && cd.1.wf(),
            None => spec_factor(s@, pos as int) is None,
        },
    decreases rem(s@, pos as int), 1int,
{
    if pos < s.len() && s[pos] == '(' {
        match expr(s, pos + 1) {
            Some((c, v)) => {
                let e = pos + 1 + c;
                if e < s.len() && s[e] == ')' {
                    Some((2 + c, v))
                } else {
                    None
                }
            },
            None => None,
        }
    } else {
        literal(s, pos)
    }
}

fn term(s: &Vec<char>, pos: usize) -> (r: Option<(usize, Decimal)>)
    requires
        pos <= s.len(),
    ensures
        match r {
            Some(cd) => spec_term(s@, pos as int) == Some(
                (cd.0 as nat, (cd.1.num as int, cd.1.den as int)),
            ) && pos + cd.0 <= s.len() && cd.1.wf(),
            None => spec_term(s@, pos as int) is None,
        },
    decreases rem(s@, pos as int), 2int,
{
    match factor(s, pos) {
        Some((c, v)) => match term_rest(s, pos + c, v) {
            Some((c2, v2)) => Some((c + c2, v2)),
            None => None,
        },
        None => None,
    }
}

fn term_rest(s: &Vec<char>, pos: usize, acc: Decimal) -> (r: Option<(usize, Decimal)>)
    requires
        pos <= s.len(),
        acc.wf(),
    ensures
        match r {
            Some(cd) => spec_term_rest(s@, pos as int, (acc.num as int, acc.den as int))
                == Some((cd.0 as nat, (cd.1.num as int, cd.1.den as int))) && pos + cd.0
                <= s.len() && cd.1.wf(),
            None => spec_term_rest(s@, pos as int, (acc.num as int, acc.den as int)) is None,
        },
    decreases rem(s@, pos as int), 0int,
{
    let p1 = skip_hspace(s, pos);
    if p1 > pos && p1 < s.len() && (s[p1] == '*' || s[p1] == '/') {
        let p2 = skip_hspace(s, p1 + 1);
        if p2 > p1 + 1 {
            match factor(s, p2) {
                Some((cf, v)) => {
                    let applied = if s[p1] == '*' {
                        rat_mul_exec(acc, v)
                    } else {
                        rat_div_exec(acc, v)
                    };
                    match applied {
                        Some(acc2) => match term_rest(s, p2 + cf, acc2) {
                            Some((c2, v2)) => Some((p2 + cf + c2 - pos, v2)),
                            None => None,
                        },
                        None => None,
                    }
                },
                None => Some((0, acc)),
            }
        } else {
            Some((0, acc))
        }
    } else {
        Some((0, acc))
    }
}

/// Decimal-expression parser: evaluates the longest expression at `pos` and
/// returns the characters consumed with the exact value; fails on malformed
/// syntax or an out-of-range result.
pub fn expr(s: &Vec<char>, pos: usize) -> (r: Option<(usize, Decimal)>)
    requires
        pos <= s.len(),
    ensures
        match r {
            Some(cd) => spec_expr(s@, pos as int) == Some(
                (cd.0 as nat, (cd.1.num as int, cd.1.den as int)),
            ) && pos + cd.0 <= s.len() && cd.1.wf(),
            None => spec_expr(s@, pos as int) is None,
        },
    decreases rem(s@, pos as int), 3int,
{
    match term(s, pos) {
        Some((c, v)) => match expr_rest(s, pos + c, v) {
            Some((c2, v2)) => Some((c + c2, v2)),
            None => None,
        },
        None => None,
    }
}

fn expr_rest(s: &Vec<char>, pos: usize, acc: Decimal) -> (r: Option<(usize, Decimal)>)
    requires
        pos <= s.len(),
        acc.wf(),
    ensures
        match r {
            Some(cd) => spec_expr_rest(s@, pos as int, (acc.num as int, acc.den as int))
                == Some((cd.0 as nat, (cd.1.num as int, cd.1.den as int))) && pos + cd.0
                <= s.len() && cd.1.wf(),
            None => spec_expr_rest(s@, pos as int, (acc.num as int, acc.den as int)) is None,
        },
    decreases rem(s@, pos as int), 0int,
{
    let p1 = skip_hspace(s, pos);
    if p1 > pos && p1 < s.len() && (s[p1] == '+' || s[p1] == '-') {
        let p2 = skip_hspace(s, p1 + 1);
        if p2 > p1 + 1 {
            match term(s, p2) {
                Some((ct, v)) => {
                    let applied = if s[p1] == '+' {
                        rat_add_exec(acc, v)
                    } else {
                        rat_sub_exec(acc, v)
                    };
                    match applied {
                        Some(acc2) => match expr_rest(s, p2 + ct, acc2) {
                            Some((c2, v2)) => Some((p2 + ct + c2 - pos, v2)),
                            None => None,
                        },
                        None => None,
                    }
                },
                None => Some((0, acc)),
            }
        } else {
            Some((0, acc))
        }
    } else {
        Some((0, acc))
    }
}

} // verus!
