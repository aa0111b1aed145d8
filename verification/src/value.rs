//! The metadata value: a tagged union of a string, a decimal number, or a
//! currency ticker, together with its mathematical model.

use vstd::prelude::*;
use crate::lex::is_ticker_char;
use crate::lex::is_upper;

verus! {

// ---------------------------------------------------------------------------
// Decimal numbers
// ---------------------------------------------------------------------------

/// An exact decimal value, kept as the fraction `num / den`.
///
/// A literal such as `2.75` becomes `275 / 100`; the four arithmetic
/// operators of the expression grammar are exact on this form.  `den` is
/// always at least 1, so the sign lives in `num` alone.
#[derive(Debug, Clone, Copy, PartialEq, Eq)]
pub struct Decimal {
    pub num: i64,
    pub den: i64,
}

impl Decimal {
    /// The denominator is positive: the fraction is well formed.
    pub open spec fn wf(self) -> bool {
        self.den >= 1
    }

    pub fn from_int(n: i64) -> (r: Decimal)
        ensures
            r.num == n,
            r.den == 1,
            r.wf(),
    {
        Decimal { num: n, den: 1 }
    }

    pub fn new(num: i64, den: i64) -> (r: Option<Decimal>)
        ensures
            den >= 1 ==> r == Some(Decimal { num, den }),
            den < 1 ==> r is None,
    {
        if den >= 1 {
            Some(Decimal { num, den })
        } else {
            None
        }
    }
}

// ---------------------------------------------------------------------------
// Currency tickers
// ---------------------------------------------------------------------------

/// The ticker grammar: an uppercase letter, then uppercase letters and digits.
pub open spec fn wf_ticker(t: Seq<char>) -> bool {
    &&& t.len() >= 1
    &&& is_upper(t[0])
    &&& forall|i: int| 1 <= i < t.len() ==> is_ticker_char(#[trigger] t[i])
}

/// A commodity or currency ticker: a short uppercase alphanumeric code.
#[derive(Debug, Clone, PartialEq, Eq)]
pub struct Currency {
    chars: Vec<char>,
}

impl View for Currency {
    type V = Seq<char>;

    closed spec fn view(&self) -> Seq<char> {
        self.chars@
    }
}

impl Currency {
    pub open spec fn wf(self) -> bool {
        wf_ticker(self@)
    }

    /// Builds a ticker from its characters; `None` when the text does not
    /// follow the ticker grammar.
    pub fn from_chars(chars: Vec<char>) -> (r: Option<Currency>)
        ensures
            match r {
                Some(c) => wf_ticker(chars@) && c@ == chars@ && c.wf(),
                None => !wf_ticker(chars@),
            },
    {
        if chars.len() == 0 {
            return None;
        }
        if !crate::lex::upper_char(chars[0]) {
            return None;
        }
        let mut i: usize = 1;
        while i < chars.len()
            invariant
                1 <= i <= chars.len(),
                is_upper(chars@[0]),
                forall|j: int| 1 <= j < i ==> is_ticker_char(#[trigger] chars@[j]),
            decreases chars.len() - i,
        {
            if !crate::lex::ticker_char(chars[i]) {
                return None;
            }
            i = i + 1;
        }
        Some(Currency { chars })
    }

    /// The ticker's characters.
    pub fn chars(&self) -> (r: &Vec<char>)
        ensures
            r@ == self@,
    {
        &self.chars
    }

    /// Used by the parser, which has already checked the grammar.
    pub(crate) fn from_checked(chars: Vec<char>) -> (r: Currency)
        requires
            wf_ticker(chars@),
        ensures
            r@ == chars@,
            r.wf(),
    {
        Currency { chars }
    }
}

// ---------------------------------------------------------------------------
// Values
// ---------------------------------------------------------------------------

/// The mathematical model of a metadata value: unescaped text, an exact
/// fraction, or a ticker's text.
pub enum SpecValue {
    String(Seq<char>),
    Number(int, int),
    Currency(Seq<char>),
}

/// Models that a parse can produce: number fractions fit in `i64` with a
/// positive denominator, tickers follow the ticker grammar.
pub open spec fn wf_spec_value(v: SpecValue) -> bool {
    match v {
        SpecValue::String(_) => true,
        SpecValue::Number(n, d) => i64::MIN <= n <= i64::MAX && 1 <= d <= i64::MAX,
        SpecValue::Currency(t) => wf_ticker(t),
    }
}

/// Metadata value: one entry's payload.
#[derive(Debug, Clone, PartialEq)]
#[non_exhaustive]
pub enum Value {
    /// String value
    String(Vec<char>),
    /// A number or number expression
    Number(Decimal),
    /// A currency ticker
    Currency(Currency),
}

impl View for Value {
    type V = SpecValue;

    open spec fn view(&self) -> SpecValue {
        match self {
            Value::String(t) => SpecValue::String(t@),
            Value::Number(d) => SpecValue::Number(d.num as int, d.den as int),
            Value::Currency(c) => SpecValue::Currency(c@),
        }
    }
}

impl Value {
    pub open spec fn wf(self) -> bool {
        wf_spec_value(self@)
    }
}

} // verus!
