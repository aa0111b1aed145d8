//! The metadata block itself: the entry parser for one `key: value` line and
//! the block parser that folds entries into a [`MetadataMap`].

use vstd::prelude::*;
use vstd::map::*;
use crate::expr::rem;
use crate::expr::spec_expr;
use crate::lex::copy_range;
use crate::lex::currency_token;
use crate::lex::empty_line;
use crate::lex::end_of_line;
use crate::lex::hspace_count;
use crate::lex::is_lower;
use crate::lex::is_ticker_char;
use crate::lex::is_upper;
use crate::lex::key_count;
use crate::lex::lemma_run_count_bounds;
use crate::lex::lower_char;
use crate::lex::skip_hspace;
use crate::lex::skip_key_chars;
use crate::lex::spec_blank;
use crate::lex::spec_currency_token;
use crate::lex::spec_eol;
use crate::lex::spec_string;
use crate::lex::string_literal;
use crate::lex::ticker_pred;
use crate::map::MetadataMap;
use crate::value::Currency;
use crate::value::SpecValue;
use crate::value::Value;
use crate::value::wf_ticker;

verus! {

// ---------------------------------------------------------------------------
// Value dispatch
// ---------------------------------------------------------------------------

/// The value grammar: the first of string literal, decimal expression and
/// currency ticker that matches at `pos`, in that fixed order.
pub open spec fn spec_value(s: Seq<char>, pos: int) -> Option<(nat, SpecValue)> {
    match spec_string(s, pos) {
        Some((c, t)) => Some((c, SpecValue::String(t))),
        None => match spec_expr(s, pos) {
            Some((c, nd)) => Some((c, SpecValue::Number(nd.0, nd.1))),
            None => match spec_currency_token(s, pos) {
                Some((c, t)) => Some((c, SpecValue::Currency(t))),
                None => None,
            },
        },
    }
}

/// Tries the three value grammars in their fixed order and tags the result.
pub fn value(s: &Vec<char>, pos: usize) -> (r: Option<(usize, Value)>)
    requires
        pos <= s.len(),
    ensures
        match r {
            Some(cv) => spec_value(s@, pos as int) == Some((cv.0 as nat, cv.1@)) && pos + cv.0
                <= s.len() && cv.1.wf(),
            None => spec_value(s@, pos as int) is None,
        },
{
    match string_literal(s, pos) {
        Some((c, t)) => Some((c, Value::String(t))),
        None => match crate::expr::expr(s, pos) {
            Some((c, d)) => Some((c, Value::Number(d))),
            None => match currency_token(s, pos) {
                Some((c, t)) => {
                    proof {
                        lemma_run_count_bounds(s@, pos + 1, ticker_pred());
                        let tt = (spec_currency_token(s@, pos as int)->Some_0).1;
                        assert(tt == s@.subrange(pos as int, pos + c));
                        assert(is_upper(tt[0]));
                        assert(forall|i: int| 1 <= i < tt.len() ==> is_ticker_char(
                            #[trigger] tt[i],
                        ));
                        assert(wf_ticker(t@));
                    }
                    Some((c, Value::Currency(Currency::from_checked(t))))
                },
                None => None,
            },
        },
    }
}

// ---------------------------------------------------------------------------
// Entry parser
// ---------------------------------------------------------------------------

/// The key grammar: a lowercase letter, then letters, digits, `-` and `_`.
pub open spec fn wf_key(k: Seq<char>) -> bool {
    &&& k.len() >= 1
    &&& is_lower(k[0])
    &&& forall|i: int| 1 <= i < k.len() ==> crate::lex::is_key_char(#[trigger] k[i])
}

/// One metadata line: indent, a key starting with a lowercase letter, a
/// colon, at least one space, a value, and the end of the line.  Fails (and
/// consumes nothing) where any step fails.
pub open spec fn spec_entry(s: Seq<char>, pos: int) -> Option<(nat, Seq<char>, SpecValue)> {
    let c1 = hspace_count(s, pos);
    let i1: int = pos + c1;
    if c1 == 0 {
        None
    } else if !(i1 < s.len() && is_lower(s[i1])) {
        None
    } else {
        let kc = key_count(s, i1 + 1);
        let i2: int = i1 + 1 + kc;
        let key = s.subrange(i1, i2);
        if !(i2 < s.len() && s[i2] == ':') {
            None
        } else {
            let c2 = hspace_count(s, i2 + 1);
            let i3: int = i2 + 1 + c2;
            if c2 == 0 {
                None
            } else {
                match spec_value(s, i3) {
                    None => None,
                    Some((cv, v)) => match spec_eol(s, i3 + cv) {
                        None => None,
                        Some(ce) => Some(((c1 + 1 + kc + 1 + c2 + cv + ce) as nat, key, v)),
                    },
                }
            }
        }
    }
}

/// Entry parser: consumes one `key: value` line and returns characters
/// consumed, the key's text and the value; `None` where the line does not
/// match, in which case nothing is consumed.
pub fn entry(s: &Vec<char>, pos: usize) -> (r: Option<(usize, Vec<char>, Value)>)
    requires
        pos <= s.len(),
    ensures
        match r {
            Some(nkv) => spec_entry(s@, pos as int) == Some(
                (nkv.0 as nat, nkv.1@, nkv.2@),
            ) && 1 <= nkv.0 && pos + nkv.0 <= s.len() && nkv.2.wf(),
            None => spec_entry(s@, pos as int) is None,
        },
{
    let i1 = skip_hspace(s, pos);
    if i1 == pos {
        return None;
    }
    if !(i1 < s.len() && lower_char(s[i1])) {
        return None;
    }
    let i2 = skip_key_chars(s, i1 + 1);
    if !(i2 < s.len() && s[i2] == ':') {
        return None;
    }
    let key = copy_range(s, i1, i2);
    let i3 = skip_hspace(s, i2 + 1);
    if i3 == i2 + 1 {
        return None;
    }
    match value(s, i3) {
        None => None,
        Some((cv, v)) => match end_of_line(s, i3 + cv) {
            None => None,
            Some(ce) => Some((i3 + cv + ce - pos, key, v)),
        },
    }
}

// ---------------------------------------------------------------------------
// Block parser
// ---------------------------------------------------------------------------

/// What the block parser does at `pos`: characters consumed and the entries
/// found, in source order.  An entry line contributes its pair; a blank line
/// contributes nothing; the first line matching neither ends the block
/// unconsumed.
pub open spec fn spec_block(s: Seq<char>, pos: int) -> (nat, Seq<(Seq<char>, SpecValue)>)
    decreases rem(s, pos),
{
    match spec_entry(s, pos) {
        Some((n, k, v)) => {
            let r = spec_block(s, pos + n);
            (((n + r.0) as nat), seq![(k, v)] + r.1)
        },
        None => match spec_blank(s, pos) {
            Some(n) => {
                let r = spec_block(s, pos + n);
                ((n + r.0) as nat, r.1)
            },
            None => (0, Seq::empty()),
        },
    }
}

/// Folding a pair sequence with last-write-wins: the binding a key receives
/// is its last occurrence's value.
pub open spec fn last_wins(ps: Seq<(Seq<char>, SpecValue)>) -> Map<Seq<char>, SpecValue>
    decreases ps.len(),
{
    if ps.len() == 0 {
        Map::empty()
    } else {
        let rest = last_wins(ps.drop_first());
        if rest.contains_key(ps[0].0) {
            rest
        } else {
            rest.insert(ps[0].0, ps[0].1)
        }
    }
}

/// Folding one leading pair into an accumulating map commutes with binding
/// the pair first: the step the block parser's loop takes.
proof fn lemma_last_wins_step(
    m: Map<Seq<char>, SpecValue>,
    ps: Seq<(Seq<char>, SpecValue)>,
    k: Seq<char>,
    v: SpecValue,
)
    ensures
        m.union_prefer_right(last_wins(seq![(k, v)] + ps)) == m.insert(k, v).union_prefer_right(
            last_wins(ps),
        ),
{
    let whole = seq![(k, v)] + ps;
    assert(whole.drop_first() =~= ps);
    assert(whole[0] == (k, v));
    let rest = last_wins(ps);
    if rest.contains_key(k) {
        assert(last_wins(whole) == rest);
        assert_maps_equal!(m.union_prefer_right(rest), m.insert(k, v).union_prefer_right(rest), x => {});
    } else {
        assert(last_wins(whole) == rest.insert(k, v));
        assert_maps_equal!(m.union_prefer_right(rest.insert(k, v)),
            m.insert(k, v).union_prefer_right(rest), x => {});
    }
}

/// Block parser: repeatedly tries an entry, then a blank line, and stops
/// without consuming at the first line matching neither.  Returns the
/// metadata map folded with last-write-wins and the position of the first
/// unconsumed character.  It never fails: a block with no metadata gives an
/// empty map.
pub fn parse(s: &Vec<char>, pos: usize) -> (r: (MetadataMap, usize))
    requires
        pos <= s.len(),
    ensures
        r.1 as int == pos + spec_block(s@, pos as int).0,
        pos <= r.1 <= s.len(),
        r.0@ == last_wins(spec_block(s@, pos as int).1),
        r.0.wf(),
{
    let mut map = MetadataMap::new();
    let mut p = pos;
    proof {
        assert_maps_equal!(
            Map::<Seq<char>, SpecValue>::empty().union_prefer_right(
                last_wins(spec_block(s@, pos as int).1)),
            last_wins(spec_block(s@, pos as int).1), x => {});
    }
    loop
        invariant
            pos <= p <= s.len(),
            map.wf(),
            spec_block(s@, pos as int).0 == (p - pos) + spec_block(s@, p as int).0,
            last_wins(spec_block(s@, pos as int).1) == map@.union_prefer_right(
                last_wins(spec_block(s@, p as int).1),
            ),
        ensures
            pos <= p <= s.len(),
            map.wf(),
            spec_block(s@, pos as int).0 == p - pos,
            map@ == last_wins(spec_block(s@, pos as int).1),
        decreases s.len() - p,
    {
        let ghost p0 = p as int;
        match entry(s, p) {
            Some((n, k, v)) => {
                proof {
                    lemma_last_wins_step(map@, spec_block(s@, p0 + n).1, k@, v@);
                }
                map.insert(k, v);
                p = p + n;
            },
            None => match empty_line(s, p) {
                Some(n) => {
                    p = p + n;
                },
                None => {
                    proof {
                        assert(spec_block(s@, p0) == (0nat, Seq::<(Seq<char>, SpecValue)>::empty()));
                        assert(last_wins(spec_block(s@, p0).1) =~= Map::<Seq<char>, SpecValue>::empty());
                        assert_maps_equal!(
                            map@.union_prefer_right(Map::<Seq<char>, SpecValue>::empty()),
                            map@, x => {});
                    }
                    break ;
                },
            },
        }
    }
    (map, p)
}

} // verus!
