//! The block parser's governing properties, stated over the specification
//! functions that [`crate::metadata::parse`]'s contract uses.

use vstd::prelude::*;
use vstd::map::*;
use crate::expr::rem;
use crate::lex::hspace_count;
use crate::lex::is_lower;
use crate::lex::is_upper;
use crate::lex::lemma_eol_bounds;
use crate::lex::spec_blank;
use crate::metadata::last_wins;
use crate::metadata::spec_block;
use crate::metadata::spec_entry;
use crate::value::SpecValue;

verus! {

/// The block parser consumes entry and blank lines only: at the position
/// where it stops, neither an entry nor a blank line matches, so the first
/// non-matching line is left unconsumed in full.
pub proof fn lemma_block_stops_at_nonmatching(s: Seq<char>, pos: int)
    ensures
        spec_entry(s, pos + spec_block(s, pos).0) is None,
        spec_blank(s, pos + spec_block(s, pos).0) is None,
    decreases rem(s, pos),
{
    match spec_entry(s, pos) {
        Some((n, k, v)) => {
            lemma_block_stops_at_nonmatching(s, pos + n);
        },
        None => match spec_blank(s, pos) {
            Some(n) => {
                lemma_block_stops_at_nonmatching(s, pos + n);
            },
            None => {},
        },
    }
}

/// Last write wins: the folded map contains exactly the keys that occur in
/// the pair sequence, and a key's binding is the value of its last
/// occurrence.
pub proof fn lemma_last_write_wins(ps: Seq<(Seq<char>, SpecValue)>)
    ensures
        forall|k: Seq<char>|
            #[trigger] last_wins(ps).contains_key(k) <==> (exists|i: int|
                0 <= i < ps.len() && (#[trigger] ps[i].0) == k),
        forall|i: int|
            #![trigger ps[i]]
            0 <= i < ps.len() && (forall|j: int| i < j < ps.len() ==> ps[j].0 != ps[i].0)
                ==> last_wins(ps).contains_key(ps[i].0) && last_wins(ps)[ps[i].0] == ps[i].1,
    decreases ps.len(),
{
    if ps.len() > 0 {
        let rest = ps.drop_first();
        lemma_last_write_wins(rest);
        assert forall|k: Seq<char>| #[trigger]
            last_wins(ps).contains_key(k) implies (exists|i: int|
            0 <= i < ps.len() && (#[trigger] ps[i].0) == k) by {
            if k == ps[0].0 {
                assert(ps[0].0 == k);
            } else {
                assert(last_wins(rest).contains_key(k));
                let i = choose|i: int| 0 <= i < rest.len() && (#[trigger] rest[i].0) == k;
                assert(ps[i + 1].0 == k);
            }
        }
        assert forall|k: Seq<char>|
            (exists|i: int| 0 <= i < ps.len() && (#[trigger] ps[i].0) == k) implies
            last_wins(ps).contains_key(k) by {
            let i = choose|i: int| 0 <= i < ps.len() && (#[trigger] ps[i].0) == k;
            if i > 0 {
                assert(rest[i - 1].0 == k);
                assert(last_wins(rest).contains_key(k));
            }
        }
        assert forall|i: int|
            0 <= i < ps.len() && (forall|j: int|
                i < j < ps.len() ==> (#[trigger] ps[j]).0 != ps[i].0) implies last_wins(
            ps,
        ).contains_key(ps[i].0) && last_wins(ps)[ps[i].0] == ps[i].1 by {
            if i == 0 {
                if last_wins(rest).contains_key(ps[0].0) {
                    let a = choose|a: int|
                        0 <= a < rest.len() && (#[trigger] rest[a].0) == ps[0].0;
                    assert(ps[a + 1].0 == ps[0].0);
                    assert(false);
                }
            } else {
                assert(rest[i - 1] == ps[i]);
                assert(forall|j: int|
                    i - 1 < j < rest.len() ==> (#[trigger] rest[j]).0 != rest[i - 1].0) by {
                    assert(forall|j: int| 0 <= j < rest.len() ==> rest[j] == ps[j + 1]);
                }
                assert(last_wins(rest).contains_key(ps[i].0) && last_wins(rest)[ps[i].0]
                    == ps[i].1);
                if !last_wins(rest).contains_key(ps[0].0) {
                    assert(ps[0].0 != ps[i].0);
                }
            }
        }
    }
}

/// A block made only of blank lines up to the end of the input.
pub open spec fn all_blank_lines(s: Seq<char>, pos: int) -> bool
    decreases rem(s, pos),
{
    if pos == s.len() {
        true
    } else {
        match spec_blank(s, pos) {
            Some(n) => all_blank_lines(s, pos + n),
            None => false,
        }
    }
}

/// A blank line is never an entry: after the shared indent, an entry needs a
/// lowercase letter where a blank line has a comment, a terminator or the
/// end of the input.
pub proof fn lemma_blank_line_is_no_entry(s: Seq<char>, pos: int)
    requires
        spec_blank(s, pos) is Some,
    ensures
        spec_entry(s, pos) is None,
{
    let j: int = pos + hspace_count(s, pos);
    if j < s.len() {
        assert(s[j] == ';' || s[j] == '\n' || s[j] == '\r');
        assert(!is_lower(s[j]));
    }
}

/// A block of only blank lines parses to an empty map, consuming all of
/// them.
pub proof fn lemma_blank_block_empty(s: Seq<char>, pos: int)
    requires
        0 <= pos <= s.len(),
        all_blank_lines(s, pos),
    ensures
        spec_block(s, pos).0 == s.len() - pos,
        spec_block(s, pos).1 == Seq::<(Seq<char>, SpecValue)>::empty(),
        last_wins(spec_block(s, pos).1) == Map::<Seq<char>, SpecValue>::empty(),
    decreases rem(s, pos),
{
    if pos == s.len() {
        assert(spec_entry(s, pos) is None);
        assert(spec_blank(s, pos) is None);
    } else {
        let n = spec_blank(s, pos)->Some_0;
        lemma_blank_line_is_no_entry(s, pos);
        lemma_eol_bounds(s, pos);
        lemma_blank_block_empty(s, pos + n);
    }
}

/// A block whose first line matches neither an entry nor a blank line
/// parses to an empty map, consuming nothing.
pub proof fn lemma_no_match_consumes_nothing(s: Seq<char>, pos: int)
    requires
        spec_entry(s, pos) is None,
        spec_blank(s, pos) is None,
    ensures
        spec_block(s, pos).0 == 0,
        spec_block(s, pos).1 == Seq::<(Seq<char>, SpecValue)>::empty(),
        last_wins(spec_block(s, pos).1) == Map::<Seq<char>, SpecValue>::empty(),
{
}

/// A key starting with an uppercase letter is rejected: the line matches
/// neither an entry nor a blank line, so the block parser stops immediately
/// and leaves the line unconsumed.
pub proof fn lemma_uppercase_key_stops_block(s: Seq<char>, pos: int)
    requires
        0 <= pos <= s.len(),
        pos + hspace_count(s, pos) < s.len(),
        is_upper(s[pos + hspace_count(s, pos)]),
    ensures
        spec_entry(s, pos) is None,
        spec_blank(s, pos) is None,
        spec_block(s, pos).0 == 0,
        spec_block(s, pos).1 == Seq::<(Seq<char>, SpecValue)>::empty(),
{
    let j: int = pos + hspace_count(s, pos);
    assert(!is_lower(s[j]));
    assert(s[j] != ';' && s[j] != '\n' && s[j] != '\r');
}

} // verus!
