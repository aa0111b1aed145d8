//! The metadata map: keys bound to values, built once at parse time by
//! folding entries with last-write-wins, then used for key lookup only.

use vstd::prelude::*;
use vstd::map::*;
use crate::value::SpecValue;
use crate::value::Value;

verus! {

/// Character-for-character equality of two texts.
pub fn chars_eq(a: &Vec<char>, b: &Vec<char>) -> (r: bool)
    ensures
        r <==> a@ == b@,
{
    if a.len() != b.len() {
        return false;
    }
    let mut i: usize = 0;
    while i < a.len()
        invariant
            i <= a.len(),
            a.len() == b.len(),
            forall|j: int| 0 <= j < i ==> a@[j] == b@[j],
        decreases a.len() - i,
    {
        if a[i] != b[i] {
            return false;
        }
        i = i + 1;
    }
    proof {
        assert(a@ =~= b@);
    }
    true
}

/// The map an entry list denotes: entries folded in order, a later binding
/// of a key replacing an earlier one.
pub open spec fn entries_view(es: Seq<(Vec<char>, Value)>) -> Map<Seq<char>, SpecValue>
    decreases es.len(),
{
    if es.len() == 0 {
        Map::empty()
    } else {
        entries_view(es.drop_last()).insert(es.last().0@, es.last().1@)
    }
}

/// Mapping from key to [`Value`] for one directive's metadata block.
///
/// Keys are unique; insertion replaces the binding of an existing key.
#[derive(Debug, Clone, PartialEq)]
pub struct MetadataMap {
    entries: Vec<(Vec<char>, Value)>,
}

impl View for MetadataMap {
    type V = Map<Seq<char>, SpecValue>;

    closed spec fn view(&self) -> Map<Seq<char>, SpecValue> {
        entries_view(self.entries@)
    }
}

/// The denoted map's domain is the set of keys in the list, and where a key
/// occurs only once after position `i`, the map binds it to that occurrence's
/// value.  The domain is finite.
pub proof fn lemma_entries_view_props(es: Seq<(Vec<char>, Value)>)
    ensures
        forall|k: Seq<char>|
            #[trigger] entries_view(es).contains_key(k) <==> (exists|i: int|
                0 <= i < es.len() && (#[trigger] es[i].0@) == k),
        forall|i: int|
            #![trigger es[i]]
            0 <= i < es.len() && (forall|j: int| i < j < es.len() ==> es[j].0@ != es[i].0@)
                ==> entries_view(es).contains_key(es[i].0@) && entries_view(es)[es[i].0@]
                == es[i].1@,
        entries_view(es).dom().finite(),
    decreases es.len(),
{
    if es.len() > 0 {
        let es0 = es.drop_last();
        lemma_entries_view_props(es0);
        assert forall|k: Seq<char>| #[trigger]
            entries_view(es).contains_key(k) implies (exists|i: int|
            0 <= i < es.len() && (#[trigger] es[i].0@) == k) by {
            if k == es.last().0@ {
                assert(es[es.len() - 1].0@ == k);
            } else {
                let i = choose|i: int| 0 <= i < es0.len() && (#[trigger] es0[i].0@) == k;
                assert(es[i].0@ == k);
            }
        }
        assert forall|k: Seq<char>|
            (exists|i: int| 0 <= i < es.len() && (#[trigger] es[i].0@) == k) implies
            entries_view(es).contains_key(k) by {
            let i = choose|i: int| 0 <= i < es.len() && (#[trigger] es[i].0@) == k;
            if i < es.len() - 1 {
                assert(es0[i].0@ == k);
            }
        }
        assert forall|i: int|
            0 <= i < es.len() && (forall|j: int|
                i < j < es.len() ==> (#[trigger] es[j]).0@ != es[i].0@) implies #[trigger]
            entries_view(es).contains_key(es[i].0@) && entries_view(es)[es[i].0@]
            == es[i].1@ by {
            if i == es.len() - 1 {
                assert(entries_view(es) == entries_view(es0).insert(es.last().0@, es.last().1@));
            } else {
                assert(es[es.len() - 1].0@ != es[i].0@);
                assert(es0[i] == es[i]);
                assert(forall|j: int| i < j < es0.len() ==> (#[trigger] es0[j]).0@ != es0[i].0@);
            }
        }
    }
}

/// Distinct keys in the list: the denoted map has exactly one binding per
/// list entry.
pub open spec fn distinct_keys(es: Seq<(Vec<char>, Value)>) -> bool {
    forall|i: int, j: int|
        0 <= i < es.len() && 0 <= j < es.len() && i != j ==> (#[trigger] es[i].0@)
            != (#[trigger] es[j].0@)
}

/// With distinct keys, the denoted map binds exactly each entry's key to
/// that entry's value.
pub proof fn lemma_entries_view_distinct(es: Seq<(Vec<char>, Value)>)
    requires
        distinct_keys(es),
    ensures
        forall|k: Seq<char>|
            #[trigger] entries_view(es).contains_key(k) <==> (exists|i: int|
                0 <= i < es.len() && (#[trigger] es[i].0@) == k),
        forall|i: int|
            0 <= i < es.len() ==> entries_view(es).contains_key(#[trigger] es[i].0@)
                && entries_view(es)[es[i].0@] == es[i].1@,
        entries_view(es).dom().finite(),
{
    lemma_entries_view_props(es);
    assert forall|i: int| 0 <= i < es.len() implies entries_view(es).contains_key(
        #[trigger] es[i].0@,
    ) && entries_view(es)[es[i].0@] == es[i].1@ by {
        assert(forall|j: int| i < j < es.len() ==> (#[trigger] es[j]).0@ != es[i].0@);
    }
}

pub proof fn lemma_entries_view_len(es: Seq<(Vec<char>, Value)>)
    requires
        distinct_keys(es),
    ensures
        entries_view(es).len() == es.len(),
    decreases es.len(),
{
    broadcast use vstd::set::axiom_set_empty_len;
    broadcast use vstd::map::axiom_map_empty;

    if es.len() == 0 {
    } else {
        let es0 = es.drop_last();
        assert(distinct_keys(es0)) by {
            assert(forall|i: int| 0 <= i < es0.len() ==> es0[i] == es[i]);
        }
        lemma_entries_view_len(es0);
        lemma_entries_view_props(es0);
        assert(!entries_view(es0).contains_key(es.last().0@)) by {
            assert(forall|i: int| 0 <= i < es0.len() ==> (#[trigger] es0[i].0@) != es.last().0@);
        }
        vstd::map::axiom_map_insert_domain(entries_view(es0), es.last().0@, es.last().1@);
        vstd::set::axiom_set_insert_len(entries_view(es0).dom(), es.last().0@);
    }
}

impl MetadataMap {
    /// Keys unique within the map.
    pub closed spec fn wf(self) -> bool {
        distinct_keys(self.entries@)
    }

    pub fn new() -> (r: MetadataMap)
        ensures
            r@ == Map::<Seq<char>, SpecValue>::empty(),
            r.wf(),
    {
        MetadataMap { entries: Vec::new() }
    }

    /// Number of keys bound.
    pub fn len(&self) -> (r: usize)
        requires
            self.wf(),
        ensures
            r == self@.len(),
    {
        proof {
            lemma_entries_view_len(self.entries@);
        }
        self.entries.len()
    }

    /// Binds `key` to `value`, replacing any earlier binding of `key`:
    /// last write wins.
    pub fn insert(&mut self, key: Vec<char>, value: Value)
        requires
            old(self).wf(),
        ensures
            final(self).wf(),
            final(self)@ == old(self)@.insert(key@, value@),
    {
        let ghost es = self.entries@;
        let mut i: usize = 0;
        while i < self.entries.len()
            invariant
                i <= es.len(),
                self.entries@ == es,
                old(self)@ == entries_view(es),
                distinct_keys(es),
                forall|j: int| 0 <= j < i ==> (#[trigger] es[j].0@) != key@,
            decreases es.len() - i,
        {
            if chars_eq(&self.entries[i].0, &key) {
                proof {
                    assert(es[i as int].0@ == key@);
                }
                self.entries.remove(i);
                self.entries.push((key, value));
                proof {
                    let es2 = self.entries@;
                    assert(es2.len() == es.len());
                    assert(forall|j: int| 0 <= j < i ==> es2[j] == es[j]);
                    assert(forall|j: int| i <= j < es.len() - 1 ==> es2[j] == es[j + 1]);
                    assert(es2.last() == (key, value));
                    assert(distinct_keys(es2)) by {
                        assert forall|a: int, b: int|
                            0 <= a < es2.len() && 0 <= b < es2.len() && a != b implies (
                        #[trigger] es2[a].0@) != (#[trigger] es2[b].0@) by {
                            if a < es2.len() - 1 && b < es2.len() - 1 {
                                let a0: int = if a < i { a } else { a + 1 };
                                let b0: int = if b < i { b } else { b + 1 };
                                assert(es2[a].0@ == es[a0].0@ && es2[b].0@ == es[b0].0@);
                            } else if a == es2.len() - 1 {
                                let b0: int = if b < i { b } else { b + 1 };
                                assert(es2[b].0@ == es[b0].0@);
                                assert(es[b0].0@ != es[i as int].0@);
                            } else {
                                let a0: int = if a < i { a } else { a + 1 };
                                assert(es2[a].0@ == es[a0].0@);
                                assert(es[a0].0@ != es[i as int].0@);
                            }
                        }
                    }
                    lemma_entries_view_distinct(es);
                    lemma_entries_view_distinct(es2);
                    assert_maps_equal!(entries_view(es2), entries_view(es).insert(key@, value@), k => {
                        if entries_view(es2).contains_key(k) {
                            let a = choose|a: int| 0 <= a < es2.len() && (#[trigger] es2[a].0@) == k;
                            if a == es2.len() - 1 {
                                assert(k == key@);
                                assert(entries_view(es2)[k] == value@);
                            } else {
                                let a0: int = if a < i { a } else { a + 1 };
                                assert(es2[a] == es[a0]);
                                assert(entries_view(es2)[k] == es2[a].1@);
                                assert(entries_view(es)[k] == es[a0].1@);
                                assert(k != key@);
                            }
                        }
                        if entries_view(es).insert(key@, value@).contains_key(k) {
                            if k == key@ {
                                assert(es2[es2.len() - 1].0@ == k);
                                assert(entries_view(es2).contains_key(k));
                            } else {
                                assert(entries_view(es).contains_key(k));
                                let a = choose|a: int| 0 <= a < es.len() && (#[trigger] es[a].0@) == k;
                                assert(a != i);
                                let a2: int = if a < i { a } else { a - 1 };
                                assert(es2[a2] == es[a]);
                                assert(entries_view(es2).contains_key(k));
                            }
                        }
                    });
                }
                return ;
            }
            i = i + 1;
        }
        self.entries.push((key, value));
        proof {
            let es2 = self.entries@;
            assert(es2.drop_last() =~= es);
            assert(distinct_keys(es2)) by {
                assert(forall|j: int| 0 <= j < es.len() ==> es2[j] == es[j]);
                assert(forall|j: int| 0 <= j < es.len() ==> (#[trigger] es[j].0@) != key@);
            }
        }
    }

    /// Looks a key up: the binding made by the last insertion of that key,
    /// `None` when the key was never bound.
    pub fn get(&self, key: &Vec<char>) -> (r: Option<&Value>)
        requires
            self.wf(),
        ensures
            match r {
                Some(v) => self@.contains_key(key@) && v@ == self@[key@],
                None => !self@.contains_key(key@),
            },
    {
        proof {
            lemma_entries_view_distinct(self.entries@);
        }
        let ghost es = self.entries@;
        let mut i: usize = 0;
        while i < self.entries.len()
            invariant
                i <= es.len(),
                self.entries@ == es,
                distinct_keys(es),
                self@ == entries_view(es),
                forall|k: Seq<char>|
                    #[trigger] entries_view(es).contains_key(k) <==> (exists|a: int|
                        0 <= a < es.len() && (#[trigger] es[a].0@) == k),
                forall|a: int|
                    0 <= a < es.len() ==> entries_view(es).contains_key(#[trigger] es[a].0@)
                        && entries_view(es)[es[a].0@] == es[a].1@,
                forall|j: int| 0 <= j < i ==> (#[trigger] es[j].0@) != key@,
            decreases es.len() - i,
        {
            if chars_eq(&self.entries[i].0, &key) {
                proof {
                    assert(es[i as int].0@ == key@);
                }
                return Some(&self.entries[i].1);
            }
            i = i + 1;
        }
        None
    }

    /// True when no key is bound.
    pub fn is_empty(&self) -> (r: bool)
        requires
            self.wf(),
        ensures
            r <==> self@ == Map::<Seq<char>, SpecValue>::empty(),
    {
        proof {
            lemma_entries_view_props(self.entries@);
            if self.entries@.len() > 0 {
                assert(entries_view(self.entries@).contains_key(self.entries@[0].0@));
            }
            assert(self.entries@.len() == 0 ==> self@ =~= Map::<Seq<char>, SpecValue>::empty());
        }
        self.entries.len() == 0
    }
}

} // verus!
