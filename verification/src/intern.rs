//! Numbering distinct keys in the order in which they first appear.

use vstd::prelude::*;
use std::collections::HashMap;

verus! {

/// The distinct items of `s`, each at the place of its first appearance.
pub open spec fn first_occurrences<T>(s: Seq<T>) -> Seq<T>
    decreases s.len(),
{
    if s.len() == 0 {
        Seq::empty()
    } else {
        let before = first_occurrences(s.drop_last());
        if before.contains(s.last()) {
            before
        } else {
            before.push(s.last())
        }
    }
}

/// `first_occurrences` holds every item of `s` once and nothing else.
pub proof fn lemma_first_occurrences<T>(s: Seq<T>)
    ensures
        first_occurrences(s).no_duplicates(),
        first_occurrences(s).len() <= s.len(),
        forall|x: T| first_occurrences(s).contains(x) <==> s.contains(x),
    decreases s.len(),
{
    broadcast use vstd::seq_lib::group_seq_properties;

    if s.len() > 0 {
        let front = s.drop_last();
        lemma_first_occurrences(front);
        assert(s =~= front.push(s.last()));
    }
}

/// An item seen twice makes the table shorter than the sequence.
pub proof fn lemma_repeat_shortens<T>(s: Seq<T>, i: int, j: int)
    requires
        0 <= i < j < s.len(),
        s[i] == s[j],
    ensures
        first_occurrences(s).len() < s.len(),
    decreases s.len(),
{
    let front = s.drop_last();
    lemma_first_occurrences(front);
    if j == s.len() - 1 {
        assert(front[i] == s.last());
        assert(front.contains(s.last()));
    } else {
        lemma_repeat_shortens(front, i, j);
    }
}

/// A table that gives each distinct key the number of its first appearance.
pub struct KeyTable {
    index: HashMap<u128, usize>,
    keys: Vec<u128>,
}

impl KeyTable {
    /// The index agrees with the list of keys, which holds no key twice.
    pub closed spec fn wf(&self) -> bool {
        &&& self.keys@.no_duplicates()
        &&& forall|k: u128| self.index@.contains_key(k) <==> self.keys@.contains(k)
        &&& forall|k: u128| #[trigger]
            self.index@.contains_key(k) ==> self.index@[k] < self.keys@.len()
                && self.keys@[self.index@[k] as int] == k
    }

    /// The keys in the order of their numbers.
    pub closed spec fn view(&self) -> Seq<u128> {
        self.keys@
    }

    /// A well-formed table holds no key twice.
    pub proof fn lemma_distinct(&self)
        requires
            self.wf(),
        ensures
            self@.no_duplicates(),
    {
    }

    /// An empty table.
    pub fn new() -> (t: KeyTable)
        ensures
            t.wf(),
            t@ == Seq::<u128>::empty(),
    {
        KeyTable { index: HashMap::new(), keys: Vec::new() }
    }

    /// The number of keys in the table.
    pub fn len(&self) -> (n: usize)
        ensures
            n == self@.len(),
    {
        self.keys.len()
    }

    /// The number of `key`, which is added at the end if the table does not
    /// hold it yet.
    pub fn intern(&mut self, key: u128) -> (id: usize)
        requires
            old(self).wf(),
        ensures
            final(self).wf(),
            final(self)@ == (if old(self)@.contains(key) {
                old(self)@
            } else {
                old(self)@.push(key)
            }),
            id < final(self)@.len(),
            final(self)@[id as int] == key,
    {
        match self.index.get(&key) {
            Some(found) => *found,
            None => {
                let id = self.keys.len();
                let ghost before = self.keys@;
                self.keys.push(key);
                self.index.insert(key, id);
                proof {
                    broadcast use vstd::seq_lib::group_seq_properties;

                    assert(self.keys@ == before.push(key));
                    assert(!before.contains(key));
                }
                id
            },
        }
    }
}

/// Adding `key` to the table of `s` gives the table of `s` with `key` behind it.
pub proof fn lemma_first_occurrences_push<T>(s: Seq<T>, key: T)
    ensures
        first_occurrences(s.push(key)) == (if first_occurrences(s).contains(key) {
            first_occurrences(s)
        } else {
            first_occurrences(s).push(key)
        }),
{
    assert(s.push(key).drop_last() =~= s);
}

} // verus!
