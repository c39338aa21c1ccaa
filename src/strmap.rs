//! A map keyed by text, held as a list of pairs whose keys are distinct.
use vstd::prelude::*;

verus! {

/// Pairs of a text key and a value; a key occurs at most once.
#[derive(Debug, Clone)]
pub struct StrMap<V> {
    pub(crate) entries: Vec<(String, V)>,
}

pub open spec fn keys_distinct<V>(es: Seq<(String, V)>) -> bool {
    forall|i: int, j: int| 0 <= i < j < es.len() ==> es[i].0@ != es[j].0@
}

/// The map that a list of pairs denotes; a later pair replaces an earlier one
/// with the same key.
pub open spec fn map_of<V: View>(es: Seq<(String, V)>) -> Map<Seq<char>, V::V>
    decreases es.len(),
{
    if es.len() == 0 {
        Map::empty()
    } else {
        map_of(es.drop_last()).insert(es.last().0@, es.last().1@)
    }
}

/// What a map of distinct keys holds: each key with its value, and no more.
pub proof fn lemma_map_of<V: View>(es: Seq<(String, V)>)
    requires
        keys_distinct(es),
    ensures
        map_of(es).dom().finite(),
        map_of(es).len() == es.len(),
        forall|i: int|
            0 <= i < es.len() ==> #[trigger] map_of(es).contains_key(es[i].0@) && map_of(es)[es[i].0@]
                == es[i].1@,
        forall|k: Seq<char>|
            #[trigger] map_of(es).contains_key(k) ==> exists|i: int| 0 <= i < es.len() && es[i].0@ == k,
    decreases es.len(),
{
    if es.len() > 0 {
        let p = es.drop_last();
        lemma_map_of(p);
        let k = es.last().0@;
        assert(!map_of(p).contains_key(k)) by {
            if map_of(p).contains_key(k) {
                let i = choose|i: int| 0 <= i < p.len() && p[i].0@ == k;
                assert(es[i].0@ == es[es.len() - 1].0@);
            }
        }
        assert forall|i: int| 0 <= i < es.len() implies #[trigger] map_of(es).contains_key(es[i].0@)
            && map_of(es)[es[i].0@] == es[i].1@ by {
            if i < es.len() - 1 {
                assert(p[i] == es[i]);
            }
        }
        assert forall|k2: Seq<char>| #[trigger] map_of(es).contains_key(k2) implies exists|i: int|
            0 <= i < es.len() && es[i].0@ == k2 by {
            if k2 != k {
                let i = choose|i: int| 0 <= i < p.len() && p[i].0@ == k2;
                assert(es[i] == p[i]);
            } else {
                assert(es[es.len() - 1].0@ == k2);
            }
        }
    }
}

impl<V: View> View for StrMap<V> {
    type V = Map<Seq<char>, V::V>;

    open(crate) spec fn view(&self) -> Map<Seq<char>, V::V> {
        map_of(self.entries@)
    }
}

impl<V: View> StrMap<V> {
    pub open(crate) spec fn wf(&self) -> bool {
        keys_distinct(self.entries@)
    }

    pub fn new() -> (r: Self)
        ensures
            r.wf(),
            r@ == Map::<Seq<char>, V::V>::empty(),
    {
        StrMap { entries: Vec::new() }
    }

    /// The number of keys.
    pub fn len(&self) -> (r: usize)
        requires
            self.wf(),
        ensures
            r == self@.len(),
    {
        proof {
            lemma_map_of(self.entries@);
        }
        self.entries.len()
    }

    fn position(&self, key: &String) -> (r: Option<usize>)
        requires
            self.wf(),
        ensures
            r matches Some(i) ==> i < self.entries.len() && self.entries@[i as int].0@ == key@,
            r is None ==> !self@.contains_key(key@),
    {
        let mut i: usize = 0;
        while i < self.entries.len()
            invariant
                i <= self.entries.len(),
                forall|j: int| 0 <= j < i ==> self.entries@[j].0@ != key@,
            decreases self.entries.len() - i,
        {
            if self.entries[i].0 == *key {
                return Some(i);
            }
            i = i + 1;
        }
        proof {
            lemma_map_of(self.entries@);
        }
        None
    }

    /// The value held under `key`, if any.
    pub fn get(&self, key: &String) -> (r: Option<&V>)
        requires
            self.wf(),
        ensures
            r is Some <==> self@.contains_key(key@),
            r matches Some(v) ==> v@ == self@[key@],
    {
        proof {
            lemma_map_of(self.entries@);
        }
        match self.position(key) {
            Some(i) => {
                assert(map_of(self.entries@).contains_key(self.entries@[i as int].0@));
                Some(&self.entries[i].1)
            },
            None => None,
        }
    }

    /// The pairs, each key once.
    pub fn pairs(&self) -> (r: &Vec<(String, V)>)
        requires
            self.wf(),
        ensures
            keys_distinct(r@),
            map_of(r@) == self@,
    {
        &self.entries
    }

    /// Puts `value` under `key`, replacing what was there.
    pub fn insert(&mut self, key: String, value: V)
        requires
            old(self).wf(),
        ensures
            final(self).wf(),
            final(self)@ == old(self)@.insert(key@, value@),
    {
        proof {
            lemma_map_of(self.entries@);
        }
        let ghost k = key@;
        let ghost v = value@;
        match self.position(&key) {
            Some(i) => {
                let ghost before = self.entries@;
                self.entries.set(i, (key, value));
                proof {
                    let after = self.entries@;
                    assert forall|a: int, b: int| 0 <= a < b < after.len() implies after[a].0@
                        != after[b].0@ by {
                        assert(before[a].0@ != before[b].0@);
                    }
                    lemma_map_of(after);
                    assert forall|q: Seq<char>| #[trigger] map_of(after).contains_key(q)
                        <==> map_of(before).insert(k, v).contains_key(q) by {
                        if map_of(before).contains_key(q) {
                            let j = choose|j: int| 0 <= j < before.len() && before[j].0@ == q;
                            assert(after[j].0@ == q);
                        }
                        if map_of(after).contains_key(q) {
                            let j = choose|j: int| 0 <= j < after.len() && after[j].0@ == q;
                            if j != i {
                                assert(before[j] == after[j]);
                            }
                        }
                    }
                    assert(map_of(after) =~= map_of(before).insert(k, v));
                }
            },
            None => {
                let ghost before = self.entries@;
                self.entries.push((key, value));
                proof {
                    let after = self.entries@;
                    assert(after.drop_last() =~= before);
                    assert forall|a: int, b: int| 0 <= a < b < after.len() implies after[a].0@
                        != after[b].0@ by {
                        if b < before.len() {
                            assert(before[a].0@ != before[b].0@);
                        } else {
                            assert(map_of(before).contains_key(before[a].0@));
                        }
                    }
                }
            },
        }
    }
}

} // verus!
