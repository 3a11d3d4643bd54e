//! A map keyed by strings, each key held once, in the order of first insertion.
use vstd::prelude::*;

verus! {

/// A map from strings to values.
pub struct StrMap<V> {
    entries: Vec<(String, V)>,
}

/// No key occurs twice among the entries.
pub open spec fn keys_unique<V>(e: Seq<(String, V)>) -> bool {
    forall|i: int, j: int| 0 <= i < e.len() && 0 <= j < e.len() && i != j ==> e[i].0@ != e[j].0@
}

/// The position of the entry with key `k`.
pub open spec fn entry_index<V>(e: Seq<(String, V)>, k: Seq<char>) -> int {
    choose|i: int| 0 <= i < e.len() && e[i].0@ == k
}

/// Whether some entry has key `k`.
pub open spec fn has_key<V>(e: Seq<(String, V)>, k: Seq<char>) -> bool {
    exists|i: int| 0 <= i < e.len() && #[trigger] e[i].0@ == k
}

/// The map that the entries stand for.
pub open spec fn entries_map<V>(e: Seq<(String, V)>) -> Map<Seq<char>, V> {
    Map::new(|k: Seq<char>| has_key(e, k), |k: Seq<char>| e[entry_index(e, k)].1)
}

pub proof fn lemma_entry_at<V>(e: Seq<(String, V)>, i: int)
    requires
        keys_unique(e),
        0 <= i < e.len(),
    ensures
        entries_map(e).contains_key(e[i].0@),
        entries_map(e)[e[i].0@] == e[i].1,
        entry_index(e, e[i].0@) == i,
{
    let k = e[i].0@;
    assert(has_key(e, k));
    let j = entry_index(e, k);
    assert(e[j].0@ == k);
}

impl<V> StrMap<V> {
    #[verifier::type_invariant]
    spec fn inv(self) -> bool {
        keys_unique(self.entries@)
    }

    /// The entries, in order of first insertion.
    pub closed spec fn entries_spec(&self) -> Seq<(String, V)> {
        self.entries@
    }

    /// An empty map.
    pub fn new() -> (m: Self)
        ensures
            m@ == Map::<Seq<char>, V>::empty(),
            m.entries_spec() == Seq::<(String, V)>::empty(),
    {
        let m = StrMap { entries: Vec::new() };
        proof {
            assert(m@ =~= Map::<Seq<char>, V>::empty());
        }
        m
    }

    /// The number of keys.
    pub fn len(&self) -> (n: usize)
        ensures
            n == self.entries_spec().len(),
            n == self@.len(),
    {
        proof {
            use_type_invariant(self);
            lemma_map_len(self.entries@);
        }
        self.entries.len()
    }

    /// The entries, in order of first insertion.
    pub fn entries(&self) -> (e: &Vec<(String, V)>)
        ensures
            e@ == self.entries_spec(),
            keys_unique(e@),
            self@ == entries_map(e@),
    {
        proof {
            use_type_invariant(self);
        }
        &self.entries
    }

    fn find(&self, key: &String) -> (r: Option<usize>)
        ensures
            r is None ==> !self@.contains_key(key@),
            r is Some ==> r->0 < self.entries_spec().len() && self.entries_spec()[r->0 as int].0@ == key@
                && self@.contains_key(key@),
    {
        proof {
            use_type_invariant(self);
        }
        let mut i: usize = 0;
        while i < self.entries.len()
            invariant
                i <= self.entries@.len(),
                keys_unique(self.entries@),
                forall|j: int| 0 <= j < i ==> self.entries@[j].0@ != key@,
            decreases self.entries@.len() - i,
        {
            if self.entries[i].0 == *key {
                proof {
                    lemma_entry_at(self.entries@, i as int);
                }
                return Some(i);
            }
            i += 1;
        }
        None
    }

    /// Whether the map holds `key`.
    pub fn contains_key(&self, key: &str) -> (r: bool)
        ensures
            r == self@.contains_key(key@),
    {
        let k = key.to_owned();
        self.find(&k).is_some()
    }

    /// The value stored under `key`, if any.
    pub fn get(&self, key: &str) -> (r: Option<&V>)
        ensures
            r is Some <==> self@.contains_key(key@),
            r is Some ==> *r->0 == self@[key@],
    {
        proof {
            use_type_invariant(self);
        }
        let k = key.to_owned();
        match self.find(&k) {
            Some(i) => {
                proof {
                    lemma_entry_at(self.entries@, i as int);
                }
                Some(&self.entries[i].1)
            },
            None => None,
        }
    }

    /// Stores `value` under `key`; a key already held keeps its place.
    pub fn insert(&mut self, key: String, value: V)
        ensures
            final(self)@ == old(self)@.insert(key@, value),
    {
        proof {
            use_type_invariant(&*self);
        }
        let ghost old_e = self.entries@;
        match self.find(&key) {
            Some(i) => {
                let mut entries = Vec::new();
                std::mem::swap(&mut entries, &mut self.entries);
                entries.set(i, (key, value));
                proof {
                    let e = entries@;
                    assert(keys_unique(e));
                    assert forall|k: Seq<char>| #[trigger] entries_map(e).contains_key(k) == old(self)@.insert(key@, value).contains_key(k) by {
                        if has_key(old_e, k) {
                            let j = choose|j: int| 0 <= j < old_e.len() && #[trigger] old_e[j].0@ == k;
                            assert(e[j].0@ == k);
                        }
                        if has_key(e, k) {
                            let j = choose|j: int| 0 <= j < e.len() && #[trigger] e[j].0@ == k;
                            if j != i {
                                assert(old_e[j].0@ == k);
                            }
                        }
                    }
                    assert forall|k: Seq<char>| #[trigger] entries_map(e).contains_key(k) implies entries_map(e)[k] == old(self)@.insert(key@, value)[k] by {
                        let j = choose|j: int| 0 <= j < e.len() && #[trigger] e[j].0@ == k;
                        lemma_entry_at(e, j);
                        if j != i {
                            assert(old_e[j].0@ == k);
                            lemma_entry_at(old_e, j);
                        }
                    }
                    assert(entries_map(e) =~= old(self)@.insert(key@, value));
                }
                self.entries = entries;
            },
            None => {
                let ghost kk = key@;
                let mut entries = Vec::new();
                std::mem::swap(&mut entries, &mut self.entries);
                entries.push((key, value));
                proof {
                    let e = entries@;
                    assert(e == old_e.push((e[old_e.len() as int].0, value)));
                    assert forall|a: int, b: int| 0 <= a < e.len() && 0 <= b < e.len() && a != b implies e[a].0@ != e[b].0@ by {
                        if a == old_e.len() as int {
                            assert(!has_key(old_e, kk));
                            assert(old_e[b].0@ != kk);
                        } else if b == old_e.len() as int {
                            assert(!has_key(old_e, kk));
                            assert(old_e[a].0@ != kk);
                        }
                    }
                    assert forall|k: Seq<char>| #[trigger] entries_map(e).contains_key(k) == old(self)@.insert(kk, value).contains_key(k) by {
                        if has_key(old_e, k) {
                            let j = choose|j: int| 0 <= j < old_e.len() && #[trigger] old_e[j].0@ == k;
                            assert(e[j].0@ == k);
                        }
                        if has_key(e, k) {
                            let j = choose|j: int| 0 <= j < e.len() && #[trigger] e[j].0@ == k;
                            if j < old_e.len() {
                                assert(old_e[j].0@ == k);
                            }
                        }
                        if k == kk {
                            assert(e[old_e.len() as int].0@ == k);
                        }
                    }
                    assert forall|k: Seq<char>| #[trigger] entries_map(e).contains_key(k) implies entries_map(e)[k] == old(self)@.insert(kk, value)[k] by {
                        let j = choose|j: int| 0 <= j < e.len() && #[trigger] e[j].0@ == k;
                        lemma_entry_at(e, j);
                        if j < old_e.len() {
                            assert(old_e[j].0@ == k);
                            lemma_entry_at(old_e, j);
                        }
                    }
                    assert(entries_map(e) =~= old(self)@.insert(kk, value));
                }
                self.entries = entries;
            },
        }
    }

    /// Removes every key.
    pub fn clear(&mut self)
        ensures
            final(self)@ == Map::<Seq<char>, V>::empty(),
    {
        self.entries = Vec::new();
        proof {
            assert(entries_map(self.entries@) =~= Map::<Seq<char>, V>::empty());
        }
    }
}

impl<V> View for StrMap<V> {
    type V = Map<Seq<char>, V>;

    closed spec fn view(&self) -> Map<Seq<char>, V> {
        entries_map(self.entries@)
    }
}

proof fn lemma_map_len<V>(e: Seq<(String, V)>)
    requires
        keys_unique(e),
    ensures
        entries_map(e).len() == e.len(),
        entries_map(e).dom().finite(),
    decreases e.len(),
{
    if e.len() == 0 {
        assert(entries_map(e).dom() =~= Set::<Seq<char>>::empty());
    } else {
        let f = e.drop_last();
        let last = e[e.len() - 1];
        assert(keys_unique(f));
        lemma_map_len(f);
        assert forall|k: Seq<char>| #[trigger] entries_map(e).dom().contains(k) == entries_map(f).dom().insert(last.0@).contains(k) by {
            if has_key(e, k) {
                let j = choose|j: int| 0 <= j < e.len() && #[trigger] e[j].0@ == k;
                if j < f.len() {
                    assert(f[j].0@ == k);
                }
            }
            if has_key(f, k) {
                let j = choose|j: int| 0 <= j < f.len() && #[trigger] f[j].0@ == k;
                assert(e[j].0@ == k);
            }
            if k == last.0@ {
                assert(e[e.len() - 1].0@ == k);
            }
        }
        assert(entries_map(e).dom() =~= entries_map(f).dom().insert(last.0@));
        assert(!has_key(f, last.0@)) by {
            if has_key(f, last.0@) {
                let j = choose|j: int| 0 <= j < f.len() && #[trigger] f[j].0@ == last.0@;
                assert(e[j].0@ == e[e.len() - 1].0@);
            }
        }
    }
}

} // verus!
