//! A map keyed by strings, kept as a list of entries with distinct keys.

use vstd::prelude::*;

verus! {

/// A finite map from strings to values. No key occurs twice, and an entry
/// keeps its place from the first insertion of its key.
#[derive(Debug)]
pub struct StrMap<V> {
    entries: Vec<(String, V)>,
}

impl<V: View> View for StrMap<V> {
    type V = Map<Seq<char>, V::V>;

    closed spec fn view(&self) -> Map<Seq<char>, V::V> {
        Map::new(
            |k: Seq<char>| self.holds(k),
            |k: Seq<char>| self.entries@[self.place(k)].1@,
        )
    }
}

impl<V> StrMap<V> {
    #[verifier::type_invariant]
    closed spec fn keys_distinct(&self) -> bool {
        forall|i: int, j: int|
            0 <= i < j < self.entries@.len() ==> self.entries@[i].0@ != self.entries@[j].0@
    }

    /// Whether some entry has the key `k`.
    closed spec fn holds(&self, k: Seq<char>) -> bool {
        exists|i: int| 0 <= i < self.entries@.len() && #[trigger] self.entries@[i].0@ == k
    }

    /// The index of an entry with the key `k`, where there is one.
    closed spec fn place(&self, k: Seq<char>) -> int {
        choose|i: int| 0 <= i < self.entries@.len() && #[trigger] self.entries@[i].0@ == k
    }
}

impl<V: View> StrMap<V> {
    /// The map without entries.
    pub fn new() -> (res: Self)
        ensures
            res@ == Map::<Seq<char>, V::V>::empty(),
    {
        let res = StrMap { entries: Vec::new() };
        assert(res@ =~= Map::<Seq<char>, V::V>::empty());
        res
    }

    /// The index of the entry whose key is `key`, or the number of entries
    /// where no entry has it.
    fn find(&self, key: &String) -> (i: usize)
        ensures
            i <= self.entries@.len(),
            i < self.entries@.len() ==> self.entries@[i as int].0@ == key@,
            i == self.entries@.len() ==> !self.holds(key@),
    {
        let n: usize = self.entries.len();
        let mut i: usize = 0;
        while i < n
            invariant
                n == self.entries@.len(),
                i <= n,
                forall|j: int| 0 <= j < i ==> self.entries@[j].0@ != key@,
            decreases n - i,
        {
            if self.entries[i].0 == *key {
                return i;
            }
            i = i + 1;
        }
        i
    }

    /// The value stored under `key`, if there is one.
    pub fn get(&self, key: &str) -> (res: Option<&V>)
        ensures
            match res {
                Some(v) => self@.contains_key(key@) && self@[key@] == v@,
                None => !self@.contains_key(key@),
            },
    {
        let owned = String::from_str(key);
        let i: usize = self.find(&owned);
        proof {
            use_type_invariant(self);
        }
        if i < self.entries.len() {
            assert(self.holds(key@));
            Some(&self.entries[i].1)
        } else {
            None
        }
    }

    /// Stores `value` under `key`, in place of the value that was there, if any.
    pub fn insert(&mut self, key: String, value: V)
        ensures
            final(self)@ == old(self)@.insert(key@, value@),
    {
        let i: usize = self.find(&key);
        proof {
            use_type_invariant(&*self);
        }
        let ghost before = *self;
        let ghost k = key@;
        let ghost val = value@;
        let mut taken = StrMap { entries: Vec::new() };
        core::mem::swap(self, &mut taken);
        let mut entries = taken.entries;
        if i < entries.len() {
            entries[i].1 = value;
        } else {
            entries.push((key, value));
        }
        *self = StrMap { entries };
        proof {
            let after = *self;
            assert forall|q: Seq<char>| after.holds(q) <==> (q == k || before.holds(q)) by {
                if after.holds(q) {
                    let j = after.place(q);
                    if j < before.entries@.len() {
                        assert(before.entries@[j].0@ == q);
                    }
                }
                if before.holds(q) {
                    let j = before.place(q);
                    assert(after.entries@[j].0@ == q);
                }
                if q == k {
                    if i < before.entries@.len() {
                        assert(after.entries@[i as int].0@ == q);
                    } else {
                        assert(after.entries@[before.entries@.len() as int].0@ == q);
                    }
                }
            }
            assert forall|q: Seq<char>| after.holds(q) implies #[trigger] after@[q]
                == before@.insert(k, val)[q] by {
                let j = after.place(q);
                if q != k {
                    assert(before.entries@[j].0@ == q);
                    assert(before.holds(q));
                    let h = before.place(q);
                    assert(h == j);
                }
            }
            assert(after@ =~= before@.insert(k, val));
        }
    }
}

} // verus!
