//! A registry that assigns monotonically increasing integer identities to
//! inserted values, with ordered iteration and lookup by identity.
//!
//! The next key is recomputed from the current maximum live key, not taken
//! from an ever-advancing counter: removing the current maximum and inserting
//! again reuses that freed key, while freed keys below the maximum are never
//! reused.

use vstd::prelude::*;

verus! {

/// The first position of `key` in `keys`, if any.
pub open spec fn find_slot(keys: Seq<usize>, key: usize) -> Option<int>
    decreases keys.len(),
{
    if keys.len() == 0 {
        None
    } else if keys[0] == key {
        Some(0int)
    } else {
        match find_slot(keys.drop_first(), key) {
            Some(i) => Some(i + 1),
            None => None,
        }
    }
}

/// `find_slot` finds exactly the first occurrence, and `None` means absence.
pub proof fn lemma_find_slot(keys: Seq<usize>, key: usize)
    ensures
        match find_slot(keys, key) {
            Some(i) => 0 <= i < keys.len() && keys[i] == key && forall|m: int|
                0 <= m < i ==> keys[m] != key,
            None => forall|m: int| 0 <= m < keys.len() ==> keys[m] != key,
        },
    decreases keys.len(),
{
    if keys.len() > 0 && keys[0] != key {
        let rest = keys.drop_first();
        lemma_find_slot(rest, key);
        match find_slot(rest, key) {
            Some(i) => {
                assert(keys[i + 1] == rest[i]);
                assert forall|m: int| 0 <= m < i + 1 implies keys[m] != key by {
                    if m >= 1 {
                        assert(keys[m] == rest[m - 1]);
                    }
                }
            },
            None => {
                assert forall|m: int| 0 <= m < keys.len() implies keys[m] != key by {
                    if m >= 1 {
                        assert(keys[m] == rest[m - 1]);
                    }
                }
            },
        }
    }
}

pub struct AutoKeyMap<T> {
    pub keys: Vec<usize>,
    pub values: Vec<T>,
}

impl<T> AutoKeyMap<T> {
    /// Keys are strictly ascending and each key owns exactly one value.
    pub open spec fn wf(&self) -> bool {
        &&& self.keys@.len() == self.values@.len()
        &&& forall|i: int, j: int|
            0 <= i < j < self.keys@.len() ==> self.keys@[i] < self.keys@[j]
    }

    /// The live keys, in ascending order.
    pub open spec fn spec_keys(&self) -> Seq<usize> {
        self.keys@
    }

    /// The values, ordered by ascending key.
    pub open spec fn spec_values(&self) -> Seq<T> {
        self.values@
    }

    /// The key the next insertion will be given: one more than the current
    /// maximum live key, or 0 when the registry is empty.
    pub open spec fn spec_next_key(&self) -> int {
        if self.keys@.len() == 0 {
            0
        } else {
            self.keys@.last() + 1
        }
    }

    pub fn new() -> (r: Self)
        ensures
            r.wf(),
            r.spec_keys() == Seq::<usize>::empty(),
            r.spec_values() == Seq::<T>::empty(),
    {
        AutoKeyMap { keys: Vec::new(), values: Vec::new() }
    }

    pub fn len(&self) -> (n: usize)
        requires
            self.wf(),
        ensures
            n == self.spec_keys().len(),
    {
        self.keys.len()
    }

    /// Assigns the next key to `value` and returns it.  An insertion into an
    /// empty registry always returns key 0.
    pub fn insert(&mut self, value: T) -> (key: usize)
        requires
            old(self).wf(),
            old(self).spec_next_key() <= usize::MAX,
        ensures
            final(self).wf(),
            key == old(self).spec_next_key(),
            old(self).spec_keys().len() == 0 ==> key == 0,
            final(self).spec_keys() == old(self).spec_keys().push(key),
            final(self).spec_values() == old(self).spec_values().push(value),
    {
        let key: usize = if self.keys.len() == 0 {
            0
        } else {
            self.keys[self.keys.len() - 1] + 1
        };
        self.keys.push(key);
        self.values.push(value);
        key
    }

    /// Removes and returns the value stored under `key`; absence is reported
    /// as `None`, not as an error.
    pub fn remove(&mut self, key: usize) -> (r: Option<T>)
        requires
            old(self).wf(),
        ensures
            final(self).wf(),
            match find_slot(old(self).spec_keys(), key) {
                Some(i) => r == Some(old(self).spec_values()[i])
                    && final(self).spec_keys() == old(self).spec_keys().remove(i)
                    && final(self).spec_values() == old(self).spec_values().remove(i),
                None => r is None && *final(self) == *old(self),
            },
    {
        proof {
            lemma_find_slot(self.keys@, key);
        }
        let mut j: usize = 0;
        while j < self.keys.len()
            invariant
                self.wf(),
                *self == *old(self),
                j <= self.keys@.len(),
                forall|m: int| 0 <= m < j ==> self.keys@[m] != key,
            decreases self.keys@.len() - j,
        {
            if self.keys[j] == key {
                proof {
                    lemma_find_slot_found(self.keys@, key, j as int);
                }
                self.keys.remove(j);
                let v = self.values.remove(j);
                proof {
                    old(self).keys@.remove_ensures(j as int);
                    old(self).values@.remove_ensures(j as int);
                    assert forall|a: int, b: int|
                        0 <= a < b < self.keys@.len() implies self.keys@[a] < self.keys@[b] by {
                        assert(self.keys@[a] == if a < j {
                            old(self).keys@[a]
                        } else {
                            old(self).keys@[a + 1]
                        });
                        assert(self.keys@[b] == if b < j {
                            old(self).keys@[b]
                        } else {
                            old(self).keys@[b + 1]
                        });
                    }
                }
                return Some(v);
            }
            j += 1;
        }
        None
    }

    pub fn get(&self, key: usize) -> (r: Option<&T>)
        requires
            self.wf(),
        ensures
            match find_slot(self.spec_keys(), key) {
                Some(i) => r matches Some(v) && *v == self.spec_values()[i],
                None => r is None,
            },
    {
        proof {
            lemma_find_slot(self.keys@, key);
        }
        let mut j: usize = 0;
        while j < self.keys.len()
            invariant
                self.wf(),
                j <= self.keys@.len(),
                forall|m: int| 0 <= m < j ==> self.keys@[m] != key,
            decreases self.keys@.len() - j,
        {
            if self.keys[j] == key {
                proof {
                    lemma_find_slot_found(self.keys@, key, j as int);
                }
                return Some(&self.values[j]);
            }
            j += 1;
        }
        None
    }

    pub fn get_mut(&mut self, key: usize) -> (r: Option<&mut T>)
        requires
            old(self).wf(),
        ensures
            final(self).wf(),
            final(self).spec_keys() == old(self).spec_keys(),
            match find_slot(old(self).spec_keys(), key) {
                Some(i) => r matches Some(v) && *v == old(self).spec_values()[i]
                    && final(self).spec_values() == old(self).spec_values().update(
                    i,
                    *final(r.unwrap()),
                ),
                None => r is None && final(self).spec_values() == old(self).spec_values(),
            },
    {
        proof {
            lemma_find_slot(self.keys@, key);
        }
        let mut j: usize = 0;
        while j < self.keys.len()
            invariant
                self.wf(),
                self.keys@ == old(self).keys@,
                self.values@ == old(self).values@,
                j <= self.keys@.len(),
                forall|m: int| 0 <= m < j ==> self.keys@[m] != key,
            decreases self.keys@.len() - j,
        {
            if self.keys[j] == key {
                proof {
                    lemma_find_slot_found(self.keys@, key, j as int);
                }
                return Some(&mut self.values[j]);
            }
            j += 1;
        }
        None
    }

    /// Mutable access to the values, ordered by ascending key.  The order is
    /// fixed up front, so mutation through the result cannot disturb it.
    pub fn values_mut(&mut self) -> (r: &mut Vec<T>)
        requires
            old(self).wf(),
        ensures
            *r == old(self).values,
            r@ == old(self).spec_values(),
            final(self).spec_keys() == old(self).spec_keys(),
            final(self).spec_values() == final(r)@,
            final(r)@.len() == old(self).spec_values().len() ==> final(self).wf(),
    {
        &mut self.values
    }

    /// A fresh snapshot of the `(key, value)` pairs in ascending key order.
    pub fn entries(&self) -> (r: Vec<(usize, &T)>)
        requires
            self.wf(),
        ensures
            r@.len() == self.spec_keys().len(),
            forall|i: int|
                0 <= i < r@.len() ==> r@[i].0 == self.spec_keys()[i] && *(r@[i].1)
                    == self.spec_values()[i],
            forall|i: int, j: int| 0 <= i < j < r@.len() ==> r@[i].0 < r@[j].0,
    {
        let mut r: Vec<(usize, &T)> = Vec::new();
        let mut j: usize = 0;
        while j < self.keys.len()
            invariant
                self.wf(),
                j <= self.keys@.len(),
                r@.len() == j,
                forall|i: int|
                    0 <= i < j ==> r@[i].0 == self.keys@[i] && *(r@[i].1) == self.values@[i],
            decreases self.keys@.len() - j,
        {
            let ghost prev = r@;
            r.push((self.keys[j], &self.values[j]));
            proof {
                assert forall|i: int| 0 <= i < j + 1 implies r@[i].0 == self.keys@[i] && *(
                r@[i].1) == self.values@[i] by {
                    if i < j {
                        assert(r@[i] == prev[i]);
                    }
                }
            }
            j += 1;
        }
        proof {
            assert forall|i: int, j2: int| 0 <= i < j2 < r@.len() implies r@[i].0 < r@[j2].0 by {
                assert(self.keys@[i] < self.keys@[j2]);
            }
        }
        r
    }

    /// A fresh snapshot of the keys in ascending order.
    pub fn keys(&self) -> (r: Vec<usize>)
        requires
            self.wf(),
        ensures
            r@ == self.spec_keys(),
            forall|i: int, j: int| 0 <= i < j < r@.len() ==> r@[i] < r@[j],
    {
        let mut r: Vec<usize> = Vec::new();
        let mut j: usize = 0;
        while j < self.keys.len()
            invariant
                j <= self.keys@.len(),
                r@ == self.keys@.subrange(0, j as int),
            decreases self.keys@.len() - j,
        {
            r.push(self.keys[j]);
            j += 1;
        }
        proof {
            assert(r@ =~= self.keys@);
        }
        r
    }
}

/// Helper for the linear searches above: a first hit at position `j` is what
/// `find_slot` returns.
pub proof fn lemma_find_slot_found(keys: Seq<usize>, key: usize, j: int)
    requires
        0 <= j < keys.len(),
        keys[j] == key,
        forall|m: int| 0 <= m < j ==> keys[m] != key,
    ensures
        find_slot(keys, key) == Some(j),
    decreases keys.len(),
{
    if j > 0 {
        lemma_find_slot_found(keys.drop_first(), key, j - 1);
    }
}

/// One step of insertion: `after` is `before` with `value` stored under `key`.
pub open spec fn insert_step<T>(before: AutoKeyMap<T>, after: AutoKeyMap<T>, value: T, key: usize) -> bool {
    &&& key == before.spec_next_key()
    &&& after.spec_keys() == before.spec_keys().push(key)
    &&& after.spec_values() == before.spec_values().push(value)
}

/// Keys handed out by insertions with no removal between them are strictly
/// increasing: the second of two consecutive insertions always receives a key
/// one above the first.
pub proof fn lemma_insert_keys_strictly_increase<T>(
    m0: AutoKeyMap<T>,
    m1: AutoKeyMap<T>,
    m2: AutoKeyMap<T>,
    v1: T,
    v2: T,
    k1: usize,
    k2: usize,
)
    requires
        m0.wf(),
        insert_step(m0, m1, v1, k1),
        insert_step(m1, m2, v2, k2),
    ensures
        k2 == k1 + 1,
        k1 < k2,
        forall|i: int| 0 <= i < m0.spec_keys().len() ==> m0.spec_keys()[i] < k1,
{
    assert(m1.spec_keys().last() == k1);
    assert forall|i: int| 0 <= i < m0.spec_keys().len() implies m0.spec_keys()[i] < k1 by {
        if m0.spec_keys().len() > 0 {
            let last: int = m0.spec_keys().len() - 1;
            assert(i < last ==> m0.spec_keys()[i] < m0.spec_keys()[last]);
        }
    }
}

} // verus!
