//! The canonical identity of a filesystem entry: its ordered sequence of
//! path components.  Two nodes denote the same entry exactly when their
//! component sequences are equal.

use vstd::prelude::*;

verus! {

pub struct TreePath {
    pub parts: Vec<String>,
}

impl View for TreePath {
    type V = Seq<Seq<char>>;

    open spec fn view(&self) -> Seq<Seq<char>> {
        self.parts@.map_values(|s: String| s@)
    }
}

impl Clone for TreePath {
    /// The copy denotes the same filesystem entry.
    fn clone(&self) -> (r: Self)
        ensures
            r@ == self@,
    {
        let mut parts: Vec<String> = Vec::new();
        let mut i: usize = 0;
        while i < self.parts.len()
            invariant
                i <= self.parts@.len(),
                parts@.len() == i,
                forall|m: int| 0 <= m < i ==> parts@[m]@ == self.parts@[m]@,
            decreases self.parts@.len() - i,
        {
            parts.push(self.parts[i].clone());
            i += 1;
        }
        let r = TreePath { parts };
        proof {
            assert(r@ =~~= self@);
        }
        r
    }
}

impl TreePath {
    /// The path with no components.
    pub fn empty() -> (r: Self)
        ensures
            r@ == Seq::<Seq<char>>::empty(),
    {
        let r = TreePath { parts: Vec::new() };
        proof {
            assert(r@ =~~= Seq::<Seq<char>>::empty());
        }
        r
    }

    /// The path one component deeper.
    pub fn child(&self, name: &String) -> (r: Self)
        ensures
            r@ == self@.push(name@),
    {
        let mut r = self.clone();
        r.parts.push(name.clone());
        proof {
            assert(r@ =~~= self@.push(name@));
        }
        r
    }

    /// The prefix made of the first `k` components.
    pub fn prefix(&self, k: usize) -> (r: Self)
        requires
            k <= self@.len(),
        ensures
            r@ == self@.subrange(0, k as int),
    {
        let mut parts: Vec<String> = Vec::new();
        let mut i: usize = 0;
        while i < k
            invariant
                i <= k,
                k <= self.parts@.len(),
                parts@.len() == i,
                forall|m: int| 0 <= m < i ==> parts@[m]@ == self.parts@[m]@,
            decreases k - i,
        {
            parts.push(self.parts[i].clone());
            i += 1;
        }
        let r = TreePath { parts };
        proof {
            assert(r@ =~~= self@.subrange(0, k as int));
        }
        r
    }

    pub fn len(&self) -> (n: usize)
        ensures
            n == self@.len(),
    {
        self.parts.len()
    }

    /// Whether the two paths denote the same filesystem entry.
    pub fn same_as(&self, other: &TreePath) -> (r: bool)
        ensures
            r == (self@ == other@),
    {
        if self.parts.len() != other.parts.len() {
            proof {
                assert(self@.len() != other@.len());
            }
            return false;
        }
        let mut i: usize = 0;
        while i < self.parts.len()
            invariant
                i <= self.parts@.len(),
                self.parts@.len() == other.parts@.len(),
                forall|m: int| 0 <= m < i ==> self@[m] == other@[m],
            decreases self.parts@.len() - i,
        {
            if !self.parts[i].eq(&other.parts[i]) {
                proof {
                    assert(self@[i as int] != other@[i as int]);
                }
                return false;
            }
            i += 1;
        }
        proof {
            assert(self@ =~~= other@);
        }
        true
    }
}

} // verus!
