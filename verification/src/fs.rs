//! A pure snapshot of the directory listings the engine may consult.
//!
//! The engine never reads the disk itself: the caller hands it a
//! `FileSystem` value holding, for each readable directory, the entries that
//! a scan of it produced.  A directory with no listing in the snapshot plays
//! the role of an unreadable one: constructing a tree from it fails, and a
//! lazy population attempt of it is silently skipped.

use vstd::prelude::*;
use crate::lex::lex_le;
use crate::path::TreePath;

verus! {

/// One entry of a directory listing, already classified.
pub struct DirEntry {
    pub name: String,
    pub is_directory: bool,
}

impl View for DirEntry {
    type V = (Seq<char>, bool);

    open spec fn view(&self) -> (Seq<char>, bool) {
        (self.name@, self.is_directory)
    }
}

impl Clone for DirEntry {
    /// The copy describes the same entry.
    fn clone(&self) -> (r: Self)
        ensures
            r@ == self@,
    {
        DirEntry { name: self.name.clone(), is_directory: self.is_directory }
    }
}

/// The views of a run of entries.
pub open spec fn entries_view(es: Seq<DirEntry>) -> Seq<(Seq<char>, bool)> {
    es.map_values(|e: DirEntry| e@)
}

pub struct FileSystem {
    pub listings: Vec<(TreePath, Vec<DirEntry>)>,
}

impl View for FileSystem {
    type V = Seq<(Seq<Seq<char>>, Seq<(Seq<char>, bool)>)>;

    open spec fn view(&self) -> Seq<(Seq<Seq<char>>, Seq<(Seq<char>, bool)>)> {
        self.listings@.map_values(
            |l: (TreePath, Vec<DirEntry>)| (l.0@, entries_view(l.1@)),
        )
    }
}

/// The entries of the first listing recorded for `path`, if any.
pub open spec fn lookup(
    fs: Seq<(Seq<Seq<char>>, Seq<(Seq<char>, bool)>)>,
    path: Seq<Seq<char>>,
) -> Option<Seq<(Seq<char>, bool)>>
    decreases fs.len(),
{
    if fs.len() == 0 {
        None
    } else if fs[0].0 == path {
        Some(fs[0].1)
    } else {
        lookup(fs.drop_first(), path)
    }
}

impl FileSystem {
    pub fn new() -> (r: Self)
        ensures
            r@ == Seq::<(Seq<Seq<char>>, Seq<(Seq<char>, bool)>)>::empty(),
    {
        let r = FileSystem { listings: Vec::new() };
        proof {
            assert(r@ =~~= Seq::<(Seq<Seq<char>>, Seq<(Seq<char>, bool)>)>::empty());
        }
        r
    }

    /// Records the scan result for one directory.
    pub fn add_listing(&mut self, path: TreePath, entries: Vec<DirEntry>)
        ensures
            final(self)@ == old(self)@.push((path@, entries_view(entries@))),
    {
        self.listings.push((path, entries));
        proof {
            assert(final(self)@ =~~= old(self)@.push(
                (final(self).listings@.last().0@, entries_view(final(self).listings@.last().1@)),
            ));
        }
    }

    /// A borrowed run of the entries recorded for `path`, if any.
    pub fn entries_of(&self, path: &TreePath) -> (r: Option<&Vec<DirEntry>>)
        ensures
            match lookup(self@, path@) {
                Some(es) => r matches Some(v) && entries_view(v@) == es,
                None => r is None,
            },
    {
        let mut i: usize = 0;
        proof {
            assert(self@.skip(0) =~~= self@);
        }
        while i < self.listings.len()
            invariant
                i <= self.listings@.len(),
                self@.len() == self.listings@.len(),
                lookup(self@, path@) == lookup(self@.skip(i as int), path@),
            decreases self.listings@.len() - i,
        {
            proof {
                assert(self@.skip(i as int)[0] == self@[i as int]);
                assert(self@.skip(i as int).drop_first() =~~= self@.skip(i as int + 1));
            }
            if self.listings[i].0.same_as(path) {
                proof {
                    assert(self@[i as int].0 == path@);
                }
                return Some(&self.listings[i].1);
            }
            proof {
                assert(self@[i as int].0 != path@);
            }
            i += 1;
        }
        proof {
            assert(self@.skip(i as int).len() == 0);
        }
        None
    }
}

/// `x` inserted into the already sorted `s`, before the first entry whose
/// name does not precede it.
pub open spec fn insert_sorted(x: (Seq<char>, bool), s: Seq<(Seq<char>, bool)>) -> Seq<
    (Seq<char>, bool),
>
    decreases s.len(),
{
    if s.len() == 0 {
        seq![x]
    } else if lex_le(x.0, s[0].0) {
        seq![x] + s
    } else {
        seq![s[0]] + insert_sorted(x, s.drop_first())
    }
}

/// The entries in ascending name order.
pub open spec fn sort_entries(s: Seq<(Seq<char>, bool)>) -> Seq<(Seq<char>, bool)>
    decreases s.len(),
{
    if s.len() == 0 {
        Seq::<(Seq<char>, bool)>::empty()
    } else {
        insert_sorted(s[0], sort_entries(s.drop_first()))
    }
}

/// Every pair of entries stands in ascending name order.
pub open spec fn level_le(s: Seq<(Seq<char>, bool)>) -> bool {
    forall|i: int, j: int| 0 <= i < j < s.len() ==> lex_le(s[i].0, s[j].0)
}

pub proof fn lemma_insert_sorted_le(x: (Seq<char>, bool), s: Seq<(Seq<char>, bool)>)
    requires
        level_le(s),
    ensures
        level_le(insert_sorted(x, s)),
        insert_sorted(x, s).len() == s.len() + 1,
        forall|j: int|
            0 <= j < insert_sorted(x, s).len() ==> insert_sorted(x, s)[j] == x || s.contains(
                insert_sorted(x, s)[j],
            ),
    decreases s.len(),
{
    let r = insert_sorted(x, s);
    if s.len() == 0 {
        assert(r[0] == x);
    } else if lex_le(x.0, s[0].0) {
        assert forall|i: int, j: int| 0 <= i < j < r.len() implies lex_le(r[i].0, r[j].0) by {
            if i == 0 {
                if j > 1 {
                    assert(lex_le(s[0].0, s[j - 1].0));
                    crate::lex::lemma_lex_le_trans(x.0, s[0].0, s[j - 1].0);
                }
            } else {
                assert(lex_le(s[i - 1].0, s[j - 1].0));
            }
        }
        assert forall|j: int| 0 <= j < r.len() implies r[j] == x || s.contains(r[j]) by {
            if j > 0 {
                assert(r[j] == s[j - 1]);
            }
        }
    } else {
        crate::lex::lemma_lex_le_total(x.0, s[0].0);
        assert forall|i: int, j: int|
            0 <= i < j < s.drop_first().len() implies lex_le(
            s.drop_first()[i].0,
            s.drop_first()[j].0,
        ) by {
            assert(s.drop_first()[i] == s[i + 1]);
            assert(s.drop_first()[j] == s[j + 1]);
        }
        lemma_insert_sorted_le(x, s.drop_first());
        let rest = insert_sorted(x, s.drop_first());
        assert forall|i: int, j: int| 0 <= i < j < r.len() implies lex_le(r[i].0, r[j].0) by {
            if i == 0 {
                assert(r[j] == rest[j - 1]);
                if rest[j - 1] == x {
                } else {
                    assert(s.drop_first().contains(rest[j - 1]));
                    let k = choose|k: int|
                        0 <= k < s.drop_first().len() && s.drop_first()[k] == rest[j - 1];
                    assert(s.drop_first()[k] == s[k + 1]);
                    assert(lex_le(s[0].0, s[k + 1].0));
                }
            } else {
                assert(r[i] == rest[i - 1] && r[j] == rest[j - 1]);
            }
        }
        assert forall|j: int| 0 <= j < r.len() implies r[j] == x || s.contains(r[j]) by {
            if j == 0 {
                assert(s[0] == r[0]);
                assert(s.contains(s[0]));
            } else {
                assert(r[j] == rest[j - 1]);
                if rest[j - 1] != x {
                    assert(s.drop_first().contains(rest[j - 1]));
                    let k = choose|k: int|
                        0 <= k < s.drop_first().len() && s.drop_first()[k] == rest[j - 1];
                    assert(s[k + 1] == rest[j - 1]);
                }
            }
        }
    }
}

pub proof fn lemma_sort_entries(s: Seq<(Seq<char>, bool)>)
    ensures
        level_le(sort_entries(s)),
        sort_entries(s).len() == s.len(),
    decreases s.len(),
{
    if s.len() > 0 {
        lemma_sort_entries(s.drop_first());
        lemma_insert_sorted_le(s[0], sort_entries(s.drop_first()));
    }
}

/// Builds `insert_sorted(x@, v@)` executably.
pub fn insert_entry(x: DirEntry, mut v: Vec<DirEntry>) -> (r: Vec<DirEntry>)
    ensures
        entries_view(r@) == insert_sorted(x@, entries_view(v@)),
    decreases v@.len(),
{
    if v.len() == 0 {
        let mut r: Vec<DirEntry> = Vec::new();
        r.push(x);
        proof {
            assert(entries_view(r@) =~~= insert_sorted(x@, entries_view(v@)));
        }
        r
    } else {
        let ghost v0 = entries_view(v@);
        proof {
            assert(v0[0] == v@[0]@);
        }
        if crate::lex::str_le(x.name.as_str(), v[0].name.as_str()) {
            v.insert(0, x);
            proof {
                assert(entries_view(v@) =~~= seq![x@] + v0);
            }
            v
        } else {
            let h = v.remove(0);
            let ghost tail = entries_view(v@);
            proof {
                assert(v0.drop_first() =~~= tail);
            }
            let mut r = insert_entry(x, v);
            r.insert(0, h);
            proof {
                assert(entries_view(r@) =~~= seq![h@] + insert_sorted(x@, tail));
            }
            r
        }
    }
}

/// Sorts the entries by name, executably mirroring `sort_entries`.
pub fn sort_entry_vec(mut v: Vec<DirEntry>) -> (r: Vec<DirEntry>)
    ensures
        entries_view(r@) == sort_entries(entries_view(v@)),
    decreases v@.len(),
{
    if v.len() == 0 {
        proof {
            assert(entries_view(v@) =~~= Seq::<(Seq<char>, bool)>::empty());
        }
        v
    } else {
        let ghost v0 = entries_view(v@);
        let h = v.remove(0);
        proof {
            assert(v0[0] == h@);
            assert(v0.drop_first() =~~= entries_view(v@));
        }
        let sorted = sort_entry_vec(v);
        insert_entry(h, sorted)
    }
}

} // verus!
