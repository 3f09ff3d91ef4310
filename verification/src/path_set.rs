//! A set of file paths, kept as a list without repetitions.

use vstd::prelude::*;

use crate::repo::texts;

verus! {

/// A finite set of paths. The paths are held in insertion order, each once,
/// so that membership is a question about their texts, which Verus can
/// answer. vstd describes what a `HashSet` holds only for keys that obey its
/// key model, and `String` is not among them.
#[derive(Debug)]
pub struct PathSet {
    items: Vec<String>,
}

impl View for PathSet {
    type V = Set<Seq<char>>;

    closed spec fn view(&self) -> Set<Seq<char>> {
        texts(self.items@).to_set()
    }
}

impl PathSet {
    #[verifier::type_invariant]
    closed spec fn inv(self) -> bool {
        texts(self.items@).no_duplicates()
    }

    /// The number of paths in the set.
    pub closed spec fn size(&self) -> nat {
        self.items@.len()
    }

    /// The number of paths in the set.
    pub fn len(&self) -> (res: usize)
        ensures
            self@.finite(),
            res == self@.len(),
            res == self.size(),
    {
        proof {
            use_type_invariant(self);
            texts(self.items@).unique_seq_to_set();
        }
        self.items.len()
    }

    /// An empty set.
    pub fn new() -> (res: PathSet)
        ensures
            res@ == Set::<Seq<char>>::empty(),
            res.size() == 0,
    {
        let res = PathSet { items: Vec::new() };
        proof {
            assert(texts(res.items@).to_set() =~= Set::<Seq<char>>::empty());
        }
        res
    }

    /// Whether `path` is in the set.
    pub fn contains(&self, path: &String) -> (res: bool)
        ensures
            res == self@.contains(path@),
    {
        let mut i: usize = 0;
        while i < self.items.len()
            invariant
                i <= self.items@.len(),
                forall|k: int| 0 <= k < i ==> self.items@[k]@ != path@,
            decreases self.items@.len() - i,
        {
            if self.items[i] == *path {
                proof {
                    assert(texts(self.items@)[i as int] == path@);
                }
                return true;
            }
            i = i + 1;
        }
        proof {
            if texts(self.items@).contains(path@) {
                let k = choose|k: int| 0 <= k < texts(self.items@).len() && texts(self.items@)[k] == path@;
                assert(self.items@[k]@ == path@);
            }
        }
        false
    }

    /// Whether the set is empty.
    pub fn is_empty(&self) -> (res: bool)
        ensures
            res == (self@ == Set::<Seq<char>>::empty()),
    {
        proof {
            if self.items@.len() > 0 {
                assert(self@.contains(texts(self.items@)[0]));
            } else {
                assert(self@ =~= Set::<Seq<char>>::empty());
            }
        }
        self.items.len() == 0
    }

    /// Adds `path` to the set.
    pub fn insert(&mut self, path: String)
        ensures
            final(self)@ == old(self)@.insert(path@),
            final(self).size() == old(self).size() + (if old(self)@.contains(path@) {
                0int
            } else {
                1int
            }),
    {
        proof {
            use_type_invariant(&*self);
        }
        if !self.contains(&path) {
            let ghost before = texts(self.items@);
            let mut items: Vec<String> = Vec::new();
            std::mem::swap(&mut items, &mut self.items);
            let ghost p = path@;
            items.push(path);
            proof {
                assert(texts(items@) =~= before.push(p));
                assert(!before.contains(p));
                assert forall|x: int, y: int|
                    0 <= x < y < texts(items@).len() implies texts(items@)[x] != texts(
                        items@,
                    )[y] by {
                    if y == before.len() {
                        assert(texts(items@)[x] == before[x]);
                    } else {
                        assert(texts(items@)[x] == before[x]);
                        assert(texts(items@)[y] == before[y]);
                    }
                }
            }
            self.items = items;
            proof {
                assert forall|t: Seq<char>| texts(self.items@).to_set().contains(t) <==> before.to_set().insert(p).contains(t) by {
                    if texts(self.items@).contains(t) {
                        let k = choose|k: int| 0 <= k < texts(self.items@).len() && texts(self.items@)[k] == t;
                        if k < before.len() {
                            assert(before[k] == t);
                        }
                    }
                    if before.contains(t) {
                        let k = choose|k: int| 0 <= k < before.len() && before[k] == t;
                        assert(texts(self.items@)[k] == t);
                    }
                    if t == p {
                        assert(texts(self.items@)[before.len() as int] == t);
                    }
                }
                assert(texts(self.items@).to_set() =~= before.to_set().insert(p));
            }
        } else {
            proof {
                assert(old(self)@.insert(path@) =~= old(self)@);
            }
        }
    }

    /// Removes `path` from the set.
    pub fn remove(&mut self, path: &String)
        ensures
            final(self)@ == old(self)@.remove(path@),
            final(self).size() == old(self).size() - (if old(self)@.contains(path@) {
                1int
            } else {
                0int
            }),
    {
        proof {
            use_type_invariant(&*self);
        }
        let mut i: usize = 0;
        while i < self.items.len()
            invariant
                i <= self.items@.len(),
                self.items@ == old(self).items@,
                texts(self.items@).no_duplicates(),
                forall|k: int| 0 <= k < i ==> self.items@[k]@ != path@,
            decreases self.items@.len() - i,
        {
            if self.items[i] == *path {
                let ghost before = texts(self.items@);
                let mut items: Vec<String> = Vec::new();
                std::mem::swap(&mut items, &mut self.items);
                items.remove(i);
                proof {
                    assert(texts(items@) =~= before.remove(i as int));
                    assert forall|x: int, y: int|
                        0 <= x < y < texts(items@).len() implies texts(items@)[x] != texts(
                            items@,
                        )[y] by {
                        let bx = if x < i { x } else { x + 1 };
                        let by_ = if y < i { y } else { y + 1 };
                        assert(texts(items@)[x] == before[bx]);
                        assert(texts(items@)[y] == before[by_]);
                    }
                }
                self.items = items;
                proof {
                    assert(texts(items@) =~= before.remove(i as int));
                    assert(before[i as int] == path@);
                    assert forall|t: Seq<char>| texts(self.items@).to_set().contains(t) <==> old(
                        self,
                    )@.remove(path@).contains(t) by {
                        if texts(self.items@).contains(t) {
                            let k = choose|k: int| 0 <= k < texts(self.items@).len() && texts(
                                self.items@,
                            )[k] == t;
                            if k < i {
                                assert(before[k] == t);
                                assert(t != path@);
                            } else {
                                assert(before[k + 1] == t);
                                assert(t != path@);
                            }
                        }
                        if old(self)@.remove(path@).contains(t) {
                            let k = choose|k: int| 0 <= k < before.len() && before[k] == t;
                            assert(k != i);
                            if k < i {
                                assert(texts(self.items@)[k] == t);
                            } else {
                                assert(texts(self.items@)[k - 1] == t);
                            }
                        }
                    }
                    assert(texts(self.items@).to_set() =~= old(self)@.remove(path@));
                    assert(old(self)@.contains(path@)) by {
                        assert(before[i as int] == path@);
                    }
                }
                return;
            }
            i = i + 1;
        }
        proof {
            if texts(self.items@).contains(path@) {
                let k = choose|k: int| 0 <= k < texts(self.items@).len() && texts(self.items@)[k] == path@;
                assert(self.items@[k]@ == path@);
            }
            assert(old(self)@.remove(path@) =~= old(self)@);
        }
    }

    /// Removes every path.
    pub fn clear(&mut self)
        ensures
            final(self)@ == Set::<Seq<char>>::empty(),
            final(self).size() == 0,
    {
        self.items = Vec::new();
        proof {
            assert(texts(self.items@).to_set() =~= Set::<Seq<char>>::empty());
        }
    }
}

} // verus!
