//! Children discovered during a walk, kept by the path of their parent until
//! the tree is assembled.
use vstd::prelude::*;

verus! {

/// The children found so far under one directory path, by node id.
pub struct Branch {
    pub path: String,
    pub children: Vec<usize>,
}

/// A map from directory path to the ids of the children found under it,
/// held as a list of branches with distinct paths.
pub struct PendingBranches {
    pub entries: Vec<Branch>,
}

/// The paths of the branches are distinct.
pub open spec fn keys_unique(v: Seq<Branch>) -> bool {
    forall|i: int, j: int|
        0 <= i < v.len() && 0 <= j < v.len() && i != j ==> (#[trigger] v[i]).path@ != (
        #[trigger] v[j]).path@
}

/// Some branch has the path `k`.
pub open spec fn has_key(v: Seq<Branch>, k: Seq<char>) -> bool {
    exists|i: int| 0 <= i < v.len() && (#[trigger] v[i]).path@ == k
}

/// The position of a branch with the path `k`.
pub open spec fn key_index(v: Seq<Branch>, k: Seq<char>) -> int {
    choose|i: int| 0 <= i < v.len() && (#[trigger] v[i]).path@ == k
}

/// The map that a list of branches with distinct paths stands for.
pub open spec fn branch_map(v: Seq<Branch>) -> Map<Seq<char>, Seq<usize>> {
    Map::new(|k: Seq<char>| has_key(v, k), |k: Seq<char>| v[key_index(v, k)].children@)
}

proof fn lemma_key_index(v: Seq<Branch>, i: int)
    requires
        keys_unique(v),
        0 <= i < v.len(),
    ensures
        has_key(v, v[i].path@),
        key_index(v, v[i].path@) == i,
{
    let k = v[i].path@;
    assert(v[i].path@ == k);
    let j = key_index(v, k);
    assert(0 <= j < v.len() && v[j].path@ == k);
}

impl View for PendingBranches {
    type V = Map<Seq<char>, Seq<usize>>;

    open spec fn view(&self) -> Map<Seq<char>, Seq<usize>> {
        branch_map(self.entries@)
    }
}

impl PendingBranches {
    pub open spec fn wf(&self) -> bool {
        keys_unique(self.entries@)
    }

    /// An empty map.
    pub fn new() -> (r: Self)
        ensures
            r@ == Map::<Seq<char>, Seq<usize>>::empty(),
            r.wf(),
    {
        let r = PendingBranches { entries: Vec::new() };
        assert(r@ =~= Map::<Seq<char>, Seq<usize>>::empty());
        r
    }

    /// The position of the branch with the path `path`.
    fn find(&self, path: &str) -> (r: Option<usize>)
        requires
            self.wf(),
        ensures
            r matches Some(i) ==> i < self.entries@.len() && self.entries@[i as int].path@ == path@
                && self@.contains_key(path@) && self@[path@] == self.entries@[i as int].children@,
            r is None ==> !self@.contains_key(path@),
    {
        let key = path.to_owned();
        let mut i: usize = 0;
        while i < self.entries.len()
            invariant
                i <= self.entries@.len(),
                key@ == path@,
                self.wf(),
                forall|j: int| 0 <= j < i ==> (#[trigger] self.entries@[j]).path@ != path@,
            decreases self.entries.len() - i,
        {
            if self.entries[i].path == key {
                proof {
                    lemma_key_index(self.entries@, i as int);
                }
                return Some(i);
            }
            i = i + 1;
        }
        None
    }

    /// Makes sure that a branch with the path `path` exists; a new one is
    /// empty.
    pub fn ensure(&mut self, path: String)
        requires
            old(self).wf(),
        ensures
            final(self).wf(),
            final(self)@ == if old(self)@.contains_key(path@) {
                old(self)@
            } else {
                old(self)@.insert(path@, Seq::empty())
            },
    {
        match self.find(path.as_str()) {
            Some(_) => {},
            None => {
                let ghost k = path@;
                let ghost v0 = self.entries@;
                self.entries.push(Branch { path, children: Vec::new() });
                proof {
                    let v = self.entries@;
                    assert forall|q: Seq<char>| #[trigger] has_key(v, q) == (has_key(v0, q) || q == k) by {
                        if has_key(v0, q) {
                            let j = choose|j: int| 0 <= j < v0.len() && (#[trigger] v0[j]).path@ == q;
                            assert(v[j] == v0[j]);
                        }
                        if q == k {
                            assert(v[v0.len() as int].path@ == k);
                        }
                    }
                    assert forall|q: Seq<char>| has_key(v0, q) implies #[trigger] v[key_index(v, q)].children@
                        == v0[key_index(v0, q)].children@ by {
                        let j = key_index(v0, q);
                        lemma_key_index(v0, j);
                        assert(v[j] == v0[j]);
                        lemma_key_index(v, j);
                    }
                    lemma_key_index(v, v0.len() as int);
                    assert(self@ =~= old(self)@.insert(k, Seq::empty()));
                }
            },
        }
    }

    /// Adds the child `id` at the end of the branch with the path `path`,
    /// creating the branch if there is none.
    pub fn add(&mut self, path: String, id: usize)
        requires
            old(self).wf(),
        ensures
            final(self).wf(),
            final(self)@ == old(self)@.insert(
                path@,
                if old(self)@.contains_key(path@) {
                    old(self)@[path@].push(id)
                } else {
                    seq![id]
                },
            ),
    {
        let ghost k = path@;
        let ghost v0 = self.entries@;
        match self.find(path.as_str()) {
            Some(i) => {
                let mut b = self.entries.remove(i);
                b.children.push(id);
                self.entries.insert(i, b);
                proof {
                    let v = self.entries@;
                    assert(v =~= v0.update(i as int, v[i as int]));
                    assert forall|q: Seq<char>| #[trigger] has_key(v, q) == has_key(v0, q) by {
                        if has_key(v0, q) {
                            let j = choose|j: int| 0 <= j < v0.len() && (#[trigger] v0[j]).path@ == q;
                            assert(v[j].path@ == q);
                        }
                        if has_key(v, q) {
                            let j = choose|j: int| 0 <= j < v.len() && (#[trigger] v[j]).path@ == q;
                            assert(v0[j].path@ == q);
                        }
                    }
                    assert forall|q: Seq<char>| has_key(v0, q) && q != k implies #[trigger] v[key_index(v, q)].children@
                        == v0[key_index(v0, q)].children@ by {
                        let j = key_index(v0, q);
                        lemma_key_index(v0, j);
                        lemma_key_index(v, j);
                    }
                    lemma_key_index(v, i as int);
                    assert(self@ =~= old(self)@.insert(k, old(self)@[k].push(id)));
                }
            },
            None => {
                let mut children: Vec<usize> = Vec::new();
                children.push(id);
                self.entries.push(Branch { path, children });
                proof {
                    let v = self.entries@;
                    assert forall|q: Seq<char>| #[trigger] has_key(v, q) == (has_key(v0, q) || q == k) by {
                        if has_key(v0, q) {
                            let j = choose|j: int| 0 <= j < v0.len() && (#[trigger] v0[j]).path@ == q;
                            assert(v[j] == v0[j]);
                        }
                        if q == k {
                            assert(v[v0.len() as int].path@ == k);
                        }
                    }
                    assert forall|q: Seq<char>| has_key(v0, q) implies #[trigger] v[key_index(v, q)].children@
                        == v0[key_index(v0, q)].children@ by {
                        let j = key_index(v0, q);
                        lemma_key_index(v0, j);
                        assert(v[j] == v0[j]);
                        lemma_key_index(v, j);
                    }
                    lemma_key_index(v, v0.len() as int);
                    assert(self@ =~= old(self)@.insert(k, seq![id]));
                }
            },
        }
    }

    /// Removes the branch with the path `path` and hands over its children;
    /// none if there is no such branch.
    pub fn take(&mut self, path: &str) -> (r: Vec<usize>)
        requires
            old(self).wf(),
        ensures
            final(self).wf(),
            final(self)@ == old(self)@.remove(path@),
            old(self)@.contains_key(path@) ==> final(self).entries@.len() == old(self).entries@.len() - 1,
            final(self).entries@.len() <= old(self).entries@.len(),
            r@ == if old(self)@.contains_key(path@) {
                old(self)@[path@]
            } else {
                Seq::empty()
            },
    {
        let ghost v0 = self.entries@;
        match self.find(path) {
            Some(i) => {
                let b = self.entries.remove(i);
                proof {
                    let v = self.entries@;
                    assert(v =~= v0.remove(i as int));
                    assert forall|q: Seq<char>| #[trigger] has_key(v, q) == (has_key(v0, q) && q != path@) by {
                        if has_key(v0, q) && q != path@ {
                            let j = choose|j: int| 0 <= j < v0.len() && (#[trigger] v0[j]).path@ == q;
                            if j < i {
                                assert(v[j] == v0[j]);
                            } else {
                                assert(v[j - 1] == v0[j]);
                            }
                        }
                        if has_key(v, q) {
                            let j = choose|j: int| 0 <= j < v.len() && (#[trigger] v[j]).path@ == q;
                            if j < i {
                                assert(v0[j] == v[j]);
                            } else {
                                assert(v0[j + 1] == v[j]);
                            }
                        }
                    }
                    assert forall|q: Seq<char>| has_key(v, q) implies #[trigger] v[key_index(v, q)].children@
                        == v0[key_index(v0, q)].children@ by {
                        let j = key_index(v, q);
                        lemma_key_index(v, j);
                        if j < i {
                            assert(v[j] == v0[j]);
                            lemma_key_index(v0, j);
                        } else {
                            assert(v[j] == v0[j + 1]);
                            lemma_key_index(v0, j + 1);
                        }
                    }
                    assert(self@ =~= old(self)@.remove(path@));
                }
                b.children
            },
            None => {
                assert(self@ =~= old(self)@.remove(path@));
                Vec::new()
            },
        }
    }
}

} // verus!
