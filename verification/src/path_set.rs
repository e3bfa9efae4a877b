//! Sets of file paths.
use crate::path;
use crate::path::PathId;
use vstd::prelude::*;

verus! {

/// A set of paths, in which the same path, however it is written, occurs once.
pub struct PathSet {
    paths: Vec<String>,
}

/// What the paths in `paths` denote.
pub open spec fn path_ids(paths: Seq<String>) -> Set<PathId> {
    Set::new(
        |id: PathId| exists|i: int| 0 <= i < paths.len() && path::path_components(#[trigger] paths[i]@) == id,
    )
}

/// Whether no two of `paths` are the same path.
pub open spec fn distinct_paths(paths: Seq<String>) -> bool {
    forall|i: int, j: int|
        0 <= i < j < paths.len() ==> path::path_components(#[trigger] paths[i]@) != path::path_components(
            #[trigger] paths[j]@,
        )
}

impl View for PathSet {
    type V = Set<PathId>;

    closed spec fn view(&self) -> Set<PathId> {
        path_ids(self.paths@)
    }
}

impl PathSet {
    #[verifier::type_invariant]
    spec fn occurs_once(self) -> bool {
        distinct_paths(self.paths@)
    }

    /// The set without paths.
    pub fn new() -> (set: Self)
        ensures
            set@ == Set::<PathId>::empty(),
    {
        let set = PathSet { paths: Vec::new() };
        assert(set@ =~= Set::<PathId>::empty());
        set
    }

    /// The paths of the set, each once.
    pub fn paths(&self) -> (paths: &Vec<String>)
        ensures
            distinct_paths(paths@),
            path_ids(paths@) == self@,
    {
        proof {
            use_type_invariant(self);
        }
        &self.paths
    }

    /// Whether `path` is in the set.
    pub fn contains(&self, path: &str) -> (found: bool)
        ensures
            found == self@.contains(path::path_components(path@)),
    {
        contains_path(&self.paths, path)
    }

    /// Puts `path` into the set.
    pub fn insert(&mut self, path: String)
        ensures
            final(self)@ == old(self)@.insert(path::path_components(path@)),
    {
        if self.contains(&path) {
            assert(self@.insert(path::path_components(path@)) =~= self@);
            return;
        }
        proof {
            use_type_invariant(&*self);
        }
        let ghost before = self.paths@;
        let mut paths: Vec<String> = Vec::new();
        std::mem::swap(&mut paths, &mut self.paths);
        paths.push(path);
        proof {
            assert forall|i: int, j: int| 0 <= i < j < paths@.len() implies path::path_components(
                #[trigger] paths@[i]@,
            ) != path::path_components(#[trigger] paths@[j]@) by {
                assert(paths@[i] == before[i]);
                if j < before.len() {
                    assert(paths@[j] == before[j]);
                }
            }
            lemma_push(before, path);
        }
        self.paths = paths;
    }

    /// Takes `path` out of the set.
    pub fn remove(&mut self, path: &str)
        ensures
            final(self)@ == old(self)@.remove(path::path_components(path@)),
    {
        proof {
            use_type_invariant(&*self);
        }
        let ghost id = path::path_components(path@);
        let mut i: usize = 0;
        while i < self.paths.len()
            invariant
                id == path::path_components(path@),
                i <= self.paths@.len(),
                distinct_paths(self.paths@),
                self.paths@ == old(self).paths@,
                forall|j: int| 0 <= j < i ==> path::path_components(#[trigger] self.paths@[j]@) != id,
            decreases self.paths@.len() - i,
        {
            if path::same_path(&self.paths[i], path) {
                let ghost before = self.paths@;
                let mut paths: Vec<String> = Vec::new();
                std::mem::swap(&mut paths, &mut self.paths);
                paths.remove(i);
                proof {
                    lemma_remove(before, i as int);
                }
                self.paths = paths;
                return;
            }
            i = i + 1;
        }
        assert(self@ =~= self@.remove(id));
    }

    /// Takes every path of `other` out of the set.
    pub fn remove_all(&mut self, other: &PathSet)
        ensures
            final(self)@ == old(self)@.difference(other@),
    {
        let mut i: usize = 0;
        assert(path_ids(other.paths@.take(0)) =~= Set::<PathId>::empty());
        assert(self@ =~= self@.difference(path_ids(other.paths@.take(0))));
        while i < other.paths.len()
            invariant
                i <= other.paths@.len(),
                self@ == old(self)@.difference(path_ids(other.paths@.take(i as int))),
            decreases other.paths@.len() - i,
        {
            proof {
                lemma_push(other.paths@.take(i as int), other.paths@[i as int]);
                assert(other.paths@.take(i + 1) =~= other.paths@.take(i as int).push(
                    other.paths@[i as int],
                ));
            }
            self.remove(&other.paths[i]);
            assert(self@ =~= old(self)@.difference(path_ids(other.paths@.take(i + 1))));
            i = i + 1;
        }
        assert(other.paths@.take(i as int) =~= other.paths@);
    }

    /// Puts every path of `other` into the set.
    pub fn extend(&mut self, other: &PathSet)
        ensures
            final(self)@ == old(self)@.union(other@),
    {
        let mut i: usize = 0;
        assert(path_ids(other.paths@.take(0)) =~= Set::<PathId>::empty());
        assert(self@ =~= self@.union(path_ids(other.paths@.take(0))));
        while i < other.paths.len()
            invariant
                i <= other.paths@.len(),
                self@ == old(self)@.union(path_ids(other.paths@.take(i as int))),
            decreases other.paths@.len() - i,
        {
            proof {
                lemma_push(other.paths@.take(i as int), other.paths@[i as int]);
                assert(other.paths@.take(i + 1) =~= other.paths@.take(i as int).push(
                    other.paths@[i as int],
                ));
            }
            self.insert(other.paths[i].clone());
            assert(self@ =~= old(self)@.union(path_ids(other.paths@.take(i + 1))));
            i = i + 1;
        }
        assert(other.paths@.take(i as int) =~= other.paths@);
    }
}

/// Whether one of `paths` is the same path as `path`.
pub fn contains_path(paths: &Vec<String>, path: &str) -> (found: bool)
    ensures
        found == path_ids(paths@).contains(path::path_components(path@)),
{
    let mut i: usize = 0;
    while i < paths.len()
        invariant
            i <= paths@.len(),
            forall|j: int|
                0 <= j < i ==> path::path_components(#[trigger] paths@[j]@) != path::path_components(
                    path@,
                ),
        decreases paths@.len() - i,
    {
        if path::same_path(&paths[i], path) {
            return true;
        }
        i = i + 1;
    }
    false
}

proof fn lemma_push(paths: Seq<String>, path: String)
    ensures
        path_ids(paths.push(path)) == path_ids(paths).insert(path::path_components(path@)),
{
    let id = path::path_components(path@);
    let longer = paths.push(path);
    assert forall|x: PathId| path_ids(longer).contains(x) == path_ids(paths).insert(id).contains(x) by {
        if path_ids(paths).contains(x) {
            let i = choose|i: int|
                0 <= i < paths.len() && path::path_components(#[trigger] paths[i]@) == x;
            assert(longer[i] == paths[i]);
        }
        if path_ids(longer).contains(x) && x != id {
            let i = choose|i: int|
                0 <= i < longer.len() && path::path_components(#[trigger] longer[i]@) == x;
            assert(paths[i] == longer[i]);
        }
        assert(longer[paths.len() as int] == path);
    }
    assert(path_ids(longer) =~= path_ids(paths).insert(id));
}

proof fn lemma_remove(paths: Seq<String>, k: int)
    requires
        distinct_paths(paths),
        0 <= k < paths.len(),
    ensures
        distinct_paths(paths.remove(k)),
        path_ids(paths.remove(k)) == path_ids(paths).remove(path::path_components(paths[k]@)),
{
    let id = path::path_components(paths[k]@);
    let shorter = paths.remove(k);
    assert forall|i: int, j: int| 0 <= i < j < shorter.len() implies path::path_components(
        #[trigger] shorter[i]@,
    ) != path::path_components(#[trigger] shorter[j]@) by {
        let p = if i < k { i } else { i + 1 };
        let q = if j < k { j } else { j + 1 };
        assert(shorter[i] == paths[p] && shorter[j] == paths[q]);
    }
    assert forall|x: PathId| path_ids(shorter).contains(x) == path_ids(paths).remove(id).contains(x) by {
        if path_ids(shorter).contains(x) {
            let i = choose|i: int|
                0 <= i < shorter.len() && path::path_components(#[trigger] shorter[i]@) == x;
            let p = if i < k { i } else { i + 1 };
            assert(shorter[i] == paths[p]);
        }
        if path_ids(paths).contains(x) && x != id {
            let i = choose|i: int|
                0 <= i < paths.len() && path::path_components(#[trigger] paths[i]@) == x;
            let p = if i < k { i } else { i - 1 };
            assert(shorter[p] == paths[i]);
        }
    }
    assert(path_ids(shorter) =~= path_ids(paths).remove(id));
}

} // verus!
