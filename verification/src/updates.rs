//! Replacements in source files.
use crate::path;
use crate::path::PathId;
use crate::text;
use vstd::prelude::*;

verus! {

/// Replaces the bytes `start..end` of a file by `text`.
#[derive(Debug, PartialEq, Eq)]
pub struct Update {
    pub start: usize,
    pub end: usize,
    pub text: String,
}

/// An [`Update`] with its text as characters.
pub struct UpdateView {
    pub start: usize,
    pub end: usize,
    pub text: Seq<char>,
}

impl View for Update {
    type V = UpdateView;

    open spec fn view(&self) -> UpdateView {
        UpdateView { start: self.start, end: self.end, text: self.text@ }
    }
}

impl UpdateView {
    /// Whether this update comes before `other`: by start, then by end, then by text.
    pub open spec fn precedes(self, other: UpdateView) -> bool {
        ||| self.start < other.start
        ||| self.start == other.start && self.end < other.end
        ||| self.start == other.start && self.end == other.end && text::precedes(
            self.text,
            other.text,
        )
    }
}

/// Whether each of `updates` precedes those behind it.
pub open spec fn in_order(updates: Seq<Update>) -> bool {
    forall|i: int, j: int|
        0 <= i < j < updates.len() ==> (#[trigger] updates[i])@.precedes((#[trigger] updates[j])@)
}

/// The updates in `updates`, with their text as characters.
pub open spec fn update_set(updates: Seq<Update>) -> Set<UpdateView> {
    Set::new(
        |update: UpdateView| exists|i: int| 0 <= i < updates.len() && (#[trigger] updates[i])@ == update,
    )
}

/// A set of updates of one file, in order.
pub struct UpdateSet {
    updates: Vec<Update>,
}

impl View for UpdateSet {
    type V = Set<UpdateView>;

    closed spec fn view(&self) -> Set<UpdateView> {
        update_set(self.updates@)
    }
}

impl UpdateSet {
    #[verifier::type_invariant]
    spec fn sorted(self) -> bool {
        in_order(self.updates@)
    }

    /// The set without updates.
    pub fn new() -> (set: Self)
        ensures
            set@ == Set::<UpdateView>::empty(),
    {
        let set = UpdateSet { updates: Vec::new() };
        assert(set@ =~= Set::<UpdateView>::empty());
        set
    }

    /// The updates, in order.
    pub fn updates(&self) -> (updates: &Vec<Update>)
        ensures
            in_order(updates@),
            update_set(updates@) == self@,
    {
        proof {
            use_type_invariant(self);
        }
        &self.updates
    }

    /// Puts `update` into the set.
    pub fn insert(&mut self, update: Update)
        ensures
            final(self)@ == old(self)@.insert(update@),
    {
        proof {
            use_type_invariant(&*self);
        }
        let ghost before = self.updates@;
        let mut i: usize = 0;
        while i < self.updates.len() && comes_before(&self.updates[i], &update)
            invariant
                self.updates@ == before,
                before == old(self).updates@,
                in_order(before),
                i <= before.len(),
                forall|j: int| 0 <= j < i ==> (#[trigger] before[j])@.precedes(update@),
            decreases before.len() - i,
        {
            i = i + 1;
        }
        if i < self.updates.len() && !comes_before(&update, &self.updates[i]) {
            proof {
                lemma_update_order(before[i as int]@, update@);
                assert(before[i as int]@ == update@);
                assert(self@ =~= self@.insert(update@));
            }
            return;
        }
        let mut updates: Vec<Update> = Vec::new();
        std::mem::swap(&mut updates, &mut self.updates);
        updates.insert(i, update);
        proof {
            lemma_insert(before, i as int, update);
        }
        self.updates = updates;
    }

    /// Puts every update of `other` into the set.
    pub fn extend(&mut self, other: &UpdateSet)
        ensures
            final(self)@ == old(self)@.union(other@),
    {
        let mut i: usize = 0;
        assert(self@ =~= self@.union(update_set(other.updates@.take(0))));
        while i < other.updates.len()
            invariant
                i <= other.updates@.len(),
                self@ == old(self)@.union(update_set(other.updates@.take(i as int))),
            decreases other.updates@.len() - i,
        {
            let next = &other.updates[i];
            let ghost short = other.updates@.take(i as int);
            let ghost long = other.updates@.take(i + 1);
            self.insert(Update { start: next.start, end: next.end, text: next.text.clone() });
            proof {
                assert(long =~= short.push(*next));
                lemma_push(short, *next);
                assert(self@ =~= old(self)@.union(update_set(long)));
            }
            i = i + 1;
        }
        assert(other.updates@.take(i as int) =~= other.updates@);
    }
}

fn comes_before(a: &Update, b: &Update) -> (before: bool)
    ensures
        before == a@.precedes(b@),
{
    if a.start != b.start {
        a.start < b.start
    } else if a.end != b.end {
        a.end < b.end
    } else {
        text::comes_before(&a.text, &b.text)
    }
}

/// Two updates are the same, or exactly one of them precedes the other.
proof fn lemma_update_order(a: UpdateView, b: UpdateView)
    ensures
        !a.precedes(a),
        a.precedes(b) ==> !b.precedes(a),
        a != b ==> a.precedes(b) || b.precedes(a),
{
    text::lemma_precedes_total(a.text, b.text);
    text::lemma_precedes_total(a.text, a.text);
}

proof fn lemma_update_transitive(a: UpdateView, b: UpdateView, c: UpdateView)
    requires
        a.precedes(b),
        b.precedes(c),
    ensures
        a.precedes(c),
{
    if text::precedes(a.text, b.text) && text::precedes(b.text, c.text) {
        text::lemma_precedes_transitive(a.text, b.text, c.text);
    }
}

proof fn lemma_insert(updates: Seq<Update>, k: int, update: Update)
    requires
        in_order(updates),
        0 <= k <= updates.len(),
        forall|j: int| 0 <= j < k ==> (#[trigger] updates[j])@.precedes(update@),
        k < updates.len() ==> update@.precedes(updates[k]@),
    ensures
        in_order(updates.insert(k, update)),
        update_set(updates.insert(k, update)) == update_set(updates).insert(update@),
{
    let longer = updates.insert(k, update);
    assert forall|j: int| k <= j < updates.len() implies update@.precedes(
        (#[trigger] updates[j])@,
    ) by {
        if j > k {
            lemma_update_transitive(update@, updates[k]@, updates[j]@);
        }
    }
    assert forall|i: int, j: int| 0 <= i < j < longer.len() implies (
    #[trigger] longer[i])@.precedes((#[trigger] longer[j])@) by {
        let p = if i < k { i } else { i - 1 };
        let q = if j < k { j } else { j - 1 };
        if i != k {
            assert(longer[i] == updates[p]);
        }
        if j != k {
            assert(longer[j] == updates[q]);
        }
    }
    assert forall|u: UpdateView| update_set(longer).contains(u) == update_set(updates).insert(
        update@,
    ).contains(u) by {
        if update_set(updates).contains(u) {
            let i = choose|i: int| 0 <= i < updates.len() && (#[trigger] updates[i])@ == u;
            let p = if i < k { i } else { i + 1 };
            assert(longer[p] == updates[i]);
        }
        if update_set(longer).contains(u) && u != update@ {
            let i = choose|i: int| 0 <= i < longer.len() && (#[trigger] longer[i])@ == u;
            let p = if i < k { i } else { i - 1 };
            assert(longer[i] == updates[p]);
        }
        assert(longer[k] == update);
    }
    assert(update_set(longer) =~= update_set(updates).insert(update@));
}

proof fn lemma_push(updates: Seq<Update>, update: Update)
    ensures
        update_set(updates.push(update)) == update_set(updates).insert(update@),
{
    let longer = updates.push(update);
    assert forall|u: UpdateView| update_set(longer).contains(u) == update_set(updates).insert(
        update@,
    ).contains(u) by {
        if update_set(updates).contains(u) {
            let i = choose|i: int| 0 <= i < updates.len() && (#[trigger] updates[i])@ == u;
            assert(longer[i] == updates[i]);
        }
        if update_set(longer).contains(u) && u != update@ {
            let i = choose|i: int| 0 <= i < longer.len() && (#[trigger] longer[i])@ == u;
            assert(updates[i] == longer[i]);
        }
        assert(longer[updates.len() as int] == update);
    }
    assert(update_set(longer) =~= update_set(updates).insert(update@));
}

/// The updates of one file.
pub struct FileUpdates {
    pub path: String,
    pub updates: UpdateSet,
}

/// The updates of a set of files, in which each file occurs once.
pub struct Updates {
    files: Vec<FileUpdates>,
}

/// Whether no two of `files` have the same path.
pub open spec fn distinct_files(files: Seq<FileUpdates>) -> bool {
    forall|i: int, j: int|
        0 <= i < j < files.len() ==> path::path_components((#[trigger] files[i]).path@)
            != path::path_components((#[trigger] files[j]).path@)
}

/// Whether one of `files` has the path `id`.
pub open spec fn has_file(files: Seq<FileUpdates>, id: PathId) -> bool {
    exists|i: int| 0 <= i < files.len() && path::path_components((#[trigger] files[i]).path@) == id
}

/// The updates of each file in `files`.
pub open spec fn updates_by_file(files: Seq<FileUpdates>) -> Map<PathId, Set<UpdateView>> {
    Map::new(
        |id: PathId| has_file(files, id),
        |id: PathId|
            {
                let i = choose|i: int|
                    0 <= i < files.len() && path::path_components((#[trigger] files[i]).path@) == id;
                files[i].updates@
            },
    )
}

impl View for Updates {
    type V = Map<PathId, Set<UpdateView>>;

    closed spec fn view(&self) -> Map<PathId, Set<UpdateView>> {
        updates_by_file(self.files@)
    }
}

/// `updates` with those of `added` in file `id` too.
pub open spec fn with_updates(
    updates: Map<PathId, Set<UpdateView>>,
    id: PathId,
    added: Set<UpdateView>,
) -> Map<PathId, Set<UpdateView>> {
    if updates.contains_key(id) {
        updates.insert(id, updates[id].union(added))
    } else {
        updates.insert(id, added)
    }
}

impl Updates {
    #[verifier::type_invariant]
    spec fn by_file(self) -> bool {
        distinct_files(self.files@)
    }

    /// No updates.
    pub fn new() -> (updates: Self)
        ensures
            updates@ == Map::<PathId, Set<UpdateView>>::empty(),
    {
        let updates = Updates { files: Vec::new() };
        assert(updates@ =~= Map::<PathId, Set<UpdateView>>::empty());
        updates
    }

    /// The files with their updates.
    pub fn files(&self) -> (files: &Vec<FileUpdates>)
        ensures
            distinct_files(files@),
            updates_by_file(files@) == self@,
    {
        proof {
            use_type_invariant(self);
        }
        &self.files
    }

    /// Adds `added` to the updates of the file at `path`.
    pub fn extend(&mut self, path: &str, added: UpdateSet)
        ensures
            final(self)@ == with_updates(old(self)@, path::path_components(path@), added@),
    {
        proof {
            use_type_invariant(&*self);
        }
        let ghost before = self.files@;
        let ghost id = path::path_components(path@);
        let mut i: usize = 0;
        while i < self.files.len() && !path::same_path(&self.files[i].path, path)
            invariant
                id == path::path_components(path@),
                self.files@ == before,
                before == old(self).files@,
                distinct_files(before),
                i <= before.len(),
                forall|j: int|
                    0 <= j < i ==> path::path_components((#[trigger] before[j]).path@) != id,
            decreases before.len() - i,
        {
            i = i + 1;
        }
        let mut files: Vec<FileUpdates> = Vec::new();
        std::mem::swap(&mut files, &mut self.files);
        if i < files.len() {
            files[i].updates.extend(&added);
            proof {
                lemma_updates_at(before, i as int);
                assert(files@[i as int].path == before[i as int].path);
                assert forall|j: int| 0 <= j < files@.len() implies (#[trigger] files@[j]).path
                    == before[j].path by {}
                assert(distinct_files(files@));
                assert forall|x: PathId| has_file(files@, x) == has_file(before, x) by {
                    if has_file(before, x) {
                        let j = choose|j: int|
                            0 <= j < before.len() && path::path_components(
                                (#[trigger] before[j]).path@,
                            ) == x;
                        assert(files@[j].path == before[j].path);
                    }
                    if has_file(files@, x) {
                        let j = choose|j: int|
                            0 <= j < files@.len() && path::path_components(
                                (#[trigger] files@[j]).path@,
                            ) == x;
                        assert(files@[j].path == before[j].path);
                    }
                }
                assert forall|x: PathId| has_file(before, x) implies #[trigger] updates_by_file(
                    files@,
                )[x] == with_updates(updates_by_file(before), id, added@)[x] by {
                    let j = choose|j: int|
                        0 <= j < before.len() && path::path_components((#[trigger] before[j]).path@)
                            == x;
                    assert(files@[j].path == before[j].path);
                    lemma_updates_at(before, j);
                    lemma_updates_at(files@, j);
                }
                assert(updates_by_file(files@) =~= with_updates(
                    updates_by_file(before),
                    id,
                    added@,
                ));
            }
        } else {
            let file = FileUpdates { path: path.to_owned(), updates: added };
            files.push(file);
            proof {
                assert(forall|j: int| 0 <= j < before.len() ==> #[trigger] files@[j] == before[j]);
                assert(files@[before.len() as int].path@ == path@);
                assert(distinct_files(files@));
                lemma_updates_at(files@, before.len() as int);
                assert forall|x: PathId| has_file(files@, x) == (has_file(before, x) || x == id) by {
                    if has_file(before, x) {
                        let j = choose|j: int|
                            0 <= j < before.len() && path::path_components(
                                (#[trigger] before[j]).path@,
                            ) == x;
                        assert(files@[j] == before[j]);
                    }
                    if has_file(files@, x) && x != id {
                        let j = choose|j: int|
                            0 <= j < files@.len() && path::path_components(
                                (#[trigger] files@[j]).path@,
                            ) == x;
                        assert(files@[j] == before[j]);
                    }
                }
                assert forall|x: PathId| has_file(before, x) implies #[trigger] updates_by_file(
                    files@,
                )[x] == updates_by_file(before)[x] by {
                    let j = choose|j: int|
                        0 <= j < before.len() && path::path_components((#[trigger] before[j]).path@)
                            == x;
                    assert(files@[j] == before[j]);
                    lemma_updates_at(before, j);
                    lemma_updates_at(files@, j);
                }
                assert(updates_by_file(files@) =~= with_updates(
                    updates_by_file(before),
                    id,
                    added@,
                ));
            }
        }
        self.files = files;
    }
}

proof fn lemma_updates_at(files: Seq<FileUpdates>, k: int)
    requires
        distinct_files(files),
        0 <= k < files.len(),
    ensures
        updates_by_file(files).contains_key(path::path_components(files[k].path@)),
        updates_by_file(files)[path::path_components(files[k].path@)] == files[k].updates@,
{
    let id = path::path_components(files[k].path@);
    assert(has_file(files, id));
    let i = choose|i: int|
        0 <= i < files.len() && path::path_components((#[trigger] files[i]).path@) == id;
    assert(i == k);
}

} // verus!
