//! The import graph of a set of source files.
use crate::hir::{Hir, SourceId};
use std::collections::VecDeque;
use vstd::prelude::*;

verus! {

/// Whether `source` imports `target`, over `steps` imports one after the other.
pub open spec fn imports(hir: Hir, source: SourceId, target: SourceId, steps: nat) -> bool
    decreases steps,
{
    if steps == 0 {
        source == target
    } else {
        exists|i: int|
            0 <= i < hir.sources@[source as int].imports@.len() && imports(
                hir,
                #[trigger] hir.sources@[source as int].imports@[i],
                target,
                (steps - 1) as nat,
            )
    }
}

/// Whether `source` is, or imports over any number of steps, one of the sources that `seeds` marks.
pub open spec fn reaches(hir: Hir, seeds: Seq<bool>, source: SourceId) -> bool {
    exists|target: SourceId, steps: nat|
        target < seeds.len() && seeds[target as int] && #[trigger] imports(
            hir,
            source,
            target,
            steps,
        )
}

/// Whether `importer` imports `target` itself.
pub open spec fn imports_directly(hir: Hir, importer: SourceId, target: SourceId) -> bool {
    exists|i: int|
        0 <= i < hir.sources@[importer as int].imports@.len()
            && #[trigger] hir.sources@[importer as int].imports@[i] == target
}

/// For each source, the sources that import it.
fn reverse_imports(hir: &Hir) -> (importers: Vec<Vec<SourceId>>)
    requires
        hir.well_formed(),
    ensures
        importers@.len() == hir.sources@.len(),
        forall|target: SourceId, importer: SourceId|
            target < hir.sources@.len() ==> (#[trigger] importers@[target as int]@.contains(importer)
                <==> importer < hir.sources@.len() && imports_directly(*hir, importer, target)),
{
    let n: usize = hir.sources.len();
    let mut importers: Vec<Vec<SourceId>> = Vec::new();
    let mut k: usize = 0;
    while k < n
        invariant
            k <= n,
            importers@.len() == k,
            forall|t: int| 0 <= t < k ==> (#[trigger] importers@[t])@ == Seq::<SourceId>::empty(),
        decreases n - k,
    {
        importers.push(Vec::new());
        k = k + 1;
    }
    let mut s: usize = 0;
    while s < n
        invariant
            hir.well_formed(),
            n == hir.sources@.len(),
            s <= n,
            importers@.len() == n,
            forall|target: SourceId, importer: SourceId|
                target < n ==> (#[trigger] importers@[target as int]@.contains(importer) <==> importer
                    < s && imports_directly(*hir, importer, target)),
        decreases n - s,
    {
        let targets = &hir.sources[s].imports;
        assert(hir.source_ok(hir.sources@[s as int]));
        let mut i: usize = 0;
        while i < targets.len()
            invariant
                hir.well_formed(),
                n == hir.sources@.len(),
                s < n,
                *targets == hir.sources@[s as int].imports,
                i <= targets@.len(),
                hir.source_ok(hir.sources@[s as int]),
                importers@.len() == n,
                forall|target: SourceId, importer: SourceId|
                    target < n ==> (#[trigger] importers@[target as int]@.contains(importer) <==> (
                    importer < s && imports_directly(*hir, importer, target)) || (importer == s
                        && exists|j: int| 0 <= j < i && #[trigger] targets@[j] == target)),
            decreases targets@.len() - i,
        {
            let target = targets[i];
            assert(target < n);
            let ghost before = importers@;
            importers[target].push(s);
            proof {
                assert(importers@[target as int]@ == before[target as int]@.push(s));
                assert forall|t: SourceId, importer: SourceId| t < n implies (
                #[trigger] importers@[t as int]@.contains(importer) <==> (importer < s
                    && imports_directly(*hir, importer, t)) || (importer == s && exists|j: int|
                    0 <= j < i + 1 && #[trigger] targets@[j] == t)) by {
                    assert(before[t as int]@.contains(importer) <==> (importer < s
                        && imports_directly(*hir, importer, t)) || (importer == s && exists|j: int|
                        0 <= j < i && #[trigger] targets@[j] == t));
                    if t == target {
                        lemma_push_contains(before[t as int]@, s, importer);
                        assert(targets@[i as int] == t);
                    } else {
                        assert(importers@[t as int] == before[t as int]);
                    }
                }
            }
            i = i + 1;
        }
        s = s + 1;
    }
    importers
}

proof fn lemma_push_contains(list: Seq<SourceId>, added: SourceId, x: SourceId)
    ensures
        list.push(added).contains(x) <==> list.contains(x) || x == added,
{
    if list.contains(x) {
        let i = list.index_of(x);
        assert(list.push(added)[i] == x);
    }
    if x == added {
        assert(list.push(added)[list.len() as int] == x);
    }
    if list.push(added).contains(x) && x != added {
        let i = list.push(added).index_of(x);
        assert(list[i] == x);
    }
}

/// How many of `flags` are not set.
spec fn unset(flags: Seq<bool>) -> nat
    decreases flags.len(),
{
    if flags.len() == 0 {
        0
    } else {
        unset(flags.drop_last()) + if flags.last() {
            0nat
        } else {
            1nat
        }
    }
}

proof fn lemma_set_flag(flags: Seq<bool>, i: int)
    requires
        0 <= i < flags.len(),
        !flags[i],
    ensures
        unset(flags.update(i, true)) + 1 == unset(flags),
    decreases flags.len(),
{
    let set = flags.update(i, true);
    if i == flags.len() - 1 {
        assert(set.drop_last() =~= flags.drop_last());
    } else {
        assert(set.drop_last() =~= flags.drop_last().update(i, true));
        lemma_set_flag(flags.drop_last(), i);
    }
}

/// Whether every source that imports `target` itself is marked.
spec fn importers_marked(hir: Hir, flags: Seq<bool>, target: SourceId) -> bool {
    forall|importer: SourceId|
        importer < flags.len() && #[trigger] imports_directly(hir, importer, target)
            ==> flags[importer as int]
}

/// An importer of a source that reaches a seed reaches it too.
proof fn lemma_importer_reaches(hir: Hir, seeds: Seq<bool>, importer: SourceId, target: SourceId)
    requires
        imports_directly(hir, importer, target),
        reaches(hir, seeds, target),
    ensures
        reaches(hir, seeds, importer),
{
    let (seed, steps) = choose|seed: SourceId, steps: nat|
        seed < seeds.len() && seeds[seed as int] && #[trigger] imports(hir, target, seed, steps);
    let i = choose|i: int|
        0 <= i < hir.sources@[importer as int].imports@.len()
            && #[trigger] hir.sources@[importer as int].imports@[i] == target;
    assert(imports(hir, hir.sources@[importer as int].imports@[i], seed, steps));
    assert(imports(hir, importer, seed, steps + 1));
}

/// A set of marked sources that is closed under import marks whatever reaches one of them.
proof fn lemma_closed(hir: Hir, flags: Seq<bool>, source: SourceId, seed: SourceId, steps: nat)
    requires
        hir.well_formed(),
        flags.len() == hir.sources@.len(),
        forall|t: SourceId|
            t < flags.len() && flags[t as int] ==> #[trigger] importers_marked(hir, flags, t),
        source < flags.len(),
        seed < flags.len(),
        flags[seed as int],
        imports(hir, source, seed, steps),
    ensures
        flags[source as int],
    decreases steps,
{
    if steps > 0 {
        let i = choose|i: int|
            0 <= i < hir.sources@[source as int].imports@.len() && imports(
                hir,
                #[trigger] hir.sources@[source as int].imports@[i],
                seed,
                (steps - 1) as nat,
            );
        let next = hir.sources@[source as int].imports@[i];
        assert(hir.source_ok(hir.sources@[source as int]));
        lemma_closed(hir, flags, next, seed, (steps - 1) as nat);
        assert(importers_marked(hir, flags, next));
        assert(imports_directly(hir, source, next));
    }
}

/// Marks every source that is, or imports over any number of steps, one that `seeds` marks.
pub fn propagate(hir: &Hir, seeds: Vec<bool>) -> (marked: Vec<bool>)
    requires
        hir.well_formed(),
        seeds@.len() == hir.sources@.len(),
    ensures
        marked@.len() == hir.sources@.len(),
        forall|id: SourceId|
            id < marked@.len() ==> #[trigger] marked@[id as int] == reaches(*hir, seeds@, id),
{
    let n: usize = hir.sources.len();
    let importers = reverse_imports(hir);
    let ghost start = seeds@;
    let mut marked = seeds;
    let mut queue: VecDeque<SourceId> = VecDeque::new();
    let mut k: usize = 0;
    while k < n
        invariant
            k <= n,
            n == marked@.len(),
            marked@ == start,
            forall|t: SourceId| t < k && marked@[t as int] ==> #[trigger] queue@.contains(t),
            forall|j: int| 0 <= j < queue@.len() ==> #[trigger] queue@[j] < n && marked@[queue@[j] as int],
        decreases n - k,
    {
        if marked[k] {
            let ghost before = queue@;
            queue.push_back(k);
            assert forall|t: SourceId| t < k + 1 && marked@[t as int] implies #[trigger] queue@.contains(
                t,
            ) by {
                lemma_push_contains(before, k, t);
            }
        }
        k = k + 1;
    }
    proof {
        assert forall|t: SourceId| t < n && marked@[t as int] implies #[trigger] reaches(
            *hir,
            start,
            t,
        ) by {
            assert(imports(*hir, t, t, 0));
        }
    }
    while queue.len() > 0
        invariant
            hir.well_formed(),
            n == hir.sources@.len(),
            marked@.len() == n,
            start.len() == n,
            importers@.len() == n,
            forall|target: SourceId, importer: SourceId|
                target < n ==> (#[trigger] importers@[target as int]@.contains(importer) <==> importer
                    < n && imports_directly(*hir, importer, target)),
            forall|t: SourceId| t < n && #[trigger] start[t as int] ==> marked@[t as int],
            forall|t: SourceId|
                t < n && marked@[t as int] ==> #[trigger] reaches(*hir, start, t),
            forall|t: SourceId|
                t < n && marked@[t as int] ==> queue@.contains(t) || #[trigger] importers_marked(
                    *hir,
                    marked@,
                    t,
                ),
            forall|j: int| 0 <= j < queue@.len() ==> #[trigger] queue@[j] < n && marked@[queue@[j] as int],
        decreases unset(marked@), queue@.len(),
    {
        let ghost outer_marked = marked@;
        let ghost outer_queue = queue@;
        let target = match queue.pop_front() {
            Some(target) => target,
            None => {
                return marked;
            },
        };
        assert(target == outer_queue[0]);
        assert forall|t: SourceId| t != target && outer_queue.contains(t) implies #[trigger] queue@.contains(
            t,
        ) by {
            let j = outer_queue.index_of(t);
            assert(queue@[j - 1] == t);
        }
        let list = &importers[target];
        let mut i: usize = 0;
        while i < list.len()
            invariant
                n == hir.sources@.len(),
                marked@.len() == n,
                target < n,
                *list == importers@[target as int],
                i <= list@.len(),
                forall|importer: SourceId|
                    #[trigger] list@.contains(importer) <==> importer < n && imports_directly(
                        *hir,
                        importer,
                        target,
                    ),
                reaches(*hir, start, target),
                forall|t: SourceId| t < n && #[trigger] outer_marked[t as int] ==> marked@[t as int],
                forall|t: SourceId|
                    t < n && marked@[t as int] ==> #[trigger] reaches(*hir, start, t),
                forall|t: SourceId|
                    t < n && marked@[t as int] && !outer_marked[t as int] ==> #[trigger] queue@.contains(t),
                forall|t: SourceId|
                    t < n && t != target && outer_queue.contains(t) ==> #[trigger] queue@.contains(t),
                forall|j: int|
                    0 <= j < queue@.len() ==> #[trigger] queue@[j] < n && marked@[queue@[j] as int],
                forall|j: int| 0 <= j < i ==> #[trigger] list@[j] < n && marked@[list@[j] as int],
                outer_marked.len() == n,
                outer_queue.len() > 0,
                unset(marked@) < unset(outer_marked) || (marked@ == outer_marked && queue@.len()
                    == outer_queue.len() - 1),
            decreases list@.len() - i,
        {
            let importer = list[i];
            assert(list@.contains(importer));
            if !marked[importer] {
                let ghost flags = marked@;
                let ghost pending = queue@;
                marked.set(importer, true);
                queue.push_back(importer);
                proof {
                    lemma_set_flag(flags, importer as int);
                    lemma_importer_reaches(*hir, start, importer, target);
                    assert forall|t: SourceId| pending.contains(t) || t == importer implies #[trigger] queue@.contains(
                        t,
                    ) by {
                        lemma_push_contains(pending, importer, t);
                    }
                }
            }
            i = i + 1;
        }
        proof {
            assert forall|t: SourceId| t < n && marked@[t as int] implies queue@.contains(t)
                || #[trigger] importers_marked(*hir, marked@, t) by {
                if t == target {
                    assert forall|importer: SourceId|
                        importer < marked@.len() && #[trigger] imports_directly(*hir, importer, t) implies marked@[importer as int] by {
                        assert(list@.contains(importer));
                        let j = list@.index_of(importer);
                        assert(list@[j] == importer);
                    }
                } else if outer_marked[t as int] {
                    if !outer_queue.contains(t) {
                        assert(importers_marked(*hir, outer_marked, t));
                        assert(importers_marked(*hir, marked@, t));
                    }
                }
            }
        }
    }
    proof {
        assert forall|id: SourceId| id < marked@.len() implies #[trigger] marked@[id as int]
            == reaches(*hir, start, id) by {
            if reaches(*hir, start, id) {
                let (seed, steps) = choose|seed: SourceId, steps: nat|
                    seed < start.len() && start[seed as int] && #[trigger] imports(
                        *hir,
                        id,
                        seed,
                        steps,
                    );
                assert(start[seed as int]);
                lemma_closed(*hir, marked@, id, seed, steps);
            }
        }
    }
    marked
}

} // verus!
