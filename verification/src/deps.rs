//! The bytecode dependencies of the tests and scripts of a project.
use crate::collector;
use crate::collector::{BytecodeDependencyCollector, Context, Outcome};
use crate::dependency;
use crate::dependency::{BytecodeDependency, BytecodeDependencyKind, DependencyView};
use crate::hir::{ContractId, FunctionId, Hir, SourceId};
use crate::imports;
use crate::path;
use crate::path::PathId;
use crate::path_set;
use crate::path_set::PathSet;
use crate::project::ProjectPaths;
use crate::remapping;
use crate::remapping::can_rewrite;
use crate::text;
use std::collections::{BTreeMap, HashSet};
use vstd::prelude::*;

verus! {

/// What a compiler job looks at.
pub struct Job {
    pub hir: Hir,
    /// The tests and scripts that the job compiles.
    pub paths: Set<PathId>,
    /// Those of them that lie in the script directory.
    pub script_paths: Set<PathId>,
    pub project_paths: ProjectPaths,
    /// The paths under which sources are compiled.
    pub source_units: Set<PathId>,
}

/// The outcome of the functions in `functions`, one after the other.
pub open spec fn functions_outcome(cx: Context, functions: Seq<FunctionId>) -> Outcome
    decreases functions.len(),
{
    if functions.len() == 0 {
        Outcome::none()
    } else {
        functions_outcome(cx, functions.drop_last()).and(
            collector::function_outcome(cx, cx.hir.functions@[functions.last() as int]),
        )
    }
}

/// Whether `dependency` creates a contract whose constructor takes arguments.
pub open spec fn needs_helper(hir: Hir, dependency: DependencyView) -> bool {
    dependency.kind is New && hir.ctor_parameters(dependency.referenced_contract).len() > 0
}

/// Whether a contract from which contract `id` inherits is marked.
pub open spec fn inherits_marked(hir: Hir, id: ContractId, marked: Seq<bool>) -> bool {
    let bases = hir.contracts@[id as int].linearized_bases@;
    exists|i: int| 1 <= i < bases.len() && marked[(#[trigger] bases[i]) as int]
}

/// Whether contract `id` inherits from a contract named `Script`.
pub open spec fn inherits_script(hir: Hir, id: ContractId) -> bool {
    let bases = hir.contracts@[id as int].linearized_bases@;
    exists|i: int|
        1 <= i < bases.len() && hir.contracts@[(#[trigger] bases[i]) as int].name@ == "Script"@
}

/// Those of `dependencies` that are marked.
pub open spec fn retained(dependencies: Seq<DependencyView>, marked: Seq<bool>) -> Seq<
    DependencyView,
>
    decreases dependencies.len(),
{
    if dependencies.len() == 0 {
        Seq::empty()
    } else {
        let front = retained(dependencies.drop_last(), marked);
        if marked[dependencies.len() - 1] {
            front.push(dependencies.last())
        } else {
            front
        }
    }
}

impl Job {
    /// The file that `path` names below the root.
    pub open spec fn full_path(self, path: Seq<char>) -> PathId {
        path::path_components(path::path_join(self.project_paths.root@, path))
    }

    /// Whether a file is one of the tests and scripts of the job.
    pub open spec fn examines(self, file: Option<Seq<char>>) -> bool {
        file matches Some(path) && self.paths.contains(path::path_components(path))
    }

    /// The path of the file that holds source `id`, if there is one.
    pub open spec fn source_file(self, id: SourceId) -> Option<Seq<char>> {
        text::option_view(self.hir.sources@[id as int].file)
    }

    /// Whether contract `id` is declared in one of the tests and scripts of the job.
    pub open spec fn candidate(self, id: ContractId) -> bool {
        id < self.hir.contracts@.len() && self.examines(self.hir.contract_file(id))
    }

    /// Whether contract `id` is declared in a source of the project.
    pub open spec fn in_source(self, id: ContractId) -> bool {
        self.hir.contract_file(id) matches Some(path) && self.project_paths.is_source(path)
    }

    /// For each contract, whether it is declared in a source of the project.
    pub open spec fn in_sources(self) -> Seq<bool> {
        Seq::new(self.hir.contracts@.len(), |id: int| self.in_source(id as ContractId))
    }

    /// Whether the code of contract `id` is linked natively into what inherits from it: it is
    /// declared in a source of the project, and it can be deployed or lies in the source directory.
    pub open spec fn native_base(self, id: ContractId) -> bool {
        let contract = self.hir.contracts@[id as int];
        &&& self.in_source(id)
        &&& !contract.is_abstract || path::path_in_dir(
            self.hir.contract_file(id)->0,
            self.project_paths.sources@,
            self.project_paths.root@,
            text::option_view(self.hir.sources@[contract.source as int].canonical_file),
            text::option_view(self.project_paths.canonical_sources),
        )
    }

    /// For each contract, whether its code is linked natively into what inherits from it.
    pub open spec fn native_bases(self) -> Seq<bool> {
        Seq::new(self.hir.contracts@.len(), |id: int| self.native_base(id as ContractId))
    }

    /// Whether contract `id` inherits code that is linked natively.
    pub open spec fn inherits_native(self, id: ContractId) -> bool {
        inherits_marked(self.hir, id, self.native_bases())
    }

    /// Whether contract `id` lies in the script directory.
    pub open spec fn in_script_dir(self, id: ContractId) -> bool {
        self.hir.contract_file(id) matches Some(path) && self.script_paths.contains(
            path::path_components(path),
        )
    }

    /// Whether contract `id` is a script: it lies in the script directory, or it inherits from a
    /// contract named `Script`.
    pub open spec fn is_script(self, id: ContractId) -> bool {
        self.in_script_dir(id) || inherits_script(self.hir, id)
    }

    /// What the references in contract `id` come to.
    pub open spec fn contract_outcome(self, id: ContractId) -> Outcome {
        let contract = self.hir.contracts@[id as int];
        collector::items_outcome(
            Context {
                hir: self.hir,
                source: self.hir.sources@[contract.source as int].text@,
                in_sources: self.in_sources(),
                is_script: self.is_script(id),
                preserve_native_creation_code: false,
                force_native: false,
            },
            contract.items@,
        )
    }

    /// Whether the reference `dependency` in contract `id` can be generated.
    pub open spec fn rewritable(self, id: ContractId, dependency: DependencyView) -> bool {
        self.hir.contract_file(dependency.referenced_contract) matches Some(path)
            && remapping::rewrite_preserves_identity(
            path,
            self.hir.contract_file(id)->0,
            self.project_paths.root@,
            self.source_units,
            self.project_paths.remappings@,
            needs_helper(self.hir, dependency),
            dependency.referenced_contract as nat,
        )
    }

    /// The references in contract `id` that are replaced.
    pub open spec fn rewritten(self, id: ContractId) -> Seq<DependencyView> {
        self.contract_outcome(id).dependencies.filter(
            |dependency: DependencyView| self.rewritable(id, dependency),
        )
    }

    /// Whether a reference in contract `id` stays native.
    pub open spec fn keeps_native(self, id: ContractId) -> bool {
        let outcome = self.contract_outcome(id);
        ||| outcome.native
        ||| exists|i: int|
            0 <= i < outcome.dependencies.len() && !self.rewritable(
                id,
                #[trigger] outcome.dependencies[i],
            )
    }

    /// Whether a function outside of any contract in source `id` refers to bytecode of a source.
    pub open spec fn native_functions(self, id: SourceId) -> bool {
        let source = self.hir.sources@[id as int];
        functions_outcome(
            Context {
                hir: self.hir,
                source: source.text@,
                in_sources: self.in_sources(),
                is_script: false,
                preserve_native_creation_code: false,
                force_native: true,
            },
            source.functions@,
        ).native
    }

    /// Whether source `id` is, or imports over any number of steps, one with such a function.
    pub open spec fn links_native(self, id: SourceId) -> bool {
        exists|target: SourceId, steps: nat|
            target < self.hir.sources@.len() && self.native_functions(target) && #[trigger] imports::imports(
                self.hir,
                id,
                target,
                steps,
            )
    }

    /// Whether `file` is that of a contract below `contracts` that is looked at.
    pub open spec fn contract_examined(self, contracts: nat, file: PathId) -> bool {
        exists|id: ContractId|
            id < contracts && #[trigger] self.candidate(id) && file == self.full_path(
                self.hir.contract_file(id)->0,
            )
    }

    /// Whether `file` is that of a contract below `contracts` that is linked natively.
    pub open spec fn contract_native(self, contracts: nat, file: PathId) -> bool {
        exists|id: ContractId|
            id < contracts && #[trigger] self.candidate(id) && (self.inherits_native(id)
                || self.keeps_native(id)) && file == self.full_path(self.hir.contract_file(id)->0)
    }

    /// Whether `file` is that of a source below `sources`, one of the tests and scripts of the
    /// job, that links native functions.
    pub open spec fn source_native(self, sources: nat, file: PathId) -> bool {
        exists|id: SourceId|
            id < sources && #[trigger] self.links_native(id) && self.examines(self.source_file(id))
                && file == self.full_path(self.source_file(id)->0)
    }

    /// The files that are linked natively.
    pub open spec fn native_files(self) -> Set<PathId> {
        Set::new(
            |file: PathId|
                self.contract_native(self.hir.contracts@.len(), file) || self.source_native(
                    self.hir.sources@.len(),
                    file,
                ),
        )
    }

    /// The files of the tests and scripts that were looked at.
    pub open spec fn examined_files(self) -> Set<PathId> {
        Set::new(
            |file: PathId|
                self.contract_examined(self.hir.contracts@.len(), file) || self.source_native(
                    self.hir.sources@.len(),
                    file,
                ),
        )
    }

    /// What becomes of the files in `mocks`: those that were looked at leave, and those that are
    /// linked natively join.
    pub open spec fn mocks_after(self, mocks: Set<PathId>) -> Set<PathId> {
        mocks.difference(self.examined_files()).union(self.native_files())
    }

    /// The contracts below `contracts` with references that are replaced, with those references.
    pub open spec fn preprocessed(self, contracts: nat) -> Map<ContractId, Seq<DependencyView>> {
        Map::new(
            |id: ContractId| id < contracts && self.candidate(id) && self.rewritten(id).len() > 0,
            |id: ContractId| self.rewritten(id),
        )
    }
}

/// The contracts to which the dependencies in `preprocessed` refer.
pub open spec fn referenced(preprocessed: Map<ContractId, Seq<DependencyView>>) -> Set<ContractId> {
    Set::new(
        |target: ContractId|
            exists|id: ContractId, i: int|
                preprocessed.contains_key(id) && 0 <= i < preprocessed[id].len()
                    && (#[trigger] preprocessed[id][i]).referenced_contract == target,
    )
}

/// The contracts that the dependencies in `preprocessed` create with constructor arguments.
pub open spec fn helped(hir: Hir, preprocessed: Map<ContractId, Seq<DependencyView>>) -> Set<ContractId> {
    Set::new(
        |target: ContractId|
            exists|id: ContractId, i: int|
                preprocessed.contains_key(id) && 0 <= i < preprocessed[id].len() && needs_helper(
                    hir,
                    #[trigger] preprocessed[id][i],
                ) && preprocessed[id][i].referenced_contract == target,
    )
}

/// Whether a contract from which the contract inherits is marked.
pub fn inherits_from_marked(hir: &Hir, id: ContractId, marked: &Vec<bool>) -> (inherits: bool)
    requires
        hir.well_formed(),
        id < hir.contracts@.len(),
        marked@.len() == hir.contracts@.len(),
    ensures
        inherits == inherits_marked(*hir, id, marked@),
{
    assert(hir.contract_ok(hir.contracts@[id as int]));
    let bases = &hir.contracts[id].linearized_bases;
    let mut i: usize = 1;
    while i < bases.len()
        invariant
            *bases == hir.contracts@[id as int].linearized_bases,
            hir.contract_ok(hir.contracts@[id as int]),
            marked@.len() == hir.contracts@.len(),
            1 <= i,
            forall|j: int| 1 <= j < i && j < bases@.len() ==> !marked@[(#[trigger] bases@[j]) as int],
        decreases bases@.len() - i,
    {
        if marked[bases[i]] {
            return true;
        }
        i = i + 1;
    }
    false
}

/// Whether the contract inherits from a contract named `Script`. This covers layouts where scripts
/// are placed outside of the script directory.
pub fn inherits_from_script(hir: &Hir, id: ContractId) -> (inherits: bool)
    requires
        hir.well_formed(),
        id < hir.contracts@.len(),
    ensures
        inherits == inherits_script(*hir, id),
{
    assert(hir.contract_ok(hir.contracts@[id as int]));
    let script = "Script".to_owned();
    let bases = &hir.contracts[id].linearized_bases;
    let mut i: usize = 1;
    while i < bases.len()
        invariant
            *bases == hir.contracts@[id as int].linearized_bases,
            hir.contract_ok(hir.contracts@[id as int]),
            script@ == "Script"@,
            1 <= i,
            forall|j: int|
                1 <= j < i && j < bases@.len() ==> hir.contracts@[(
                #[trigger] bases@[j]) as int].name@ != "Script"@,
        decreases bases@.len() - i,
    {
        if hir.contracts[bases[i]].name == script {
            return true;
        }
        i = i + 1;
    }
    false
}

/// Splits off the dependencies that are not marked: those that are, and whether there were others.
pub fn retain_marked(dependencies: Vec<BytecodeDependency>, marked: &Vec<bool>) -> (result: (
    Vec<BytecodeDependency>,
    bool,
))
    requires
        marked@.len() == dependencies@.len(),
    ensures
        dependency::dependency_views(result.0@) == retained(
            dependency::dependency_views(dependencies@),
            marked@,
        ),
        result.1 == marked@.contains(false),
{
    let ghost given = dependencies@;
    let ghost views = dependency::dependency_views(given);
    let mut kept: Vec<BytecodeDependency> = Vec::new();
    let mut dropped = false;
    let n: usize = marked.len();
    let mut i: usize = 0;
    assert(dependency::dependency_views(kept@) =~= retained(views.take(0), marked@));
    for dependency in it: dependencies
        invariant
            it.seq() == given,
            i == it.index() <= given.len(),
            views == dependency::dependency_views(given),
            n == marked@.len() == given.len(),
            dependency::dependency_views(kept@) == retained(
                views.take(it.index() as int),
                marked@,
            ),
            dropped == marked@.take(it.index() as int).contains(false),
    {
        let ghost k = it.index() as int;
        let ghost before = kept@;
        proof {
            assert(views[k] == dependency@);
            assert(views.take(k + 1).drop_last() =~= views.take(k));
            assert(marked@.take(k + 1) =~= marked@.take(k).push(marked@[k]));
            assert(marked@.take(k + 1)[k] == marked@[k]);
            if marked@.take(k).contains(false) {
                let j = choose|j: int| 0 <= j < k && marked@.take(k)[j] == false;
                assert(marked@.take(k + 1)[j] == false);
            }
        }
        if marked[i] {
            kept.push(dependency);
            assert(dependency::dependency_views(kept@) =~= dependency::dependency_views(
                before,
            ).push(views[k]));
        } else {
            dropped = true;
        }
        i = i + 1;
    }
    assert(views.take(views.len() as int) =~= views);
    assert(marked@.take(marked@.len() as int) =~= marked@);
    (kept, dropped)
}

/// What a compiler job looks at.
struct Analysis<'a> {
    hir: &'a Hir,
    paths: &'a Vec<String>,
    script_paths: &'a PathSet,
    project_paths: &'a ProjectPaths,
    source_units: &'a PathSet,
}

impl<'a> Analysis<'a> {
    spec fn job(self) -> Job {
        Job {
            hir: *self.hir,
            paths: path_set::path_ids(self.paths@),
            script_paths: self.script_paths@,
            project_paths: *self.project_paths,
            source_units: self.source_units@,
        }
    }

    fn examines(&self, file: &Option<String>) -> (examined: bool)
        ensures
            examined == self.job().examines(text::option_view(*file)),
    {
        match file {
            Some(path) => path_set::contains_path(self.paths, path),
            None => false,
        }
    }

    fn in_sources(&self) -> (found: Vec<bool>)
        requires
            self.hir.well_formed(),
        ensures
            found@ == self.job().in_sources(),
    {
        let mut found: Vec<bool> = Vec::new();
        let mut id: usize = 0;
        while id < self.hir.contracts.len()
            invariant
                self.hir.well_formed(),
                id <= self.hir.contracts@.len(),
                found@ == self.job().in_sources().take(id as int),
            decreases self.hir.contracts@.len() - id,
        {
            assert(self.hir.contract_ok(self.hir.contracts@[id as int]));
            let in_source = match &self.hir.sources[self.hir.contracts[id].source].file {
                Some(path) => self.project_paths.is_source_file(path),
                None => false,
            };
            found.push(in_source);
            assert(found@ =~= self.job().in_sources().take(id + 1));
            id = id + 1;
        }
        found
    }

    fn native_bases(&self, in_sources: &Vec<bool>) -> (found: Vec<bool>)
        requires
            self.hir.well_formed(),
            in_sources@ == self.job().in_sources(),
        ensures
            found@ == self.job().native_bases(),
    {
        let mut found: Vec<bool> = Vec::new();
        let mut id: usize = 0;
        while id < self.hir.contracts.len()
            invariant
                self.hir.well_formed(),
                in_sources@ == self.job().in_sources(),
                id <= self.hir.contracts@.len(),
                found@ == self.job().native_bases().take(id as int),
            decreases self.hir.contracts@.len() - id,
        {
            assert(self.hir.contract_ok(self.hir.contracts@[id as int]));
            let contract = &self.hir.contracts[id];
            let source = &self.hir.sources[contract.source];
            let native = in_sources[id] && (!contract.is_abstract || match &source.file {
                Some(path) => path::is_path_in_dir(
                    path,
                    &self.project_paths.sources,
                    &self.project_paths.root,
                    &source.canonical_file,
                    &self.project_paths.canonical_sources,
                ),
                None => false,
            });
            assert(in_sources@[id as int] == self.job().in_source(id));
            found.push(native);
            assert(found@ =~= self.job().native_bases().take(id + 1));
            id = id + 1;
        }
        found
    }

    /// Whether the contract is a script.
    fn is_script(&self, id: ContractId) -> (script: bool)
        requires
            self.hir.well_formed(),
            id < self.hir.contracts@.len(),
        ensures
            script == self.job().is_script(id),
    {
        assert(self.hir.contract_ok(self.hir.contracts@[id as int]));
        let in_script_dir = match &self.hir.sources[self.hir.contracts[id].source].file {
            Some(path) => self.script_paths.contains(path),
            None => false,
        };
        in_script_dir || inherits_from_script(self.hir, id)
    }

    fn needs_helper(&self, dependency: &BytecodeDependency) -> (needed: bool)
        requires
            self.hir.well_formed(),
            dependency.referenced_contract < self.hir.contracts@.len(),
        ensures
            needed == needs_helper(*self.hir, dependency@),
    {
        let id = dependency.referenced_contract;
        assert(self.hir.contract_ok(self.hir.contracts@[id as int]));
        match &dependency.kind {
            BytecodeDependencyKind::CreationCode => false,
            BytecodeDependencyKind::New { .. } => match self.hir.contracts[id].ctor {
                Some(ctor) => self.hir.functions[ctor].parameters.len() > 0,
                None => false,
            },
        }
    }

    fn is_rewritable(&self, id: ContractId, path: &str, dependency: &BytecodeDependency) -> (rewritable:
        bool)
        requires
            self.hir.well_formed(),
            self.hir.contract_file(id) == Some(path@),
            dependency.referenced_contract < self.hir.contracts@.len(),
        ensures
            rewritable == self.job().rewritable(id, dependency@),
    {
        let target = dependency.referenced_contract;
        assert(self.hir.contract_ok(self.hir.contracts@[target as int]));
        match &self.hir.sources[self.hir.contracts[target].source].file {
            Some(dependency_path) => can_rewrite(
                dependency_path,
                path,
                &self.project_paths.root,
                self.source_units,
                &self.project_paths.remappings,
                self.needs_helper(dependency),
                target,
            ),
            None => false,
        }
    }

    /// For each of `dependencies`, whether it can be generated.
    fn rewritable(&self, id: ContractId, path: &str, dependencies: &Vec<BytecodeDependency>) -> (
        rewritable: Vec<bool>)
        requires
            self.hir.well_formed(),
            self.hir.contract_file(id) == Some(path@),
            dependencies_ok(*self.hir, dependencies@),
        ensures
            rewritable@.len() == dependencies@.len(),
            forall|i: int|
                0 <= i < dependencies@.len() ==> #[trigger] rewritable@[i]
                    == self.job().rewritable(id, dependencies@[i]@),
    {
        let mut rewritable: Vec<bool> = Vec::new();
        let mut i: usize = 0;
        while i < dependencies.len()
            invariant
                self.hir.well_formed(),
                self.hir.contract_file(id) == Some(path@),
                dependencies_ok(*self.hir, dependencies@),
                i <= dependencies@.len(),
                rewritable@.len() == i,
                forall|j: int|
                    0 <= j < i ==> #[trigger] rewritable@[j] == self.job().rewritable(
                        id,
                        dependencies@[j]@,
                    ),
            decreases dependencies@.len() - i,
        {
            rewritable.push(self.is_rewritable(id, path, &dependencies[i]));
            i = i + 1;
        }
        rewritable
    }
}

proof fn lemma_retained(
    dependencies: Seq<DependencyView>,
    marked: Seq<bool>,
    keep: spec_fn(DependencyView) -> bool,
)
    requires
        marked.len() >= dependencies.len(),
        forall|i: int| 0 <= i < dependencies.len() ==> marked[i] == keep(#[trigger] dependencies[i]),
    ensures
        retained(dependencies, marked) == dependencies.filter(keep),
    decreases dependencies.len(),
{
    reveal(Seq::filter);
    if dependencies.len() > 0 {
        let front = dependencies.drop_last();
        assert forall|i: int| 0 <= i < front.len() implies marked[i] == keep(#[trigger] front[i]) by {
            assert(front[i] == dependencies[i]);
        }
        lemma_retained(front, marked, keep);
        assert(dependencies[dependencies.len() - 1] == dependencies.last());
    }
}

proof fn lemma_retained_ok(
    hir: Hir,
    kept: Seq<DependencyView>,
    dependencies: Seq<DependencyView>,
    marked: Seq<bool>,
    k: int,
)
    requires
        kept == retained(dependencies, marked),
        forall|i: int|
            0 <= i < dependencies.len() ==> collector::dependency_ok(hir, #[trigger] dependencies[i]),
        0 <= k < kept.len(),
    ensures
        collector::dependency_ok(hir, kept[k]),
    decreases dependencies.len(),
{
    let front = dependencies.drop_last();
    let before = retained(front, marked);
    assert forall|i: int| 0 <= i < front.len() implies collector::dependency_ok(
        hir,
        #[trigger] front[i],
    ) by {
        assert(front[i] == dependencies[i]);
    }
    if k < before.len() {
        lemma_retained_ok(hir, before, front, marked, k);
    } else {
        assert(collector::dependency_ok(hir, dependencies[dependencies.len() - 1]));
    }
}

impl<'a> Analysis<'a> {
    /// Whether a function of the source, outside of any contract, refers to bytecode of a source.
    fn has_native_functions(&self, id: SourceId, in_sources: &Vec<bool>) -> (native: bool)
        requires
            self.hir.well_formed(),
            in_sources@ == self.job().in_sources(),
            id < self.hir.sources@.len(),
        ensures
            native == self.job().native_functions(id),
    {
        assert(self.hir.source_ok(self.hir.sources@[id as int]));
        let source = &self.hir.sources[id];
        let functions = &source.functions;
        let mut deps_collector = BytecodeDependencyCollector::new(
            self.hir,
            &source.text,
            in_sources,
            false,
            true,
        );
        let ghost cx = deps_collector.context();
        let mut i: usize = 0;
        assert(functions@.take(0) =~= Seq::empty());
        while i < functions.len()
            invariant
                self.hir.source_ok(*source),
                *functions == source.functions,
                cx.hir == *self.hir,
                cx.source == source.text@,
                deps_collector.context() == cx,
                deps_collector.well_formed(),
                deps_collector.outcome() == functions_outcome(cx, functions@.take(i as int)),
                i <= functions@.len(),
            decreases functions@.len() - i,
        {
            assert(functions@.take(i + 1).drop_last() =~= functions@.take(i as int));
            assert(self.hir.function_ok(source.text@, functions@[i as int]));
            deps_collector.visit_function(&self.hir.functions[functions[i]]);
            i = i + 1;
        }
        assert(functions@.take(i as int) =~= functions@);
        deps_collector.has_native_dependency
    }

    /// For each source, whether it links a function that refers to bytecode natively. Functions
    /// outside of contracts are compiled into their callers, and have no contract that could own
    /// generated helpers, so what they refer to natively reaches every file that imports them.
    fn native_sources(&self, in_sources: &Vec<bool>) -> (native: Vec<bool>)
        requires
            self.hir.well_formed(),
            in_sources@ == self.job().in_sources(),
        ensures
            native@.len() == self.hir.sources@.len(),
            forall|id: SourceId|
                id < native@.len() ==> #[trigger] native@[id as int] == self.job().links_native(id),
    {
        let mut seeds: Vec<bool> = Vec::new();
        let mut i: usize = 0;
        while i < self.hir.sources.len()
            invariant
                self.hir.well_formed(),
                in_sources@ == self.job().in_sources(),
                i <= self.hir.sources@.len(),
                seeds@.len() == i,
                forall|id: SourceId|
                    id < i ==> #[trigger] seeds@[id as int] == self.job().native_functions(id),
            decreases self.hir.sources@.len() - i,
        {
            let native = self.has_native_functions(i, in_sources);
            seeds.push(native);
            i = i + 1;
        }
        let ghost marks = seeds@;
        let native = imports::propagate(self.hir, seeds);
        assert forall|id: SourceId| id < native@.len() implies #[trigger] native@[id as int]
            == self.job().links_native(id) by {
            assert(native@[id as int] == imports::reaches(*self.hir, marks, id));
            if imports::reaches(*self.hir, marks, id) {
                let (target, steps) = choose|target: SourceId, steps: nat|
                    target < marks.len() && marks[target as int] && #[trigger] imports::imports(
                        *self.hir,
                        id,
                        target,
                        steps,
                    );
                assert(self.job().native_functions(target));
            }
            if self.job().links_native(id) {
                let (target, steps) = choose|target: SourceId, steps: nat|
                    target < self.hir.sources@.len() && self.job().native_functions(target)
                        && #[trigger] imports::imports(*self.hir, id, target, steps);
                assert(marks[target as int]);
            }
        }
        native
    }

    /// The references of the contract that are replaced, and whether another one stays native.
    fn examine_contract(&self, id: ContractId, path: &str, in_sources: &Vec<bool>) -> (result: (
        Vec<BytecodeDependency>,
        bool,
    ))
        requires
            self.hir.well_formed(),
            in_sources@ == self.job().in_sources(),
            id < self.hir.contracts@.len(),
            self.hir.contract_file(id) == Some(path@),
        ensures
            dependency::dependency_views(result.0@) == self.job().rewritten(id),
            forall|i: int|
                0 <= i < result.0@.len() ==> collector::dependency_ok(
                    *self.hir,
                    (#[trigger] result.0@[i])@,
                ),
            result.1 == self.job().keeps_native(id),
    {
        assert(self.hir.contract_ok(self.hir.contracts@[id as int]));
        let contract = &self.hir.contracts[id];
        let source = &self.hir.sources[contract.source];
        let is_script = self.is_script(id);
        let mut deps_collector = BytecodeDependencyCollector::new(
            self.hir,
            &source.text,
            in_sources,
            is_script,
            false,
        );
        deps_collector.walk_contract(contract);
        let ghost outcome = self.job().contract_outcome(id);
        assert(deps_collector.outcome() =~= outcome);
        let native = deps_collector.has_native_dependency;
        let rewritable = self.rewritable(id, path, &deps_collector.dependencies);
        let ghost views = outcome.dependencies;
        assert(views == dependency::dependency_views(deps_collector.dependencies@));
        let (kept, dropped) = retain_marked(deps_collector.dependencies, &rewritable);
        proof {
            let keep = |d: DependencyView| self.job().rewritable(id, d);
            assert forall|i: int| 0 <= i < views.len() implies rewritable@[i] == keep(
                #[trigger] views[i],
            ) && collector::dependency_ok(*self.hir, views[i]) by {}
            lemma_retained(views, rewritable@, keep);
            assert forall|k: int| 0 <= k < kept@.len() implies collector::dependency_ok(
                *self.hir,
                (#[trigger] kept@[k])@,
            ) by {
                let kept_views = dependency::dependency_views(kept@);
                lemma_retained_ok(*self.hir, kept_views, views, rewritable@, k);
                assert(kept_views[k] == kept@[k]@);
            }
            if dropped {
                let i = choose|i: int| 0 <= i < rewritable@.len() && rewritable@[i] == false;
                assert(!self.job().rewritable(id, views[i]));
            }
            if self.job().keeps_native(id) && !outcome.native {
                let i = choose|i: int|
                    0 <= i < views.len() && !self.job().rewritable(id, #[trigger] views[i]);
                assert(rewritable@[i] == false);
            }
        }
        (kept, native || dropped)
    }

    /// Notes the contracts to which `dependencies` refer, and those of them that they create with
    /// constructor arguments.
    fn note_references(
        &self,
        dependencies: &Vec<BytecodeDependency>,
        referenced: &mut HashSet<ContractId>,
        helpers: &mut HashSet<ContractId>,
    )
        requires
            self.hir.well_formed(),
            forall|i: int|
                0 <= i < dependencies@.len() ==> collector::dependency_ok(
                    *self.hir,
                    (#[trigger] dependencies@[i])@,
                ),
        ensures
            final(referenced)@ == old(referenced)@.union(
                targets(dependency::dependency_views(dependencies@)),
            ),
            final(helpers)@ == old(helpers)@.union(
                helper_targets(*self.hir, dependency::dependency_views(dependencies@)),
            ),
    {
        let ghost views = dependency::dependency_views(dependencies@);
        let mut i: usize = 0;
        assert(referenced@ =~= referenced@.union(targets(views.take(0))));
        assert(helpers@ =~= helpers@.union(helper_targets(*self.hir, views.take(0))));
        while i < dependencies.len()
            invariant
                self.hir.well_formed(),
                views == dependency::dependency_views(dependencies@),
                i <= dependencies@.len(),
                forall|j: int|
                    0 <= j < dependencies@.len() ==> collector::dependency_ok(
                        *self.hir,
                        (#[trigger] dependencies@[j])@,
                    ),
                referenced@ == old(referenced)@.union(targets(views.take(i as int))),
                helpers@ == old(helpers)@.union(helper_targets(*self.hir, views.take(i as int))),
            decreases dependencies@.len() - i,
        {
            let dependency = &dependencies[i];
            proof {
                assert(views[i as int] == dependency@);
                lemma_targets_step(*self.hir, views, i as int);
            }
            referenced.insert(dependency.referenced_contract);
            if self.needs_helper(dependency) {
                helpers.insert(dependency.referenced_contract);
            }
            assert(referenced@ =~= old(referenced)@.union(targets(views.take(i + 1))));
            assert(helpers@ =~= old(helpers)@.union(
                helper_targets(*self.hir, views.take(i + 1)),
            ));
            i = i + 1;
        }
        assert(views.take(i as int) =~= views);
    }
}

/// The contracts to which `dependencies` refer.
spec fn targets(dependencies: Seq<DependencyView>) -> Set<ContractId> {
    Set::new(
        |target: ContractId|
            exists|i: int|
                0 <= i < dependencies.len() && (#[trigger] dependencies[i]).referenced_contract
                    == target,
    )
}

/// The contracts that `dependencies` create with constructor arguments.
spec fn helper_targets(hir: Hir, dependencies: Seq<DependencyView>) -> Set<ContractId> {
    Set::new(
        |target: ContractId|
            exists|i: int|
                0 <= i < dependencies.len() && needs_helper(hir, #[trigger] dependencies[i])
                    && dependencies[i].referenced_contract == target,
    )
}

proof fn lemma_targets_step(hir: Hir, views: Seq<DependencyView>, k: int)
    requires
        0 <= k < views.len(),
    ensures
        targets(views.take(k + 1)) == targets(views.take(k)).insert(views[k].referenced_contract),
        helper_targets(hir, views.take(k + 1)) == if needs_helper(hir, views[k]) {
            helper_targets(hir, views.take(k)).insert(views[k].referenced_contract)
        } else {
            helper_targets(hir, views.take(k))
        },
{
    let short = views.take(k);
    let long = views.take(k + 1);
    let id = views[k].referenced_contract;
    assert(long[k] == views[k]);
    assert forall|t: ContractId| targets(long).contains(t) == targets(short).insert(id).contains(t) by {
        if targets(short).contains(t) {
            let i = choose|i: int|
                0 <= i < short.len() && (#[trigger] short[i]).referenced_contract == t;
            assert(long[i] == short[i]);
        }
        if targets(long).contains(t) && t != id {
            let i = choose|i: int|
                0 <= i < long.len() && (#[trigger] long[i]).referenced_contract == t;
            assert(short[i] == long[i]);
        }
    }
    assert(targets(long) =~= targets(short).insert(id));
    let helper = needs_helper(hir, views[k]);
    let expected = if helper {
        helper_targets(hir, short).insert(id)
    } else {
        helper_targets(hir, short)
    };
    assert forall|t: ContractId| helper_targets(hir, long).contains(t) == expected.contains(t) by {
        if helper_targets(hir, short).contains(t) {
            let i = choose|i: int|
                0 <= i < short.len() && needs_helper(hir, #[trigger] short[i])
                    && short[i].referenced_contract == t;
            assert(long[i] == short[i]);
        }
        if helper_targets(hir, long).contains(t) && !(helper && t == id) {
            let i = choose|i: int|
                0 <= i < long.len() && needs_helper(hir, #[trigger] long[i])
                    && long[i].referenced_contract == t;
            assert(short[i] == long[i]);
        }
    }
    assert(helper_targets(hir, long) =~= expected);
}

/// Holds data about referenced source contracts and bytecode dependencies.
pub struct PreprocessorDependencies {
    /// Mapping contract id to preprocess -> contract bytecode dependencies.
    pub preprocessed_contracts: BTreeMap<ContractId, Vec<BytecodeDependency>>,
    /// Referenced contract ids.
    pub referenced_contracts: HashSet<ContractId>,
    /// Referenced contract ids that require generated constructor helpers.
    pub constructor_helpers: HashSet<ContractId>,
}

/// The dependencies in `contracts`, with their text as characters.
pub open spec fn views_by_contract(contracts: Map<ContractId, Vec<BytecodeDependency>>) -> Map<
    ContractId,
    Seq<DependencyView>,
> {
    contracts.map_values(
        |dependencies: Vec<BytecodeDependency>| dependency::dependency_views(dependencies@),
    )
}

impl PreprocessorDependencies {
    /// The references that are replaced, by the contract in which they stand.
    pub open spec fn preprocessed(self) -> Map<ContractId, Seq<DependencyView>> {
        views_by_contract(self.preprocessed_contracts@)
    }

    /// Whether every contract is one of `hir`, and every dependency refers to one of `hir`.
    pub open spec fn well_formed(self, hir: Hir) -> bool {
        forall|id: ContractId| #[trigger]
            self.preprocessed_contracts@.contains_key(id) ==> {
                &&& id < hir.contracts@.len()
                &&& dependencies_ok(hir, self.preprocessed_contracts@[id]@)
            }
    }

    /// Finds the references to bytecode in the tests and scripts `paths`, and classifies their
    /// files in `mocks`: a file that stays natively linked is put in, another one that was looked
    /// at is taken out. Native dependencies and safe dynamic rewrites are tracked independently, so
    /// one native reference does not disable linking for the rest of the file.
    pub fn new(
        hir: &Hir,
        paths: &Vec<String>,
        script_paths: &PathSet,
        project_paths: &ProjectPaths,
        source_units: &PathSet,
        mocks: &mut PathSet,
    ) -> (deps: Self)
        requires
            hir.well_formed(),
        ensures
            ({
                let job = Job {
                    hir: *hir,
                    paths: path_set::path_ids(paths@),
                    script_paths: script_paths@,
                    project_paths: *project_paths,
                    source_units: source_units@,
                };
                &&& deps.preprocessed() == job.preprocessed(hir.contracts@.len())
                &&& final(mocks)@ == job.mocks_after(old(mocks)@)
            }),
            deps.referenced_contracts@ == referenced(deps.preprocessed()),
            deps.constructor_helpers@ == helped(*hir, deps.preprocessed()),
            deps.well_formed(*hir),
    {
        let analysis = Analysis { hir, paths, script_paths, project_paths, source_units };
        let ghost job = analysis.job();
        let in_sources = analysis.in_sources();
        let native_bases = analysis.native_bases(&in_sources);
        let mut preprocessed: BTreeMap<ContractId, Vec<BytecodeDependency>> = BTreeMap::new();
        let mut referenced_contracts: HashSet<ContractId> = HashSet::new();
        let mut constructor_helpers: HashSet<ContractId> = HashSet::new();
        let mut current_mocks = PathSet::new();
        let mut candidate_files = PathSet::new();
        let n: usize = hir.contracts.len();
        let mut id: usize = 0;
        proof {
            assert(views_by_contract(preprocessed@) =~= job.preprocessed(0));
            assert(referenced_contracts@ =~= referenced(job.preprocessed(0)));
            assert(constructor_helpers@ =~= helped(*hir, job.preprocessed(0)));
            assert(current_mocks@ =~= contracts_native(job, 0));
            assert(candidate_files@ =~= contracts_examined(job, 0));
        }
        while id < n
            invariant
                hir.well_formed(),
                n == hir.contracts@.len(),
                id <= n,
                analysis.hir == hir,
                analysis.project_paths == project_paths,
                analysis.job() == job,
                job.hir == *hir,
                job.project_paths == *project_paths,
                in_sources@ == job.in_sources(),
                native_bases@ == job.native_bases(),
                views_by_contract(preprocessed@) == job.preprocessed(id as nat),
                forall|c: ContractId| #[trigger]
                    preprocessed@.contains_key(c) ==> dependencies_ok(*hir, preprocessed@[c]@),
                referenced_contracts@ == referenced(job.preprocessed(id as nat)),
                constructor_helpers@ == helped(*hir, job.preprocessed(id as nat)),
                current_mocks@ == contracts_native(job, id as nat),
                candidate_files@ == contracts_examined(job, id as nat),
            decreases n - id,
        {
            assert(hir.contract_ok(hir.contracts@[id as int]));
            proof {
                lemma_contract_step(job, id);
            }
            let file = &hir.sources[hir.contracts[id].source].file;
            if analysis.examines(file) {
                assert(job.candidate(id));
                if let Some(path) = file {
                    let full_path = path::join(&project_paths.root, path);
                    candidate_files.insert(full_path.clone());
                    // The inherited implementation remains natively linked.
                    if inherits_from_marked(hir, id, &native_bases) {
                        current_mocks.insert(full_path.clone());
                    }
                    let (dependencies, keep_native) = analysis.examine_contract(
                        id,
                        path,
                        &in_sources,
                    );
                    if keep_native {
                        current_mocks.insert(full_path);
                    }
                    assert(current_mocks@ =~= contracts_native(job, id as nat + 1));
                    assert(candidate_files@ =~= contracts_examined(job, id as nat + 1));
                    // A contract without references, beside others in its file, is left alone.
                    if dependencies.len() > 0 {
                        proof {
                            lemma_reference_step(job, id);
                        }
                        analysis.note_references(
                            &dependencies,
                            &mut referenced_contracts,
                            &mut constructor_helpers,
                        );
                        let ghost before = preprocessed@;
                        insert_dependencies(&mut preprocessed, id, dependencies);
                        assert(views_by_contract(preprocessed@) =~= views_by_contract(before).insert(
                            id,
                            job.rewritten(id),
                        ));
                    }
                }
            }
            id = id + 1;
        }
        let native = analysis.native_sources(&in_sources);
        let m: usize = hir.sources.len();
        let mut s: usize = 0;
        let ghost mocks_before = current_mocks@;
        let ghost files_before = candidate_files@;
        proof {
            assert(current_mocks@ =~= mocks_before.union(sources_native(job, 0)));
            assert(candidate_files@ =~= files_before.union(sources_native(job, 0)));
        }
        while s < m
            invariant
                hir.well_formed(),
                m == hir.sources@.len(),
                s <= m,
                analysis.hir == hir,
                analysis.project_paths == project_paths,
                analysis.job() == job,
                job.hir == *hir,
                job.project_paths == *project_paths,
                native@.len() == m,
                forall|source: SourceId|
                    source < m ==> #[trigger] native@[source as int] == job.links_native(source),
                current_mocks@ == mocks_before.union(sources_native(job, s as nat)),
                candidate_files@ == files_before.union(sources_native(job, s as nat)),
            decreases m - s,
        {
            proof {
                lemma_source_step(job, s);
            }
            assert(native@[s as int] == job.links_native(s));
            let file = &hir.sources[s].file;
            if native[s] && analysis.examines(file) {
                if let Some(path) = file {
                    let full_path = path::join(&project_paths.root, path);
                    candidate_files.insert(full_path.clone());
                    current_mocks.insert(full_path);
                }
            }
            assert(current_mocks@ =~= mocks_before.union(sources_native(job, s as nat + 1)));
            assert(candidate_files@ =~= files_before.union(sources_native(job, s as nat + 1)));
            s = s + 1;
        }
        proof {
            assert(current_mocks@ =~= job.native_files());
            assert(candidate_files@ =~= job.examined_files());
        }
        // Replace classifications only for files examined in this compiler job. This clears stale
        // mocks after a file is refactored while preserving fallback state across narrower jobs.
        mocks.remove_all(&candidate_files);
        mocks.extend(&current_mocks);
        let deps = PreprocessorDependencies {
            preprocessed_contracts: preprocessed,
            referenced_contracts,
            constructor_helpers,
        };
        assert forall|c: ContractId| #[trigger]
            deps.preprocessed_contracts@.contains_key(c) implies c < n by {
            assert(deps.preprocessed().contains_key(c));
        }
        deps
    }
}

/// Whether every one of `dependencies` refers to a contract of `hir`, and its ranges are positions.
pub open spec fn dependencies_ok(hir: Hir, dependencies: Seq<BytecodeDependency>) -> bool {
    forall|i: int|
        0 <= i < dependencies.len() ==> collector::dependency_ok(hir, (#[trigger] dependencies[i])@)
}

fn insert_dependencies(
    contracts: &mut BTreeMap<ContractId, Vec<BytecodeDependency>>,
    id: ContractId,
    dependencies: Vec<BytecodeDependency>,
)
    ensures
        final(contracts)@ == old(contracts)@.insert(id, dependencies),
{
    broadcast use vstd::laws_cmp::group_laws_cmp;

    contracts.insert(id, dependencies);
}

spec fn contracts_native(job: Job, contracts: nat) -> Set<PathId> {
    Set::new(|file: PathId| job.contract_native(contracts, file))
}

spec fn contracts_examined(job: Job, contracts: nat) -> Set<PathId> {
    Set::new(|file: PathId| job.contract_examined(contracts, file))
}

spec fn sources_native(job: Job, sources: nat) -> Set<PathId> {
    Set::new(|file: PathId| job.source_native(sources, file))
}

proof fn lemma_contract_step(job: Job, id: ContractId)
    requires
        id < job.hir.contracts@.len(),
    ensures
        ({
            let file = job.full_path(job.hir.contract_file(id)->0);
            let next = (id + 1) as nat;
            &&& contracts_examined(job, next) == if job.candidate(id) {
                contracts_examined(job, id as nat).insert(file)
            } else {
                contracts_examined(job, id as nat)
            }
            &&& contracts_native(job, next) == if job.candidate(id) && (job.inherits_native(id)
                || job.keeps_native(id)) {
                contracts_native(job, id as nat).insert(file)
            } else {
                contracts_native(job, id as nat)
            }
            &&& job.preprocessed(next) == if job.candidate(id) && job.rewritten(id).len() > 0 {
                job.preprocessed(id as nat).insert(id, job.rewritten(id))
            } else {
                job.preprocessed(id as nat)
            }
        }),
{
    let next = (id + 1) as nat;
    let file = job.full_path(job.hir.contract_file(id)->0);
    let examined = if job.candidate(id) {
        contracts_examined(job, id as nat).insert(file)
    } else {
        contracts_examined(job, id as nat)
    };
    assert(contracts_examined(job, next) =~= examined);
    let native = if job.candidate(id) && (job.inherits_native(id) || job.keeps_native(id)) {
        contracts_native(job, id as nat).insert(file)
    } else {
        contracts_native(job, id as nat)
    };
    assert(contracts_native(job, next) =~= native);
    let preprocessed = if job.candidate(id) && job.rewritten(id).len() > 0 {
        job.preprocessed(id as nat).insert(id, job.rewritten(id))
    } else {
        job.preprocessed(id as nat)
    };
    assert(job.preprocessed(next) =~= preprocessed);
}

proof fn lemma_source_step(job: Job, id: SourceId)
    requires
        id < job.hir.sources@.len(),
    ensures
        sources_native(job, (id + 1) as nat) == if job.links_native(id) && job.examines(
            job.source_file(id),
        ) {
            sources_native(job, id as nat).insert(job.full_path(job.source_file(id)->0))
        } else {
            sources_native(job, id as nat)
        },
{
    let expected = if job.links_native(id) && job.examines(job.source_file(id)) {
        sources_native(job, id as nat).insert(job.full_path(job.source_file(id)->0))
    } else {
        sources_native(job, id as nat)
    };
    assert(sources_native(job, (id + 1) as nat) =~= expected);
}

proof fn lemma_reference_step(job: Job, id: ContractId)
    requires
        id < job.hir.contracts@.len(),
    ensures
        ({
            let before = job.preprocessed(id as nat);
            let after = before.insert(id, job.rewritten(id));
            &&& referenced(after) == referenced(before).union(targets(job.rewritten(id)))
            &&& helped(job.hir, after) == helped(job.hir, before).union(
                helper_targets(job.hir, job.rewritten(id)),
            )
        }),
{
    let before = job.preprocessed(id as nat);
    let added = job.rewritten(id);
    let after = before.insert(id, added);
    assert forall|t: ContractId| referenced(after).contains(t) == referenced(before).union(
        targets(added),
    ).contains(t) by {
        if referenced(before).contains(t) {
            let (c, i) = choose|c: ContractId, i: int|
                before.contains_key(c) && 0 <= i < before[c].len()
                    && (#[trigger] before[c][i]).referenced_contract == t;
            assert(after[c][i] == before[c][i]);
        }
        if targets(added).contains(t) {
            let i = choose|i: int|
                0 <= i < added.len() && (#[trigger] added[i]).referenced_contract == t;
            assert(after[id][i] == added[i]);
        }
        if referenced(after).contains(t) {
            let (c, i) = choose|c: ContractId, i: int|
                after.contains_key(c) && 0 <= i < after[c].len()
                    && (#[trigger] after[c][i]).referenced_contract == t;
            if c == id {
                assert(added[i] == after[c][i]);
            } else {
                assert(before[c][i] == after[c][i]);
            }
        }
    }
    assert(referenced(after) =~= referenced(before).union(targets(added)));
    let hir = job.hir;
    assert forall|t: ContractId| helped(hir, after).contains(t) == helped(hir, before).union(
        helper_targets(hir, added),
    ).contains(t) by {
        if helped(hir, before).contains(t) {
            let (c, i) = choose|c: ContractId, i: int|
                before.contains_key(c) && 0 <= i < before[c].len() && needs_helper(
                    hir,
                    #[trigger] before[c][i],
                ) && before[c][i].referenced_contract == t;
            assert(after[c][i] == before[c][i]);
        }
        if helper_targets(hir, added).contains(t) {
            let i = choose|i: int|
                0 <= i < added.len() && needs_helper(hir, #[trigger] added[i])
                    && added[i].referenced_contract == t;
            assert(after[id][i] == added[i]);
        }
        if helped(hir, after).contains(t) {
            let (c, i) = choose|c: ContractId, i: int|
                after.contains_key(c) && 0 <= i < after[c].len() && needs_helper(
                    hir,
                    #[trigger] after[c][i],
                ) && after[c][i].referenced_contract == t;
            if c == id {
                assert(added[i] == after[c][i]);
            } else {
                assert(before[c][i] == after[c][i]);
            }
        }
    }
    assert(helped(hir, after) =~= helped(hir, before).union(helper_targets(hir, added)));
}

} // verus!
