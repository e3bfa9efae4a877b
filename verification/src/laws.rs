//! What holds of the analysis and of the rewriting as a whole.
use crate::dependency;
use crate::dependency::{DependencyKindView, DependencyView};
use crate::deps;
use crate::deps::Job;
use crate::hir;
use crate::hir::{Call, ContractId, Hir, OperandKind, SourceId, Span, Type};
use crate::imports;
use crate::path;
use crate::path::PathId;
use crate::remapping;
use crate::remapping::Remapping;
use crate::rewrite;
use crate::rewrite::ContractData;
use crate::text;
use vstd::prelude::*;

verus! {

/// A creation is measured from the whole call: it starts where the call starts, ends where the call
/// ends, and its arguments begin where their list does. Without arguments there is no offset, even
/// where there are options. The name is the text of the created type. This holds where the callee
/// ends with its type, behind the start of the call.
pub proof fn law_creation_is_measured_from_the_call(
    source: Seq<char>,
    span: Span,
    call: Call,
    ty: Type,
    creation: DependencyView,
)
    requires
        hir::call_ok(source, span, call),
        call.callee.kind == OperandKind::New(ty),
        dependency::creation(source, span, call) == Some(creation),
        call.callee.span.end == ty.span.end,
        span.start <= call.callee.span.end,
    ensures
        creation.loc.start == span.start,
        creation.kind matches DependencyKindView::New { name, args_length, call_args_offset, .. } && {
            &&& creation.loc.end + args_length == span.end
            &&& call.args.len > 0 ==> creation.loc.end + call_args_offset == call.args.span.start
            &&& call.args.len == 0 ==> call_args_offset == 0
            &&& name == text::slice_of(source, ty.span.start as int, ty.span.end as int)
        },
{
}

/// A directory lies in itself.
pub proof fn law_directory_lies_in_itself(
    dir: Seq<char>,
    root: Seq<char>,
    canonical_dir: Option<Seq<char>>,
)
    ensures
        path::path_in_dir(dir, dir, root, canonical_dir, canonical_dir),
{
    let parts = path::resolved(root, dir);
    assert(parts =~= parts.subrange(0, parts.len() as int));
}

/// A file that is linked natively is one that was looked at.
pub proof fn law_native_files_are_examined(job: Job)
    ensures
        job.native_files().subset_of(job.examined_files()),
{
    let contracts = job.hir.contracts@.len();
    assert forall|file: PathId| #[trigger] job.native_files().contains(file) implies
        job.examined_files().contains(file) by {
        if job.contract_native(contracts, file) {
            let id = choose|id: ContractId|
                id < contracts && #[trigger] job.candidate(id) && (job.inherits_native(id)
                    || job.keeps_native(id)) && file == job.full_path(
                    job.hir.contract_file(id)->0,
                );
            assert(job.candidate(id));
        }
    }
}

/// A job classifies the files that it looks at, whatever they were before, so that a stale
/// classification is cleared. All other files keep theirs.
pub proof fn law_only_examined_files_are_classified(job: Job, mocks: Set<PathId>, file: PathId)
    ensures
        job.mocks_after(mocks).contains(file) == if job.examined_files().contains(file) {
            job.native_files().contains(file)
        } else {
            mocks.contains(file)
        },
{
    law_native_files_are_examined(job);
}

/// A job that is run again changes nothing.
pub proof fn law_classification_is_stable(job: Job, mocks: Set<PathId>)
    ensures
        job.mocks_after(job.mocks_after(mocks)) == job.mocks_after(mocks),
{
    law_native_files_are_examined(job);
    assert(job.mocks_after(job.mocks_after(mocks)) =~= job.mocks_after(mocks));
}

/// A test or script with a contract that inherits native code is linked natively.
pub proof fn law_inherited_code_is_native(job: Job, id: ContractId)
    requires
        job.candidate(id),
        job.inherits_native(id),
    ensures
        job.native_files().contains(job.full_path(job.hir.contract_file(id)->0)),
{
    assert(job.contract_native(
        job.hir.contracts@.len(),
        job.full_path(job.hir.contract_file(id)->0),
    ));
}

/// Native code in functions outside of any contract reaches every file that imports it, over any
/// number of files.
pub proof fn law_native_functions_reach_importers(job: Job, source: SourceId, target: SourceId, steps: nat)
    requires
        source < job.hir.sources@.len(),
        target < job.hir.sources@.len(),
        job.native_functions(target),
        imports::imports(job.hir, source, target, steps),
        job.examines(job.source_file(source)),
    ensures
        job.native_files().contains(job.full_path(job.source_file(source)->0)),
{
    assert(job.links_native(source));
    assert(job.source_native(
        job.hir.sources@.len(),
        job.full_path(job.source_file(source)->0),
    ));
}

/// A contract for which a constructor helper is generated is one that is referred to.
pub proof fn law_helped_contracts_are_referenced(
    hir: Hir,
    preprocessed: Map<ContractId, Seq<DependencyView>>,
)
    ensures
        deps::helped(hir, preprocessed).subset_of(deps::referenced(preprocessed)),
{
    assert forall|target: ContractId| #[trigger]
        deps::helped(hir, preprocessed).contains(target) implies deps::referenced(
        preprocessed,
    ).contains(target) by {
        let (id, i) = choose|id: ContractId, i: int|
            preprocessed.contains_key(id) && 0 <= i < preprocessed[id].len() && deps::needs_helper(
                hir,
                #[trigger] preprocessed[id][i],
            ) && preprocessed[id][i].referenced_contract == target;
        assert(preprocessed[id][i].referenced_contract == target);
    }
}

/// Only the tests and scripts of the job are updated.
pub proof fn law_only_examined_files_are_updated(
    job: Job,
    data: Map<ContractId, ContractData>,
    file: PathId,
)
    requires
        rewrite::all_updates(
            job.hir,
            data,
            job.preprocessed(job.hir.contracts@.len()),
            job.hir.contracts@.len(),
        ).contains_key(file),
    ensures
        job.paths.contains(file),
{
}

/// A file is updated where one of its contracts holds a reference that is replaced, and then it
/// declares the cheatcodes that this contract calls.
pub proof fn law_rewritten_contracts_declare_cheatcodes(
    job: Job,
    data: Map<ContractId, ContractData>,
    id: ContractId,
)
    requires
        job.candidate(id),
        job.rewritten(id).len() > 0,
    ensures
        ({
            let hir = job.hir;
            let n = hir.contracts@.len();
            let updates = rewrite::all_updates(hir, data, job.preprocessed(n), n);
            let file = path::path_components(hir.contract_file(id)->0);
            let helpers = rewrite::used_helpers(data, job.rewritten(id), n);
            &&& updates.contains_key(file)
            &&& exists|update: crate::updates::UpdateView| #[trigger]
                updates[file].contains(update) && update.text == rewrite::trailer(
                    id as nat,
                    helpers,
                )
        }),
{
    let hir = job.hir;
    let n = hir.contracts@.len();
    let updates = rewrite::all_updates(hir, data, job.preprocessed(n), n);
    let file = path::path_components(hir.contract_file(id)->0);
    let helpers = rewrite::used_helpers(data, job.rewritten(id), n);
    assert(rewrite::rewritten_in(hir, job.preprocessed(n), n, id, file));
    let end = vstd::utf8::encode_utf8(
        hir.sources@[hir.contracts@[id as int].source as int].text@,
    ).len() as usize;
    let update = crate::updates::UpdateView {
        start: end,
        end,
        text: rewrite::trailer(id as nat, helpers),
    };
    assert(rewrite::contract_updates(hir, data, id, job.preprocessed(n)[id]).contains(update));
    assert(updates[file].contains(update));
}

/// A function is declared for every cast that a replacement calls, and each function once.
pub proof fn law_casts_are_declared_once(
    data: Map<ContractId, ContractData>,
    dependencies: Seq<DependencyView>,
)
    ensures
        rewrite::cast_types(data, dependencies).no_duplicates(),
        forall|name: Seq<char>| #[trigger]
            rewrite::cast_types(data, dependencies).contains(name) <==> exists|i: int|
                0 <= i < dependencies.len() && rewrite::cast_type(data, #[trigger] dependencies[i])
                    == Some(name),
    decreases dependencies.len(),
{
    let types = rewrite::cast_types(data, dependencies);
    if dependencies.len() > 0 {
        let front = dependencies.drop_last();
        let before = rewrite::cast_types(data, front);
        let last = rewrite::cast_type(data, dependencies.last());
        law_casts_are_declared_once(data, front);
        assert forall|name: Seq<char>| #[trigger] types.contains(name) <==> exists|i: int|
            0 <= i < dependencies.len() && rewrite::cast_type(data, #[trigger] dependencies[i])
                == Some(name) by {
            assert(before.contains(name) <==> exists|i: int|
                0 <= i < front.len() && rewrite::cast_type(data, #[trigger] front[i]) == Some(name));
            assert(types.contains(name) <==> before.contains(name) || last == Some(name)) by {
                if types != before {
                    assert(types == before.push(last->0));
                    if before.contains(name) {
                        let k = choose|k: int| 0 <= k < before.len() && before[k] == name;
                        assert(types[k] == name);
                    }
                    assert(types[before.len() as int] == last->0);
                }
            }
            if exists|i: int|
                0 <= i < front.len() && rewrite::cast_type(data, #[trigger] front[i]) == Some(name) {
                let i = choose|i: int|
                    0 <= i < front.len() && rewrite::cast_type(data, #[trigger] front[i]) == Some(
                        name,
                    );
                assert(rewrite::cast_type(data, dependencies[i]) == Some(name));
            }
            if exists|i: int|
                0 <= i < dependencies.len() && rewrite::cast_type(data, #[trigger] dependencies[i])
                    == Some(name) {
                let i = choose|i: int|
                    0 <= i < dependencies.len() && rewrite::cast_type(
                        data,
                        #[trigger] dependencies[i],
                    ) == Some(name);
                if i < front.len() {
                    assert(rewrite::cast_type(data, front[i]) == Some(name));
                }
            }
            if last == Some(name) {
                assert(rewrite::cast_type(data, dependencies[dependencies.len() - 1]) == Some(
                    name,
                ));
            }
        }
    }
}

/// The constructor helper of a contract is imported where a replacement calls it, and each helper
/// once, in the order of the contracts.
pub proof fn law_helpers_are_imported_once(
    data: Map<ContractId, ContractData>,
    dependencies: Seq<DependencyView>,
    contracts: nat,
)
    requires
        contracts <= usize::MAX,
    ensures
        ({
            let helpers = rewrite::used_helpers(data, dependencies, contracts);
            &&& forall|i: int, j: int|
                0 <= i < j < helpers.len() ==> #[trigger] helpers[i] < #[trigger] helpers[j]
            &&& forall|target: ContractId| #[trigger]
                helpers.contains(target) <==> target < contracts && exists|i: int|
                    0 <= i < dependencies.len() && rewrite::uses_helper(
                        data,
                        #[trigger] dependencies[i],
                        target,
                    )
        }),
    decreases contracts,
{
    if contracts > 0 {
        let before = (contracts - 1) as nat;
        let last = before as ContractId;
        let front = rewrite::used_helpers(data, dependencies, before);
        let helpers = rewrite::used_helpers(data, dependencies, contracts);
        law_helpers_are_imported_once(data, dependencies, before);
        assert forall|i: int| 0 <= i < front.len() implies #[trigger] front[i] < last by {
            assert(front.contains(front[i]));
        }
        assert forall|target: ContractId| #[trigger]
            helpers.contains(target) <==> target < contracts && exists|i: int|
                0 <= i < dependencies.len() && rewrite::uses_helper(
                    data,
                    #[trigger] dependencies[i],
                    target,
                ) by {
            if helpers != front {
                assert(helpers == front.push(last));
                if front.contains(target) {
                    let k = choose|k: int| 0 <= k < front.len() && front[k] == target;
                    assert(helpers[k] == target);
                }
                assert(helpers[front.len() as int] == last);
            }
            assert(front.contains(target) <==> target < before && exists|i: int|
                0 <= i < dependencies.len() && rewrite::uses_helper(
                    data,
                    #[trigger] dependencies[i],
                    target,
                ));
        }
    }
}

/// What is generated for different contracts has different names: the cheatcode interfaces and the
/// files of the constructor helpers.
pub proof fn law_generated_names_differ(a: nat, b: nat)
    requires
        a != b,
    ensures
        rewrite::vm_interface(a) != rewrite::vm_interface(b),
        remapping::helper_path(a) != remapping::helper_path(b),
{
    let x = text::decimal_of(a);
    let y = text::decimal_of(b);
    if x == y {
        text::lemma_decimal_injective(a, b);
    }
    if rewrite::vm_interface(a) == rewrite::vm_interface(b) {
        lemma_between("VmContractHelper"@, x, y, Seq::empty());
    }
    if remapping::helper_path(a) == remapping::helper_path(b) {
        lemma_between("foundry-pp/DeployHelper"@, x, y, ".sol"@);
    }
}

/// A constructor helper is imported from the path that was checked against the remappings.
pub proof fn law_helpers_are_imported_from_their_path(id: nat)
    ensures
        rewrite::helper_import(id) == "import {DeployHelper"@ + text::decimal_of(id)
            + ", encodeArgs"@ + text::decimal_of(id) + "} from "@ + "\""@ + remapping::helper_path(id)
            + "\";"@,
{
    reveal_strlit("} from \"foundry-pp/DeployHelper");
    reveal_strlit("} from ");
    reveal_strlit("\"");
    reveal_strlit("foundry-pp/DeployHelper");
    reveal_strlit(".sol\";");
    reveal_strlit(".sol");
    reveal_strlit("\";");
    let number = text::decimal_of(id);
    let names = "import {DeployHelper"@ + number + ", encodeArgs"@ + number + "} from "@;
    assert("} from \"foundry-pp/DeployHelper"@ =~= "} from "@ + "\""@ + "foundry-pp/DeployHelper"@);
    assert(".sol\";"@ =~= ".sol"@ + "\";"@);
    assert(rewrite::helper_import(id) =~= names + "\""@ + remapping::helper_path(id) + "\";"@);
}

/// The casts of a contract to different types have different names.
pub proof fn law_cast_names_differ(id: nat, a: Seq<char>, b: Seq<char>)
    requires
        a != b,
    ensures
        rewrite::cast_name(id, a) != rewrite::cast_name(id, b),
{
    if rewrite::cast_name(id, a) == rewrite::cast_name(id, b) {
        lemma_between("addressTo"@, a, b, text::decimal_of(id));
    }
}

/// What stands between the same two texts is the same.
proof fn lemma_between(front: Seq<char>, a: Seq<char>, b: Seq<char>, back: Seq<char>)
    requires
        front + a + back == front + b + back,
    ensures
        a == b,
{
    let whole = front + a + back;
    assert(whole == front + b + back);
    assert(a.len() == b.len());
    assert(a =~= whole.subrange(front.len() as int, (front.len() + a.len()) as int));
    assert(b =~= whole.subrange(front.len() as int, (front.len() + b.len()) as int));
}

/// A constructor helper makes a rewrite no safer, and without remappings it makes no difference: a
/// reference may then be generated where the source is compiled under its path below the root.
pub proof fn law_helpers_only_narrow(
    path: Seq<char>,
    source_path: Seq<char>,
    root: Seq<char>,
    source_units: Set<PathId>,
    remappings: Seq<Remapping>,
    id: nat,
)
    ensures
        ({
            let with_helper = remapping::rewrite_preserves_identity(
                path,
                source_path,
                root,
                source_units,
                remappings,
                true,
                id,
            );
            let without = remapping::rewrite_preserves_identity(
                path,
                source_path,
                root,
                source_units,
                remappings,
                false,
                id,
            );
            let compiled = source_units.contains(
                path::path_components(remapping::relative_to(path, root)),
            );
            &&& with_helper ==> without
            &&& without ==> compiled
            &&& remappings.len() == 0 && compiled ==> with_helper
        }),
{
}

} // verus!
