//! Replaces bytecode dependencies by cheatcode invocations.
use crate::dependency;
use crate::dependency::{BytecodeDependency, BytecodeDependencyKind, DependencyKindView, DependencyView};
use crate::deps;
use crate::deps::PreprocessorDependencies;
use crate::hir::{ContractId, FunctionId, Hir, Item};
use crate::path;
use crate::path::PathId;
use crate::text;
use crate::updates;
use crate::updates::{Update, UpdateSet, UpdateView, Updates};
use std::collections::BTreeMap;
use vstd::prelude::*;
use vstd::string::*;

verus! {

/// What is known of a contract that is referred to.
pub struct ContractData {
    /// The name under which the contract's artifact is found.
    pub artifact: String,
    /// Whether a constructor helper is generated for the contract.
    pub has_constructor_data: bool,
}

/// What is known of the contracts that are referred to.
pub type PreprocessorData = BTreeMap<ContractId, ContractData>;

/// The cheatcodes that a rewritten contract calls.
pub const VM_FUNCTIONS: &'static str = "    function deployCode(string memory _artifact) external returns (address);
    function deployCode(string memory _artifact, bytes32 _salt) external returns (address);
    function deployCode(string memory _artifact, bytes memory _args) external returns (address);
    function deployCode(string memory _artifact, bytes memory _args, bytes32 _salt) external returns (address);
    function deployCode(string memory _artifact, uint256 _value) external returns (address);
    function deployCode(string memory _artifact, uint256 _value, bytes32 _salt) external returns (address);
    function deployCode(string memory _artifact, bytes memory _args, uint256 _value) external returns (address);
    function deployCode(string memory _artifact, bytes memory _args, uint256 _value, bytes32 _salt) external returns (address);
    function getCode(string memory _artifact) external view returns (bytes memory);
";

/// The name of the cheatcode interface for contract `id`.
pub open spec fn vm_interface(id: nat) -> Seq<char> {
    "VmContractHelper"@ + text::decimal_of(id)
}

/// The cheatcode contract as contract `id` names it: its address is
/// `address(uint160(uint256(keccak256("hevm cheat code"))))`.
pub open spec fn vm(id: nat) -> Seq<char> {
    vm_interface(id) + "(0x7109709ECfa91a80626fF3989D68f67F5b1DD12D)"@
}

/// The name of the function of contract `id` that casts an address to the contract type `name`.
pub open spec fn cast_name(id: nat, name: Seq<char>) -> Seq<char> {
    "addressTo"@ + name + text::decimal_of(id)
}

/// What stands before a deployment in contract `id`: a cast to the contract type `name`, which a
/// `try` statement makes by a call of a function, or not at all where it returns no contract.
pub open spec fn opening(id: nat, name: Seq<char>, try_stmt: Option<bool>) -> Seq<char> {
    match try_stmt {
        Some(true) => "this."@ + cast_name(id, name) + "("@,
        Some(false) => Seq::empty(),
        None => name + "(payable("@,
    }
}

/// What stands behind a deployment.
pub open spec fn closing(try_stmt: Option<bool>) -> Seq<char> {
    match try_stmt {
        Some(true) => "}))"@,
        Some(false) => "})"@,
        None => "})))"@,
    }
}

/// A named argument behind others, if there is one.
pub open spec fn argument(label: Seq<char>, value: Option<Seq<char>>) -> Seq<char> {
    match value {
        Some(value) => label + value,
        None => Seq::empty(),
    }
}

/// A deployment in contract `id`, up to its constructor arguments.
pub open spec fn deployment(
    id: nat,
    artifact: Seq<char>,
    name: Seq<char>,
    value: Option<Seq<char>>,
    salt: Option<Seq<char>>,
    try_stmt: Option<bool>,
) -> Seq<char> {
    opening(id, name, try_stmt) + vm(id) + ".deployCode({_artifact: \""@ + artifact + "\""@ + argument(
        ", _value: "@,
        value,
    ) + argument(", _salt: "@, salt)
}

/// The constructor arguments of contract `target`, up to the list of them.
pub open spec fn encoded_args(target: nat) -> Seq<char> {
    ", _args: encodeArgs"@ + text::decimal_of(target) + "(DeployHelper"@ + text::decimal_of(target)
        + ".FoundryPpConstructorArgs"@
}

/// What replaces `dependency` in contract `id`, given what is known of the referenced contract.
///
/// Creation code is read by a cheatcode. A creation becomes a deployment: with a constructor helper,
/// what stands before the arguments and what stands behind them are replaced, and without one the
/// whole creation is.
pub open spec fn replacement(id: nat, dependency: DependencyView, data: ContractData) -> Set<
    UpdateView,
> {
    let loc = dependency.loc;
    match dependency.kind {
        DependencyKindView::CreationCode => set![
            UpdateView {
                start: loc.start,
                end: loc.end,
                text: vm(id) + ".getCode(\""@ + data.artifact@ + "\")"@,
            },
        ],
        DependencyKindView::New { name, args_length, call_args_offset, value, salt, try_stmt } => {
            let deployment = deployment(id, data.artifact@, name, value, salt, try_stmt);
            let behind = (loc.end + args_length) as usize;
            if data.has_constructor_data {
                set![
                    UpdateView {
                        start: loc.start,
                        end: (loc.end + call_args_offset) as usize,
                        text: deployment + encoded_args(dependency.referenced_contract as nat),
                    },
                    UpdateView { start: behind, end: behind, text: ")"@ + closing(try_stmt) },
                ]
            } else {
                set![
                    UpdateView {
                        start: loc.start,
                        end: behind,
                        text: deployment + closing(try_stmt),
                    },
                ]
            }
        },
    }
}

/// The type to which `dependency` needs a function that casts an address, if any.
pub open spec fn cast_type(
    data: Map<ContractId, ContractData>,
    dependency: DependencyView,
) -> Option<Seq<char>> {
    match dependency.kind {
        DependencyKindView::New { name, try_stmt: Some(true), .. } => if data.contains_key(
            dependency.referenced_contract,
        ) {
            Some(name)
        } else {
            None
        },
        _ => None,
    }
}

/// The types to which `dependencies` need such functions, each once, in the order of their first
/// use.
pub open spec fn cast_types(
    data: Map<ContractId, ContractData>,
    dependencies: Seq<DependencyView>,
) -> Seq<Seq<char>>
    decreases dependencies.len(),
{
    if dependencies.len() == 0 {
        Seq::empty()
    } else {
        let front = cast_types(data, dependencies.drop_last());
        match cast_type(data, dependencies.last()) {
            Some(name) => if front.contains(name) {
                front
            } else {
                front.push(name)
            },
            None => front,
        }
    }
}

/// The function of contract `id` that casts an address to the contract type `name`.
pub open spec fn cast_function(id: nat, name: Seq<char>) -> Seq<char> {
    "\n                            function "@ + cast_name(id, name)
        + "(address addr) public pure returns ("@ + name + ") {\n                                return "@
        + name + "(addr);\n                            }\n                        "@
}

/// The functions of contract `id` that cast to `types`.
pub open spec fn cast_functions(id: nat, types: Seq<Seq<char>>) -> Seq<char>
    decreases types.len(),
{
    if types.len() == 0 {
        Seq::empty()
    } else {
        cast_functions(id, types.drop_last()) + cast_function(id, types.last())
    }
}

/// The function that is declared last among `items`.
pub open spec fn last_function(items: Seq<Item>) -> Option<FunctionId>
    decreases items.len(),
{
    if items.len() == 0 {
        None
    } else {
        match items.last() {
            Item::Function(id) => Some(id),
            Item::Nodes(_) => last_function(items.drop_last()),
        }
    }
}

/// Whether `dependency` is a creation of `target` that uses its constructor helper.
pub open spec fn uses_helper(
    data: Map<ContractId, ContractData>,
    dependency: DependencyView,
    target: ContractId,
) -> bool {
    &&& dependency.kind is New
    &&& dependency.referenced_contract == target
    &&& data.contains_key(target)
    &&& data[target].has_constructor_data
}

/// The contracts below `contracts` whose constructor helpers `dependencies` use, in order.
pub open spec fn used_helpers(
    data: Map<ContractId, ContractData>,
    dependencies: Seq<DependencyView>,
    contracts: nat,
) -> Seq<ContractId>
    decreases contracts,
{
    if contracts == 0 {
        Seq::empty()
    } else {
        let target = (contracts - 1) as ContractId;
        let front = used_helpers(data, dependencies, (contracts - 1) as nat);
        if exists|i: int|
            0 <= i < dependencies.len() && uses_helper(data, #[trigger] dependencies[i], target) {
            front.push(target)
        } else {
            front
        }
    }
}

/// The import of the constructor helper of contract `id`.
pub open spec fn helper_import(id: nat) -> Seq<char> {
    "import {DeployHelper"@ + text::decimal_of(id) + ", encodeArgs"@ + text::decimal_of(id)
        + "} from \"foundry-pp/DeployHelper"@ + text::decimal_of(id) + ".sol\";"@
}

/// What is added at the end of the file of contract `id`: the imports of the constructor helpers in
/// `helpers`, and the cheatcode interface.
pub open spec fn trailer(id: nat, helpers: Seq<ContractId>) -> Seq<char> {
    "\n"@ + text::joined(helpers.map_values(|helper: ContractId| helper_import(helper as nat)), "\n"@)
        + "\n\ninterface "@ + vm_interface(id) + " {\n"@ + VM_FUNCTIONS@ + "}"@
}

/// The updates that `dependencies`, those of contract `id`, come to.
pub open spec fn contract_updates(
    hir: Hir,
    data: Map<ContractId, ContractData>,
    id: ContractId,
    dependencies: Seq<DependencyView>,
) -> Set<UpdateView> {
    let contract = hir.contracts@[id as int];
    let types = cast_types(data, dependencies);
    let end = vstd::utf8::encode_utf8(hir.sources@[contract.source as int].text@).len() as usize;
    let helpers = used_helpers(data, dependencies, hir.contracts@.len());
    replacements(id as nat, data, dependencies).union(
        match last_function(contract.items@) {
            Some(last) => if types.len() > 0 {
                let behind = hir.functions@[last as int].span.end;
                set![
                    UpdateView {
                        start: behind,
                        end: behind,
                        text: cast_functions(id as nat, types),
                    },
                ]
            } else {
                Set::empty()
            },
            None => Set::empty(),
        },
    ).insert(UpdateView { start: end, end, text: trailer(id as nat, helpers) })
}

/// What replaces `dependencies` in contract `id`, as far as the referenced contracts are known.
pub open spec fn replacements(
    id: nat,
    data: Map<ContractId, ContractData>,
    dependencies: Seq<DependencyView>,
) -> Set<UpdateView> {
    Set::new(
        |update: UpdateView|
            exists|i: int|
                0 <= i < dependencies.len() && data.contains_key(
                    (#[trigger] dependencies[i]).referenced_contract,
                ) && replacement(
                    id,
                    dependencies[i],
                    data[dependencies[i].referenced_contract],
                ).contains(update),
    )
}

/// Whether contract `id`, one of those below `contracts`, is rewritten in file `file`.
pub open spec fn rewritten_in(
    hir: Hir,
    preprocessed: Map<ContractId, Seq<DependencyView>>,
    contracts: nat,
    id: ContractId,
    file: PathId,
) -> bool {
    &&& id < contracts
    &&& preprocessed.contains_key(id)
    &&& hir.contract_file(id) matches Some(path) && path::path_components(path) == file
}

/// The updates of each file in which a contract below `contracts` is rewritten.
pub open spec fn all_updates(
    hir: Hir,
    data: Map<ContractId, ContractData>,
    preprocessed: Map<ContractId, Seq<DependencyView>>,
    contracts: nat,
) -> Map<PathId, Set<UpdateView>> {
    Map::new(
        |file: PathId|
            exists|id: ContractId| #[trigger] rewritten_in(hir, preprocessed, contracts, id, file),
        |file: PathId|
            Set::new(
                |update: UpdateView|
                    exists|id: ContractId| #[trigger]
                        rewritten_in(hir, preprocessed, contracts, id, file) && contract_updates(
                            hir,
                            data,
                            id,
                            preprocessed[id],
                        ).contains(update),
            ),
    )
}

fn vm_interface_of(id: ContractId) -> (name: String)
    ensures
        name@ == vm_interface(id as nat),
{
    let mut name = "VmContractHelper".to_owned();
    name.append(&text::decimal(id));
    name
}

fn vm_of(id: ContractId) -> (vm: String)
    ensures
        vm@ == self::vm(id as nat),
{
    let mut vm = vm_interface_of(id);
    vm.append("(0x7109709ECfa91a80626fF3989D68f67F5b1DD12D)");
    vm
}

fn cast_name_of(id: ContractId, name: &str) -> (cast: String)
    ensures
        cast@ == cast_name(id as nat, name@),
{
    let mut cast = "addressTo".to_owned();
    cast.append(name);
    cast.append(&text::decimal(id));
    cast
}

fn opening_of(id: ContractId, name: &str, try_stmt: Option<bool>) -> (text: String)
    ensures
        text@ == opening(id as nat, name@, try_stmt),
{
    match try_stmt {
        Some(has_ret) => if has_ret {
            // try this.addressToCounter1() returns (Counter c)
            let mut text = "this.".to_owned();
            text.append(&cast_name_of(id, name));
            text.append("(");
            text
        } else {
            String::new()
        },
        None => {
            let mut text = name.to_owned();
            text.append("(payable(");
            text
        },
    }
}

fn closing_of(try_stmt: Option<bool>) -> (text: &'static str)
    ensures
        text@ == closing(try_stmt),
{
    match try_stmt {
        Some(has_ret) => if has_ret {
            "}))"
        } else {
            "})"
        },
        None => "})))",
    }
}

fn append_argument(text: &mut String, label: &str, value: &Option<String>)
    ensures
        final(text)@ == old(text)@ + argument(label@, text::option_view(*value)),
{
    let ghost before = text@;
    if let Some(value) = value {
        text.append(label);
        text.append(value);
    }
    assert(text@ =~= before + argument(label@, text::option_view(*value)));
}

fn append_encoded_args(text: &mut String, target: ContractId)
    ensures
        final(text)@ == old(text)@ + encoded_args(target as nat),
{
    let ghost before = text@;
    let id = text::decimal(target);
    text.append(", _args: encodeArgs");
    text.append(&id);
    text.append("(DeployHelper");
    text.append(&id);
    text.append(".FoundryPpConstructorArgs");
    assert(text@ =~= before + encoded_args(target as nat));
}

/// Adds what replaces `dep` in contract `id`.
fn replace(id: ContractId, dep: &BytecodeDependency, data: &ContractData, updates: &mut UpdateSet)
    requires
        dep@.in_range(),
    ensures
        final(updates)@ == old(updates)@.union(replacement(id as nat, dep@, *data)),
{
    let ghost all = replacement(id as nat, dep@, *data);
    match &dep.kind {
        BytecodeDependencyKind::CreationCode => {
            let mut update = vm_of(id);
            update.append(".getCode(\"");
            update.append(&data.artifact);
            update.append("\")");
            updates.insert(Update { start: dep.loc.start, end: dep.loc.end, text: update });
        },
        BytecodeDependencyKind::New {
            name,
            args_length,
            call_args_offset,
            value,
            salt,
            try_stmt,
        } => {
            let mut update = opening_of(id, name, *try_stmt);
            update.append(&vm_of(id));
            update.append(".deployCode({_artifact: \"");
            update.append(&data.artifact);
            update.append("\"");
            append_argument(&mut update, ", _value: ", value);
            append_argument(&mut update, ", _salt: ", salt);
            let behind: usize = dep.loc.end + *args_length;
            let closing_seq = closing_of(*try_stmt);
            if data.has_constructor_data {
                append_encoded_args(&mut update, dep.referenced_contract);
                updates.insert(
                    Update {
                        start: dep.loc.start,
                        end: dep.loc.end + *call_args_offset,
                        text: update,
                    },
                );
                let mut close = ")".to_owned();
                close.append(closing_seq);
                updates.insert(Update { start: behind, end: behind, text: close });
            } else {
                update.append(closing_seq);
                updates.insert(Update { start: dep.loc.start, end: behind, text: update });
            }
        },
    }
    assert(updates@ =~= old(updates)@.union(all));
}

fn data_of(data: &PreprocessorData, id: ContractId) -> (found: Option<&ContractData>)
    ensures
        found is Some <==> data@.contains_key(id),
        found matches Some(d) ==> *d == data@[id],
{
    broadcast use vstd::laws_cmp::group_laws_cmp;

    data.get(&id)
}

fn has_name(names: &Vec<String>, name: &String) -> (found: bool)
    ensures
        found == text::texts(names@).contains(name@),
{
    let mut i: usize = 0;
    while i < names.len()
        invariant
            i <= names@.len(),
            forall|j: int| 0 <= j < i ==> (#[trigger] names@[j])@ != name@,
        decreases names@.len() - i,
    {
        if names[i] == *name {
            assert(text::texts(names@)[i as int] == name@);
            return true;
        }
        i = i + 1;
    }
    assert forall|j: int| 0 <= j < text::texts(names@).len() implies text::texts(names@)[j]
        != name@ by {
        assert(names@[j]@ != name@);
    }
    false
}

fn cast_function_of(id: ContractId, name: &str) -> (text: String)
    ensures
        text@ == cast_function(id as nat, name@),
{
    let mut text = "\n                            function ".to_owned();
    text.append(&cast_name_of(id, name));
    text.append("(address addr) public pure returns (");
    text.append(name);
    text.append(") {\n                                return ");
    text.append(name);
    text.append("(addr);\n                            }\n                        ");
    text
}

fn cast_functions_of(id: ContractId, types: &Vec<String>) -> (text: String)
    ensures
        text@ == cast_functions(id as nat, text::texts(types@)),
{
    let ghost all = text::texts(types@);
    let mut text = String::new();
    let mut i: usize = 0;
    while i < types.len()
        invariant
            all == text::texts(types@),
            i <= types@.len(),
            text@ == cast_functions(id as nat, all.take(i as int)),
        decreases types@.len() - i,
    {
        assert(all.take(i + 1).drop_last() =~= all.take(i as int));
        assert(all.take(i + 1).last() == types@[i as int]@);
        text.append(&cast_function_of(id, &types[i]));
        i = i + 1;
    }
    assert(all.take(i as int) =~= all);
    text
}

fn last_function_of(items: &Vec<Item>) -> (last: Option<FunctionId>)
    ensures
        last == last_function(items@),
{
    let mut k: usize = items.len();
    assert(items@.take(k as int) =~= items@);
    while k > 0
        invariant
            k <= items@.len(),
            last_function(items@) == last_function(items@.take(k as int)),
        decreases k,
    {
        assert(items@.take(k as int).drop_last() =~= items@.take(k - 1));
        assert(items@.take(k as int).last() == items@[k - 1]);
        if let Item::Function(id) = &items[k - 1] {
            return Some(*id);
        }
        k = k - 1;
    }
    None
}

fn helper_import_of(id: ContractId) -> (text: String)
    ensures
        text@ == helper_import(id as nat),
{
    let digits = text::decimal(id);
    let mut text = "import {DeployHelper".to_owned();
    text.append(&digits);
    text.append(", encodeArgs");
    text.append(&digits);
    text.append("} from \"foundry-pp/DeployHelper");
    text.append(&digits);
    text.append(".sol\";");
    text
}

/// The imports of the constructor helpers that are marked in `used`.
fn helper_imports(
    used: &Vec<bool>,
    data: Ghost<Map<ContractId, ContractData>>,
    dependencies: Ghost<Seq<DependencyView>>,
) -> (lines: Vec<String>)
    requires
        forall|target: ContractId|
            target < used@.len() ==> (#[trigger] used@[target as int] <==> exists|i: int|
                0 <= i < dependencies@.len() && uses_helper(
                    data@,
                    #[trigger] dependencies@[i],
                    target,
                )),
    ensures
        text::texts(lines@) == used_helpers(data@, dependencies@, used@.len()).map_values(
            |helper: ContractId| helper_import(helper as nat),
        ),
{
    let ghost import = |helper: ContractId| helper_import(helper as nat);
    let mut lines: Vec<String> = Vec::new();
    let mut k: usize = 0;
    assert(text::texts(lines@) =~= used_helpers(data@, dependencies@, 0).map_values(import));
    while k < used.len()
        invariant
            import == (|helper: ContractId| helper_import(helper as nat)),
            k <= used@.len(),
            forall|target: ContractId|
                target < used@.len() ==> (#[trigger] used@[target as int] <==> exists|i: int|
                    0 <= i < dependencies@.len() && uses_helper(
                        data@,
                        #[trigger] dependencies@[i],
                        target,
                    )),
            text::texts(lines@) == used_helpers(data@, dependencies@, k as nat).map_values(import),
        decreases used@.len() - k,
    {
        let ghost before = lines@;
        let ghost front = used_helpers(data@, dependencies@, k as nat);
        if used[k] {
            lines.push(helper_import_of(k));
            assert(text::texts(lines@) =~= text::texts(before).push(helper_import(k as nat)));
            assert(front.push(k).map_values(import) =~= front.map_values(import).push(
                helper_import(k as nat),
            ));
        }
        k = k + 1;
    }
    lines
}

fn trailer_of(id: ContractId, imports: &Vec<String>, helpers: Ghost<Seq<ContractId>>) -> (text: String)
    requires
        text::texts(imports@) == helpers@.map_values(
            |helper: ContractId| helper_import(helper as nat),
        ),
    ensures
        text@ == trailer(id as nat, helpers@),
{
    let mut text = "\n".to_owned();
    text.append(&text::join(imports, "\n"));
    text.append("\n\ninterface ");
    text.append(&vm_interface_of(id));
    text.append(" {\n");
    text.append(VM_FUNCTIONS);
    text.append("}");
    text
}

/// The updates that `dependencies`, those of contract `id`, come to.
pub fn updates_of(
    hir: &Hir,
    data: &PreprocessorData,
    id: ContractId,
    dependencies: &Vec<BytecodeDependency>,
) -> (updates: UpdateSet)
    requires
        hir.well_formed(),
        id < hir.contracts@.len(),
        deps::dependencies_ok(*hir, dependencies@),
    ensures
        updates@ == contract_updates(
            *hir,
            data@,
            id,
            dependency::dependency_views(dependencies@),
        ),
{
    let ghost views = dependency::dependency_views(dependencies@);
    let ghost n = hir.contracts@.len();
    assert(hir.contract_ok(hir.contracts@[id as int]));
    let contract = &hir.contracts[id];
    let source = &hir.sources[contract.source];
    let mut updates = UpdateSet::new();
    let mut casts: Vec<String> = Vec::new();
    let mut used: Vec<bool> = Vec::new();
    let mut k: usize = 0;
    while k < hir.contracts.len()
        invariant
            k <= hir.contracts@.len(),
            used@.len() == k,
            forall|j: int| 0 <= j < k ==> !(#[trigger] used@[j]),
        decreases hir.contracts@.len() - k,
    {
        used.push(false);
        k = k + 1;
    }
    let mut i: usize = 0;
    proof {
        assert(updates@ =~= replacements(id as nat, data@, views.take(0)));
        assert(text::texts(casts@) =~= cast_types(data@, views.take(0)));
    }
    while i < dependencies.len()
        invariant
            n == hir.contracts@.len(),
            deps::dependencies_ok(*hir, dependencies@),
            views == dependency::dependency_views(dependencies@),
            i <= dependencies@.len(),
            updates@ == replacements(id as nat, data@, views.take(i as int)),
            text::texts(casts@) == cast_types(data@, views.take(i as int)),
            used@.len() == n,
            forall|target: ContractId|
                target < n ==> (#[trigger] used@[target as int] <==> exists|j: int|
                    0 <= j < i && uses_helper(data@, #[trigger] views[j], target)),
        decreases dependencies@.len() - i,
    {
        let dep = &dependencies[i];
        let ghost before = used@;
        proof {
            assert(views[i as int] == dep@);
            assert(crate::collector::dependency_ok(*hir, dep@));
            lemma_replacements_step(id as nat, data@, views, i as int);
            assert(views.take(i + 1).drop_last() =~= views.take(i as int));
            assert(views.take(i + 1).last() == dep@);
        }
        if let Some(contract_data) = data_of(data, dep.referenced_contract) {
            replace(id, dep, contract_data, &mut updates);
            if let BytecodeDependencyKind::New { name, try_stmt, .. } = &dep.kind {
                if let Some(true) = try_stmt {
                    if !has_name(&casts, name) {
                        let ghost names = text::texts(casts@);
                        casts.push(name.clone());
                        assert(text::texts(casts@) =~= names.push(name@));
                    }
                }
                if contract_data.has_constructor_data {
                    used.set(dep.referenced_contract, true);
                }
            }
        }
        assert forall|target: ContractId| target < n implies (#[trigger] used@[target as int]
            <==> exists|j: int| 0 <= j < i + 1 && uses_helper(data@, #[trigger] views[j], target)) by {
            assert(before[target as int] <==> exists|j: int|
                0 <= j < i && uses_helper(data@, #[trigger] views[j], target));
            assert(used@[target as int] <==> before[target as int] || uses_helper(
                data@,
                views[i as int],
                target,
            ));
        }
        i = i + 1;
    }
    assert(views.take(i as int) =~= views);
    // The functions that cast go behind the last function of the contract.
    if casts.len() > 0 {
        if let Some(last_fn_id) = last_function_of(&contract.items) {
            proof {
                lemma_last_function(contract.items@);
            }
            let behind: usize = hir.functions[last_fn_id].span.end;
            updates.insert(
                Update { start: behind, end: behind, text: cast_functions_of(id, &casts) },
            );
        }
    }
    let imports = helper_imports(&used, Ghost(data@), Ghost(views));
    let end: usize = source.text.as_str().as_bytes().len();
    let text = trailer_of(id, &imports, Ghost(used_helpers(data@, views, n)));
    updates.insert(Update { start: end, end, text });
    assert(updates@ =~= contract_updates(*hir, data@, id, views));
    updates
}

proof fn lemma_last_function(items: Seq<Item>)
    ensures
        last_function(items) matches Some(id) ==> exists|i: int|
            0 <= i < items.len() && #[trigger] items[i] == Item::Function(id),
    decreases items.len(),
{
    if items.len() > 0 {
        if let Item::Nodes(_) = items.last() {
            lemma_last_function(items.drop_last());
            if let Some(id) = last_function(items.drop_last()) {
                let i = choose|i: int|
                    0 <= i < items.drop_last().len() && #[trigger] items.drop_last()[i]
                        == Item::Function(id);
                assert(items[i] == items.drop_last()[i]);
            }
        } else {
            assert(items[items.len() - 1] == items.last());
        }
    }
}

proof fn lemma_replacements_step(
    id: nat,
    data: Map<ContractId, ContractData>,
    views: Seq<DependencyView>,
    k: int,
)
    requires
        0 <= k < views.len(),
    ensures
        replacements(id, data, views.take(k + 1)) == if data.contains_key(
            views[k].referenced_contract,
        ) {
            replacements(id, data, views.take(k)).union(
                replacement(id, views[k], data[views[k].referenced_contract]),
            )
        } else {
            replacements(id, data, views.take(k))
        },
{
    let short = views.take(k);
    let long = views.take(k + 1);
    let known = data.contains_key(views[k].referenced_contract);
    let expected = if known {
        replacements(id, data, short).union(
            replacement(id, views[k], data[views[k].referenced_contract]),
        )
    } else {
        replacements(id, data, short)
    };
    assert(long[k] == views[k]);
    assert forall|u: UpdateView| replacements(id, data, long).contains(u) == expected.contains(u) by {
        if replacements(id, data, short).contains(u) {
            let i = choose|i: int|
                0 <= i < short.len() && data.contains_key(
                    (#[trigger] short[i]).referenced_contract,
                ) && replacement(id, short[i], data[short[i].referenced_contract]).contains(u);
            assert(long[i] == short[i]);
        }
        if replacements(id, data, long).contains(u) {
            let i = choose|i: int|
                0 <= i < long.len() && data.contains_key((#[trigger] long[i]).referenced_contract)
                    && replacement(id, long[i], data[long[i].referenced_contract]).contains(u);
            if i < k {
                assert(short[i] == long[i]);
            }
        }
    }
    assert(replacements(id, data, long) =~= expected);
}

fn dependencies_of(
    contracts: &BTreeMap<ContractId, Vec<BytecodeDependency>>,
    id: ContractId,
) -> (found: Option<&Vec<BytecodeDependency>>)
    ensures
        found is Some <==> contracts@.contains_key(id),
        found matches Some(d) ==> *d == contracts@[id],
{
    broadcast use vstd::laws_cmp::group_laws_cmp;

    contracts.get(&id)
}

/// Goes over all test/script files and replaces bytecode dependencies with cheatcode
/// invocations.
///
/// Special handling of try/catch statements with custom returns, where the try statement becomes
/// ```solidity
/// try this.addressToCounter() returns (Counter c)
/// ```
/// and helper to cast address is appended
/// ```solidity
/// function addressToCounter(address addr) returns (Counter) {
///     return Counter(addr);
/// }
/// ```
pub fn remove_bytecode_dependencies(
    hir: &Hir,
    deps: &PreprocessorDependencies,
    data: &PreprocessorData,
) -> (updates: Updates)
    requires
        hir.well_formed(),
        deps.well_formed(*hir),
    ensures
        updates@ == all_updates(*hir, data@, deps.preprocessed(), hir.contracts@.len()),
{
    let ghost pre = deps.preprocessed();
    let n: usize = hir.contracts.len();
    let mut updates = Updates::new();
    let mut id: usize = 0;
    assert(updates@ =~= all_updates(*hir, data@, pre, 0));
    while id < n
        invariant
            hir.well_formed(),
            deps.well_formed(*hir),
            pre == deps.preprocessed(),
            n == hir.contracts@.len(),
            id <= n,
            updates@ == all_updates(*hir, data@, pre, id as nat),
        decreases n - id,
    {
        assert(hir.contract_ok(hir.contracts@[id as int]));
        proof {
            lemma_updates_step(*hir, data@, pre, id);
        }
        if let Some(dependencies) = dependencies_of(&deps.preprocessed_contracts, id) {
            assert(pre.contains_key(id));
            assert(pre[id] == dependency::dependency_views(dependencies@));
            if let Some(path) = &hir.sources[hir.contracts[id].source].file {
                updates.extend(path, updates_of(hir, data, id, dependencies));
            }
        }
        id = id + 1;
    }
    updates
}

proof fn lemma_updates_step(
    hir: Hir,
    data: Map<ContractId, ContractData>,
    pre: Map<ContractId, Seq<DependencyView>>,
    id: ContractId,
)
    requires
        id < hir.contracts@.len(),
    ensures
        all_updates(hir, data, pre, (id + 1) as nat) == if pre.contains_key(id)
            && hir.contract_file(id) is Some {
            updates::with_updates(
                all_updates(hir, data, pre, id as nat),
                path::path_components(hir.contract_file(id)->0),
                contract_updates(hir, data, id, pre[id]),
            )
        } else {
            all_updates(hir, data, pre, id as nat)
        },
{
    let k = id as nat;
    let next = (id + 1) as nat;
    let short = all_updates(hir, data, pre, k);
    let long = all_updates(hir, data, pre, next);
    let here = pre.contains_key(id) && hir.contract_file(id) is Some;
    let file = path::path_components(hir.contract_file(id)->0);
    let own = contract_updates(hir, data, id, pre[id]);
    let expected = if here {
        updates::with_updates(short, file, own)
    } else {
        short
    };
    assert forall|f: PathId, c: ContractId| #[trigger]
        rewritten_in(hir, pre, next, c, f) == (rewritten_in(hir, pre, k, c, f) || (c == id && here && f
            == file)) by {}
    assert forall|f: PathId| long.contains_key(f) == expected.contains_key(f) by {
        if short.contains_key(f) {
            let c = choose|c: ContractId| #[trigger] rewritten_in(hir, pre, k, c, f);
            assert(rewritten_in(hir, pre, next, c, f));
        }
        if here && f == file {
            assert(rewritten_in(hir, pre, next, id, f));
        }
        if long.contains_key(f) {
            let c = choose|c: ContractId| #[trigger] rewritten_in(hir, pre, next, c, f);
            assert(rewritten_in(hir, pre, k, c, f) || (here && f == file));
        }
    }
    assert forall|f: PathId| long.contains_key(f) implies #[trigger] long[f] == expected[f] by {
        assert forall|u: UpdateView| long[f].contains(u) == expected[f].contains(u) by {
            if long[f].contains(u) {
                let c = choose|c: ContractId| #[trigger]
                    rewritten_in(hir, pre, next, c, f) && contract_updates(
                        hir,
                        data,
                        c,
                        pre[c],
                    ).contains(u);
                assert(rewritten_in(hir, pre, k, c, f) || (c == id && here && f == file));
            }
            if short.contains_key(f) && short[f].contains(u) {
                let c = choose|c: ContractId| #[trigger]
                    rewritten_in(hir, pre, k, c, f) && contract_updates(
                        hir,
                        data,
                        c,
                        pre[c],
                    ).contains(u);
                assert(rewritten_in(hir, pre, next, c, f));
            }
            if here && f == file && own.contains(u) {
                assert(rewritten_in(hir, pre, next, id, f));
            }
        }
        assert(long[f] =~= expected[f]);
    }
    assert(long =~= expected);
}

} // verus!
