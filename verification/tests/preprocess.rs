//! The analysis of a project, and the updates to its tests.
use bytecode_deps::dependency::{BytecodeDependency, BytecodeDependencyKind};
use bytecode_deps::deps::{
    inherits_from_marked, inherits_from_script, retain_marked, PreprocessorDependencies,
};
use bytecode_deps::hir::{
    Call, CallArgs, CallOptions, Contract, Expr, ExprKind, Function, FunctionKind, Hir, Item, ItemId,
    NamedArg, Node, Operand, OperandKind, Source, Span, StateMutability, Stmt, TryClause, TryStmt, Type,
    TypeKind, Variable,
};
use bytecode_deps::imports::propagate;
use bytecode_deps::path_set::PathSet;
use bytecode_deps::project::ProjectPaths;
use bytecode_deps::remapping::Remapping;
use bytecode_deps::rewrite::{
    remove_bytecode_dependencies, updates_of, ContractData, PreprocessorData, VM_FUNCTIONS,
};
use bytecode_deps::updates::{Update, Updates};

const VM_ADDRESS: &str = "0x7109709ECfa91a80626fF3989D68f67F5b1DD12D";

fn at(text: &str, part: &str) -> Span {
    let start = text.find(part).unwrap();
    Span { start, end: start + part.len() }
}

fn contract_type(span: Span, id: usize) -> Type {
    Type { span, kind: TypeKind::Custom(ItemId::Contract(id)) }
}

/// The creation `new ty(args)` of contract `id`, where it first stands in `text`.
fn creation(text: &str, id: usize, ty: &str, args: (&str, usize), below: Vec<Node>) -> Expr {
    let span = at(text, &format!("new {ty}{}", args.0));
    let callee = Span { start: span.start, end: span.start + "new ".len() + ty.len() };
    let mut children =
        vec![Node::Expr(Expr { span: callee, kind: ExprKind::Other, children: vec![] })];
    children.extend(below);
    Expr {
        span,
        kind: ExprKind::Call(Call {
            callee: Operand {
                span: callee,
                kind: OperandKind::New(contract_type(
                    Span { start: callee.start + "new ".len(), end: callee.end },
                    id,
                )),
            },
            args: CallArgs { span: Span { start: callee.end, end: span.end }, len: args.1 },
            options: None,
        }),
        children,
    }
}

fn creation_code(text: &str, id: usize, ty: &str) -> Node {
    let object = at(text, &format!("type({ty})"));
    Node::Expr(Expr {
        span: at(text, &format!("type({ty}).creationCode")),
        kind: ExprKind::Member {
            object: Operand {
                span: object,
                kind: OperandKind::TypeCall(contract_type(
                    Span { start: object.start + "type(".len(), end: object.end - 1 },
                    id,
                )),
            },
            name: "creationCode".to_string(),
        },
        children: vec![],
    })
}

/// A project in the making.
struct Builder {
    hir: Hir,
    paths: Vec<String>,
    scripts: PathSet,
    units: PathSet,
    project: ProjectPaths,
}

impl Builder {
    fn new() -> Self {
        Self {
            hir: Hir { sources: vec![], contracts: vec![], functions: vec![] },
            paths: vec![],
            scripts: PathSet::new(),
            units: PathSet::new(),
            project: ProjectPaths {
                root: "/root".to_string(),
                sources: "/root/src".to_string(),
                canonical_sources: None,
                tests: "/root/test".to_string(),
                scripts: "/root/script".to_string(),
                remappings: vec![],
            },
        }
    }

    /// A file. One below `test` or `script` is looked at, any other is compiled as a source.
    fn file(&mut self, path: &str, text: &str) -> usize {
        if path.starts_with("test/") || path.starts_with("script/") {
            self.paths.push(path.to_string());
            if path.starts_with("script/") {
                self.scripts.insert(path.to_string());
            }
        } else {
            self.units.insert(path.to_string());
        }
        self.hir.sources.push(Source {
            file: Some(path.to_string()),
            canonical_file: None,
            text: text.to_string(),
            imports: vec![],
            functions: vec![],
        });
        self.hir.sources.len() - 1
    }

    fn function(&mut self, end: usize, parameters: Vec<TypeKind>, nodes: Vec<Node>) -> usize {
        self.hir.functions.push(Function {
            span: Span { start: 0, end },
            kind: FunctionKind::Function,
            state_mutability: StateMutability::NonPayable,
            parameters,
            nodes,
        });
        self.hir.functions.len() - 1
    }

    fn contract(&mut self, source: usize, name: &str, bases: &[usize], items: Vec<Item>) -> usize {
        let id = self.hir.contracts.len();
        let mut linearized_bases = vec![id];
        linearized_bases.extend(bases);
        self.hir.contracts.push(Contract {
            source,
            name: name.to_string(),
            is_abstract: false,
            has_layout: false,
            linearized_bases,
            ctor: None,
            items,
        });
        id
    }

    /// A contract with a constructor that takes a number.
    fn counter(&mut self, source: usize, name: &str) -> usize {
        let ctor = self.function(0, vec![TypeKind::Elementary], vec![]);
        let id = self.contract(source, name, &[], vec![]);
        self.hir.contracts[id].ctor = Some(ctor);
        id
    }

    fn run(&self, mocks: &mut PathSet) -> PreprocessorDependencies {
        assert!(self.hir.is_well_formed());
        PreprocessorDependencies::new(
            &self.hir,
            &self.paths,
            &self.scripts,
            &self.project,
            &self.units,
            mocks,
        )
    }

    fn mocks(&self) -> Vec<String> {
        let mut mocks = PathSet::new();
        self.run(&mut mocks);
        sorted(&mocks)
    }
}

fn sorted(set: &PathSet) -> Vec<String> {
    let mut paths = set.paths().clone();
    paths.sort();
    paths
}

fn set_of(list: &[&str]) -> PathSet {
    let mut set = PathSet::new();
    for path in list {
        set.insert(path.to_string());
    }
    set
}

fn targets(deps: &PreprocessorDependencies, id: usize) -> Vec<usize> {
    deps.preprocessed_contracts
        .get(&id)
        .map(|list| list.iter().map(|d| d.referenced_contract).collect())
        .unwrap_or_default()
}

fn nodes(list: Vec<Expr>) -> Vec<Item> {
    vec![Item::Nodes(list.into_iter().map(Node::Expr).collect())]
}

#[test]
fn references_of_a_test_are_found() {
    let mut b = Builder::new();
    let src = b.file("src/All.sol", "");
    let plain = b.contract(src, "Plain", &[], vec![]);
    let counter = b.counter(src, "Counter");
    let text = "new Plain() new Counter(1) type(Counter).creationCode";
    let file = b.file("test/A.t.sol", text);
    let code = creation_code(text, counter, "Counter");
    let mut items = nodes(vec![
        creation(text, plain, "Plain", ("()", 0), vec![]),
        creation(text, counter, "Counter", ("(1)", 1), vec![]),
    ]);
    items.push(Item::Nodes(vec![code]));
    let test = b.contract(file, "ATest", &[], items);
    b.contract(file, "Empty", &[], vec![]);
    let mut mocks = PathSet::new();
    let deps = b.run(&mut mocks);
    assert_eq!(deps.preprocessed_contracts.len(), 1);
    assert_eq!(targets(&deps, test), vec![plain, counter, counter]);
    assert_eq!(deps.referenced_contracts.len(), 2);
    assert!(deps.referenced_contracts.contains(&plain));
    assert!(deps.referenced_contracts.contains(&counter));
    assert_eq!(deps.constructor_helpers.len(), 1);
    assert!(deps.constructor_helpers.contains(&counter));
    assert!(mocks.paths().is_empty());
}

#[test]
fn creation_code_alone_needs_no_helper() {
    let mut b = Builder::new();
    let src = b.file("src/All.sol", "");
    let counter = b.counter(src, "Counter");
    let text = "type(Counter).creationCode";
    let file = b.file("test/A.t.sol", text);
    b.contract(file, "ATest", &[], vec![Item::Nodes(vec![creation_code(text, counter, "Counter")])]);
    let deps = b.run(&mut PathSet::new());
    assert!(deps.referenced_contracts.contains(&counter));
    assert!(deps.constructor_helpers.is_empty());
}

#[test]
fn references_to_tests_are_ignored() {
    let mut b = Builder::new();
    let text = "new Mock()";
    let file = b.file("test/A.t.sol", text);
    let mock = b.contract(file, "Mock", &[], vec![]);
    let test = b.contract(file, "ATest", &[], nodes(vec![creation(text, mock, "Mock", ("()", 0), vec![])]));
    let mut mocks = PathSet::new();
    let deps = b.run(&mut mocks);
    assert_eq!(targets(&deps, test), Vec::<usize>::new());
    assert!(mocks.paths().is_empty());
}

#[test]
fn references_in_sources_are_not_looked_at() {
    let mut b = Builder::new();
    let text = "new Plain()";
    let src = b.file("src/All.sol", text);
    let plain = b.contract(src, "Plain", &[], vec![]);
    b.contract(src, "Factory", &[], nodes(vec![creation(text, plain, "Plain", ("()", 0), vec![])]));
    let deps = b.run(&mut PathSet::new());
    assert!(deps.preprocessed_contracts.is_empty());
}

#[test]
fn scripts_are_left_alone() {
    let mut b = Builder::new();
    let src = b.file("src/All.sol", "");
    let plain = b.contract(src, "Plain", &[], vec![]);
    let text = "new Plain()";
    let in_dir = b.file("script/A.s.sol", text);
    b.contract(in_dir, "Deploy", &[], nodes(vec![creation(text, plain, "Plain", ("()", 0), vec![])]));
    let base = b.file("lib/forge-std/Script.sol", "");
    let script = b.contract(base, "Script", &[], vec![]);
    b.hir.contracts[script].is_abstract = true;
    let elsewhere = b.file("test/B.t.sol", text);
    b.contract(elsewhere, "Other", &[script], nodes(vec![creation(text, plain, "Plain", ("()", 0), vec![])]));
    let mut mocks = PathSet::new();
    let deps = b.run(&mut mocks);
    assert!(deps.preprocessed_contracts.is_empty());
    assert_eq!(sorted(&mocks), vec!["/root/script/A.s.sol", "/root/test/B.t.sol"]);
}

#[test]
fn a_script_itself_is_no_base() {
    let mut b = Builder::new();
    let src = b.file("src/All.sol", "");
    let plain = b.contract(src, "Plain", &[], vec![]);
    let text = "new Plain()";
    let file = b.file("test/A.t.sol", text);
    let script =
        b.contract(file, "Script", &[], nodes(vec![creation(text, plain, "Plain", ("()", 0), vec![])]));
    let heir = b.contract(file, "Heir", &[script], vec![]);
    assert!(!inherits_from_script(&b.hir, script));
    assert!(inherits_from_script(&b.hir, heir));
    assert_eq!(targets(&b.run(&mut PathSet::new()), script), vec![plain]);
}

#[test]
fn inherited_implementations_are_native() {
    let bases = [
        // path, abstract, native
        ("lib/Base.sol", false, true),
        ("lib/Base.sol", true, false),
        ("src/Base.sol", true, true),
        ("src/Base.sol", false, true),
        ("test/Base.sol", false, false),
    ];
    for (path, is_abstract, native) in bases {
        let mut b = Builder::new();
        let base_file = b.file(path, "");
        let base = b.contract(base_file, "Base", &[], vec![]);
        b.hir.contracts[base].is_abstract = is_abstract;
        let file = b.file("test/A.t.sol", "");
        b.contract(file, "ATest", &[base], vec![]);
        let expected: Vec<String> =
            if native { vec!["/root/test/A.t.sol".to_string()] } else { vec![] };
        assert_eq!(b.mocks(), expected, "{path} {is_abstract}");
    }
}

#[test]
fn an_abstract_base_is_found_behind_a_link() {
    let mut b = Builder::new();
    let base_file = b.file("link/Base.sol", "");
    let base = b.contract(base_file, "Base", &[], vec![]);
    b.hir.contracts[base].is_abstract = true;
    let file = b.file("test/A.t.sol", "");
    b.contract(file, "ATest", &[base], vec![]);
    assert_eq!(b.mocks(), Vec::<String>::new());
    b.hir.sources[base_file].canonical_file = Some("/disk/src/Base.sol".to_string());
    b.project.canonical_sources = Some("/disk/src".to_string());
    assert_eq!(b.mocks(), vec!["/root/test/A.t.sol"]);
}

#[test]
fn a_native_reference_does_not_disable_the_others() {
    let mut b = Builder::new();
    let src = b.file("src/All.sol", "");
    let plain = b.contract(src, "Plain", &[], vec![]);
    let remapped_file = b.file("remapped/Far.sol", "");
    let far = b.contract(remapped_file, "Far", &[], vec![]);
    b.project.remappings.push(Remapping {
        context: None,
        name: "remapped/".to_string(),
        path: "lib/remapped/".to_string(),
    });
    let text = "new Far() new Plain()";
    let file = b.file("test/A.t.sol", text);
    let test = b.contract(
        file,
        "ATest",
        &[],
        nodes(vec![
            creation(text, far, "Far", ("()", 0), vec![]),
            creation(text, plain, "Plain", ("()", 0), vec![]),
        ]),
    );
    let mut mocks = PathSet::new();
    let deps = b.run(&mut mocks);
    assert_eq!(targets(&deps, test), vec![plain]);
    assert!(!deps.referenced_contracts.contains(&far));
    assert_eq!(sorted(&mocks), vec!["/root/test/A.t.sol"]);
}

#[test]
fn a_source_that_is_not_compiled_under_its_path_stays_native() {
    let mut b = Builder::new();
    let src = b.file("src/All.sol", "");
    let plain = b.contract(src, "Plain", &[], vec![]);
    b.units = set_of(&["src/Other.sol"]);
    let text = "new Plain()";
    let file = b.file("test/A.t.sol", text);
    b.contract(file, "ATest", &[], nodes(vec![creation(text, plain, "Plain", ("()", 0), vec![])]));
    let mut mocks = PathSet::new();
    let deps = b.run(&mut mocks);
    assert!(deps.preprocessed_contracts.is_empty());
    assert_eq!(sorted(&mocks), vec!["/root/test/A.t.sol"]);
}

/// `test/A` imports `test/B`, which imports `lib/Free`, whose function creates `Plain`.
fn free_function_project() -> Builder {
    let mut b = Builder::new();
    let src = b.file("src/All.sol", "");
    let plain = b.contract(src, "Plain", &[], vec![]);
    let text = "function make() { new Plain(); }";
    let free = b.file("lib/Free.sol", text);
    let make = b.function(0, vec![], vec![Node::Expr(creation(text, plain, "Plain", ("()", 0), vec![]))]);
    b.hir.sources[free].functions.push(make);
    let tests: Vec<usize> =
        ["test/A.t.sol", "test/B.t.sol", "test/C.t.sol"].iter().map(|path| b.file(path, "")).collect();
    b.hir.sources[tests[0]].imports.push(tests[1]);
    b.hir.sources[tests[1]].imports.push(free);
    b.hir.sources[tests[2]].imports.push(src);
    b
}

#[test]
fn native_functions_reach_every_importer() {
    let b = free_function_project();
    assert_eq!(b.mocks(), vec!["/root/test/A.t.sol", "/root/test/B.t.sol"]);
}

#[test]
fn nothing_in_a_free_function_is_replaced() {
    assert!(free_function_project().run(&mut PathSet::new()).preprocessed_contracts.is_empty());
}

#[test]
fn marks_spread_against_the_imports() {
    let mut b = Builder::new();
    for _ in 0..5 {
        b.file("x", "");
    }
    // 0 -> 1 -> 2 -> 1, 3 -> 0, 4 alone.
    b.hir.sources[0].imports = vec![1];
    b.hir.sources[1].imports = vec![2];
    b.hir.sources[2].imports = vec![1];
    b.hir.sources[3].imports = vec![0];
    let only = |i: usize| (0..5).map(|k| k == i).collect::<Vec<bool>>();
    assert_eq!(propagate(&b.hir, only(2)), vec![true, true, true, true, false]);
    assert_eq!(propagate(&b.hir, only(0)), vec![true, false, false, true, false]);
    assert_eq!(propagate(&b.hir, only(4)), only(4));
    assert_eq!(propagate(&b.hir, vec![false; 5]), vec![false; 5]);
}

#[test]
fn only_examined_files_are_classified() {
    let b = free_function_project();
    let mut mocks = set_of(&["/root/test/C.t.sol", "/root/test/Other.t.sol"]);
    b.run(&mut mocks);
    // `C` holds no contract, so nothing was looked at in it.
    assert_eq!(
        sorted(&mocks),
        vec!["/root/test/A.t.sol", "/root/test/B.t.sol", "/root/test/C.t.sol", "/root/test/Other.t.sol"]
    );
}

#[test]
fn stale_classifications_are_cleared() {
    let mut b = Builder::new();
    let file = b.file("test/A.t.sol", "");
    b.contract(file, "ATest", &[], vec![]);
    let mut mocks = set_of(&["/root/test/A.t.sol", "/root/test/B.t.sol"]);
    b.run(&mut mocks);
    assert_eq!(sorted(&mocks), vec!["/root/test/B.t.sol"]);
}

#[test]
fn running_a_job_again_changes_nothing() {
    let b = free_function_project();
    let mut mocks = set_of(&["/root/test/Other.t.sol"]);
    b.run(&mut mocks);
    let once = sorted(&mocks);
    b.run(&mut mocks);
    assert_eq!(sorted(&mocks), once);
}

#[test]
fn bases_are_the_others() {
    let mut b = Builder::new();
    let file = b.file("test/A.t.sol", "");
    let base = b.contract(file, "Base", &[], vec![]);
    let heir = b.contract(file, "Heir", &[base], vec![]);
    assert!(inherits_from_marked(&b.hir, heir, &vec![true, false]));
    assert!(!inherits_from_marked(&b.hir, heir, &vec![false, true]));
    assert!(!inherits_from_marked(&b.hir, base, &vec![true, true]));
}

#[test]
fn marked_dependencies_are_retained() {
    let dependency = |id: usize| BytecodeDependency {
        kind: BytecodeDependencyKind::CreationCode,
        loc: Span { start: id, end: id + 1 },
        referenced_contract: id,
    };
    let (kept, dropped) =
        retain_marked(vec![dependency(0), dependency(1), dependency(2)], &vec![true, false, true]);
    assert_eq!(kept.iter().map(|d| d.referenced_contract).collect::<Vec<_>>(), vec![0, 2]);
    assert!(dropped);
    let (kept, dropped) = retain_marked(vec![dependency(4)], &vec![true]);
    assert_eq!(kept.len(), 1);
    assert!(!dropped);
}

fn data(list: &[(usize, &str, bool)]) -> PreprocessorData {
    let mut data = PreprocessorData::new();
    for (id, artifact, has_constructor_data) in list {
        data.insert(
            *id,
            ContractData {
                artifact: artifact.to_string(),
                has_constructor_data: *has_constructor_data,
            },
        );
    }
    data
}

fn updates_in<'a>(updates: &'a Updates, path: &str) -> &'a Vec<Update> {
    updates.files().iter().find(|file| file.path == path).unwrap().updates.updates()
}

fn update(span: Span, text: &str) -> Update {
    Update { start: span.start, end: span.end, text: text.to_string() }
}

fn assert_apart(list: &[Update]) {
    for (i, a) in list.iter().enumerate() {
        for b in &list[i + 1..] {
            assert!(a.end <= b.start || b.end <= a.start);
        }
    }
}

fn trailer(imports: &str, id: usize) -> String {
    format!("\n{imports}\n\ninterface VmContractHelper{id} {{\n{VM_FUNCTIONS}}}")
}

/// A test in `test/A.t.sol` with `text`, whose references `items` makes of the contracts `Plain` and
/// `Counter`, and the updates to it.
fn rewrite(text: &str, items: &dyn Fn(&mut Builder, usize, usize) -> Vec<Item>) -> (Builder, Vec<Update>) {
    let mut b = Builder::new();
    let src = b.file("src/All.sol", "");
    let plain = b.contract(src, "Plain", &[], vec![]);
    let counter = b.counter(src, "Counter");
    let file = b.file("test/A.t.sol", text);
    let items = items(&mut b, plain, counter);
    b.contract(file, "ATest", &[], items);
    let deps = b.run(&mut PathSet::new());
    let data = data(&[(plain, "src/All.sol:Plain", false), (counter, "src/All.sol:Counter", true)]);
    let updates = remove_bytecode_dependencies(&b.hir, &deps, &data);
    assert_eq!(updates.files().len(), 1);
    let list = updates_in(&updates, "test/A.t.sol");
    assert_apart(list);
    let list = list.iter().map(|u| update(Span { start: u.start, end: u.end }, &u.text)).collect();
    (b, list)
}

#[test]
fn the_cheatcodes_are_declared() {
    let lines: Vec<&str> = VM_FUNCTIONS.lines().collect();
    assert_eq!(lines.len(), 9);
    assert_eq!(lines[0], "    function deployCode(string memory _artifact) external returns (address);");
    assert_eq!(
        lines[7],
        "    function deployCode(string memory _artifact, bytes memory _args, uint256 _value, bytes32 _salt) external returns (address);"
    );
    assert_eq!(
        lines[8],
        "    function getCode(string memory _artifact) external view returns (bytes memory);"
    );
}

#[test]
fn creation_code_is_read_by_a_cheatcode() {
    let text = "bytes b = type(Plain).creationCode;";
    let (_, updates) =
        rewrite(text, &|_, plain, _| vec![Item::Nodes(vec![creation_code(text, plain, "Plain")])]);
    let end = Span { start: text.len(), end: text.len() };
    assert_eq!(
        updates,
        vec![
            update(
                at(text, "type(Plain).creationCode"),
                &format!("VmContractHelper2({VM_ADDRESS}).getCode(\"src/All.sol:Plain\")")
            ),
            update(end, &trailer("", 2)),
        ]
    );
}

#[test]
fn a_creation_without_helper_is_replaced_whole() {
    let text = "Plain p = new Plain();";
    let (_, updates) = rewrite(text, &|_, plain, _| {
        nodes(vec![creation(text, plain, "Plain", ("()", 0), vec![])])
    });
    assert_eq!(
        updates[0],
        update(
            at(text, "new Plain()"),
            &format!(
                "Plain(payable(VmContractHelper2({VM_ADDRESS}).deployCode({{_artifact: \"src/All.sol:Plain\"}})))"
            )
        )
    );
    assert_eq!(updates.len(), 2);
}

#[test]
fn a_creation_with_helper_is_replaced_around_its_arguments() {
    let text = "Counter c = new Counter(1);";
    let (_, updates) = rewrite(text, &|_, _, counter| {
        nodes(vec![creation(text, counter, "Counter", ("(1)", 1), vec![])])
    });
    let end = at(text, "new Counter(1)").end;
    assert_eq!(
        updates,
        vec![
            update(
                at(text, "new Counter"),
                &format!(
                    "Counter(payable(VmContractHelper2({VM_ADDRESS}).deployCode({{_artifact: \"src/All.sol:Counter\", _args: encodeArgs1(DeployHelper1.FoundryPpConstructorArgs"
                )
            ),
            update(Span { start: end, end }, ")})))"),
            update(
                Span { start: text.len(), end: text.len() },
                &trailer(
                    "import {DeployHelper1, encodeArgs1} from \"foundry-pp/DeployHelper1.sol\";",
                    2
                )
            ),
        ]
    );
}

#[test]
fn nested_creations_do_not_overlap() {
    let text = "new Counter(f(new Plain(), 1))";
    let (_, updates) = rewrite(text, &|_, plain, counter| {
        let inner = creation(text, plain, "Plain", ("()", 0), vec![]);
        nodes(vec![creation(text, counter, "Counter", ("(f(new Plain(), 1))", 1), vec![Node::Expr(inner)])])
    });
    let spans: Vec<(usize, usize)> = updates.iter().map(|u| (u.start, u.end)).collect();
    let inner = at(text, "new Plain()");
    assert_eq!(
        spans,
        vec![(0, "new Counter".len()), (inner.start, inner.end), (30, 30), (30, 30)]
    );
}

#[test]
fn options_become_arguments() {
    let text = "new Plain{value: 1, salt: s}()";
    let (_, updates) = rewrite(text, &|_, plain, _| {
        let mut expr = creation("new Plain()", plain, "Plain", ("()", 0), vec![]);
        expr.span = at(text, text);
        if let ExprKind::Call(call) = &mut expr.kind {
            call.args.span = at(text, "()");
            call.options = Some(CallOptions {
                span: at(text, "{value: 1, salt: s}"),
                args: vec![
                    NamedArg { name: "value".to_string(), value: at(text, "1") },
                    NamedArg { name: "salt".to_string(), value: at(text, "s}").with_end(27) },
                ],
            });
        }
        nodes(vec![expr])
    });
    assert_eq!(
        updates[0],
        update(
            at(text, text),
            &format!(
                "Plain(payable(VmContractHelper2({VM_ADDRESS}).deployCode({{_artifact: \"src/All.sol:Plain\", _value: 1, _salt: s}})))"
            )
        )
    );
}

fn try_creation(text: &str, counter: usize, returned: bool) -> Vec<Node> {
    let args = if returned {
        vec![Variable { ty: TypeKind::Custom(ItemId::Contract(counter)), children: vec![] }]
    } else {
        vec![]
    };
    vec![Node::Stmt(Stmt::Try(TryStmt {
        expr: creation(text, counter, "Counter", ("(1)", 1), vec![]),
        clauses: vec![TryClause { args, body: vec![] }],
    }))]
}

#[test]
fn a_try_with_a_contract_casts_by_a_function() {
    let text = "contract T { function f() { try new Counter(1) returns (Counter c) {} catch {} } }";
    let body = "contract T { function f() { try new Counter(1) returns (Counter c) {} catch {} }";
    let (_, updates) = rewrite(text, &|b, _, counter| {
        let f = b.function(body.len(), vec![], try_creation(text, counter, true));
        vec![Item::Function(f), Item::Nodes(vec![])]
    });
    let close = at(text, "new Counter(1)").end;
    assert_eq!(
        updates[0].text,
        format!(
            "this.addressToCounter2(VmContractHelper2({VM_ADDRESS}).deployCode({{_artifact: \"src/All.sol:Counter\", _args: encodeArgs1(DeployHelper1.FoundryPpConstructorArgs"
        )
    );
    assert_eq!(updates[1], update(Span { start: close, end: close }, ")}))"));
    let cast = "
                            function addressToCounter2(address addr) public pure returns (Counter) {
                                return Counter(addr);
                            }
                        ";
    assert_eq!(updates[2], update(Span { start: body.len(), end: body.len() }, cast));
    assert_eq!(updates.len(), 4);
}

#[test]
fn a_try_without_a_contract_casts_nothing() {
    let text = "try new Counter(1) {} catch {}";
    let (_, updates) =
        rewrite(text, &|_, _, counter| vec![Item::Nodes(try_creation(text, counter, false))]);
    assert_eq!(
        updates[0].text,
        format!(
            "VmContractHelper2({VM_ADDRESS}).deployCode({{_artifact: \"src/All.sol:Counter\", _args: encodeArgs1(DeployHelper1.FoundryPpConstructorArgs"
        )
    );
    assert_eq!(updates[1].text, ")})");
    assert_eq!(updates.len(), 3);
}

#[test]
fn a_cast_is_declared_once() {
    let text = "try new Counter(1) returns (Counter c) {} catch {}";
    let (_, updates) = rewrite(text, &|b, _, counter| {
        let f = b.function(text.len(), vec![], try_creation(text, counter, true));
        let g = b.function(text.len(), vec![], try_creation(text, counter, true));
        vec![Item::Function(f), Item::Function(g)]
    });
    let casts: usize = updates.iter().map(|u| u.text.matches("function addressToCounter2").count()).sum();
    assert_eq!(casts, 1);
}

#[test]
fn casts_to_different_types_have_different_names() {
    let text = "try new Counter(1) returns (Counter c) {} catch {} try new Plain() returns (Plain p) {} catch {}";
    let (_, updates) = rewrite(text, &|b, plain, counter| {
        let mut statements = try_creation(text, counter, true);
        statements.push(Node::Stmt(Stmt::Try(TryStmt {
            expr: creation(text, plain, "Plain", ("()", 0), vec![]),
            clauses: vec![TryClause {
                args: vec![Variable {
                    ty: TypeKind::Custom(ItemId::Contract(plain)),
                    children: vec![],
                }],
                body: vec![],
            }],
        })));
        let f = b.function(text.len(), vec![], statements);
        vec![Item::Function(f)]
    });
    let casts = updates.iter().find(|u| u.text.contains("public pure")).unwrap();
    let names: Vec<&str> = casts
        .text
        .lines()
        .filter_map(|line| line.trim().strip_prefix("function "))
        .map(|line| &line[..line.find('(').unwrap()])
        .collect();
    assert_eq!(names, vec!["addressToCounter2", "addressToPlain2"]);
}

#[test]
fn helpers_are_imported_in_order() {
    let mut b = Builder::new();
    let src = b.file("src/All.sol", "");
    let one = b.counter(src, "One");
    let two = b.counter(src, "Two");
    let text = "new Two(1) new One(1);";
    let file = b.file("test/A.t.sol", text);
    let test = b.contract(
        file,
        "ATest",
        &[],
        nodes(vec![
            creation(text, two, "Two", ("(1)", 1), vec![]),
            creation(text, one, "One", ("(1)", 1), vec![]),
        ]),
    );
    let deps = b.run(&mut PathSet::new());
    let data = data(&[(one, "One", true), (two, "Two", true)]);
    let updates = updates_of(&b.hir, &data, test, &deps.preprocessed_contracts[&test]);
    let imports = "import {DeployHelper0, encodeArgs0} from \"foundry-pp/DeployHelper0.sol\";
import {DeployHelper1, encodeArgs1} from \"foundry-pp/DeployHelper1.sol\";";
    assert_eq!(updates.updates().last().unwrap().text, trailer(imports, test));
}

#[test]
fn unknown_contracts_are_left_alone() {
    let mut b = Builder::new();
    let src = b.file("src/All.sol", "");
    let plain = b.contract(src, "Plain", &[], vec![]);
    let text = "new Plain()";
    let file = b.file("test/A.t.sol", text);
    b.contract(file, "ATest", &[], nodes(vec![creation(text, plain, "Plain", ("()", 0), vec![])]));
    let deps = b.run(&mut PathSet::new());
    let updates = remove_bytecode_dependencies(&b.hir, &deps, &PreprocessorData::new());
    let end = Span { start: text.len(), end: text.len() };
    assert_eq!(*updates_in(&updates, "test/A.t.sol"), vec![update(end, &trailer("", 1))]);
}

#[test]
fn references_in_order_are_replaced_together() {
    let mut b = Builder::new();
    let src = b.file("src/All.sol", "");
    let plain = b.contract(src, "Plain", &[], vec![]);
    let counter = b.counter(src, "Counter");
    let file = b.file("test/A.t.sol", &" ".repeat(60));
    let one = b.contract(file, "One", &[], vec![]);
    let two = b.contract(file, "Two", &[], vec![]);
    let code = |id: usize, start: usize, end: usize| BytecodeDependency {
        kind: BytecodeDependencyKind::CreationCode,
        loc: Span { start, end },
        referenced_contract: id,
    };
    // `outer` is 0..40, with its arguments from 14 on.
    let outer = BytecodeDependency {
        kind: BytecodeDependencyKind::New {
            name: "Counter".to_string(),
            args_length: 30,
            call_args_offset: 4,
            value: None,
            salt: None,
            try_stmt: None,
        },
        loc: Span { start: 0, end: 10 },
        referenced_contract: counter,
    };
    let mut deps = b.run(&mut PathSet::new());
    assert!(deps.preprocessed_contracts.is_empty());
    deps.preprocessed_contracts.insert(one, vec![code(plain, 14, 20), outer, code(plain, 20, 40)]);
    deps.preprocessed_contracts.insert(two, vec![code(counter, 40, 50)]);
    let data = data(&[(plain, "Plain", false), (counter, "Counter", true)]);
    let updates = remove_bytecode_dependencies(&b.hir, &deps, &data);
    let list = updates_in(&updates, "test/A.t.sol");
    assert_apart(list);
    let wide: Vec<(usize, usize)> =
        list.iter().filter(|u| u.start < u.end).map(|u| (u.start, u.end)).collect();
    assert_eq!(wide, vec![(0, 14), (14, 20), (20, 40), (40, 50)]);
}

#[test]
fn contracts_of_a_file_share_its_updates() {
    let mut b = Builder::new();
    let src = b.file("src/All.sol", "");
    let plain = b.contract(src, "Plain", &[], vec![]);
    let text = "new Plain() type(Plain).creationCode";
    let file = b.file("test/A.t.sol", text);
    b.contract(file, "One", &[], nodes(vec![creation(text, plain, "Plain", ("()", 0), vec![])]));
    b.contract(file, "Two", &[], vec![Item::Nodes(vec![creation_code(text, plain, "Plain")])]);
    let other = b.file("test/B.t.sol", "");
    b.contract(other, "Three", &[], vec![]);
    let deps = b.run(&mut PathSet::new());
    let updates =
        remove_bytecode_dependencies(&b.hir, &deps, &data(&[(plain, "Plain", false)]));
    assert_eq!(updates.files().len(), 1);
    let list = updates_in(&updates, "test/A.t.sol");
    assert_eq!(list.len(), 4);
    assert_apart(list);
    assert!(list[0].text.contains("VmContractHelper1("));
    assert!(list[1].text.contains("VmContractHelper2("));
    assert_eq!(list[2].text, trailer("", 1));
    assert_eq!(list[3].text, trailer("", 2));
}
