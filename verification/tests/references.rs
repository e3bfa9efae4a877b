//! What becomes of the references in a contract.
use bytecode_deps::collector::BytecodeDependencyCollector;
use bytecode_deps::dependency::{
    constructor_type_is_identity_independent, handle_call_expr, named_arg, BytecodeDependency,
    BytecodeDependencyKind,
};
use bytecode_deps::hir::{
    Call, CallArgs, CallOptions, Contract, Expr, ExprKind, Function, FunctionKind, Hir, Item, ItemId,
    NamedArg, Node, Operand, OperandKind, Source, Span, StateMutability, Stmt, TryClause, TryStmt, Type,
    TypeKind, Variable,
};

/// Where `part` stands in `text`, from `from` on.
fn at(text: &str, from: usize, part: &str) -> Span {
    let start = from + text[from..].find(part).unwrap();
    Span { start, end: start + part.len() }
}

fn contract_type(span: Span, id: usize) -> Type {
    Type { span, kind: TypeKind::Custom(ItemId::Contract(id)) }
}

fn bare(span: Span) -> Node {
    Node::Expr(Expr { span, kind: ExprKind::Other, children: vec![] })
}

/// The creation `whole` of contract `id`, which names the type `ty`. `options` and `args` are the
/// texts of the two lists, the second with its number of arguments.
fn creation(
    text: &str,
    whole: &str,
    id: usize,
    ty: &str,
    options: Option<(&str, &[(&str, &str)])>,
    args: (&str, usize),
    below: Vec<Node>,
) -> Expr {
    let span = at(text, 0, whole);
    let callee = at(text, span.start, &format!("new {ty}"));
    let ty_span = at(text, callee.start, ty);
    let options = options.map(|(list, named)| {
        let span = at(text, ty_span.end, list);
        CallOptions {
            span,
            args: named
                .iter()
                .map(|(name, value)| NamedArg {
                    name: name.to_string(),
                    value: at(text, at(text, span.start, name).end, value),
                })
                .collect(),
        }
    });
    let behind = options.as_ref().map_or(ty_span.end, |options| options.span.end);
    let mut children = vec![bare(callee)];
    children.extend(below);
    Expr {
        span,
        kind: ExprKind::Call(Call {
            callee: Operand { span: callee, kind: OperandKind::New(contract_type(ty_span, id)) },
            args: CallArgs { span: at(text, behind, args.0), len: args.1 },
            options,
        }),
        children,
    }
}

fn call_of(expr: &Expr) -> &Call {
    match &expr.kind {
        ExprKind::Call(call) => call,
        _ => panic!("not a call"),
    }
}

fn creation_code(text: &str, whole: &str, id: usize) -> Expr {
    let span = at(text, 0, whole);
    let object = Span { start: span.start, end: span.end - ".creationCode".len() };
    let ty = Span { start: object.start + "type(".len(), end: object.end - 1 };
    Expr {
        span,
        kind: ExprKind::Member {
            object: Operand { span: object, kind: OperandKind::TypeCall(contract_type(ty, id)) },
            name: "creationCode".to_string(),
        },
        children: vec![bare(object)],
    }
}

fn function(kind: FunctionKind, state_mutability: StateMutability, parameters: Vec<TypeKind>, nodes: Vec<Node>) -> Function {
    Function { span: Span { start: 0, end: 0 }, kind, state_mutability, parameters, nodes }
}

fn contract(name: &str, ctor: Option<usize>, has_layout: bool, items: Vec<Item>) -> Contract {
    Contract {
        source: 0,
        name: name.to_string(),
        is_abstract: false,
        has_layout,
        linearized_bases: vec![],
        ctor,
        items,
    }
}

/// Contracts by their constructor parameters, declared in one file with `text`: `Plain` without a
/// constructor, `Simple(uint256)`, `Struct(S)`, `Laid(uint256)` with a layout, and `Bare()` with one.
fn hir(text: &str) -> Hir {
    let constructor =
        |parameters: Vec<TypeKind>| function(FunctionKind::Constructor, StateMutability::NonPayable, parameters, vec![]);
    Hir {
        sources: vec![Source {
            file: Some("src/All.sol".to_string()),
            canonical_file: None,
            text: text.to_string(),
            imports: vec![],
            functions: vec![],
        }],
        contracts: vec![
            contract("Plain", None, false, vec![]),
            contract("Simple", Some(0), false, vec![]),
            contract("Struct", Some(1), false, vec![]),
            contract("Laid", Some(0), true, vec![]),
            contract("Bare", Some(2), true, vec![]),
        ],
        functions: vec![
            constructor(vec![TypeKind::Elementary]),
            constructor(vec![TypeKind::Elementary, TypeKind::Custom(ItemId::Other)]),
            constructor(vec![]),
        ],
    }
}

const PLAIN: usize = 0;
const SIMPLE: usize = 1;
const STRUCT: usize = 2;
const LAID: usize = 3;
const BARE: usize = 4;

/// What a part comes to: the contracts referred to by what is replaced, and whether something stays
/// native.
fn met(collector: &BytecodeDependencyCollector<'_>) -> (Vec<usize>, bool) {
    let targets = collector.dependencies.iter().map(|d| d.referenced_contract).collect();
    (targets, collector.has_native_dependency)
}

fn visit(text: &str, expr: &Expr, is_script: bool, force_native: bool) -> (Vec<usize>, bool) {
    let hir = hir(text);
    assert!(hir.is_well_formed());
    let in_sources = vec![true; hir.contracts.len()];
    let mut collector =
        BytecodeDependencyCollector::new(&hir, text, &in_sources, is_script, force_native);
    collector.visit_expr(expr);
    met(&collector)
}

struct New<'a> {
    name: &'a str,
    args_length: usize,
    call_args_offset: usize,
    value: Option<&'a str>,
    salt: Option<&'a str>,
    try_stmt: Option<bool>,
}

fn assert_new(dependency: &BytecodeDependency, loc: Span, id: usize, expected: New<'_>) {
    assert_eq!(dependency.loc, loc);
    assert_eq!(dependency.referenced_contract, id);
    match &dependency.kind {
        BytecodeDependencyKind::New { name, args_length, call_args_offset, value, salt, try_stmt } => {
            assert_eq!(name, expected.name);
            assert_eq!(*args_length, expected.args_length);
            assert_eq!(*call_args_offset, expected.call_args_offset);
            assert_eq!(value.as_deref(), expected.value);
            assert_eq!(salt.as_deref(), expected.salt);
            assert_eq!(*try_stmt, expected.try_stmt);
        }
        BytecodeDependencyKind::CreationCode => panic!("not a creation"),
    }
}

#[test]
fn elementary_types_keep_their_identity() {
    let independent = |ty: TypeKind| constructor_type_is_identity_independent(&ty);
    assert!(independent(TypeKind::Elementary));
    assert!(independent(TypeKind::Array(Box::new(TypeKind::Array(Box::new(TypeKind::Elementary))))));
    assert!(!independent(TypeKind::Array(Box::new(TypeKind::Custom(ItemId::Other)))));
    assert!(!independent(TypeKind::Function));
    assert!(!independent(TypeKind::Mapping));
    assert!(!independent(TypeKind::Custom(ItemId::Contract(0))));
    assert!(!independent(TypeKind::Error));
}

#[test]
fn a_named_option_is_read_from_the_text() {
    let text = "new C{salt: s0, value: 1 ether, value: 2}()";
    let expr = creation(
        text,
        text,
        PLAIN,
        "C",
        Some(("{salt: s0, value: 1 ether, value: 2}", &[("salt", "s0"), ("value", "1 ether")])),
        ("()", 0),
        vec![],
    );
    let options = &call_of(&expr).options;
    assert_eq!(named_arg(text, options, "value").as_deref(), Some("1 ether"));
    assert_eq!(named_arg(text, options, "salt").as_deref(), Some("s0"));
    assert_eq!(named_arg(text, options, "gas"), None);
    assert_eq!(named_arg(text, &None, "value"), None);
}

#[test]
fn a_creation_is_measured() {
    let text = "x = new Counter {value: 333} (address(this));";
    let whole = "new Counter {value: 333} (address(this))";
    let expr = creation(
        text,
        whole,
        SIMPLE,
        "Counter",
        Some(("{value: 333}", &[("value", "333")])),
        ("(address(this))", 1),
        vec![],
    );
    let dependency = handle_call_expr(text, expr.span, call_of(&expr)).unwrap();
    assert_new(
        &dependency,
        at(text, 0, "new Counter"),
        SIMPLE,
        New {
            name: "Counter",
            args_length: " {value: 333} (address(this))".len(),
            call_args_offset: " {value: 333} ".len(),
            value: Some("333"),
            salt: None,
            try_stmt: None,
        },
    );
}

#[test]
fn a_creation_without_arguments_has_no_offset() {
    let text = "new Counter{salt: s}()";
    let expr = creation(
        text,
        text,
        PLAIN,
        "Counter",
        Some(("{salt: s}", &[("salt", "s")])),
        ("()", 0),
        vec![],
    );
    let dependency = handle_call_expr(text, expr.span, call_of(&expr)).unwrap();
    assert_new(
        &dependency,
        at(text, 0, "new Counter"),
        PLAIN,
        New {
            name: "Counter",
            args_length: "{salt: s}()".len(),
            call_args_offset: 0,
            value: None,
            salt: Some("s"),
            try_stmt: None,
        },
    );
}

#[test]
fn parentheses_belong_to_the_creation() {
    let text = "(new Counter)(1)";
    let expr = creation(text, text, SIMPLE, "Counter", None, ("(1)", 1), vec![]);
    let dependency = handle_call_expr(text, expr.span, call_of(&expr)).unwrap();
    assert_new(
        &dependency,
        at(text, 0, "(new Counter"),
        SIMPLE,
        New {
            name: "Counter",
            args_length: ")(1)".len(),
            call_args_offset: ")".len(),
            value: None,
            salt: None,
            try_stmt: None,
        },
    );
}

#[test]
fn other_calls_are_no_creations() {
    let span = Span { start: 0, end: 3 };
    let call = |kind: OperandKind| Call {
        callee: Operand { span, kind },
        args: CallArgs { span, len: 0 },
        options: None,
    };
    assert!(handle_call_expr("f()", span, &call(OperandKind::Other)).is_none());
    let elementary = Type { span, kind: TypeKind::Elementary };
    assert!(handle_call_expr("f()", span, &call(OperandKind::New(elementary))).is_none());
    let structure = Type { span, kind: TypeKind::Custom(ItemId::Other) };
    assert!(handle_call_expr("f()", span, &call(OperandKind::New(structure))).is_none());
    assert!(handle_call_expr("f()", span, &call(OperandKind::TypeCall(contract_type(span, 0)))).is_none());
}

#[test]
fn creations_are_replaced() {
    let text = "new Plain() new Simple(1) new Bare()";
    let plain = creation(text, "new Plain()", PLAIN, "Plain", None, ("()", 0), vec![]);
    let simple = creation(text, "new Simple(1)", SIMPLE, "Simple", None, ("(1)", 1), vec![]);
    let bare = creation(text, "new Bare()", BARE, "Bare", None, ("()", 0), vec![]);
    assert_eq!(visit(text, &plain, false, false), (vec![PLAIN], false));
    assert_eq!(visit(text, &simple, false, false), (vec![SIMPLE], false));
    assert_eq!(visit(text, &bare, false, false), (vec![BARE], false));
}

#[test]
fn creations_that_no_helper_can_make_stay_native() {
    let text = "new Struct(1, s) new Laid(1) type(Struct).creationCode";
    let structure = creation(text, "new Struct(1, s)", STRUCT, "Struct", None, ("(1, s)", 2), vec![]);
    let laid = creation(text, "new Laid(1)", LAID, "Laid", None, ("(1)", 1), vec![]);
    assert_eq!(visit(text, &structure, false, false), (vec![], true));
    assert_eq!(visit(text, &laid, false, false), (vec![], true));
    // Creation code needs no helper.
    let code = creation_code(text, "type(Struct).creationCode", STRUCT);
    assert_eq!(visit(text, &code, false, false), (vec![STRUCT], false));
}

#[test]
fn scripts_and_free_functions_stay_native() {
    let text = "new Plain() type(Plain).creationCode";
    let plain = creation(text, "new Plain()", PLAIN, "Plain", None, ("()", 0), vec![]);
    let code = creation_code(text, "type(Plain).creationCode", PLAIN);
    for expr in [&plain, &code] {
        assert_eq!(visit(text, expr, true, false), (vec![], true));
        assert_eq!(visit(text, expr, false, true), (vec![], true));
    }
}

#[test]
fn contracts_outside_of_the_sources_are_ignored() {
    let text = "new Plain()";
    let hir = hir(text);
    let in_sources = vec![false; hir.contracts.len()];
    for (is_script, force_native) in [(false, false), (true, false), (false, true)] {
        let mut collector =
            BytecodeDependencyCollector::new(&hir, text, &in_sources, is_script, force_native);
        collector.visit_expr(&creation(text, text, PLAIN, "Plain", None, ("()", 0), vec![]));
        assert_eq!(met(&collector), (vec![], false));
    }
}

#[test]
fn other_members_are_no_references() {
    let text = "type(Plain).runtimeCode";
    let mut expr = creation_code("type(Plain).creationCode", "type(Plain).creationCode", PLAIN);
    expr.span = at(text, 0, text);
    if let ExprKind::Member { name, .. } = &mut expr.kind {
        *name = "runtimeCode".to_string();
    }
    assert_eq!(visit(text, &expr, false, false), (vec![], false));
}

#[test]
fn nested_creations_come_first() {
    let text = "new Simple(new Plain())";
    let inner = creation(text, "new Plain()", PLAIN, "Plain", None, ("()", 0), vec![]);
    let outer =
        creation(text, text, SIMPLE, "Simple", None, ("(new Plain())", 1), vec![Node::Expr(inner)]);
    assert_eq!(visit(text, &outer, false, false), (vec![PLAIN, SIMPLE], false));
}

#[test]
fn a_rewritten_option_keeps_the_creation_native() {
    let text = "new Plain{salt: h(type(Simple).creationCode)}()";
    let code = creation_code(text, "type(Simple).creationCode", SIMPLE);
    let outer = creation(
        text,
        text,
        PLAIN,
        "Plain",
        Some(("{salt: h(type(Simple).creationCode)}", &[("salt", "h(type(Simple).creationCode)")])),
        ("()", 0),
        vec![Node::Expr(code)],
    );
    assert_eq!(visit(text, &outer, false, false), (vec![SIMPLE], true));
    // What stays native in the options does not matter.
    assert_eq!(visit(text, &outer, false, true), (vec![], true));
}

#[test]
fn a_native_reference_leaves_the_others_alone() {
    let text = "new Struct(1, s); new Plain(); new Laid(1); new Simple(1)";
    let hir = hir(text);
    let in_sources = vec![true; hir.contracts.len()];
    let nodes = vec![
        Node::Expr(creation(text, "new Struct(1, s)", STRUCT, "Struct", None, ("(1, s)", 2), vec![])),
        Node::Expr(creation(text, "new Plain()", PLAIN, "Plain", None, ("()", 0), vec![])),
        Node::Expr(creation(text, "new Laid(1)", LAID, "Laid", None, ("(1)", 1), vec![])),
        Node::Expr(creation(text, "new Simple(1)", SIMPLE, "Simple", None, ("(1)", 1), vec![])),
    ];
    let mut collector = BytecodeDependencyCollector::new(&hir, text, &in_sources, false, false);
    collector.visit_nodes(&nodes);
    assert_eq!(met(&collector), (vec![PLAIN, SIMPLE], true));
}

#[test]
fn pure_code_keeps_creation_code() {
    let text = "type(Plain).creationCode new Plain()";
    let nodes = || {
        vec![
            Node::Expr(creation_code(text, "type(Plain).creationCode", PLAIN)),
            Node::Expr(creation(text, "new Plain()", PLAIN, "Plain", None, ("()", 0), vec![])),
        ]
    };
    let hir = hir(text);
    let in_sources = vec![true; hir.contracts.len()];
    let met_in = |kind: FunctionKind, mutability: StateMutability| {
        let mut collector = BytecodeDependencyCollector::new(&hir, text, &in_sources, false, false);
        collector.visit_function(&function(kind, mutability, vec![], nodes()));
        assert!(!collector.preserve_native_creation_code);
        met(&collector)
    };
    assert_eq!(met_in(FunctionKind::Function, StateMutability::View), (vec![PLAIN, PLAIN], false));
    assert_eq!(met_in(FunctionKind::Function, StateMutability::Pure), (vec![PLAIN], true));
    assert_eq!(met_in(FunctionKind::Modifier, StateMutability::NonPayable), (vec![PLAIN], true));
}

#[test]
fn a_contract_is_walked_item_by_item() {
    let text = "type(Plain).creationCode new Simple(1)";
    let mut hir = hir(text);
    let code = || vec![Node::Expr(creation_code(text, "type(Plain).creationCode", PLAIN))];
    hir.functions.push(function(FunctionKind::Function, StateMutability::Pure, vec![], code()));
    hir.functions.push(function(FunctionKind::Function, StateMutability::View, vec![], code()));
    let simple = creation(text, "new Simple(1)", SIMPLE, "Simple", None, ("(1)", 1), vec![]);
    let items = vec![Item::Function(3), Item::Nodes(vec![Node::Expr(simple)]), Item::Function(4)];
    hir.contracts.push(contract("Test", None, false, items));
    assert!(hir.is_well_formed());
    let in_sources = vec![true; hir.contracts.len()];
    let mut collector = BytecodeDependencyCollector::new(&hir, text, &in_sources, false, false);
    collector.walk_contract(&hir.contracts[5]);
    assert_eq!(met(&collector), (vec![SIMPLE, PLAIN], true));
}

fn try_statement(text: &str, returned: Vec<TypeKind>, body: Vec<Node>) -> Stmt {
    Stmt::Try(TryStmt {
        expr: creation(text, "new Simple(1)", SIMPLE, "Simple", None, ("(1)", 1), vec![]),
        clauses: vec![
            TryClause {
                args: returned.into_iter().map(|ty| Variable { ty, children: vec![] }).collect(),
                body: vec![],
            },
            TryClause { args: vec![], body },
        ],
    })
}

#[test]
fn a_try_statement_marks_its_creation() {
    let text = "try new Simple(1) returns (Simple c) {} catch { new Plain(); }";
    let hir = hir(text);
    let in_sources = vec![true; hir.contracts.len()];
    let try_of = |returned: Vec<TypeKind>| {
        let plain = creation(text, "new Plain()", PLAIN, "Plain", None, ("()", 0), vec![]);
        let mut collector = BytecodeDependencyCollector::new(&hir, text, &in_sources, false, false);
        collector.visit_stmt(&try_statement(text, returned, vec![Node::Expr(plain)]));
        assert_eq!(met(&collector), (vec![SIMPLE, PLAIN], false));
        let marks: Vec<Option<bool>> = collector
            .dependencies
            .iter()
            .map(|d| match &d.kind {
                BytecodeDependencyKind::New { try_stmt, .. } => *try_stmt,
                BytecodeDependencyKind::CreationCode => None,
            })
            .collect();
        assert_eq!(marks[1], None);
        marks[0]
    };
    let contract = || TypeKind::Custom(ItemId::Contract(SIMPLE));
    assert_eq!(try_of(vec![contract()]), Some(true));
    assert_eq!(try_of(vec![]), Some(false));
    assert_eq!(try_of(vec![TypeKind::Elementary]), Some(false));
    assert_eq!(try_of(vec![contract(), contract()]), Some(false));
}

#[test]
fn a_try_statement_around_another_call_is_walked() {
    let text = "try f(new Plain()) { new Simple(1); } catch {}";
    let plain = creation(text, "new Plain()", PLAIN, "Plain", None, ("()", 0), vec![]);
    let simple = creation(text, "new Simple(1)", SIMPLE, "Simple", None, ("(1)", 1), vec![]);
    let stmt = Stmt::Try(TryStmt {
        expr: Expr {
            span: at(text, 0, "f(new Plain())"),
            kind: ExprKind::Call(Call {
                callee: Operand { span: at(text, 0, "f"), kind: OperandKind::Other },
                args: CallArgs { span: at(text, 0, "(new Plain())"), len: 1 },
                options: None,
            }),
            children: vec![bare(at(text, 0, "f")), Node::Expr(plain)],
        },
        clauses: vec![TryClause { args: vec![], body: vec![Node::Expr(simple)] }],
    });
    let hir = hir(text);
    let in_sources = vec![true; hir.contracts.len()];
    let mut collector = BytecodeDependencyCollector::new(&hir, text, &in_sources, false, false);
    collector.visit_stmt(&Stmt::Other(vec![Node::Stmt(stmt)]));
    assert_eq!(met(&collector), (vec![PLAIN, SIMPLE], false));
}

#[test]
fn spans_that_do_not_fit_are_found() {
    let text = "new Plain()";
    let check = |change: &dyn Fn(&mut Call, &mut Span)| {
        let mut hir = hir(text);
        let mut expr = creation(text, text, PLAIN, "Plain", None, ("()", 0), vec![]);
        let mut span = expr.span;
        if let ExprKind::Call(call) = &mut expr.kind {
            change(call, &mut span);
        }
        expr.span = span;
        hir.contracts.push(contract("T", None, false, vec![Item::Nodes(vec![Node::Expr(expr)])]));
        hir.is_well_formed()
    };
    assert!(check(&|_, _| {}));
    assert!(!check(&|_, span| span.end = 5));
    assert!(!check(&|call, _| call.args = CallArgs { span: Span { start: 0, end: 2 }, len: 1 }));
    assert!(!check(&|call, _| {
        call.callee.kind = OperandKind::New(contract_type(Span { start: 4, end: 99 }, PLAIN))
    }));
    assert!(!check(&|call, _| {
        call.callee.kind = OperandKind::New(contract_type(Span { start: 4, end: 9 }, 77))
    }));
    assert!(!check(&|call, _| call.callee.span.end = usize::MAX));
}

#[test]
fn indices_that_are_not_there_are_found() {
    let text = "";
    let check = |change: &dyn Fn(&mut Hir)| {
        let mut hir = hir(text);
        change(&mut hir);
        hir.is_well_formed()
    };
    assert!(check(&|_| {}));
    assert!(!check(&|hir| hir.contracts[0].source = 1));
    assert!(!check(&|hir| hir.contracts[0].ctor = Some(3)));
    assert!(!check(&|hir| hir.contracts[0].linearized_bases = vec![0, 5]));
    assert!(!check(&|hir| hir.contracts[0].items = vec![Item::Function(3)]));
    assert!(!check(&|hir| hir.sources[0].imports = vec![1]));
    assert!(!check(&|hir| hir.sources[0].functions = vec![0, 3]));
}
