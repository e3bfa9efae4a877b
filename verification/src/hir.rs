//! The resolved syntax of a set of source files, as far as bytecode references depend on it.
//!
//! Expressions and statements hold what is below them as a list of nodes, in the order in which a
//! walk over the syntax meets them. Types, variables and modifiers are not nodes of their own: the
//! expressions in them stand in the list of the node around them.
use crate::text;
use vstd::prelude::*;

verus! {

/// The index of a source file in [`Hir::sources`].
pub type SourceId = usize;

/// The index of a contract in [`Hir::contracts`].
pub type ContractId = usize;

/// The index of a function in [`Hir::functions`].
pub type FunctionId = usize;

/// A range of bytes in a source file.
#[derive(Clone, Copy, Debug, PartialEq, Eq, Structural)]
pub struct Span {
    pub start: usize,
    pub end: usize,
}

impl Span {
    /// The range between the start of this one and `end`.
    pub open spec fn up_to(self, end: usize) -> Span {
        if self.start <= end {
            Span { start: self.start, end }
        } else {
            Span { start: end, end: self.start }
        }
    }

    /// Whether the two ranges have a byte in common, both being taken as not empty.
    pub open spec fn meets(self, other: Span) -> bool {
        self.start < other.end && other.start < self.end
    }

    /// The range between the start of this one and `end`.
    pub fn with_end(self, end: usize) -> (span: Span)
        ensures
            span == self.up_to(end),
    {
        if self.start <= end {
            Span { start: self.start, end }
        } else {
            Span { start: end, end: self.start }
        }
    }

    /// Whether the two ranges have a byte in common, both being taken as not empty.
    pub fn overlaps(self, other: Span) -> (overlap: bool)
        ensures
            overlap == self.meets(other),
    {
        self.start < other.end && other.start < self.end
    }
}

/// What a name stands for.
#[derive(Debug)]
pub enum ItemId {
    Contract(ContractId),
    /// A struct, an enum, or another item that is not a contract.
    Other,
}

impl ItemId {
    /// The contract that the name stands for, if any.
    pub open spec fn contract(self) -> Option<ContractId> {
        match self {
            ItemId::Contract(id) => Some(id),
            ItemId::Other => None,
        }
    }

    /// The contract that the name stands for, if any.
    pub fn as_contract(&self) -> (id: Option<ContractId>)
        ensures
            id == self.contract(),
    {
        match self {
            ItemId::Contract(id) => Some(*id),
            ItemId::Other => None,
        }
    }
}

/// The kind of a type.
#[derive(Debug)]
pub enum TypeKind {
    Elementary,
    /// An array of the element type.
    Array(Box<TypeKind>),
    Function,
    Mapping,
    /// A type named in the source.
    Custom(ItemId),
    /// A type that could not be resolved.
    Error,
}

/// A type as it is written in the source.
#[derive(Debug)]
pub struct Type {
    pub span: Span,
    pub kind: TypeKind,
}

impl Type {
    /// The contract that the type names, if any.
    pub open spec fn contract(self) -> Option<ContractId> {
        match self.kind {
            TypeKind::Custom(item) => item.contract(),
            _ => None,
        }
    }

    /// The contract that the type names, if any.
    pub fn as_contract(&self) -> (id: Option<ContractId>)
        ensures
            id == self.contract(),
    {
        match &self.kind {
            TypeKind::Custom(item) => item.as_contract(),
            _ => None,
        }
    }
}

/// What the callee of a call, or the object of a member access, is.
#[derive(Debug)]
pub enum OperandKind {
    /// `new T`.
    New(Type),
    /// `type(T)`.
    TypeCall(Type),
    Other,
}

/// The callee of a call, or the object of a member access.
#[derive(Debug)]
pub struct Operand {
    pub span: Span,
    pub kind: OperandKind,
}

/// The argument list of a call.
#[derive(Debug)]
pub struct CallArgs {
    /// Where the list stands, with its parentheses.
    pub span: Span,
    /// How many arguments there are.
    pub len: usize,
}

/// An option `name: value` of a call.
#[derive(Debug)]
pub struct NamedArg {
    pub name: String,
    /// Where the value stands.
    pub value: Span,
}

/// The options `{name: value, ..}` of a call.
#[derive(Debug)]
pub struct CallOptions {
    pub span: Span,
    pub args: Vec<NamedArg>,
}

/// A call `callee{options}(args)`.
#[derive(Debug)]
pub struct Call {
    pub callee: Operand,
    pub args: CallArgs,
    pub options: Option<CallOptions>,
}

/// The kind of an expression.
#[derive(Debug)]
pub enum ExprKind {
    Call(Call),
    /// The member `name` of `object`.
    Member {
        object: Operand,
        name: String,
    },
    Other,
}

/// An expression.
#[derive(Debug)]
pub struct Expr {
    pub span: Span,
    pub kind: ExprKind,
    /// What stands below the expression.
    pub children: Vec<Node>,
}

/// A variable that a clause of a `try` statement declares.
#[derive(Debug)]
pub struct Variable {
    pub ty: TypeKind,
    /// What stands below the declaration.
    pub children: Vec<Node>,
}

/// A `returns` or `catch` clause.
#[derive(Debug)]
pub struct TryClause {
    pub args: Vec<Variable>,
    pub body: Vec<Node>,
}

/// A `try` statement. The first clause is the `returns` clause.
#[derive(Debug)]
pub struct TryStmt {
    pub expr: Expr,
    pub clauses: Vec<TryClause>,
}

/// A statement.
#[derive(Debug)]
pub enum Stmt {
    Try(TryStmt),
    /// Any other statement, with what stands below it.
    Other(Vec<Node>),
}

/// An expression or a statement.
#[derive(Debug)]
pub enum Node {
    Expr(Expr),
    Stmt(Stmt),
}

/// The kind of a function.
#[derive(Clone, Copy, Debug, PartialEq, Eq, Structural)]
pub enum FunctionKind {
    Constructor,
    Function,
    Fallback,
    Receive,
    Modifier,
}

/// What a function may do with the state of the chain.
#[derive(Clone, Copy, Debug, PartialEq, Eq, Structural)]
pub enum StateMutability {
    Pure,
    View,
    Payable,
    NonPayable,
}

/// A function.
#[derive(Debug)]
pub struct Function {
    pub span: Span,
    pub kind: FunctionKind,
    pub state_mutability: StateMutability,
    /// The types of the parameters.
    pub parameters: Vec<TypeKind>,
    /// What stands in the function.
    pub nodes: Vec<Node>,
}

/// A part of a contract, in the order in which a walk meets them.
#[derive(Debug)]
pub enum Item {
    Function(FunctionId),
    /// What stands in the arguments of the bases, or in an item that is not a function.
    Nodes(Vec<Node>),
}

/// A contract.
#[derive(Debug)]
pub struct Contract {
    /// The file that declares the contract.
    pub source: SourceId,
    pub name: String,
    pub is_abstract: bool,
    /// Whether the contract declares a storage layout.
    pub has_layout: bool,
    /// The contract itself, then its bases in order of inheritance.
    pub linearized_bases: Vec<ContractId>,
    pub ctor: Option<FunctionId>,
    pub items: Vec<Item>,
}

/// A source file.
#[derive(Debug)]
pub struct Source {
    /// The path of the file, if the source was read from one.
    pub file: Option<String>,
    /// Where the file lies on disk, if it could be found.
    pub canonical_file: Option<String>,
    pub text: String,
    /// The files that this one imports.
    pub imports: Vec<SourceId>,
    /// The functions outside of any contract.
    pub functions: Vec<FunctionId>,
}

/// The resolved syntax of a set of source files.
#[derive(Debug)]
pub struct Hir {
    pub sources: Vec<Source>,
    pub contracts: Vec<Contract>,
    pub functions: Vec<Function>,
}

/// How many bytes lie between the type that `call` creates, which ends at `type_end`, and the
/// arguments of the call.
pub open spec fn args_offset(call: Call, type_end: usize) -> int {
    if call.args.len == 0 {
        0
    } else {
        call.args.span.start - type_end
    }
}

/// Whether a call that stands at `span` in `source` can be read where it creates a contract: the
/// type stands in the text, before the arguments, and the values of the options stand in the text.
pub open spec fn call_ok(source: Seq<char>, span: Span, call: Call) -> bool {
    match call.callee.kind {
        OperandKind::New(ty) => ty.contract() is Some ==> {
            let end = span.up_to(call.callee.span.end).end;
            &&& text::is_slice(source, ty.span.start as int, ty.span.end as int)
            &&& ty.span.end <= span.end
            &&& 0 <= args_offset(call, ty.span.end)
            &&& end + (span.end - ty.span.end) <= usize::MAX
            &&& end + args_offset(call, ty.span.end) <= usize::MAX
            &&& call.options matches Some(options) ==> options_ok(source, options)
        },
        _ => true,
    }
}

/// Whether the values of the options stand in `source`.
pub open spec fn options_ok(source: Seq<char>, options: CallOptions) -> bool {
    forall|i: int|
        0 <= i < options.args@.len() ==> text::is_slice(
            source,
            (#[trigger] options.args@[i]).value.start as int,
            options.args@[i].value.end as int,
        )
}

/// Whether the expression itself can be read: see [`call_ok`]. A contract that it refers to is one
/// of `contracts` contracts.
pub open spec fn head_ok(contracts: nat, source: Seq<char>, expr: Expr) -> bool {
    match expr.kind {
        ExprKind::Call(call) => {
            &&& call_ok(source, expr.span, call)
            &&& call.callee.kind matches OperandKind::New(ty) ==> (ty.contract() matches Some(id)
                ==> id < contracts)
        },
        ExprKind::Member { object, name } => object.kind matches OperandKind::TypeCall(ty) ==> (
        ty.contract() matches Some(id) ==> id < contracts),
        ExprKind::Other => true,
    }
}

/// Whether every expression in `expr` can be read.
pub open spec fn expr_ok(contracts: nat, source: Seq<char>, expr: Expr) -> bool
    decreases expr,
{
    head_ok(contracts, source, expr) && nodes_ok(contracts, source, expr.children@)
}

/// Whether every expression in `node` can be read.
pub open spec fn node_ok(contracts: nat, source: Seq<char>, node: Node) -> bool
    decreases node,
{
    match node {
        Node::Expr(expr) => expr_ok(contracts, source, expr),
        Node::Stmt(stmt) => stmt_ok(contracts, source, stmt),
    }
}

/// Whether every expression in `nodes` can be read.
pub open spec fn nodes_ok(contracts: nat, source: Seq<char>, nodes: Seq<Node>) -> bool
    decreases nodes,
{
    forall|i: int| 0 <= i < nodes.len() ==> node_ok(contracts, source, #[trigger] nodes[i])
}

/// Whether every expression in `stmt` can be read.
pub open spec fn stmt_ok(contracts: nat, source: Seq<char>, stmt: Stmt) -> bool
    decreases stmt,
{
    match stmt {
        Stmt::Try(stmt) => {
            &&& expr_ok(contracts, source, stmt.expr)
            &&& forall|i: int|
                0 <= i < stmt.clauses@.len() ==> clause_ok(contracts, source, #[trigger] stmt.clauses@[i])
        },
        Stmt::Other(nodes) => nodes_ok(contracts, source, nodes@),
    }
}

/// Whether every expression in `clause` can be read.
pub open spec fn clause_ok(contracts: nat, source: Seq<char>, clause: TryClause) -> bool
    decreases clause,
{
    &&& forall|i: int|
        0 <= i < clause.args@.len() ==> nodes_ok(
            contracts,
            source,
            (#[trigger] clause.args@[i]).children@,
        )
    &&& nodes_ok(contracts, source, clause.body@)
}

impl Hir {
    /// Whether `id` is a function that can be read in a file that holds `source`.
    pub open spec fn function_ok(self, source: Seq<char>, id: FunctionId) -> bool {
        &&& id < self.functions@.len()
        &&& nodes_ok(self.contracts@.len(), source, self.functions@[id as int].nodes@)
    }

    /// Whether `item` can be read in a file that holds `source`.
    pub open spec fn item_ok(self, source: Seq<char>, item: Item) -> bool {
        match item {
            Item::Function(id) => self.function_ok(source, id),
            Item::Nodes(nodes) => nodes_ok(self.contracts@.len(), source, nodes@),
        }
    }

    /// Whether what `contract` refers to is there, and every item of it can be read.
    pub open spec fn contract_ok(self, contract: Contract) -> bool {
        &&& contract.source < self.sources@.len()
        &&& contract.ctor matches Some(id) ==> id < self.functions@.len()
        &&& forall|i: int|
            0 <= i < contract.linearized_bases@.len() ==> #[trigger] contract.linearized_bases@[i]
                < self.contracts@.len()
        &&& forall|i: int|
            0 <= i < contract.items@.len() ==> self.item_ok(
                self.sources@[contract.source as int].text@,
                #[trigger] contract.items@[i],
            )
    }

    /// Whether what `source` refers to is there, and every function of it can be read.
    pub open spec fn source_ok(self, source: Source) -> bool {
        &&& forall|i: int|
            0 <= i < source.imports@.len() ==> #[trigger] source.imports@[i] < self.sources@.len()
        &&& forall|i: int|
            0 <= i < source.functions@.len() ==> self.function_ok(
                source.text@,
                #[trigger] source.functions@[i],
            )
    }

    /// Whether every index is that of something that is there, and every expression can be read
    /// from the text of its file.
    pub open spec fn well_formed(self) -> bool {
        &&& forall|i: int|
            0 <= i < self.contracts@.len() ==> self.contract_ok(#[trigger] self.contracts@[i])
        &&& forall|i: int|
            0 <= i < self.sources@.len() ==> self.source_ok(#[trigger] self.sources@[i])
    }

    /// The constructor's parameter types of contract `id`, none if it has no constructor.
    pub open spec fn ctor_parameters(self, id: ContractId) -> Seq<TypeKind> {
        match self.contracts@[id as int].ctor {
            Some(ctor) => self.functions@[ctor as int].parameters@,
            None => Seq::empty(),
        }
    }

    /// The path of the file that declares contract `id`, if there is one.
    pub open spec fn contract_file(self, id: ContractId) -> Option<Seq<char>> {
        text::option_view(self.sources@[self.contracts@[id as int].source as int].file)
    }
}

fn check_options(source: &str, options: &CallOptions) -> (ok: bool)
    ensures
        ok == options_ok(source@, *options),
{
    let mut i: usize = 0;
    while i < options.args.len()
        invariant
            i <= options.args@.len(),
            forall|j: int|
                0 <= j < i ==> text::is_slice(
                    source@,
                    (#[trigger] options.args@[j]).value.start as int,
                    options.args@[j].value.end as int,
                ),
        decreases options.args@.len() - i,
    {
        let value = options.args[i].value;
        if !text::can_slice(source, value.start, value.end) {
            return false;
        }
        i = i + 1;
    }
    true
}

fn check_call(source: &str, span: Span, call: &Call) -> (ok: bool)
    ensures
        ok == call_ok(source@, span, *call),
{
    let ty = match &call.callee.kind {
        OperandKind::New(ty) => ty,
        _ => return true,
    };
    if ty.as_contract().is_none() {
        return true;
    }
    if !text::can_slice(source, ty.span.start, ty.span.end) || ty.span.end > span.end {
        return false;
    }
    let offset: usize = if call.args.len == 0 {
        0
    } else if call.args.span.start < ty.span.end {
        return false;
    } else {
        call.args.span.start - ty.span.end
    };
    let end = span.with_end(call.callee.span.end).end;
    if end.checked_add(span.end - ty.span.end).is_none() || end.checked_add(offset).is_none() {
        return false;
    }
    match &call.options {
        Some(options) => check_options(source, options),
        None => true,
    }
}

fn check_head(contracts: usize, source: &str, expr: &Expr) -> (ok: bool)
    ensures
        ok == head_ok(contracts as nat, source@, *expr),
{
    let named = match &expr.kind {
        ExprKind::Call(call) => {
            if !check_call(source, expr.span, call) {
                return false;
            }
            match &call.callee.kind {
                OperandKind::New(ty) => ty.as_contract(),
                _ => None,
            }
        },
        ExprKind::Member { object, name: _ } => match &object.kind {
            OperandKind::TypeCall(ty) => ty.as_contract(),
            _ => None,
        },
        ExprKind::Other => None,
    };
    match named {
        Some(id) => id < contracts,
        None => true,
    }
}

fn check_expr(contracts: usize, source: &str, expr: &Expr) -> (ok: bool)
    ensures
        ok == expr_ok(contracts as nat, source@, *expr),
    decreases *expr,
{
    check_head(contracts, source, expr) && check_nodes(contracts, source, &expr.children)
}

fn check_nodes(contracts: usize, source: &str, nodes: &Vec<Node>) -> (ok: bool)
    ensures
        ok == nodes_ok(contracts as nat, source@, nodes@),
    decreases *nodes,
{
    let mut i: usize = 0;
    while i < nodes.len()
        invariant
            i <= nodes@.len(),
            forall|j: int|
                0 <= j < i ==> node_ok(contracts as nat, source@, #[trigger] nodes@[j]),
        decreases nodes@.len() - i,
    {
        assert(decreases_to!(nodes => nodes@[i as int]));
        let ok = match &nodes[i] {
            Node::Expr(expr) => check_expr(contracts, source, expr),
            Node::Stmt(stmt) => check_stmt(contracts, source, stmt),
        };
        assert(ok == node_ok(contracts as nat, source@, nodes@[i as int]));
        if !ok {
            return false;
        }
        i = i + 1;
    }
    true
}

fn check_stmt(contracts: usize, source: &str, stmt: &Stmt) -> (ok: bool)
    ensures
        ok == stmt_ok(contracts as nat, source@, *stmt),
    decreases *stmt,
{
    match stmt {
        Stmt::Try(stmt) => check_expr(contracts, source, &stmt.expr) && check_clauses(
            contracts,
            source,
            &stmt.clauses,
        ),
        Stmt::Other(nodes) => check_nodes(contracts, source, nodes),
    }
}

fn check_clauses(contracts: usize, source: &str, clauses: &Vec<TryClause>) -> (ok: bool)
    ensures
        ok == forall|i: int|
            0 <= i < clauses@.len() ==> clause_ok(contracts as nat, source@, #[trigger] clauses@[i]),
    decreases *clauses,
{
    let mut i: usize = 0;
    while i < clauses.len()
        invariant
            i <= clauses@.len(),
            forall|j: int|
                0 <= j < i ==> clause_ok(contracts as nat, source@, #[trigger] clauses@[j]),
        decreases clauses@.len() - i,
    {
        assert(decreases_to!(clauses => clauses@[i as int]));
        let clause = &clauses[i];
        let ok = check_variables(contracts, source, &clause.args) && check_nodes(
            contracts,
            source,
            &clause.body,
        );
        assert(ok == clause_ok(contracts as nat, source@, clauses@[i as int]));
        if !ok {
            return false;
        }
        i = i + 1;
    }
    true
}

fn check_variables(contracts: usize, source: &str, variables: &Vec<Variable>) -> (ok: bool)
    ensures
        ok == forall|i: int|
            0 <= i < variables@.len() ==> nodes_ok(
                contracts as nat,
                source@,
                (#[trigger] variables@[i]).children@,
            ),
    decreases *variables,
{
    let mut i: usize = 0;
    while i < variables.len()
        invariant
            i <= variables@.len(),
            forall|j: int|
                0 <= j < i ==> nodes_ok(
                    contracts as nat,
                    source@,
                    (#[trigger] variables@[j]).children@,
                ),
        decreases variables@.len() - i,
    {
        assert(decreases_to!(variables => variables@[i as int]));
        if !check_nodes(contracts, source, &variables[i].children) {
            return false;
        }
        i = i + 1;
    }
    true
}

impl Hir {
    fn check_function(&self, source: &str, id: FunctionId) -> (ok: bool)
        ensures
            ok == self.function_ok(source@, id),
    {
        id < self.functions.len() && check_nodes(
            self.contracts.len(),
            source,
            &self.functions[id].nodes,
        )
    }

    fn check_contract(&self, contract: &Contract) -> (ok: bool)
        ensures
            ok == self.contract_ok(*contract),
    {
        if contract.source >= self.sources.len() {
            return false;
        }
        if let Some(ctor) = contract.ctor {
            if ctor >= self.functions.len() {
                return false;
            }
        }
        let bases = &contract.linearized_bases;
        let mut i: usize = 0;
        while i < bases.len()
            invariant
                *bases == contract.linearized_bases,
                i <= bases@.len(),
                forall|j: int| 0 <= j < i ==> #[trigger] bases@[j] < self.contracts@.len(),
            decreases bases@.len() - i,
        {
            if bases[i] >= self.contracts.len() {
                return false;
            }
            i = i + 1;
        }
        let source = &self.sources[contract.source].text;
        let items = &contract.items;
        let mut k: usize = 0;
        while k < items.len()
            invariant
                *items == contract.items,
                contract.source < self.sources@.len(),
                source@ == self.sources@[contract.source as int].text@,
                k <= items@.len(),
                forall|j: int| 0 <= j < k ==> self.item_ok(source@, #[trigger] items@[j]),
            decreases items@.len() - k,
        {
            let ok = match &items[k] {
                Item::Function(id) => self.check_function(source, *id),
                Item::Nodes(nodes) => check_nodes(self.contracts.len(), source, nodes),
            };
            assert(ok == self.item_ok(source@, items@[k as int]));
            if !ok {
                return false;
            }
            k = k + 1;
        }
        true
    }

    fn check_source(&self, source: &Source) -> (ok: bool)
        ensures
            ok == self.source_ok(*source),
    {
        let imports = &source.imports;
        let mut i: usize = 0;
        while i < imports.len()
            invariant
                *imports == source.imports,
                i <= imports@.len(),
                forall|j: int| 0 <= j < i ==> #[trigger] imports@[j] < self.sources@.len(),
            decreases imports@.len() - i,
        {
            if imports[i] >= self.sources.len() {
                return false;
            }
            i = i + 1;
        }
        let functions = &source.functions;
        let mut k: usize = 0;
        while k < functions.len()
            invariant
                *functions == source.functions,
                k <= functions@.len(),
                forall|j: int|
                    0 <= j < k ==> self.function_ok(source.text@, #[trigger] functions@[j]),
            decreases functions@.len() - k,
        {
            if !self.check_function(&source.text, functions[k]) {
                return false;
            }
            k = k + 1;
        }
        true
    }

    /// Whether every index is that of something that is there, and every expression can be read
    /// from the text of its file.
    pub fn is_well_formed(&self) -> (ok: bool)
        ensures
            ok == self.well_formed(),
    {
        let mut i: usize = 0;
        while i < self.contracts.len()
            invariant
                i <= self.contracts@.len(),
                forall|j: int|
                    0 <= j < i ==> self.contract_ok(#[trigger] self.contracts@[j]),
            decreases self.contracts@.len() - i,
        {
            if !self.check_contract(&self.contracts[i]) {
                return false;
            }
            i = i + 1;
        }
        let mut k: usize = 0;
        while k < self.sources.len()
            invariant
                forall|j: int|
                    0 <= j < self.contracts@.len() ==> self.contract_ok(
                        #[trigger] self.contracts@[j],
                    ),
                k <= self.sources@.len(),
                forall|j: int| 0 <= j < k ==> self.source_ok(#[trigger] self.sources@[j]),
            decreases self.sources@.len() - k,
        {
            if !self.check_source(&self.sources[k]) {
                return false;
            }
            k = k + 1;
        }
        true
    }
}

} // verus!
