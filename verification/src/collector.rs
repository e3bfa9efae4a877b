//! Collects the bytecode dependencies of a contract.
use crate::dependency;
use crate::dependency::{
    constructor_type_is_identity_independent, handle_call_expr, BytecodeDependency,
    BytecodeDependencyKind, DependencyKindView, DependencyView,
};
use crate::hir;
use crate::hir::{
    CallOptions, Contract, ContractId, Expr, ExprKind, Function, FunctionKind, Hir, Item, Node,
    OperandKind, StateMutability, Stmt, TryClause, TryStmt, TypeKind, Variable,
};
use vstd::prelude::*;

verus! {

/// What decides about a reference, besides the reference itself.
pub struct Context {
    pub hir: Hir,
    /// The text of the file in which the reference stands.
    pub source: Seq<char>,
    /// For each contract, whether it is declared in a source of the project.
    pub in_sources: Seq<bool>,
    pub is_script: bool,
    pub preserve_native_creation_code: bool,
    pub force_native: bool,
}

/// What becomes of a reference.
pub enum Disposition {
    /// The referenced contract is no source of the project.
    Ignored,
    /// The reference stays as it is, so its file is linked natively.
    Native,
    /// The reference is replaced.
    Rewritten,
}

/// What a part of the syntax comes to: the references in it that are replaced, in the order in
/// which they are met, and whether another reference stays native.
#[verifier::ext_equal]
pub struct Outcome {
    pub dependencies: Seq<DependencyView>,
    pub native: bool,
}

impl Outcome {
    /// The outcome of a part without references.
    pub open spec fn none() -> Outcome {
        Outcome { dependencies: Seq::empty(), native: false }
    }

    /// The outcome of this part followed by another.
    pub open spec fn and(self, next: Outcome) -> Outcome {
        Outcome {
            dependencies: self.dependencies + next.dependencies,
            native: self.native || next.native,
        }
    }
}

/// Whether a parameter of the constructor has a type that is tied to its source unit.
pub open spec fn identity_sensitive(parameters: Seq<TypeKind>) -> bool {
    exists|i: int| 0 <= i < parameters.len() && !dependency::identity_independent(#[trigger] parameters[i])
}

impl Context {
    /// Whether contract `id` is declared in a source of the project.
    pub open spec fn in_source(self, id: ContractId) -> bool {
        id < self.in_sources.len() && self.in_sources[id as int]
    }

    /// What becomes of `dependency`.
    pub open spec fn disposition(self, dependency: DependencyView) -> Disposition {
        let id = dependency.referenced_contract;
        let parameters = self.hir.ctor_parameters(id);
        if !self.in_source(id) {
            Disposition::Ignored
        } else if self.force_native || self.is_script {
            Disposition::Native
        } else {
            match dependency.kind {
                // A rewritten reference is no longer pure.
                DependencyKindView::CreationCode => if self.preserve_native_creation_code {
                    Disposition::Native
                } else {
                    Disposition::Rewritten
                },
                // A helper redeclares the parameters, and inherits the contract.
                DependencyKindView::New { .. } => if identity_sensitive(parameters) || (
                self.hir.contracts@[id as int].has_layout && parameters.len() > 0) {
                    Disposition::Native
                } else {
                    Disposition::Rewritten
                },
            }
        }
    }

    /// The outcome of `dependency` alone.
    pub open spec fn collected(self, dependency: DependencyView) -> Outcome {
        match self.disposition(dependency) {
            Disposition::Ignored => Outcome::none(),
            Disposition::Native => Outcome { dependencies: Seq::empty(), native: true },
            Disposition::Rewritten => Outcome { dependencies: seq![dependency], native: false },
        }
    }

    /// The same context with every reference native.
    pub open spec fn forced(self) -> Context {
        Context { force_native: true, ..self }
    }

    /// The outcome of a creation around parts in which `nested` are replaced: one of them in the
    /// options of the creation keeps the creation native.
    pub open spec fn enclosing(
        self,
        dependency: DependencyView,
        nested: Seq<DependencyView>,
        options: Option<CallOptions>,
    ) -> Outcome {
        if rewritten_option(nested, options) {
            self.forced().collected(dependency)
        } else {
            self.collected(dependency)
        }
    }

    /// The context in the body of `function`.
    pub open spec fn inside(self, function: Function) -> Context {
        Context {
            preserve_native_creation_code: self.preserve_native_creation_code
                || function.state_mutability == StateMutability::Pure || function.kind
                == FunctionKind::Modifier,
            ..self
        }
    }
}

/// Whether one of `nested` stands in `options`.
pub open spec fn rewritten_option(nested: Seq<DependencyView>, options: Option<CallOptions>) -> bool {
    options matches Some(options) && exists|i: int|
        0 <= i < nested.len() && (#[trigger] nested[i]).loc.meets(options.span)
}

/// The options of `expr`, if it is a call with options.
pub open spec fn options_of(expr: Expr) -> Option<CallOptions> {
    match expr.kind {
        ExprKind::Call(call) => call.options,
        _ => None,
    }
}

/// The outcome of `expr`: a creation comes behind what stands in it, a reference to creation code
/// before.
pub open spec fn expr_outcome(cx: Context, expr: Expr) -> Outcome
    decreases expr,
{
    let below = nodes_outcome(cx, expr.children@);
    match dependency::creation_expr(cx.source, expr) {
        Some(dependency) => below.and(
            cx.enclosing(dependency, below.dependencies, options_of(expr)),
        ),
        None => match dependency::creation_code(expr) {
            Some(dependency) => cx.collected(dependency).and(below),
            None => below,
        },
    }
}

/// The outcome of `node`.
pub open spec fn node_outcome(cx: Context, node: Node) -> Outcome
    decreases node,
{
    match node {
        Node::Expr(expr) => expr_outcome(cx, expr),
        Node::Stmt(stmt) => stmt_outcome(cx, stmt),
    }
}

/// The outcome of `nodes`, one after the other.
pub open spec fn nodes_outcome(cx: Context, nodes: Seq<Node>) -> Outcome
    decreases nodes,
{
    if nodes.len() == 0 {
        Outcome::none()
    } else {
        nodes_outcome(cx, nodes.drop_last()).and(node_outcome(cx, nodes.last()))
    }
}

/// The outcome of `stmt`. The creation that a `try` statement makes is marked as such.
pub open spec fn stmt_outcome(cx: Context, stmt: Stmt) -> Outcome
    decreases stmt,
{
    match stmt {
        Stmt::Try(stmt) => {
            let call = match dependency::creation_expr(cx.source, stmt.expr) {
                Some(dependency) => {
                    let below = nodes_outcome(cx, stmt.expr.children@);
                    below.and(
                        cx.enclosing(
                            dependency.in_try(dependency::has_custom_return(stmt.clauses@)),
                            below.dependencies,
                            options_of(stmt.expr),
                        ),
                    )
                },
                None => expr_outcome(cx, stmt.expr),
            };
            call.and(clauses_outcome(cx, stmt.clauses@))
        },
        Stmt::Other(nodes) => nodes_outcome(cx, nodes@),
    }
}

/// The outcome of `clauses`, one after the other.
pub open spec fn clauses_outcome(cx: Context, clauses: Seq<TryClause>) -> Outcome
    decreases clauses,
{
    if clauses.len() == 0 {
        Outcome::none()
    } else {
        clauses_outcome(cx, clauses.drop_last()).and(
            variables_outcome(cx, clauses.last().args@),
        ).and(nodes_outcome(cx, clauses.last().body@))
    }
}

/// The outcome of `variables`, one after the other.
pub open spec fn variables_outcome(cx: Context, variables: Seq<Variable>) -> Outcome
    decreases variables,
{
    if variables.len() == 0 {
        Outcome::none()
    } else {
        variables_outcome(cx, variables.drop_last()).and(
            nodes_outcome(cx, variables.last().children@),
        )
    }
}

/// The outcome of `function`.
pub open spec fn function_outcome(cx: Context, function: Function) -> Outcome {
    nodes_outcome(cx.inside(function), function.nodes@)
}

/// The outcome of `item`.
pub open spec fn item_outcome(cx: Context, item: Item) -> Outcome {
    match item {
        Item::Function(id) => function_outcome(cx, cx.hir.functions@[id as int]),
        Item::Nodes(nodes) => nodes_outcome(cx, nodes@),
    }
}

/// The outcome of `items`, one after the other.
pub open spec fn items_outcome(cx: Context, items: Seq<Item>) -> Outcome
    decreases items.len(),
{
    if items.len() == 0 {
        Outcome::none()
    } else {
        items_outcome(cx, items.drop_last()).and(item_outcome(cx, items.last()))
    }
}

/// Walks over the syntax of a contract and collects its [`BytecodeDependency`]s.
pub struct BytecodeDependencyCollector<'a> {
    pub hir: &'a Hir,
    /// Source content of current contract.
    pub src: &'a str,
    /// For each contract, whether it is declared in a source of the project. Used to distinguish
    /// rewritten sources from native dependencies.
    pub in_sources: &'a Vec<bool>,
    /// Whether the contract being analyzed lives in a script file.
    /// Script bytecode references must not be rewritten: native script CREATE/CREATE2 frames
    /// are handled by the script execution inspector, and `type(Contract).creationCode` must keep
    /// its native mutability semantics.
    pub is_script: bool,
    /// Whether `type(Contract).creationCode` should keep native Solidity semantics.
    pub preserve_native_creation_code: bool,
    /// Whether every dependency collected by this visitor must remain native.
    pub force_native: bool,
    /// Whether a source dependency remains natively linked.
    pub has_native_dependency: bool,
    /// Dependencies collected for current contract.
    pub dependencies: Vec<BytecodeDependency>,
}

impl<'a> BytecodeDependencyCollector<'a> {
    /// What decides about the references that are met next.
    pub open spec fn context(self) -> Context {
        Context {
            hir: *self.hir,
            source: self.src@,
            in_sources: self.in_sources@,
            is_script: self.is_script,
            preserve_native_creation_code: self.preserve_native_creation_code,
            force_native: self.force_native,
        }
    }

    /// What has been met so far.
    pub open spec fn outcome(self) -> Outcome {
        Outcome {
            dependencies: dependency::dependency_views(self.dependencies@),
            native: self.has_native_dependency,
        }
    }

    /// Whether every contract is known to lie in a source or not, the collected dependencies refer
    /// to contracts that are there, and their ranges are positions.
    pub open spec fn well_formed(self) -> bool {
        &&& self.hir.well_formed()
        &&& self.in_sources@.len() == self.hir.contracts@.len()
        &&& forall|i: int|
            0 <= i < self.dependencies@.len() ==> dependency_ok(*self.hir, (#[trigger] self.dependencies@[i])@)
    }

    /// Whether this collector is `before` with the outcome `met` added.
    pub open spec fn extends(self, before: BytecodeDependencyCollector, met: Outcome) -> bool {
        &&& self.context() == before.context()
        &&& self.outcome() == before.outcome().and(met)
        &&& self.well_formed()
    }
}

/// Whether `dependency` refers to a contract that is there, and its ranges are positions.
pub open spec fn dependency_ok(hir: Hir, dependency: DependencyView) -> bool {
    &&& dependency.referenced_contract < hir.contracts@.len()
    &&& dependency.in_range()
}

impl<'a> BytecodeDependencyCollector<'a> {
    /// A collector that has met nothing yet.
    pub fn new(
        hir: &'a Hir,
        src: &'a str,
        in_sources: &'a Vec<bool>,
        is_script: bool,
        force_native: bool,
    ) -> (collector: Self)
        ensures
            collector.context() == (Context {
                hir: *hir,
                source: src@,
                in_sources: in_sources@,
                is_script,
                preserve_native_creation_code: false,
                force_native,
            }),
            collector.outcome() == Outcome::none(),
            hir.well_formed() && in_sources@.len() == hir.contracts@.len()
                ==> collector.well_formed(),
    {
        let collector = BytecodeDependencyCollector {
            hir,
            src,
            in_sources,
            is_script,
            preserve_native_creation_code: false,
            force_native,
            has_native_dependency: false,
            dependencies: Vec::new(),
        };
        assert(collector.outcome() =~= Outcome::none());
        collector
    }

    /// Collects reference identified as bytecode dependency of analyzed contract.
    /// Rewrites source dependencies when semantics and artifact identity permit it, and tracks
    /// every reference that must remain native so body-only changes invalidate its importer.
    pub fn collect_dependency(&mut self, dependency: BytecodeDependency)
        requires
            old(self).well_formed(),
            dependency_ok(*old(self).hir, dependency@),
        ensures
            final(self).extends(*old(self), old(self).context().collected(dependency@)),
    {
        let ghost before = *self;
        let ghost cx = self.context();
        let ghost view = dependency@;
        assert(self.hir.contract_ok(self.hir.contracts@[dependency.referenced_contract as int]));
        let contract = &self.hir.contracts[dependency.referenced_contract];
        // Test/script dependencies already receive full transitive invalidation from the cache. They
        // are not eligible for dynamic linking because they are not ordinary source artifacts.
        if !self.in_sources[dependency.referenced_contract] {
            assert(cx.disposition(view) is Ignored);
            assert(self.outcome() =~= before.outcome().and(Outcome::none()));
            return;
        }
        let is_new = match &dependency.kind {
            BytecodeDependencyKind::CreationCode => false,
            BytecodeDependencyKind::New { .. } => true,
        };
        let native = if self.force_native || self.is_script {
            true
        } else if !is_new {
            // `type(Contract).creationCode` has native `pure` semantics. Rewriting it to a `view`
            // cheatcode call would make valid pure functions fail to compile.
            self.preserve_native_creation_code
        } else {
            match contract.ctor {
                // Constructor helpers redeclare the parameter fields in a generated source unit.
                // Custom types are nominally tied to their source-unit identity, which can differ
                // when the test reached the target through a remapping or alias. Solidity only
                // permits a custom layout on the most-derived contract, so the generated
                // constructor helper cannot inherit a target that declares one.
                Some(ctor) => {
                    let parameters = &self.hir.functions[ctor].parameters;
                    has_identity_sensitive(parameters) || (contract.has_layout && parameters.len() > 0)
                },
                None => false,
            }
        };
        assert(native == (cx.disposition(view) is Native));
        if native {
            self.has_native_dependency = true;
            assert(self.outcome() =~= before.outcome().and(
                Outcome { dependencies: Seq::empty(), native: true },
            ));
            return;
        }
        assert(cx.disposition(view) is Rewritten);
        self.dependencies.push(dependency);
        assert(self.outcome() =~= before.outcome().and(
            Outcome { dependencies: seq![view], native: false },
        ));
        assert forall|i: int| 0 <= i < self.dependencies@.len() implies dependency_ok(
            *self.hir,
            (#[trigger] self.dependencies@[i])@,
        ) by {
            if i < before.dependencies@.len() {
                assert(self.dependencies@[i] == before.dependencies@[i]);
            }
        }
    }

    /// Collects an enclosing creation after its children have been visited. Call options are part
    /// of the enclosing replacement, so a creation with a rewritten option must remain native to
    /// avoid overlapping source updates.
    pub fn collect_enclosing_creation(
        &mut self,
        dependency: BytecodeDependency,
        previous_dependencies: usize,
        call_options: &Option<CallOptions>,
    )
        requires
            old(self).well_formed(),
            dependency_ok(*old(self).hir, dependency@),
            previous_dependencies <= old(self).dependencies@.len(),
        ensures
            final(self).extends(
                *old(self),
                old(self).context().enclosing(
                    dependency@,
                    old(self).outcome().dependencies.skip(previous_dependencies as int),
                    *call_options,
                ),
            ),
    {
        let ghost nested = self.outcome().dependencies.skip(previous_dependencies as int);
        let has_rewritten_option = match call_options {
            None => false,
            Some(options) => {
                let mut found = false;
                let mut i: usize = previous_dependencies;
                while i < self.dependencies.len() && !found
                    invariant
                        *self == *old(self),
                        previous_dependencies <= i <= self.dependencies@.len(),
                        nested == self.outcome().dependencies.skip(previous_dependencies as int),
                        call_options == Some(*options),
                        found ==> rewritten_option(nested, *call_options),
                        !found ==> forall|j: int|
                            0 <= j < i - previous_dependencies ==> !(#[trigger] nested[j]).loc.meets(
                                options.span,
                            ),
                    decreases self.dependencies@.len() - i,
                {
                    assert(nested[i - previous_dependencies] == self.dependencies@[i as int]@);
                    if self.dependencies[i].loc.overlaps(options.span) {
                        found = true;
                    }
                    i = i + 1;
                }
                found
            },
        };
        assert(has_rewritten_option == rewritten_option(nested, *call_options));
        if has_rewritten_option {
            let force_native = self.force_native;
            self.force_native = true;
            assert(self.context() == old(self).context().forced());
            self.collect_dependency(dependency);
            self.force_native = force_native;
        } else {
            self.collect_dependency(dependency);
        }
    }
}

/// Whether a parameter of the constructor has a type that is tied to its source unit.
fn has_identity_sensitive(parameters: &Vec<TypeKind>) -> (found: bool)
    ensures
        found == identity_sensitive(parameters@),
{
    let mut i: usize = 0;
    while i < parameters.len()
        invariant
            i <= parameters@.len(),
            forall|j: int|
                0 <= j < i ==> dependency::identity_independent(#[trigger] parameters@[j]),
        decreases parameters@.len() - i,
    {
        if !constructor_type_is_identity_independent(&parameters[i]) {
            return true;
        }
        i = i + 1;
    }
    false
}

impl<'a> BytecodeDependencyCollector<'a> {
    /// Collects what stands in `contract`.
    pub fn walk_contract(&mut self, contract: &Contract)
        requires
            old(self).well_formed(),
            forall|i: int|
                0 <= i < contract.items@.len() ==> old(self).hir.item_ok(
                    old(self).src@,
                    #[trigger] contract.items@[i],
                ),
        ensures
            final(self).extends(
                *old(self),
                items_outcome(old(self).context(), contract.items@),
            ),
    {
        let items = &contract.items;
        let ghost cx = self.context();
        let mut i: usize = 0;
        assert(items@.take(0) =~= Seq::empty());
        assert(self.outcome() =~= self.outcome().and(Outcome::none()));
        while i < items.len()
            invariant
                i <= items@.len(),
                cx == old(self).context(),
                items == contract.items,
                forall|j: int|
                    0 <= j < items@.len() ==> old(self).hir.item_ok(
                        old(self).src@,
                        #[trigger] items@[j],
                    ),
                self.extends(*old(self), items_outcome(cx, items@.take(i as int))),
            decreases items@.len() - i,
        {
            let ghost before = *self;
            assert(items@.take(i + 1).drop_last() =~= items@.take(i as int));
            assert(old(self).hir.item_ok(old(self).src@, items@[i as int]));
            match &items[i] {
                Item::Function(id) => {
                    let hir = self.hir;
                    self.visit_function(&hir.functions[*id]);
                },
                Item::Nodes(nodes) => self.visit_nodes(nodes),
            }
            proof {
                let met = item_outcome(cx, items@[i as int]);
                assert(self.extends(before, met));
                lemma_and(
                    old(self).outcome(),
                    items_outcome(cx, items@.take(i as int)),
                    met,
                );
            }
            i = i + 1;
        }
        assert(items@.take(i as int) =~= items@);
    }

    /// Collects what stands in `func`. In a pure function and in a modifier, creation code is
    /// read natively.
    pub fn visit_function(&mut self, func: &Function)
        requires
            old(self).well_formed(),
            hir::nodes_ok(old(self).hir.contracts@.len(), old(self).src@, func.nodes@),
        ensures
            final(self).extends(*old(self), function_outcome(old(self).context(), *func)),
    {
        let previous = self.preserve_native_creation_code;
        self.preserve_native_creation_code = previous || func.state_mutability
            == StateMutability::Pure || func.kind == FunctionKind::Modifier;
        assert(self.context() == old(self).context().inside(*func));
        self.visit_nodes(&func.nodes);
        self.preserve_native_creation_code = previous;
    }

    /// Collects what stands in `nodes`.
    pub fn visit_nodes(&mut self, nodes: &Vec<Node>)
        requires
            old(self).well_formed(),
            hir::nodes_ok(old(self).hir.contracts@.len(), old(self).src@, nodes@),
        ensures
            final(self).extends(*old(self), nodes_outcome(old(self).context(), nodes@)),
        decreases *nodes,
    {
        let ghost cx = self.context();
        let mut i: usize = 0;
        assert(nodes@.take(0) =~= Seq::empty());
        assert(self.outcome() =~= self.outcome().and(Outcome::none()));
        while i < nodes.len()
            invariant
                i <= nodes@.len(),
                cx == old(self).context(),
                hir::nodes_ok(cx.hir.contracts@.len(), cx.source, nodes@),
                self.extends(*old(self), nodes_outcome(cx, nodes@.take(i as int))),
            decreases nodes@.len() - i,
        {
            let ghost before = *self;
            assert(nodes@.take(i + 1).drop_last() =~= nodes@.take(i as int));
            assert(hir::node_ok(cx.hir.contracts@.len(), cx.source, nodes@[i as int]));
            assert(decreases_to!(nodes => nodes@[i as int]));
            match &nodes[i] {
                Node::Expr(expr) => self.visit_expr(expr),
                Node::Stmt(stmt) => self.visit_stmt(stmt),
            }
            proof {
                let met = node_outcome(cx, nodes@[i as int]);
                assert(self.extends(before, met));
                lemma_and(
                    old(self).outcome(),
                    nodes_outcome(cx, nodes@.take(i as int)),
                    met,
                );
            }
            i = i + 1;
        }
        assert(nodes@.take(i as int) =~= nodes@);
    }

    /// Collects what stands in `expr`, and `expr` itself if it is a reference.
    pub fn visit_expr(&mut self, expr: &Expr)
        requires
            old(self).well_formed(),
            hir::expr_ok(old(self).hir.contracts@.len(), old(self).src@, *expr),
        ensures
            final(self).extends(*old(self), expr_outcome(old(self).context(), *expr)),
        decreases *expr,
    {
        let ghost cx = self.context();
        let ghost below = nodes_outcome(cx, expr.children@);
        match &expr.kind {
            ExprKind::Call(call) => {
                if let Some(dependency) = handle_call_expr(self.src, expr.span, call) {
                    let previous_dependencies = self.dependencies.len();
                    self.visit_nodes(&expr.children);
                    let ghost walked = *self;
                    assert(self.outcome().dependencies.skip(previous_dependencies as int)
                        =~= below.dependencies);
                    self.collect_enclosing_creation(
                        dependency,
                        previous_dependencies,
                        &call.options,
                    );
                    proof {
                        lemma_and(
                            old(self).outcome(),
                            below,
                            cx.enclosing(dependency@, below.dependencies, call.options),
                        );
                    }
                    return;
                }
            },
            ExprKind::Member { object, name } => {
                if let OperandKind::TypeCall(ty) = &object.kind {
                    if let Some(contract_id) = ty.as_contract() {
                        if *name == "creationCode".to_owned() {
                            let dependency = BytecodeDependency {
                                kind: BytecodeDependencyKind::CreationCode,
                                loc: expr.span,
                                referenced_contract: contract_id,
                            };
                            self.collect_dependency(dependency);
                            self.visit_nodes(&expr.children);
                            proof {
                                lemma_and(old(self).outcome(), cx.collected(dependency@), below);
                            }
                            return;
                        }
                    }
                }
            },
            ExprKind::Other => {},
        }
        self.visit_nodes(&expr.children);
    }

    /// Collects what stands in `stmt`. The creation of a `try` statement is marked with whether
    /// the statement returns a type of the source.
    pub fn visit_stmt(&mut self, stmt: &Stmt)
        requires
            old(self).well_formed(),
            hir::stmt_ok(old(self).hir.contracts@.len(), old(self).src@, *stmt),
        ensures
            final(self).extends(*old(self), stmt_outcome(old(self).context(), *stmt)),
        decreases *stmt,
    {
        match stmt {
            Stmt::Try(stmt_try) => self.visit_try(stmt_try),
            Stmt::Other(nodes) => self.visit_nodes(nodes),
        }
    }

    fn visit_try(&mut self, stmt: &TryStmt)
        requires
            old(self).well_formed(),
            hir::stmt_ok(old(self).hir.contracts@.len(), old(self).src@, Stmt::Try(*stmt)),
        ensures
            final(self).extends(*old(self), stmt_outcome(old(self).context(), Stmt::Try(*stmt))),
        decreases *stmt,
    {
        let ghost cx = self.context();
        let ghost below = nodes_outcome(cx, stmt.expr.children@);
        let ghost rest = clauses_outcome(cx, stmt.clauses@);
        if let ExprKind::Call(call) = &stmt.expr.kind {
            if let Some(dependency) = handle_call_expr(self.src, stmt.expr.span, call) {
                let dependency = mark_try(dependency, custom_return(&stmt.clauses));
                // The creation is collected here, so only what stands in it is visited, and not the
                // call itself.
                let previous_dependencies = self.dependencies.len();
                self.visit_nodes(&stmt.expr.children);
                assert(self.outcome().dependencies.skip(previous_dependencies as int)
                    =~= below.dependencies);
                self.collect_enclosing_creation(dependency, previous_dependencies, &call.options);
                self.visit_clauses(&stmt.clauses);
                proof {
                    let own = cx.enclosing(dependency@, below.dependencies, call.options);
                    lemma_and(old(self).outcome(), below, own);
                    lemma_and(old(self).outcome(), below.and(own), rest);
                }
                return;
            }
        }
        self.visit_expr(&stmt.expr);
        self.visit_clauses(&stmt.clauses);
        proof {
            lemma_and(old(self).outcome(), expr_outcome(cx, stmt.expr), rest);
        }
    }

    fn visit_clauses(&mut self, clauses: &Vec<TryClause>)
        requires
            old(self).well_formed(),
            forall|i: int|
                0 <= i < clauses@.len() ==> hir::clause_ok(
                    old(self).hir.contracts@.len(),
                    old(self).src@,
                    #[trigger] clauses@[i],
                ),
        ensures
            final(self).extends(*old(self), clauses_outcome(old(self).context(), clauses@)),
        decreases *clauses,
    {
        let ghost cx = self.context();
        let mut i: usize = 0;
        assert(clauses@.take(0) =~= Seq::empty());
        assert(self.outcome() =~= self.outcome().and(Outcome::none()));
        while i < clauses.len()
            invariant
                i <= clauses@.len(),
                cx == old(self).context(),
                forall|j: int|
                    0 <= j < clauses@.len() ==> hir::clause_ok(
                        cx.hir.contracts@.len(),
                        cx.source,
                        #[trigger] clauses@[j],
                    ),
                self.extends(*old(self), clauses_outcome(cx, clauses@.take(i as int))),
            decreases clauses@.len() - i,
        {
            assert(clauses@.take(i + 1).drop_last() =~= clauses@.take(i as int));
            assert(decreases_to!(clauses => clauses@[i as int]));
            let clause = &clauses[i];
            self.visit_variables(&clause.args);
            self.visit_nodes(&clause.body);
            proof {
                let front = clauses_outcome(cx, clauses@.take(i as int));
                let args = variables_outcome(cx, clause.args@);
                lemma_and(old(self).outcome(), front, args);
                lemma_and(old(self).outcome(), front.and(args), nodes_outcome(cx, clause.body@));
            }
            i = i + 1;
        }
        assert(clauses@.take(i as int) =~= clauses@);
    }

    fn visit_variables(&mut self, variables: &Vec<Variable>)
        requires
            old(self).well_formed(),
            forall|i: int|
                0 <= i < variables@.len() ==> hir::nodes_ok(
                    old(self).hir.contracts@.len(),
                    old(self).src@,
                    (#[trigger] variables@[i]).children@,
                ),
        ensures
            final(self).extends(*old(self), variables_outcome(old(self).context(), variables@)),
        decreases *variables,
    {
        let ghost cx = self.context();
        let mut i: usize = 0;
        assert(variables@.take(0) =~= Seq::empty());
        assert(self.outcome() =~= self.outcome().and(Outcome::none()));
        while i < variables.len()
            invariant
                i <= variables@.len(),
                cx == old(self).context(),
                forall|j: int|
                    0 <= j < variables@.len() ==> hir::nodes_ok(
                        cx.hir.contracts@.len(),
                        cx.source,
                        (#[trigger] variables@[j]).children@,
                    ),
                self.extends(*old(self), variables_outcome(cx, variables@.take(i as int))),
            decreases variables@.len() - i,
        {
            assert(variables@.take(i + 1).drop_last() =~= variables@.take(i as int));
            assert(decreases_to!(variables => variables@[i as int]));
            self.visit_nodes(&variables[i].children);
            proof {
                lemma_and(
                    old(self).outcome(),
                    variables_outcome(cx, variables@.take(i as int)),
                    nodes_outcome(cx, variables@[i as int].children@),
                );
            }
            i = i + 1;
        }
        assert(variables@.take(i as int) =~= variables@);
    }
}

proof fn lemma_and(a: Outcome, b: Outcome, c: Outcome)
    ensures
        a.and(b).and(c) == a.and(b.and(c)),
{
    assert(a.and(b).and(c) =~= a.and(b.and(c)));
}

/// Whether the `returns` clause has one variable, of a type named in the source.
fn custom_return(clauses: &Vec<TryClause>) -> (custom: bool)
    ensures
        custom == dependency::has_custom_return(clauses@),
{
    if clauses.len() > 0 && clauses[0].args.len() == 1 {
        match &clauses[0].args[0].ty {
            TypeKind::Custom(_) => true,
            _ => false,
        }
    } else {
        false
    }
}

/// The dependency as that of a `try` statement, with or without a custom return.
fn mark_try(dependency: BytecodeDependency, has_custom_return: bool) -> (marked: BytecodeDependency)
    ensures
        marked@ == dependency@.in_try(has_custom_return),
{
    let BytecodeDependency { kind, loc, referenced_contract } = dependency;
    let kind = match kind {
        BytecodeDependencyKind::CreationCode => BytecodeDependencyKind::CreationCode,
        BytecodeDependencyKind::New {
            name,
            args_length,
            call_args_offset,
            value,
            salt,
            try_stmt: _,
        } => BytecodeDependencyKind::New {
            name,
            args_length,
            call_args_offset,
            value,
            salt,
            try_stmt: Some(has_custom_return),
        },
    };
    BytecodeDependency { kind, loc, referenced_contract }
}

} // verus!
