//! The references to bytecode that stand in a contract, and what is kept of them.
use crate::collector;
use crate::collector::{Context, Outcome};
use crate::dependency;
use crate::dependency::DependencyView;
use crate::deps;
use crate::deps::Job;
use crate::hir::{
    ContractId, Expr, Function, FunctionId, FunctionKind, Hir, Item, Node, SourceId, StateMutability,
    Stmt, TryClause, Variable,
};
use crate::imports;
use crate::laws;
use crate::layout;
use vstd::prelude::*;

verus! {

/// Whether `expr` is the reference `dependency`, or holds it.
pub open spec fn expr_refers(source: Seq<char>, expr: Expr, dependency: DependencyView) -> bool
    decreases expr,
{
    ||| dependency::creation_expr(source, expr) == Some(dependency)
    ||| dependency::creation_code(expr) == Some(dependency)
    ||| nodes_refer(source, expr.children@, dependency)
}

/// Whether `node` holds the reference `dependency`.
pub open spec fn node_refers(source: Seq<char>, node: Node, dependency: DependencyView) -> bool
    decreases node,
{
    match node {
        Node::Expr(expr) => expr_refers(source, expr, dependency),
        Node::Stmt(stmt) => stmt_refers(source, stmt, dependency),
    }
}

/// Whether one of `nodes` holds the reference `dependency`.
pub open spec fn nodes_refer(source: Seq<char>, nodes: Seq<Node>, dependency: DependencyView) -> bool
    decreases nodes,
{
    exists|i: int| 0 <= i < nodes.len() && node_refers(source, #[trigger] nodes[i], dependency)
}

/// Whether `stmt` holds the reference `dependency`.
pub open spec fn stmt_refers(source: Seq<char>, stmt: Stmt, dependency: DependencyView) -> bool
    decreases stmt,
{
    match stmt {
        Stmt::Try(stmt) => {
            ||| match dependency::creation_expr(source, stmt.expr) {
                Some(creation) => {
                    ||| dependency == creation.in_try(
                        dependency::has_custom_return(stmt.clauses@),
                    )
                    ||| nodes_refer(source, stmt.expr.children@, dependency)
                },
                None => expr_refers(source, stmt.expr, dependency),
            }
            ||| exists|i: int|
                0 <= i < stmt.clauses@.len() && clause_refers(
                    source,
                    #[trigger] stmt.clauses@[i],
                    dependency,
                )
        },
        Stmt::Other(nodes) => nodes_refer(source, nodes@, dependency),
    }
}

/// Whether `clause` holds the reference `dependency`.
pub open spec fn clause_refers(source: Seq<char>, clause: TryClause, dependency: DependencyView) -> bool
    decreases clause,
{
    ||| exists|i: int|
        0 <= i < clause.args@.len() && nodes_refer(
            source,
            (#[trigger] clause.args@[i]).children@,
            dependency,
        )
    ||| nodes_refer(source, clause.body@, dependency)
}

/// Whether the reference `dependency` stands in contract `id`.
pub open spec fn contract_refers(hir: Hir, id: ContractId, dependency: DependencyView) -> bool {
    let contract = hir.contracts@[id as int];
    exists|i: int|
        0 <= i < contract.items@.len() && nodes_refer(
            hir.sources@[contract.source as int].text@,
            layout::item_nodes(hir, #[trigger] contract.items@[i]),
            dependency,
        )
}

/// Whether `outcome` keeps the reference `dependency`: it is replaced, or something stays native.
pub open spec fn accounted_for(outcome: Outcome, dependency: DependencyView) -> bool {
    outcome.native || outcome.dependencies.contains(dependency)
}

pub proof fn lemma_in_either(front: Outcome, back: Outcome, dependency: DependencyView)
    ensures
        front.and(back).dependencies.contains(dependency) <==> front.dependencies.contains(
            dependency,
        ) || back.dependencies.contains(dependency),
        accounted_for(front.and(back), dependency) <==> accounted_for(front, dependency) || accounted_for(
            back,
            dependency,
        ),
{
    let a = front.dependencies;
    let b = back.dependencies;
    let both = front.and(back).dependencies;
    assert(both == a + b);
    if a.contains(dependency) {
        let i = choose|i: int| 0 <= i < a.len() && a[i] == dependency;
        assert(both[i] == dependency);
    }
    if b.contains(dependency) {
        let i = choose|i: int| 0 <= i < b.len() && b[i] == dependency;
        assert(both[a.len() + i] == dependency);
    }
    if both.contains(dependency) {
        let i = choose|i: int| 0 <= i < both.len() && both[i] == dependency;
        if i < a.len() {
            assert(a[i] == dependency);
        } else {
            assert(b[i - a.len()] == dependency);
        }
    }
}

/// What a single reference comes to.
pub proof fn lemma_single(cx: Context, dependency: DependencyView, other: DependencyView)
    ensures
        cx.in_source(dependency.referenced_contract) ==> accounted_for(
            cx.collected(dependency),
            dependency,
        ) && accounted_for(cx.forced().collected(dependency), dependency),
        cx.collected(dependency).dependencies.contains(other) ==> other == dependency
            && cx.disposition(other) is Rewritten,
        !cx.forced().collected(dependency).dependencies.contains(other),
{
    let own = cx.collected(dependency).dependencies;
    if cx.disposition(dependency) is Rewritten {
        assert(own[0] == dependency);
    }
}

/// Every reference to a source is accounted for.
proof fn lemma_tracks_expr(cx: Context, expr: Expr, dependency: DependencyView)
    requires
        expr_refers(cx.source, expr, dependency),
        cx.in_source(dependency.referenced_contract),
    ensures
        accounted_for(collector::expr_outcome(cx, expr), dependency),
    decreases expr, 0nat,
{
    let below = collector::nodes_outcome(cx, expr.children@);
    if nodes_refer(cx.source, expr.children@, dependency) {
        lemma_tracks_nodes(cx, expr.children@, dependency);
    }
    match dependency::creation_expr(cx.source, expr) {
        Some(own) => {
            lemma_single(cx, own, own);
            lemma_in_either(
                below,
                cx.enclosing(own, below.dependencies, collector::options_of(expr)),
                dependency,
            );
        },
        None => match dependency::creation_code(expr) {
            Some(own) => {
                lemma_single(cx, own, own);
                lemma_in_either(cx.collected(own), below, dependency);
            },
            None => {},
        },
    }
}

proof fn lemma_tracks_node(cx: Context, node: Node, dependency: DependencyView)
    requires
        node_refers(cx.source, node, dependency),
        cx.in_source(dependency.referenced_contract),
    ensures
        accounted_for(collector::node_outcome(cx, node), dependency),
    decreases node, 0nat,
{
    match node {
        Node::Expr(expr) => lemma_tracks_expr(cx, expr, dependency),
        Node::Stmt(stmt) => lemma_tracks_stmt(cx, stmt, dependency),
    }
}

proof fn lemma_tracks_nodes(cx: Context, nodes: Seq<Node>, dependency: DependencyView)
    requires
        nodes_refer(cx.source, nodes, dependency),
        cx.in_source(dependency.referenced_contract),
    ensures
        accounted_for(collector::nodes_outcome(cx, nodes), dependency),
    decreases nodes, 0nat,
{
    let i = choose|i: int|
        0 <= i < nodes.len() && node_refers(cx.source, #[trigger] nodes[i], dependency);
    let front = nodes.drop_last();
    if i == nodes.len() - 1 {
        lemma_tracks_node(cx, nodes.last(), dependency);
    } else {
        assert(front[i] == nodes[i]);
        lemma_tracks_nodes(cx, front, dependency);
    }
    lemma_in_either(
        collector::nodes_outcome(cx, front),
        collector::node_outcome(cx, nodes.last()),
        dependency,
    );
}

proof fn lemma_tracks_stmt(cx: Context, stmt: Stmt, dependency: DependencyView)
    requires
        stmt_refers(cx.source, stmt, dependency),
        cx.in_source(dependency.referenced_contract),
    ensures
        accounted_for(collector::stmt_outcome(cx, stmt), dependency),
    decreases stmt, 0nat,
{
    match stmt {
        Stmt::Try(stmt) => {
            let clauses = collector::clauses_outcome(cx, stmt.clauses@);
            if exists|i: int|
                0 <= i < stmt.clauses@.len() && clause_refers(
                    cx.source,
                    #[trigger] stmt.clauses@[i],
                    dependency,
                ) {
                lemma_tracks_clauses(cx, stmt.clauses@, dependency);
            }
            match dependency::creation_expr(cx.source, stmt.expr) {
                Some(creation) => {
                    let own = creation.in_try(dependency::has_custom_return(stmt.clauses@));
                    let below = collector::nodes_outcome(cx, stmt.expr.children@);
                    let around = cx.enclosing(
                        own,
                        below.dependencies,
                        collector::options_of(stmt.expr),
                    );
                    if nodes_refer(cx.source, stmt.expr.children@, dependency) {
                        lemma_tracks_nodes(cx, stmt.expr.children@, dependency);
                    }
                    lemma_single(cx, own, own);
                    lemma_in_either(below, around, dependency);
                    lemma_in_either(below.and(around), clauses, dependency);
                },
                None => {
                    if expr_refers(cx.source, stmt.expr, dependency) {
                        lemma_tracks_expr(cx, stmt.expr, dependency);
                    }
                    lemma_in_either(collector::expr_outcome(cx, stmt.expr), clauses, dependency);
                },
            }
        },
        Stmt::Other(nodes) => lemma_tracks_nodes(cx, nodes@, dependency),
    }
}

proof fn lemma_tracks_clauses(cx: Context, clauses: Seq<TryClause>, dependency: DependencyView)
    requires
        exists|i: int|
            0 <= i < clauses.len() && clause_refers(
                cx.source,
                #[trigger] clauses[i],
                dependency,
            ),
        cx.in_source(dependency.referenced_contract),
    ensures
        accounted_for(collector::clauses_outcome(cx, clauses), dependency),
    decreases clauses, 0nat,
{
    let i = choose|i: int|
        0 <= i < clauses.len() && clause_refers(cx.source, #[trigger] clauses[i], dependency);
    let front = collector::clauses_outcome(cx, clauses.drop_last());
    let args = collector::variables_outcome(cx, clauses.last().args@);
    let body = collector::nodes_outcome(cx, clauses.last().body@);
    if i == clauses.len() - 1 {
        let clause = clauses.last();
        if nodes_refer(cx.source, clause.body@, dependency) {
            lemma_tracks_nodes(cx, clause.body@, dependency);
        } else {
            lemma_tracks_variables(cx, clause.args@, dependency);
        }
    } else {
        assert(clauses.drop_last()[i] == clauses[i]);
        lemma_tracks_clauses(cx, clauses.drop_last(), dependency);
    }
    lemma_in_either(front, args, dependency);
    lemma_in_either(front.and(args), body, dependency);
}

proof fn lemma_tracks_variables(cx: Context, variables: Seq<Variable>, dependency: DependencyView)
    requires
        exists|i: int|
            0 <= i < variables.len() && nodes_refer(
                cx.source,
                (#[trigger] variables[i]).children@,
                dependency,
            ),
        cx.in_source(dependency.referenced_contract),
    ensures
        accounted_for(collector::variables_outcome(cx, variables), dependency),
    decreases variables, 0nat,
{
    let i = choose|i: int|
        0 <= i < variables.len() && nodes_refer(
            cx.source,
            (#[trigger] variables[i]).children@,
            dependency,
        );
    let front = variables.drop_last();
    if i == variables.len() - 1 {
        lemma_tracks_nodes(cx, variables.last().children@, dependency);
    } else {
        assert(front[i] == variables[i]);
        lemma_tracks_variables(cx, front, dependency);
    }
    lemma_in_either(
        collector::variables_outcome(cx, front),
        collector::nodes_outcome(cx, variables.last().children@),
        dependency,
    );
}

proof fn lemma_tracks_items(cx: Context, items: Seq<Item>, i: int, dependency: DependencyView)
    requires
        0 <= i < items.len(),
        nodes_refer(cx.source, layout::item_nodes(cx.hir, items[i]), dependency),
        cx.in_source(dependency.referenced_contract),
    ensures
        accounted_for(collector::items_outcome(cx, items), dependency),
    decreases items.len(),
{
    if i == items.len() - 1 {
        let nodes = layout::item_nodes(cx.hir, items[i]);
        match items[i] {
            Item::Function(id) => lemma_tracks_nodes(
                cx.inside(cx.hir.functions@[id as int]),
                nodes,
                dependency,
            ),
            Item::Nodes(_) => lemma_tracks_nodes(cx, nodes, dependency),
        }
    } else {
        assert(items.drop_last()[i] == items[i]);
        lemma_tracks_items(cx, items.drop_last(), i, dependency);
    }
    lemma_in_either(
        collector::items_outcome(cx, items.drop_last()),
        collector::item_outcome(cx, items.last()),
        dependency,
    );
}

/// What is replaced is a reference that stands there, and may be replaced.
pub proof fn lemma_found_expr(cx: Context, expr: Expr, dependency: DependencyView)
    requires
        collector::expr_outcome(cx, expr).dependencies.contains(dependency),
    ensures
        expr_refers(cx.source, expr, dependency),
        cx.disposition(dependency) is Rewritten,
    decreases expr, 0nat,
{
    let below = collector::nodes_outcome(cx, expr.children@);
    match dependency::creation_expr(cx.source, expr) {
        Some(own) => {
            lemma_single(cx, own, dependency);
            lemma_in_either(
                below,
                cx.enclosing(own, below.dependencies, collector::options_of(expr)),
                dependency,
            );
        },
        None => match dependency::creation_code(expr) {
            Some(own) => {
                lemma_single(cx, own, dependency);
                lemma_in_either(cx.collected(own), below, dependency);
            },
            None => {},
        },
    }
    if below.dependencies.contains(dependency) {
        lemma_found_nodes(cx, expr.children@, dependency);
    }
}

proof fn lemma_found_node(cx: Context, node: Node, dependency: DependencyView)
    requires
        collector::node_outcome(cx, node).dependencies.contains(dependency),
    ensures
        node_refers(cx.source, node, dependency),
        cx.disposition(dependency) is Rewritten,
    decreases node, 0nat,
{
    match node {
        Node::Expr(expr) => lemma_found_expr(cx, expr, dependency),
        Node::Stmt(stmt) => lemma_found_stmt(cx, stmt, dependency),
    }
}

pub proof fn lemma_found_nodes(cx: Context, nodes: Seq<Node>, dependency: DependencyView)
    requires
        collector::nodes_outcome(cx, nodes).dependencies.contains(dependency),
    ensures
        nodes_refer(cx.source, nodes, dependency),
        cx.disposition(dependency) is Rewritten,
    decreases nodes, 0nat,
{
    let front = nodes.drop_last();
    lemma_in_either(
        collector::nodes_outcome(cx, front),
        collector::node_outcome(cx, nodes.last()),
        dependency,
    );
    if collector::node_outcome(cx, nodes.last()).dependencies.contains(dependency) {
        lemma_found_node(cx, nodes.last(), dependency);
        assert(node_refers(cx.source, nodes[nodes.len() - 1], dependency));
    } else {
        lemma_found_nodes(cx, front, dependency);
        let i = choose|i: int|
            0 <= i < front.len() && node_refers(cx.source, #[trigger] front[i], dependency);
        assert(node_refers(cx.source, nodes[i], dependency));
    }
}

proof fn lemma_found_stmt(cx: Context, stmt: Stmt, dependency: DependencyView)
    requires
        collector::stmt_outcome(cx, stmt).dependencies.contains(dependency),
    ensures
        stmt_refers(cx.source, stmt, dependency),
        cx.disposition(dependency) is Rewritten,
    decreases stmt, 0nat,
{
    match stmt {
        Stmt::Try(stmt) => {
            let clauses = collector::clauses_outcome(cx, stmt.clauses@);
            if clauses.dependencies.contains(dependency) {
                lemma_found_clauses(cx, stmt.clauses@, dependency);
            }
            match dependency::creation_expr(cx.source, stmt.expr) {
                Some(creation) => {
                    let own = creation.in_try(dependency::has_custom_return(stmt.clauses@));
                    let below = collector::nodes_outcome(cx, stmt.expr.children@);
                    let around = cx.enclosing(
                        own,
                        below.dependencies,
                        collector::options_of(stmt.expr),
                    );
                    lemma_single(cx, own, dependency);
                    lemma_in_either(below, around, dependency);
                    lemma_in_either(below.and(around), clauses, dependency);
                    if below.dependencies.contains(dependency) {
                        lemma_found_nodes(cx, stmt.expr.children@, dependency);
                    }
                },
                None => {
                    let call = collector::expr_outcome(cx, stmt.expr);
                    lemma_in_either(call, clauses, dependency);
                    if call.dependencies.contains(dependency) {
                        lemma_found_expr(cx, stmt.expr, dependency);
                    }
                },
            }
        },
        Stmt::Other(nodes) => lemma_found_nodes(cx, nodes@, dependency),
    }
}

proof fn lemma_found_clauses(cx: Context, clauses: Seq<TryClause>, dependency: DependencyView)
    requires
        collector::clauses_outcome(cx, clauses).dependencies.contains(dependency),
    ensures
        exists|i: int|
            0 <= i < clauses.len() && clause_refers(
                cx.source,
                #[trigger] clauses[i],
                dependency,
            ),
        cx.disposition(dependency) is Rewritten,
    decreases clauses, 0nat,
{
    let front = collector::clauses_outcome(cx, clauses.drop_last());
    let args = collector::variables_outcome(cx, clauses.last().args@);
    let body = collector::nodes_outcome(cx, clauses.last().body@);
    lemma_in_either(front, args, dependency);
    lemma_in_either(front.and(args), body, dependency);
    if front.dependencies.contains(dependency) {
        lemma_found_clauses(cx, clauses.drop_last(), dependency);
        let i = choose|i: int|
            0 <= i < clauses.drop_last().len() && clause_refers(
                cx.source,
                #[trigger] clauses.drop_last()[i],
                dependency,
            );
        assert(clause_refers(cx.source, clauses[i], dependency));
    } else {
        if args.dependencies.contains(dependency) {
            lemma_found_variables(cx, clauses.last().args@, dependency);
        } else {
            lemma_found_nodes(cx, clauses.last().body@, dependency);
        }
        assert(clause_refers(cx.source, clauses[clauses.len() - 1], dependency));
    }
}

proof fn lemma_found_variables(cx: Context, variables: Seq<Variable>, dependency: DependencyView)
    requires
        collector::variables_outcome(cx, variables).dependencies.contains(dependency),
    ensures
        exists|i: int|
            0 <= i < variables.len() && nodes_refer(
                cx.source,
                (#[trigger] variables[i]).children@,
                dependency,
            ),
        cx.disposition(dependency) is Rewritten,
    decreases variables, 0nat,
{
    let front = variables.drop_last();
    let last = collector::nodes_outcome(cx, variables.last().children@);
    lemma_in_either(collector::variables_outcome(cx, front), last, dependency);
    if last.dependencies.contains(dependency) {
        lemma_found_nodes(cx, variables.last().children@, dependency);
        assert(nodes_refer(cx.source, variables[variables.len() - 1].children@, dependency));
    } else {
        lemma_found_variables(cx, front, dependency);
        let i = choose|i: int|
            0 <= i < front.len() && nodes_refer(
                cx.source,
                (#[trigger] front[i]).children@,
                dependency,
            );
        assert(nodes_refer(cx.source, variables[i].children@, dependency));
    }
}

pub proof fn lemma_found_items(cx: Context, items: Seq<Item>, dependency: DependencyView) -> (i: int)
    requires
        collector::items_outcome(cx, items).dependencies.contains(dependency),
    ensures
        0 <= i < items.len(),
        nodes_refer(cx.source, layout::item_nodes(cx.hir, items[i]), dependency),
        cx.disposition(dependency) is Rewritten,
    decreases items.len(),
{
    let last = items.last();
    let nodes = layout::item_nodes(cx.hir, last);
    lemma_in_either(
        collector::items_outcome(cx, items.drop_last()),
        collector::item_outcome(cx, last),
        dependency,
    );
    if collector::item_outcome(cx, last).dependencies.contains(dependency) {
        match last {
            Item::Function(id) => lemma_found_nodes(
                cx.inside(cx.hir.functions@[id as int]),
                nodes,
                dependency,
            ),
            Item::Nodes(_) => lemma_found_nodes(cx, nodes, dependency),
        }
        items.len() - 1
    } else {
        let i = lemma_found_items(cx, items.drop_last(), dependency);
        assert(items.drop_last()[i] == items[i]);
        i
    }
}

/// The context in which the references of contract `id` are met.
spec fn contract_context(job: Job, id: ContractId) -> Context {
    Context {
        hir: job.hir,
        source: job.hir.sources@[job.hir.contracts@[id as int].source as int].text@,
        in_sources: job.in_sources(),
        is_script: job.is_script(id),
        preserve_native_creation_code: false,
        force_native: false,
    }
}

/// No reference is lost: a reference in a test or script to a contract of a source is replaced, or
/// its file is linked natively.
pub proof fn law_no_reference_is_lost(job: Job, id: ContractId, dependency: DependencyView)
    requires
        job.candidate(id),
        contract_refers(job.hir, id, dependency),
        dependency.referenced_contract < job.hir.contracts@.len(),
        job.in_source(dependency.referenced_contract),
    ensures
        job.rewritten(id).contains(dependency) || job.native_files().contains(
            job.full_path(job.hir.contract_file(id)->0),
        ),
{
    let cx = contract_context(job, id);
    let items = job.hir.contracts@[id as int].items@;
    let outcome = job.contract_outcome(id);
    assert(outcome == collector::items_outcome(cx, items));
    let i = choose|i: int|
        0 <= i < items.len() && nodes_refer(
            cx.source,
            layout::item_nodes(job.hir, #[trigger] items[i]),
            dependency,
        );
    lemma_tracks_items(cx, items, i, dependency);
    let keep = |dependency: DependencyView| job.rewritable(id, dependency);
    let file = job.full_path(job.hir.contract_file(id)->0);
    if !outcome.native {
        let k = choose|k: int|
            0 <= k < outcome.dependencies.len() && outcome.dependencies[k] == dependency;
        if job.rewritable(id, dependency) {
            outcome.dependencies.lemma_filter_contains(keep, k);
        } else {
            assert(!job.rewritable(id, outcome.dependencies[k]));
            assert(job.keeps_native(id));
        }
    }
    if job.keeps_native(id) {
        assert(job.contract_native(job.hir.contracts@.len(), file));
    }
}

proof fn lemma_tracks_functions(
    cx: Context,
    functions: Seq<FunctionId>,
    k: int,
    dependency: DependencyView,
)
    requires
        0 <= k < functions.len(),
        nodes_refer(cx.source, cx.hir.functions@[functions[k] as int].nodes@, dependency),
        cx.in_source(dependency.referenced_contract),
    ensures
        accounted_for(deps::functions_outcome(cx, functions), dependency),
    decreases functions.len(),
{
    let function = cx.hir.functions@[functions.last() as int];
    if k == functions.len() - 1 {
        lemma_tracks_nodes(cx.inside(function), function.nodes@, dependency);
    } else {
        assert(functions.drop_last()[k] == functions[k]);
        lemma_tracks_functions(cx, functions.drop_last(), k, dependency);
    }
    lemma_in_either(
        deps::functions_outcome(cx, functions.drop_last()),
        collector::function_outcome(cx, function),
        dependency,
    );
}

/// No reference outside of contracts is lost either: a function outside of any contract that refers
/// to a contract of a source makes its file native code, and so every test or script that is that
/// file, or imports it over any number of files, is linked natively.
pub proof fn law_no_reference_in_a_free_function_is_lost(
    job: Job,
    source: SourceId,
    k: int,
    dependency: DependencyView,
)
    requires
        source < job.hir.sources@.len(),
        0 <= k < job.hir.sources@[source as int].functions@.len(),
        nodes_refer(
            job.hir.sources@[source as int].text@,
            job.hir.functions@[job.hir.sources@[source as int].functions@[k] as int].nodes@,
            dependency,
        ),
        dependency.referenced_contract < job.hir.contracts@.len(),
        job.in_source(dependency.referenced_contract),
    ensures
        job.native_functions(source),
        forall|importer: SourceId, steps: nat|
            importer < job.hir.sources@.len() && #[trigger] imports::imports(
                job.hir,
                importer,
                source,
                steps,
            ) && job.examines(job.source_file(importer)) ==> job.native_files().contains(
                job.full_path(job.source_file(importer)->0),
            ),
{
    let functions = job.hir.sources@[source as int].functions@;
    let cx = Context {
        hir: job.hir,
        source: job.hir.sources@[source as int].text@,
        in_sources: job.in_sources(),
        is_script: false,
        preserve_native_creation_code: false,
        force_native: true,
    };
    lemma_tracks_functions(cx, functions, k, dependency);
    law_free_functions_are_left_alone(cx, functions);
    assert(job.native_functions(source));
    assert forall|importer: SourceId, steps: nat|
        importer < job.hir.sources@.len() && #[trigger] imports::imports(
            job.hir,
            importer,
            source,
            steps,
        ) && job.examines(job.source_file(importer)) implies job.native_files().contains(
        job.full_path(job.source_file(importer)->0),
    ) by {
        laws::law_native_functions_reach_importers(job, importer, source, steps);
    }
}

/// Only a reference that may be replaced is: it stands in the contract, which is no script, it
/// refers to a contract of a source that is compiled under the path that the generated code uses,
/// and the constructor of a contract that it creates can be called through a helper.
pub proof fn law_only_safe_references_are_replaced(
    job: Job,
    id: ContractId,
    dependency: DependencyView,
)
    requires
        job.rewritten(id).contains(dependency),
    ensures
        contract_refers(job.hir, id, dependency),
        !job.is_script(id),
        job.rewritable(id, dependency),
        job.in_source(dependency.referenced_contract),
        dependency.kind is New ==> {
            let target = dependency.referenced_contract;
            let parameters = job.hir.ctor_parameters(target);
            &&& forall|i: int|
                0 <= i < parameters.len() ==> dependency::identity_independent(
                    #[trigger] parameters[i],
                )
            &&& job.hir.contracts@[target as int].has_layout ==> parameters.len() == 0
        },
{
    let cx = contract_context(job, id);
    let items = job.hir.contracts@[id as int].items@;
    let all = job.contract_outcome(id).dependencies;
    let keep = |dependency: DependencyView| job.rewritable(id, dependency);
    let k = choose|k: int| 0 <= k < all.filter(keep).len() && all.filter(keep)[k] == dependency;
    all.lemma_filter_pred(keep, k);
    all.lemma_filter_contains_rev(keep, dependency);
    assert(all == collector::items_outcome(cx, items).dependencies);
    let i = lemma_found_items(cx, items, dependency);
    assert(nodes_refer(cx.source, layout::item_nodes(job.hir, items[i]), dependency));
    if dependency.kind is New {
        let parameters = job.hir.ctor_parameters(dependency.referenced_contract);
        assert(!collector::identity_sensitive(parameters));
    }
}

/// Scripts are left alone: nothing in them is replaced.
pub proof fn law_scripts_are_left_alone(job: Job, id: ContractId)
    requires
        job.is_script(id),
    ensures
        job.rewritten(id).len() == 0,
        !job.preprocessed(job.hir.contracts@.len()).contains_key(id),
{
    if job.rewritten(id).len() > 0 {
        law_only_safe_references_are_replaced(job, id, job.rewritten(id)[0]);
    }
}

/// Functions outside of any contract are left alone: nothing in them is replaced.
pub proof fn law_free_functions_are_left_alone(cx: Context, functions: Seq<FunctionId>)
    requires
        cx.force_native,
    ensures
        deps::functions_outcome(cx, functions).dependencies.len() == 0,
    decreases functions.len(),
{
    if functions.len() > 0 {
        law_free_functions_are_left_alone(cx, functions.drop_last());
        let function = cx.hir.functions@[functions.last() as int];
        let last = collector::function_outcome(cx, function).dependencies;
        if last.len() > 0 {
            assert(last.contains(last[0]));
            lemma_found_nodes(cx.inside(function), function.nodes@, last[0]);
        }
    }
}

/// Pure code stays pure: in a pure function or a modifier, no reference to creation code is
/// replaced, since what would replace it reads the state.
pub proof fn law_pure_code_stays_pure(cx: Context, function: Function, dependency: DependencyView)
    requires
        function.state_mutability == StateMutability::Pure || function.kind
            == FunctionKind::Modifier,
        collector::function_outcome(cx, function).dependencies.contains(dependency),
    ensures
        dependency.kind !is CreationCode,
{
    lemma_found_nodes(cx.inside(function), function.nodes@, dependency);
}

/// The items of a contract are looked at independently: a reference that stays native in some of
/// them changes nothing about what is replaced in the others.
pub proof fn law_items_are_independent(cx: Context, front: Seq<Item>, back: Seq<Item>)
    ensures
        collector::items_outcome(cx, front + back) == collector::items_outcome(cx, front).and(
            collector::items_outcome(cx, back),
        ),
    decreases back.len(),
{
    let whole = front + back;
    if back.len() == 0 {
        assert(whole =~= front);
        assert(collector::items_outcome(cx, front).and(Outcome::none()) =~= collector::items_outcome(
            cx,
            front,
        ));
    } else {
        assert(whole.drop_last() =~= front + back.drop_last());
        assert(whole.last() == back.last());
        law_items_are_independent(cx, front, back.drop_last());
        let last = collector::item_outcome(cx, back.last());
        assert(collector::items_outcome(cx, front).and(
            collector::items_outcome(cx, back.drop_last()),
        ).and(last) =~= collector::items_outcome(cx, front).and(
            collector::items_outcome(cx, back.drop_last()).and(last),
        ));
    }
}

} // verus!
