//! Which references are replaced, and which files are linked natively, by what stands in the syntax.
use crate::collector;
use crate::collector::Context;
use crate::dependency;
use crate::dependency::DependencyView;
use crate::deps;
use crate::deps::Job;
use crate::hir::{
    CallOptions, ContractId, Expr, ExprKind, FunctionKind, Hir, Item, Node, SourceId, StateMutability,
    Stmt, TryClause, TypeKind, Variable,
};
use crate::imports;
use crate::layout;
use crate::path;
use crate::path::PathId;
use crate::reading;
use crate::references;
use crate::remapping;
use vstd::prelude::*;

verus! {

/// Whether no reference stands in the options of `expr`, if it is a call with options.
pub open spec fn options_free(source: Seq<char>, expr: Expr) -> bool {
    expr.kind matches ExprKind::Call(call) ==> (call.options matches Some(options) ==> forall|
        nested: DependencyView,
    | #[trigger]
        references::nodes_refer(source, expr.children@, nested) ==> options.span.end
            <= nested.loc.start || nested.loc.end <= options.span.start)
}

/// Whether `expr` holds the reference `dependency`, with nothing to replace in its options.
pub open spec fn expr_holds(source: Seq<char>, expr: Expr, dependency: DependencyView) -> bool
    decreases expr,
{
    ||| dependency::creation_expr(source, expr) == Some(dependency) && options_free(source, expr)
    ||| dependency::creation_code(expr) == Some(dependency)
    ||| nodes_hold(source, expr.children@, dependency)
}

/// Whether `node` holds the reference `dependency`, with nothing to replace in its options.
pub open spec fn node_holds(source: Seq<char>, node: Node, dependency: DependencyView) -> bool
    decreases node,
{
    match node {
        Node::Expr(expr) => expr_holds(source, expr, dependency),
        Node::Stmt(stmt) => stmt_holds(source, stmt, dependency),
    }
}

/// Whether one of `nodes` holds the reference `dependency`, with nothing to replace in its options.
pub open spec fn nodes_hold(source: Seq<char>, nodes: Seq<Node>, dependency: DependencyView) -> bool
    decreases nodes,
{
    exists|i: int| 0 <= i < nodes.len() && node_holds(source, #[trigger] nodes[i], dependency)
}

/// Whether `stmt` holds the reference `dependency`, with nothing to replace in its options. The
/// creation that a `try` statement makes is held with its mark.
pub open spec fn stmt_holds(source: Seq<char>, stmt: Stmt, dependency: DependencyView) -> bool
    decreases stmt,
{
    match stmt {
        Stmt::Try(stmt) => {
            ||| match dependency::creation_expr(source, stmt.expr) {
                Some(creation) => {
                    ||| dependency == creation.in_try(
                        dependency::has_custom_return(stmt.clauses@),
                    ) && options_free(source, stmt.expr)
                    ||| nodes_hold(source, stmt.expr.children@, dependency)
                },
                None => expr_holds(source, stmt.expr, dependency),
            }
            ||| exists|i: int|
                0 <= i < stmt.clauses@.len() && clause_holds(
                    source,
                    #[trigger] stmt.clauses@[i],
                    dependency,
                )
        },
        Stmt::Other(nodes) => nodes_hold(source, nodes@, dependency),
    }
}

/// Whether `clause` holds the reference `dependency`, with nothing to replace in its options.
pub open spec fn clause_holds(source: Seq<char>, clause: TryClause, dependency: DependencyView) -> bool
    decreases clause,
{
    ||| exists|i: int|
        0 <= i < clause.args@.len() && nodes_hold(
            source,
            (#[trigger] clause.args@[i]).children@,
            dependency,
        )
    ||| nodes_hold(source, clause.body@, dependency)
}

/// A creation whose options hold no reference is not kept native on their account.
proof fn lemma_free_options(cx: Context, expr: Expr)
    requires
        options_free(cx.source, expr),
    ensures
        !collector::rewritten_option(
            collector::nodes_outcome(cx, expr.children@).dependencies,
            collector::options_of(expr),
        ),
{
    let nested = collector::nodes_outcome(cx, expr.children@).dependencies;
    if let Some(options) = collector::options_of(expr) {
        assert forall|i: int| 0 <= i < nested.len() implies !(#[trigger] nested[i]).loc.meets(
            options.span,
        ) by {
            assert(nested.contains(nested[i]));
            references::lemma_found_nodes(cx, expr.children@, nested[i]);
        }
    }
}

proof fn lemma_replaced(cx: Context, dependency: DependencyView)
    requires
        cx.disposition(dependency) is Rewritten,
    ensures
        cx.collected(dependency).dependencies.contains(dependency),
{
    assert(cx.collected(dependency).dependencies[0] == dependency);
}

proof fn lemma_replaces_expr(cx: Context, expr: Expr, dependency: DependencyView)
    requires
        expr_holds(cx.source, expr, dependency),
        cx.disposition(dependency) is Rewritten,
    ensures
        collector::expr_outcome(cx, expr).dependencies.contains(dependency),
    decreases expr, 0nat,
{
    let below = collector::nodes_outcome(cx, expr.children@);
    lemma_replaced(cx, dependency);
    if nodes_hold(cx.source, expr.children@, dependency) {
        lemma_replaces_nodes(cx, expr.children@, dependency);
    }
    match dependency::creation_expr(cx.source, expr) {
        Some(own) => {
            if options_free(cx.source, expr) {
                lemma_free_options(cx, expr);
            }
            references::lemma_in_either(
                below,
                cx.enclosing(own, below.dependencies, collector::options_of(expr)),
                dependency,
            );
        },
        None => match dependency::creation_code(expr) {
            Some(own) => references::lemma_in_either(cx.collected(own), below, dependency),
            None => {},
        },
    }
}

proof fn lemma_replaces_node(cx: Context, node: Node, dependency: DependencyView)
    requires
        node_holds(cx.source, node, dependency),
        cx.disposition(dependency) is Rewritten,
    ensures
        collector::node_outcome(cx, node).dependencies.contains(dependency),
    decreases node, 0nat,
{
    match node {
        Node::Expr(expr) => lemma_replaces_expr(cx, expr, dependency),
        Node::Stmt(stmt) => lemma_replaces_stmt(cx, stmt, dependency),
    }
}

proof fn lemma_replaces_nodes(cx: Context, nodes: Seq<Node>, dependency: DependencyView)
    requires
        nodes_hold(cx.source, nodes, dependency),
        cx.disposition(dependency) is Rewritten,
    ensures
        collector::nodes_outcome(cx, nodes).dependencies.contains(dependency),
    decreases nodes, 0nat,
{
    let i = choose|i: int|
        0 <= i < nodes.len() && node_holds(cx.source, #[trigger] nodes[i], dependency);
    let front = nodes.drop_last();
    if i == nodes.len() - 1 {
        lemma_replaces_node(cx, nodes.last(), dependency);
    } else {
        assert(front[i] == nodes[i]);
        lemma_replaces_nodes(cx, front, dependency);
    }
    references::lemma_in_either(
        collector::nodes_outcome(cx, front),
        collector::node_outcome(cx, nodes.last()),
        dependency,
    );
}

proof fn lemma_replaces_stmt(cx: Context, stmt: Stmt, dependency: DependencyView)
    requires
        stmt_holds(cx.source, stmt, dependency),
        cx.disposition(dependency) is Rewritten,
    ensures
        collector::stmt_outcome(cx, stmt).dependencies.contains(dependency),
    decreases stmt, 0nat,
{
    match stmt {
        Stmt::Try(stmt) => {
            let clauses = collector::clauses_outcome(cx, stmt.clauses@);
            if exists|i: int|
                0 <= i < stmt.clauses@.len() && clause_holds(
                    cx.source,
                    #[trigger] stmt.clauses@[i],
                    dependency,
                ) {
                lemma_replaces_clauses(cx, stmt.clauses@, dependency);
            }
            match dependency::creation_expr(cx.source, stmt.expr) {
                Some(creation) => {
                    let own = creation.in_try(dependency::has_custom_return(stmt.clauses@));
                    let below = collector::nodes_outcome(cx, stmt.expr.children@);
                    let around = cx.enclosing(
                        own,
                        below.dependencies,
                        collector::options_of(stmt.expr),
                    );
                    if nodes_hold(cx.source, stmt.expr.children@, dependency) {
                        lemma_replaces_nodes(cx, stmt.expr.children@, dependency);
                    }
                    if options_free(cx.source, stmt.expr) {
                        lemma_free_options(cx, stmt.expr);
                        lemma_replaced(cx, dependency);
                    }
                    references::lemma_in_either(below, around, dependency);
                    references::lemma_in_either(below.and(around), clauses, dependency);
                },
                None => {
                    if expr_holds(cx.source, stmt.expr, dependency) {
                        lemma_replaces_expr(cx, stmt.expr, dependency);
                    }
                    references::lemma_in_either(
                        collector::expr_outcome(cx, stmt.expr),
                        clauses,
                        dependency,
                    );
                },
            }
        },
        Stmt::Other(nodes) => lemma_replaces_nodes(cx, nodes@, dependency),
    }
}

proof fn lemma_replaces_clauses(cx: Context, clauses: Seq<TryClause>, dependency: DependencyView)
    requires
        exists|i: int|
            0 <= i < clauses.len() && clause_holds(cx.source, #[trigger] clauses[i], dependency),
        cx.disposition(dependency) is Rewritten,
    ensures
        collector::clauses_outcome(cx, clauses).dependencies.contains(dependency),
    decreases clauses, 0nat,
{
    let i = choose|i: int|
        0 <= i < clauses.len() && clause_holds(cx.source, #[trigger] clauses[i], dependency);
    let front = collector::clauses_outcome(cx, clauses.drop_last());
    let args = collector::variables_outcome(cx, clauses.last().args@);
    let body = collector::nodes_outcome(cx, clauses.last().body@);
    if i == clauses.len() - 1 {
        if nodes_hold(cx.source, clauses.last().body@, dependency) {
            lemma_replaces_nodes(cx, clauses.last().body@, dependency);
        } else {
            lemma_replaces_variables(cx, clauses.last().args@, dependency);
        }
    } else {
        assert(clauses.drop_last()[i] == clauses[i]);
        lemma_replaces_clauses(cx, clauses.drop_last(), dependency);
    }
    references::lemma_in_either(front, args, dependency);
    references::lemma_in_either(front.and(args), body, dependency);
}

proof fn lemma_replaces_variables(cx: Context, variables: Seq<Variable>, dependency: DependencyView)
    requires
        exists|i: int|
            0 <= i < variables.len() && nodes_hold(
                cx.source,
                (#[trigger] variables[i]).children@,
                dependency,
            ),
        cx.disposition(dependency) is Rewritten,
    ensures
        collector::variables_outcome(cx, variables).dependencies.contains(dependency),
    decreases variables, 0nat,
{
    let i = choose|i: int|
        0 <= i < variables.len() && nodes_hold(
            cx.source,
            (#[trigger] variables[i]).children@,
            dependency,
        );
    let front = variables.drop_last();
    if i == variables.len() - 1 {
        lemma_replaces_nodes(cx, variables.last().children@, dependency);
    } else {
        assert(front[i] == variables[i]);
        lemma_replaces_variables(cx, front, dependency);
    }
    references::lemma_in_either(
        collector::variables_outcome(cx, front),
        collector::nodes_outcome(cx, variables.last().children@),
        dependency,
    );
}

/// What stands in an item is looked at as the item asks.
spec fn item_context(cx: Context, item: Item) -> Context {
    match item {
        Item::Function(id) => cx.inside(cx.hir.functions@[id as int]),
        Item::Nodes(_) => cx,
    }
}

proof fn lemma_replaces_items(cx: Context, items: Seq<Item>, k: int, dependency: DependencyView)
    requires
        0 <= k < items.len(),
        nodes_hold(cx.source, layout::item_nodes(cx.hir, items[k]), dependency),
        item_context(cx, items[k]).disposition(dependency) is Rewritten,
    ensures
        collector::items_outcome(cx, items).dependencies.contains(dependency),
    decreases items.len(),
{
    if k == items.len() - 1 {
        lemma_replaces_nodes(
            item_context(cx, items[k]),
            layout::item_nodes(cx.hir, items[k]),
            dependency,
        );
    } else {
        assert(items.drop_last()[k] == items[k]);
        lemma_replaces_items(cx, items.drop_last(), k, dependency);
    }
    references::lemma_in_either(
        collector::items_outcome(cx, items.drop_last()),
        collector::item_outcome(cx, items.last()),
        dependency,
    );
}

/// Whether creation code that is read in `item` may be read by a cheatcode: `item` is neither a pure
/// function nor a modifier.
pub open spec fn may_read_state(hir: Hir, item: Item) -> bool {
    item matches Item::Function(id) ==> {
        let function = hir.functions@[id as int];
        &&& function.state_mutability != StateMutability::Pure
        &&& function.kind != FunctionKind::Modifier
    }
}

/// Whether `parameters` are the parameters of the constructor of contract `id`.
pub open spec fn constructor_takes(hir: Hir, id: ContractId, parameters: Seq<TypeKind>) -> bool {
    match hir.contracts@[id as int].ctor {
        Some(ctor) => hir.functions@[ctor as int].parameters@ == parameters,
        None => parameters.len() == 0,
    }
}

/// Whether a contract with these constructor parameters can be created through a helper: the types can
/// be written elsewhere, and a contract that declares a storage layout takes no parameters.
pub open spec fn helper_can_create(hir: Hir, id: ContractId, parameters: Seq<TypeKind>) -> bool {
    &&& forall|p: int|
        0 <= p < parameters.len() ==> reading::innermost(#[trigger] parameters[p]) is Elementary
    &&& hir.contracts@[id as int].has_layout ==> parameters.len() == 0
}

/// Whether contract `id` is no script: it does not lie in the script directory, and no contract from
/// which it inherits, wherever it stands among the bases, is named `Script`.
pub open spec fn no_script(job: Job, id: ContractId, file: Seq<char>) -> bool {
    let bases = job.hir.contracts@[id as int].linearized_bases@;
    &&& !job.script_paths.contains(path::path_components(file))
    &&& forall|i: int|
        1 <= i < bases.len() ==> job.hir.contracts@[(#[trigger] bases[i]) as int].name@ != "Script"@
}

/// Whether `file` is the file that declares contract `id`.
pub open spec fn declared_in(hir: Hir, id: ContractId, file: Seq<char>) -> bool {
    &&& id < hir.contracts@.len()
    &&& hir.sources@[hir.contracts@[id as int].source as int].file is Some
    &&& hir.sources@[hir.contracts@[id as int].source as int].file->0@ == file
}

spec fn contract_context(job: Job, id: ContractId) -> Context {
    Context {
        hir: job.hir,
        source: job.hir.sources@[job.hir.contracts@[id as int].source as int].text@,
        in_sources: job.in_sources(),
        is_script: job.is_script(id),
        preserve_native_creation_code: false,
        force_native: false,
    }
}

proof fn lemma_parameters(hir: Hir, id: ContractId, parameters: Seq<TypeKind>)
    requires
        constructor_takes(hir, id, parameters),
    ensures
        hir.ctor_parameters(id) == parameters,
        helper_can_create(hir, id, parameters) ==> !collector::identity_sensitive(parameters),
        !helper_can_create(hir, id, parameters) ==> collector::identity_sensitive(parameters) || (
        hir.contracts@[id as int].has_layout && parameters.len() > 0),
{
    assert(hir.ctor_parameters(id) =~= parameters);
    assert forall|p: int| 0 <= p < parameters.len() implies dependency::identity_independent(
        #[trigger] parameters[p],
    ) == (reading::innermost(parameters[p]) is Elementary) by {
        reading::law_only_elementary_types_travel(parameters[p]);
    }
}

/// A safe reference is replaced, and not only accounted for: a reference in a test that is no script,
/// to a contract of a source, stands among the replaced ones where the generated code names the same
/// source unit, creation code may be read by a cheatcode, and a creation can go through a helper and
/// has nothing to replace in its options.
pub proof fn law_safe_references_are_replaced(
    job: Job,
    id: ContractId,
    file: Seq<char>,
    k: int,
    dependency: DependencyView,
    target_file: Seq<char>,
    parameters: Seq<TypeKind>,
)
    requires
        declared_in(job.hir, id, file),
        job.paths.contains(path::path_components(file)),
        no_script(job, id, file),
        0 <= k < job.hir.contracts@[id as int].items@.len(),
        nodes_hold(
            job.hir.sources@[job.hir.contracts@[id as int].source as int].text@,
            layout::item_nodes(job.hir, job.hir.contracts@[id as int].items@[k]),
            dependency,
        ),
        declared_in(job.hir, dependency.referenced_contract, target_file),
        job.project_paths.is_source(target_file),
        constructor_takes(job.hir, dependency.referenced_contract, parameters),
        dependency.kind is CreationCode ==> may_read_state(
            job.hir,
            job.hir.contracts@[id as int].items@[k],
        ),
        dependency.kind is New ==> helper_can_create(
            job.hir,
            dependency.referenced_contract,
            parameters,
        ),
        remapping::rewrite_preserves_identity(
            target_file,
            file,
            job.project_paths.root@,
            job.source_units,
            job.project_paths.remappings@,
            dependency.kind is New && parameters.len() > 0,
            dependency.referenced_contract as nat,
        ),
    ensures
        job.preprocessed(job.hir.contracts@.len()).contains_key(id),
        job.preprocessed(job.hir.contracts@.len())[id].contains(dependency),
        deps::referenced(job.preprocessed(job.hir.contracts@.len())).contains(
            dependency.referenced_contract,
        ),
        dependency.kind is New && parameters.len() > 0 ==> deps::helped(
            job.hir,
            job.preprocessed(job.hir.contracts@.len()),
        ).contains(dependency.referenced_contract),
{
    let cx = contract_context(job, id);
    let items = job.hir.contracts@[id as int].items@;
    let n = job.hir.contracts@.len();
    lemma_parameters(job.hir, dependency.referenced_contract, parameters);
    assert(job.in_source(dependency.referenced_contract));
    assert(!job.is_script(id));
    assert(item_context(cx, items[k]).disposition(dependency) is Rewritten);
    lemma_replaces_items(cx, items, k, dependency);
    let all = job.contract_outcome(id).dependencies;
    assert(all == collector::items_outcome(cx, items).dependencies);
    let keep = |dependency: DependencyView| job.rewritable(id, dependency);
    let at = choose|at: int| 0 <= at < all.len() && all[at] == dependency;
    assert(job.rewritable(id, dependency));
    all.lemma_filter_contains(keep, at);
    let replaced = job.rewritten(id);
    assert(replaced.contains(dependency));
    let i = choose|i: int| 0 <= i < replaced.len() && replaced[i] == dependency;
    assert(job.candidate(id));
    assert(job.preprocessed(n)[id][i] == dependency);
}

proof fn lemma_found_in_item(cx: Context, items: Seq<Item>, dependency: DependencyView) -> (k: int)
    requires
        collector::items_outcome(cx, items).dependencies.contains(dependency),
    ensures
        0 <= k < items.len(),
        references::nodes_refer(cx.source, layout::item_nodes(cx.hir, items[k]), dependency),
        item_context(cx, items[k]).disposition(dependency) is Rewritten,
    decreases items.len(),
{
    let last = items.last();
    references::lemma_in_either(
        collector::items_outcome(cx, items.drop_last()),
        collector::item_outcome(cx, last),
        dependency,
    );
    if collector::item_outcome(cx, last).dependencies.contains(dependency) {
        references::lemma_found_nodes(
            item_context(cx, last),
            layout::item_nodes(cx.hir, last),
            dependency,
        );
        items.len() - 1
    } else {
        let k = lemma_found_in_item(cx, items.drop_last(), dependency);
        assert(items.drop_last()[k] == items[k]);
        k
    }
}

/// Nothing else is replaced: what is replaced stands in an item of a test that is no script, refers to
/// a contract of a source that the generated code names under its own source unit, is creation code
/// only where a cheatcode may be called, and a creation only where a helper can make it.
pub proof fn law_unsafe_references_are_kept(
    job: Job,
    id: ContractId,
    dependency: DependencyView,
    parameters: Seq<TypeKind>,
) -> (k: int)
    requires
        job.preprocessed(job.hir.contracts@.len()).contains_key(id),
        job.preprocessed(job.hir.contracts@.len())[id].contains(dependency),
        constructor_takes(job.hir, dependency.referenced_contract, parameters),
    ensures
        ({
            let contract = job.hir.contracts@[id as int];
            let source = job.hir.sources@[contract.source as int];
            let target = dependency.referenced_contract;
            let target_file = job.hir.sources@[job.hir.contracts@[target as int].source as int].file;
            &&& id < job.hir.contracts@.len()
            &&& source.file is Some
            &&& job.paths.contains(path::path_components(source.file->0@))
            &&& no_script(job, id, source.file->0@)
            &&& 0 <= k < contract.items@.len()
            &&& references::nodes_refer(
                source.text@,
                layout::item_nodes(job.hir, contract.items@[k]),
                dependency,
            )
            &&& target < job.hir.contracts@.len()
            &&& target_file is Some
            &&& job.project_paths.is_source(target_file->0@)
            &&& dependency.kind is CreationCode ==> may_read_state(job.hir, contract.items@[k])
            &&& dependency.kind is New ==> helper_can_create(job.hir, target, parameters)
            &&& remapping::rewrite_preserves_identity(
                target_file->0@,
                source.file->0@,
                job.project_paths.root@,
                job.source_units,
                job.project_paths.remappings@,
                dependency.kind is New && parameters.len() > 0,
                target as nat,
            )
        }),
{
    let cx = contract_context(job, id);
    let items = job.hir.contracts@[id as int].items@;
    let all = job.contract_outcome(id).dependencies;
    assert(all == collector::items_outcome(cx, items).dependencies);
    let keep = |dependency: DependencyView| job.rewritable(id, dependency);
    let kept = all.filter(keep);
    assert(job.rewritten(id) == kept);
    let at = choose|at: int| 0 <= at < kept.len() && kept[at] == dependency;
    all.lemma_filter_pred(keep, at);
    all.lemma_filter_contains_rev(keep, dependency);
    let k = lemma_found_in_item(cx, items, dependency);
    lemma_parameters(job.hir, dependency.referenced_contract, parameters);
    assert(!job.is_script(id));
    let bases = job.hir.contracts@[id as int].linearized_bases@;
    assert forall|i: int| 1 <= i < bases.len() implies job.hir.contracts@[(
    #[trigger] bases[i]) as int].name@ != "Script"@ by {
        assert(!deps::inherits_script(job.hir, id));
    }
    k
}

/// A contract in the script directory, and one that inherits from a contract named `Script`, wherever
/// that stands among its bases, has nothing replaced. Where it refers to a contract of a source, its
/// file is linked natively.
pub proof fn law_script_references_stay_native(
    job: Job,
    id: ContractId,
    file: Seq<char>,
    i: int,
    dependency: DependencyView,
    target_file: Seq<char>,
)
    requires
        declared_in(job.hir, id, file),
        job.paths.contains(path::path_components(file)),
        job.script_paths.contains(path::path_components(file)) || (1 <= i
            < job.hir.contracts@[id as int].linearized_bases@.len()
            && job.hir.contracts@[job.hir.contracts@[id as int].linearized_bases@[i] as int].name@
            == "Script"@),
    ensures
        !job.preprocessed(job.hir.contracts@.len()).contains_key(id),
        references::contract_refers(job.hir, id, dependency) && declared_in(
            job.hir,
            dependency.referenced_contract,
            target_file,
        ) && job.project_paths.is_source(target_file) ==> job.native_files().contains(
            path::path_components(path::path_join(job.project_paths.root@, file)),
        ),
{
    let bases = job.hir.contracts@[id as int].linearized_bases@;
    if 1 <= i < bases.len() && job.hir.contracts@[bases[i] as int].name@ == "Script"@ {
        assert(deps::inherits_script(job.hir, id));
    }
    references::law_scripts_are_left_alone(job, id);
    if references::contract_refers(job.hir, id, dependency) && declared_in(
        job.hir,
        dependency.referenced_contract,
        target_file,
    ) && job.project_paths.is_source(target_file) {
        assert(job.candidate(id));
        references::law_no_reference_is_lost(job, id, dependency);
    }
}

/// A test that inherits an implementation of a source is linked natively, whichever of its bases it
/// is: one that can be deployed, or one that lies in the source directory.
pub proof fn law_inherited_implementations_are_native(
    job: Job,
    id: ContractId,
    file: Seq<char>,
    i: int,
    base_file: Seq<char>,
)
    requires
        declared_in(job.hir, id, file),
        job.paths.contains(path::path_components(file)),
        1 <= i < job.hir.contracts@[id as int].linearized_bases@.len(),
        declared_in(job.hir, job.hir.contracts@[id as int].linearized_bases@[i], base_file),
        job.project_paths.is_source(base_file),
        ({
            let base = job.hir.contracts@[job.hir.contracts@[id as int].linearized_bases@[i] as int];
            !base.is_abstract || path::path_in_dir(
                base_file,
                job.project_paths.sources@,
                job.project_paths.root@,
                crate::text::option_view(job.hir.sources@[base.source as int].canonical_file),
                crate::text::option_view(job.project_paths.canonical_sources),
            )
        }),
    ensures
        job.native_files().contains(
            path::path_components(path::path_join(job.project_paths.root@, file)),
        ),
{
    let bases = job.hir.contracts@[id as int].linearized_bases@;
    assert(job.native_base(bases[i]));
    assert(job.native_bases()[bases[i] as int]);
    assert(job.inherits_native(id));
    assert(job.candidate(id));
    assert(job.contract_native(
        job.hir.contracts@.len(),
        path::path_components(path::path_join(job.project_paths.root@, file)),
    ));
}

/// Whether the options of no creation in `expr` hold a reference.
pub open spec fn expr_free(source: Seq<char>, expr: Expr) -> bool
    decreases expr,
{
    options_free(source, expr) && nodes_free(source, expr.children@)
}

/// Whether the options of no creation in `node` hold a reference.
pub open spec fn node_free(source: Seq<char>, node: Node) -> bool
    decreases node,
{
    match node {
        Node::Expr(expr) => expr_free(source, expr),
        Node::Stmt(stmt) => stmt_free(source, stmt),
    }
}

/// Whether the options of no creation in `nodes` hold a reference.
pub open spec fn nodes_free(source: Seq<char>, nodes: Seq<Node>) -> bool
    decreases nodes,
{
    forall|i: int| 0 <= i < nodes.len() ==> node_free(source, #[trigger] nodes[i])
}

/// Whether the options of no creation in `stmt` hold a reference.
pub open spec fn stmt_free(source: Seq<char>, stmt: Stmt) -> bool
    decreases stmt,
{
    match stmt {
        Stmt::Try(stmt) => {
            &&& expr_free(source, stmt.expr)
            &&& forall|i: int|
                0 <= i < stmt.clauses@.len() ==> clause_free(source, #[trigger] stmt.clauses@[i])
        },
        Stmt::Other(nodes) => nodes_free(source, nodes@),
    }
}

/// Whether the options of no creation in `clause` hold a reference.
pub open spec fn clause_free(source: Seq<char>, clause: TryClause) -> bool
    decreases clause,
{
    &&& forall|i: int|
        0 <= i < clause.args@.len() ==> nodes_free(source, (#[trigger] clause.args@[i]).children@)
    &&& nodes_free(source, clause.body@)
}

/// Whether nothing that is referred to below is kept native in `cx`.
spec fn none_native(cx: Context, nodes: Seq<Node>) -> bool {
    forall|d: DependencyView| #[trigger]
        references::nodes_refer(cx.source, nodes, d) ==> cx.disposition(d) !is Native
}

/// Whether nothing that is referred to below counts in `cx`.
spec fn all_ignored(cx: Context, nodes: Seq<Node>) -> bool {
    forall|d: DependencyView| #[trigger]
        references::nodes_refer(cx.source, nodes, d) ==> cx.disposition(d) is Ignored
}

spec fn node_none_native(cx: Context, node: Node) -> bool {
    &&& forall|d: DependencyView| #[trigger]
        references::node_refers(cx.source, node, d) ==> cx.disposition(d) !is Native
    &&& node_free(cx.source, node) || forall|d: DependencyView| #[trigger]
        references::node_refers(cx.source, node, d) ==> cx.disposition(d) is Ignored
}

/// A creation that is not native itself, and has nothing to replace in its options, or does not count,
/// leaves nothing native.
proof fn lemma_own_not_native(cx: Context, expr: Expr, own: DependencyView)
    requires
        cx.disposition(own) !is Native,
        options_free(cx.source, expr) || cx.disposition(own) is Ignored,
    ensures
        !cx.enclosing(
            own,
            collector::nodes_outcome(cx, expr.children@).dependencies,
            collector::options_of(expr),
        ).native,
{
    if options_free(cx.source, expr) {
        lemma_free_options(cx, expr);
    }
}

proof fn lemma_not_native_expr(cx: Context, expr: Expr)
    requires
        node_none_native(cx, Node::Expr(expr)),
    ensures
        !collector::expr_outcome(cx, expr).native,
    decreases expr, 0nat,
{
    assert forall|d: DependencyView| #[trigger]
        references::nodes_refer(cx.source, expr.children@, d) implies references::node_refers(
        cx.source,
        Node::Expr(expr),
        d,
    ) by {}
    lemma_not_native_nodes(cx, expr.children@);
    match dependency::creation_expr(cx.source, expr) {
        Some(own) => {
            assert(references::node_refers(cx.source, Node::Expr(expr), own));
            lemma_own_not_native(cx, expr, own);
        },
        None => match dependency::creation_code(expr) {
            Some(own) => {
                assert(references::node_refers(cx.source, Node::Expr(expr), own));
            },
            None => {},
        },
    }
}

proof fn lemma_not_native_nodes(cx: Context, nodes: Seq<Node>)
    requires
        none_native(cx, nodes),
        nodes_free(cx.source, nodes) || all_ignored(cx, nodes),
    ensures
        !collector::nodes_outcome(cx, nodes).native,
    decreases nodes, 0nat,
{
    if nodes.len() > 0 {
        let front = nodes.drop_last();
        let last = nodes.last();
        assert forall|d: DependencyView| #[trigger]
            references::nodes_refer(cx.source, front, d) implies references::nodes_refer(
            cx.source,
            nodes,
            d,
        ) by {
            let i = choose|i: int|
                0 <= i < front.len() && references::node_refers(cx.source, #[trigger] front[i], d);
            assert(references::node_refers(cx.source, nodes[i], d));
        }
        assert forall|d: DependencyView| #[trigger]
            references::node_refers(cx.source, last, d) implies references::nodes_refer(
            cx.source,
            nodes,
            d,
        ) by {
            assert(references::node_refers(cx.source, nodes[nodes.len() - 1], d));
        }
        if nodes_free(cx.source, nodes) {
            assert forall|i: int| 0 <= i < front.len() implies node_free(
                cx.source,
                #[trigger] front[i],
            ) by {
                assert(front[i] == nodes[i]);
            }
            assert(node_free(cx.source, nodes[nodes.len() - 1]));
        }
        lemma_not_native_nodes(cx, front);
        match last {
            Node::Expr(expr) => lemma_not_native_expr(cx, expr),
            Node::Stmt(stmt) => lemma_not_native_stmt(cx, stmt),
        }
        assert(!collector::node_outcome(cx, last).native);
    }
}

proof fn lemma_not_native_stmt(cx: Context, stmt: Stmt)
    requires
        node_none_native(cx, Node::Stmt(stmt)),
    ensures
        !collector::stmt_outcome(cx, stmt).native,
    decreases stmt, 0nat,
{
    let node = Node::Stmt(stmt);
    match stmt {
        Stmt::Try(stmt) => {
            assert forall|i: int, d: DependencyView|
                0 <= i < stmt.clauses@.len() && #[trigger] references::clause_refers(
                    cx.source,
                    stmt.clauses@[i],
                    d,
                ) implies references::node_refers(cx.source, node, d) by {}
            lemma_not_native_clauses(cx, stmt.clauses@);
            match dependency::creation_expr(cx.source, stmt.expr) {
                Some(creation) => {
                    let own = creation.in_try(dependency::has_custom_return(stmt.clauses@));
                    assert(references::node_refers(cx.source, node, own));
                    assert forall|d: DependencyView| #[trigger]
                        references::nodes_refer(
                            cx.source,
                            stmt.expr.children@,
                            d,
                        ) implies references::node_refers(cx.source, node, d) by {}
                    lemma_not_native_nodes(cx, stmt.expr.children@);
                    lemma_own_not_native(cx, stmt.expr, own);
                },
                None => {
                    assert forall|d: DependencyView| #[trigger]
                        references::node_refers(
                            cx.source,
                            Node::Expr(stmt.expr),
                            d,
                        ) implies references::node_refers(cx.source, node, d) by {}
                    lemma_not_native_expr(cx, stmt.expr);
                },
            }
        },
        Stmt::Other(nodes) => {
            assert forall|d: DependencyView| #[trigger]
                references::nodes_refer(cx.source, nodes@, d) implies references::node_refers(
                cx.source,
                node,
                d,
            ) by {}
            lemma_not_native_nodes(cx, nodes@);
        },
    }
}

proof fn lemma_not_native_clauses(cx: Context, clauses: Seq<TryClause>)
    requires
        forall|i: int, d: DependencyView|
            0 <= i < clauses.len() && #[trigger] references::clause_refers(
                cx.source,
                clauses[i],
                d,
            ) ==> cx.disposition(d) !is Native,
        (forall|i: int| 0 <= i < clauses.len() ==> clause_free(cx.source, #[trigger] clauses[i]))
            || forall|i: int, d: DependencyView|
            0 <= i < clauses.len() && #[trigger] references::clause_refers(
                cx.source,
                clauses[i],
                d,
            ) ==> cx.disposition(d) is Ignored,
    ensures
        !collector::clauses_outcome(cx, clauses).native,
    decreases clauses, 0nat,
{
    if clauses.len() > 0 {
        let front = clauses.drop_last();
        let last = clauses.last();
        assert(forall|i: int| 0 <= i < front.len() ==> #[trigger] front[i] == clauses[i]);
        assert(clauses[clauses.len() - 1] == last);
        lemma_not_native_clauses(cx, front);
        assert forall|d: DependencyView| #[trigger]
            references::nodes_refer(cx.source, last.body@, d) implies references::clause_refers(
            cx.source,
            clauses[clauses.len() - 1],
            d,
        ) by {}
        assert forall|i: int, d: DependencyView|
            0 <= i < last.args@.len() && #[trigger] references::nodes_refer(
                cx.source,
                last.args@[i].children@,
                d,
            ) implies references::clause_refers(cx.source, clauses[clauses.len() - 1], d) by {}
        lemma_not_native_nodes(cx, last.body@);
        lemma_not_native_variables(cx, last.args@);
    }
}

proof fn lemma_not_native_variables(cx: Context, variables: Seq<Variable>)
    requires
        forall|i: int, d: DependencyView|
            0 <= i < variables.len() && #[trigger] references::nodes_refer(
                cx.source,
                variables[i].children@,
                d,
            ) ==> cx.disposition(d) !is Native,
        (forall|i: int|
            0 <= i < variables.len() ==> nodes_free(cx.source, (#[trigger] variables[i]).children@))
            || forall|i: int, d: DependencyView|
            0 <= i < variables.len() && #[trigger] references::nodes_refer(
                cx.source,
                variables[i].children@,
                d,
            ) ==> cx.disposition(d) is Ignored,
    ensures
        !collector::variables_outcome(cx, variables).native,
    decreases variables, 0nat,
{
    if variables.len() > 0 {
        let front = variables.drop_last();
        let last = variables.last();
        assert(forall|i: int| 0 <= i < front.len() ==> #[trigger] front[i] == variables[i]);
        assert(variables[variables.len() - 1] == last);
        assert forall|i: int, d: DependencyView|
            0 <= i < front.len() && #[trigger] references::nodes_refer(
                cx.source,
                front[i].children@,
                d,
            ) implies references::nodes_refer(cx.source, variables[i].children@, d) by {}
        assert forall|d: DependencyView| #[trigger]
            references::nodes_refer(cx.source, last.children@, d) implies references::nodes_refer(
            cx.source,
            variables[variables.len() - 1].children@,
            d,
        ) by {}
        lemma_not_native_variables(cx, front);
        lemma_not_native_nodes(cx, last.children@);
    }
}

proof fn lemma_not_native_items(cx: Context, items: Seq<Item>)
    requires
        forall|k: int|
            0 <= k < items.len() ==> nodes_free(
                cx.source,
                layout::item_nodes(cx.hir, #[trigger] items[k]),
            ) && none_native(item_context(cx, items[k]), layout::item_nodes(cx.hir, items[k])),
    ensures
        !collector::items_outcome(cx, items).native,
    decreases items.len(),
{
    if items.len() > 0 {
        let front = items.drop_last();
        let last = items.last();
        assert(forall|k: int| 0 <= k < front.len() ==> #[trigger] front[k] == items[k]);
        lemma_not_native_items(cx, front);
        assert(items[items.len() - 1] == last);
        lemma_not_native_nodes(item_context(cx, last), layout::item_nodes(cx.hir, last));
        assert(!collector::item_outcome(cx, last).native);
    }
}

proof fn lemma_not_native_functions(cx: Context, functions: Seq<usize>)
    requires
        forall|k: int|
            0 <= k < functions.len() ==> all_ignored(
                cx.inside(cx.hir.functions@[(#[trigger] functions[k]) as int]),
                cx.hir.functions@[functions[k] as int].nodes@,
            ),
    ensures
        !deps::functions_outcome(cx, functions).native,
    decreases functions.len(),
{
    if functions.len() > 0 {
        let front = functions.drop_last();
        let function = cx.hir.functions@[functions.last() as int];
        assert(forall|k: int| 0 <= k < front.len() ==> #[trigger] front[k] == functions[k]);
        lemma_not_native_functions(cx, front);
        assert(functions[functions.len() - 1] == functions.last());
        lemma_not_native_nodes(cx.inside(function), function.nodes@);
    }
}

/// Whether `dependency` refers to a contract that is declared in a source of the project.
pub open spec fn refers_to_source(job: Job, dependency: DependencyView) -> bool {
    let target = dependency.referenced_contract;
    let file = job.hir.sources@[job.hir.contracts@[target as int].source as int].file;
    &&& target < job.hir.contracts@.len()
    &&& file is Some
    &&& job.project_paths.is_source(file->0@)
}

/// Whether contract `id` is an implementation of a source: one that can be deployed, or one that lies
/// in the source directory.
pub open spec fn is_source_implementation(job: Job, id: ContractId) -> bool {
    let contract = job.hir.contracts@[id as int];
    let source = job.hir.sources@[contract.source as int];
    &&& source.file is Some
    &&& job.project_paths.is_source(source.file->0@)
    &&& !contract.is_abstract || path::path_in_dir(
        source.file->0@,
        job.project_paths.sources@,
        job.project_paths.root@,
        crate::text::option_view(source.canonical_file),
        crate::text::option_view(job.project_paths.canonical_sources),
    )
}

/// Whether nothing in contract `id`, which is declared in `file`, has to stay native: it inherits no
/// implementation of a source, and every reference to a source in it is safe.
pub open spec fn contract_is_safe(job: Job, id: ContractId, file: Seq<char>) -> bool {
    let hir = job.hir;
    let contract = hir.contracts@[id as int];
    let source = hir.sources@[contract.source as int].text@;
    &&& forall|i: int|
        1 <= i < contract.linearized_bases@.len() ==> {
            let base = #[trigger] contract.linearized_bases@[i];
            base < hir.contracts@.len() && !is_source_implementation(job, base)
        }
    &&& forall|k: int|
        0 <= k < contract.items@.len() ==> nodes_free(
            source,
            layout::item_nodes(hir, #[trigger] contract.items@[k]),
        )
    &&& forall|k: int, d: DependencyView|
        0 <= k < contract.items@.len() && #[trigger] references::nodes_refer(
            source,
            layout::item_nodes(hir, contract.items@[k]),
            d,
        ) && refers_to_source(job, d) ==> reference_is_safe(job, id, file, contract.items@[k], d)
}

/// Whether a reference to a contract of a source in `item` can be replaced without changing what the
/// test does.
pub open spec fn reference_is_safe(
    job: Job,
    id: ContractId,
    file: Seq<char>,
    item: Item,
    dependency: DependencyView,
) -> bool {
    let target = dependency.referenced_contract;
    &&& no_script(job, id, file)
    &&& dependency.kind is CreationCode ==> may_read_state(job.hir, item)
    &&& forall|parameters: Seq<TypeKind>| #[trigger]
        constructor_takes(job.hir, target, parameters) ==> {
            &&& dependency.kind is New ==> helper_can_create(job.hir, target, parameters)
            &&& remapping::rewrite_preserves_identity(
                job.hir.sources@[job.hir.contracts@[target as int].source as int].file->0@,
                file,
                job.project_paths.root@,
                job.source_units,
                job.project_paths.remappings@,
                dependency.kind is New && parameters.len() > 0,
                target as nat,
            )
        }
}

proof fn lemma_safe_contract(job: Job, id: ContractId, file: Seq<char>)
    requires
        declared_in(job.hir, id, file),
        contract_is_safe(job, id, file),
    ensures
        !job.inherits_native(id),
        !job.keeps_native(id),
{
    let hir = job.hir;
    let cx = contract_context(job, id);
    let contract = hir.contracts@[id as int];
    let items = contract.items@;
    let bases = contract.linearized_bases@;
    if job.inherits_native(id) {
        let i = choose|i: int|
            1 <= i < bases.len() && job.native_bases()[(#[trigger] bases[i]) as int];
        assert(bases[i] < hir.contracts@.len() && !is_source_implementation(job, bases[i]));
        assert(job.native_base(bases[i]));
    }
    assert forall|k: int| 0 <= k < items.len() implies nodes_free(
        cx.source,
        layout::item_nodes(cx.hir, #[trigger] items[k]),
    ) && none_native(item_context(cx, items[k]), layout::item_nodes(cx.hir, items[k])) by {
        let inner = item_context(cx, items[k]);
        let nodes = layout::item_nodes(cx.hir, items[k]);
        assert forall|d: DependencyView| #[trigger]
            references::nodes_refer(inner.source, nodes, d) implies inner.disposition(
            d,
        ) !is Native by {
            if refers_to_source(job, d) {
                assert(reference_is_safe(job, id, file, items[k], d));
                let parameters = hir.ctor_parameters(d.referenced_contract);
                assert(constructor_takes(hir, d.referenced_contract, parameters));
                lemma_parameters(hir, d.referenced_contract, parameters);
                lemma_no_script(job, id, file);
            }
        }
    }
    lemma_not_native_items(cx, items);
    let outcome = job.contract_outcome(id);
    assert(outcome == collector::items_outcome(cx, items));
    assert forall|i: int| 0 <= i < outcome.dependencies.len() implies job.rewritable(
        id,
        #[trigger] outcome.dependencies[i],
    ) by {
        let d = outcome.dependencies[i];
        assert(outcome.dependencies.contains(d));
        let k = lemma_found_in_item(cx, items, d);
        assert(refers_to_source(job, d));
        assert(reference_is_safe(job, id, file, items[k], d));
        let parameters = hir.ctor_parameters(d.referenced_contract);
        assert(constructor_takes(hir, d.referenced_contract, parameters));
    }
}

proof fn lemma_no_script(job: Job, id: ContractId, file: Seq<char>)
    requires
        declared_in(job.hir, id, file),
        no_script(job, id, file),
    ensures
        !job.is_script(id),
{
}

/// A file is linked natively for a reason only: if nothing in its contracts has to stay native, and
/// none of the functions outside of contracts that it holds or imports refers to a contract of a
/// source, it is not.
pub proof fn law_safe_files_are_not_native(job: Job, file: PathId)
    requires
        forall|id: ContractId, name: Seq<char>| #[trigger]
            declared_in(job.hir, id, name) && job.paths.contains(path::path_components(name))
                && path::path_components(path::path_join(job.project_paths.root@, name)) == file
                ==> contract_is_safe(job, id, name),
        forall|s: SourceId, target: SourceId, steps: nat, k: int, d: DependencyView|
            {
                &&& s < job.hir.sources@.len()
                &&& target < job.hir.sources@.len()
                &&& job.hir.sources@[s as int].file is Some
                &&& job.paths.contains(path::path_components(job.hir.sources@[s as int].file->0@))
                &&& path::path_components(
                    path::path_join(
                        job.project_paths.root@,
                        job.hir.sources@[s as int].file->0@,
                    ),
                ) == file
                &&& #[trigger] imports::imports(job.hir, s, target, steps)
                &&& 0 <= k < job.hir.sources@[target as int].functions@.len()
                &&& #[trigger] references::nodes_refer(
                    job.hir.sources@[target as int].text@,
                    job.hir.functions@[job.hir.sources@[target as int].functions@[k] as int].nodes@,
                    d,
                )
            } ==> !refers_to_source(job, d),
    ensures
        !job.native_files().contains(file),
{
    let hir = job.hir;
    let n = hir.contracts@.len();
    let m = hir.sources@.len();
    if job.contract_native(n, file) {
        let id = choose|id: ContractId|
            id < n && #[trigger] job.candidate(id) && (job.inherits_native(id)
                || job.keeps_native(id)) && file == job.full_path(hir.contract_file(id)->0);
        let name = hir.contract_file(id)->0;
        assert(declared_in(hir, id, name));
        lemma_safe_contract(job, id, name);
    }
    if job.source_native(m, file) {
        let s = choose|s: SourceId|
            s < m && #[trigger] job.links_native(s) && job.examines(job.source_file(s)) && file
                == job.full_path(job.source_file(s)->0);
        let (target, steps) = choose|target: SourceId, steps: nat|
            target < m && job.native_functions(target) && #[trigger] imports::imports(
                hir,
                s,
                target,
                steps,
            );
        let source = hir.sources@[target as int];
        let cx = Context {
            hir,
            source: source.text@,
            in_sources: job.in_sources(),
            is_script: false,
            preserve_native_creation_code: false,
            force_native: true,
        };
        assert forall|k: int| 0 <= k < source.functions@.len() implies all_ignored(
            cx.inside(hir.functions@[(#[trigger] source.functions@[k]) as int]),
            hir.functions@[source.functions@[k] as int].nodes@,
        ) by {
            let inner = cx.inside(hir.functions@[source.functions@[k] as int]);
            let nodes = hir.functions@[source.functions@[k] as int].nodes@;
            assert forall|d: DependencyView| #[trigger]
                references::nodes_refer(inner.source, nodes, d) implies inner.disposition(
                d,
            ) is Ignored by {
                assert(!refers_to_source(job, d));
            }
        }
        lemma_not_native_functions(cx, source.functions@);
    }
}

/// A file that holds a contract of a test or script is classified anew, whatever it was before.
pub proof fn law_test_files_are_classified_anew(
    job: Job,
    mocks: Set<PathId>,
    id: ContractId,
    file: Seq<char>,
)
    requires
        declared_in(job.hir, id, file),
        job.paths.contains(path::path_components(file)),
    ensures
        ({
            let full = path::path_components(path::path_join(job.project_paths.root@, file));
            job.mocks_after(mocks).contains(full) == job.native_files().contains(full)
        }),
{
    let full = path::path_components(path::path_join(job.project_paths.root@, file));
    assert(job.candidate(id));
    assert(job.contract_examined(job.hir.contracts@.len(), full));
}

/// A file that is none of the tests and scripts of the job keeps its classification, and a file that
/// is linked natively is always classified so.
pub proof fn law_other_files_keep_their_classification(job: Job, mocks: Set<PathId>, file: PathId)
    ensures
        (forall|s: SourceId|
            s < job.hir.sources@.len() && (#[trigger] job.hir.sources@[s as int]).file is Some
                && job.paths.contains(path::path_components(job.hir.sources@[s as int].file->0@))
                ==> path::path_components(
                path::path_join(job.project_paths.root@, job.hir.sources@[s as int].file->0@),
            ) != file) && job.hir.well_formed() ==> job.mocks_after(mocks).contains(file)
            == mocks.contains(file),
        job.native_files().contains(file) ==> job.mocks_after(mocks).contains(file),
        !job.native_files().contains(file) && !mocks.contains(file) ==> !job.mocks_after(
            mocks,
        ).contains(file),
{
    let n = job.hir.contracts@.len();
    let m = job.hir.sources@.len();
    if job.hir.well_formed() && (forall|s: SourceId|
        s < m && (#[trigger] job.hir.sources@[s as int]).file is Some && job.paths.contains(
            path::path_components(job.hir.sources@[s as int].file->0@),
        ) ==> path::path_components(
            path::path_join(job.project_paths.root@, job.hir.sources@[s as int].file->0@),
        ) != file) {
        if job.contract_examined(n, file) {
            let id = choose|id: ContractId|
                id < n && #[trigger] job.candidate(id) && file == job.full_path(
                    job.hir.contract_file(id)->0,
                );
            assert(job.hir.contract_ok(job.hir.contracts@[id as int]));
            let s = job.hir.contracts@[id as int].source;
            assert(job.hir.sources@[s as int].file is Some);
        }
        if job.source_native(m, file) {
            let s = choose|s: SourceId|
                s < m && #[trigger] job.links_native(s) && job.examines(job.source_file(s)) && file
                    == job.full_path(job.source_file(s)->0);
            assert(job.hir.sources@[s as int].file is Some);
        }
        crate::laws::law_native_files_are_examined(job);
    }
}

/// Whether each of `chain` imports the next.
pub open spec fn import_chain(hir: Hir, chain: Seq<SourceId>) -> bool {
    forall|i: int|
        0 <= i < chain.len() - 1 ==> (#[trigger] hir.sources@[chain[i] as int]).imports@.contains(
            chain[i + 1],
        )
}

proof fn lemma_chain(hir: Hir, chain: Seq<SourceId>)
    requires
        chain.len() > 0,
        import_chain(hir, chain),
    ensures
        imports::imports(hir, chain[0], chain.last(), (chain.len() - 1) as nat),
    decreases chain.len(),
{
    if chain.len() > 1 {
        let rest = chain.drop_first();
        assert forall|i: int| 0 <= i < rest.len() - 1 implies (
        #[trigger] hir.sources@[rest[i] as int]).imports@.contains(rest[i + 1]) by {
            assert(rest[i] == chain[i + 1] && rest[i + 1] == chain[i + 2]);
            assert(hir.sources@[chain[i + 1] as int].imports@.contains(chain[i + 1 + 1]));
        }
        lemma_chain(hir, rest);
        let targets = hir.sources@[chain[0] as int].imports@;
        assert(targets.contains(chain[0int + 1]));
        let k = choose|k: int| 0 <= k < targets.len() && targets[k] == chain[1];
        assert(imports::imports(hir, targets[k], chain.last(), (chain.len() - 2) as nat));
    }
}

proof fn lemma_chain_of(hir: Hir, source: SourceId, target: SourceId, steps: nat) -> (chain: Seq<
    SourceId,
>)
    requires
        imports::imports(hir, source, target, steps),
    ensures
        chain.len() == steps + 1,
        chain[0] == source,
        chain.last() == target,
        import_chain(hir, chain),
    decreases steps,
{
    if steps == 0 {
        seq![source]
    } else {
        let targets = hir.sources@[source as int].imports@;
        let k = choose|k: int|
            0 <= k < targets.len() && imports::imports(
                hir,
                #[trigger] targets[k],
                target,
                (steps - 1) as nat,
            );
        let rest = lemma_chain_of(hir, targets[k], target, (steps - 1) as nat);
        let chain = seq![source] + rest;
        assert forall|i: int| 0 <= i < chain.len() - 1 implies (
        #[trigger] hir.sources@[chain[i] as int]).imports@.contains(chain[i + 1]) by {
            if i > 0 {
                assert(chain[i] == rest[i - 1] && chain[i + 1] == rest[i - 1 + 1]);
                assert(hir.sources@[rest[i - 1] as int].imports@.contains(rest[i - 1 + 1]));
            } else {
                assert(targets[k] == rest[0]);
            }
        }
        chain
    }
}

/// A mark spreads to every source from which a chain of imports, of any length, leads to a marked one,
/// and to no other.
pub proof fn law_marks_spread_along_imports(hir: Hir, seeds: Seq<bool>, source: SourceId)
    ensures
        forall|chain: Seq<SourceId>| #[trigger]
            import_chain(hir, chain) && chain.len() > 0 && chain[0] == source && chain.last()
                < seeds.len() && seeds[chain.last() as int] ==> imports::reaches(hir, seeds, source),
        imports::reaches(hir, seeds, source) ==> exists|chain: Seq<SourceId>| #[trigger]
            import_chain(hir, chain) && chain.len() > 0 && chain[0] == source && chain.last()
                < seeds.len() && seeds[chain.last() as int],
{
    assert forall|chain: Seq<SourceId>| #[trigger]
        import_chain(hir, chain) && chain.len() > 0 && chain[0] == source && chain.last()
            < seeds.len() && seeds[chain.last() as int] implies imports::reaches(
        hir,
        seeds,
        source,
    ) by {
        lemma_chain(hir, chain);
    }
    if imports::reaches(hir, seeds, source) {
        let (target, steps) = choose|target: SourceId, steps: nat|
            target < seeds.len() && seeds[target as int] && #[trigger] imports::imports(
                hir,
                source,
                target,
                steps,
            );
        let chain = lemma_chain_of(hir, source, target, steps);
        assert(import_chain(hir, chain));
    }
}

/// A function outside of any contract that refers to a contract of a source makes every test and
/// script native from which a chain of imports, of any length, leads to it.
pub proof fn law_native_functions_spread_along_imports(
    job: Job,
    chain: Seq<SourceId>,
    k: int,
    dependency: DependencyView,
)
    requires
        chain.len() > 0,
        import_chain(job.hir, chain),
        chain[0] < job.hir.sources@.len(),
        chain.last() < job.hir.sources@.len(),
        job.hir.sources@[chain[0] as int].file is Some,
        job.paths.contains(path::path_components(job.hir.sources@[chain[0] as int].file->0@)),
        0 <= k < job.hir.sources@[chain.last() as int].functions@.len(),
        references::nodes_refer(
            job.hir.sources@[chain.last() as int].text@,
            job.hir.functions@[job.hir.sources@[chain.last() as int].functions@[k] as int].nodes@,
            dependency,
        ),
        refers_to_source(job, dependency),
    ensures
        job.native_files().contains(
            path::path_components(
                path::path_join(
                    job.project_paths.root@,
                    job.hir.sources@[chain[0] as int].file->0@,
                ),
            ),
        ),
{
    lemma_chain(job.hir, chain);
    references::law_no_reference_in_a_free_function_is_lost(job, chain.last(), k, dependency);
    assert(job.examines(job.source_file(chain[0])));
}

/// The replaced references of a contract are those that are handed on, and the contracts that they
/// refer to and create with arguments are noted, and no others.
pub proof fn law_references_are_noted(
    job: Job,
    target: ContractId,
)
    ensures
        ({
            let replaced = job.preprocessed(job.hir.contracts@.len());
            &&& deps::referenced(replaced).contains(target) <==> exists|id: ContractId, i: int|
                replaced.contains_key(id) && 0 <= i < replaced[id].len() && (
                #[trigger] replaced[id][i]).referenced_contract == target
            &&& deps::helped(job.hir, replaced).contains(target) <==> exists|id: ContractId, i: int|
                replaced.contains_key(id) && 0 <= i < replaced[id].len() && (
                #[trigger] replaced[id][i]).referenced_contract == target && replaced[id][i].kind is New
                    && (job.hir.contracts@[target as int].ctor matches Some(ctor)
                    && job.hir.functions@[ctor as int].parameters@.len() > 0)
            &&& forall|id: ContractId| #[trigger] replaced.contains_key(id) ==> replaced[id].len() > 0
        }),
{
    let replaced = job.preprocessed(job.hir.contracts@.len());
    let hir = job.hir;
    assert forall|d: DependencyView| d.referenced_contract == target implies #[trigger] deps::needs_helper(
        hir,
        d,
    ) == (d.kind is New && (hir.contracts@[target as int].ctor matches Some(ctor)
        && hir.functions@[ctor as int].parameters@.len() > 0)) by {}
    if deps::helped(hir, replaced).contains(target) {
        let (id, i) = choose|id: ContractId, i: int|
            replaced.contains_key(id) && 0 <= i < replaced[id].len() && deps::needs_helper(
                hir,
                #[trigger] replaced[id][i],
            ) && replaced[id][i].referenced_contract == target;
        assert(replaced[id][i].referenced_contract == target);
    }
}

/// What becomes of a reference: it is left out if it refers to no source; it stays native where
/// everything does, in a script, in pure code if it is creation code, and if no helper can make it; it
/// is replaced otherwise.
pub proof fn law_references_are_sorted(
    cx: Context,
    dependency: DependencyView,
    parameters: Seq<TypeKind>,
)
    requires
        constructor_takes(cx.hir, dependency.referenced_contract, parameters),
        dependency.referenced_contract < cx.in_sources.len(),
    ensures
        ({
            let target = dependency.referenced_contract;
            let native = {
                ||| cx.force_native
                ||| cx.is_script
                ||| dependency.kind is CreationCode && cx.preserve_native_creation_code
                ||| dependency.kind is New && !helper_can_create(cx.hir, target, parameters)
            };
            let met = cx.collected(dependency);
            if !cx.in_sources[target as int] {
                met.dependencies.len() == 0 && !met.native
            } else if native {
                met.dependencies.len() == 0 && met.native
            } else {
                met.dependencies == seq![dependency] && !met.native
            }
        }),
{
    lemma_parameters(cx.hir, dependency.referenced_contract, parameters);
}

/// A creation stays native where something that is replaced shares a byte with its options, and else
/// becomes what it would without them.
pub proof fn law_replaced_options_keep_a_creation_native(
    cx: Context,
    dependency: DependencyView,
    nested: Seq<DependencyView>,
    options: CallOptions,
    i: int,
)
    requires
        dependency.referenced_contract < cx.in_sources.len(),
    ensures
        0 <= i < nested.len() && nested[i].loc.start < options.span.end && options.span.start
            < nested[i].loc.end ==> {
            let met = cx.enclosing(dependency, nested, Some(options));
            &&& met.dependencies.len() == 0
            &&& met.native == cx.in_sources[dependency.referenced_contract as int]
        },
        (forall|k: int|
            0 <= k < nested.len() ==> (#[trigger] nested[k]).loc.end <= options.span.start
                || options.span.end <= nested[k].loc.start) ==> cx.enclosing(
            dependency,
            nested,
            Some(options),
        ) == cx.collected(dependency),
        cx.enclosing(dependency, nested, None) == cx.collected(dependency),
{
    if 0 <= i < nested.len() && nested[i].loc.start < options.span.end && options.span.start
        < nested[i].loc.end {
        assert(nested[i].loc.meets(options.span));
    }
}

/// References are taken in the order of the nodes: what comes of two lists is what comes of the first,
/// then what comes of the second, and something stays native if it does in either.
pub proof fn law_nodes_are_taken_in_order(cx: Context, front: Seq<Node>, back: Seq<Node>)
    ensures
        collector::nodes_outcome(cx, front + back).dependencies == collector::nodes_outcome(
            cx,
            front,
        ).dependencies + collector::nodes_outcome(cx, back).dependencies,
        collector::nodes_outcome(cx, front + back).native == (collector::nodes_outcome(
            cx,
            front,
        ).native || collector::nodes_outcome(cx, back).native),
    decreases back.len(),
{
    let whole = front + back;
    if back.len() == 0 {
        assert(whole =~= front);
    } else {
        assert(whole.drop_last() =~= front + back.drop_last());
        assert(whole.last() == back.last());
        law_nodes_are_taken_in_order(cx, front, back.drop_last());
    }
}

/// A creation comes behind what it holds, creation code before.
pub proof fn law_creations_come_behind_what_they_hold(
    cx: Context,
    expr: Expr,
    dependency: DependencyView,
)
    ensures
        dependency::creation_expr(cx.source, expr) == Some(dependency) ==> {
            let below = collector::nodes_outcome(cx, expr.children@).dependencies;
            let whole = collector::expr_outcome(cx, expr).dependencies;
            whole == below || whole == below.push(dependency)
        },
        dependency::creation_code(expr) == Some(dependency) ==> {
            let below = collector::nodes_outcome(cx, expr.children@).dependencies;
            let whole = collector::expr_outcome(cx, expr).dependencies;
            whole == below || whole == seq![dependency] + below
        },
        dependency::creation_expr(cx.source, expr) is None && dependency::creation_code(expr) is None
            ==> collector::expr_outcome(cx, expr) == collector::nodes_outcome(cx, expr.children@),
{
    let below = collector::nodes_outcome(cx, expr.children@).dependencies;
    let whole = collector::expr_outcome(cx, expr).dependencies;
    if dependency::creation_expr(cx.source, expr) == Some(dependency) {
        let own = cx.enclosing(dependency, below, collector::options_of(expr)).dependencies;
        assert(own =~= Seq::empty() || own =~= seq![dependency]);
        assert(whole =~= below || whole =~= below.push(dependency));
    } else if dependency::creation_code(expr) == Some(dependency) {
        let own = cx.collected(dependency).dependencies;
        assert(own =~= Seq::empty() || own =~= seq![dependency]);
        assert(whole =~= below || whole =~= seq![dependency] + below);
    }
}

} // verus!
