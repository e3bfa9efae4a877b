//! Where the parts of a contract stand in its file, and why the updates of a contract do not
//! overlap.
use crate::collector;
use crate::collector::{Context, Outcome};
use crate::dependency;
use crate::dependency::{DependencyKindView, DependencyView};
use crate::deps;
use crate::deps::Job;
use crate::hir::{
    Call, ContractId, Expr, ExprKind, Hir, Item, Node, OperandKind, Span, Stmt,
    TryClause, Variable,
};
use crate::path::PathId;
use crate::rewrite;
use crate::rewrite::ContractData;
use crate::updates::UpdateView;
use vstd::prelude::*;

verus! {

impl Span {
    /// The bytes of the range.
    pub open spec fn bytes(self) -> Set<int> {
        Set::new(|p: int| self.start <= p < self.end)
    }
}

/// The bytes of `node`.
pub open spec fn node_bytes(node: Node) -> Set<int>
    decreases node,
{
    match node {
        Node::Expr(expr) => expr.span.bytes(),
        Node::Stmt(stmt) => stmt_bytes(stmt),
    }
}

/// The bytes of `nodes`.
pub open spec fn nodes_bytes(nodes: Seq<Node>) -> Set<int>
    decreases nodes,
{
    if nodes.len() == 0 {
        Set::empty()
    } else {
        nodes_bytes(nodes.drop_last()).union(node_bytes(nodes.last()))
    }
}

/// The bytes of the expressions in `stmt`.
pub open spec fn stmt_bytes(stmt: Stmt) -> Set<int>
    decreases stmt,
{
    match stmt {
        Stmt::Try(stmt) => stmt.expr.span.bytes().union(clauses_bytes(stmt.clauses@)),
        Stmt::Other(nodes) => nodes_bytes(nodes@),
    }
}

/// The bytes of the expressions in `clauses`.
pub open spec fn clauses_bytes(clauses: Seq<TryClause>) -> Set<int>
    decreases clauses,
{
    if clauses.len() == 0 {
        Set::empty()
    } else {
        clauses_bytes(clauses.drop_last()).union(variables_bytes(clauses.last().args@)).union(
            nodes_bytes(clauses.last().body@),
        )
    }
}

/// The bytes of the expressions in `variables`.
pub open spec fn variables_bytes(variables: Seq<Variable>) -> Set<int>
    decreases variables,
{
    if variables.len() == 0 {
        Set::empty()
    } else {
        variables_bytes(variables.drop_last()).union(nodes_bytes(variables.last().children@))
    }
}

/// Whether nothing can stand below `node`.
pub open spec fn bare(node: Node) -> bool {
    node matches Node::Expr(expr) && expr.kind is Other && expr.children@.len() == 0
}

/// Whether a creation of contract `id` at `span` is laid out as `new T{options}(args)`, in
/// parentheses or not: it has arguments where the constructor has parameters, and what stands below
/// it, other than the bare callee, lies in the options or in the arguments.
pub open spec fn creation_laid_out(
    hir: Hir,
    id: ContractId,
    span: Span,
    call: Call,
    type_end: usize,
    children: Seq<Node>,
) -> bool {
    &&& span.start < call.callee.span.end
    &&& call.callee.span.end == type_end
    &&& type_end <= span.end
    &&& call.args.len > 0 ==> type_end <= call.args.span.start <= span.end
    &&& call.args.len > 0 <==> hir.ctor_parameters(id).len() > 0
    &&& forall|i: int|
        0 <= i < children.len() ==> {
            ||| bare(#[trigger] children[i])
            ||| call.options matches Some(options) && node_bytes(children[i]).subset_of(
                options.span.bytes(),
            )
            ||| call.args.len > 0 && node_bytes(children[i]).subset_of(call.args.span.bytes())
        }
}

/// Whether the expression itself is laid out as its kind asks. Below a reference to creation code
/// there is only the bare type.
pub open spec fn head_laid_out(hir: Hir, expr: Expr) -> bool {
    match expr.kind {
        ExprKind::Call(call) => call.callee.kind matches OperandKind::New(ty) ==> (
        ty.contract() matches Some(id) ==> creation_laid_out(
            hir,
            id,
            expr.span,
            call,
            ty.span.end,
            expr.children@,
        )),
        ExprKind::Member { .. } => dependency::creation_code(expr) is Some ==> {
            &&& expr.span.start < expr.span.end
            &&& forall|i: int|
                0 <= i < expr.children@.len() ==> bare(#[trigger] expr.children@[i])
        },
        ExprKind::Other => true,
    }
}

/// Whether `expr` holds what stands below it, and no byte belongs to two parts of it.
pub open spec fn expr_laid_out(hir: Hir, expr: Expr) -> bool
    decreases expr,
{
    &&& head_laid_out(hir, expr)
    &&& nodes_laid_out(hir, expr.children@)
    &&& nodes_bytes(expr.children@).subset_of(expr.span.bytes())
}

/// Whether every expression in `node` is laid out, and no byte belongs to two of its parts.
pub open spec fn node_laid_out(hir: Hir, node: Node) -> bool
    decreases node,
{
    match node {
        Node::Expr(expr) => expr_laid_out(hir, expr),
        Node::Stmt(stmt) => stmt_laid_out(hir, stmt),
    }
}

/// Whether every expression in `nodes` is laid out, and no byte belongs to two of them.
pub open spec fn nodes_laid_out(hir: Hir, nodes: Seq<Node>) -> bool
    decreases nodes,
{
    nodes.len() > 0 ==> {
        &&& nodes_laid_out(hir, nodes.drop_last())
        &&& node_laid_out(hir, nodes.last())
        &&& nodes_bytes(nodes.drop_last()).disjoint(node_bytes(nodes.last()))
    }
}

/// Whether every expression in `stmt` is laid out, and no byte belongs to two of them.
pub open spec fn stmt_laid_out(hir: Hir, stmt: Stmt) -> bool
    decreases stmt,
{
    match stmt {
        Stmt::Try(stmt) => {
            &&& expr_laid_out(hir, stmt.expr)
            &&& clauses_laid_out(hir, stmt.clauses@)
            &&& stmt.expr.span.bytes().disjoint(clauses_bytes(stmt.clauses@))
        },
        Stmt::Other(nodes) => nodes_laid_out(hir, nodes@),
    }
}

/// Whether every expression in `clauses` is laid out, and no byte belongs to two of them.
pub open spec fn clauses_laid_out(hir: Hir, clauses: Seq<TryClause>) -> bool
    decreases clauses,
{
    clauses.len() > 0 ==> {
        let front = clauses_bytes(clauses.drop_last());
        let args = variables_bytes(clauses.last().args@);
        &&& clauses_laid_out(hir, clauses.drop_last())
        &&& variables_laid_out(hir, clauses.last().args@)
        &&& nodes_laid_out(hir, clauses.last().body@)
        &&& front.disjoint(args)
        &&& front.union(args).disjoint(nodes_bytes(clauses.last().body@))
    }
}

/// Whether every expression in `variables` is laid out, and no byte belongs to two of them.
pub open spec fn variables_laid_out(hir: Hir, variables: Seq<Variable>) -> bool
    decreases variables,
{
    variables.len() > 0 ==> {
        &&& variables_laid_out(hir, variables.drop_last())
        &&& nodes_laid_out(hir, variables.last().children@)
        &&& variables_bytes(variables.drop_last()).disjoint(
            nodes_bytes(variables.last().children@),
        )
    }
}

/// What stands in `item`.
pub open spec fn item_nodes(hir: Hir, item: Item) -> Seq<Node> {
    match item {
        Item::Function(id) => hir.functions@[id as int].nodes@,
        Item::Nodes(nodes) => nodes@,
    }
}

/// The bytes of the expressions in `items`.
pub open spec fn items_bytes(hir: Hir, items: Seq<Item>) -> Set<int>
    decreases items.len(),
{
    if items.len() == 0 {
        Set::empty()
    } else {
        items_bytes(hir, items.drop_last()).union(nodes_bytes(item_nodes(hir, items.last())))
    }
}

/// Whether every expression in `items` is laid out, and no byte belongs to two of them.
pub open spec fn items_laid_out(hir: Hir, items: Seq<Item>) -> bool
    decreases items.len(),
{
    items.len() > 0 ==> {
        &&& items_laid_out(hir, items.drop_last())
        &&& nodes_laid_out(hir, item_nodes(hir, items.last()))
        &&& items_bytes(hir, items.drop_last()).disjoint(
            nodes_bytes(item_nodes(hir, items.last())),
        )
    }
}

impl DependencyView {
    /// Where the constructor arguments begin, or what stands in place of them.
    pub open spec fn args_start(self) -> int {
        match self.kind {
            DependencyKindView::CreationCode => self.loc.end as int,
            DependencyKindView::New { call_args_offset, .. } => self.loc.end + call_args_offset,
        }
    }

    /// Where the whole reference ends.
    pub open spec fn whole_end(self) -> int {
        match self.kind {
            DependencyKindView::CreationCode => self.loc.end as int,
            DependencyKindView::New { args_length, .. } => self.loc.end + args_length,
        }
    }

    /// The bytes of the whole reference.
    pub open spec fn bytes(self) -> Set<int> {
        Set::new(|p: int| self.loc.start <= p < self.whole_end())
    }

    /// Whether the reference is not empty, and its parts follow one another.
    pub open spec fn in_order(self) -> bool {
        self.loc.start < self.loc.end <= self.args_start() <= self.whole_end()
    }
}

/// Whether `inner` lies in the constructor arguments of `outer`.
pub open spec fn nests(hir: Hir, outer: DependencyView, inner: DependencyView) -> bool {
    &&& deps::needs_helper(hir, outer)
    &&& outer.args_start() <= inner.loc.start
    &&& inner.whole_end() <= outer.whole_end()
}

/// Whether one of the two references lies behind the other, or in its constructor arguments.
pub open spec fn apart(hir: Hir, a: DependencyView, b: DependencyView) -> bool {
    ||| a.whole_end() <= b.loc.start
    ||| b.whole_end() <= a.loc.start
    ||| nests(hir, a, b)
    ||| nests(hir, b, a)
}

/// Whether the references lie in `bytes`, and any two of them are apart.
pub open spec fn all_apart(hir: Hir, dependencies: Seq<DependencyView>, bytes: Set<int>) -> bool {
    &&& forall|i: int|
        0 <= i < dependencies.len() ==> (#[trigger] dependencies[i]).in_order()
            && dependencies[i].bytes().subset_of(bytes)
    &&& forall|i: int, j: int|
        0 <= i < dependencies.len() && 0 <= j < dependencies.len() && i != j ==> apart(
            hir,
            #[trigger] dependencies[i],
            #[trigger] dependencies[j],
        )
}

proof fn lemma_within(hir: Hir, dependencies: Seq<DependencyView>, part: Set<int>, bytes: Set<int>)
    requires
        all_apart(hir, dependencies, part),
        part.subset_of(bytes),
    ensures
        all_apart(hir, dependencies, bytes),
{
    assert forall|i: int| 0 <= i < dependencies.len() implies (
    #[trigger] dependencies[i]).in_order() && dependencies[i].bytes().subset_of(bytes) by {
        assert(dependencies[i].bytes().subset_of(part));
    }
}

proof fn lemma_disjoint(hir: Hir, a: DependencyView, b: DependencyView, left: Set<int>, right: Set<int>)
    requires
        a.in_order(),
        b.in_order(),
        a.bytes().subset_of(left),
        b.bytes().subset_of(right),
        left.disjoint(right),
    ensures
        apart(hir, a, b),
        apart(hir, b, a),
{
    if b.loc.start < a.whole_end() && a.loc.start < b.whole_end() {
        let p: int = if a.loc.start <= b.loc.start {
            b.loc.start as int
        } else {
            a.loc.start as int
        };
        assert(a.bytes().contains(p) && b.bytes().contains(p));
        assert(left.contains(p) && right.contains(p));
    }
}

proof fn lemma_join(
    hir: Hir,
    front: Seq<DependencyView>,
    left: Set<int>,
    back: Seq<DependencyView>,
    right: Set<int>,
)
    requires
        all_apart(hir, front, left),
        all_apart(hir, back, right),
        left.disjoint(right),
    ensures
        all_apart(hir, front + back, left.union(right)),
{
    let both = front + back;
    let n = front.len() as int;
    assert forall|i: int| 0 <= i < both.len() implies (#[trigger] both[i]).in_order()
        && both[i].bytes().subset_of(left.union(right)) by {
        if i < n {
            assert(both[i] == front[i]);
            assert(front[i].bytes().subset_of(left));
        } else {
            assert(both[i] == back[i - n]);
            assert(back[i - n].bytes().subset_of(right));
        }
    }
    assert forall|i: int, j: int|
        0 <= i < both.len() && 0 <= j < both.len() && i != j implies apart(
        hir,
        #[trigger] both[i],
        #[trigger] both[j],
    ) by {
        if i < n && j < n {
            assert(apart(hir, front[i], front[j]));
        } else if i >= n && j >= n {
            assert(apart(hir, back[i - n], back[j - n]));
        } else if i < n {
            lemma_disjoint(hir, front[i], back[j - n], left, right);
        } else {
            lemma_disjoint(hir, front[j], back[i - n], left, right);
        }
    }
}

/// What is found below a list of nodes is found in one of them.
proof fn lemma_found_in_node(cx: Context, nodes: Seq<Node>, k: int) -> (i: int)
    requires
        0 <= k < collector::nodes_outcome(cx, nodes).dependencies.len(),
    ensures
        0 <= i < nodes.len(),
        collector::node_outcome(cx, nodes[i]).dependencies.contains(
            collector::nodes_outcome(cx, nodes).dependencies[k],
        ),
    decreases nodes.len(),
{
    let front = collector::nodes_outcome(cx, nodes.drop_last()).dependencies;
    let back = collector::node_outcome(cx, nodes.last()).dependencies;
    let found = collector::nodes_outcome(cx, nodes).dependencies;
    assert(found == front + back);
    if k < front.len() {
        let i = lemma_found_in_node(cx, nodes.drop_last(), k);
        assert(nodes.drop_last()[i] == nodes[i]);
        i
    } else {
        assert(back[k - front.len()] == found[k]);
        nodes.len() - 1
    }
}

proof fn lemma_node_of(hir: Hir, nodes: Seq<Node>, i: int)
    requires
        nodes_laid_out(hir, nodes),
        0 <= i < nodes.len(),
    ensures
        node_laid_out(hir, nodes[i]),
        node_bytes(nodes[i]).subset_of(nodes_bytes(nodes)),
    decreases nodes.len(),
{
    if i < nodes.len() - 1 {
        lemma_node_of(hir, nodes.drop_last(), i);
        assert(nodes.drop_last()[i] == nodes[i]);
    }
}

proof fn lemma_bare(cx: Context, node: Node)
    requires
        bare(node),
    ensures
        collector::node_outcome(cx, node).dependencies.len() == 0,
{
    let expr = node->Expr_0;
    assert(collector::nodes_outcome(cx, expr.children@) == Outcome::none());
    assert(collector::expr_outcome(cx, expr) == Outcome::none());
}

/// A creation stands apart from what is replaced below it.
proof fn lemma_creation(cx: Context, expr: Expr, dependency: DependencyView, met: DependencyView)
    requires
        expr_laid_out(cx.hir, expr),
        dependency::creation_expr(cx.source, expr) == Some(met),
        dependency == met || exists|custom: bool| dependency == #[trigger] met.in_try(custom),
        all_apart(
            cx.hir,
            collector::nodes_outcome(cx, expr.children@).dependencies,
            nodes_bytes(expr.children@),
        ),
        forall|i: int, k: int|
            0 <= i < expr.children@.len() && 0 <= k < collector::node_outcome(
                cx,
                expr.children@[i],
            ).dependencies.len() ==> (#[trigger] collector::node_outcome(
                cx,
                expr.children@[i],
            ).dependencies[k]).in_order() && collector::node_outcome(
                cx,
                expr.children@[i],
            ).dependencies[k].bytes().subset_of(node_bytes(expr.children@[i])),
    ensures
        ({
            let below = collector::nodes_outcome(cx, expr.children@);
            all_apart(
                cx.hir,
                below.and(
                    cx.enclosing(dependency, below.dependencies, collector::options_of(expr)),
                ).dependencies,
                expr.span.bytes(),
            )
        }),
{
    let below = collector::nodes_outcome(cx, expr.children@);
    let nested = below.dependencies;
    let options = collector::options_of(expr);
    let whole = below.and(cx.enclosing(dependency, nested, options)).dependencies;
    let call = expr.kind->Call_0;
    let ty = call.callee.kind->New_0;
    lemma_within(cx.hir, nested, nodes_bytes(expr.children@), expr.span.bytes());
    assert(dependency.in_order());
    assert(dependency.whole_end() == expr.span.end);
    assert(dependency.bytes().subset_of(expr.span.bytes()));
    let own = cx.enclosing(dependency, nested, options).dependencies;
    if own.len() == 0 {
        assert(whole =~= nested);
    } else {
        assert(!collector::rewritten_option(nested, options));
        assert(own =~= seq![dependency]);
        assert(whole =~= nested.push(dependency));
        assert forall|k: int| 0 <= k < nested.len() implies nests(
            cx.hir,
            dependency,
            #[trigger] nested[k],
        ) by {
            let i = lemma_found_in_node(cx, expr.children@, k);
            let child = expr.children@[i];
            let in_child = collector::node_outcome(cx, child).dependencies;
            let at = choose|at: int| 0 <= at < in_child.len() && in_child[at] == nested[k];
            assert(in_child[at].in_order() && in_child[at].bytes().subset_of(node_bytes(child)));
            let inner = nested[k];
            assert(inner.bytes().contains(inner.loc.start as int));
            assert(node_bytes(child).contains(inner.loc.start as int));
            if bare(child) {
                lemma_bare(cx, child);
            }
            if let Some(list) = call.options {
                if node_bytes(child).subset_of(list.span.bytes()) {
                    assert(inner.loc.meets(list.span));
                    assert(collector::rewritten_option(nested, options));
                }
            }
            assert(call.args.span.bytes().contains(inner.loc.start as int));
            assert(inner.bytes().subset_of(expr.span.bytes()));
            assert(inner.bytes().contains(inner.whole_end() - 1));
        }
        assert forall|i: int| 0 <= i < whole.len() implies (#[trigger] whole[i]).in_order()
            && whole[i].bytes().subset_of(expr.span.bytes()) by {
            if i < nested.len() {
                assert(whole[i] == nested[i]);
            }
        }
        assert forall|i: int, j: int|
            0 <= i < whole.len() && 0 <= j < whole.len() && i != j implies apart(
            cx.hir,
            #[trigger] whole[i],
            #[trigger] whole[j],
        ) by {
            if i < nested.len() && j < nested.len() {
                assert(apart(cx.hir, nested[i], nested[j]));
            } else if i < nested.len() {
                assert(nests(cx.hir, dependency, nested[i]));
            } else {
                assert(nests(cx.hir, dependency, nested[j]));
            }
        }
    }
}

proof fn lemma_children(cx: Context, expr: Expr)
    requires
        nodes_laid_out(cx.hir, expr.children@),
    ensures
        all_apart(
            cx.hir,
            collector::nodes_outcome(cx, expr.children@).dependencies,
            nodes_bytes(expr.children@),
        ),
        forall|i: int, k: int|
            0 <= i < expr.children@.len() && 0 <= k < collector::node_outcome(
                cx,
                expr.children@[i],
            ).dependencies.len() ==> (#[trigger] collector::node_outcome(
                cx,
                expr.children@[i],
            ).dependencies[k]).in_order() && collector::node_outcome(
                cx,
                expr.children@[i],
            ).dependencies[k].bytes().subset_of(node_bytes(expr.children@[i])),
    decreases expr, 0nat,
{
    let children = expr.children@;
    lemma_nodes(cx, children);
    assert forall|i: int, k: int|
        0 <= i < children.len() && 0 <= k < collector::node_outcome(
            cx,
            children[i],
        ).dependencies.len() implies (#[trigger] collector::node_outcome(
        cx,
        children[i],
    ).dependencies[k]).in_order() && collector::node_outcome(
        cx,
        children[i],
    ).dependencies[k].bytes().subset_of(node_bytes(children[i])) by {
        lemma_node_of(cx.hir, children, i);
        lemma_node(cx, children[i]);
    }
}

proof fn lemma_expr(cx: Context, expr: Expr)
    requires
        expr_laid_out(cx.hir, expr),
    ensures
        all_apart(cx.hir, collector::expr_outcome(cx, expr).dependencies, expr.span.bytes()),
    decreases expr, 1nat,
{
    lemma_children(cx, expr);
    let below = collector::nodes_outcome(cx, expr.children@);
    let whole = collector::expr_outcome(cx, expr).dependencies;
    lemma_within(cx.hir, below.dependencies, nodes_bytes(expr.children@), expr.span.bytes());
    match dependency::creation_expr(cx.source, expr) {
        Some(dependency) => {
            lemma_creation(cx, expr, dependency, dependency);
        },
        None => match dependency::creation_code(expr) {
            Some(dependency) => {
                if below.dependencies.len() > 0 {
                    let i = lemma_found_in_node(cx, expr.children@, 0);
                    lemma_bare(cx, expr.children@[i]);
                }
                assert(whole =~= cx.collected(dependency).dependencies);
                assert(dependency.bytes() =~= expr.span.bytes());
            },
            None => {},
        },
    }
}

proof fn lemma_node(cx: Context, node: Node)
    requires
        node_laid_out(cx.hir, node),
    ensures
        all_apart(cx.hir, collector::node_outcome(cx, node).dependencies, node_bytes(node)),
    decreases node, 0nat,
{
    match node {
        Node::Expr(expr) => lemma_expr(cx, expr),
        Node::Stmt(stmt) => lemma_stmt(cx, stmt),
    }
}

proof fn lemma_nodes(cx: Context, nodes: Seq<Node>)
    requires
        nodes_laid_out(cx.hir, nodes),
    ensures
        all_apart(cx.hir, collector::nodes_outcome(cx, nodes).dependencies, nodes_bytes(nodes)),
    decreases nodes, 0nat,
{
    if nodes.len() > 0 {
        lemma_nodes(cx, nodes.drop_last());
        lemma_node(cx, nodes.last());
        lemma_join(
            cx.hir,
            collector::nodes_outcome(cx, nodes.drop_last()).dependencies,
            nodes_bytes(nodes.drop_last()),
            collector::node_outcome(cx, nodes.last()).dependencies,
            node_bytes(nodes.last()),
        );
    }
}

proof fn lemma_stmt(cx: Context, stmt: Stmt)
    requires
        stmt_laid_out(cx.hir, stmt),
    ensures
        all_apart(cx.hir, collector::stmt_outcome(cx, stmt).dependencies, stmt_bytes(stmt)),
    decreases stmt, 0nat,
{
    match stmt {
        Stmt::Try(stmt) => {
            let custom = dependency::has_custom_return(stmt.clauses@);
            let call = match dependency::creation_expr(cx.source, stmt.expr) {
                Some(dependency) => {
                    let below = collector::nodes_outcome(cx, stmt.expr.children@);
                    below.and(
                        cx.enclosing(
                            dependency.in_try(custom),
                            below.dependencies,
                            collector::options_of(stmt.expr),
                        ),
                    )
                },
                None => collector::expr_outcome(cx, stmt.expr),
            };
            match dependency::creation_expr(cx.source, stmt.expr) {
                Some(dependency) => {
                    lemma_children(cx, stmt.expr);
                    lemma_creation(cx, stmt.expr, dependency.in_try(custom), dependency);
                },
                None => lemma_expr(cx, stmt.expr),
            }
            lemma_clauses(cx, stmt.clauses@);
            lemma_join(
                cx.hir,
                call.dependencies,
                stmt.expr.span.bytes(),
                collector::clauses_outcome(cx, stmt.clauses@).dependencies,
                clauses_bytes(stmt.clauses@),
            );
        },
        Stmt::Other(nodes) => lemma_nodes(cx, nodes@),
    }
}

proof fn lemma_clauses(cx: Context, clauses: Seq<TryClause>)
    requires
        clauses_laid_out(cx.hir, clauses),
    ensures
        all_apart(
            cx.hir,
            collector::clauses_outcome(cx, clauses).dependencies,
            clauses_bytes(clauses),
        ),
    decreases clauses, 0nat,
{
    if clauses.len() > 0 {
        let front = collector::clauses_outcome(cx, clauses.drop_last());
        let args = collector::variables_outcome(cx, clauses.last().args@);
        let body = collector::nodes_outcome(cx, clauses.last().body@);
        let front_bytes = clauses_bytes(clauses.drop_last());
        let args_bytes = variables_bytes(clauses.last().args@);
        lemma_clauses(cx, clauses.drop_last());
        lemma_variables(cx, clauses.last().args@);
        lemma_nodes(cx, clauses.last().body@);
        lemma_join(cx.hir, front.dependencies, front_bytes, args.dependencies, args_bytes);
        lemma_join(
            cx.hir,
            front.and(args).dependencies,
            front_bytes.union(args_bytes),
            body.dependencies,
            nodes_bytes(clauses.last().body@),
        );
    }
}

proof fn lemma_variables(cx: Context, variables: Seq<Variable>)
    requires
        variables_laid_out(cx.hir, variables),
    ensures
        all_apart(
            cx.hir,
            collector::variables_outcome(cx, variables).dependencies,
            variables_bytes(variables),
        ),
    decreases variables, 0nat,
{
    if variables.len() > 0 {
        lemma_variables(cx, variables.drop_last());
        lemma_nodes(cx, variables.last().children@);
        lemma_join(
            cx.hir,
            collector::variables_outcome(cx, variables.drop_last()).dependencies,
            variables_bytes(variables.drop_last()),
            collector::nodes_outcome(cx, variables.last().children@).dependencies,
            nodes_bytes(variables.last().children@),
        );
    }
}

proof fn lemma_items(cx: Context, items: Seq<Item>)
    requires
        items_laid_out(cx.hir, items),
    ensures
        all_apart(
            cx.hir,
            collector::items_outcome(cx, items).dependencies,
            items_bytes(cx.hir, items),
        ),
    decreases items.len(),
{
    if items.len() > 0 {
        let last = items.last();
        let nodes = item_nodes(cx.hir, last);
        lemma_items(cx, items.drop_last());
        match last {
            Item::Function(id) => lemma_nodes(cx.inside(cx.hir.functions@[id as int]), nodes),
            Item::Nodes(_) => lemma_nodes(cx, nodes),
        }
        lemma_join(
            cx.hir,
            collector::items_outcome(cx, items.drop_last()).dependencies,
            items_bytes(cx.hir, items.drop_last()),
            collector::item_outcome(cx, last).dependencies,
            nodes_bytes(nodes),
        );
    }
}

proof fn lemma_filtered(
    hir: Hir,
    dependencies: Seq<DependencyView>,
    keep: spec_fn(DependencyView) -> bool,
    bytes: Set<int>,
)
    requires
        all_apart(hir, dependencies, bytes),
    ensures
        all_apart(hir, dependencies.filter(keep), bytes),
    decreases dependencies.len(),
{
    reveal(Seq::filter);
    if dependencies.len() > 0 {
        let front = dependencies.drop_last();
        let last = dependencies.last();
        assert(all_apart(hir, front, bytes)) by {
            assert forall|i: int| 0 <= i < front.len() implies (#[trigger] front[i]).in_order()
                && front[i].bytes().subset_of(bytes) by {
                assert(front[i] == dependencies[i]);
            }
            assert forall|i: int, j: int|
                0 <= i < front.len() && 0 <= j < front.len() && i != j implies apart(
                hir,
                #[trigger] front[i],
                #[trigger] front[j],
            ) by {
                assert(apart(hir, dependencies[i], dependencies[j]));
            }
        }
        lemma_filtered(hir, front, keep, bytes);
        let kept = front.filter(keep);
        if keep(last) {
            let all = dependencies.filter(keep);
            assert(all == kept.push(last));
            assert(last == dependencies[dependencies.len() - 1]);
            assert forall|i: int| 0 <= i < kept.len() implies apart(hir, #[trigger] kept[i], last)
                && apart(hir, last, kept[i]) by {
                front.lemma_filter_contains_rev(keep, kept[i]);
                let at = choose|at: int| 0 <= at < front.len() && front[at] == kept[i];
                assert(front[at] == dependencies[at]);
                assert(apart(hir, dependencies[at], dependencies[dependencies.len() - 1]));
            }
        }
    }
}

/// Whether all of `bytes` lie before `position`, or all behind it.
pub open spec fn on_one_side(bytes: Set<int>, position: int) -> bool {
    ||| forall|p: int| #[trigger] bytes.contains(p) ==> p < position
    ||| forall|p: int| #[trigger] bytes.contains(p) ==> position <= p
}

/// Whether contract `id` is laid out in its file: see [`items_laid_out`]. Its last function ends
/// between two items.
pub open spec fn contract_laid_out(hir: Hir, id: ContractId) -> bool {
    let contract = hir.contracts@[id as int];
    let items = contract.items@;
    let len = vstd::utf8::encode_utf8(hir.sources@[contract.source as int].text@).len();
    &&& items_laid_out(hir, items)
    &&& len <= usize::MAX
    &&& forall|p: int| #[trigger] items_bytes(hir, items).contains(p) ==> p < len
    &&& rewrite::last_function(items) matches Some(last) ==> {
        let end = hir.functions@[last as int].span.end as int;
        &&& end <= len
        &&& forall|k: int|
            0 <= k < items.len() ==> on_one_side(
                nodes_bytes(item_nodes(hir, #[trigger] items[k])),
                end,
            )
    }
}

/// Whether `data` knows a constructor helper wherever one of `dependencies` needs it.
pub open spec fn helpers_known(
    hir: Hir,
    data: Map<ContractId, ContractData>,
    dependencies: Seq<DependencyView>,
) -> bool {
    forall|i: int|
        0 <= i < dependencies.len() && deps::needs_helper(hir, #[trigger] dependencies[i])
            && data.contains_key(dependencies[i].referenced_contract)
            ==> data[dependencies[i].referenced_contract].has_constructor_data
}

/// Whether the two updates change no byte in common, and neither is made inside the other.
pub open spec fn updates_apart(a: UpdateView, b: UpdateView) -> bool {
    a.end <= b.start || b.end <= a.start
}

/// What is found in a list of items stands on one side of a position between them.
proof fn lemma_found_on_one_side(cx: Context, items: Seq<Item>, position: int, k: int)
    requires
        items_laid_out(cx.hir, items),
        forall|i: int|
            0 <= i < items.len() ==> on_one_side(
                nodes_bytes(item_nodes(cx.hir, #[trigger] items[i])),
                position,
            ),
        0 <= k < collector::items_outcome(cx, items).dependencies.len(),
    ensures
        ({
            let found = collector::items_outcome(cx, items).dependencies[k];
            found.whole_end() <= position || position <= found.loc.start
        }),
    decreases items.len(),
{
    let front = collector::items_outcome(cx, items.drop_last()).dependencies;
    let last = items.last();
    let back = collector::item_outcome(cx, last).dependencies;
    let found = collector::items_outcome(cx, items).dependencies[k];
    assert(collector::items_outcome(cx, items).dependencies == front + back);
    if k < front.len() {
        assert forall|i: int| 0 <= i < items.drop_last().len() implies on_one_side(
            nodes_bytes(item_nodes(cx.hir, #[trigger] items.drop_last()[i])),
            position,
        ) by {
            assert(items.drop_last()[i] == items[i]);
        }
        lemma_found_on_one_side(cx, items.drop_last(), position, k);
    } else {
        let nodes = item_nodes(cx.hir, last);
        match last {
            Item::Function(id) => lemma_nodes(cx.inside(cx.hir.functions@[id as int]), nodes),
            Item::Nodes(_) => lemma_nodes(cx, nodes),
        }
        assert(back[k - front.len()] == found);
        assert(found.in_order() && found.bytes().subset_of(nodes_bytes(nodes)));
        assert(items[items.len() - 1] == last);
        assert(on_one_side(nodes_bytes(nodes), position));
        assert(found.bytes().contains(found.loc.start as int));
        assert(found.bytes().contains(found.whole_end() - 1));
        assert(nodes_bytes(nodes).contains(found.loc.start as int));
        assert(nodes_bytes(nodes).contains(found.whole_end() - 1));
    }
}

/// What replaces a reference lies in it.
proof fn lemma_replacement_within(
    hir: Hir,
    id: nat,
    dependency: DependencyView,
    data: ContractData,
    update: UpdateView,
)
    requires
        dependency.in_order(),
        dependency.whole_end() <= usize::MAX,
        deps::needs_helper(hir, dependency) ==> data.has_constructor_data,
        rewrite::replacement(id, dependency, data).contains(update),
    ensures
        update.start <= update.end,
        dependency.loc.start <= update.start,
        update.end <= dependency.whole_end(),
        deps::needs_helper(hir, dependency) ==> update.end <= dependency.args_start()
            || update.start == dependency.whole_end(),
{
}

/// What is replaced in a contract is apart.
proof fn lemma_rewritten_apart(job: Job, id: ContractId)
    requires
        items_laid_out(job.hir, job.hir.contracts@[id as int].items@),
    ensures
        all_apart(
            job.hir,
            job.rewritten(id),
            items_bytes(job.hir, job.hir.contracts@[id as int].items@),
        ),
{
    let hir = job.hir;
    let contract = hir.contracts@[id as int];
    let cx = Context {
        hir,
        source: hir.sources@[contract.source as int].text@,
        in_sources: job.in_sources(),
        is_script: job.is_script(id),
        preserve_native_creation_code: false,
        force_native: false,
    };
    let all = collector::items_outcome(cx, contract.items@).dependencies;
    assert(all == job.contract_outcome(id).dependencies);
    lemma_items(cx, contract.items@);
    lemma_filtered(
        hir,
        all,
        |dependency: DependencyView| job.rewritable(id, dependency),
        items_bytes(hir, contract.items@),
    );
}

/// What is replaced in a contract ends in its file.
proof fn lemma_in_file(job: Job, id: ContractId, i: int)
    requires
        contract_laid_out(job.hir, id),
        0 <= i < job.rewritten(id).len(),
    ensures
        job.rewritten(id)[i].whole_end() <= vstd::utf8::encode_utf8(
            job.hir.sources@[job.hir.contracts@[id as int].source as int].text@,
        ).len(),
{
    lemma_rewritten_apart(job, id);
    let found = job.rewritten(id)[i];
    assert(found.in_order());
    lemma_ends(found, items_bytes(job.hir, job.hir.contracts@[id as int].items@));
}

/// The updates of a contract do not overlap: any two of them change different bytes, and none is
/// made inside another. This holds of a contract whose expressions nest as the grammar asks, where
/// a constructor helper is known for every creation with arguments.
pub proof fn law_updates_do_not_overlap(
    job: Job,
    id: ContractId,
    data: Map<ContractId, ContractData>,
    a: UpdateView,
    b: UpdateView,
)
    requires
        contract_laid_out(job.hir, id),
        helpers_known(job.hir, data, job.rewritten(id)),
        rewrite::contract_updates(job.hir, data, id, job.rewritten(id)).contains(a),
        rewrite::contract_updates(job.hir, data, id, job.rewritten(id)).contains(b),
    ensures
        a == b || updates_apart(a, b),
{
    let hir = job.hir;
    let contract = hir.contracts@[id as int];
    let items = contract.items@;
    let found = job.rewritten(id);
    let len = vstd::utf8::encode_utf8(hir.sources@[contract.source as int].text@).len();
    let cx = Context {
        hir,
        source: hir.sources@[contract.source as int].text@,
        in_sources: job.in_sources(),
        is_script: job.is_script(id),
        preserve_native_creation_code: false,
        force_native: false,
    };
    let all = collector::items_outcome(cx, items).dependencies;
    assert(all == job.contract_outcome(id).dependencies);
    let keep = |dependency: DependencyView| job.rewritable(id, dependency);
    assert(found == all.filter(keep));
    lemma_rewritten_apart(job, id);
    assert forall|i: int| 0 <= i < found.len() implies (#[trigger] found[i]).whole_end() <= len by {
        lemma_in_file(job, id, i);
    }
    if let Some(last) = rewrite::last_function(items) {
        let end = hir.functions@[last as int].span.end as int;
        assert forall|i: int| 0 <= i < found.len() implies (#[trigger] found[i]).whole_end() <= end
            || end <= found[i].loc.start by {
            all.lemma_filter_contains_rev(keep, found[i]);
            let k = choose|k: int| 0 <= k < all.len() && all[k] == found[i];
            lemma_found_on_one_side(cx, items, end, k);
        }
    }
    let replaced = rewrite::replacements(id as nat, data, found);
    if replaced.contains(a) {
        let i = choose|i: int|
            0 <= i < found.len() && data.contains_key((#[trigger] found[i]).referenced_contract)
                && rewrite::replacement(
                id as nat,
                found[i],
                data[found[i].referenced_contract],
            ).contains(a);
        lemma_replacement_within(hir, id as nat, found[i], data[found[i].referenced_contract], a);
        if replaced.contains(b) {
            let j = choose|j: int|
                0 <= j < found.len() && data.contains_key((#[trigger] found[j]).referenced_contract)
                    && rewrite::replacement(
                    id as nat,
                    found[j],
                    data[found[j].referenced_contract],
                ).contains(b);
            lemma_replacement_within(
                hir,
                id as nat,
                found[j],
                data[found[j].referenced_contract],
                b,
            );
            if i != j {
                assert(apart(hir, found[i], found[j]));
            }
        }
    } else if replaced.contains(b) {
        let j = choose|j: int|
            0 <= j < found.len() && data.contains_key((#[trigger] found[j]).referenced_contract)
                && rewrite::replacement(
                id as nat,
                found[j],
                data[found[j].referenced_contract],
            ).contains(b);
        lemma_replacement_within(hir, id as nat, found[j], data[found[j].referenced_contract], b);
    }
}

/// Whether the two contracts stand side by side in one file: they share no byte, and the last
/// function of each ends before or behind all of the other.
pub open spec fn contracts_apart(hir: Hir, a: ContractId, b: ContractId) -> bool {
    let items_a = hir.contracts@[a as int].items@;
    let items_b = hir.contracts@[b as int].items@;
    &&& hir.contracts@[a as int].source == hir.contracts@[b as int].source
    &&& items_bytes(hir, items_a).disjoint(items_bytes(hir, items_b))
    &&& rewrite::last_function(items_a) matches Some(last) ==> on_one_side(
        items_bytes(hir, items_b),
        hir.functions@[last as int].span.end as int,
    )
    &&& rewrite::last_function(items_b) matches Some(last) ==> on_one_side(
        items_bytes(hir, items_a),
        hir.functions@[last as int].span.end as int,
    )
}

/// Whether `update` lies in a reference in `bytes`.
spec fn in_reference(bytes: Set<int>, update: UpdateView) -> bool {
    exists|found: DependencyView| #[trigger]
        found.in_order() && found.bytes().subset_of(bytes) && found.loc.start <= update.start
            <= update.end <= found.whole_end()
}

/// An update of a contract lies in one of its references, or is made behind its last function or at
/// the end of its file.
proof fn lemma_place(
    job: Job,
    id: ContractId,
    data: Map<ContractId, ContractData>,
    update: UpdateView,
)
    requires
        contract_laid_out(job.hir, id),
        helpers_known(job.hir, data, job.rewritten(id)),
        rewrite::contract_updates(job.hir, data, id, job.rewritten(id)).contains(update),
    ensures
        ({
            let contract = job.hir.contracts@[id as int];
            let items = contract.items@;
            let len = vstd::utf8::encode_utf8(
                job.hir.sources@[contract.source as int].text@,
            ).len();
            ||| in_reference(items_bytes(job.hir, items), update)
            ||| update.start == update.end && update.end == len
            ||| {
                &&& update.start == update.end
                &&& rewrite::last_function(items) matches Some(last) && update.end
                    == job.hir.functions@[last as int].span.end
            }
        }),
{
    let hir = job.hir;
    let found = job.rewritten(id);
    lemma_rewritten_apart(job, id);
    let replaced = rewrite::replacements(id as nat, data, found);
    if replaced.contains(update) {
        let i = choose|i: int|
            0 <= i < found.len() && data.contains_key((#[trigger] found[i]).referenced_contract)
                && rewrite::replacement(
                id as nat,
                found[i],
                data[found[i].referenced_contract],
            ).contains(update);
        let known = data[found[i].referenced_contract];
        assert(found[i].whole_end() <= usize::MAX) by {
            lemma_in_file(job, id, i);
        }
        lemma_replacement_within(hir, id as nat, found[i], known, update);
        assert(found[i].in_order());
    }
}

/// The updates to a file do not overlap, where its contracts are laid out side by side.
pub proof fn law_file_updates_do_not_overlap(
    job: Job,
    data: Map<ContractId, ContractData>,
    file: PathId,
    a: UpdateView,
    b: UpdateView,
)
    requires
        ({
            let n = job.hir.contracts@.len();
            let preprocessed = job.preprocessed(n);
            let updates = rewrite::all_updates(job.hir, data, preprocessed, n);
            &&& forall|id: ContractId| #[trigger]
                rewrite::rewritten_in(job.hir, preprocessed, n, id, file) ==> contract_laid_out(
                    job.hir,
                    id,
                ) && helpers_known(job.hir, data, job.rewritten(id))
            &&& forall|c: ContractId, d: ContractId|
                #[trigger] rewrite::rewritten_in(job.hir, preprocessed, n, c, file)
                    && #[trigger] rewrite::rewritten_in(job.hir, preprocessed, n, d, file) && c != d
                    ==> contracts_apart(job.hir, c, d)
            &&& updates.contains_key(file)
            &&& updates[file].contains(a)
            &&& updates[file].contains(b)
        }),
    ensures
        a == b || updates_apart(a, b),
{
    let hir = job.hir;
    let n = hir.contracts@.len();
    let preprocessed = job.preprocessed(n);
    let c = choose|c: ContractId| #[trigger]
        rewrite::rewritten_in(hir, preprocessed, n, c, file) && rewrite::contract_updates(
            hir,
            data,
            c,
            preprocessed[c],
        ).contains(a);
    let d = choose|d: ContractId| #[trigger]
        rewrite::rewritten_in(hir, preprocessed, n, d, file) && rewrite::contract_updates(
            hir,
            data,
            d,
            preprocessed[d],
        ).contains(b);
    if c == d {
        law_updates_do_not_overlap(job, c, data, a, b);
    } else {
        lemma_place(job, c, data, a);
        lemma_place(job, d, data, b);
        assert(contracts_apart(hir, c, d));
        let left = items_bytes(hir, hir.contracts@[c as int].items@);
        let right = items_bytes(hir, hir.contracts@[d as int].items@);
        if in_reference(left, a) {
            let x = choose|x: DependencyView| #[trigger]
                x.in_order() && x.bytes().subset_of(left) && x.loc.start <= a.start <= a.end
                    <= x.whole_end();
            lemma_ends(x, left);
            if in_reference(right, b) {
                let y = choose|y: DependencyView| #[trigger]
                    y.in_order() && y.bytes().subset_of(right) && y.loc.start <= b.start <= b.end
                        <= y.whole_end();
                if y.loc.start < x.whole_end() && x.loc.start < y.whole_end() {
                    let p: int = if x.loc.start <= y.loc.start {
                        y.loc.start as int
                    } else {
                        x.loc.start as int
                    };
                    assert(x.bytes().contains(p) && y.bytes().contains(p));
                    assert(left.contains(p) && right.contains(p));
                }
            }
        } else if in_reference(right, b) {
            let y = choose|y: DependencyView| #[trigger]
                y.in_order() && y.bytes().subset_of(right) && y.loc.start <= b.start <= b.end
                    <= y.whole_end();
            lemma_ends(y, right);
        }
    }
}

/// The first and the last byte of a reference are bytes of what holds it.
proof fn lemma_ends(found: DependencyView, bytes: Set<int>)
    requires
        found.in_order(),
        found.bytes().subset_of(bytes),
    ensures
        bytes.contains(found.loc.start as int),
        bytes.contains(found.whole_end() - 1),
{
    assert(found.bytes().contains(found.loc.start as int));
    assert(found.bytes().contains(found.whole_end() - 1));
}

impl DependencyView {
    /// Whether the parts of the reference follow one another, and end at a position.
    pub open spec fn ordered(self) -> bool {
        &&& self.loc.start <= self.loc.end
        &&& self.args_start() <= self.whole_end() <= usize::MAX
    }
}

/// Whether the two references have no byte in common, or one lies in the constructor arguments of the
/// other, which is replaced around them.
pub open spec fn replaceable_together(
    data: Map<ContractId, ContractData>,
    a: DependencyView,
    b: DependencyView,
) -> bool {
    ||| a.bytes().disjoint(b.bytes())
    ||| in_kept_arguments(data, a, b)
    ||| in_kept_arguments(data, b, a)
}

/// Whether `inner` lies in the constructor arguments of `outer`, a creation with a known helper.
pub open spec fn in_kept_arguments(
    data: Map<ContractId, ContractData>,
    outer: DependencyView,
    inner: DependencyView,
) -> bool {
    &&& rewrite::uses_helper(data, outer, outer.referenced_contract)
    &&& outer.args_start() <= inner.loc.start
    &&& inner.whole_end() <= outer.whole_end()
}

/// Whether any two references of contracts in `file` can be replaced together.
pub open spec fn file_replaceable(
    hir: Hir,
    data: Map<ContractId, ContractData>,
    preprocessed: Map<ContractId, Seq<DependencyView>>,
    file: PathId,
) -> bool {
    let n = hir.contracts@.len();
    &&& forall|c: ContractId, i: int|
        rewrite::rewritten_in(hir, preprocessed, n, c, file) && 0 <= i < preprocessed[c].len()
            ==> (#[trigger] preprocessed[c][i]).ordered()
    &&& forall|c: ContractId, i: int, d: ContractId, j: int|
        {
            &&& rewrite::rewritten_in(hir, preprocessed, n, c, file)
            &&& rewrite::rewritten_in(hir, preprocessed, n, d, file)
            &&& 0 <= i < preprocessed[c].len()
            &&& 0 <= j < preprocessed[d].len()
            &&& c != d || i != j
        } ==> replaceable_together(
            data,
            #[trigger] preprocessed[c][i],
            #[trigger] preprocessed[d][j],
        )
}

/// An update that replaces text replaces a reference, and the text of a reference is replaced by one
/// update only.
proof fn lemma_wide_update(
    hir: Hir,
    data: Map<ContractId, ContractData>,
    id: ContractId,
    dependencies: Seq<DependencyView>,
    update: UpdateView,
) -> (i: int)
    requires
        forall|i: int| 0 <= i < dependencies.len() ==> (#[trigger] dependencies[i]).ordered(),
        rewrite::contract_updates(hir, data, id, dependencies).contains(update),
        update.start < update.end,
    ensures
        0 <= i < dependencies.len(),
        dependencies[i].loc.start == update.start,
        update.end == if rewrite::uses_helper(
            data,
            dependencies[i],
            dependencies[i].referenced_contract,
        ) {
            dependencies[i].args_start()
        } else {
            dependencies[i].whole_end()
        },
        forall|other: UpdateView| #[trigger]
            rewrite::replacement(
                id as nat,
                dependencies[i],
                data[dependencies[i].referenced_contract],
            ).contains(other) && other.start < other.end ==> other == update,
        data.contains_key(dependencies[i].referenced_contract),
        rewrite::replacement(
            id as nat,
            dependencies[i],
            data[dependencies[i].referenced_contract],
        ).contains(update),
{
    assert(rewrite::replacements(id as nat, data, dependencies).contains(update));
    let i = choose|i: int|
        0 <= i < dependencies.len() && data.contains_key(
            (#[trigger] dependencies[i]).referenced_contract,
        ) && rewrite::replacement(
            id as nat,
            dependencies[i],
            data[dependencies[i].referenced_contract],
        ).contains(update);
    assert(dependencies[i].ordered());
    i
}

/// The updates to a file can be applied together: whatever the references are, if their parts are in
/// order and any two of them have no byte in common, or one lies in the constructor arguments of
/// another that is replaced around them, then no two updates that replace text overlap.
pub proof fn law_replacements_can_be_applied_together(
    hir: Hir,
    data: Map<ContractId, ContractData>,
    preprocessed: Map<ContractId, Seq<DependencyView>>,
    file: PathId,
    a: UpdateView,
    b: UpdateView,
)
    requires
        file_replaceable(hir, data, preprocessed, file),
        rewrite::all_updates(hir, data, preprocessed, hir.contracts@.len()).contains_key(file),
        rewrite::all_updates(hir, data, preprocessed, hir.contracts@.len())[file].contains(a),
        rewrite::all_updates(hir, data, preprocessed, hir.contracts@.len())[file].contains(b),
        a.start < a.end,
        b.start < b.end,
    ensures
        a == b || updates_apart(a, b),
{
    let n = hir.contracts@.len();
    let c = choose|c: ContractId| #[trigger]
        rewrite::rewritten_in(hir, preprocessed, n, c, file) && rewrite::contract_updates(
            hir,
            data,
            c,
            preprocessed[c],
        ).contains(a);
    let d = choose|d: ContractId| #[trigger]
        rewrite::rewritten_in(hir, preprocessed, n, d, file) && rewrite::contract_updates(
            hir,
            data,
            d,
            preprocessed[d],
        ).contains(b);
    let i = lemma_wide_update(hir, data, c, preprocessed[c], a);
    let j = lemma_wide_update(hir, data, d, preprocessed[d], b);
    if c != d || i != j {
        let x = preprocessed[c][i];
        let y = preprocessed[d][j];
        assert(x.ordered() && y.ordered());
        assert(replaceable_together(data, x, y));
        if x.bytes().disjoint(y.bytes()) && a.start < b.end && b.start < a.end {
            let p: int = if a.start <= b.start {
                b.start as int
            } else {
                a.start as int
            };
            assert(x.bytes().contains(p) && y.bytes().contains(p));
        }
    }
}

/// Each reference is replaced once.
pub proof fn law_references_are_replaced_once(job: Job, id: ContractId)
    requires
        items_laid_out(job.hir, job.hir.contracts@[id as int].items@),
    ensures
        job.rewritten(id).no_duplicates(),
{
    lemma_rewritten_apart(job, id);
    let found = job.rewritten(id);
    assert forall|i: int, j: int|
        0 <= i < found.len() && 0 <= j < found.len() && i != j implies found[i] != found[j] by {
        assert(apart(job.hir, found[i], found[j]));
        assert(found[i].in_order());
    }
}

} // verus!
