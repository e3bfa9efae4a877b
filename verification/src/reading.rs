//! How references are read from the syntax.
use crate::dependency;
use crate::dependency::DependencyView;
use crate::hir;
use crate::hir::{
    Call, CallOptions, ContractId, Expr, ExprKind, Hir, ItemId, NamedArg, Node, Span, Stmt, TryClause,
    TypeKind,
};
use crate::text;
use vstd::prelude::*;

verus! {

/// The type of the innermost elements of `ty`, or `ty` itself where it is no array.
pub open spec fn innermost(ty: TypeKind) -> TypeKind
    decreases ty,
{
    match ty {
        TypeKind::Array(element) => innermost(*element),
        _ => ty,
    }
}

/// A type can be written in another source unit if it is elementary, or an array, of any depth, of
/// elementary elements.
pub proof fn law_only_elementary_types_travel(ty: TypeKind)
    ensures
        dependency::identity_independent(ty) <==> innermost(ty) is Elementary,
    decreases ty,
{
    if let TypeKind::Array(element) = ty {
        law_only_elementary_types_travel(*element);
    }
}

/// An option is read from the text of the first option with its name, and is missing only if there is
/// none.
pub proof fn law_first_option_counts(
    source: Seq<char>,
    options: CallOptions,
    name: Seq<char>,
    k: int,
)
    requires
        0 <= k < options.args@.len(),
    ensures
        options.args@[k].name@ == name && (forall|j: int|
            0 <= j < k ==> (#[trigger] options.args@[j]).name@ != name) ==> dependency::option_text(
            source,
            Some(options),
            name,
        ) == Some(
            text::slice_of(
                source,
                options.args@[k].value.start as int,
                options.args@[k].value.end as int,
            ),
        ),
        options.args@[k].name@ == name ==> dependency::option_text(source, Some(options), name) is Some,
{
    lemma_first_named(options.args@, name, k);
}

/// There is no text where there is no option with the name.
pub proof fn law_missing_option_has_no_text(
    source: Seq<char>,
    options: Option<CallOptions>,
    name: Seq<char>,
)
    requires
        options matches Some(options) ==> forall|j: int|
            0 <= j < options.args@.len() ==> (#[trigger] options.args@[j]).name@ != name,
    ensures
        dependency::option_text(source, options, name) is None,
{
    if let Some(options) = options {
        lemma_none_named(options.args@, name);
    }
}

proof fn lemma_first_named(args: Seq<NamedArg>, name: Seq<char>, k: int)
    requires
        0 <= k < args.len(),
    ensures
        args[k].name@ == name && (forall|j: int| 0 <= j < k ==> (#[trigger] args[j]).name@ != name)
            ==> dependency::first_named(args, name) == Some(args[k]),
        args[k].name@ == name ==> dependency::first_named(args, name) is Some,
    decreases args.len(),
{
    if k > 0 {
        let rest = args.drop_first();
        assert(rest[k - 1] == args[k]);
        lemma_first_named(rest, name, k - 1);
        if forall|j: int| 0 <= j < k ==> (#[trigger] args[j]).name@ != name {
            assert forall|j: int| 0 <= j < k - 1 implies (#[trigger] rest[j]).name@ != name by {
                assert(rest[j] == args[j + 1]);
            }
            assert(args[0].name@ != name);
        }
    }
}

proof fn lemma_none_named(args: Seq<NamedArg>, name: Seq<char>)
    requires
        forall|j: int| 0 <= j < args.len() ==> (#[trigger] args[j]).name@ != name,
    ensures
        dependency::first_named(args, name) is None,
    decreases args.len(),
{
    if args.len() > 0 {
        let rest = args.drop_first();
        assert forall|j: int| 0 <= j < rest.len() implies (#[trigger] rest[j]).name@ != name by {
            assert(rest[j] == args[j + 1]);
        }
        lemma_none_named(rest, name);
    }
}

/// A creation carries the value and the salt of its call, whatever its constructor arguments are: each
/// is the text of the first option with that name, and is missing only if there is no such option.
pub proof fn law_creation_carries_its_options(
    source: Seq<char>,
    span: Span,
    call: Call,
    creation: DependencyView,
    options: CallOptions,
    k: int,
)
    requires
        dependency::creation(source, span, call) == Some(creation),
        call.options == Some(options),
        0 <= k < options.args@.len(),
        forall|j: int|
            0 <= j < k ==> (#[trigger] options.args@[j]).name@ != options.args@[k].name@,
    ensures
        ({
            let written = Some(
                text::slice_of(
                    source,
                    options.args@[k].value.start as int,
                    options.args@[k].value.end as int,
                ),
            );
            &&& creation.kind is New
            &&& options.args@[k].name@ == "salt"@ ==> creation.kind->salt == written
            &&& options.args@[k].name@ == "value"@ ==> creation.kind->value == written
        }),
{
    law_first_option_counts(source, options, "salt"@, k);
    law_first_option_counts(source, options, "value"@, k);
}

/// A creation has no salt, or no value, where its call has no option with that name.
pub proof fn law_creation_invents_no_options(
    source: Seq<char>,
    span: Span,
    call: Call,
    creation: DependencyView,
)
    requires
        dependency::creation(source, span, call) == Some(creation),
    ensures
        creation.kind is New,
        (call.options matches Some(options) ==> forall|j: int|
            0 <= j < options.args@.len() ==> (#[trigger] options.args@[j]).name@ != "salt"@)
            ==> creation.kind->salt is None,
        (call.options matches Some(options) ==> forall|j: int|
            0 <= j < options.args@.len() ==> (#[trigger] options.args@[j]).name@ != "value"@)
            ==> creation.kind->value is None,
{
    if call.options matches Some(options) ==> forall|j: int|
        0 <= j < options.args@.len() ==> (#[trigger] options.args@[j]).name@ != "salt"@ {
        law_missing_option_has_no_text(source, call.options, "salt"@);
    }
    if call.options matches Some(options) ==> forall|j: int|
        0 <= j < options.args@.len() ==> (#[trigger] options.args@[j]).name@ != "value"@ {
        law_missing_option_has_no_text(source, call.options, "value"@);
    }
}

/// A call is a creation exactly where its callee is `new` of a contract, and then it refers to that
/// contract, and bears no mark of a `try` statement yet.
pub proof fn law_new_of_a_contract_is_a_creation(
    source: Seq<char>,
    span: Span,
    call: Call,
    id: ContractId,
)
    ensures
        call.callee.kind is New && call.callee.kind->New_0.kind == TypeKind::Custom(
            ItemId::Contract(id),
        ) ==> dependency::creation(source, span, call) is Some,
        dependency::creation(source, span, call) matches Some(creation) ==> {
            &&& call.callee.kind is New
            &&& call.callee.kind->New_0.kind == TypeKind::Custom(
                ItemId::Contract(creation.referenced_contract),
            )
            &&& creation.kind is New
            &&& creation.kind->try_stmt is None
        },
{
}

/// An expression is a creation exactly where it is a call that is one.
pub proof fn law_creation_is_a_call(source: Seq<char>, expr: Expr)
    ensures
        expr.kind matches ExprKind::Call(call) ==> dependency::creation_expr(source, expr)
            == dependency::creation(source, expr.span, call),
        !(expr.kind is Call) ==> dependency::creation_expr(source, expr) is None,
{
}

/// An expression refers to creation code exactly where it is the member `creationCode` of the type of
/// a contract, and then the whole expression is the reference.
pub proof fn law_creation_code_is_a_member(expr: Expr, id: ContractId)
    ensures
        expr.kind is Member && expr.kind->name@ == "creationCode"@ && expr.kind->object.kind is TypeCall
            && expr.kind->object.kind->TypeCall_0.kind == TypeKind::Custom(ItemId::Contract(id))
            ==> dependency::creation_code(expr) is Some,
        dependency::creation_code(expr) matches Some(found) ==> {
            &&& expr.kind is Member
            &&& expr.kind->name@ == "creationCode"@
            &&& expr.kind->object.kind is TypeCall
            &&& expr.kind->object.kind->TypeCall_0.kind == TypeKind::Custom(
                ItemId::Contract(found.referenced_contract),
            )
            &&& found.loc == expr.span
            &&& found.kind is CreationCode
        },
{
}

/// A `try` statement marks its creation, and changes nothing else of it. The mark says whether the
/// first clause declares one variable, of a type that is named in the source.
pub proof fn law_try_only_marks(creation: DependencyView, clauses: Seq<TryClause>)
    requires
        creation.kind is New,
    ensures
        ({
            let marked = creation.in_try(dependency::has_custom_return(clauses));
            &&& marked.loc == creation.loc
            &&& marked.referenced_contract == creation.referenced_contract
            &&& marked.kind is New
            &&& marked.kind->name == creation.kind->name
            &&& marked.kind->args_length == creation.kind->args_length
            &&& marked.kind->call_args_offset == creation.kind->call_args_offset
            &&& marked.kind->value == creation.kind->value
            &&& marked.kind->salt == creation.kind->salt
            &&& marked.kind->try_stmt is Some
            &&& marked.kind->try_stmt->0 <==> (clauses.len() > 0 && clauses[0].args@.len() == 1
                && clauses[0].args@[0].ty is Custom)
        }),
{
}

/// Two ranges meet exactly where they have a byte in common.
pub proof fn law_ranges_meet_in_a_byte(a: Span, b: Span)
    requires
        a.start < a.end,
        b.start < b.end,
    ensures
        a.meets(b) <==> exists|p: int| #[trigger] in_range(a, p) && in_range(b, p),
{
    if a.meets(b) {
        let p: int = if a.start <= b.start {
            b.start as int
        } else {
            a.start as int
        };
        assert(in_range(a, p) && in_range(b, p));
    }
}

/// Whether `p` is a byte of `span`.
pub open spec fn in_range(span: Span, p: int) -> bool {
    span.start <= p < span.end
}

/// A range up to a position lies between the start of the range and that position.
pub proof fn law_range_reaches_the_position(span: Span, end: usize)
    ensures
        span.start <= end ==> span.up_to(end).start == span.start && span.up_to(end).end == end,
        end < span.start ==> span.up_to(end).start == end && span.up_to(end).end == span.start,
{
}

/// A creation can be read exactly where its type and the values of its options stand in the text, the
/// type ends in the call and before the arguments, and the ends that are computed from it are
/// positions. Any other call can be read.
pub proof fn law_creation_that_fits_can_be_read(source: Seq<char>, span: Span, call: Call)
    ensures
        !(call.callee.kind is New && call.callee.kind->New_0.kind is Custom
            && call.callee.kind->New_0.kind->Custom_0 is Contract) ==> hir::call_ok(
            source,
            span,
            call,
        ),
        call.callee.kind is New && call.callee.kind->New_0.kind is Custom
            && call.callee.kind->New_0.kind->Custom_0 is Contract ==> (hir::call_ok(
            source,
            span,
            call,
        ) <==> {
            let ty = call.callee.kind->New_0.span;
            let end = if span.start <= call.callee.span.end {
                call.callee.span.end
            } else {
                span.start
            };
            &&& text::is_slice(source, ty.start as int, ty.end as int)
            &&& ty.end <= span.end
            &&& end + (span.end - ty.end) <= usize::MAX
            &&& call.args.len > 0 ==> ty.end <= call.args.span.start && end + (call.args.span.start
                - ty.end) <= usize::MAX
            &&& call.options is Some ==> forall|i: int|
                0 <= i < call.options->0.args@.len() ==> text::is_slice(
                    source,
                    (#[trigger] call.options->0.args@[i]).value.start as int,
                    call.options->0.args@[i].value.end as int,
                )
        }),
{
}

/// An expression can be read where what stands below it can be read, a creation that it is can be
/// read, and a contract to which it refers is there. A list can be read where each node of it can.
pub proof fn law_readable_parts_make_a_readable_whole(
    contracts: nat,
    source: Seq<char>,
    expr: Expr,
    stmt: Stmt,
    front: Seq<Node>,
    back: Seq<Node>,
)
    ensures
        hir::expr_ok(contracts, source, expr) <==> {
            &&& hir::nodes_ok(contracts, source, expr.children@)
            &&& expr.kind is Call ==> hir::call_ok(source, expr.span, expr.kind->Call_0)
            &&& dependency::creation_expr(source, expr) is Some ==> dependency::creation_expr(
                source,
                expr,
            )->0.referenced_contract < contracts
            &&& expr.kind is Member && expr.kind->object.kind is TypeCall
                && expr.kind->object.kind->TypeCall_0.kind is Custom
                && expr.kind->object.kind->TypeCall_0.kind->Custom_0 is Contract
                ==> expr.kind->object.kind->TypeCall_0.kind->Custom_0->Contract_0 < contracts
        },
        hir::nodes_ok(contracts, source, front + back) <==> hir::nodes_ok(contracts, source, front)
            && hir::nodes_ok(contracts, source, back),
        hir::nodes_ok(contracts, source, seq![Node::Expr(expr)]) <==> hir::expr_ok(
            contracts,
            source,
            expr,
        ),
        hir::nodes_ok(contracts, source, seq![Node::Stmt(stmt)]) <==> hir::stmt_ok(
            contracts,
            source,
            stmt,
        ),
        stmt is Other ==> (hir::stmt_ok(contracts, source, stmt) <==> hir::nodes_ok(
            contracts,
            source,
            stmt->Other_0@,
        )),
        stmt is Try ==> (hir::stmt_ok(contracts, source, stmt) <==> {
            &&& hir::expr_ok(contracts, source, stmt->Try_0.expr)
            &&& forall|i: int|
                0 <= i < stmt->Try_0.clauses@.len() ==> {
                    let clause = #[trigger] stmt->Try_0.clauses@[i];
                    &&& hir::nodes_ok(contracts, source, clause.body@)
                    &&& forall|j: int|
                        0 <= j < clause.args@.len() ==> hir::nodes_ok(
                            contracts,
                            source,
                            (#[trigger] clause.args@[j]).children@,
                        )
                }
        }),
{
    let both = front + back;
    if hir::nodes_ok(contracts, source, both) {
        assert forall|i: int| 0 <= i < front.len() implies hir::node_ok(
            contracts,
            source,
            #[trigger] front[i],
        ) by {
            assert(both[i] == front[i]);
        }
        assert forall|i: int| 0 <= i < back.len() implies hir::node_ok(
            contracts,
            source,
            #[trigger] back[i],
        ) by {
            assert(both[front.len() + i] == back[i]);
        }
    }
    let one = seq![Node::Expr(expr)];
    assert(one[0] == Node::Expr(expr));
    let other = seq![Node::Stmt(stmt)];
    assert(other[0] == Node::Stmt(stmt));
    if hir::nodes_ok(contracts, source, one) {
        assert(hir::node_ok(contracts, source, one[0]));
    }
    if hir::nodes_ok(contracts, source, other) {
        assert(hir::node_ok(contracts, source, other[0]));
    }
    if let Stmt::Try(inner) = stmt {
        assert forall|i: int| 0 <= i < inner.clauses@.len() implies hir::clause_ok(
            contracts,
            source,
            #[trigger] inner.clauses@[i],
        ) == {
            let clause = inner.clauses@[i];
            &&& hir::nodes_ok(contracts, source, clause.body@)
            &&& forall|j: int|
                0 <= j < clause.args@.len() ==> hir::nodes_ok(
                    contracts,
                    source,
                    (#[trigger] clause.args@[j]).children@,
                )
        } by {}
    }
}

/// A syntax is well formed where every index is that of something that is there, and what stands in
/// the contracts and in the functions outside of them can be read from the text of its file.
pub proof fn law_readable_syntax_is_well_formed(hir: Hir)
    ensures
        hir.well_formed() <==> {
            let n = hir.contracts@.len();
            &&& forall|c: int|
                0 <= c < n ==> {
                    let contract = #[trigger] hir.contracts@[c];
                    &&& contract.source < hir.sources@.len()
                    &&& contract.ctor is Some ==> contract.ctor->0 < hir.functions@.len()
                    &&& forall|i: int|
                        0 <= i < contract.linearized_bases@.len()
                            ==> #[trigger] contract.linearized_bases@[i] < n
                    &&& forall|i: int|
                        0 <= i < contract.items@.len() ==> {
                            let item = #[trigger] contract.items@[i];
                            let text = hir.sources@[contract.source as int].text@;
                            &&& item is Nodes ==> hir::nodes_ok(n, text, item->Nodes_0@)
                            &&& item is Function ==> item->Function_0 < hir.functions@.len()
                                && hir::nodes_ok(
                                n,
                                text,
                                hir.functions@[item->Function_0 as int].nodes@,
                            )
                        }
                }
            &&& forall|s: int|
                0 <= s < hir.sources@.len() ==> {
                    let source = #[trigger] hir.sources@[s];
                    &&& forall|i: int|
                        0 <= i < source.imports@.len() ==> #[trigger] source.imports@[i]
                            < hir.sources@.len()
                    &&& forall|i: int|
                        0 <= i < source.functions@.len() ==> {
                            let function = #[trigger] source.functions@[i];
                            function < hir.functions@.len() && hir::nodes_ok(
                                n,
                                source.text@,
                                hir.functions@[function as int].nodes@,
                            )
                        }
                }
        },
{
    let n = hir.contracts@.len();
    assert forall|c: int| 0 <= c < n implies hir.contract_ok(#[trigger] hir.contracts@[c]) == {
        let contract = hir.contracts@[c];
        &&& contract.source < hir.sources@.len()
        &&& contract.ctor is Some ==> contract.ctor->0 < hir.functions@.len()
        &&& forall|i: int|
            0 <= i < contract.linearized_bases@.len() ==> #[trigger] contract.linearized_bases@[i]
                < n
        &&& forall|i: int|
            0 <= i < contract.items@.len() ==> {
                let item = #[trigger] contract.items@[i];
                let text = hir.sources@[contract.source as int].text@;
                &&& item is Nodes ==> hir::nodes_ok(n, text, item->Nodes_0@)
                &&& item is Function ==> item->Function_0 < hir.functions@.len() && hir::nodes_ok(
                    n,
                    text,
                    hir.functions@[item->Function_0 as int].nodes@,
                )
            }
    } by {
        let contract = hir.contracts@[c];
        let text = hir.sources@[contract.source as int].text@;
        assert forall|i: int| 0 <= i < contract.items@.len() implies hir.item_ok(
            text,
            #[trigger] contract.items@[i],
        ) == {
            let item = contract.items@[i];
            &&& item is Nodes ==> hir::nodes_ok(n, text, item->Nodes_0@)
            &&& item is Function ==> item->Function_0 < hir.functions@.len() && hir::nodes_ok(
                n,
                text,
                hir.functions@[item->Function_0 as int].nodes@,
            )
        } by {}
    }
    assert forall|s: int| 0 <= s < hir.sources@.len() implies hir.source_ok(
        #[trigger] hir.sources@[s],
    ) == {
        let source = hir.sources@[s];
        &&& forall|i: int|
            0 <= i < source.imports@.len() ==> #[trigger] source.imports@[i] < hir.sources@.len()
        &&& forall|i: int|
            0 <= i < source.functions@.len() ==> {
                let function = #[trigger] source.functions@[i];
                function < hir.functions@.len() && hir::nodes_ok(
                    n,
                    source.text@,
                    hir.functions@[function as int].nodes@,
                )
            }
    } by {
        let source = hir.sources@[s];
        assert forall|i: int| 0 <= i < source.functions@.len() implies hir.function_ok(
            source.text@,
            #[trigger] source.functions@[i],
        ) == (source.functions@[i] < hir.functions@.len() && hir::nodes_ok(
            n,
            source.text@,
            hir.functions@[source.functions@[i] as int].nodes@,
        )) by {}
    }
}

} // verus!
