//! References from one contract to the bytecode of another.
use crate::hir::{
    Call, CallOptions, ContractId, Expr, ExprKind, NamedArg, OperandKind, Span, TryClause, TypeKind,
};
use crate::text;
use vstd::prelude::*;

verus! {

/// Represents a bytecode dependency kind.
#[derive(Debug)]
pub enum BytecodeDependencyKind {
    /// `type(Contract).creationCode`
    CreationCode,
    /// `new Contract`.
    New {
        /// Contract name.
        name: String,
        /// Constructor args length.
        args_length: usize,
        /// Constructor call args offset.
        call_args_offset: usize,
        /// `msg.value` (if any) used when creating contract.
        value: Option<String>,
        /// `salt` (if any) used when creating contract.
        salt: Option<String>,
        /// Whether it's a try contract creation statement, with custom return.
        try_stmt: Option<bool>,
    },
}

/// Represents a single bytecode dependency.
#[derive(Debug)]
pub struct BytecodeDependency {
    /// Dependency kind.
    pub kind: BytecodeDependencyKind,
    /// Where the reference stands in its file.
    pub loc: Span,
    /// The referenced contract.
    pub referenced_contract: ContractId,
}

/// A [`BytecodeDependencyKind`] with its text as characters.
pub enum DependencyKindView {
    CreationCode,
    New {
        name: Seq<char>,
        args_length: usize,
        call_args_offset: usize,
        value: Option<Seq<char>>,
        salt: Option<Seq<char>>,
        try_stmt: Option<bool>,
    },
}

/// A [`BytecodeDependency`] with its text as characters.
pub struct DependencyView {
    pub kind: DependencyKindView,
    pub loc: Span,
    pub referenced_contract: ContractId,
}

impl View for BytecodeDependencyKind {
    type V = DependencyKindView;

    open spec fn view(&self) -> DependencyKindView {
        match *self {
            BytecodeDependencyKind::CreationCode => DependencyKindView::CreationCode,
            BytecodeDependencyKind::New {
                name,
                args_length,
                call_args_offset,
                value,
                salt,
                try_stmt,
            } => DependencyKindView::New {
                name: name@,
                args_length,
                call_args_offset,
                value: text::option_view(value),
                salt: text::option_view(salt),
                try_stmt,
            },
        }
    }
}

impl View for BytecodeDependency {
    type V = DependencyView;

    open spec fn view(&self) -> DependencyView {
        DependencyView {
            kind: self.kind@,
            loc: self.loc,
            referenced_contract: self.referenced_contract,
        }
    }
}

impl DependencyView {
    /// The dependency as that of a `try` statement, with or without a custom return.
    pub open spec fn in_try(self, custom_return: bool) -> DependencyView {
        match self.kind {
            DependencyKindView::CreationCode => self,
            DependencyKindView::New {
                name,
                args_length,
                call_args_offset,
                value,
                salt,
                try_stmt,
            } => DependencyView {
                kind: DependencyKindView::New {
                    name,
                    args_length,
                    call_args_offset,
                    value,
                    salt,
                    try_stmt: Some(custom_return),
                },
                ..self
            },
        }
    }

    /// Whether the ends of the ranges that the dependency covers are positions.
    pub open spec fn in_range(self) -> bool {
        match self.kind {
            DependencyKindView::CreationCode => true,
            DependencyKindView::New { args_length, call_args_offset, .. } => {
                &&& self.loc.end + args_length <= usize::MAX
                &&& self.loc.end + call_args_offset <= usize::MAX
            },
        }
    }
}

/// The dependencies in `dependencies`, with their text as characters.
pub open spec fn dependency_views(dependencies: Seq<BytecodeDependency>) -> Seq<DependencyView> {
    dependencies.map_values(|dependency: BytecodeDependency| dependency@)
}

/// The first of `args` with the given name.
pub open spec fn first_named(args: Seq<NamedArg>, name: Seq<char>) -> Option<NamedArg>
    decreases args.len(),
{
    if args.len() == 0 {
        None
    } else if args[0].name@ == name {
        Some(args[0])
    } else {
        first_named(args.drop_first(), name)
    }
}

/// The text in `source` of the option with the given name.
pub open spec fn option_text(
    source: Seq<char>,
    options: Option<CallOptions>,
    name: Seq<char>,
) -> Option<Seq<char>> {
    match options {
        Some(options) => match first_named(options.args@, name) {
            Some(arg) => Some(text::slice_of(source, arg.value.start as int, arg.value.end as int)),
            None => None,
        },
        None => None,
    }
}

/// The dependency that a call at `span` in `source` is, if it creates a contract.
pub open spec fn creation(source: Seq<char>, span: Span, call: Call) -> Option<DependencyView> {
    match call.callee.kind {
        OperandKind::New(ty) => match ty.contract() {
            Some(id) => Some(
                DependencyView {
                    kind: DependencyKindView::New {
                        name: text::slice_of(source, ty.span.start as int, ty.span.end as int),
                        args_length: (span.end - ty.span.end) as usize,
                        call_args_offset: crate::hir::args_offset(call, ty.span.end) as usize,
                        value: option_text(source, call.options, "value"@),
                        salt: option_text(source, call.options, "salt"@),
                        try_stmt: None,
                    },
                    loc: span.up_to(call.callee.span.end),
                    referenced_contract: id,
                },
            ),
            None => None,
        },
        _ => None,
    }
}

/// The dependency that `expr` is, if it creates a contract.
pub open spec fn creation_expr(source: Seq<char>, expr: Expr) -> Option<DependencyView> {
    match expr.kind {
        ExprKind::Call(call) => creation(source, expr.span, call),
        _ => None,
    }
}

/// The dependency that `expr` is, if it reads the creation code of a contract.
pub open spec fn creation_code(expr: Expr) -> Option<DependencyView> {
    match expr.kind {
        ExprKind::Member { object, name } => match object.kind {
            OperandKind::TypeCall(ty) => match ty.contract() {
                Some(id) => if name@ == "creationCode"@ {
                    Some(
                        DependencyView {
                            kind: DependencyKindView::CreationCode,
                            loc: expr.span,
                            referenced_contract: id,
                        },
                    )
                } else {
                    None
                },
                None => None,
            },
            _ => None,
        },
        _ => None,
    }
}

/// Whether the `returns` clause has one variable, of a type named in the source.
pub open spec fn has_custom_return(clauses: Seq<TryClause>) -> bool {
    &&& clauses.len() > 0
    &&& clauses[0].args@.len() == 1
    &&& clauses[0].args@[0].ty is Custom
}

/// Whether the type is made of elementary types alone.
pub open spec fn identity_independent(ty: TypeKind) -> bool
    decreases ty,
{
    match ty {
        TypeKind::Elementary => true,
        TypeKind::Array(element) => identity_independent(*element),
        _ => false,
    }
}

/// Returns whether copying a constructor type into a generated source unit preserves its identity.
pub fn constructor_type_is_identity_independent(ty: &TypeKind) -> (independent: bool)
    ensures
        independent == identity_independent(*ty),
    decreases *ty,
{
    match ty {
        TypeKind::Elementary => true,
        TypeKind::Array(element) => constructor_type_is_identity_independent(element),
        TypeKind::Function | TypeKind::Mapping | TypeKind::Custom(_) | TypeKind::Error => false,
    }
}

/// Extracts the text of the call option with the given name.
pub fn named_arg(src: &str, call_options: &Option<CallOptions>, arg: &str) -> (value: Option<String>)
    requires
        call_options matches Some(options) ==> crate::hir::options_ok(src@, *options),
    ensures
        text::option_view(value) == option_text(src@, *call_options, arg@),
{
    let options = match call_options {
        Some(options) => options,
        None => return None,
    };
    let name = arg.to_owned();
    let mut i: usize = 0;
    assert(options.args@.skip(0) =~= options.args@);
    while i < options.args.len()
        invariant
            call_options == Some(*options),
            name@ == arg@,
            i <= options.args@.len(),
            first_named(options.args@, arg@) == first_named(options.args@.skip(i as int), arg@),
            crate::hir::options_ok(src@, *options),
        decreases options.args@.len() - i,
    {
        let candidate = &options.args[i];
        if candidate.name == name {
            return Some(text::slice(src, candidate.value.start, candidate.value.end));
        }
        assert(options.args@.skip(i as int).drop_first() =~= options.args@.skip(i + 1));
        i = i + 1;
    }
    None
}

/// Extracts the bytecode dependency that the call at `span` is, if it creates a contract.
pub fn handle_call_expr(src: &str, span: Span, call: &Call) -> (dependency: Option<BytecodeDependency>)
    requires
        crate::hir::call_ok(src@, span, *call),
    ensures
        dependency is Some <==> creation(src@, span, *call) is Some,
        dependency matches Some(d) ==> creation(src@, span, *call) == Some(d@),
        dependency matches Some(d) ==> d@.in_range(),
{
    let ty = match &call.callee.kind {
        OperandKind::New(ty) => ty,
        _ => return None,
    };
    let contract_id = match ty.as_contract() {
        Some(id) => id,
        None => return None,
    };
    let name = text::slice(src, ty.span.start, ty.span.end);
    // The offset covers what stands between the created type and the constructor arguments. In
    // `new Counter {value: 333} (address(this))` the replacement removes `{value: 333} (`, and
    // without options it removes the parentheses that close around the callee.
    let call_args_offset: usize = if call.args.len == 0 {
        0
    } else {
        call.args.span.start - ty.span.end
    };
    Some(
        BytecodeDependency {
            kind: BytecodeDependencyKind::New {
                name,
                args_length: span.end - ty.span.end,
                call_args_offset,
                value: named_arg(src, &call.options, "value"),
                salt: named_arg(src, &call.options, "salt"),
                try_stmt: None,
            },
            // The callee excludes parentheses around it, so the range starts at the whole call.
            loc: span.with_end(call.callee.span.end),
            referenced_contract: contract_id,
        },
    )
}

} // verus!
