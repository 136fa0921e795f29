use crate::symbol::Symbol;
use vstd::prelude::*;

verus! {

/// A source-level expression, as far as this layer needs one: enough to name
/// a variable, to write a 64-bit integer literal, and to call a named
/// primitive on an ordered argument list.  Expression reconstruction
/// ([`crate::sort::EGraph::make_expr`]) emits these so a printed result can
/// be re-evaluated.
#[derive(Debug)]
pub enum Expr {
    /// A reference to a declared name.
    Var(Symbol),
    /// A 64-bit integer literal.
    Lit(i64),
    /// A call of the named primitive on the listed arguments.
    Call(Symbol, Vec<Expr>),
}

/// Whether `e` is a variable reference.
pub open spec fn is_var(e: Expr) -> bool {
    match e {
        Expr::Var(_) => true,
        _ => false,
    }
}

/// The name a variable reference carries.
pub open spec fn var_name(e: Expr) -> Symbol {
    match e {
        Expr::Var(s) => s,
        _ => arbitrary(),
    }
}

/// A declaration-time error, surfaced to whoever wrote the schema.
#[derive(Clone, Copy, PartialEq, Eq, Structural, Debug)]
pub enum TypeError {
    /// A type-parameter position named a sort that the registry does not know.
    UndefinedSort(Symbol),
    /// The declaration's type arguments had the wrong shape or arity.
    MalformedDeclaration,
}

} // verus!
