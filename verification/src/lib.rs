use vstd::prelude::*;

pub mod alias;
pub mod assign;
pub mod check;
pub mod codes;
pub mod const_expr;
pub mod constant;
pub mod conform;
pub mod diagnostics;
pub mod diff;
pub mod diff_laws;
pub mod exhaustive;
pub mod fold;
pub mod infer;
pub mod items;
pub mod normalize;
pub mod syntax;
pub mod text;
pub mod ty;
pub mod ui;

verus! {
}
