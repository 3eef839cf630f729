use vstd::prelude::*;

pub mod ir;
pub mod eval;
pub mod context;
pub mod bytecode;
pub mod format;
pub mod dump;
pub mod load;
pub mod analyze;
pub mod rewrite;
pub mod rename;
pub mod sweep;
pub mod compact;
pub mod optimize;
pub mod copies;
pub mod codegen;
pub mod register;
pub mod generate;
pub mod liveness;
pub mod matrix;
pub mod optim;
pub mod layers;
pub mod packrat;
pub mod stream;
pub mod runtime;
pub mod text;

verus! {
}
