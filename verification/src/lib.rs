pub mod ast;
pub mod text;
pub mod subst;
pub mod unify;
pub mod sld;
pub mod parser;
pub mod show;
pub mod roundtrip;
pub mod laws;
pub mod unifier;
pub mod semantics;
pub mod completeness;
