pub mod interpreter;
pub mod native;
pub mod semantics;
