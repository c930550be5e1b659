pub mod execution;
pub mod optimize;
pub mod source;
pub mod syntax;
