use vstd::prelude::*;

pub mod assembly;
pub mod codegen;
pub mod executor;
pub mod state;
pub mod x64;

verus! {

/// What generated code reports when it returns.
#[derive(Debug, Clone, Copy, PartialEq, Eq, Structural)]
pub enum RuntimeResultCode {
    /// The program ran to its end. Its number is 0.
    Success,
    /// A read or a write failed. Its number is 1.
    IoError,
}

impl RuntimeResultCode {
    /// Whether the run failed.
    pub fn is_error(self) -> (error: bool)
        ensures
            error == (self != RuntimeResultCode::Success),
    {
        self != RuntimeResultCode::Success
    }

    /// The code that generated code means by `value`. Only 0 and 1 are
    /// codes; no other number is taken for success.
    pub fn try_from(value: u8) -> (code: Result<RuntimeResultCode, &'static str>)
        ensures
            value == 0 ==> code == Ok::<RuntimeResultCode, &'static str>(RuntimeResultCode::Success),
            value == 1 ==> code == Ok::<RuntimeResultCode, &'static str>(
                RuntimeResultCode::IoError,
            ),
            value > 1 ==> code is Err && code->Err_0@ == "Invalid result code"@,
    {
        if value == 0 {
            Ok(RuntimeResultCode::Success)
        } else if value == 1 {
            Ok(RuntimeResultCode::IoError)
        } else {
            Err("Invalid result code")
        }
    }
}

} // verus!
