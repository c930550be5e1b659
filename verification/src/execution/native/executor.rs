use crate::execution::native::assembly::{buffer_bytes, copy_of};
use crate::execution::native::codegen::CodegenError;
use vstd::prelude::*;

verus! {

/// Generated code in executable memory, and the offset of its entry.
pub struct NativeExecutor {
    code: dynasmrt::ExecutableBuffer,
    code_start: usize,
}

impl NativeExecutor {
    /// The bytes of the code.
    pub closed spec fn code_bytes(&self) -> Seq<u8> {
        buffer_bytes(self.code)
    }

    /// The offset of the entry.
    pub closed spec fn entry(&self) -> int {
        self.code_start as int
    }

    /// An executor of `code`, entered at `code_start`.
    pub fn new(code: dynasmrt::ExecutableBuffer, code_start: usize) -> (executor: NativeExecutor)
        ensures
            executor.code_bytes() == buffer_bytes(code),
            executor.entry() == code_start,
    {
        NativeExecutor { code, code_start }
    }

    /// What finalizing came to: an executor of the code, entered at
    /// `code_start`, where there is code, and `FinalizeFailed` where there is
    /// none.
    pub fn finalized(code: Option<dynasmrt::ExecutableBuffer>, code_start: usize) -> (result:
        Result<NativeExecutor, CodegenError>)
        ensures
            match code {
                Some(code) => result is Ok && result->Ok_0.code_bytes() == buffer_bytes(code)
                    && result->Ok_0.entry() == code_start,
                None => result is Err && result->Err_0 == CodegenError::FinalizeFailed,
            },
    {
        match code {
            Some(code) => Ok(NativeExecutor::new(code, code_start)),
            None => Err(CodegenError::FinalizeFailed),
        }
    }

    /// The bytes of the code, copied.
    pub fn code(&self) -> (bytes: Vec<u8>)
        ensures
            bytes@ == self.code_bytes(),
    {
        copy_of(&self.code)
    }

    /// The offset of the entry.
    pub fn code_start(&self) -> (offset: usize)
        ensures
            offset == self.entry(),
    {
        self.code_start
    }

    /// The executable memory that holds the code.
    pub fn buffer(&self) -> (code: &dynasmrt::ExecutableBuffer)
        ensures
            buffer_bytes(*code) == self.code_bytes(),
    {
        &self.code
    }
}

} // verus!
