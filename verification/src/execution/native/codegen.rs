use crate::execution::native::assembly::{appended, finished, joined, plain, Assembly, Fragment};
use crate::execution::native::executor::NativeExecutor;
use crate::execution::native::x64::{Abi, X64CodeGen};
use crate::syntax::{lemma_loop_view, Instruction, Node};
use vstd::prelude::*;
use vstd::string::StringSliceAdditionalSpecFns;

verus! {

/// Why no code came of a program.
#[derive(Debug, Clone, Copy, PartialEq, Eq, Structural)]
pub enum CodegenError {
    /// The code cannot be made final: a jump in it spans more than its four
    /// bytes can hold, or the assembler kept its memory.
    FinalizeFailed,
    /// The machine is not one that code can be generated for.
    UnsupportedArch,
}

/// What generates the code of each instruction for one architecture.
pub trait NativeCodeGenBackend {
    /// The code that a function begins with.
    spec fn prologue(&self) -> Seq<u8>;

    /// The code that ends a run that went well.
    spec fn normal_exit(&self) -> Seq<u8>;

    /// The code that ends a run whose input or output failed; the label that
    /// the exits jump to stands before it.
    spec fn error_exit(&self) -> Seq<u8>;

    /// The code of `node`.
    spec fn instruction(&self, node: Node) -> Fragment;

    /// Appends the prologue, and returns the offset at which it begins: the
    /// entry of the function.
    fn generate_prolouge(&self, ops: &mut Assembly) -> (start: usize)
        requires
            old(ops).wf(),
        ensures
            final(ops).wf(),
            start == old(ops)@.code.len(),
            appended(old(ops)@, final(ops)@, plain(self.prologue())),
    ;

    /// Appends both exits, and sets every exit jump to the label between
    /// them.
    fn generate_epilouge(&self, ops: &mut Assembly)
        requires
            old(ops).wf(),
        ensures
            final(ops).wf(),
            final(ops)@.fits == finished(old(ops)@, self.normal_exit(), self.error_exit()).fits,
            final(ops)@.fits ==> final(ops)@ == finished(
                old(ops)@,
                self.normal_exit(),
                self.error_exit(),
            ),
    ;

    /// Appends the code of `instr`.
    fn generate_instruction(&self, ops: &mut Assembly, instr: &Instruction)
        requires
            old(ops).wf(),
        ensures
            final(ops).wf(),
            appended(old(ops)@, final(ops)@, self.instruction(instr.deep_view())),
    {
        match instr {
            Instruction::Add { value } => self.generate_increment(ops, *value),
            Instruction::Move { value } => self.generate_cell_increment(ops, *value),
            Instruction::Loop { nodes } => {
                proof {
                    lemma_loop_view(*nodes);
                }
                self.generate_loop(ops, nodes)
            },
            Instruction::Write => self.generate_write(ops),
            Instruction::Read => self.generate_read(ops),
            Instruction::SetCell { value } => self.generate_set(ops, *value),
        }
    }

    /// Appends the code that adds `value` to the current cell.
    fn generate_increment(&self, ops: &mut Assembly, value: i8)
        requires
            old(ops).wf(),
        ensures
            final(ops).wf(),
            appended(old(ops)@, final(ops)@, self.instruction(Node::Add { value })),
    ;

    /// Appends the code that moves the cell pointer by `value`.
    fn generate_cell_increment(&self, ops: &mut Assembly, value: i32)
        requires
            old(ops).wf(),
        ensures
            final(ops).wf(),
            appended(old(ops)@, final(ops)@, self.instruction(Node::Move { value })),
    ;

    /// Appends the code of a loop over `nodes`.
    fn generate_loop(&self, ops: &mut Assembly, nodes: &Vec<Instruction>)
        requires
            old(ops).wf(),
        ensures
            final(ops).wf(),
            appended(
                old(ops)@,
                final(ops)@,
                self.instruction(Node::Loop { nodes: nodes.deep_view() }),
            ),
    ;

    /// Appends the code that writes the current cell.
    fn generate_write(&self, ops: &mut Assembly)
        requires
            old(ops).wf(),
        ensures
            final(ops).wf(),
            appended(old(ops)@, final(ops)@, self.instruction(Node::Write)),
    ;

    /// Appends the code that reads into the current cell.
    fn generate_read(&self, ops: &mut Assembly)
        requires
            old(ops).wf(),
        ensures
            final(ops).wf(),
            appended(old(ops)@, final(ops)@, self.instruction(Node::Read)),
    ;

    /// Appends the code that overwrites the current cell with `value`.
    fn generate_set(&self, ops: &mut Assembly, value: u8)
        requires
            old(ops).wf(),
        ensures
            final(ops).wf(),
            appended(old(ops)@, final(ops)@, self.instruction(Node::SetCell { value })),
    ;
}

/// The code of `nodes` for `backend`: the code of each, in order.
pub open spec fn sequence<B: NativeCodeGenBackend>(backend: &B, nodes: Seq<Node>) -> Fragment
    decreases nodes.len(),
{
    if nodes.len() == 0 {
        plain(Seq::empty())
    } else {
        joined(sequence(backend, nodes.drop_last()), backend.instruction(nodes.last()))
    }
}

/// The function that `backend` makes of `nodes`: the prologue, the code of
/// `nodes`, and both exits, with every exit jump set to the label between
/// them.
pub open spec fn function<B: NativeCodeGenBackend>(backend: &B, nodes: Seq<Node>) -> Fragment {
    finished(
        joined(plain(backend.prologue()), sequence(backend, nodes)),
        backend.normal_exit(),
        backend.error_exit(),
    )
}

/// Appending one fragment and then another appends the two joined.
pub proof fn lemma_appended_twice(
    before: Fragment,
    between: Fragment,
    after: Fragment,
    first: Fragment,
    second: Fragment,
)
    requires
        appended(before, between, first),
        appended(between, after, second),
    ensures
        appended(before, after, joined(first, second)),
{
    if after.fits {
        let whole = joined(before, joined(first, second));
        assert(after.code =~= whole.code);
        assert(after.exits =~= whole.exits);
    }
}

/// A code generator: a backend, and the code under assembly.
pub struct CodeGeneration<B: NativeCodeGenBackend> {
    codegen: B,
    ops: Assembly,
}

impl CodeGeneration<X64CodeGen> {
    /// A generator for x86-64 with the calling convention `abi`, whose code
    /// calls the function at `getchar` to read and the one at `putchar` to
    /// write; or nothing where the assembler cannot be had.
    pub fn x86_x64(abi: Abi, getchar: i64, putchar: i64) -> (generation: Option<
        CodeGeneration<X64CodeGen>,
    >)
        ensures
            generation matches Some(generation) ==> generation.wf() && generation.backend() == (
            X64CodeGen { abi, getchar, putchar }),
    {
        CodeGeneration::around(X64CodeGen { abi, getchar, putchar }, Assembly::new())
    }
}

impl<B: NativeCodeGenBackend> CodeGeneration<B> {
    /// Whether the generator is valid: it has assembled nothing yet.
    pub closed spec fn wf(&self) -> bool {
        self.ops.wf() && self.ops@ == plain(Seq::empty())
    }

    /// The backend.
    pub closed spec fn backend(&self) -> B {
        self.codegen
    }

    /// Generates the function for `instrs` and hands it to executable
    /// memory. Its entry is at offset 0. There is code exactly where no jump
    /// spans more than its four bytes can hold.
    pub fn generate(self, instrs: &Vec<Instruction>) -> (result: Result<
        NativeExecutor,
        CodegenError,
    >)
        requires
            self.wf(),
        ensures
            function(&self.backend(), instrs.deep_view()).fits <==> result is Ok,
            result matches Ok(executor) ==> {
                &&& executor.code_bytes() == function(&self.backend(), instrs.deep_view()).code
                &&& executor.entry() == 0
            },
            result matches Err(error) ==> error == CodegenError::FinalizeFailed,
    {
        let CodeGeneration { codegen, ops } = self;
        let mut ops = ops;
        let ghost nodes = instrs.deep_view();
        let ghost empty = ops@;
        let code_start = codegen.generate_prolouge(&mut ops);
        let ghost opened = ops@;
        let mut i: usize = 0;
        proof {
            assert(nodes.take(0) =~= Seq::<Node>::empty());
            let whole = joined(ops@, plain(Seq::empty()));
            assert(ops@.code =~= whole.code);
            assert(ops@.exits =~= whole.exits);
        }
        while i < instrs.len()
            invariant
                i <= instrs.len(),
                nodes == instrs.deep_view(),
                ops.wf(),
                appended(opened, ops@, sequence(&codegen, nodes.take(i as int))),
            decreases instrs.len() - i,
        {
            let ghost between = ops@;
            codegen.generate_instruction(&mut ops, &instrs[i]);
            proof {
                assert(nodes.take(i + 1).drop_last() =~= nodes.take(i as int));
                assert(nodes.take(i + 1).last() == instrs[i as int].deep_view());
                lemma_appended_twice(
                    opened,
                    between,
                    ops@,
                    sequence(&codegen, nodes.take(i as int)),
                    codegen.instruction(instrs[i as int].deep_view()),
                );
            }
            i += 1;
        }
        let ghost body = ops@;
        proof {
            assert(nodes.take(i as int) =~= nodes);
            if body.fits {
                let whole = joined(plain(codegen.prologue()), sequence(&codegen, nodes));
                assert(opened.code =~= codegen.prologue());
                assert(opened.exits =~= Seq::<int>::empty());
                assert(body.code =~= whole.code);
                assert(body.exits =~= whole.exits);
            }
        }
        codegen.generate_epilouge(&mut ops);
        if !ops.fits() {
            return Err(CodegenError::FinalizeFailed);
        }
        let code = ops.finalize();
        NativeExecutor::finalized(code, code_start)
    }

    /// A generator with the backend `codegen` around what asking for an
    /// assembly came to: one that holds the assembly, where there is one, and
    /// nothing where there is none. The generator is valid where the
    /// assembly is valid and holds no code.
    pub fn around(codegen: B, ops: Option<Assembly>) -> (generation: Option<CodeGeneration<B>>)
        ensures
            match ops {
                Some(ops) => {
                    &&& generation is Some
                    &&& generation->Some_0.backend() == codegen
                    &&& generation->Some_0.wf() <==> ops.wf() && ops@ == plain(Seq::empty())
                },
                None => generation is None,
            },
    {
        match ops {
            Some(ops) => Some(CodeGeneration { codegen, ops }),
            None => None,
        }
    }
}

/// The name of the one architecture that code is generated for, `x86_64`, in
/// ASCII.
pub open spec fn supported_arch() -> Seq<u8> {
    seq![0x78, 0x38, 0x36, 0x5F, 0x36, 0x34]
}

/// Whether code can be generated for the architecture named `arch`: only
/// for `x86_64`.
pub fn supported(arch: &str) -> (result: Result<(), CodegenError>)
    ensures
        arch.spec_bytes() == supported_arch() ==> result is Ok,
        arch.spec_bytes() != supported_arch() ==> result == Err::<(), CodegenError>(
            CodegenError::UnsupportedArch,
        ),
{
    let bytes = arch.as_bytes();
    let name: [u8; 6] = [0x78, 0x38, 0x36, 0x5F, 0x36, 0x34];
    assert(name@ =~= supported_arch());
    if bytes.len() != 6 {
        return Err(CodegenError::UnsupportedArch);
    }
    let mut i: usize = 0;
    while i < 6
        invariant
            i <= 6,
            bytes@.len() == 6,
            bytes@ == arch.spec_bytes(),
            name@ == supported_arch(),
            forall|k: int| 0 <= k < i ==> bytes@[k] == name@[k],
        decreases 6 - i,
    {
        if bytes[i] != name[i] {
            return Err(CodegenError::UnsupportedArch);
        }
        i += 1;
    }
    assert(bytes@ =~= name@);
    Ok(())
}

} // verus!
