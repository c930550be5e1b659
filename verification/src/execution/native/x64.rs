use crate::execution::native::assembly::{
    appended, exits_in_order, finished, joined, le_bytes, lemma_le_bytes_len, lemma_resolved,
    plain, resolved, shifted, Assembly, Fragment,
};
use crate::execution::native::codegen::{
    function, lemma_appended_twice, sequence, NativeCodeGenBackend,
};
use crate::syntax::{lemma_loop_view, Instruction, Node};
use vstd::prelude::*;

verus! {

/// The calling convention of the generated function and of what it calls.
#[derive(Debug, Clone, Copy, PartialEq, Eq, Structural)]
pub enum Abi {
    /// System V AMD64: arguments in `rdi`, `rsi`, `rdx`.
    SystemV,
    /// Windows x64: arguments in `rcx`, `rdx`, `r8`.
    Win64,
}

/// The backend for x86-64. The generated function takes the state, the start
/// of the tape and its end, and returns a result code in `rax`. It keeps the
/// state in `r12`, the start of the tape in `r13`, its end in `r14` and the
/// address of the current cell in `r15`.
#[derive(Debug, Clone, Copy)]
pub struct X64CodeGen {
    /// The calling convention.
    pub abi: Abi,
    /// The address of the function that reads one byte into a cell.
    pub getchar: i64,
    /// The address of the function that writes one cell.
    pub putchar: i64,
}

/// `sub rsp, 32`, then `push` of `r12`, `r13`, `r14`, `r15`.
pub open spec fn save_registers() -> Seq<u8> {
    seq![0x48, 0x83, 0xEC, 0x20, 0x41, 0x54, 0x41, 0x55, 0x41, 0x56, 0x41, 0x57]
}

/// `pop` of `r15`, `r14`, `r13`, `r12`, then `add rsp, 32`.
pub open spec fn restore_registers() -> Seq<u8> {
    seq![0x41, 0x5F, 0x41, 0x5E, 0x41, 0x5D, 0x41, 0x5C, 0x48, 0x83, 0xC4, 0x20]
}

/// `mov` of the first three argument registers to `r12`, `r13`, `r14`.
pub open spec fn take_arguments(abi: Abi) -> Seq<u8> {
    match abi {
        Abi::SystemV => seq![0x49, 0x89, 0xFC, 0x49, 0x89, 0xF5, 0x49, 0x89, 0xD6],
        Abi::Win64 => seq![0x49, 0x89, 0xCC, 0x49, 0x89, 0xD5, 0x4D, 0x89, 0xC6],
    }
}

/// `mov` of `r12` to the first argument register and of `r15` to the second.
pub open spec fn pass_arguments(abi: Abi) -> Seq<u8> {
    match abi {
        Abi::SystemV => seq![0x4C, 0x89, 0xE7, 0x4C, 0x89, 0xFE],
        Abi::Win64 => seq![0x4C, 0x89, 0xE1, 0x4C, 0x89, 0xFA],
    }
}

/// The prologue: the registers saved, the arguments taken, and
/// `mov r15, r13`.
pub open spec fn prologue_code(abi: Abi) -> Seq<u8> {
    save_registers() + take_arguments(abi) + seq![0x4D, 0x89, 0xEF]
}

/// An exit: `mov rax, code`, the registers restored, and `ret`.
pub open spec fn exit_code(code: u8) -> Seq<u8> {
    seq![0x48, 0xC7, 0xC0, code, 0x00, 0x00, 0x00] + restore_registers() + seq![0xC3]
}

/// `add BYTE [r15], value`.
pub open spec fn add_code(value: i8) -> Seq<u8> {
    seq![0x41, 0x80, 0x07] + le_bytes(value as int, 1)
}

/// `mov BYTE [r15], value`.
pub open spec fn set_code(value: u8) -> Seq<u8> {
    seq![0x41, 0xC6, 0x07, value]
}

/// `add r15, value`.
pub open spec fn move_code(value: i32) -> Seq<u8> {
    seq![0x49, 0x81, 0xC7] + le_bytes(value as int, 4)
}

/// `cmp BYTE [r15], 0`, and the two bytes of a near `jz` (`0x84`) or `jnz`
/// (`0x85`), whose distance follows.
pub open spec fn test_cell(jump: u8) -> Seq<u8> {
    seq![0x41, 0x80, 0x3F, 0x00, 0x0F, jump]
}

/// A call of the function at `target` with the state and the current cell:
/// the registers saved, the arguments passed, `mov rax, target`, `call rax`,
/// the registers restored, `cmp al, 0`, and a `jnz` that is an exit.
pub open spec fn call_code(abi: Abi, target: i64) -> Fragment {
    Fragment {
        code: save_registers() + pass_arguments(abi) + seq![0x48, 0xB8] + le_bytes(
            target as int,
            8,
        ) + seq![0xFF, 0xD0] + restore_registers() + seq![0x3C, 0x00, 0x0F, 0x85] + le_bytes(0, 4),
        exits: seq![46int],
        fits: true,
    }
}

/// A loop over `body`: the cell is tested before the body, with a `jz` past
/// the loop, and after it, with a `jnz` back to the body.
pub open spec fn loop_code(body: Fragment) -> Fragment {
    let distance = body.code.len() as int + 10;
    Fragment {
        code: test_cell(0x84) + le_bytes(distance, 4) + body.code + test_cell(0x85) + le_bytes(
            -distance,
            4,
        ),
        exits: shifted(body.exits, 10),
        fits: body.fits && distance <= i32::MAX,
    }
}

/// The code of `node`.
pub open spec fn node_code(backend: X64CodeGen, node: Node) -> Fragment
    decreases node, 0nat,
{
    match node {
        Node::Add { value } => plain(add_code(value)),
        Node::Move { value } => plain(move_code(value)),
        Node::Loop { nodes } => loop_code(nodes_code(backend, nodes)),
        Node::Write => call_code(backend.abi, backend.putchar),
        Node::Read => call_code(backend.abi, backend.getchar),
        Node::SetCell { value } => plain(set_code(value)),
    }
}

/// The code of `nodes`: the code of each, in order.
pub open spec fn nodes_code(backend: X64CodeGen, nodes: Seq<Node>) -> Fragment
    decreases nodes, 1nat,
{
    if nodes.len() == 0 {
        plain(Seq::empty())
    } else {
        joined(nodes_code(backend, nodes.drop_last()), node_code(backend, nodes.last()))
    }
}

impl X64CodeGen {
    fn emit_save(&self, ops: &mut Assembly)
        requires
            old(ops).wf(),
        ensures
            final(ops).wf(),
            final(ops)@ == joined(old(ops)@, plain(save_registers())),
    {
        let bytes: [u8; 12] = [
            0x48,
            0x83,
            0xEC,
            0x20,
            0x41,
            0x54,
            0x41,
            0x55,
            0x41,
            0x56,
            0x41,
            0x57,
        ];
        assert(bytes@ =~= save_registers());
        ops.extend(bytes.as_slice());
    }

    fn emit_restore(&self, ops: &mut Assembly)
        requires
            old(ops).wf(),
        ensures
            final(ops).wf(),
            final(ops)@ == joined(old(ops)@, plain(restore_registers())),
    {
        let bytes: [u8; 12] = [
            0x41,
            0x5F,
            0x41,
            0x5E,
            0x41,
            0x5D,
            0x41,
            0x5C,
            0x48,
            0x83,
            0xC4,
            0x20,
        ];
        assert(bytes@ =~= restore_registers());
        ops.extend(bytes.as_slice());
    }

    fn emit_prologue(&self, ops: &mut Assembly) -> (start: usize)
        requires
            old(ops).wf(),
        ensures
            final(ops).wf(),
            start == old(ops)@.code.len(),
            final(ops)@ == joined(old(ops)@, plain(prologue_code(self.abi))),
    {
        let start = ops.offset();
        self.emit_save(ops);
        match self.abi {
            Abi::SystemV => {
                let bytes: [u8; 12] = [
                    0x49,
                    0x89,
                    0xFC,
                    0x49,
                    0x89,
                    0xF5,
                    0x49,
                    0x89,
                    0xD6,
                    0x4D,
                    0x89,
                    0xEF,
                ];
                assert(bytes@ =~= take_arguments(self.abi) + seq![0x4Du8, 0x89u8, 0xEFu8]);
                ops.extend(bytes.as_slice());
            },
            Abi::Win64 => {
                let bytes: [u8; 12] = [
                    0x49,
                    0x89,
                    0xCC,
                    0x49,
                    0x89,
                    0xD5,
                    0x4D,
                    0x89,
                    0xC6,
                    0x4D,
                    0x89,
                    0xEF,
                ];
                assert(bytes@ =~= take_arguments(self.abi) + seq![0x4Du8, 0x89u8, 0xEFu8]);
                ops.extend(bytes.as_slice());
            },
        }
        proof {
            let whole = joined(old(ops)@, plain(prologue_code(self.abi)));
            assert(ops@.code =~= whole.code);
            assert(ops@.exits =~= whole.exits);
        }
        start
    }

    fn emit_exit(&self, ops: &mut Assembly, code: u8)
        requires
            old(ops).wf(),
        ensures
            final(ops).wf(),
            final(ops)@ == joined(old(ops)@, plain(exit_code(code))),
    {
        let load: [u8; 7] = [0x48, 0xC7, 0xC0, code, 0x00, 0x00, 0x00];
        ops.extend(load.as_slice());
        self.emit_restore(ops);
        let ret: [u8; 1] = [0xC3];
        ops.extend(ret.as_slice());
        proof {
            let whole = joined(old(ops)@, plain(exit_code(code)));
            assert(ops@.code =~= whole.code);
            assert(ops@.exits =~= whole.exits);
        }
    }

    fn emit_epilogue(&self, ops: &mut Assembly)
        requires
            old(ops).wf(),
        ensures
            final(ops).wf(),
            final(ops)@.fits == finished(old(ops)@, exit_code(0), exit_code(1)).fits,
            final(ops)@.fits ==> final(ops)@ == finished(old(ops)@, exit_code(0), exit_code(1)),
    {
        self.emit_exit(ops, 0);
        let label = ops.offset();
        proof {
            let body = joined(old(ops)@, plain(exit_code(0)));
            assert(ops@.exits =~= old(ops)@.exits);
        }
        ops.resolve(label);
        self.emit_exit(ops, 1);
        proof {
            let whole = finished(old(ops)@, exit_code(0), exit_code(1));
            if ops@.fits {
                assert(ops@.code =~= whole.code);
                assert(ops@.exits =~= whole.exits);
            }
        }
    }

    fn emit_add(&self, ops: &mut Assembly, value: i8)
        requires
            old(ops).wf(),
        ensures
            final(ops).wf(),
            final(ops)@ == joined(old(ops)@, plain(add_code(value))),
    {
        let low: u8 = if value >= 0 {
            value as u8
        } else {
            (value as i16 + 256) as u8
        };
        let bytes: [u8; 4] = [0x41, 0x80, 0x07, low];
        proof {
            assert(le_bytes(value as int, 1) =~= seq![low]) by {
                assert(le_bytes(value as int / 256, 0) =~= Seq::<u8>::empty());
            }
            assert(bytes@ =~= add_code(value));
        }
        ops.extend(bytes.as_slice());
    }

    fn emit_set(&self, ops: &mut Assembly, value: u8)
        requires
            old(ops).wf(),
        ensures
            final(ops).wf(),
            final(ops)@ == joined(old(ops)@, plain(set_code(value))),
    {
        let bytes: [u8; 4] = [0x41, 0xC6, 0x07, value];
        assert(bytes@ =~= set_code(value));
        ops.extend(bytes.as_slice());
    }

    fn emit_move(&self, ops: &mut Assembly, value: i32)
        requires
            old(ops).wf(),
        ensures
            final(ops).wf(),
            final(ops)@ == joined(old(ops)@, plain(move_code(value))),
    {
        let bytes: [u8; 3] = [0x49, 0x81, 0xC7];
        ops.extend(bytes.as_slice());
        ops.push_i32(value);
        proof {
            let whole = joined(old(ops)@, plain(move_code(value)));
            assert(ops@.code =~= whole.code);
            assert(ops@.exits =~= whole.exits);
        }
    }

    fn emit_call(&self, ops: &mut Assembly, target: i64)
        requires
            old(ops).wf(),
        ensures
            final(ops).wf(),
            final(ops)@ == joined(old(ops)@, call_code(self.abi, target)),
    {
        self.emit_save(ops);
        match self.abi {
            Abi::SystemV => {
                let bytes: [u8; 8] = [0x4C, 0x89, 0xE7, 0x4C, 0x89, 0xFE, 0x48, 0xB8];
                assert(bytes@ =~= pass_arguments(self.abi) + seq![0x48u8, 0xB8u8]);
                ops.extend(bytes.as_slice());
            },
            Abi::Win64 => {
                let bytes: [u8; 8] = [0x4C, 0x89, 0xE1, 0x4C, 0x89, 0xFA, 0x48, 0xB8];
                assert(bytes@ =~= pass_arguments(self.abi) + seq![0x48u8, 0xB8u8]);
                ops.extend(bytes.as_slice());
            },
        }
        ops.push_i64(target);
        let call: [u8; 2] = [0xFF, 0xD0];
        ops.extend(call.as_slice());
        self.emit_restore(ops);
        let test: [u8; 4] = [0x3C, 0x00, 0x0F, 0x85];
        ops.extend(test.as_slice());
        ops.push_exit();
        proof {
            lemma_le_bytes_len(target as int, 8);
            lemma_le_bytes_len(0, 4);
            let whole = joined(old(ops)@, call_code(self.abi, target));
            assert(ops@.code =~= whole.code);
            assert(ops@.exits =~= whole.exits);
        }
    }

    fn emit(&self, ops: &mut Assembly, instr: &Instruction)
        requires
            old(ops).wf(),
        ensures
            final(ops).wf(),
            appended(old(ops)@, final(ops)@, node_code(*self, instr.deep_view())),
        decreases instr, 0nat,
    {
        match instr {
            Instruction::Add { value } => self.emit_add(ops, *value),
            Instruction::Move { value } => self.emit_move(ops, *value),
            Instruction::Loop { nodes } => {
                proof {
                    lemma_loop_view(*nodes);
                }
                self.emit_loop(ops, nodes)
            },
            Instruction::Write => self.emit_call(ops, self.putchar),
            Instruction::Read => self.emit_call(ops, self.getchar),
            Instruction::SetCell { value } => self.emit_set(ops, *value),
        }
    }

    fn emit_all(&self, ops: &mut Assembly, nodes: &Vec<Instruction>)
        requires
            old(ops).wf(),
        ensures
            final(ops).wf(),
            appended(old(ops)@, final(ops)@, nodes_code(*self, nodes.deep_view())),
        decreases nodes, 1nat,
    {
        let ghost model = nodes.deep_view();
        let mut i: usize = 0;
        proof {
            assert(model.take(0) =~= Seq::<Node>::empty());
            let whole = joined(ops@, plain(Seq::empty()));
            assert(ops@.code =~= whole.code);
            assert(ops@.exits =~= whole.exits);
        }
        while i < nodes.len()
            invariant
                i <= nodes.len(),
                model == nodes.deep_view(),
                ops.wf(),
                appended(old(ops)@, ops@, nodes_code(*self, model.take(i as int))),
            decreases nodes.len() - i,
        {
            let ghost between = ops@;
            self.emit(ops, &nodes[i]);
            proof {
                assert(model.take(i + 1).drop_last() =~= model.take(i as int));
                assert(model.take(i + 1).last() == nodes[i as int].deep_view());
                lemma_appended_twice(
                    old(ops)@,
                    between,
                    ops@,
                    nodes_code(*self, model.take(i as int)),
                    node_code(*self, nodes[i as int].deep_view()),
                );
            }
            i += 1;
        }
        assert(model.take(i as int) =~= model);
    }

    fn emit_loop(&self, ops: &mut Assembly, nodes: &Vec<Instruction>)
        requires
            old(ops).wf(),
        ensures
            final(ops).wf(),
            appended(old(ops)@, final(ops)@, loop_code(nodes_code(*self, nodes.deep_view()))),
        decreases nodes, 2nat,
    {
        let ghost body = nodes_code(*self, nodes.deep_view());
        let head = ops.offset();
        let test: [u8; 6] = [0x41, 0x80, 0x3F, 0x00, 0x0F, 0x84];
        assert(test@ =~= test_cell(0x84));
        ops.extend(test.as_slice());
        ops.push_i32(0);
        let start = ops.offset();
        let ghost opened = ops@;
        proof {
            lemma_le_bytes_len(0, 4);
        }
        self.emit_all(ops, nodes);
        if !ops.fits() {
            return ;
        }
        let again: [u8; 6] = [0x41, 0x80, 0x3F, 0x00, 0x0F, 0x85];
        assert(again@ =~= test_cell(0x85));
        ops.extend(again.as_slice());
        let span = ops.offset() - start;
        if span > 0x7fff_fffb {
            ops.fail();
            return ;
        }
        let distance: i32 = (span + 4) as i32;
        ops.push_i32(-distance);
        ops.patch_i32(head + 6, distance);
        proof {
            lemma_le_bytes_len(distance as int, 4);
            lemma_le_bytes_len(-distance as int, 4);
            let whole = joined(old(ops)@, loop_code(body));
            assert(ops@.code =~= whole.code);
            assert(ops@.exits =~= whole.exits);
        }
    }
}

impl NativeCodeGenBackend for X64CodeGen {
    open spec fn prologue(&self) -> Seq<u8> {
        prologue_code(self.abi)
    }

    open spec fn normal_exit(&self) -> Seq<u8> {
        exit_code(0)
    }

    open spec fn error_exit(&self) -> Seq<u8> {
        exit_code(1)
    }

    open spec fn instruction(&self, node: Node) -> Fragment {
        node_code(*self, node)
    }

    fn generate_prolouge(&self, ops: &mut Assembly) -> (start: usize) {
        self.emit_prologue(ops)
    }

    fn generate_epilouge(&self, ops: &mut Assembly) {
        self.emit_epilogue(ops)
    }

    fn generate_increment(&self, ops: &mut Assembly, value: i8) {
        self.emit_add(ops, value)
    }

    fn generate_cell_increment(&self, ops: &mut Assembly, value: i32) {
        self.emit_move(ops, value)
    }

    fn generate_loop(&self, ops: &mut Assembly, nodes: &Vec<Instruction>) {
        self.emit_loop(ops, nodes)
    }

    fn generate_write(&self, ops: &mut Assembly) {
        self.emit_call(ops, self.putchar)
    }

    fn generate_read(&self, ops: &mut Assembly) {
        self.emit_call(ops, self.getchar)
    }

    fn generate_set(&self, ops: &mut Assembly, value: u8) {
        self.emit_set(ops, value)
    }
}

/// For this backend, the code of a program is [`nodes_code`].
pub proof fn lemma_sequence_is_nodes_code(backend: X64CodeGen, nodes: Seq<Node>)
    ensures
        sequence(&backend, nodes) == nodes_code(backend, nodes),
    decreases nodes.len(),
{
    if nodes.len() > 0 {
        lemma_sequence_is_nodes_code(backend, nodes.drop_last());
    }
}

/// The function that this backend makes of `nodes`: the prologue, the code
/// of `nodes`, the exit with code 0, and the exit with code 1, to which every
/// exit jump of the code leads.
pub proof fn lemma_function_code(backend: X64CodeGen, nodes: Seq<Node>)
    ensures
        function(&backend, nodes) == finished(
            joined(plain(prologue_code(backend.abi)), nodes_code(backend, nodes)),
            exit_code(0),
            exit_code(1),
        ),
        function(&backend, nodes).code.len() >= 20,
{
    lemma_sequence_is_nodes_code(backend, nodes);
}

proof fn lemma_joined_in_order(first: Fragment, second: Fragment)
    requires
        exits_in_order(first.exits, first.code.len() as int),
        exits_in_order(second.exits, second.code.len() as int),
    ensures
        exits_in_order(joined(first, second).exits, joined(first, second).code.len() as int),
{
    let whole = joined(first, second);
    let exits = whole.exits;
    let split = first.exits.len() as int;
    let by = first.code.len() as int;
    assert forall|i: int| 0 <= i < exits.len() implies 0 <= #[trigger] exits[i] && exits[i] + 4
        <= whole.code.len() by {
        if i < split {
            assert(exits[i] == first.exits[i]);
        } else {
            assert(exits[i] == second.exits[i - split] + by);
        }
    }
    assert forall|i: int, j: int| 0 <= i < j < exits.len() implies #[trigger] exits[i] + 4
        <= #[trigger] exits[j] by {
        if j < split {
            assert(exits[i] == first.exits[i]);
            assert(exits[j] == first.exits[j]);
        } else if i < split {
            assert(exits[i] == first.exits[i]);
            assert(exits[j] == second.exits[j - split] + by);
        } else {
            assert(exits[i] == second.exits[i - split] + by);
            assert(exits[j] == second.exits[j - split] + by);
        }
    }
}

/// The exits of the code of an instruction lie in the code, in order.
pub proof fn lemma_node_exits(backend: X64CodeGen, node: Node)
    ensures
        exits_in_order(
            node_code(backend, node).exits,
            node_code(backend, node).code.len() as int,
        ),
    decreases node, 0nat,
{
    match node {
        Node::Loop { nodes } => {
            lemma_nodes_exits(backend, nodes);
            let body = nodes_code(backend, nodes);
            let whole = loop_code(body);
            lemma_le_bytes_len(body.code.len() as int + 10, 4);
            lemma_le_bytes_len(-(body.code.len() as int + 10), 4);
            assert forall|i: int| 0 <= i < whole.exits.len() implies 0 <= #[trigger] whole.exits[i]
                && whole.exits[i] + 4 <= whole.code.len() by {
                assert(whole.exits[i] == body.exits[i] + 10);
            }
            assert forall|i: int, j: int| 0 <= i < j < whole.exits.len() implies #[trigger] whole.exits[i]
                + 4 <= #[trigger] whole.exits[j] by {
                assert(whole.exits[i] == body.exits[i] + 10);
                assert(whole.exits[j] == body.exits[j] + 10);
            }
        },
        Node::Write => {
            lemma_le_bytes_len(backend.putchar as int, 8);
            lemma_le_bytes_len(0, 4);
        },
        Node::Read => {
            lemma_le_bytes_len(backend.getchar as int, 8);
            lemma_le_bytes_len(0, 4);
        },
        _ => {},
    }
}

/// The exits of the code of a program lie in the code, in order.
pub proof fn lemma_nodes_exits(backend: X64CodeGen, nodes: Seq<Node>)
    ensures
        exits_in_order(
            nodes_code(backend, nodes).exits,
            nodes_code(backend, nodes).code.len() as int,
        ),
    decreases nodes, 1nat,
{
    if nodes.len() > 0 {
        lemma_nodes_exits(backend, nodes.drop_last());
        lemma_node_exits(backend, nodes.last());
        lemma_joined_in_order(
            nodes_code(backend, nodes.drop_last()),
            node_code(backend, nodes.last()),
        );
    }
}

/// How the function of a program is laid out: it begins with the prologue
/// and ends with the exit with code 0 and, behind the label, the exit with
/// code 1; and every exit jump of the code between holds the distance from
/// its end to the label.
pub proof fn lemma_function_layout(backend: X64CodeGen, nodes: Seq<Node>)
    ensures
        ({
            let body = joined(plain(prologue_code(backend.abi)), nodes_code(backend, nodes));
            let label = body.code.len() as int + 20;
            let code = function(&backend, nodes).code;
            &&& code.len() == label + 20
            &&& code.subrange(0, 24) == prologue_code(backend.abi)
            &&& code.subrange(label - 20, label) == exit_code(0)
            &&& code.subrange(label, label + 20) == exit_code(1)
            &&& forall|i: int|
                0 <= i < body.exits.len() ==> code.subrange(
                    #[trigger] body.exits[i],
                    body.exits[i] + 4,
                ) == le_bytes(label - (body.exits[i] + 4), 4)
        }),
{
    lemma_function_code(backend, nodes);
    lemma_nodes_exits(backend, nodes);
    let prologue = plain(prologue_code(backend.abi));
    let body = joined(prologue, nodes_code(backend, nodes));
    lemma_joined_in_order(prologue, nodes_code(backend, nodes));
    let label = body.code.len() as int + 20;
    let open = body.code + exit_code(0);
    let code = function(&backend, nodes).code;
    let closed = resolved(open, body.exits, label);
    assert(exits_in_order(body.exits, open.len() as int));
    lemma_resolved(open, body.exits, label);
    assert(code == closed + exit_code(1));
    assert(code.subrange(label, label + 20) =~= exit_code(1));
    assert forall|at: int| 0 <= at < 24 || label - 20 <= at < label implies closed[at]
        == open[at] by {
        assert forall|i: int| 0 <= i < body.exits.len() implies !(#[trigger] body.exits[i] <= at
            < body.exits[i] + 4) by {
            assert(body.exits[i] == nodes_code(backend, nodes).exits[i] + 24);
        }
    }
    assert(code.subrange(0, 24) =~= prologue_code(backend.abi));
    assert(code.subrange(label - 20, label) =~= exit_code(0));
    assert forall|i: int| 0 <= i < body.exits.len() implies code.subrange(
        #[trigger] body.exits[i],
        body.exits[i] + 4,
    ) == le_bytes(label - (body.exits[i] + 4), 4) by {
        assert(code.subrange(body.exits[i], body.exits[i] + 4) =~= closed.subrange(
            body.exits[i],
            body.exits[i] + 4,
        ));
    }
}

} // verus!
