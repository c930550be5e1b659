use crate::execution::native::state::State;
use crate::execution::semantics::{iterate, run, step, Halt, Machine};
use crate::syntax::{Instruction, Node};
use vstd::prelude::*;

verus! {

/// Runs programs by walking their tree.
pub struct Interpreter {
    state: State,
    pointer: usize,
}

impl View for Interpreter {
    type V = Machine;

    closed spec fn view(&self) -> Machine {
        Machine {
            tape: self.state.tape@,
            pointer: self.pointer as int,
            input: self.state.unread(),
            output: self.state.output@,
        }
    }
}

impl Interpreter {
    /// Whether the interpreter is valid.
    pub closed spec fn wf(&self) -> bool {
        self.state.wf()
    }

    /// An interpreter at the start of a run: all of `input` unread, `output`
    /// as the bytes already written, a tape of `tape_size` cells that hold
    /// zero, and the cell pointer at the first of them.
    pub fn new(input: Vec<u8>, output: Vec<u8>, tape_size: usize) -> (interpreter: Interpreter)
        ensures
            interpreter.wf(),
            interpreter@ == (Machine {
                tape: Seq::new(tape_size as nat, |i: int| 0u8),
                pointer: 0,
                input: input@,
                output: output@,
            }),
    {
        let state = State::new(input, output, tape_size);
        assert(state.unread() =~= input@);
        Interpreter { state, pointer: 0 }
    }

    /// Runs `instructions` from the present state, as [`run`] says: to their
    /// end, or to the first instruction that cannot finish. A loop may go
    /// round `fuel` times, and its body runs with the fuel that is left.
    pub fn interpret(&mut self, instructions: &Vec<Instruction>, fuel: u64) -> (halt: Halt)
        requires
            old(self).wf(),
        ensures
            final(self).wf(),
            (halt, final(self)@) == run(instructions.deep_view(), old(self)@, fuel as nat),
        decreases fuel, 1nat,
    {
        let ghost nodes = instructions.deep_view();
        let mut i: usize = 0;
        assert(nodes.skip(0) =~= nodes);
        while i < instructions.len()
            invariant
                self.wf(),
                i <= instructions.len(),
                nodes == instructions.deep_view(),
                run(nodes, old(self)@, fuel as nat) == run(nodes.skip(i as int), self@, fuel as nat),
            decreases instructions.len() - i,
        {
            assert(nodes.skip(i as int).drop_first() =~= nodes.skip(i + 1));
            let halt = self.execute(&instructions[i], fuel);
            if halt != Halt::Finished {
                return halt;
            }
            i += 1;
        }
        Halt::Finished
    }

    /// Runs one instruction, as [`step`] says.
    fn execute(&mut self, instruction: &Instruction, fuel: u64) -> (halt: Halt)
        requires
            old(self).wf(),
        ensures
            final(self).wf(),
            (halt, final(self)@) == step(instruction.deep_view(), old(self)@, fuel as nat),
        decreases fuel, 0nat,
    {
        let size = self.state.tape.len();
        match instruction {
            Instruction::Add { value } => {
                if self.pointer < size {
                    let cell = self.state.tape[self.pointer];
                    self.state.tape.set(self.pointer, cell.wrapping_add_signed(*value));
                    Halt::Finished
                } else {
                    Halt::OutOfBounds
                }
            },
            Instruction::SetCell { value } => {
                if self.pointer < size {
                    self.state.tape.set(self.pointer, *value);
                    Halt::Finished
                } else {
                    Halt::OutOfBounds
                }
            },
            Instruction::Move { value } => {
                let target: i128 = self.pointer as i128 + *value as i128;
                if 0 <= target && target < size as i128 {
                    self.pointer = target as usize;
                    Halt::Finished
                } else {
                    Halt::OutOfBounds
                }
            },
            Instruction::Write => {
                if self.pointer < size {
                    self.state.putchar(self.pointer);
                    Halt::Finished
                } else {
                    Halt::OutOfBounds
                }
            },
            Instruction::Read => {
                if self.pointer < size {
                    let code = self.state.getchar(self.pointer);
                    if code == 0 {
                        Halt::Finished
                    } else {
                        Halt::IoError
                    }
                } else {
                    Halt::OutOfBounds
                }
            },
            Instruction::Loop { nodes } => {
                proof {
                    crate::syntax::lemma_loop_view(*nodes);
                }
                let ghost body = nodes.deep_view();
                let mut left: u64 = fuel;
                loop
                    invariant
                        self.wf(),
                        left <= fuel,
                        body == nodes.deep_view(),
                        instruction.deep_view() == (Node::Loop { nodes: body }),
                        iterate(body, old(self)@, fuel as nat) == iterate(body, self@, left as nat),
                    decreases left,
                {
                    if self.pointer >= self.state.tape.len() {
                        return Halt::OutOfBounds;
                    }
                    if self.state.tape[self.pointer] == 0 {
                        return Halt::Finished;
                    }
                    if left == 0 {
                        return Halt::OutOfFuel;
                    }
                    left -= 1;
                    let halt = self.interpret(nodes, left);
                    if halt != Halt::Finished {
                        return halt;
                    }
                }
            },
        }
    }

    /// The output written so far.
    pub fn output(&self) -> (output: &Vec<u8>)
        ensures
            output@ == self@.output,
    {
        &self.state.output
    }

    /// The tape as it is now.
    pub fn tape(&self) -> (tape: &Vec<u8>)
        ensures
            tape@ == self@.tape,
    {
        &self.state.tape
    }
}

} // verus!
