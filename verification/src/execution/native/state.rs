use vstd::prelude::*;

verus! {

/// What a run works on: the bytes it may read, the bytes it has written and
/// the tape.
pub struct State {
    /// The input, read and unread.
    pub input: Vec<u8>,
    /// How many bytes of the input have been read.
    pub consumed: usize,
    /// The output written so far.
    pub output: Vec<u8>,
    /// The cells.
    pub tape: Vec<u8>,
}

impl State {
    /// Whether the state is valid: no more input is read than there is.
    pub open spec fn wf(&self) -> bool {
        self.consumed <= self.input.len()
    }

    /// The input that is still unread.
    pub open spec fn unread(&self) -> Seq<u8> {
        self.input@.skip(self.consumed as int)
    }

    /// A state at the start of a run: all of `input` unread, `output` as the
    /// bytes already written, and a tape of `tape_size` cells that hold zero.
    pub fn new(input: Vec<u8>, output: Vec<u8>, tape_size: usize) -> (state: State)
        ensures
            state.wf(),
            state.input == input,
            state.consumed == 0,
            state.output == output,
            state.tape@ == Seq::new(tape_size as nat, |i: int| 0u8),
    {
        let tape = vec![0u8; tape_size];
        assert(tape@ =~= Seq::new(tape_size as nat, |i: int| 0u8));
        State { input, consumed: 0, output, tape }
    }

    /// Reads one byte of input into the cell at `cell`. Returns 0 when a byte
    /// was there, and 1 at the end of the input, which changes nothing.
    pub fn getchar(&mut self, cell: usize) -> (code: u8)
        requires
            old(self).wf(),
            cell < old(self).tape.len(),
        ensures
            final(self).wf(),
            final(self).input == old(self).input,
            final(self).output == old(self).output,
            old(self).unread().len() > 0 ==> {
                &&& code == 0
                &&& final(self).tape@ == old(self).tape@.update(cell as int, old(self).unread()[0])
                &&& final(self).unread() == old(self).unread().drop_first()
            },
            old(self).unread().len() == 0 ==> code == 1 && *final(self) == *old(self),
    {
        if self.consumed < self.input.len() {
            let byte = self.input[self.consumed];
            self.tape.set(cell, byte);
            self.consumed += 1;
            assert(self.unread() =~= old(self).unread().drop_first());
            0
        } else {
            1
        }
    }

    /// Writes the cell at `cell` to the output, and returns 0.
    pub fn putchar(&mut self, cell: usize) -> (code: u8)
        requires
            cell < old(self).tape.len(),
        ensures
            code == 0,
            final(self).output@ == old(self).output@.push(old(self).tape@[cell as int]),
            final(self).input == old(self).input,
            final(self).consumed == old(self).consumed,
            final(self).tape == old(self).tape,
    {
        let byte = self.tape[cell];
        self.output.push(byte);
        0
    }
}

} // verus!
