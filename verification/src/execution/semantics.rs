use crate::syntax::Node;
use vstd::prelude::*;

verus! {

/// The state of a run: the tape, the cell pointer, the input that is still
/// unread and the output written so far.
pub struct Machine {
    pub tape: Seq<u8>,
    pub pointer: int,
    pub input: Seq<u8>,
    pub output: Seq<u8>,
}

/// How a run ended.
#[derive(Debug, Clone, Copy, PartialEq, Eq, Structural)]
pub enum Halt {
    /// The program ran to its end.
    Finished,
    /// A read found the input exhausted, or a write failed.
    IoError,
    /// The cell pointer left the tape.
    OutOfBounds,
    /// A loop went round more often than the run was allowed.
    OutOfFuel,
}

/// Whether the cell pointer of `machine` points at a cell of its tape.
pub open spec fn in_range(machine: Machine) -> bool {
    0 <= machine.pointer < machine.tape.len()
}

/// `cell` after adding `delta`, wrapping around at both ends of a byte.
pub open spec fn added(cell: u8, delta: i8) -> u8 {
    cell.wrapping_add_signed(delta)
}

/// `machine` with `value` in the current cell.
pub open spec fn with_cell(machine: Machine, value: u8) -> Machine {
    Machine { tape: machine.tape.update(machine.pointer, value), ..machine }
}

/// The effect of one instruction that is not a loop. A loop given here has
/// no effect.
pub open spec fn simple(node: Node, machine: Machine) -> (Halt, Machine) {
    match node {
        Node::Add { value } => if in_range(machine) {
            (Halt::Finished, with_cell(machine, added(machine.tape[machine.pointer], value)))
        } else {
            (Halt::OutOfBounds, machine)
        },
        Node::SetCell { value } => if in_range(machine) {
            (Halt::Finished, with_cell(machine, value))
        } else {
            (Halt::OutOfBounds, machine)
        },
        Node::Move { value } => if 0 <= machine.pointer + value < machine.tape.len() {
            (Halt::Finished, Machine { pointer: machine.pointer + value, ..machine })
        } else {
            (Halt::OutOfBounds, machine)
        },
        Node::Write => if in_range(machine) {
            (
                Halt::Finished,
                Machine { output: machine.output.push(machine.tape[machine.pointer]), ..machine },
            )
        } else {
            (Halt::OutOfBounds, machine)
        },
        Node::Read => if !in_range(machine) {
            (Halt::OutOfBounds, machine)
        } else if machine.input.len() == 0 {
            (Halt::IoError, machine)
        } else {
            (
                Halt::Finished,
                Machine {
                    input: machine.input.drop_first(),
                    ..with_cell(machine, machine.input[0])
                },
            )
        },
        Node::Loop { nodes } => (Halt::Finished, machine),
    }
}

/// The effect of a loop over `body`. The loop may go round `fuel` times; the
/// body runs with the fuel that is left when it starts.
pub open spec fn iterate(body: Seq<Node>, machine: Machine, fuel: nat) -> (Halt, Machine)
    decreases fuel, 0nat,
{
    if !in_range(machine) {
        (Halt::OutOfBounds, machine)
    } else if machine.tape[machine.pointer] == 0 {
        (Halt::Finished, machine)
    } else if fuel == 0 {
        (Halt::OutOfFuel, machine)
    } else {
        let (halt, next) = run(body, machine, (fuel - 1) as nat);
        if halt != Halt::Finished {
            (halt, next)
        } else {
            iterate(body, next, (fuel - 1) as nat)
        }
    }
}

/// The effect of one instruction.
pub open spec fn step(node: Node, machine: Machine, fuel: nat) -> (Halt, Machine)
    decreases fuel, 1nat,
{
    match node {
        Node::Loop { nodes } => iterate(nodes, machine, fuel),
        _ => simple(node, machine),
    }
}

/// The effect of a program: its instructions in order, up to the first that
/// does not finish.
pub open spec fn run(nodes: Seq<Node>, machine: Machine, fuel: nat) -> (Halt, Machine)
    decreases fuel, nodes.len() + 2,
{
    if nodes.len() == 0 {
        (Halt::Finished, machine)
    } else {
        let (halt, next) = step(nodes[0], machine, fuel);
        if halt != Halt::Finished {
            (halt, next)
        } else {
            run(nodes.drop_first(), next, fuel)
        }
    }
}

/// `cell` after adding `delta` to it `times` times.
pub open spec fn added_times(cell: u8, delta: i8, times: nat) -> u8
    decreases times,
{
    if times == 0 {
        cell
    } else {
        added_times(added(cell, delta), delta, (times - 1) as nat)
    }
}

/// The program of `times` instructions `node`.
pub open spec fn repeated(node: Node, times: nat) -> Seq<Node> {
    Seq::new(times, |k: int| node)
}

proof fn lemma_counting_up(cell: u8, times: nat)
    requires
        times <= 256,
    ensures
        added_times(cell, 1, times) == if cell + times > 255 {
            cell + times - 256
        } else {
            cell + times
        },
    decreases times,
{
    if times > 0 {
        lemma_counting_up(added(cell, 1), (times - 1) as nat);
    }
}

/// A cell wraps around: adding 1 to it 256 times gives it its value back, and
/// adding -1 to a cell that holds zero gives 255.
pub proof fn cell_wraps_around(cell: u8)
    ensures
        added_times(cell, 1, 256) == cell,
        added(0, -1i8) == 255,
{
    lemma_counting_up(cell, 256);
}

/// A run of `times` instructions `Add` adds to the current cell `times`
/// times, and changes nothing else.
pub proof fn lemma_run_repeated_add(delta: i8, times: nat, machine: Machine, fuel: nat)
    requires
        in_range(machine),
    ensures
        run(repeated(Node::Add { value: delta }, times), machine, fuel) == (
            Halt::Finished,
            with_cell(machine, added_times(machine.tape[machine.pointer], delta, times)),
        ),
    decreases times,
{
    let node = Node::Add { value: delta };
    let cell = machine.tape[machine.pointer];
    if times == 0 {
        assert(with_cell(machine, cell).tape =~= machine.tape);
        assert(with_cell(machine, cell) == machine);
    } else {
        let next = with_cell(machine, added(cell, delta));
        let less = (times - 1) as nat;
        assert(repeated(node, times)[0] == node);
        assert(step(node, machine, fuel) == (Halt::Finished, next));
        assert(repeated(node, times).drop_first() =~= repeated(node, less));
        lemma_run_repeated_add(delta, less, next, fuel);
        assert(next.tape[next.pointer] == added(cell, delta));
        assert(with_cell(next, added_times(added(cell, delta), delta, less)).tape =~= with_cell(
            machine,
            added_times(cell, delta, times),
        ).tape);
    }
}

/// A program of 256 instructions `Add { value: 1 }` leaves the machine as it
/// found it.
pub proof fn run_wraps_around(machine: Machine, fuel: nat)
    requires
        in_range(machine),
    ensures
        run(repeated(Node::Add { value: 1 }, 256), machine, fuel) == (Halt::Finished, machine),
{
    lemma_run_repeated_add(1, 256, machine, fuel);
    cell_wraps_around(machine.tape[machine.pointer]);
    assert(with_cell(machine, machine.tape[machine.pointer]).tape =~= machine.tape);
}

} // verus!
