use crate::execution::semantics::{
    added, in_range, iterate, run, simple, step, with_cell, Halt, Machine,
};
use crate::optimize::peephole::{
    clears_cell, coalesced_from, combined, deepened, fused, replaced, CombineIncrements,
    CombineSets, Fusion, ReplaceSet,
};
use crate::optimize::OptimizationPass;
use crate::syntax::Node;
use vstd::prelude::*;

verus! {

/// Whether a run that halted with `halt` came to an end of its own: it
/// finished, or its input or output failed.
pub open spec fn conclusive(halt: Halt) -> bool {
    halt == Halt::Finished || halt == Halt::IoError
}

/// The longest tape on which a joined `Move` moves as the `Move`s it stands
/// for: their sum wraps at 32 bits, the cell pointer does not.
pub open spec fn longest_tape() -> int {
    0x8000_0000
}

/// Whether `machine` is steady, if `strict`; with `strict` false, every
/// machine passes. A steady machine has its cell pointer on the tape, or at
/// the start of an empty one, and a tape no longer than [`longest_tape`].
pub open spec fn steady(strict: bool, machine: Machine) -> bool {
    strict ==> {
        &&& machine.tape.len() <= longest_tape()
        &&& 0 <= machine.pointer
        &&& machine.pointer == 0 || machine.pointer < machine.tape.len()
    }
}

/// Whether joining increments from `previous` on never joins two `Move`s
/// whose sum wraps.
pub open spec fn sums_fit_from(previous: Node, rest: Seq<Node>) -> bool
    decreases rest.len(),
{
    if rest.len() == 0 {
        true
    } else {
        &&& previous is Move && rest[0] is Move ==> i32::MIN <= previous->Move_value
            + rest[0]->Move_value <= i32::MAX
        &&& match fused(Fusion::Increments, previous, rest[0]) {
            Some(joined) => sums_fit_from(joined, rest.drop_first()),
            None => sums_fit_from(rest[0], rest.drop_first()),
        }
    }
}

/// Whether joining increments never joins two `Move`s whose sum wraps, at
/// any depth.
pub open spec fn sums_fit(nodes: Seq<Node>) -> bool
    decreases nodes,
{
    &&& nodes.len() > 0 ==> sums_fit_from(nodes[0], nodes.drop_first())
    &&& forall|k: int|
        0 <= k < nodes.len() && (#[trigger] nodes[k]) is Loop ==> sums_fit(nodes[k]->Loop_nodes)
}

/// Whether joining increments keeps the runs of `nodes` from `machine`: the
/// machine is steady, or no sum of joined `Move`s wraps.
pub open spec fn joinable(fusion: Fusion, nodes: Seq<Node>, machine: Machine) -> bool {
    fusion == Fusion::Increments ==> steady(true, machine) || sums_fit(nodes)
}

/// A program that starts with `first` runs `first`, and then the rest.
pub proof fn lemma_run_first(first: Node, rest: Seq<Node>, machine: Machine, fuel: nat)
    ensures
        run(seq![first] + rest, machine, fuel) == {
            let (halt, next) = step(first, machine, fuel);
            if halt != Halt::Finished {
                (halt, next)
            } else {
                run(rest, next, fuel)
            }
        },
{
    let whole = seq![first] + rest;
    assert(whole[0] == first);
    assert(whole.drop_first() =~= rest);
}

/// No run changes the length of the tape, nor takes the cell pointer off it.
pub proof fn lemma_tape_length(nodes: Seq<Node>, machine: Machine, fuel: nat)
    ensures
        run(nodes, machine, fuel).1.tape.len() == machine.tape.len(),
        forall|strict: bool|
            steady(strict, machine) ==> #[trigger] steady(strict, run(nodes, machine, fuel).1),
    decreases fuel, nodes.len() + 2,
{
    if nodes.len() > 0 {
        lemma_step_tape_length(nodes[0], machine, fuel);
        let (halt, next) = step(nodes[0], machine, fuel);
        if halt == Halt::Finished {
            lemma_tape_length(nodes.drop_first(), next, fuel);
        }
    }
}

/// No instruction changes the length of the tape, nor takes the cell
/// pointer off it.
pub proof fn lemma_step_tape_length(node: Node, machine: Machine, fuel: nat)
    ensures
        step(node, machine, fuel).1.tape.len() == machine.tape.len(),
        forall|strict: bool|
            steady(strict, machine) ==> #[trigger] steady(strict, step(node, machine, fuel).1),
    decreases fuel, 1nat,
{
    match node {
        Node::Loop { nodes } => lemma_iterate_tape_length(nodes, machine, fuel),
        _ => {},
    }
}

/// No loop changes the length of the tape, nor takes the cell pointer off
/// it.
pub proof fn lemma_iterate_tape_length(body: Seq<Node>, machine: Machine, fuel: nat)
    ensures
        iterate(body, machine, fuel).1.tape.len() == machine.tape.len(),
        forall|strict: bool|
            steady(strict, machine) ==> #[trigger] steady(strict, iterate(body, machine, fuel).1),
    decreases fuel, 0nat,
{
    if in_range(machine) && machine.tape[machine.pointer] != 0 && fuel > 0 {
        lemma_tape_length(body, machine, (fuel - 1) as nat);
        let (halt, next) = run(body, machine, (fuel - 1) as nat);
        if halt == Halt::Finished {
            lemma_iterate_tape_length(body, next, (fuel - 1) as nat);
        }
    }
}

/// Two instructions that a pass joins, run one after the other, do what the
/// joined instruction does.
proof fn lemma_fused_step(fusion: Fusion, previous: Node, current: Node, machine: Machine)
    requires
        fused(fusion, previous, current) is Some,
        fusion == Fusion::Increments ==> steady(true, machine) || !(previous is Move) || (i32::MIN
            <= previous->Move_value + current->Move_value <= i32::MAX),
        simple(previous, machine).0 == Halt::Finished,
        simple(current, simple(previous, machine).1).0 == Halt::Finished,
    ensures
        simple(fused(fusion, previous, current)->Some_0, machine) == simple(
            current,
            simple(previous, machine).1,
        ),
{
    let joined = fused(fusion, previous, current)->Some_0;
    let between = simple(previous, machine).1;
    let after = simple(current, between).1;
    let direct = simple(joined, machine).1;
    let cell = machine.tape[machine.pointer];
    match (previous, current) {
        (Node::Add { value: a }, Node::Add { value: b }) => {
            lemma_added_twice(cell, a, b);
        },
        (Node::Move { value: a }, Node::Move { value: b }) => {
            assert(i32::MIN <= a + b <= i32::MAX);
            assert(a.wrapping_add(b) == a + b);
        },
        _ => {},
    }
    assert(direct.tape =~= after.tape);
}

/// Adding twice is adding the wrapped sum once.
pub proof fn lemma_added_twice(cell: u8, first: i8, second: i8)
    ensures
        added(added(cell, first), second) == added(cell, first.wrapping_add(second)),
{
}

/// Joining neighbours from left to right changes no run that comes to an
/// end of its own.
proof fn lemma_coalesced_runs_alike(
    fusion: Fusion,
    previous: Node,
    rest: Seq<Node>,
    machine: Machine,
    fuel: nat,
)
    requires
        conclusive(run(seq![previous] + rest, machine, fuel).0),
        fusion == Fusion::Increments ==> steady(true, machine) || sums_fit_from(previous, rest),
    ensures
        run(coalesced_from(fusion, previous, rest), machine, fuel) == run(
            seq![previous] + rest,
            machine,
            fuel,
        ),
    decreases rest.len(),
{
    lemma_run_first(previous, rest, machine, fuel);
    if rest.len() == 0 {
        assert(seq![previous] + rest =~= seq![previous]);
    } else {
        let tail = rest.drop_first();
        assert(seq![rest[0]] + tail =~= rest);
        let (halt, next) = step(previous, machine, fuel);
        match fused(fusion, previous, rest[0]) {
            Some(joined) => {
                lemma_run_first(rest[0], tail, next, fuel);
                lemma_run_first(joined, tail, machine, fuel);
                lemma_fused_step(fusion, previous, rest[0], machine);
                lemma_coalesced_runs_alike(fusion, joined, tail, machine, fuel);
            },
            None => {
                lemma_run_first(previous, coalesced_from(fusion, rest[0], tail), machine, fuel);
                if halt == Halt::Finished {
                    lemma_step_tape_length(previous, machine, fuel);
                    lemma_coalesced_runs_alike(fusion, rest[0], tail, next, fuel);
                }
            },
        }
    }
}

/// A loop over a body that runs alike goes round alike.
proof fn lemma_iterate_alike(
    body: Seq<Node>,
    other: Seq<Node>,
    machine: Machine,
    fuel: nat,
    strict: bool,
)
    requires
        steady(strict, machine),
        conclusive(iterate(body, machine, fuel).0),
        forall|m: Machine, f: nat|
            steady(strict, m) && conclusive((#[trigger] run(body, m, f)).0) ==> run(
                other,
                m,
                f,
            ) == run(body, m, f),
    ensures
        iterate(other, machine, fuel) == iterate(body, machine, fuel),
    decreases fuel,
{
    if in_range(machine) && machine.tape[machine.pointer] != 0 && fuel > 0 {
        let less = (fuel - 1) as nat;
        let (halt, next) = run(body, machine, less);
        assert(conclusive(halt));
        if halt == Halt::Finished {
            lemma_tape_length(body, machine, less);
            lemma_iterate_alike(body, other, next, less, strict);
        }
    }
}

/// Two programs whose instructions do alike, one by one, run alike.
proof fn lemma_run_alike(
    nodes: Seq<Node>,
    others: Seq<Node>,
    machine: Machine,
    fuel: nat,
    strict: bool,
)
    requires
        nodes.len() == others.len(),
        steady(strict, machine),
        conclusive(run(nodes, machine, fuel).0),
        forall|k: int, m: Machine|
            0 <= k < nodes.len() && steady(strict, m) && conclusive(
                (#[trigger] step(nodes[k], m, fuel)).0,
            ) ==> step(others[k], m, fuel) == step(nodes[k], m, fuel),
    ensures
        run(others, machine, fuel) == run(nodes, machine, fuel),
    decreases nodes.len(),
{
    if nodes.len() > 0 {
        let (halt, next) = step(nodes[0], machine, fuel);
        assert(conclusive(halt));
        assert(step(others[0], machine, fuel) == step(nodes[0], machine, fuel));
        if halt == Halt::Finished {
            lemma_step_tape_length(nodes[0], machine, fuel);
            let tail = nodes.drop_first();
            let other_tail = others.drop_first();
            assert forall|k: int, m: Machine|
                0 <= k < tail.len() && steady(strict, m) && conclusive(
                    (#[trigger] step(tail[k], m, fuel)).0,
                ) implies step(other_tail[k], m, fuel) == step(tail[k], m, fuel) by {
                assert(tail[k] == nodes[k + 1]);
                assert(other_tail[k] == others[k + 1]);
            }
            lemma_run_alike(tail, other_tail, next, fuel, strict);
        }
    }
}

/// A run of the combined program ends as the run of the program itself,
/// wherever that one comes to an end of its own.
pub proof fn lemma_combined_runs_alike(
    fusion: Fusion,
    nodes: Seq<Node>,
    machine: Machine,
    fuel: nat,
)
    requires
        conclusive(run(nodes, machine, fuel).0),
        joinable(fusion, nodes, machine),
    ensures
        run(combined(fusion, nodes), machine, fuel) == run(nodes, machine, fuel),
    decreases nodes,
{
    let strict = fusion == Fusion::Increments && steady(true, machine);
    let inner = deepened(fusion, nodes);
    assert forall|k: int, m: Machine|
        0 <= k < nodes.len() && steady(strict, m) && conclusive(
            (#[trigger] step(nodes[k], m, fuel)).0,
        ) implies step(inner[k], m, fuel) == step(nodes[k], m, fuel) by {
        match nodes[k] {
            Node::Loop { nodes: body } => {
                assert forall|n: Machine, f: nat|
                    steady(strict, n) && conclusive(
                        (#[trigger] run(body, n, f)).0,
                    ) implies run(combined(fusion, body), n, f) == run(body, n, f) by {
                    lemma_combined_runs_alike(fusion, body, n, f);
                }
                lemma_iterate_alike(body, combined(fusion, body), m, fuel, strict);
            },
            _ => {},
        }
    }
    lemma_run_alike(nodes, inner, machine, fuel, strict);
    if inner.len() > 0 {
        assert(seq![inner[0]] + inner.drop_first() =~= inner);
        if fusion == Fusion::Increments && !steady(true, machine) {
            assert forall|k: int| 0 <= k < nodes.len() implies alike_but_loops(
                #[trigger] nodes[k],
                inner[k],
            ) by {}
            lemma_sums_fit_alike(nodes[0], nodes.drop_first(), inner[0], inner.drop_first());
        }
        lemma_coalesced_runs_alike(fusion, inner[0], inner.drop_first(), machine, fuel);
    }
}

/// Whether two instructions are the same, or both loops.
pub open spec fn alike_but_loops(node: Node, other: Node) -> bool {
    node == other || (node is Loop && other is Loop)
}

/// Whether the sums of joined `Move`s wrap does not depend on what the loops
/// hold.
proof fn lemma_sums_fit_alike(previous: Node, rest: Seq<Node>, other: Node, others: Seq<Node>)
    requires
        rest.len() == others.len(),
        alike_but_loops(previous, other),
        forall|k: int| 0 <= k < rest.len() ==> alike_but_loops(#[trigger] rest[k], others[k]),
    ensures
        sums_fit_from(previous, rest) == sums_fit_from(other, others),
    decreases rest.len(),
{
    if rest.len() > 0 {
        let tail = rest.drop_first();
        let other_tail = others.drop_first();
        assert(alike_but_loops(rest[0], others[0]));
        assert forall|k: int| 0 <= k < tail.len() implies alike_but_loops(
            #[trigger] tail[k],
            other_tail[k],
        ) by {
            assert(tail[k] == rest[k + 1]);
            assert(other_tail[k] == others[k + 1]);
            assert(alike_but_loops(rest[k + 1], others[k + 1]));
        }
        match fused(Fusion::Increments, previous, rest[0]) {
            Some(joined) => {
                lemma_sums_fit_alike(joined, tail, joined, other_tail);
            },
            None => {
                lemma_sums_fit_alike(rest[0], tail, others[0], other_tail);
            },
        }
    }
}

/// A loop that only counts its cell down or up ends, if it ends, with zero
/// in the cell and nothing else changed.
proof fn lemma_clearing_loop(delta: i8, machine: Machine, fuel: nat)
    requires
        delta == 1 || delta == -1,
        conclusive(iterate(seq![Node::Add { value: delta }], machine, fuel).0),
    ensures
        iterate(seq![Node::Add { value: delta }], machine, fuel) == simple(
            Node::SetCell { value: 0 },
            machine,
        ),
    decreases fuel,
{
    let body = seq![Node::Add { value: delta }];
    let cleared = with_cell(machine, 0);
    if machine.tape[machine.pointer] == 0 {
        assert(cleared.tape =~= machine.tape);
    } else {
        assert(in_range(machine) && fuel > 0);
        let less = (fuel - 1) as nat;
        let next = with_cell(machine, added(machine.tape[machine.pointer], delta));
        assert(body.drop_first() =~= Seq::<Node>::empty());
        assert(body[0] == Node::Add { value: delta });
        assert(step(body[0], machine, less) == (Halt::Finished, next));
        assert(run(body.drop_first(), next, less) == (Halt::Finished, next));
        assert(run(body, machine, less) == (Halt::Finished, next));
        lemma_clearing_loop(delta, next, less);
        assert(with_cell(next, 0).tape =~= cleared.tape);
    }
}

/// A run of the program with its clearing loops replaced ends as the run of
/// the program itself, wherever that one comes to an end of its own.
pub proof fn lemma_replaced_runs_alike(nodes: Seq<Node>, machine: Machine, fuel: nat)
    requires
        conclusive(run(nodes, machine, fuel).0),
    ensures
        run(replaced(nodes), machine, fuel) == run(nodes, machine, fuel),
    decreases nodes,
{
    let others = replaced(nodes);
    assert forall|k: int, m: Machine|
        0 <= k < nodes.len() && steady(false, m) && conclusive(
            (#[trigger] step(nodes[k], m, fuel)).0,
        ) implies step(others[k], m, fuel) == step(nodes[k], m, fuel) by {
        match nodes[k] {
            Node::Loop { nodes: body } => {
                if clears_cell(nodes[k]) {
                    let delta = body[0]->Add_value;
                    assert(body =~= seq![Node::Add { value: delta }]);
                    lemma_clearing_loop(delta, m, fuel);
                } else {
                    assert forall|n: Machine, f: nat|
                        steady(false, n) && conclusive(
                            (#[trigger] run(body, n, f)).0,
                        ) implies run(replaced(body), n, f) == run(body, n, f) by {
                        lemma_replaced_runs_alike(body, n, f);
                    }
                    lemma_iterate_alike(body, replaced(body), m, fuel, false);
                }
            },
            _ => {},
        }
    }
    lemma_run_alike(nodes, others, machine, fuel, false);
}

/// Joining increments keeps what a program does: a run that comes to an end
/// of its own ends alike, with the same tape, pointer, input left and output,
/// after the pass as before. This holds on a tape of at most [`longest_tape`]
/// cells with the cell pointer on it, and on any tape for a program in which
/// no sum of joined `Move`s wraps.
pub proof fn combine_increments_keeps_runs(nodes: Seq<Node>, machine: Machine, fuel: nat)
    requires
        steady(true, machine) || sums_fit(nodes),
        conclusive(run(nodes, machine, fuel).0),
    ensures
        run(CombineIncrements.optimized(nodes), machine, fuel) == run(nodes, machine, fuel),
{
    lemma_combined_runs_alike(Fusion::Increments, nodes, machine, fuel);
}

/// Replacing clearing loops keeps what a program does: a run that comes to
/// an end of its own ends alike, with the same tape, pointer, input left and
/// output, after the pass as before.
pub proof fn replace_set_keeps_runs(nodes: Seq<Node>, machine: Machine, fuel: nat)
    requires
        conclusive(run(nodes, machine, fuel).0),
    ensures
        run(ReplaceSet.optimized(nodes), machine, fuel) == run(nodes, machine, fuel),
{
    lemma_replaced_runs_alike(nodes, machine, fuel);
}

/// Joining sets keeps what a program does: a run that comes to an end of its
/// own ends alike, with the same tape, pointer, input left and output, after
/// the pass as before.
pub proof fn combine_sets_keeps_runs(nodes: Seq<Node>, machine: Machine, fuel: nat)
    requires
        conclusive(run(nodes, machine, fuel).0),
    ensures
        run(CombineSets.optimized(nodes), machine, fuel) == run(nodes, machine, fuel),
{
    lemma_combined_runs_alike(Fusion::Sets, nodes, machine, fuel);
}

/// The three passes, applied in their order, keep what a program does: a
/// run that comes to an end of its own ends alike after the passes as before,
/// where joining increments keeps it.
pub proof fn passes_keep_runs(nodes: Seq<Node>, machine: Machine, fuel: nat)
    requires
        steady(true, machine) || sums_fit(nodes),
        conclusive(run(nodes, machine, fuel).0),
    ensures
        run(
            CombineSets.optimized(ReplaceSet.optimized(CombineIncrements.optimized(nodes))),
            machine,
            fuel,
        ) == run(nodes, machine, fuel),
{
    let joined = CombineIncrements.optimized(nodes);
    let cleared = ReplaceSet.optimized(joined);
    combine_increments_keeps_runs(nodes, machine, fuel);
    replace_set_keeps_runs(joined, machine, fuel);
    combine_sets_keeps_runs(cleared, machine, fuel);
}

} // verus!
