use crate::execution::semantics::added;
use crate::optimize::OptimizationPass;
use crate::syntax::{lemma_loop_view, Instruction, Node};
use itertools::Itertools;
use vstd::prelude::*;

verus! {

/// Which neighbours a pass joins.
#[derive(Debug, Clone, Copy, PartialEq, Eq, Structural)]
pub enum Fusion {
    /// `Add` with `Add`, and `Move` with `Move`.
    Increments,
    /// `SetCell` with a following `SetCell` or `Add`, and `Add` with a
    /// following `SetCell`.
    Sets,
}

/// The instruction that stands for `previous` followed by `current`, where
/// `fusion` joins the two.
pub open spec fn fused(fusion: Fusion, previous: Node, current: Node) -> Option<Node> {
    match (fusion, previous, current) {
        (Fusion::Increments, Node::Add { value: a }, Node::Add { value: b }) => Some(
            Node::Add { value: a.wrapping_add(b) },
        ),
        (Fusion::Increments, Node::Move { value: a }, Node::Move { value: b }) => Some(
            Node::Move { value: a.wrapping_add(b) },
        ),
        (Fusion::Sets, Node::SetCell { value: a }, Node::SetCell { value: b }) => Some(
            Node::SetCell { value: b },
        ),
        (Fusion::Sets, Node::SetCell { value: a }, Node::Add { value: b }) => Some(
            Node::SetCell { value: added(a, b) },
        ),
        (Fusion::Sets, Node::Add { value: a }, Node::SetCell { value: b }) => Some(
            Node::SetCell { value: b },
        ),
        _ => None,
    }
}

/// `previous` followed by `rest`, with neighbours joined from left to right:
/// what was joined goes on as the left neighbour of what follows.
pub open spec fn coalesced_from(fusion: Fusion, previous: Node, rest: Seq<Node>) -> Seq<Node>
    decreases rest.len(),
{
    if rest.len() == 0 {
        seq![previous]
    } else {
        match fused(fusion, previous, rest[0]) {
            Some(joined) => coalesced_from(fusion, joined, rest.drop_first()),
            None => seq![previous] + coalesced_from(fusion, rest[0], rest.drop_first()),
        }
    }
}

/// `nodes` with neighbours joined from left to right.
pub open spec fn coalesced(fusion: Fusion, nodes: Seq<Node>) -> Seq<Node> {
    if nodes.len() == 0 {
        nodes
    } else {
        coalesced_from(fusion, nodes[0], nodes.drop_first())
    }
}

/// `nodes` with every loop body combined, at every depth; the instructions
/// of `nodes` itself stay apart.
pub open spec fn deepened(fusion: Fusion, nodes: Seq<Node>) -> Seq<Node>
    decreases nodes, 0nat,
{
    Seq::new(
        nodes.len(),
        |k: int|
            if 0 <= k < nodes.len() {
                match nodes[k] {
                    Node::Loop { nodes: body } => Node::Loop { nodes: combined(fusion, body) },
                    other => other,
                }
            } else {
                Node::Write
            },
    )
}

/// `nodes` with neighbours joined, at every depth.
pub open spec fn combined(fusion: Fusion, nodes: Seq<Node>) -> Seq<Node>
    decreases nodes, 1nat,
{
    coalesced(fusion, deepened(fusion, nodes))
}

/// Whether `node` is a loop that only counts its cell down or up to zero.
pub open spec fn clears_cell(node: Node) -> bool {
    match node {
        Node::Loop { nodes } => nodes.len() == 1 && (nodes[0] == (Node::Add { value: 1 })
            || nodes[0] == (Node::Add { value: -1i8 })),
        _ => false,
    }
}

/// `nodes` with every loop that only clears its cell replaced by
/// `SetCell { value: 0 }`, at every depth.
pub open spec fn replaced(nodes: Seq<Node>) -> Seq<Node>
    decreases nodes,
{
    Seq::new(
        nodes.len(),
        |k: int|
            if 0 <= k < nodes.len() {
                match nodes[k] {
                    Node::Loop { nodes: body } => if clears_cell(nodes[k]) {
                        Node::SetCell { value: 0 }
                    } else {
                        Node::Loop { nodes: replaced(body) }
                    },
                    other => other,
                }
            } else {
                Node::Write
            },
    )
}

/// Joins `previous` and `current` where `fusion` joins them, and hands both
/// back unchanged where it does not.
pub fn fuse(fusion: Fusion, previous: Instruction, current: Instruction) -> (result: Result<
    Instruction,
    (Instruction, Instruction),
>)
    ensures
        match fused(fusion, previous.deep_view(), current.deep_view()) {
            Some(joined) => result is Ok && result->Ok_0.deep_view() == joined,
            None => result == Err::<Instruction, (Instruction, Instruction)>((previous, current)),
        },
{
    match fusion {
        Fusion::Increments => match (previous, current) {
            (Instruction::Add { value: a }, Instruction::Add { value: b }) => Ok(
                Instruction::Add { value: a.wrapping_add(b) },
            ),
            (Instruction::Move { value: a }, Instruction::Move { value: b }) => Ok(
                Instruction::Move { value: a.wrapping_add(b) },
            ),
            (previous, current) => Err((previous, current)),
        },
        Fusion::Sets => match (previous, current) {
            (Instruction::SetCell { value: a }, Instruction::SetCell { value: b }) => Ok(
                Instruction::SetCell { value: b },
            ),
            (Instruction::SetCell { value: a }, Instruction::Add { value: b }) => Ok(
                Instruction::SetCell { value: a.wrapping_add_signed(b) },
            ),
            (Instruction::Add { value: a }, Instruction::SetCell { value: b }) => Ok(
                Instruction::SetCell { value: b },
            ),
            (previous, current) => Err((previous, current)),
        },
    }
}

/// `itertools::Itertools::coalesce` over the instructions of `nodes`, with
/// [`fuse`] as the closure. The adaptor hands `fuse` the instruction it holds
/// and the next one; what `fuse` joins it holds on to, and where `fuse`
/// declines it emits the first and holds the second. What it holds at the
/// end it emits too. The contract says this with [`coalesced`].
#[verifier::external_body]
fn coalesce(fusion: Fusion, nodes: Vec<Instruction>) -> (result: Vec<Instruction>)
    ensures
        result.deep_view() == coalesced(fusion, nodes.deep_view()),
{
    nodes.into_iter().coalesce(|previous, current| fuse(fusion, previous, current)).collect()
}

fn combine(fusion: Fusion, nodes: &Vec<Instruction>) -> (result: Vec<Instruction>)
    ensures
        result.deep_view() == combined(fusion, nodes.deep_view()),
    decreases nodes,
{
    let ghost model = nodes.deep_view();
    let mut inner: Vec<Instruction> = Vec::new();
    let mut i: usize = 0;
    while i < nodes.len()
        invariant
            i <= nodes.len(),
            model == nodes.deep_view(),
            inner.len() == i,
            forall|k: int| 0 <= k < i ==> (#[trigger] inner.deep_view()[k]) == deepened(fusion, model)[k],
        decreases nodes.len() - i,
    {
        let ghost before = inner.deep_view();
        let rebuilt = match &nodes[i] {
            Instruction::Add { value } => Instruction::Add { value: *value },
            Instruction::Move { value } => Instruction::Move { value: *value },
            Instruction::Loop { nodes: body } => {
                proof {
                    lemma_loop_view(*body);
                }
                let body = combine(fusion, body);
                proof {
                    lemma_loop_view(body);
                }
                Instruction::Loop { nodes: body }
            },
            Instruction::Write => Instruction::Write,
            Instruction::Read => Instruction::Read,
            Instruction::SetCell { value } => Instruction::SetCell { value: *value },
        };
        inner.push(rebuilt);
        assert(inner.deep_view() =~= before.push(rebuilt.deep_view()));
        i += 1;
    }
    assert(inner.deep_view() =~= deepened(fusion, model));
    coalesce(fusion, inner)
}

fn replace(nodes: &Vec<Instruction>) -> (result: Vec<Instruction>)
    ensures
        result.deep_view() == replaced(nodes.deep_view()),
    decreases nodes,
{
    let ghost model = nodes.deep_view();
    let mut result: Vec<Instruction> = Vec::new();
    let mut i: usize = 0;
    while i < nodes.len()
        invariant
            i <= nodes.len(),
            model == nodes.deep_view(),
            result.len() == i,
            forall|k: int| 0 <= k < i ==> (#[trigger] result.deep_view()[k]) == replaced(model)[k],
        decreases nodes.len() - i,
    {
        let ghost before = result.deep_view();
        let rebuilt = match &nodes[i] {
            Instruction::Add { value } => Instruction::Add { value: *value },
            Instruction::Move { value } => Instruction::Move { value: *value },
            Instruction::Loop { nodes: body } => {
                proof {
                    lemma_loop_view(*body);
                }
                if clears(body) {
                    Instruction::SetCell { value: 0 }
                } else {
                    let body = replace(body);
                    proof {
                        lemma_loop_view(body);
                    }
                    Instruction::Loop { nodes: body }
                }
            },
            Instruction::Write => Instruction::Write,
            Instruction::Read => Instruction::Read,
            Instruction::SetCell { value } => Instruction::SetCell { value: *value },
        };
        result.push(rebuilt);
        assert(result.deep_view() =~= before.push(rebuilt.deep_view()));
        i += 1;
    }
    assert(result.deep_view() =~= replaced(model));
    result
}

fn clears(body: &Vec<Instruction>) -> (clears: bool)
    ensures
        clears == clears_cell(Node::Loop { nodes: body.deep_view() }),
{
    if body.len() != 1 {
        return false;
    }
    match &body[0] {
        Instruction::Add { value } => *value == 1 || *value == -1,
        _ => false,
    }
}

/// Joins neighbouring `Add`s into one `Add` and neighbouring `Move`s into
/// one `Move`, each with the wrapped sum, at every depth.
pub struct CombineIncrements;

impl OptimizationPass for CombineIncrements {
    open spec fn optimized(&self, nodes: Seq<Node>) -> Seq<Node> {
        combined(Fusion::Increments, nodes)
    }

    fn optimize(&self, nodes: Vec<Instruction>) -> (result: Vec<Instruction>) {
        combine(Fusion::Increments, &nodes)
    }
}

/// Replaces every loop whose body is one `Add` of 1 or of -1 by
/// `SetCell { value: 0 }`, at every depth.
pub struct ReplaceSet;

impl OptimizationPass for ReplaceSet {
    open spec fn optimized(&self, nodes: Seq<Node>) -> Seq<Node> {
        replaced(nodes)
    }

    fn optimize(&self, nodes: Vec<Instruction>) -> (result: Vec<Instruction>) {
        replace(&nodes)
    }
}

/// Joins a `SetCell` with a `SetCell` or an `Add` that follows it, and an
/// `Add` with a `SetCell` that follows it, into one `SetCell`, at every depth.
pub struct CombineSets;

impl OptimizationPass for CombineSets {
    open spec fn optimized(&self, nodes: Seq<Node>) -> Seq<Node> {
        combined(Fusion::Sets, nodes)
    }

    fn optimize(&self, nodes: Vec<Instruction>) -> (result: Vec<Instruction>) {
        combine(Fusion::Sets, &nodes)
    }
}

} // verus!
