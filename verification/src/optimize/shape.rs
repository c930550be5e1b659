use crate::optimize::peephole::{
    clears_cell, coalesced_from, combined, deepened, fused, replaced, CombineIncrements,
    CombineSets, Fusion, ReplaceSet,
};
use crate::optimize::OptimizationPass;
use crate::syntax::Node;
use vstd::prelude::*;

verus! {

/// Whether `fusion` joins no two neighbours of `nodes`.
pub open spec fn pairs_apart(fusion: Fusion, nodes: Seq<Node>) -> bool {
    forall|k: int|
        0 <= k < nodes.len() - 1 ==> fused(fusion, #[trigger] nodes[k], nodes[k + 1]) is None
}

/// Whether `fusion` joins no two neighbours of `nodes`, at any depth.
pub open spec fn settled(fusion: Fusion, nodes: Seq<Node>) -> bool
    decreases nodes,
{
    &&& pairs_apart(fusion, nodes)
    &&& forall|k: int|
        0 <= k < nodes.len() && (#[trigger] nodes[k]) is Loop ==> settled(
            fusion,
            nodes[k]->Loop_nodes,
        )
}

/// Whether no two neighbours of `nodes` are both `Add` or both `Move`, at
/// any depth.
pub open spec fn increments_apart(nodes: Seq<Node>) -> bool
    decreases nodes,
{
    &&& forall|k: int|
        0 <= k < nodes.len() - 1 ==> !((#[trigger] nodes[k]) is Add && nodes[k + 1] is Add) && !(
        nodes[k] is Move && nodes[k + 1] is Move)
    &&& forall|k: int|
        0 <= k < nodes.len() && (#[trigger] nodes[k]) is Loop ==> increments_apart(
            nodes[k]->Loop_nodes,
        )
}

/// Whether `nodes` holds no `Add`, `Add`, `SetCell` in a row.
pub open spec fn no_add_add_set(nodes: Seq<Node>) -> bool {
    forall|k: int|
        0 <= k < nodes.len() - 2 ==> !((#[trigger] nodes[k]) is Add && nodes[k + 1] is Add
            && nodes[k + 2] is SetCell)
}

/// Whether `nodes` holds no `Add`, `Add`, `SetCell` in a row, at any depth.
pub open spec fn no_add_add_set_within(nodes: Seq<Node>) -> bool
    decreases nodes,
{
    &&& no_add_add_set(nodes)
    &&& forall|k: int|
        0 <= k < nodes.len() && (#[trigger] nodes[k]) is Loop ==> no_add_add_set_within(
            nodes[k]->Loop_nodes,
        )
}

/// Whether the body of every loop of `nodes` is settled.
pub open spec fn loops_settled(fusion: Fusion, nodes: Seq<Node>) -> bool {
    forall|k: int|
        0 <= k < nodes.len() && (#[trigger] nodes[k]) is Loop ==> settled(
            fusion,
            nodes[k]->Loop_nodes,
        )
}

/// What joining from `previous` on starts with.
proof fn lemma_coalesced_head(fusion: Fusion, previous: Node, rest: Seq<Node>)
    ensures
        coalesced_from(fusion, previous, rest).len() >= 1,
        fusion == Fusion::Increments ==> {
            let head = coalesced_from(fusion, previous, rest)[0];
            &&& head is Add <==> previous is Add
            &&& head is Move <==> previous is Move
            &&& !(previous is Add) && !(previous is Move) ==> head == previous
        },
        fusion == Fusion::Sets ==> {
            let head = coalesced_from(fusion, previous, rest)[0];
            &&& previous is SetCell ==> head is SetCell
            &&& previous is Add ==> head is Add || head is SetCell
            &&& previous is Add && head is SetCell ==> rest.len() > 0 && rest[0] is SetCell
            &&& !(previous is SetCell) && !(previous is Add) ==> head == previous
        },
    decreases rest.len(),
{
    if rest.len() > 0 {
        match fused(fusion, previous, rest[0]) {
            Some(joined) => {
                lemma_coalesced_head(fusion, joined, rest.drop_first());
            },
            None => {},
        }
    }
}

/// What was joined from left to right has no neighbours left to join.
proof fn lemma_coalesced_apart(fusion: Fusion, previous: Node, rest: Seq<Node>)
    requires
        fusion == Fusion::Sets ==> no_add_add_set(seq![previous] + rest),
    ensures
        pairs_apart(fusion, coalesced_from(fusion, previous, rest)),
    decreases rest.len(),
{
    let whole = seq![previous] + rest;
    let out = coalesced_from(fusion, previous, rest);
    if rest.len() > 0 {
        let tail = rest.drop_first();
        match fused(fusion, previous, rest[0]) {
            Some(joined) => {
                if fusion == Fusion::Sets {
                    let next = seq![joined] + tail;
                    assert forall|k: int| 0 <= k < next.len() - 2 implies !((
                    #[trigger] next[k]) is Add && next[k + 1] is Add && next[k + 2] is SetCell) by {
                        if k > 0 {
                            assert(next[k] == whole[k + 1]);
                            assert(next[k + 1] == whole[k + 2]);
                            assert(next[k + 2] == whole[k + 3]);
                        }
                    }
                }
                lemma_coalesced_apart(fusion, joined, tail);
            },
            None => {
                let sub = coalesced_from(fusion, rest[0], tail);
                if fusion == Fusion::Sets {
                    let next = seq![rest[0]] + tail;
                    assert(next =~= rest);
                    assert forall|k: int| 0 <= k < next.len() - 2 implies !((
                    #[trigger] next[k]) is Add && next[k + 1] is Add && next[k + 2] is SetCell) by {
                        assert(next[k] == whole[k + 1]);
                        assert(next[k + 1] == whole[k + 2]);
                        assert(next[k + 2] == whole[k + 3]);
                    }
                    if tail.len() > 0 {
                        assert(whole[0] == previous);
                        assert(whole[1] == rest[0]);
                        assert(whole[2] == tail[0]);
                    }
                }
                lemma_coalesced_apart(fusion, rest[0], tail);
                lemma_coalesced_head(fusion, rest[0], tail);
                assert(fused(fusion, previous, sub[0]) is None);
                assert forall|k: int| 0 <= k < out.len() - 1 implies fused(
                    fusion,
                    #[trigger] out[k],
                    out[k + 1],
                ) is None by {
                    if k > 0 {
                        assert(out[k] == sub[k - 1]);
                        assert(out[k + 1] == sub[k]);
                    }
                }
            },
        }
    }
}

/// Joining neighbours leaves every loop as it is.
proof fn lemma_coalesced_loops(fusion: Fusion, previous: Node, rest: Seq<Node>)
    requires
        loops_settled(fusion, seq![previous] + rest),
    ensures
        loops_settled(fusion, coalesced_from(fusion, previous, rest)),
    decreases rest.len(),
{
    let whole = seq![previous] + rest;
    let out = coalesced_from(fusion, previous, rest);
    assert(whole[0] == previous);
    if rest.len() > 0 {
        let tail = rest.drop_first();
        match fused(fusion, previous, rest[0]) {
            Some(joined) => {
                let next = seq![joined] + tail;
                assert forall|k: int| 0 <= k < next.len() && (#[trigger] next[k]) is Loop implies settled(
                    fusion,
                    next[k]->Loop_nodes,
                ) by {
                    assert(next[k] == whole[k + 1]);
                }
                lemma_coalesced_loops(fusion, joined, tail);
            },
            None => {
                let sub = coalesced_from(fusion, rest[0], tail);
                let next = seq![rest[0]] + tail;
                assert forall|k: int| 0 <= k < next.len() && (#[trigger] next[k]) is Loop implies settled(
                    fusion,
                    next[k]->Loop_nodes,
                ) by {
                    assert(next[k] == whole[k + 1]);
                }
                lemma_coalesced_loops(fusion, rest[0], tail);
                assert forall|k: int| 0 <= k < out.len() && (#[trigger] out[k]) is Loop implies settled(
                    fusion,
                    out[k]->Loop_nodes,
                ) by {
                    if k > 0 {
                        assert(out[k] == sub[k - 1]);
                    }
                }
            },
        }
    }
}

/// Where there is nothing to join, joining changes nothing.
proof fn lemma_coalesced_same(fusion: Fusion, previous: Node, rest: Seq<Node>)
    requires
        pairs_apart(fusion, seq![previous] + rest),
    ensures
        coalesced_from(fusion, previous, rest) == seq![previous] + rest,
    decreases rest.len(),
{
    let whole = seq![previous] + rest;
    if rest.len() == 0 {
        assert(whole =~= seq![previous]);
    } else {
        let tail = rest.drop_first();
        assert(whole[0] == previous);
        assert(whole[1] == rest[0]);
        let next = seq![rest[0]] + tail;
        assert(next =~= rest);
        assert forall|k: int| 0 <= k < next.len() - 1 implies fused(
            fusion,
            #[trigger] next[k],
            next[k + 1],
        ) is None by {
            assert(next[k] == whole[k + 1]);
            assert(next[k + 1] == whole[k + 2]);
        }
        lemma_coalesced_same(fusion, rest[0], tail);
    }
}

/// What a combining pass returns is settled. Joining sets needs a program
/// without `Add`, `Add`, `SetCell` in a row: of these the pass joins the
/// last two, and the first is left beside a `SetCell`.
pub proof fn lemma_combined_settled(fusion: Fusion, nodes: Seq<Node>)
    requires
        fusion == Fusion::Sets ==> no_add_add_set_within(nodes),
    ensures
        settled(fusion, combined(fusion, nodes)),
    decreases nodes,
{
    let inner = deepened(fusion, nodes);
    assert forall|k: int| 0 <= k < inner.len() && (#[trigger] inner[k]) is Loop implies settled(
        fusion,
        inner[k]->Loop_nodes,
    ) by {
        assert(nodes[k] is Loop);
        lemma_combined_settled(fusion, nodes[k]->Loop_nodes);
    }
    if inner.len() > 0 {
        let tail = inner.drop_first();
        assert(seq![inner[0]] + tail =~= inner);
        if fusion == Fusion::Sets {
            assert forall|k: int| 0 <= k < inner.len() - 2 implies !((#[trigger] inner[k]) is Add
                && inner[k + 1] is Add && inner[k + 2] is SetCell) by {
                assert(nodes[k] is Add ==> nodes[k + 1] is Add ==> !(nodes[k + 2] is SetCell));
            }
        }
        lemma_coalesced_apart(fusion, inner[0], tail);
        lemma_coalesced_loops(fusion, inner[0], tail);
    }
}

/// A combining pass changes nothing in a settled program.
pub proof fn lemma_settled_stays(fusion: Fusion, nodes: Seq<Node>)
    requires
        settled(fusion, nodes),
    ensures
        combined(fusion, nodes) == nodes,
    decreases nodes,
{
    let inner = deepened(fusion, nodes);
    assert forall|k: int| 0 <= k < nodes.len() implies inner[k] == nodes[k] by {
        if nodes[k] is Loop {
            lemma_settled_stays(fusion, nodes[k]->Loop_nodes);
        }
    }
    assert(inner =~= nodes);
    if nodes.len() > 0 {
        assert(seq![nodes[0]] + nodes.drop_first() =~= nodes);
        lemma_coalesced_same(fusion, nodes[0], nodes.drop_first());
    }
}

proof fn lemma_settled_increments_apart(nodes: Seq<Node>)
    requires
        settled(Fusion::Increments, nodes),
    ensures
        increments_apart(nodes),
    decreases nodes,
{
    assert forall|k: int| 0 <= k < nodes.len() - 1 implies !((#[trigger] nodes[k]) is Add
        && nodes[k + 1] is Add) && !(nodes[k] is Move && nodes[k + 1] is Move) by {
        assert(fused(Fusion::Increments, nodes[k], nodes[k + 1]) is None);
    }
    assert forall|k: int| 0 <= k < nodes.len() && (#[trigger] nodes[k]) is Loop implies increments_apart(
        nodes[k]->Loop_nodes,
    ) by {
        lemma_settled_increments_apart(nodes[k]->Loop_nodes);
    }
}

/// After joining increments, no two neighbours are both `Add` or both
/// `Move`, at any depth.
pub proof fn combine_increments_leaves_increments_apart(nodes: Seq<Node>)
    ensures
        increments_apart(CombineIncrements.optimized(nodes)),
{
    lemma_combined_settled(Fusion::Increments, nodes);
    lemma_settled_increments_apart(combined(Fusion::Increments, nodes));
}

/// Joining increments a second time changes nothing.
pub proof fn combine_increments_twice(nodes: Seq<Node>)
    ensures
        CombineIncrements.optimized(CombineIncrements.optimized(nodes))
            == CombineIncrements.optimized(nodes),
{
    lemma_combined_settled(Fusion::Increments, nodes);
    lemma_settled_stays(Fusion::Increments, combined(Fusion::Increments, nodes));
}

/// Joining sets a second time changes nothing, where the first time left no
/// neighbours to join. It leaves none in a program without `Add`, `Add`,
/// `SetCell` in a row at any depth, as [`lemma_combined_settled`] shows, and so
/// in every program that comes from joining increments.
pub proof fn combine_sets_twice(nodes: Seq<Node>)
    requires
        settled(Fusion::Sets, CombineSets.optimized(nodes)),
    ensures
        CombineSets.optimized(CombineSets.optimized(nodes)) == CombineSets.optimized(nodes),
{
    lemma_settled_stays(Fusion::Sets, combined(Fusion::Sets, nodes));
}

/// Joining sets a second time changes something, where the first time left
/// neighbours to join.
pub proof fn combine_sets_twice_differs(nodes: Seq<Node>)
    requires
        !settled(Fusion::Sets, CombineSets.optimized(nodes)),
    ensures
        CombineSets.optimized(CombineSets.optimized(nodes)) != CombineSets.optimized(nodes),
{
    let once = combined(Fusion::Sets, nodes);
    if combined(Fusion::Sets, once) == once {
        lemma_fixed_is_settled(Fusion::Sets, once);
    }
}

/// What joining from `previous` on leaves is no longer than what it found,
/// and shorter where it found neighbours to join.
proof fn lemma_coalesced_len(fusion: Fusion, previous: Node, rest: Seq<Node>)
    ensures
        coalesced_from(fusion, previous, rest).len() <= rest.len() + 1,
        !pairs_apart(fusion, seq![previous] + rest) ==> coalesced_from(fusion, previous, rest).len()
            <= rest.len(),
    decreases rest.len(),
{
    let whole = seq![previous] + rest;
    assert(whole[0] == previous);
    if rest.len() > 0 {
        let tail = rest.drop_first();
        assert(whole[1] == rest[0]);
        match fused(fusion, previous, rest[0]) {
            Some(joined) => {
                lemma_coalesced_len(fusion, joined, tail);
            },
            None => {
                lemma_coalesced_len(fusion, rest[0], tail);
                let next = seq![rest[0]] + tail;
                assert(next =~= rest);
                if !pairs_apart(fusion, whole) {
                    let k = choose|k: int|
                        0 <= k < whole.len() - 1 && !(fused(fusion, #[trigger] whole[k], whole[k + 1])
                            is None);
                    assert(k > 0);
                    assert(next[k - 1] == whole[k]);
                    assert(next[k] == whole[k + 1]);
                    assert(!(fused(fusion, next[k - 1], next[k]) is None));
                }
            },
        }
    }
}

/// A program that a combining pass does not change is settled.
pub proof fn lemma_fixed_is_settled(fusion: Fusion, nodes: Seq<Node>)
    requires
        combined(fusion, nodes) == nodes,
    ensures
        settled(fusion, nodes),
    decreases nodes,
{
    let inner = deepened(fusion, nodes);
    if nodes.len() > 0 {
        assert(seq![inner[0]] + inner.drop_first() =~= inner);
        lemma_coalesced_len(fusion, inner[0], inner.drop_first());
        // Nothing was joined, so joining gave back the program with its
        // loops combined.
        assert(pairs_apart(fusion, inner));
        lemma_coalesced_same(fusion, inner[0], inner.drop_first());
        assert(inner == nodes);
    }
    assert forall|k: int| 0 <= k < nodes.len() && (#[trigger] nodes[k]) is Loop implies settled(
        fusion,
        nodes[k]->Loop_nodes,
    ) by {
        assert(inner[k] == nodes[k]);
        lemma_fixed_is_settled(fusion, nodes[k]->Loop_nodes);
    }
}

/// After joining increments, a program holds no `Add`, `Add`, `SetCell` in a
/// row: joining sets twice is then joining them once.
pub proof fn lemma_apart_without_add_add_set(nodes: Seq<Node>)
    requires
        increments_apart(nodes),
    ensures
        no_add_add_set_within(nodes),
    decreases nodes,
{
    assert forall|k: int| 0 <= k < nodes.len() && (#[trigger] nodes[k]) is Loop implies no_add_add_set_within(
        nodes[k]->Loop_nodes,
    ) by {
        lemma_apart_without_add_add_set(nodes[k]->Loop_nodes);
    }
}

/// What replacing does at each place: a loop whose body is one `Add` of 1 or
/// of -1 becomes `SetCell { value: 0 }`, any other loop stays a loop, over
/// its body replaced in turn, and every other instruction stays as it is.
pub proof fn replace_set_places(nodes: Seq<Node>, k: int)
    requires
        0 <= k < nodes.len(),
    ensures
        ReplaceSet.optimized(nodes).len() == nodes.len(),
        clears_cell(nodes[k]) ==> ReplaceSet.optimized(nodes)[k] == (Node::SetCell { value: 0 }),
        nodes[k] is Loop && !clears_cell(nodes[k]) ==> ReplaceSet.optimized(nodes)[k] == (
        Node::Loop { nodes: ReplaceSet.optimized(nodes[k]->Loop_nodes) }),
        !(nodes[k] is Loop) ==> ReplaceSet.optimized(nodes)[k] == nodes[k],
{
}

/// Replacing clearing loops a second time changes nothing.
pub proof fn replace_set_twice(nodes: Seq<Node>)
    ensures
        ReplaceSet.optimized(ReplaceSet.optimized(nodes)) == ReplaceSet.optimized(nodes),
    decreases nodes,
{
    let once = replaced(nodes);
    let twice = replaced(once);
    assert forall|k: int| 0 <= k < nodes.len() implies twice[k] == once[k] by {
        if nodes[k] is Loop && !clears_cell(nodes[k]) {
            let body = nodes[k]->Loop_nodes;
            replace_set_twice(body);
            if body.len() == 1 {
                assert(replaced(body)[0] is Add ==> replaced(body)[0] == body[0]);
            }
        }
    }
    assert(twice =~= once);
}

/// Whether no `SetCell` stands before an `Add` or a `SetCell`, and no `Add`
/// before a `SetCell`, at any depth.
pub open spec fn sets_collapsed(nodes: Seq<Node>) -> bool
    decreases nodes,
{
    &&& forall|k: int|
        0 <= k < nodes.len() - 1 ==> !((#[trigger] nodes[k]) is SetCell && (nodes[k + 1] is Add
            || nodes[k + 1] is SetCell)) && !(nodes[k] is Add && nodes[k + 1] is SetCell)
    &&& forall|k: int|
        0 <= k < nodes.len() && (#[trigger] nodes[k]) is Loop ==> sets_collapsed(
            nodes[k]->Loop_nodes,
        )
}

proof fn lemma_settled_sets_collapsed(nodes: Seq<Node>)
    requires
        settled(Fusion::Sets, nodes),
    ensures
        sets_collapsed(nodes),
    decreases nodes,
{
    assert forall|k: int| 0 <= k < nodes.len() - 1 implies !((#[trigger] nodes[k]) is SetCell && (
    nodes[k + 1] is Add || nodes[k + 1] is SetCell)) && !(nodes[k] is Add && nodes[k + 1] is SetCell) by {
        assert(fused(Fusion::Sets, nodes[k], nodes[k + 1]) is None);
    }
    assert forall|k: int| 0 <= k < nodes.len() && (#[trigger] nodes[k]) is Loop implies sets_collapsed(
        nodes[k]->Loop_nodes,
    ) by {
        lemma_settled_sets_collapsed(nodes[k]->Loop_nodes);
    }
}

/// Whether no two neighbours of `nodes` are both `Add` or both `Move`.
pub open spec fn neighbours_apart(nodes: Seq<Node>) -> bool {
    forall|k: int|
        0 <= k < nodes.len() - 1 ==> !((#[trigger] nodes[k]) is Add && nodes[k + 1] is Add) && !(
        nodes[k] is Move && nodes[k + 1] is Move)
}

/// Whether the body of every loop of `nodes` has its increments apart.
pub open spec fn loops_apart(nodes: Seq<Node>) -> bool {
    forall|k: int|
        0 <= k < nodes.len() && (#[trigger] nodes[k]) is Loop ==> increments_apart(
            nodes[k]->Loop_nodes,
        )
}

/// Replacing clearing loops brings no two increments together.
pub proof fn lemma_replaced_keeps_apart(nodes: Seq<Node>)
    requires
        increments_apart(nodes),
    ensures
        increments_apart(replaced(nodes)),
    decreases nodes,
{
    let out = replaced(nodes);
    assert forall|k: int| 0 <= k < out.len() - 1 implies !((#[trigger] out[k]) is Add && out[k
        + 1] is Add) && !(out[k] is Move && out[k + 1] is Move) by {
        assert(out[k] is Add ==> nodes[k] is Add);
        assert(out[k + 1] is Add ==> nodes[k + 1] is Add);
        assert(out[k] is Move ==> nodes[k] is Move);
        assert(out[k + 1] is Move ==> nodes[k + 1] is Move);
    }
    assert forall|k: int| 0 <= k < out.len() && (#[trigger] out[k]) is Loop implies increments_apart(
        out[k]->Loop_nodes,
    ) by {
        assert(nodes[k] is Loop);
        lemma_replaced_keeps_apart(nodes[k]->Loop_nodes);
    }
}

proof fn lemma_coalesced_sets_apart(previous: Node, rest: Seq<Node>)
    requires
        neighbours_apart(seq![previous] + rest),
        loops_apart(seq![previous] + rest),
    ensures
        neighbours_apart(coalesced_from(Fusion::Sets, previous, rest)),
        loops_apart(coalesced_from(Fusion::Sets, previous, rest)),
    decreases rest.len(),
{
    let fusion = Fusion::Sets;
    let whole = seq![previous] + rest;
    let out = coalesced_from(fusion, previous, rest);
    assert(whole[0] == previous);
    if rest.len() > 0 {
        let tail = rest.drop_first();
        assert(whole[1] == rest[0]);
        match fused(fusion, previous, rest[0]) {
            Some(joined) => {
                let next = seq![joined] + tail;
                assert forall|k: int| 0 <= k < next.len() - 1 implies !((#[trigger] next[k]) is Add
                    && next[k + 1] is Add) && !(next[k] is Move && next[k + 1] is Move) by {
                    if k > 0 {
                        assert(next[k] == whole[k + 1]);
                        assert(next[k + 1] == whole[k + 2]);
                    }
                }
                assert forall|k: int| 0 <= k < next.len() && (#[trigger] next[k]) is Loop implies increments_apart(
                    next[k]->Loop_nodes,
                ) by {
                    assert(next[k] == whole[k + 1]);
                }
                lemma_coalesced_sets_apart(joined, tail);
            },
            None => {
                let sub = coalesced_from(fusion, rest[0], tail);
                let next = seq![rest[0]] + tail;
                assert(next =~= rest);
                assert forall|k: int| 0 <= k < next.len() - 1 implies !((#[trigger] next[k]) is Add
                    && next[k + 1] is Add) && !(next[k] is Move && next[k + 1] is Move) by {
                    assert(next[k] == whole[k + 1]);
                    assert(next[k + 1] == whole[k + 2]);
                }
                assert forall|k: int| 0 <= k < next.len() && (#[trigger] next[k]) is Loop implies increments_apart(
                    next[k]->Loop_nodes,
                ) by {
                    assert(next[k] == whole[k + 1]);
                }
                lemma_coalesced_sets_apart(rest[0], tail);
                lemma_coalesced_head(fusion, rest[0], tail);
                assert forall|k: int| 0 <= k < out.len() - 1 implies !((#[trigger] out[k]) is Add
                    && out[k + 1] is Add) && !(out[k] is Move && out[k + 1] is Move) by {
                    if k > 0 {
                        assert(out[k] == sub[k - 1]);
                        assert(out[k + 1] == sub[k]);
                    } else {
                        assert(out[0] == previous);
                        assert(out[1] == sub[0]);
                    }
                }
                assert forall|k: int| 0 <= k < out.len() && (#[trigger] out[k]) is Loop implies increments_apart(
                    out[k]->Loop_nodes,
                ) by {
                    if k > 0 {
                        assert(out[k] == sub[k - 1]);
                    }
                }
            },
        }
    }
}

/// Joining sets brings no two increments together.
pub proof fn lemma_sets_keep_apart(nodes: Seq<Node>)
    requires
        increments_apart(nodes),
    ensures
        increments_apart(combined(Fusion::Sets, nodes)),
    decreases nodes,
{
    let inner = deepened(Fusion::Sets, nodes);
    assert forall|k: int| 0 <= k < inner.len() && (#[trigger] inner[k]) is Loop implies increments_apart(
        inner[k]->Loop_nodes,
    ) by {
        assert(nodes[k] is Loop);
        lemma_sets_keep_apart(nodes[k]->Loop_nodes);
    }
    assert forall|k: int| 0 <= k < inner.len() - 1 implies !((#[trigger] inner[k]) is Add
        && inner[k + 1] is Add) && !(inner[k] is Move && inner[k + 1] is Move) by {
        assert(inner[k] is Add ==> nodes[k] is Add);
        assert(inner[k + 1] is Add ==> nodes[k + 1] is Add);
        assert(inner[k] is Move ==> nodes[k] is Move);
        assert(inner[k + 1] is Move ==> nodes[k + 1] is Move);
    }
    if inner.len() > 0 {
        assert(seq![inner[0]] + inner.drop_first() =~= inner);
        lemma_coalesced_sets_apart(inner[0], inner.drop_first());
    }
}

/// What the three passes leave, applied in their order: no two neighbours
/// that are both `Add` or both `Move`, no `SetCell` before an `Add` or a
/// `SetCell`, and no `Add` before a `SetCell`, at any depth. Joining sets once
/// more changes nothing.
pub proof fn optimized_shape(nodes: Seq<Node>)
    ensures
        ({
            let result = CombineSets.optimized(
                ReplaceSet.optimized(CombineIncrements.optimized(nodes)),
            );
            &&& increments_apart(result)
            &&& sets_collapsed(result)
            &&& CombineSets.optimized(result) == result
        }),
{
    let joined = combined(Fusion::Increments, nodes);
    let cleared = replaced(joined);
    let result = combined(Fusion::Sets, cleared);
    combine_increments_leaves_increments_apart(nodes);
    lemma_replaced_keeps_apart(joined);
    lemma_sets_keep_apart(cleared);
    lemma_apart_without_add_add_set(cleared);
    lemma_combined_settled(Fusion::Sets, cleared);
    lemma_settled_sets_collapsed(result);
    lemma_settled_stays(Fusion::Sets, result);
}

} // verus!
