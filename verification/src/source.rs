use crate::syntax::{
    all_raw, balanced, count_of, depth, is_raw, source_of, token_of, Node, CLOSE, COMMA, DOT, LEFT,
    MINUS, OPEN, PLUS, RIGHT,
};
use vstd::prelude::*;

verus! {

/// A byte occurs in two texts, one after the other, as often as in both.
pub proof fn lemma_count_add(first: Seq<u8>, second: Seq<u8>, byte: u8)
    ensures
        count_of(first + second, byte) == count_of(first, byte) + count_of(second, byte),
    decreases second.len(),
{
    if second.len() == 0 {
        assert(first + second =~= first);
    } else {
        assert((first + second).drop_last() =~= first + second.drop_last());
        lemma_count_add(first, second.drop_last(), byte);
    }
}

/// The depth of two texts, one after the other, is the sum of their depths.
pub proof fn lemma_depth_add(first: Seq<u8>, second: Seq<u8>)
    ensures
        depth(first + second) == depth(first) + depth(second),
{
    lemma_count_add(first, second, OPEN);
    lemma_count_add(first, second, CLOSE);
}

proof fn lemma_depth_of_one(byte: u8)
    ensures
        depth(seq![byte]) == if byte == OPEN {
            1int
        } else if byte == CLOSE {
            -1int
        } else {
            0int
        },
{
    let one = seq![byte];
    assert(one.drop_last() =~= Seq::<u8>::empty());
    assert(count_of(one.drop_last(), OPEN) == 0);
    assert(count_of(one.drop_last(), CLOSE) == 0);
    assert(one.last() == byte);
}

/// Two texts whose brackets match, one after the other, are a text whose
/// brackets match.
pub proof fn lemma_balanced_add(first: Seq<u8>, second: Seq<u8>)
    requires
        balanced(first),
        balanced(second),
    ensures
        balanced(first + second),
{
    let whole = first + second;
    lemma_depth_add(first, second);
    assert forall|k: int| 0 <= k <= whole.len() implies depth(#[trigger] whole.take(k)) >= 0 by {
        if k <= first.len() {
            assert(whole.take(k) =~= first.take(k));
        } else {
            assert(whole.take(k) =~= first + second.take(k - first.len()));
            lemma_depth_add(first, second.take(k - first.len()));
        }
    }
}

/// A text whose brackets match, between `[` and `]`, is a text whose
/// brackets match.
pub proof fn lemma_balanced_wrap(body: Seq<u8>)
    requires
        balanced(body),
    ensures
        balanced(seq![OPEN] + body + seq![CLOSE]),
{
    let whole = seq![OPEN] + body + seq![CLOSE];
    lemma_depth_of_one(OPEN);
    lemma_depth_of_one(CLOSE);
    lemma_depth_add(seq![OPEN], body);
    lemma_depth_add(seq![OPEN] + body, seq![CLOSE]);
    assert forall|k: int| 0 <= k <= whole.len() implies depth(#[trigger] whole.take(k)) >= 0 by {
        if k == 0 {
            assert(whole.take(k) =~= Seq::<u8>::empty());
        } else if k <= body.len() + 1 {
            assert(whole.take(k) =~= seq![OPEN] + body.take(k - 1));
            lemma_depth_add(seq![OPEN], body.take(k - 1));
        } else {
            assert(whole.take(k) =~= whole);
        }
    }
}

/// The text of an instruction that source text can express is not empty, and
/// its brackets match. It ends in `]` exactly where the instruction is a
/// loop; the text of any other is one byte.
pub proof fn lemma_token(node: Node)
    requires
        is_raw(node),
    ensures
        token_of(node).len() >= 1,
        balanced(token_of(node)),
        token_of(node).last() == CLOSE <==> node is Loop,
        !(node is Loop) ==> token_of(node).len() == 1,
    decreases node, 0nat,
{
    match node {
        Node::Loop { nodes } => {
            lemma_source(nodes);
            lemma_balanced_wrap(source_of(nodes));
        },
        _ => {
            let text = token_of(node);
            lemma_depth_of_one(text[0]);
            assert forall|k: int| 0 <= k <= text.len() implies depth(#[trigger] text.take(k))
                >= 0 by {
                if k == 0 {
                    assert(text.take(k) =~= Seq::<u8>::empty());
                } else {
                    assert(text.take(k) =~= text);
                }
            }
        },
    }
}

/// The brackets of the source text of a program match.
pub proof fn lemma_source(nodes: Seq<Node>)
    requires
        all_raw(nodes),
    ensures
        balanced(source_of(nodes)),
    decreases nodes, 1nat,
{
    if nodes.len() == 0 {
        assert(source_of(nodes).take(0) =~= source_of(nodes));
        assert forall|k: int| 0 <= k <= source_of(nodes).len() implies depth(
            #[trigger] source_of(nodes).take(k),
        ) >= 0 by {
            assert(source_of(nodes).take(k) =~= Seq::<u8>::empty());
        }
    } else {
        let before = nodes.drop_last();
        assert forall|k: int| 0 <= k < before.len() implies is_raw(#[trigger] before[k]) by {
            assert(before[k] == nodes[k]);
        }
        lemma_source(before);
        lemma_token(nodes.last());
        lemma_balanced_add(source_of(before), token_of(nodes.last()));
    }
}

/// Where a loop begins is told by the text: of two texts that are alike and
/// end in a loop each, the second does not begin its loop before the first.
proof fn lemma_loop_not_earlier(
    before: Seq<u8>,
    body: Seq<u8>,
    other_before: Seq<u8>,
    other_body: Seq<u8>,
)
    requires
        balanced(before),
        balanced(body),
        balanced(other_before),
        balanced(other_body),
        before + seq![OPEN] + body + seq![CLOSE] == other_before + seq![OPEN] + other_body
            + seq![CLOSE],
    ensures
        other_before.len() >= before.len(),
{
    let whole = before + seq![OPEN] + body + seq![CLOSE];
    let other = other_before + seq![OPEN] + other_body + seq![CLOSE];
    let at = other_before.len() as int;
    let end = before.len() as int;
    if at < end {
        assert(whole.len() == other.len());
        lemma_depth_of_one(OPEN);
        lemma_depth_of_one(CLOSE);
        // From `at` on, the other text is its loop, of depth 0.
        let tail = seq![OPEN] + other_body + seq![CLOSE];
        assert(other.skip(at) =~= tail);
        lemma_depth_add(seq![OPEN], other_body);
        lemma_depth_add(seq![OPEN] + other_body, seq![CLOSE]);
        assert(depth(tail) == 0);
        // From `at` on, the text is the rest of `before` and its own loop.
        let rest = before.skip(at);
        let own = seq![OPEN] + body + seq![CLOSE];
        assert(whole.skip(at) =~= rest + own);
        lemma_depth_add(seq![OPEN], body);
        lemma_depth_add(seq![OPEN] + body, seq![CLOSE]);
        lemma_depth_add(rest, own);
        assert(depth(rest) == 0);
        // The rest of `before` begins with the `[` of the other loop, and
        // goes on as the other body does.
        let inside = other_body.take(end - at - 1);
        assert(whole[at] == other[at]);
        assert(rest =~= seq![OPEN] + inside) by {
            assert(rest.len() == end - at);
            assert forall|i: int| 0 <= i < rest.len() implies rest[i] == (seq![OPEN] + inside)[i] by {
                assert(rest[i] == whole[at + i]);
                assert(whole[at + i] == other[at + i]);
            }
        }
        lemma_depth_add(seq![OPEN], inside);
        assert(depth(inside) >= 0);
        assert(false);
    }
}

/// Where a loop begins is told by the text: two texts that are alike and end
/// in a loop each have the same loop body, and the same text before it.
pub proof fn lemma_loop_told(
    before: Seq<u8>,
    body: Seq<u8>,
    other_before: Seq<u8>,
    other_body: Seq<u8>,
)
    requires
        balanced(before),
        balanced(body),
        balanced(other_before),
        balanced(other_body),
        before + seq![OPEN] + body + seq![CLOSE] == other_before + seq![OPEN] + other_body
            + seq![CLOSE],
    ensures
        before == other_before,
        body == other_body,
{
    let whole = before + seq![OPEN] + body + seq![CLOSE];
    let other = other_before + seq![OPEN] + other_body + seq![CLOSE];
    lemma_loop_not_earlier(before, body, other_before, other_body);
    lemma_loop_not_earlier(other_before, other_body, before, body);
    assert(whole.len() == other.len());
    assert(before =~= other_before) by {
        assert forall|i: int| 0 <= i < before.len() implies before[i] == other_before[i] by {
            assert(before[i] == whole[i]);
            assert(other_before[i] == other[i]);
        }
    }
    assert(body =~= other_body) by {
        assert forall|i: int| 0 <= i < body.len() implies body[i] == other_body[i] by {
            assert(body[i] == whole[before.len() + 1 + i]);
            assert(other_body[i] == other[before.len() + 1 + i]);
        }
    }
}

/// An instruction that is no loop is told by its text.
proof fn lemma_simple_told(node: Node, other: Node)
    requires
        is_raw(node),
        is_raw(other),
        !(node is Loop),
        !(other is Loop),
        token_of(node) == token_of(other),
    ensures
        node == other,
{
    lemma_simple_byte(node);
    lemma_simple_byte(other);
}

/// The one byte of an instruction that is no loop.
proof fn lemma_simple_byte(node: Node)
    requires
        is_raw(node),
        !(node is Loop),
    ensures
        token_of(node).len() == 1,
        node == (Node::Add { value: 1 }) <==> token_of(node)[0] == PLUS,
        node == (Node::Add { value: -1i8 }) <==> token_of(node)[0] == MINUS,
        node == (Node::Move { value: 1 }) <==> token_of(node)[0] == RIGHT,
        node == (Node::Move { value: -1i32 }) <==> token_of(node)[0] == LEFT,
        node == Node::Write <==> token_of(node)[0] == DOT,
        node == Node::Read <==> token_of(node)[0] == COMMA,
        token_of(node)[0] == PLUS || token_of(node)[0] == MINUS || token_of(node)[0] == RIGHT
            || token_of(node)[0] == LEFT || token_of(node)[0] == DOT || token_of(node)[0]
            == COMMA,
{
}

/// A program that is not empty, taken apart: its source text is that of the
/// program before its last instruction, and the text of that instruction.
proof fn lemma_source_parts(nodes: Seq<Node>)
    requires
        all_raw(nodes),
        nodes.len() > 0,
    ensures
        all_raw(nodes.drop_last()),
        is_raw(nodes.last()),
        source_of(nodes) == source_of(nodes.drop_last()) + token_of(nodes.last()),
        source_of(nodes.drop_last()).len() < source_of(nodes).len(),
        balanced(source_of(nodes.drop_last())),
        source_of(nodes).last() == token_of(nodes.last()).last(),
        nodes == nodes.drop_last().push(nodes.last()),
{
    let before = nodes.drop_last();
    assert forall|k: int| 0 <= k < before.len() implies is_raw(#[trigger] before[k]) by {
        assert(before[k] == nodes[k]);
    }
    lemma_token(nodes.last());
    lemma_source(before);
    assert(nodes =~= before.push(nodes.last()));
}

/// The body of a loop that source text can express.
proof fn lemma_loop_parts(node: Node)
    requires
        is_raw(node),
        node is Loop,
    ensures
        all_raw(node->Loop_nodes),
        balanced(source_of(node->Loop_nodes)),
        token_of(node) == seq![OPEN] + source_of(node->Loop_nodes) + seq![CLOSE],
        node == (Node::Loop { nodes: node->Loop_nodes }),
{
    lemma_source(node->Loop_nodes);
}

/// The source text tells the program: two programs that source text can
/// express, with the same source text, are the same program.
pub proof fn source_tells_program(first: Seq<Node>, second: Seq<Node>)
    requires
        all_raw(first),
        all_raw(second),
        source_of(first) == source_of(second),
    ensures
        first == second,
    decreases source_of(first).len(),
{
    if first.len() == 0 && second.len() == 0 {
        assert(first =~= second);
    } else if first.len() == 0 {
        lemma_source_parts(second);
    } else if second.len() == 0 {
        lemma_source_parts(first);
    } else {
        lemma_source_parts(first);
        lemma_source_parts(second);
        let text = source_of(first);
        let before = first.drop_last();
        let other_before = second.drop_last();
        let last = first.last();
        let other_last = second.last();
        lemma_token(last);
        lemma_token(other_last);
        if last is Loop {
            lemma_loop_parts(last);
            lemma_loop_parts(other_last);
            let body = last->Loop_nodes;
            let other_body = other_last->Loop_nodes;
            assert(text =~= source_of(before) + seq![OPEN] + source_of(body) + seq![CLOSE]);
            assert(text =~= source_of(other_before) + seq![OPEN] + source_of(other_body)
                + seq![CLOSE]);
            lemma_loop_told(
                source_of(before),
                source_of(body),
                source_of(other_before),
                source_of(other_body),
            );
            source_tells_program(before, other_before);
            source_tells_program(body, other_body);
        } else {
            assert(source_of(before) =~= text.drop_last());
            assert(source_of(other_before) =~= text.drop_last());
            assert(token_of(last) =~= seq![text.last()]);
            assert(token_of(other_last) =~= seq![text.last()]);
            lemma_simple_told(last, other_last);
            source_tells_program(before, other_before);
        }
    }
}

} // verus!
