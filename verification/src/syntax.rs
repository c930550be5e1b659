use vstd::prelude::*;
use vstd::string::{StringExecFns, StringSliceAdditionalSpecFns};

verus! {

/// One node of the intermediate representation.
#[allow(inconsistent_fields)]
#[derive(Debug, PartialEq, Eq)]
pub enum Instruction {
    /// Adds `value` to the current cell, wrapping on overflow.
    Add { value: i8 },
    /// Shifts the cell pointer by `value`; negative is to the left.
    Move { value: i32 },
    /// Runs `nodes` for as long as the current cell is not zero.
    Loop { nodes: Vec<Instruction> },
    /// Sends the current cell to the output.
    Write,
    /// Reads one byte of input into the current cell.
    Read,
    /// Overwrites the current cell with `value`.
    SetCell { value: u8 },
}

/// The mathematical model of an [`Instruction`]: the same tree, with
/// sequences in place of vectors.
#[allow(inconsistent_fields)]
pub enum Node {
    Add { value: i8 },
    Move { value: i32 },
    Loop { nodes: Seq<Node> },
    Write,
    Read,
    SetCell { value: u8 },
}

/// The model of one instruction.
pub open spec fn node_of(instruction: Instruction) -> Node
    decreases instruction,
{
    match instruction {
        Instruction::Add { value } => Node::Add { value },
        Instruction::Move { value } => Node::Move { value },
        Instruction::Loop { nodes } => Node::Loop {
            nodes: Seq::new(
                nodes@.len(),
                |k: int|
                    if 0 <= k < nodes@.len() {
                        node_of(nodes@[k])
                    } else {
                        Node::Write
                    },
            ),
        },
        Instruction::Write => Node::Write,
        Instruction::Read => Node::Read,
        Instruction::SetCell { value } => Node::SetCell { value },
    }
}

impl DeepView for Instruction {
    type V = Node;

    open spec fn deep_view(&self) -> Node {
        node_of(*self)
    }
}

/// The model of a loop is the loop over the model of its body.
pub proof fn lemma_loop_view(nodes: Vec<Instruction>)
    ensures
        (Instruction::Loop { nodes }).deep_view() == (Node::Loop { nodes: nodes.deep_view() }),
{
    let body = node_of(Instruction::Loop { nodes })->Loop_nodes;
    assert(body =~= nodes.deep_view());
}

fn duplicate(instruction: &Instruction) -> (copy: Instruction)
    ensures
        copy.deep_view() == instruction.deep_view(),
    decreases instruction,
{
    match instruction {
        Instruction::Add { value } => Instruction::Add { value: *value },
        Instruction::Move { value } => Instruction::Move { value: *value },
        Instruction::Loop { nodes } => {
            let body = duplicate_all(nodes);
            proof {
                lemma_loop_view(*nodes);
                lemma_loop_view(body);
            }
            Instruction::Loop { nodes: body }
        },
        Instruction::Write => Instruction::Write,
        Instruction::Read => Instruction::Read,
        Instruction::SetCell { value } => Instruction::SetCell { value: *value },
    }
}

fn duplicate_all(nodes: &Vec<Instruction>) -> (copy: Vec<Instruction>)
    ensures
        copy.deep_view() == nodes.deep_view(),
    decreases nodes,
{
    let mut copy: Vec<Instruction> = Vec::new();
    let mut i: usize = 0;
    while i < nodes.len()
        invariant
            i <= nodes.len(),
            copy.len() == i,
            forall|k: int| 0 <= k < i ==> (#[trigger] copy.deep_view()[k]) == nodes.deep_view()[k],
        decreases nodes.len() - i,
    {
        let ghost before = copy.deep_view();
        let one = duplicate(&nodes[i]);
        copy.push(one);
        assert(copy.deep_view() =~= before.push(one.deep_view()));
        i += 1;
    }
    assert(copy.deep_view() =~= nodes.deep_view());
    copy
}

impl Clone for Instruction {
    /// A copy of the whole tree.
    fn clone(&self) -> (copy: Instruction)
        ensures
            copy.deep_view() == self.deep_view(),
    {
        duplicate(self)
    }
}

/// The byte `+`: add one to the current cell.
pub const PLUS: u8 = 43;

/// The byte `-`: subtract one from the current cell.
pub const MINUS: u8 = 45;

/// The byte `>`: move the cell pointer one to the right.
pub const RIGHT: u8 = 62;

/// The byte `<`: move the cell pointer one to the left.
pub const LEFT: u8 = 60;

/// The byte `.`: write the current cell.
pub const DOT: u8 = 46;

/// The byte `,`: read into the current cell.
pub const COMMA: u8 = 44;

/// The byte `[`: open a loop.
pub const OPEN: u8 = 91;

/// The byte `]`: close a loop.
pub const CLOSE: u8 = 93;

/// Why a source text is not a program.
#[derive(Debug, Clone, Copy, PartialEq, Eq)]
pub enum ParseError {
    /// A `]` without a `[` before it, or a `[` that is never closed.
    UnmatchedBracket,
}

/// The source text of one instruction. Only instructions that source text can
/// express have one; the others have the empty text.
pub open spec fn token_of(node: Node) -> Seq<u8>
    decreases node, 0nat,
{
    match node {
        Node::Add { value } => if value == 1 {
            seq![PLUS]
        } else if value == -1 {
            seq![MINUS]
        } else {
            Seq::empty()
        },
        Node::Move { value } => if value == 1 {
            seq![RIGHT]
        } else if value == -1 {
            seq![LEFT]
        } else {
            Seq::empty()
        },
        Node::Loop { nodes } => seq![OPEN] + source_of(nodes) + seq![CLOSE],
        Node::Write => seq![DOT],
        Node::Read => seq![COMMA],
        Node::SetCell { value } => Seq::empty(),
    }
}

/// The source text of a program: the texts of its instructions, in order.
pub open spec fn source_of(nodes: Seq<Node>) -> Seq<u8>
    decreases nodes, 1nat,
{
    if nodes.len() == 0 {
        Seq::empty()
    } else {
        source_of(nodes.drop_last()) + token_of(nodes.last())
    }
}

/// Whether source text can express `node`: single steps and loops of such.
pub open spec fn is_raw(node: Node) -> bool
    decreases node,
{
    match node {
        Node::Add { value } => value == 1 || value == -1,
        Node::Move { value } => value == 1 || value == -1,
        Node::Loop { nodes } => forall|k: int| 0 <= k < nodes.len() ==> is_raw(#[trigger] nodes[k]),
        Node::Write => true,
        Node::Read => true,
        Node::SetCell { value } => false,
    }
}

/// Whether source text can express every instruction of `nodes`.
pub open spec fn all_raw(nodes: Seq<Node>) -> bool {
    forall|k: int| 0 <= k < nodes.len() ==> is_raw(#[trigger] nodes[k])
}

/// Whether `byte` is one of the eight operators.
pub open spec fn is_operator(byte: u8) -> bool {
    byte == PLUS || byte == MINUS || byte == RIGHT || byte == LEFT || byte == DOT || byte == COMMA
        || byte == OPEN || byte == CLOSE
}

/// `text` without its comments: the operators alone, in order.
pub open spec fn operators(text: Seq<u8>) -> Seq<u8>
    decreases text.len(),
{
    if text.len() == 0 {
        Seq::empty()
    } else if is_operator(text.last()) {
        operators(text.drop_last()).push(text.last())
    } else {
        operators(text.drop_last())
    }
}

/// How often `byte` occurs in `text`.
pub open spec fn count_of(text: Seq<u8>, byte: u8) -> int
    decreases text.len(),
{
    if text.len() == 0 {
        0
    } else {
        count_of(text.drop_last(), byte) + if text.last() == byte {
            1int
        } else {
            0int
        }
    }
}

/// The number of loops that `text` opens and does not close.
pub open spec fn depth(text: Seq<u8>) -> int {
    count_of(text, OPEN) - count_of(text, CLOSE)
}

/// Whether the brackets of `text` match: no prefix closes a loop that it did
/// not open, and the whole text closes every loop.
pub open spec fn balanced(text: Seq<u8>) -> bool {
    &&& forall|k: int| 0 <= k <= text.len() ==> depth(#[trigger] text.take(k)) >= 0
    &&& depth(text) == 0
}

/// The text that an unfinished parse has read: each frame of `frames` is a
/// sequence that a `[` interrupted, and `current` is the innermost one.
pub open spec fn open_text(frames: Seq<Seq<Node>>, current: Seq<Node>) -> Seq<u8>
    decreases frames.len(),
{
    if frames.len() == 0 {
        source_of(current)
    } else {
        open_text(frames.drop_last(), frames.last()) + seq![OPEN] + source_of(current)
    }
}

/// Appending an instruction appends its text.
pub proof fn lemma_source_push(nodes: Seq<Node>, node: Node)
    ensures
        source_of(nodes.push(node)) == source_of(nodes) + token_of(node),
{
    assert(nodes.push(node).drop_last() =~= nodes);
}

proof fn lemma_open_text_push(frames: Seq<Seq<Node>>, current: Seq<Node>, node: Node)
    ensures
        open_text(frames, current.push(node)) == open_text(frames, current) + token_of(node),
{
    lemma_source_push(current, node);
    if frames.len() > 0 {
        let head = open_text(frames.drop_last(), frames.last()) + seq![OPEN];
        assert(head + (source_of(current) + token_of(node)) =~= (head + source_of(current))
            + token_of(node));
    }
}

proof fn lemma_scan_step(text: Seq<u8>, i: int)
    requires
        0 <= i < text.len(),
    ensures
        text.take(i + 1).drop_last() == text.take(i),
        text.take(i + 1).last() == text[i],
        operators(text.take(i + 1)) == if is_operator(text[i]) {
            operators(text.take(i)).push(text[i])
        } else {
            operators(text.take(i))
        },
        depth(text.take(i + 1)) == depth(text.take(i)) + if text[i] == OPEN {
            1int
        } else if text[i] == CLOSE {
            -1int
        } else {
            0int
        },
{
    assert(text.take(i + 1).drop_last() =~= text.take(i));
}

fn append(nodes: &mut Vec<Instruction>, instruction: Instruction)
    ensures
        final(nodes).deep_view() == old(nodes).deep_view().push(instruction.deep_view()),
{
    nodes.push(instruction);
    assert(nodes.deep_view() =~= old(nodes).deep_view().push(instruction.deep_view()));
}

/// Reads a program from its source text. The eight operators are
/// instructions, every other byte is a comment.
///
/// The text is a program exactly when its brackets match. The program is
/// then the one whose own source text is `text` without the comments; there
/// is only one such program among those that source text can express.
pub fn parse(text: &str) -> (result: Result<Vec<Instruction>, ParseError>)
    ensures
        result is Ok <==> balanced(text.spec_bytes()),
        result matches Ok(nodes) ==> all_raw(nodes.deep_view()) && source_of(nodes.deep_view())
            == operators(text.spec_bytes()),
{
    let bytes = text.as_bytes();
    let ghost whole = text.spec_bytes();
    let mut nodes: Vec<Instruction> = Vec::new();
    let mut stack: Vec<Vec<Instruction>> = Vec::new();
    let mut i: usize = 0;
    assert(whole.take(0) =~= Seq::<u8>::empty());
    while i < bytes.len()
        invariant
            whole == text.spec_bytes(),
            bytes@ == whole,
            i <= bytes.len(),
            forall|k: int| 0 <= k <= i ==> depth(#[trigger] whole.take(k)) >= 0,
            stack.len() == depth(whole.take(i as int)),
            open_text(stack.deep_view(), nodes.deep_view()) == operators(whole.take(i as int)),
            all_raw(nodes.deep_view()),
            forall|f: int| 0 <= f < stack.len() ==> all_raw(#[trigger] stack.deep_view()[f]),
        decreases bytes.len() - i,
    {
        let byte = bytes[i];
        let ghost frames = stack.deep_view();
        let ghost current = nodes.deep_view();
        proof {
            lemma_scan_step(whole, i as int);
        }
        if byte == PLUS {
            append(&mut nodes, Instruction::Add { value: 1 });
            proof {
                lemma_open_text_push(frames, current, Node::Add { value: 1 });
            }
        } else if byte == MINUS {
            append(&mut nodes, Instruction::Add { value: -1 });
            proof {
                lemma_open_text_push(frames, current, Node::Add { value: -1i8 });
            }
        } else if byte == RIGHT {
            append(&mut nodes, Instruction::Move { value: 1 });
            proof {
                lemma_open_text_push(frames, current, Node::Move { value: 1 });
            }
        } else if byte == LEFT {
            append(&mut nodes, Instruction::Move { value: -1 });
            proof {
                lemma_open_text_push(frames, current, Node::Move { value: -1i32 });
            }
        } else if byte == DOT {
            append(&mut nodes, Instruction::Write);
            proof {
                lemma_open_text_push(frames, current, Node::Write);
            }
        } else if byte == COMMA {
            append(&mut nodes, Instruction::Read);
            proof {
                lemma_open_text_push(frames, current, Node::Read);
            }
        } else if byte == OPEN {
            stack.push(nodes);
            nodes = Vec::new();
            proof {
                assert(stack.deep_view() =~= frames.push(current));
                assert(stack.deep_view().drop_last() =~= frames);
                assert(nodes.deep_view() =~= Seq::<Node>::empty());
            }
        } else if byte == CLOSE {
            match stack.pop() {
                Some(mut parent) => {
                    proof {
                        assert(stack.deep_view() =~= frames.drop_last());
                        assert(parent.deep_view() == frames.last());
                        lemma_loop_view(nodes);
                        lemma_open_text_push(
                            frames.drop_last(),
                            frames.last(),
                            Node::Loop { nodes: current },
                        );
                        assert(is_raw(Node::Loop { nodes: current }));
                    }
                    append(&mut parent, Instruction::Loop { nodes });
                    nodes = parent;
                    proof {
                        assert(open_text(frames, current) + seq![CLOSE] =~= open_text(
                            frames.drop_last(),
                            frames.last(),
                        ) + (seq![OPEN] + source_of(current) + seq![CLOSE]));
                    }
                },
                None => {
                    proof {
                        assert(depth(whole.take(i + 1)) < 0);
                    }
                    return Err(ParseError::UnmatchedBracket);
                },
            }
        }
        i += 1;
    }
    proof {
        assert(whole.take(i as int) =~= whole);
    }
    if stack.len() != 0 {
        return Err(ParseError::UnmatchedBracket);
    }
    Ok(nodes)
}

/// A text with more of one bracket than of the other is no program: its
/// brackets do not match.
pub proof fn unequal_brackets_unbalanced(text: Seq<u8>)
    requires
        count_of(text, OPEN) != count_of(text, CLOSE),
    ensures
        !balanced(text),
{
}

/// The character of the digit `digit`.
pub open spec fn digit_char(digit: int) -> char {
    if digit == 0 {
        '0'
    } else if digit == 1 {
        '1'
    } else if digit == 2 {
        '2'
    } else if digit == 3 {
        '3'
    } else if digit == 4 {
        '4'
    } else if digit == 5 {
        '5'
    } else if digit == 6 {
        '6'
    } else if digit == 7 {
        '7'
    } else if digit == 8 {
        '8'
    } else {
        '9'
    }
}

/// The decimal digits of `value`, the highest first, without leading zeros.
pub open spec fn digits(value: nat) -> Seq<char>
    decreases value,
{
    if value < 10 {
        seq![digit_char(value as int)]
    } else {
        digits(value / 10).push(digit_char(value as int % 10))
    }
}

/// `value` in decimal, with a `-` before it where it is negative.
pub open spec fn decimal(value: int) -> Seq<char> {
    if value < 0 {
        seq!['-'] + digits((-value) as nat)
    } else {
        digits(value as nat)
    }
}

/// `count` spaces.
pub open spec fn spaces(count: nat) -> Seq<char> {
    Seq::new(count, |i: int| ' ')
}

/// The line of `node`, indented by `indent` spaces, and below a loop the
/// lines of its body, indented by four more.
pub open spec fn indented_node(node: Node, indent: nat) -> Seq<char>
    decreases node, 0nat,
{
    spaces(indent) + match node {
        Node::Add { value } => "Add "@ + decimal(value as int) + "\n"@,
        Node::Move { value } => "Move "@ + decimal(value as int) + "\n"@,
        Node::Loop { nodes } => "Loop\n"@ + indented_text(nodes, indent + 4),
        Node::Write => "Write\n"@,
        Node::Read => "Read\n"@,
        Node::SetCell { value } => "Set "@ + decimal(value as int) + "\n"@,
    }
}

/// The lines of `nodes`, in order.
pub open spec fn indented_text(nodes: Seq<Node>, indent: nat) -> Seq<char>
    decreases nodes, 1nat,
{
    if nodes.len() == 0 {
        Seq::empty()
    } else {
        indented_text(nodes.drop_last(), indent) + indented_node(nodes.last(), indent)
    }
}

/// How deep the loops of `node` nest: 0 where it is no loop.
pub open spec fn node_depth(node: Node) -> nat
    decreases node, 0nat,
{
    match node {
        Node::Loop { nodes } => 1 + nesting(nodes),
        _ => 0,
    }
}

/// How deep the loops of `nodes` nest: 0 where there is none.
pub open spec fn nesting(nodes: Seq<Node>) -> nat
    decreases nodes, 1nat,
{
    if nodes.len() == 0 {
        0
    } else {
        let before = nesting(nodes.drop_last());
        let last = node_depth(nodes.last());
        if before >= last {
            before
        } else {
            last
        }
    }
}

fn digit_text(digit: u64) -> (text: &'static str)
    requires
        digit < 10,
    ensures
        text@ == seq![digit_char(digit as int)],
{
    proof {
        reveal_strlit("0");
        reveal_strlit("1");
        reveal_strlit("2");
        reveal_strlit("3");
        reveal_strlit("4");
        reveal_strlit("5");
        reveal_strlit("6");
        reveal_strlit("7");
        reveal_strlit("8");
        reveal_strlit("9");
    }
    if digit == 0 {
        assert("0"@ =~= seq!['0']);
        "0"
    } else if digit == 1 {
        assert("1"@ =~= seq!['1']);
        "1"
    } else if digit == 2 {
        assert("2"@ =~= seq!['2']);
        "2"
    } else if digit == 3 {
        assert("3"@ =~= seq!['3']);
        "3"
    } else if digit == 4 {
        assert("4"@ =~= seq!['4']);
        "4"
    } else if digit == 5 {
        assert("5"@ =~= seq!['5']);
        "5"
    } else if digit == 6 {
        assert("6"@ =~= seq!['6']);
        "6"
    } else if digit == 7 {
        assert("7"@ =~= seq!['7']);
        "7"
    } else if digit == 8 {
        assert("8"@ =~= seq!['8']);
        "8"
    } else {
        assert("9"@ =~= seq!['9']);
        "9"
    }
}

fn push_digits(text: &mut String, value: u64)
    ensures
        final(text)@ == old(text)@ + digits(value as nat),
    decreases value,
{
    if value >= 10 {
        push_digits(text, value / 10);
    }
    text.append(digit_text(value % 10));
    assert(text@ =~= old(text)@ + digits(value as nat));
}

fn push_decimal(text: &mut String, value: i64)
    ensures
        final(text)@ == old(text)@ + decimal(value as int),
{
    if value < 0 {
        proof {
            reveal_strlit("-");
        }
        text.append("-");
        let size: u64 = if value == i64::MIN {
            0x8000_0000_0000_0000
        } else {
            (-value) as u64
        };
        push_digits(text, size);
        assert(text@ =~= old(text)@ + decimal(value as int));
    } else {
        push_digits(text, value as u64);
    }
}

fn push_spaces(text: &mut String, count: usize)
    ensures
        final(text)@ == old(text)@ + spaces(count as nat),
{
    let mut i: usize = 0;
    assert(text@ =~= old(text)@ + spaces(0));
    while i < count
        invariant
            i <= count,
            text@ == old(text)@ + spaces(i as nat),
        decreases count - i,
    {
        proof {
            reveal_strlit(" ");
        }
        text.append(" ");
        i += 1;
        assert(text@ =~= old(text)@ + spaces(i as nat));
    }
}

/// The program as text, one instruction a line: each line is indented by
/// `indent` spaces, and the body of a loop by four more than the loop.
pub fn indented(instrs: &Vec<Instruction>, indent: usize) -> (text: String)
    requires
        indent + 4 * nesting(instrs.deep_view()) <= usize::MAX,
    ensures
        text@ == indented_text(instrs.deep_view(), indent as nat),
    decreases instrs,
{
    let ghost nodes = instrs.deep_view();
    let mut result = String::new();
    let mut i: usize = 0;
    assert(nodes.take(0) =~= Seq::<Node>::empty());
    while i < instrs.len()
        invariant
            i <= instrs.len(),
            nodes == instrs.deep_view(),
            indent + 4 * nesting(nodes) <= usize::MAX,
            result@ == indented_text(nodes.take(i as int), indent as nat),
        decreases instrs.len() - i,
    {
        let ghost before = result@;
        let ghost node = nodes[i as int];
        proof {
            assert(nodes.take(i + 1).drop_last() =~= nodes.take(i as int));
            assert(nodes.take(i + 1).last() == node);
        }
        push_spaces(&mut result, indent);
        match &instrs[i] {
            Instruction::Add { value } => {
                result.append("Add ");
                push_decimal(&mut result, *value as i64);
                result.append("\n");
            },
            Instruction::Move { value } => {
                result.append("Move ");
                push_decimal(&mut result, *value as i64);
                result.append("\n");
            },
            Instruction::Loop { nodes: body } => {
                proof {
                    lemma_loop_view(*body);
                    lemma_nesting_of(nodes, i as int);
                }
                result.append("Loop\n");
                let inner = indented(body, indent + 4);
                result.append(inner.as_str());
            },
            Instruction::Write => {
                result.append("Write\n");
            },
            Instruction::Read => {
                result.append("Read\n");
            },
            Instruction::SetCell { value } => {
                result.append("Set ");
                push_decimal(&mut result, *value as i64);
                result.append("\n");
            },
        }
        assert(result@ =~= before + indented_node(node, indent as nat));
        i += 1;
    }
    assert(nodes.take(i as int) =~= nodes);
    result
}

/// No instruction nests deeper than the program that holds it.
pub proof fn lemma_nesting_of(nodes: Seq<Node>, k: int)
    requires
        0 <= k < nodes.len(),
    ensures
        node_depth(nodes[k]) <= nesting(nodes),
    decreases nodes.len(),
{
    if k < nodes.len() - 1 {
        lemma_nesting_of(nodes.drop_last(), k);
    }
}

} // verus!
