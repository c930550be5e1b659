use tapejit::optimize::peephole::{fuse, CombineIncrements, CombineSets, Fusion, ReplaceSet};
use tapejit::optimize::OptimizationPass;
use tapejit::syntax::{parse, Instruction};

fn add(value: i8) -> Instruction {
    Instruction::Add { value }
}

fn shift(value: i32) -> Instruction {
    Instruction::Move { value }
}

fn set(value: u8) -> Instruction {
    Instruction::SetCell { value }
}

fn looped(nodes: Vec<Instruction>) -> Instruction {
    Instruction::Loop { nodes }
}

fn all_passes(nodes: Vec<Instruction>) -> Vec<Instruction> {
    CombineSets.optimize(ReplaceSet.optimize(CombineIncrements.optimize(nodes)))
}

fn increments_apart(nodes: &Vec<Instruction>) -> bool {
    let pairs = nodes.windows(2).all(|pair| {
        !(matches!(pair[0], Instruction::Add { .. }) && matches!(pair[1], Instruction::Add { .. }))
            && !(matches!(pair[0], Instruction::Move { .. })
                && matches!(pair[1], Instruction::Move { .. }))
    });
    pairs
        && nodes.iter().all(|node| match node {
            Instruction::Loop { nodes } => increments_apart(nodes),
            _ => true,
        })
}

#[test]
fn adds_are_joined() {
    assert_eq!(CombineIncrements.optimize(parse("+++").unwrap()), vec![add(3)]);
    assert_eq!(CombineIncrements.optimize(parse("+++--").unwrap()), vec![add(1)]);
}

#[test]
fn moves_are_joined() {
    assert_eq!(CombineIncrements.optimize(parse(">>><").unwrap()), vec![shift(2)]);
    assert_eq!(CombineIncrements.optimize(parse("<<").unwrap()), vec![shift(-2)]);
}

#[test]
fn a_joined_add_of_zero_stays() {
    assert_eq!(CombineIncrements.optimize(parse("+-").unwrap()), vec![add(0)]);
    assert_eq!(CombineIncrements.optimize(parse("><").unwrap()), vec![shift(0)]);
}

#[test]
fn sums_wrap() {
    assert_eq!(CombineIncrements.optimize(vec![add(127), add(1)]), vec![add(-128)]);
    assert_eq!(CombineIncrements.optimize(vec![add(-128), add(-1)]), vec![add(127)]);
    assert_eq!(
        CombineIncrements.optimize(vec![shift(i32::MAX), shift(1)]),
        vec![shift(i32::MIN)]
    );
    assert_eq!(
        CombineIncrements.optimize(vec![shift(i32::MIN), shift(-1)]),
        vec![shift(i32::MAX)]
    );
}

#[test]
fn only_neighbours_of_one_kind_are_joined() {
    assert_eq!(
        CombineIncrements.optimize(parse("++>>+.+,--").unwrap()),
        vec![
            add(2),
            shift(2),
            add(1),
            Instruction::Write,
            add(1),
            Instruction::Read,
            add(-2)
        ]
    );
}

#[test]
fn increments_are_joined_within_loops() {
    assert_eq!(
        CombineIncrements.optimize(parse("++[>>[--]<<]").unwrap()),
        vec![add(2), looped(vec![shift(2), looped(vec![add(-2)]), shift(-2)])]
    );
}

#[test]
fn move_fusion_scenario() {
    assert_eq!(
        CombineIncrements.optimize(parse(">>>+<<<.").unwrap()),
        vec![shift(3), add(1), shift(-3), Instruction::Write]
    );
}

#[test]
fn no_increments_are_neighbours_after_joining() {
    for text in ["+++--->>><<<", "+[+[++>>]--]<<", "+.+,-[-]-", ">+>+[<<-->>]", ""] {
        let joined = CombineIncrements.optimize(parse(text).unwrap());
        assert!(increments_apart(&joined));
    }
    assert!(!increments_apart(&vec![add(1), add(1)]));
    assert!(!increments_apart(&vec![looped(vec![shift(1), shift(1)])]));
}

#[test]
fn clearing_loops_become_set_zero() {
    assert_eq!(ReplaceSet.optimize(parse("[-]").unwrap()), vec![set(0)]);
    assert_eq!(ReplaceSet.optimize(parse("[+]").unwrap()), vec![set(0)]);
    assert_eq!(
        ReplaceSet.optimize(parse("+[-]>[+].").unwrap()),
        vec![add(1), set(0), shift(1), set(0), Instruction::Write]
    );
}

#[test]
fn clearing_loops_are_replaced_at_every_depth() {
    assert_eq!(
        ReplaceSet.optimize(parse("[>[-]<[[+]]]").unwrap()),
        vec![looped(vec![shift(1), set(0), shift(-1), looped(vec![set(0)])])]
    );
}

#[test]
fn other_loops_are_left_alone() {
    for text in ["[]", "[>]", "[.]", "[,]", "[--]", "[-+]", "[[-]-]"] {
        let replaced = ReplaceSet.optimize(parse(text).unwrap());
        assert!(matches!(replaced[0], Instruction::Loop { .. }));
    }
    assert_eq!(
        ReplaceSet.optimize(vec![looped(vec![add(2)])]),
        vec![looped(vec![add(2)])]
    );
    assert_eq!(
        ReplaceSet.optimize(vec![looped(vec![add(-2)])]),
        vec![looped(vec![add(-2)])]
    );
    assert_eq!(
        ReplaceSet.optimize(vec![looped(vec![set(0)])]),
        vec![looped(vec![set(0)])]
    );
}

#[test]
fn a_loop_that_becomes_a_clearing_body_is_not_replaced_again() {
    // the inner loop becomes SetCell, which is no Add
    assert_eq!(
        ReplaceSet.optimize(parse("[[-]]").unwrap()),
        vec![looped(vec![set(0)])]
    );
}

#[test]
fn later_set_wins() {
    assert_eq!(CombineSets.optimize(vec![set(3), set(9)]), vec![set(9)]);
    assert_eq!(CombineSets.optimize(vec![set(200), set(100), set(7)]), vec![set(7)]);
}

#[test]
fn add_after_set_is_added_with_wrapping() {
    assert_eq!(CombineSets.optimize(vec![set(3), add(4)]), vec![set(7)]);
    assert_eq!(CombineSets.optimize(vec![set(0), add(-1)]), vec![set(255)]);
    assert_eq!(CombineSets.optimize(vec![set(255), add(1)]), vec![set(0)]);
    assert_eq!(CombineSets.optimize(vec![set(250), add(10)]), vec![set(4)]);
    assert_eq!(CombineSets.optimize(vec![set(5), add(-128)]), vec![set(133)]);
}

#[test]
fn add_before_set_is_dropped() {
    assert_eq!(CombineSets.optimize(vec![add(5), set(9)]), vec![set(9)]);
    assert_eq!(CombineSets.optimize(vec![add(5), set(9), add(1)]), vec![set(10)]);
}

#[test]
fn sets_are_joined_within_loops() {
    assert_eq!(
        CombineSets.optimize(vec![looped(vec![set(1), add(1), shift(1), add(2), set(0)])]),
        vec![looped(vec![set(2), shift(1), set(0)])]
    );
}

#[test]
fn sets_leave_other_neighbours_alone() {
    assert_eq!(
        CombineSets.optimize(vec![add(1), add(2), shift(1), set(1), Instruction::Write, set(2)]),
        vec![add(1), add(2), shift(1), set(1), Instruction::Write, set(2)]
    );
}

#[test]
fn clear_and_set_scenario() {
    assert_eq!(
        all_passes(parse("+++[-]++++.").unwrap()),
        vec![set(4), Instruction::Write]
    );
}

#[test]
fn passes_are_idempotent() {
    for text in [
        "+++[-]++++.",
        ">>>+<<<.",
        "++[>+++[>+<-]<-]>>.",
        ",[.,]",
        "++++++++[>++++[>++>+++>+++>+<<<<-]>+>+>->>+[<]<-]>>.",
        "[-][+]+-[[-]+[-]]",
        "",
    ] {
        let program = parse(text).unwrap();
        let once = CombineIncrements.optimize(program.clone());
        assert_eq!(CombineIncrements.optimize(once.clone()), once);
        let once = ReplaceSet.optimize(program.clone());
        assert_eq!(ReplaceSet.optimize(once.clone()), once);
        let once = CombineSets.optimize(CombineIncrements.optimize(program.clone()));
        assert_eq!(CombineSets.optimize(once.clone()), once);
        let once = all_passes(program);
        assert_eq!(CombineSets.optimize(once.clone()), once);
    }
}

#[test]
fn joining_sets_twice_differs_after_two_adds_and_a_set() {
    let once = CombineSets.optimize(vec![add(1), add(2), set(3)]);
    assert_eq!(once, vec![add(1), set(3)]);
    assert_eq!(CombineSets.optimize(once), vec![set(3)]);
}

#[test]
fn fuse_joins_or_hands_back() {
    assert_eq!(fuse(Fusion::Increments, add(1), add(2)), Ok(add(3)));
    assert_eq!(fuse(Fusion::Increments, shift(1), shift(-3)), Ok(shift(-2)));
    assert_eq!(fuse(Fusion::Increments, add(1), shift(2)), Err((add(1), shift(2))));
    assert_eq!(fuse(Fusion::Increments, set(1), set(2)), Err((set(1), set(2))));
    assert_eq!(fuse(Fusion::Sets, set(1), set(2)), Ok(set(2)));
    assert_eq!(fuse(Fusion::Sets, set(1), add(2)), Ok(set(3)));
    assert_eq!(fuse(Fusion::Sets, add(1), set(2)), Ok(set(2)));
    assert_eq!(fuse(Fusion::Sets, add(1), add(2)), Err((add(1), add(2))));
    assert_eq!(
        fuse(Fusion::Sets, looped(vec![]), set(2)),
        Err((looped(vec![]), set(2)))
    );
}
