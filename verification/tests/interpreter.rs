use tapejit::execution::interpreter::Interpreter;
use tapejit::execution::semantics::Halt;
use tapejit::optimize::peephole::{CombineIncrements, CombineSets, ReplaceSet};
use tapejit::optimize::OptimizationPass;
use tapejit::syntax::{parse, Instruction};

const HELLO: &str = "++++++++[>++++[>++>+++>+++>+<<<<-]>+>+>->>+[<]<-]>>.>---.+++++++..+++.>>.<-.<.+++.------.--------.>>+.>++.";

fn ran(nodes: &Vec<Instruction>, input: &[u8], tape_size: usize) -> (Halt, Vec<u8>, Vec<u8>) {
    let mut interpreter = Interpreter::new(input.to_vec(), Vec::new(), tape_size);
    let halt = interpreter.interpret(nodes, u64::MAX);
    (halt, interpreter.output().clone(), interpreter.tape().clone())
}

fn optimized(nodes: Vec<Instruction>) -> Vec<Instruction> {
    CombineSets.optimize(ReplaceSet.optimize(CombineIncrements.optimize(nodes)))
}

#[test]
fn hello_world() {
    let program = parse(HELLO).unwrap();
    let (halt, output, _) = ran(&program, &[], 30000);
    assert_eq!(halt, Halt::Finished);
    assert_eq!(output, b"Hello World!\n".to_vec());
}

#[test]
fn hello_world_optimized() {
    let program = optimized(parse(HELLO).unwrap());
    let (halt, output, _) = ran(&program, &[], 30000);
    assert_eq!(halt, Halt::Finished);
    assert_eq!(output, b"Hello World!\n".to_vec());
}

#[test]
fn echo_until_zero() {
    let program = parse(",[.,]").unwrap();
    let (halt, output, _) = ran(&program, &[0x48, 0x69, 0x00], 16);
    assert_eq!(halt, Halt::Finished);
    assert_eq!(output, vec![0x48, 0x69]);
}

#[test]
fn clear_and_set() {
    let program = parse("+++[-]++++.").unwrap();
    let (halt, output, _) = ran(&program, &[], 16);
    assert_eq!(halt, Halt::Finished);
    assert_eq!(output, vec![0x04]);
    let (halt, output, _) = ran(&optimized(program), &[], 16);
    assert_eq!(halt, Halt::Finished);
    assert_eq!(output, vec![0x04]);
}

#[test]
fn move_fusion() {
    let program = parse(">>>+<<<.").unwrap();
    let (halt, output, tape) = ran(&program, &[], 8);
    assert_eq!(halt, Halt::Finished);
    assert_eq!(output, vec![0x00]);
    assert_eq!(tape, vec![0, 0, 0, 1, 0, 0, 0, 0]);
    let (halt, output, tape) = ran(&CombineIncrements.optimize(program), &[], 8);
    assert_eq!(halt, Halt::Finished);
    assert_eq!(output, vec![0x00]);
    assert_eq!(tape[3], 1);
}

#[test]
fn wrap_around() {
    let (halt, output, _) = ran(&parse("-.").unwrap(), &[], 4);
    assert_eq!(halt, Halt::Finished);
    assert_eq!(output, vec![0xFF]);
}

#[test]
fn nested_loops() {
    let (halt, output, _) = ran(&parse("++[>+++[>+<-]<-]>>.").unwrap(), &[], 8);
    assert_eq!(halt, Halt::Finished);
    assert_eq!(output, vec![0x06]);
}

#[test]
fn adding_one_256_times_gives_the_cell_back() {
    let mut program = vec![Instruction::SetCell { value: 77 }];
    for _ in 0..256 {
        program.push(Instruction::Add { value: 1 });
    }
    let (halt, _, tape) = ran(&program, &[], 2);
    assert_eq!(halt, Halt::Finished);
    assert_eq!(tape, vec![77, 0]);
    let (_, _, tape) = ran(&program[..256].to_vec(), &[], 2);
    assert_eq!(tape, vec![76, 0]);
}

#[test]
fn add_wraps_at_both_ends() {
    let program = vec![Instruction::Add { value: -1 }];
    assert_eq!(ran(&program, &[], 1).2, vec![255]);
    let program = vec![Instruction::SetCell { value: 200 }, Instruction::Add { value: 100 }];
    assert_eq!(ran(&program, &[], 1).2, vec![44]);
    let program = vec![Instruction::SetCell { value: 100 }, Instruction::Add { value: -128 }];
    assert_eq!(ran(&program, &[], 1).2, vec![228]);
}

#[test]
fn read_at_the_end_of_input_is_an_io_error() {
    let (halt, output, tape) = ran(&parse(",.,.").unwrap(), &[5], 2);
    assert_eq!(halt, Halt::IoError);
    assert_eq!(output, vec![5]);
    assert_eq!(tape, vec![5, 0]);
}

#[test]
fn leaving_the_tape_is_out_of_bounds() {
    assert_eq!(ran(&parse("<").unwrap(), &[], 4).0, Halt::OutOfBounds);
    assert_eq!(ran(&parse(">>>>").unwrap(), &[], 4).0, Halt::OutOfBounds);
    assert_eq!(ran(&parse(">>>").unwrap(), &[], 4).0, Halt::Finished);
    let (halt, output, tape) = ran(&parse("+.>+.>+.").unwrap(), &[], 2);
    assert_eq!(halt, Halt::OutOfBounds);
    assert_eq!(output, vec![1, 1]);
    assert_eq!(tape, vec![1, 1]);
}

#[test]
fn an_empty_tape_has_no_cell() {
    assert_eq!(ran(&parse("+").unwrap(), &[], 0).0, Halt::OutOfBounds);
    assert_eq!(ran(&parse(".").unwrap(), &[], 0).0, Halt::OutOfBounds);
    assert_eq!(ran(&parse(",").unwrap(), &[1], 0).0, Halt::OutOfBounds);
    assert_eq!(ran(&parse("[]").unwrap(), &[], 0).0, Halt::OutOfBounds);
    assert_eq!(ran(&parse("").unwrap(), &[], 0).0, Halt::Finished);
}

#[test]
fn a_loop_that_does_not_end_runs_out_of_fuel() {
    let program = parse("+[]").unwrap();
    let mut interpreter = Interpreter::new(Vec::new(), Vec::new(), 1);
    assert_eq!(interpreter.interpret(&program, 1000), Halt::OutOfFuel);
    assert_eq!(interpreter.tape(), &vec![1]);
}

#[test]
fn fuel_bounds_the_rounds_of_a_loop() {
    // the loop goes round three times
    let program = parse("+++[-]").unwrap();
    let mut interpreter = Interpreter::new(Vec::new(), Vec::new(), 1);
    assert_eq!(interpreter.interpret(&program, 2), Halt::OutOfFuel);
    let mut interpreter = Interpreter::new(Vec::new(), Vec::new(), 1);
    assert_eq!(interpreter.interpret(&program, 3), Halt::Finished);
    let mut interpreter = Interpreter::new(Vec::new(), Vec::new(), 1);
    assert_eq!(interpreter.interpret(&parse("+").unwrap(), 0), Halt::Finished);
}

#[test]
fn a_loop_is_skipped_on_a_zero_cell() {
    let (halt, output, _) = ran(&parse("[.].").unwrap(), &[], 1);
    assert_eq!(halt, Halt::Finished);
    assert_eq!(output, vec![0]);
}

#[test]
fn output_goes_after_what_was_written_before() {
    let mut interpreter = Interpreter::new(vec![65], vec![1, 2], 1);
    assert_eq!(interpreter.interpret(&parse(",.").unwrap(), 10), Halt::Finished);
    assert_eq!(interpreter.output(), &vec![1, 2, 65]);
}

#[test]
fn a_second_run_goes_on_from_the_first() {
    let mut interpreter = Interpreter::new(vec![1, 2], Vec::new(), 3);
    assert_eq!(interpreter.interpret(&parse(",>").unwrap(), 10), Halt::Finished);
    assert_eq!(interpreter.interpret(&parse(",.").unwrap(), 10), Halt::Finished);
    assert_eq!(interpreter.tape(), &vec![1, 2, 0]);
    assert_eq!(interpreter.output(), &vec![2]);
}

#[test]
fn passes_keep_what_programs_do() {
    let programs = [
        (HELLO, &b""[..]),
        (",[.,]", &[0x48, 0x69, 0x00][..]),
        ("+++[-]++++.", &b""[..]),
        (">>>+<<<.", &b""[..]),
        ("-.", &b""[..]),
        ("++[>+++[>+<-]<-]>>.", &b""[..]),
        (",[-]+[-]++,.[+].", &[9, 250][..]),
        (",.,.,.", &[1, 2][..]),
        ("+-+-[+]><.[-]", &b""[..]),
    ];
    for (text, input) in programs {
        let program = parse(text).unwrap();
        let plain = ran(&program, input, 64);
        assert_eq!(ran(&CombineIncrements.optimize(program.clone()), input, 64), plain);
        assert_eq!(ran(&ReplaceSet.optimize(program.clone()), input, 64), plain);
        assert_eq!(ran(&CombineSets.optimize(program.clone()), input, 64), plain);
        assert_eq!(ran(&optimized(program), input, 64), plain);
    }
}

#[test]
fn a_run_on_more_input_goes_on_from_where_less_input_stopped() {
    let program = parse(",.,.").unwrap();
    let (halt, output, _) = ran(&program, &[], 2);
    assert_eq!((halt, output), (Halt::IoError, vec![]));
    let (halt, output, _) = ran(&program, &[5], 2);
    assert_eq!((halt, output), (Halt::IoError, vec![5]));
    let (halt, output, _) = ran(&program, &[5, 6], 2);
    assert_eq!((halt, output), (Halt::Finished, vec![5, 6]));
}
