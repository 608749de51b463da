use brainrust::commands::{commands_from_ast, commands_from_optimized_ast, Command};
use brainrust::command_ast::{parse_source, CommandASTNode};
use brainrust::interpreter::{Interpreter, StepOutcome};
use brainrust::memory::Memory;
use brainrust::optimizer::{optimize, OptimizedASTNode};
use brainrust::program::Program;

const GREETING: &str = "-[--->+<]>-.-[----->+++<]>.[--->+<]>----.+.";

fn run_with_input(interpreter: &mut Interpreter, input: &str) -> Result<String, ()> {
    let mut chars = input.chars();
    let mut out = String::new();
    loop {
        match interpreter.step() {
            StepOutcome::Halted => return Ok(out),
            StepOutcome::Continue => {}
            StepOutcome::Output(c) => out.push(c),
            StepOutcome::NeedsInput => match chars.next() {
                Some(c) => assert!(interpreter.provide_input(c)),
                None => return Err(()),
            },
        }
    }
}

fn parsed(source: &str) -> Vec<CommandASTNode> {
    parse_source(String::from(source)).unwrap()
}

#[test]
fn greeting_program_prints_the_same_on_both_paths() {
    // Four output instructions: the first cell counts down by three from
    // 255 while the second counts up, giving 85, then 84 = 'T'.
    for &optimized in &[false, true] {
        for &size in &[2usize, 3, 30000] {
            let mut interpreter =
                Interpreter::load_program(String::from(GREETING), size, false, optimized).unwrap();
            assert_eq!(run_with_input(&mut interpreter, ""), Ok(String::from("Test")));
            assert_eq!(interpreter.step(), StepOutcome::Halted);
        }
    }
}

#[test]
fn load_program_reports_parse_errors() {
    assert!(Interpreter::load_program(String::from("+[-"), 10, false, true).is_err());
    assert!(Interpreter::load_program(String::from("]"), 10, true, false).is_err());
    let i = Interpreter::load_program(String::from("+"), 10, true, false).unwrap();
    assert!(i.always_flush());
}

#[test]
fn input_is_stored_in_the_current_cell() {
    let mut interpreter = Interpreter::load_program(String::from(",+."), 4, false, false).unwrap();
    assert_eq!(interpreter.step(), StepOutcome::NeedsInput);
    assert!(interpreter.provide_input('a'));
    assert!(!interpreter.provide_input('z'));
    assert_eq!(interpreter.step(), StepOutcome::Continue);
    assert_eq!(interpreter.step(), StepOutcome::Output('b'));
    assert_eq!(interpreter.step(), StepOutcome::Halted);
}

#[test]
fn echo_program_copies_input_until_zero() {
    let mut plain = Interpreter::load_program(String::from(",[.,]"), 8, false, false).unwrap();
    let mut fast = Interpreter::load_program(String::from(",[.,]"), 8, false, true).unwrap();
    let input = "abc\u{0}";
    assert_eq!(run_with_input(&mut plain, input), Ok(String::from("abc")));
    assert_eq!(run_with_input(&mut fast, input), Ok(String::from("abc")));
    let mut starved = Interpreter::load_program(String::from(",[.,]"), 8, false, true).unwrap();
    assert_eq!(run_with_input(&mut starved, "ab"), Err(()));
}

#[test]
fn lowering_pairs_loop_brackets() {
    let mut commands = vec![];
    commands_from_ast(&mut commands, parsed("+[->+<]."));
    assert_eq!(
        commands,
        vec![
            Command::Add(1, 0),
            Command::LoopBegin(6),
            Command::Add(255, 0),
            Command::Move(1),
            Command::Add(1, 0),
            Command::Move(-1),
            Command::LoopEnd(1),
            Command::Output,
        ]
    );
    let mut nested = vec![Command::Output];
    commands_from_ast(&mut nested, parsed("[[]][]"));
    assert_eq!(
        nested,
        vec![
            Command::Output,
            Command::LoopBegin(4),
            Command::LoopBegin(3),
            Command::LoopEnd(2),
            Command::LoopEnd(1),
            Command::LoopBegin(6),
            Command::LoopEnd(5),
        ]
    );
}

#[test]
fn optimized_lowering_uses_offsets_and_zero() {
    let mut commands = vec![];
    commands_from_optimized_ast(&mut commands, optimize(parsed("+[->+<][-]")));
    assert_eq!(
        commands,
        vec![
            Command::Add(1, 0),
            Command::LoopBegin(4),
            Command::Add(255, 0),
            Command::Add(1, 1),
            Command::LoopEnd(1),
            Command::Zero,
        ]
    );
}

#[test]
fn program_walks_and_jumps() {
    let mut program = Program::from_ast(parsed("+[-]"));
    assert_eq!(program.commands.len(), 4);
    assert_eq!(program.get(), Some(Command::Add(1, 0)));
    program.next();
    assert_eq!(program.get(), Some(Command::LoopBegin(3)));
    program.jump(3);
    assert_eq!(program.get(), Some(Command::LoopEnd(1)));
    program.next();
    assert_eq!(program.get(), None);
    let optimized = Program::from_optimized_ast(optimize(parsed("+[-]")));
    assert_eq!(optimized.commands, vec![Command::Add(1, 0), Command::Zero]);
}

#[test]
fn zero_loops_collapse_only_for_one_nonzero_add() {
    assert_eq!(optimize(parsed("[-]")), vec![OptimizedASTNode::Zero]);
    assert_eq!(optimize(parsed("[+]")), vec![OptimizedASTNode::Zero]);
    assert_eq!(optimize(parsed("[---]")), vec![OptimizedASTNode::Zero]);
    assert_eq!(
        optimize(parsed("[+-]")),
        vec![OptimizedASTNode::Loop(vec![OptimizedASTNode::Add(0)])]
    );
    assert_eq!(
        optimize(parsed("[]")),
        vec![OptimizedASTNode::Loop(vec![])]
    );
    assert_eq!(
        optimize(parsed("[-.]")),
        vec![OptimizedASTNode::Loop(vec![OptimizedASTNode::Add(255), OptimizedASTNode::Output])]
    );
    assert_eq!(
        optimize(parsed("[[-]>]")),
        vec![OptimizedASTNode::Loop(vec![OptimizedASTNode::Zero, OptimizedASTNode::Move(1)])]
    );
}

#[test]
fn moves_around_adds_fuse() {
    assert_eq!(optimize(parsed(">+<")), vec![OptimizedASTNode::AddWithOffset(1, 1)]);
    assert_eq!(
        optimize(parsed(">+>>")),
        vec![OptimizedASTNode::AddWithOffset(1, 1), OptimizedASTNode::Move(3)]
    );
    assert_eq!(
        optimize(parsed(">+<>+<")),
        vec![OptimizedASTNode::AddWithOffset(1, 1), OptimizedASTNode::AddWithOffset(1, 1)]
    );
    assert_eq!(
        optimize(parsed("<<---.")),
        vec![OptimizedASTNode::Move(-2), OptimizedASTNode::Add(253), OptimizedASTNode::Output]
    );
    assert_eq!(
        optimize(parsed("+[->++<]")),
        vec![
            OptimizedASTNode::Add(1),
            OptimizedASTNode::Loop(vec![
                OptimizedASTNode::Add(255),
                OptimizedASTNode::AddWithOffset(2, 1),
            ]),
        ]
    );
}

#[test]
fn tape_moves_wrap_around() {
    let mut a = Memory::new(5);
    let mut b = Memory::new(5);
    a.move_index(5 + 2);
    b.move_index(2);
    a.add(7);
    b.add_with_offset(7, 0);
    a.move_index(-2);
    b.move_index(-12);
    assert!(a.is_zero());
    assert!(b.is_zero());
    a.move_index(2);
    b.move_index(-3);
    assert_eq!(a.get_char(), '\u{7}');
    assert_eq!(b.get_char(), '\u{7}');
    let mut c = Memory::new(3);
    c.add_with_offset(9, -1);
    c.add_with_offset(1, isize::MIN);
    c.move_index(2);
    assert_eq!(c.get_char(), '\u{9}');
    c.move_index(isize::MAX);
    c.move_index(isize::MIN);
    c.move_index(1);
    assert!(c.get_char() as u32 <= 10);
}

#[test]
fn cells_wrap_at_eight_bits() {
    let mut m = Memory::new(1);
    m.add(255);
    assert_eq!(m.get_char(), '\u{ff}');
    m.add(1);
    assert!(m.is_zero());
    m.add_with_offset(255, 0);
    assert_eq!(m.get_char() as u32, 255);
    m.set_char('\u{141}');
    assert_eq!(m.get_char(), 'A');
    m.zero();
    assert!(m.is_zero());
}

fn output_of(source: &str, optimized: bool, size: usize, input: &str) -> Result<String, ()> {
    let mut interpreter =
        Interpreter::load_program(String::from(source), size, false, optimized).unwrap();
    run_with_input(&mut interpreter, input)
}

#[test]
fn single_add_loops_end_at_zero() {
    for v in 0..=255u32 {
        for n in [1u32, 3, 5, 255, 2, 4, 128] {
            let divisor = 1u32 << n.trailing_zeros();
            if v % divisor != 0 {
                continue;
            }
            let source = format!("{}[{}]+.", "+".repeat(v as usize), "+".repeat(n as usize));
            assert_eq!(output_of(&source, false, 1, ""), Ok(String::from("\u{1}")));
            assert_eq!(output_of(&source, true, 1, ""), Ok(String::from("\u{1}")));
        }
    }
}

#[test]
fn optimized_runs_match_plain_runs() {
    let programs = [
        "++++++++[>++++++++<-]>+.+.+.",
        ">>+++[<+++++>-]<[<++>-]<.",
        "+++[>+++[>+++<-]<-]>>.",
        ",[>+>+<<-]>.>.",
        "<+++[<+>-]<.>>.",
        "-[--->+<]>-.-[----->+++<]>.[--->+<]>----.+.",
    ];
    for source in programs {
        for size in [3usize, 4, 7, 300] {
            assert_eq!(
                output_of(source, false, size, "A"),
                output_of(source, true, size, "A"),
                "{} on {} cells",
                source,
                size
            );
        }
    }
    assert_eq!(output_of(",[>+>+<<-]>.>.", true, 5, "A"), Ok(String::from("AA")));
    assert_eq!(output_of("<+++[<+>-]<.>>.", true, 5, ""), Ok(String::from("\u{3}\u{0}")));
}
