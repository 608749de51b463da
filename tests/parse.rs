use brainrust::command_ast::{ast_to_source, parse_source, CommandASTNode};
use brainrust::errors::ParserError;

fn assert_ast(source: &str, expected_ast: Vec<CommandASTNode>) {
    assert_eq!(parse_source(String::from(source)), Ok(expected_ast));
}

#[test]
fn test_parse_source_empty() {
    assert_ast("", vec![]);
    assert_ast(" ", vec![]);
    assert_ast("       ", vec![]);
    assert_ast("test", vec![]);
    assert_ast("https://github_com/EliasWatson/BrainRust", vec![]);
}

#[test]
fn test_parse_source_single_ops() {
    assert_ast(">", vec![CommandASTNode::Move(1)]);
    assert_ast("<", vec![CommandASTNode::Move(-1)]);

    assert_ast("+", vec![CommandASTNode::Add(1)]);
    assert_ast("-", vec![CommandASTNode::Add(255)]);

    assert_ast(".", vec![CommandASTNode::Output]);
    assert_ast(",", vec![CommandASTNode::Input]);
}

#[test]
fn test_parse_source_repeated_ops() {
    assert_ast(">>>", vec![CommandASTNode::Move(3)]);
    assert_ast("<<<", vec![CommandASTNode::Move(-3)]);

    assert_ast("+++", vec![CommandASTNode::Add(3)]);
    assert_ast("---", vec![CommandASTNode::Add(253)]);
}

#[test]
fn test_parse_source_alternating_ops() {
    assert_ast("><>>", vec![CommandASTNode::Move(2)]);
    assert_ast(">>><<<<", vec![CommandASTNode::Move(-1)]);

    assert_ast("<<>", vec![CommandASTNode::Move(-1)]);
    assert_ast("<<>>>>", vec![CommandASTNode::Move(2)]);

    assert_ast("++-+", vec![CommandASTNode::Add(2)]);
    assert_ast("+++----", vec![CommandASTNode::Add(255)]);

    assert_ast("-+--", vec![CommandASTNode::Add(254)]);
    assert_ast("--++++", vec![CommandASTNode::Add(2)]);
}

#[test]
fn test_parse_source_basic_loops() {
    assert_ast("[]", vec![CommandASTNode::Loop(vec![])]);
    assert_ast("[ ]", vec![CommandASTNode::Loop(vec![])]);
    assert_ast("[test]", vec![CommandASTNode::Loop(vec![])]);

    assert_ast(
        "[][]",
        vec![CommandASTNode::Loop(vec![]), CommandASTNode::Loop(vec![])],
    );
    assert_ast(
        "[[]]",
        vec![CommandASTNode::Loop(vec![CommandASTNode::Loop(vec![])])],
    );
    assert_ast(
        "[[]][]",
        vec![
            CommandASTNode::Loop(vec![CommandASTNode::Loop(vec![])]),
            CommandASTNode::Loop(vec![]),
        ],
    );
}

#[test]
fn test_parse_source_basic_programs() {
    assert_ast(
        "-[--->+<]>-.-[----->+++<]>.[--->+<]>----.+.",
        vec![
            CommandASTNode::Add(255),
            CommandASTNode::Loop(vec![
                CommandASTNode::Add(253),
                CommandASTNode::Move(1),
                CommandASTNode::Add(1),
                CommandASTNode::Move(-1),
            ]),
            CommandASTNode::Move(1),
            CommandASTNode::Add(255),
            CommandASTNode::Output,
            CommandASTNode::Add(255),
            CommandASTNode::Loop(vec![
                CommandASTNode::Add(251),
                CommandASTNode::Move(1),
                CommandASTNode::Add(3),
                CommandASTNode::Move(-1),
            ]),
            CommandASTNode::Move(1),
            CommandASTNode::Output,
            CommandASTNode::Loop(vec![
                CommandASTNode::Add(253),
                CommandASTNode::Move(1),
                CommandASTNode::Add(1),
                CommandASTNode::Move(-1),
            ]),
            CommandASTNode::Move(1),
            CommandASTNode::Add(252),
            CommandASTNode::Output,
            CommandASTNode::Add(1),
            CommandASTNode::Output,
        ],
    );
}

#[test]
fn unmatched_brackets_are_rejected() {
    assert_eq!(parse_source(String::from("[")), Err(ParserError::IncompleteLoop(1)));
    assert_eq!(parse_source(String::from("]")), Err(ParserError::IncompleteLoop(0)));
    assert_eq!(parse_source(String::from("[[]")), Err(ParserError::IncompleteLoop(1)));
    assert_eq!(parse_source(String::from("[[[+]")), Err(ParserError::IncompleteLoop(2)));
    assert_eq!(parse_source(String::from("[]]")), Err(ParserError::IncompleteLoop(0)));
    assert_eq!(parse_source(String::from("+][")), Err(ParserError::IncompleteLoop(0)));
    assert_eq!(ParserError::IncompleteLoop(0).message(), "loop bracket missing");
}

#[test]
fn ignored_characters_do_not_change_the_tree() {
    let plain = parse_source(String::from("+[->+<]>."));
    let noisy = parse_source(String::from("a+ b[x-y>z+ <\n]>\t.!"));
    assert_eq!(plain, noisy);
    assert!(plain.is_ok());
}

#[test]
fn runs_fold_to_their_net_sum() {
    assert_ast(">>>>>", vec![CommandASTNode::Move(5)]);
    assert_ast(">>>>>", vec![CommandASTNode::Move(5)]);
    assert_ast("><<<>", vec![CommandASTNode::Move(-1)]);
    assert_ast("><", vec![CommandASTNode::Move(0)]);
    let many = "+".repeat(300);
    assert_ast(&many, vec![CommandASTNode::Add(44)]);
    assert_ast("+-", vec![CommandASTNode::Add(0)]);
    assert_ast(
        "+>+",
        vec![CommandASTNode::Add(1), CommandASTNode::Move(1), CommandASTNode::Add(1)],
    );
    assert_ast(
        "[+]+",
        vec![CommandASTNode::Loop(vec![CommandASTNode::Add(1)]), CommandASTNode::Add(1)],
    );
}

#[test]
fn trees_write_back_to_source() {
    let ast = parse_source(String::from("+++ --[>>-<]x.,<<<")).unwrap();
    assert_eq!(ast_to_source(&ast), "+[>>-<].,<<<");
    let ast = parse_source(String::from("-----")).unwrap();
    assert_eq!(ast_to_source(&ast), "-----");
    let ast = parse_source(String::from("><")).unwrap();
    assert_eq!(ast_to_source(&ast), "");
    let mut out = String::from("#");
    let node = CommandASTNode::Loop(vec![CommandASTNode::Add(200), CommandASTNode::Move(-2)]);
    node.write_source(&mut out);
    assert_eq!(out, format!("#[{}<<]", "-".repeat(56)));
}
