use vstd::prelude::*;

use crate::command_ast::{ast_view, CommandASTNode};
use crate::optimizer::{opt_view, OptimizedASTNode};
use crate::tree::Node;

verus! {

/// One instruction of the flat program. Jump targets are indices into the
/// same program.
#[derive(PartialEq, Eq, Structural, Clone, Copy, Debug)]
pub enum Command {
    Move(isize),
    /// Adds the amount to the cell at the given offset from the cursor.
    Add(u8, isize),
    Zero,
    Output,
    Input,
    /// Jumps to the index of its `LoopEnd` when the current cell is zero.
    LoopBegin(usize),
    /// Jumps to the index of its `LoopBegin` when the current cell is nonzero.
    LoopEnd(usize),
}

/// The instructions for node `n` when its first instruction lands at index `base`.
pub open spec fn lower_node(n: Node, base: int) -> Seq<Command>
    decreases n, 1nat,
{
    match n {
        Node::Move(d) => seq![Command::Move(d)],
        Node::Add(k) => seq![Command::Add(k, 0)],
        Node::AddAt(k, d) => seq![Command::Add(k, d)],
        Node::Zero => seq![Command::Zero],
        Node::Output => seq![Command::Output],
        Node::Input => seq![Command::Input],
        Node::Loop(body) => {
            let inner = lower(body, base + 1);
            seq![Command::LoopBegin((base + 1 + inner.len()) as usize)] + inner + seq![
                Command::LoopEnd(base as usize),
            ]
        },
    }
}

/// The instructions for a sibling list whose first instruction lands at
/// index `base`: the lowering of each node in turn, each loop's begin and
/// end pointing at each other.
pub open spec fn lower(s: Seq<Node>, base: int) -> Seq<Command>
    decreases s, 0nat,
{
    if s.len() == 0 {
        Seq::empty()
    } else {
        let front = lower(s.drop_last(), base);
        front + lower_node(s.last(), base + front.len())
    }
}

/// Every loop instruction of `c` points into `c`, and the begin and end of
/// each loop point at each other: the lowering's pairing invariant.
pub open spec fn well_paired(c: Seq<Command>) -> bool {
    paired_from(c, 0)
}

/// The pairing invariant for a block `c` whose first instruction sits at
/// index `base` of the whole program.
#[verifier::opaque]
pub open spec fn paired_from(c: Seq<Command>, base: int) -> bool {
    forall|i: int|
        0 <= i < c.len() ==> match #[trigger] c[i] {
            Command::LoopBegin(j) => base <= j < base + c.len() && c[j - base] == Command::LoopEnd(
                (base + i) as usize,
            ),
            Command::LoopEnd(j) => base <= j < base + c.len() && c[j - base] == Command::LoopBegin(
                (base + i) as usize,
            ),
            _ => true,
        }
}

proof fn lemma_paired_concat(a: Seq<Command>, b: Seq<Command>, base: int)
    requires
        paired_from(a, base),
        paired_from(b, base + a.len()),
    ensures
        paired_from(a + b, base),
{
    reveal(paired_from);
    let c = a + b;
    assert forall|i: int| 0 <= i < c.len() implies match #[trigger] c[i] {
        Command::LoopBegin(j) => base <= j < base + c.len() && c[j - base] == Command::LoopEnd(
            (base + i) as usize,
        ),
        Command::LoopEnd(j) => base <= j < base + c.len() && c[j - base] == Command::LoopBegin(
            (base + i) as usize,
        ),
        _ => true,
    } by {
        if i < a.len() {
            assert(c[i] == a[i]);
        } else {
            assert(c[i] == b[i - a.len()]);
        }
    }
}

/// The lowering of a sibling list meets the pairing invariant wherever it
/// is placed, as long as its indices fit in `usize`.
pub proof fn lemma_lower_paired(s: Seq<Node>, base: int)
    requires
        0 <= base,
        base + lower(s, base).len() <= usize::MAX,
    ensures
        paired_from(lower(s, base), base),
    decreases s, 0nat,
{
    reveal(paired_from);
    if s.len() > 0 {
        let front = lower(s.drop_last(), base);
        lemma_lower_paired(s.drop_last(), base);
        lemma_lower_node_paired(s.last(), base + front.len());
        lemma_paired_concat(front, lower_node(s.last(), base + front.len()), base);
    }
}

proof fn lemma_lower_node_paired(n: Node, base: int)
    requires
        0 <= base,
        base + lower_node(n, base).len() <= usize::MAX,
    ensures
        paired_from(lower_node(n, base), base),
    decreases n, 1nat,
{
    reveal(paired_from);
    if let Node::Loop(body) = n {
        let inner = lower(body, base + 1);
        lemma_lower_paired(body, base + 1);
        let e = base + 1 + inner.len();
        let c = lower_node(n, base);
        assert forall|i: int| 0 <= i < c.len() implies match #[trigger] c[i] {
            Command::LoopBegin(j) => base <= j < base + c.len() && c[j - base] == Command::LoopEnd(
                (base + i) as usize,
            ),
            Command::LoopEnd(j) => base <= j < base + c.len() && c[j - base] == Command::LoopBegin(
                (base + i) as usize,
            ),
            _ => true,
        } by {
            if 1 <= i < c.len() - 1 {
                assert(c[i] == inner[i - 1]);
                match inner[i - 1] {
                    Command::LoopBegin(j) => assert(c[j - base] == inner[j - base - 1]),
                    Command::LoopEnd(j) => assert(c[j - base] == inner[j - base - 1]),
                    _ => {},
                }
            }
        }
    }
}

/// Appends the instructions for `ast` to `commands`.
pub fn commands_from_ast(commands: &mut Vec<Command>, ast: Vec<CommandASTNode>)
    ensures
        final(commands)@ == old(commands)@ + lower(ast_view(ast@), old(commands)@.len() as int),
    decreases ast,
{
    let ghost v = ast_view(ast@);
    let ghost start = commands@;
    assert(v.take(0) =~= Seq::<Node>::empty());
    assert(start + Seq::<Command>::empty() =~= start);
    for node in it: ast.into_iter()
        invariant
            it.seq() == ast@,
            v == ast_view(ast@),
            commands@ == start + lower(v.take(it.index() as int), start.len() as int),
    {
        let ghost k = it.index() as int;
        let ghost before = commands@;
        proof {
            assert(node == ast@[k]);
            assert(v.take(k + 1).drop_last() =~= v.take(k));
            assert(v.take(k + 1).last() == node.view_node());
        }
        match node {
            CommandASTNode::Move(offset) => commands.push(Command::Move(offset)),
            CommandASTNode::Add(n) => commands.push(Command::Add(n, 0)),
            CommandASTNode::Output => commands.push(Command::Output),
            CommandASTNode::Input => commands.push(Command::Input),
            CommandASTNode::Loop(contents) => {
                assert(decreases_to!(ast => ast@[k]));
                let begin_index = commands.len();
                commands.push(Command::LoopBegin(0));
                let ghost mid = commands@;
                commands_from_ast(commands, contents);
                let end_index = commands.len();
                commands.push(Command::LoopEnd(begin_index));
                commands.set(begin_index, Command::LoopBegin(end_index));
                assert(commands@ =~= before + lower_node(node.view_node(), before.len() as int));
            },
        }
        proof {
            let f = lower(v.take(k), start.len() as int);
            assert(lower(v.take(k + 1), start.len() as int) == f + lower_node(
                v[k],
                start.len() + f.len() as int,
            ));
            assert(commands@ =~= start + lower(v.take(k + 1), start.len() as int));
        }
    }
    assert(v.take(v.len() as int) =~= v);
}

/// Appends the instructions for the optimized tree `ast` to `commands`.
pub fn commands_from_optimized_ast(commands: &mut Vec<Command>, ast: Vec<OptimizedASTNode>)
    ensures
        final(commands)@ == old(commands)@ + lower(opt_view(ast@), old(commands)@.len() as int),
    decreases ast,
{
    let ghost v = opt_view(ast@);
    let ghost start = commands@;
    assert(v.take(0) =~= Seq::<Node>::empty());
    assert(start + Seq::<Command>::empty() =~= start);
    for node in it: ast.into_iter()
        invariant
            it.seq() == ast@,
            v == opt_view(ast@),
            commands@ == start + lower(v.take(it.index() as int), start.len() as int),
    {
        let ghost k = it.index() as int;
        let ghost before = commands@;
        proof {
            assert(node == ast@[k]);
            assert(v.take(k + 1).drop_last() =~= v.take(k));
            assert(v.take(k + 1).last() == node.view_node());
        }
        match node {
            OptimizedASTNode::Move(offset) => commands.push(Command::Move(offset)),
            OptimizedASTNode::Add(n) => commands.push(Command::Add(n, 0)),
            OptimizedASTNode::AddWithOffset(n, offset) => commands.push(Command::Add(n, offset)),
            OptimizedASTNode::Zero => commands.push(Command::Zero),
            OptimizedASTNode::Output => commands.push(Command::Output),
            OptimizedASTNode::Input => commands.push(Command::Input),
            OptimizedASTNode::Loop(contents) => {
                assert(decreases_to!(ast => ast@[k]));
                let begin_index = commands.len();
                commands.push(Command::LoopBegin(0));
                let ghost mid = commands@;
                commands_from_optimized_ast(commands, contents);
                let end_index = commands.len();
                commands.push(Command::LoopEnd(begin_index));
                commands.set(begin_index, Command::LoopBegin(end_index));
                assert(commands@ =~= before + lower_node(node.view_node(), before.len() as int));
            },
        }
        proof {
            let f = lower(v.take(k), start.len() as int);
            assert(lower(v.take(k + 1), start.len() as int) == f + lower_node(
                v[k],
                start.len() + f.len() as int,
            ));
            assert(commands@ =~= start + lower(v.take(k + 1), start.len() as int));
        }
    }
    assert(v.take(v.len() as int) =~= v);
}

} // verus!
