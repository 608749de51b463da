use vstd::prelude::*;
use vstd::string::StringExecFns;
use vstd::wrapping::{isize_specs, u8_specs};

use crate::errors::ParserError;
use crate::tree::Node;

verus! {

/// A node of the tree that the parser builds.
#[derive(PartialEq, Eq, Debug)]
pub enum CommandASTNode {
    Move(isize),
    Add(u8),
    Output,
    Input,
    Loop(Vec<CommandASTNode>),
}

impl CommandASTNode {
    /// The mathematical form of this node.
    pub open spec fn view_node(self) -> Node
        decreases self,
    {
        match self {
            CommandASTNode::Move(d) => Node::Move(d),
            CommandASTNode::Add(n) => Node::Add(n),
            CommandASTNode::Output => Node::Output,
            CommandASTNode::Input => Node::Input,
            CommandASTNode::Loop(body) => Node::Loop(ast_view(body@)),
        }
    }
}

/// The mathematical form of a list of parsed nodes.
pub open spec fn ast_view(s: Seq<CommandASTNode>) -> Seq<Node>
    decreases s,
{
    Seq::new(s.len(), |i: int| if 0 <= i < s.len() { s[i].view_node() } else { Node::Zero })
}

/// The eight instruction symbols that carry meaning; every other character is ignored.
pub open spec fn is_command_char(c: char) -> bool {
    c == '>' || c == '<' || c == '+' || c == '-' || c == '.' || c == ',' || c == '[' || c == ']'
}

/// The node that a lone symbol stands for.
pub open spec fn single_op(c: char) -> Node {
    if c == '>' {
        Node::Move(1isize)
    } else if c == '<' {
        Node::Move(-1isize)
    } else if c == '+' {
        Node::Add(1u8)
    } else if c == '-' {
        Node::Add(255u8)
    } else if c == '.' {
        Node::Output
    } else {
        Node::Input
    }
}

/// The six symbols that stand for one operation each (all but the brackets).
pub open spec fn is_op_char(c: char) -> bool {
    c == '>' || c == '<' || c == '+' || c == '-' || c == '.' || c == ','
}

/// Appends the operation of symbol `c` to a sibling list, merging it into the
/// last node when that node is a move (for `>` and `<`) or an add (for `+` and `-`).
pub open spec fn fold_op(list: Seq<Node>, c: char) -> Seq<Node> {
    if list.len() > 0 && list.last() is Move && (c == '>' || c == '<') {
        let d = list.last()->Move_0;
        let e = if c == '>' {
            isize_specs::wrapping_add(d, 1isize)
        } else {
            isize_specs::wrapping_sub(d, 1isize)
        };
        list.drop_last().push(Node::Move(e))
    } else if list.len() > 0 && list.last() is Add && (c == '+' || c == '-') {
        let n = list.last()->Add_0;
        let m = if c == '+' {
            u8_specs::wrapping_add(n, 1u8)
        } else {
            u8_specs::wrapping_sub(n, 1u8)
        };
        list.drop_last().push(Node::Add(m))
    } else {
        list.push(single_op(c))
    }
}

/// One step of the scan: the stack of open sibling lists after reading `c`,
/// or `None` when `c` is a `]` with no open loop.
pub open spec fn scan_step(st: Seq<Seq<Node>>, c: char) -> Option<Seq<Seq<Node>>> {
    if is_op_char(c) {
        Some(st.update(st.len() - 1, fold_op(st.last(), c)))
    } else if c == '[' {
        Some(st.push(Seq::empty()))
    } else if c == ']' {
        if st.len() <= 1 {
            None
        } else {
            let rest = st.drop_last();
            Some(rest.update(rest.len() - 1, rest.last().push(Node::Loop(st.last()))))
        }
    } else {
        Some(st)
    }
}

/// The stack of open sibling lists after reading all of `s`; the first
/// entry is the top level.
pub open spec fn scan(s: Seq<char>) -> Option<Seq<Seq<Node>>>
    decreases s.len(),
{
    if s.len() == 0 {
        Some(seq![Seq::empty()])
    } else {
        match scan(s.drop_last()) {
            Some(st) => scan_step(st, s.last()),
            None => None,
        }
    }
}

/// The tree that a source text denotes, or the error it raises.
pub open spec fn parse_spec(s: Seq<char>) -> Result<Seq<Node>, ParserError> {
    match scan(s) {
        None => Err(ParserError::IncompleteLoop(0)),
        Some(st) => if st.len() == 1 {
            Ok(st[0])
        } else {
            Err(ParserError::IncompleteLoop((st.len() - 1) as usize))
        },
    }
}

/// The mathematical form of the parser's stack of open sibling lists.
pub open spec fn stack_view(st: Seq<Vec<CommandASTNode>>) -> Seq<Seq<Node>> {
    Seq::new(st.len(), |i: int| ast_view(st[i]@))
}

proof fn lemma_ast_view_push(s: Seq<CommandASTNode>, x: CommandASTNode)
    ensures
        ast_view(s.push(x)) == ast_view(s).push(x.view_node()),
{
    assert(ast_view(s.push(x)) =~= ast_view(s).push(x.view_node()));
}

proof fn lemma_ast_view_drop_last(s: Seq<CommandASTNode>)
    requires
        s.len() > 0,
    ensures
        ast_view(s.drop_last()) == ast_view(s).drop_last(),
        ast_view(s).last() == s.last().view_node(),
{
    assert(ast_view(s.drop_last()) =~= ast_view(s).drop_last());
}

/// Appends the operation of symbol `c` to `scope`, folding it into the last
/// node where the rule for runs allows.
fn push_op(scope: &mut Vec<CommandASTNode>, c: char)
    requires
        is_op_char(c),
    ensures
        ast_view(final(scope)@) == fold_op(ast_view(old(scope)@), c),
{
    let ghost s0 = ast_view(scope@);
    let last = scope.pop();
    proof {
        if old(scope)@.len() > 0 {
            lemma_ast_view_drop_last(old(scope)@);
        }
    }
    match last {
        Some(CommandASTNode::Move(d)) if c == '>' || c == '<' => {
            let e = if c == '>' { d.wrapping_add(1) } else { d.wrapping_sub(1) };
            scope.push(CommandASTNode::Move(e));
            proof {
                lemma_ast_view_push(scope@.drop_last(), CommandASTNode::Move(e));
                assert(scope@.drop_last() =~= old(scope)@.drop_last());
            }
            assert(ast_view(scope@) =~= fold_op(s0, c));
        },
        Some(CommandASTNode::Add(n)) if c == '+' || c == '-' => {
            let m = if c == '+' { n.wrapping_add(1) } else { n.wrapping_sub(1) };
            scope.push(CommandASTNode::Add(m));
            proof {
                lemma_ast_view_push(scope@.drop_last(), CommandASTNode::Add(m));
                assert(scope@.drop_last() =~= old(scope)@.drop_last());
            }
            assert(ast_view(scope@) =~= fold_op(s0, c));
        },
        _ => {
            match last {
                Some(node) => {
                    scope.push(node);
                },
                None => {},
            }
            assert(scope@ =~= old(scope)@);
            let node = if c == '>' {
                CommandASTNode::Move(1)
            } else if c == '<' {
                CommandASTNode::Move(-1)
            } else if c == '+' {
                CommandASTNode::Add(1)
            } else if c == '-' {
                CommandASTNode::Add(255)
            } else if c == '.' {
                CommandASTNode::Output
            } else {
                CommandASTNode::Input
            };
            scope.push(node);
            proof {
                lemma_ast_view_push(old(scope)@, node);
            }
            assert(ast_view(scope@) =~= fold_op(s0, c));
        },
    }
}

proof fn lemma_scan_failure_persists(s: Seq<char>, k: int)
    requires
        0 <= k <= s.len(),
        scan(s.take(k)) is None,
    ensures
        scan(s) is None,
    decreases s.len() - k,
{
    if k < s.len() {
        assert(s.take(k + 1).drop_last() =~= s.take(k));
        lemma_scan_failure_persists(s, k + 1);
    } else {
        assert(s.take(k) =~= s);
    }
}

/// Parses a source text into a tree. Characters other than the eight
/// instruction symbols are ignored; runs of moves and of adds are folded
/// into one node as they are read.
pub fn parse_source(source: String) -> (r: Result<Vec<CommandASTNode>, ParserError>)
    ensures
        match parse_spec(source@) {
            Ok(t) => r is Ok && ast_view(r->Ok_0@) == t,
            Err(e) => r == Err::<Vec<CommandASTNode>, ParserError>(e),
        },
{
    let mut ast: Vec<Vec<CommandASTNode>> = Vec::new();
    ast.push(Vec::new());
    proof {
        assert(ast_view(ast@[0]@) =~= Seq::<Node>::empty());
        assert(stack_view(ast@) =~= seq![Seq::<Node>::empty()]);
        assert(source@.take(0) =~= Seq::<char>::empty());
    }
    for c in it: source.chars()
        invariant
            it.seq() == source@,
            ast@.len() > 0,
            scan(source@.take(it.index() as int)) == Some(stack_view(ast@)),
    {
        let ghost idx = it.index() as int;
        let ghost st = stack_view(ast@);
        proof {
            assert(c == source@[idx]);
            assert(source@.take(idx + 1).drop_last() =~= source@.take(idx));
            assert(source@.take(idx + 1).last() == c);
        }
        if c == '>' || c == '<' || c == '+' || c == '-' || c == '.' || c == ',' {
            let mut scope = ast.pop().unwrap();
            push_op(&mut scope, c);
            ast.push(scope);
            assert(stack_view(ast@) =~= st.update(st.len() - 1, fold_op(st.last(), c)));
        } else if c == '[' {
            ast.push(Vec::new());
            assert(ast_view(ast@.last()@) =~= Seq::<Node>::empty());
            assert(stack_view(ast@) =~= st.push(Seq::empty()));
        } else if c == ']' {
            if ast.len() <= 1 {
                proof {
                    lemma_scan_failure_persists(source@, idx + 1);
                }
                return Err(ParserError::IncompleteLoop(0));
            }
            let contents = ast.pop().unwrap();
            let mut scope = ast.pop().unwrap();
            let ghost scope0 = scope@;
            scope.push(CommandASTNode::Loop(contents));
            proof {
                lemma_ast_view_push(scope0, CommandASTNode::Loop(contents));
            }
            ast.push(scope);
            let ghost rest = st.drop_last();
            assert(stack_view(ast@) =~= rest.update(
                rest.len() - 1,
                rest.last().push(Node::Loop(st.last())),
            ));
        } else {
            assert(!is_op_char(c) && c != '[' && c != ']');
        }
        assert(scan(source@.take(idx + 1)) == Some(stack_view(ast@)));
    }
    proof {
        assert(source@.take(source@.len() as int) =~= source@);
    }
    if ast.len() > 1 {
        return Err(ParserError::IncompleteLoop(ast.len() - 1));
    }
    let top = ast.pop().unwrap();
    Ok(top)
}

/// `n` copies of `c`.
pub open spec fn repeat(c: char, n: nat) -> Seq<char> {
    Seq::new(n, |i: int| c)
}

/// The symbols that write node `n`: a move or an add as a run of one
/// symbol (an add above 128 as a run of `-`), a loop as its body in
/// brackets. Nodes that only the optimizer makes have no symbols.
pub open spec fn node_source(n: Node) -> Seq<char>
    decreases n, 1nat,
{
    match n {
        Node::Move(d) => if d >= 0 {
            repeat('>', d as nat)
        } else {
            repeat('<', (-d) as nat)
        },
        Node::Add(k) => if k <= 128 {
            repeat('+', k as nat)
        } else {
            repeat('-', (256 - k) as nat)
        },
        Node::Output => seq!['.'],
        Node::Input => seq![','],
        Node::Loop(body) => seq!['['] + list_source(body) + seq![']'],
        _ => Seq::empty(),
    }
}

/// The symbols that write a sibling list: those of its nodes in order.
pub open spec fn list_source(s: Seq<Node>) -> Seq<char>
    decreases s, 0nat,
{
    if s.len() == 0 {
        Seq::empty()
    } else {
        list_source(s.drop_last()) + node_source(s.last())
    }
}

/// Appends `n` copies of the one-character string `c` to `out`.
fn push_run(out: &mut String, c: &str, n: u64)
    requires
        c@.len() == 1,
    ensures
        final(out)@ == old(out)@ + repeat(c@[0], n as nat),
{
    let mut i: u64 = 0;
    while i < n
        invariant
            i <= n,
            c@.len() == 1,
            out@ == old(out)@ + repeat(c@[0], i as nat),
        decreases n - i,
    {
        out.append(c);
        assert(out@ =~= old(out)@ + repeat(c@[0], (i + 1) as nat));
        i += 1;
    }
}

impl CommandASTNode {
    /// Appends the symbols that write this node to `out`.
    pub fn write_source(&self, out: &mut String)
        ensures
            final(out)@ == old(out)@ + node_source(self.view_node()),
        decreases self,
    {
        proof {
            reveal_strlit(">");
            reveal_strlit("<");
            reveal_strlit("+");
            reveal_strlit("-");
            reveal_strlit(".");
            reveal_strlit(",");
            reveal_strlit("[");
            reveal_strlit("]");
        }
        match self {
            CommandASTNode::Move(d) => {
                if *d >= 0 {
                    push_run(out, ">", *d as u64);
                } else {
                    push_run(out, "<", (-(*d as i128)) as u64);
                }
            },
            CommandASTNode::Add(k) => {
                if *k <= 128 {
                    push_run(out, "+", *k as u64);
                } else {
                    push_run(out, "-", (256 - *k as u64) as u64);
                }
            },
            CommandASTNode::Output => {
                out.append(".");
            },
            CommandASTNode::Input => {
                out.append(",");
            },
            CommandASTNode::Loop(contents) => {
                out.append("[");
                write_ast_source(contents, out);
                out.append("]");
                assert(out@ =~= old(out)@ + node_source(self.view_node()));
            },
        }
    }
}

/// Appends the symbols that write `ast` to `out`.
pub fn write_ast_source(ast: &Vec<CommandASTNode>, out: &mut String)
    ensures
        final(out)@ == old(out)@ + list_source(ast_view(ast@)),
    decreases ast,
{
    let ghost v = ast_view(ast@);
    let mut i: usize = 0;
    assert(v.take(0) =~= Seq::<Node>::empty());
    assert(old(out)@ + Seq::<char>::empty() =~= old(out)@);
    while i < ast.len()
        invariant
            i <= ast@.len(),
            v == ast_view(ast@),
            out@ == old(out)@ + list_source(v.take(i as int)),
        decreases ast@.len() - i,
    {
        assert(decreases_to!(ast => ast@[i as int]));
        ast[i].write_source(out);
        assert(v.take(i + 1).drop_last() =~= v.take(i as int));
        assert(out@ =~= old(out)@ + list_source(v.take(i + 1)));
        i += 1;
    }
    assert(v.take(i as int) =~= v);
}

/// The source text that writes `ast`.
pub fn ast_to_source(ast: &Vec<CommandASTNode>) -> (r: String)
    ensures
        r@ == list_source(ast_view(ast@)),
{
    let mut out = String::new();
    write_ast_source(ast, &mut out);
    assert(out@ =~= list_source(ast_view(ast@)));
    out
}

} // verus!
