use vstd::prelude::*;

use crate::command_ast::{ast_view, CommandASTNode};
use crate::tree::Node;

verus! {

/// A node of the optimized tree.
#[derive(PartialEq, Eq, Debug)]
pub enum OptimizedASTNode {
    Move(isize),
    Add(u8),
    /// Adds to the cell at the given offset from the cursor, which stays put.
    AddWithOffset(u8, isize),
    /// Sets the current cell to zero.
    Zero,
    Output,
    Input,
    Loop(Vec<OptimizedASTNode>),
}

impl OptimizedASTNode {
    /// The mathematical form of this node.
    pub open spec fn view_node(self) -> Node
        decreases self,
    {
        match self {
            OptimizedASTNode::Move(d) => Node::Move(d),
            OptimizedASTNode::Add(n) => Node::Add(n),
            OptimizedASTNode::AddWithOffset(n, d) => Node::AddAt(n, d),
            OptimizedASTNode::Zero => Node::Zero,
            OptimizedASTNode::Output => Node::Output,
            OptimizedASTNode::Input => Node::Input,
            OptimizedASTNode::Loop(body) => Node::Loop(opt_view(body@)),
        }
    }
}

/// The mathematical form of a list of optimized nodes.
pub open spec fn opt_view(s: Seq<OptimizedASTNode>) -> Seq<Node>
    decreases s,
{
    Seq::new(s.len(), |i: int| if 0 <= i < s.len() { s[i].view_node() } else { Node::Zero })
}

/// Whether `x` fits in an offset.
pub open spec fn fits_isize(x: int) -> bool {
    isize::MIN <= x <= isize::MAX
}

/// The three nodes at the front of `s` are a move, an add and a move whose
/// combined offset is a valid offset.
pub open spec fn starts_with_fusable(s: Seq<Node>) -> bool {
    &&& s.len() >= 3
    &&& s[0] is Move
    &&& s[1] is Add
    &&& s[2] is Move
    &&& fits_isize(s[0]->Move_0 + s[2]->Move_0)
}

/// Rule of fusion, applied left to right over one sibling list: a move by
/// `d1`, an add of `n` and a move by `d2` become an add of `n` at offset `d1`
/// followed by a move by `d1 + d2`, which is dropped when it is zero. The
/// scan goes on from that move, so it can take part in the next fusion.
pub open spec fn fuse(s: Seq<Node>) -> Seq<Node>
    decreases s.len(),
{
    if starts_with_fusable(s) {
        let d1 = s[0]->Move_0;
        let d = d1 + s[2]->Move_0;
        let head = Node::AddAt(s[1]->Add_0, d1);
        if d == 0 {
            seq![head] + fuse(s.skip(3))
        } else {
            seq![head] + fuse(seq![Node::Move(d as isize)] + s.skip(3))
        }
    } else if s.len() == 0 {
        s
    } else {
        seq![s[0]] + fuse(s.skip(1))
    }
}

/// A loop whose body is exactly one add of a nonzero amount.
pub open spec fn is_zero_loop(n: Node) -> bool {
    &&& n is Loop
    &&& n->Loop_0.len() == 1
    &&& n->Loop_0[0] is Add
    &&& n->Loop_0[0]->Add_0 != 0
}

/// The node after optimization: a zero loop becomes `Zero`, any other loop
/// has its body optimized, and every other node stays.
pub open spec fn optimize_node(n: Node) -> Node
    decreases n, 2nat,
{
    if is_zero_loop(n) {
        Node::Zero
    } else {
        match n {
            Node::Loop(body) => Node::Loop(optimize_nodes(body)),
            _ => n,
        }
    }
}

/// Every node of the list optimized on its own.
pub open spec fn optimize_each(s: Seq<Node>) -> Seq<Node>
    decreases s, 0nat,
{
    Seq::new(s.len(), |i: int| if 0 <= i < s.len() { optimize_node(s[i]) } else { Node::Zero })
}

/// The optimized form of a sibling list: every node optimized on its own
/// (which collapses zero loops and optimizes the bodies of the others), then
/// fusion at this level. Fusion only touches moves and adds, so this is the
/// same as fusing first.
pub open spec fn optimize_nodes(s: Seq<Node>) -> Seq<Node>
    decreases s, 1nat,
{
    fuse(optimize_each(s))
}

proof fn lemma_opt_view_push(s: Seq<OptimizedASTNode>, x: OptimizedASTNode)
    ensures
        opt_view(s.push(x)) == opt_view(s).push(x.view_node()),
{
    assert(opt_view(s.push(x)) =~= opt_view(s).push(x.view_node()));
}

/// The same tree, in the optimizer's node type.
fn optimized_ast_from_ast(ast: &Vec<CommandASTNode>) -> (r: Vec<OptimizedASTNode>)
    ensures
        opt_view(r@) == ast_view(ast@),
    decreases ast,
{
    let mut r: Vec<OptimizedASTNode> = Vec::new();
    let mut i: usize = 0;
    while i < ast.len()
        invariant
            i <= ast@.len(),
            opt_view(r@) == ast_view(ast@).take(i as int),
        decreases ast@.len() - i,
    {
        let node = match &ast[i] {
            CommandASTNode::Move(d) => OptimizedASTNode::Move(*d),
            CommandASTNode::Add(n) => OptimizedASTNode::Add(*n),
            CommandASTNode::Output => OptimizedASTNode::Output,
            CommandASTNode::Input => OptimizedASTNode::Input,
            CommandASTNode::Loop(body) => {
                assert(decreases_to!(ast => ast@[i as int]));
                OptimizedASTNode::Loop(optimized_ast_from_ast(body))
            },
        };
        proof {
            lemma_opt_view_push(r@, node);
        }
        r.push(node);
        assert(opt_view(r@) =~= ast_view(ast@).take(i + 1));
        i += 1;
    }
    assert(ast_view(ast@).take(i as int) =~= ast_view(ast@));
    r
}

proof fn lemma_fuse_short(s: Seq<Node>)
    requires
        s.len() < 3,
    ensures
        fuse(s) == s,
    decreases s.len(),
{
    if s.len() > 0 {
        lemma_fuse_short(s.skip(1));
        assert(seq![s[0]] + s.skip(1) =~= s);
    }
}

/// Applies the rule of fusion to one sibling list, in place.
fn fuse_moves(ast: &mut Vec<OptimizedASTNode>)
    ensures
        opt_view(final(ast)@) == fuse(opt_view(old(ast)@)),
{
    let ghost target = fuse(opt_view(ast@));
    proof {
        assert(opt_view(ast@).skip(0) =~= opt_view(ast@));
        assert(opt_view(ast@).take(0) + target =~= target);
    }
    let mut i: usize = 0;
    while i < ast.len() && ast.len() - i >= 3
        invariant
            i <= ast@.len(),
            target == opt_view(ast@).take(i as int) + fuse(opt_view(ast@).skip(i as int)),
        decreases ast@.len() - i,
    {
        let ghost v = opt_view(ast@);
        let ghost w = v.skip(i as int);
        let d1 = match &ast[i] {
            OptimizedASTNode::Move(d) => Some(*d),
            _ => None,
        };
        let n = match &ast[i + 1] {
            OptimizedASTNode::Add(n) => Some(*n),
            _ => None,
        };
        let d2 = match &ast[i + 2] {
            OptimizedASTNode::Move(d) => Some(*d),
            _ => None,
        };
        let mut fused = false;
        if let (Some(d1), Some(n), Some(d2)) = (d1, n, d2) {
            if let Some(d) = d1.checked_add(d2) {
                assert(starts_with_fusable(w));
                assert(w.skip(3) =~= v.skip(i + 3));
                ast.remove(i + 2);
                if d == 0 {
                    ast.remove(i + 1);
                    ast.set(i, OptimizedASTNode::AddWithOffset(n, d1));
                    assert(opt_view(ast@).take(i + 1) =~= v.take(i as int).push(Node::AddAt(n, d1)));
                    assert(opt_view(ast@).skip(i + 1) =~= v.skip(i + 3));
                } else {
                    ast.set(i + 1, OptimizedASTNode::Move(d));
                    ast.set(i, OptimizedASTNode::AddWithOffset(n, d1));
                    assert(opt_view(ast@).take(i + 1) =~= v.take(i as int).push(Node::AddAt(n, d1)));
                    assert(opt_view(ast@).skip(i + 1) =~= seq![Node::Move(d)] + v.skip(i + 3));
                }
                assert(fuse(w) == seq![Node::AddAt(n, d1)] + fuse(opt_view(ast@).skip(i + 1)));
                fused = true;
            }
        }
        if !fused {
            assert(!starts_with_fusable(w));
            assert(w.skip(1) =~= v.skip(i + 1));
            assert(v.take(i + 1) =~= v.take(i as int).push(v[i as int]));
        }
        assert(target == opt_view(ast@).take(i + 1) + fuse(opt_view(ast@).skip(i + 1)));
        i += 1;
    }
    proof {
        lemma_fuse_short(opt_view(ast@).skip(i as int));
        assert(opt_view(ast@).take(i as int) + opt_view(ast@).skip(i as int) =~= opt_view(ast@));
    }
}

proof fn lemma_optimize_node_keeps_moves_and_adds(n: Node)
    ensures
        (optimize_node(n) is Move) == (n is Move),
        (optimize_node(n) is Add) == (n is Add),
        n is Move || n is Add ==> optimize_node(n) == n,
{
}

proof fn lemma_optimize_each_concat(a: Seq<Node>, b: Seq<Node>)
    ensures
        optimize_each(a + b) == optimize_each(a) + optimize_each(b),
{
    assert(optimize_each(a + b) =~= optimize_each(a) + optimize_each(b));
}

/// Collapsing zero loops and optimizing loop bodies commutes with fusion.
proof fn lemma_optimize_each_fuse(s: Seq<Node>)
    ensures
        optimize_each(fuse(s)) == fuse(optimize_each(s)),
    decreases s.len(),
{
    let t = optimize_each(s);
    if s.len() >= 3 {
        lemma_optimize_node_keeps_moves_and_adds(s[0]);
        lemma_optimize_node_keeps_moves_and_adds(s[1]);
        lemma_optimize_node_keeps_moves_and_adds(s[2]);
    }
    if starts_with_fusable(s) {
        assert(starts_with_fusable(t));
        let d1 = s[0]->Move_0;
        let d = d1 + s[2]->Move_0;
        let head = Node::AddAt(s[1]->Add_0, d1);
        assert(t.skip(3) =~= optimize_each(s.skip(3)));
        if d == 0 {
            lemma_optimize_each_fuse(s.skip(3));
            lemma_optimize_each_concat(seq![head], fuse(s.skip(3)));
            assert(optimize_each(seq![head]) =~= seq![head]);
        } else {
            let r = seq![Node::Move(d as isize)] + s.skip(3);
            lemma_optimize_each_fuse(r);
            lemma_optimize_each_concat(seq![head], fuse(r));
            lemma_optimize_each_concat(seq![Node::Move(d as isize)], s.skip(3));
            assert(optimize_each(seq![head]) =~= seq![head]);
            assert(optimize_each(seq![Node::Move(d as isize)]) =~= seq![Node::Move(d as isize)]);
        }
    } else if s.len() == 0 {
        assert(optimize_each(s) =~= s);
    } else {
        assert(!starts_with_fusable(t));
        lemma_optimize_each_fuse(s.skip(1));
        lemma_optimize_each_concat(seq![s[0]], fuse(s.skip(1)));
        assert(optimize_each(seq![s[0]]) =~= seq![t[0]]);
        assert(t.skip(1) =~= optimize_each(s.skip(1)));
    }
}

/// Fusing first and then collapsing zero loops and optimizing loop bodies
/// gives the same tree as `optimize_nodes`, which takes the other order.
pub proof fn lemma_fuse_first(s: Seq<Node>)
    ensures
        optimize_nodes(s) == optimize_each(fuse(s)),
{
    lemma_optimize_each_fuse(s);
}

impl OptimizedASTNode {
    /// Whether this is a loop whose body is exactly one add of a nonzero
    /// amount, such as `[-]`: it leaves the current cell at zero.
    fn is_zero_operation(&self) -> (r: bool)
        ensures
            r == is_zero_loop(self.view_node()),
    {
        match self {
            OptimizedASTNode::Loop(contents) => {
                if contents.len() != 1 {
                    return false;
                }
                assert(opt_view(contents@)[0] == contents@[0].view_node());
                match &contents[0] {
                    OptimizedASTNode::Add(n) => *n != 0,
                    _ => false,
                }
            },
            _ => false,
        }
    }
}

/// Optimizes a sibling list in place: zero loops collapse, the bodies of
/// other loops are optimized, and moves around adds are fused.
fn optimize_ast(ast: &mut Vec<OptimizedASTNode>)
    ensures
        opt_view(final(ast)@) == optimize_nodes(opt_view(old(ast)@)),
    decreases *old(ast),
{
    let mut nodes: Vec<OptimizedASTNode> = Vec::new();
    std::mem::swap(ast, &mut nodes);
    let ghost v = opt_view(nodes@);
    for node in it: nodes.into_iter()
        invariant
            it.seq() == old(ast)@,
            opt_view(ast@) == optimize_each(v).take(it.index() as int),
            v == opt_view(old(ast)@),
    {
        let ghost k = it.index() as int;
        assert(node == old(ast)@[k]);
        assert(node.view_node() == v[k]);
        let new_node = if node.is_zero_operation() {
            OptimizedASTNode::Zero
        } else {
            match node {
                OptimizedASTNode::Loop(mut body) => {
                    assert(decreases_to!(*old(ast) => old(ast)@[k]));
                    optimize_ast(&mut body);
                    OptimizedASTNode::Loop(body)
                },
                other => other,
            }
        };
        proof {
            lemma_opt_view_push(ast@, new_node);
        }
        ast.push(new_node);
        assert(opt_view(ast@) =~= optimize_each(v).take(k + 1));
    }
    proof {
        assert(optimize_each(v).take(v.len() as int) =~= optimize_each(v));
        assert(opt_view(ast@) == optimize_each(v));
        assert(optimize_nodes(v) == fuse(optimize_each(v)));
    }
    fuse_moves(ast);
}

/// Optimizes a parsed tree.
pub fn optimize(ast: Vec<CommandASTNode>) -> (r: Vec<OptimizedASTNode>)
    ensures
        opt_view(r@) == optimize_nodes(ast_view(ast@)),
{
    let mut optimized_ast = optimized_ast_from_ast(&ast);
    optimize_ast(&mut optimized_ast);
    optimized_ast
}

} // verus!
