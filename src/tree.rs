use vstd::prelude::*;

verus! {

/// The mathematical form of a program tree. It covers both the parsed tree
/// and the optimized one: `AddAt` and `Zero` only arise from optimization.
pub enum Node {
    Move(isize),
    Add(u8),
    AddAt(u8, isize),
    Zero,
    Output,
    Input,
    Loop(Seq<Node>),
}

} // verus!
