use vstd::prelude::*;

use crate::command_ast::{ast_view, CommandASTNode};
use crate::commands::{
    commands_from_ast, commands_from_optimized_ast, lemma_lower_paired, lower, well_paired, Command,
};
use crate::optimizer::{opt_view, OptimizedASTNode};

verus! {

/// A flat instruction sequence and the index of the next instruction.
#[derive(Debug)]
pub struct Program {
    pub commands: Vec<Command>,
    index: usize,
}

impl Program {
    /// The index of the next instruction.
    pub closed spec fn pc(&self) -> int {
        self.index as int
    }

    /// The instructions.
    pub closed spec fn code(&self) -> Seq<Command> {
        self.commands@
    }

    /// The lowered form of a parsed tree, ready to run from its first instruction.
    pub fn from_ast(ast: Vec<CommandASTNode>) -> (r: Self)
        ensures
            r.code() == lower(ast_view(ast@), 0),
            well_paired(r.code()),
            r.code().len() <= usize::MAX,
            r.pc() == 0,
    {
        let mut commands: Vec<Command> = Vec::new();
        commands_from_ast(&mut commands, ast);
        assert(commands@ =~= lower(ast_view(ast@), 0));
        proof {
            assert(commands@.len() == commands.len());
            lemma_lower_paired(ast_view(ast@), 0);
        }
        Self { commands, index: 0 }
    }

    /// The lowered form of an optimized tree, ready to run from its first instruction.
    pub fn from_optimized_ast(ast: Vec<OptimizedASTNode>) -> (r: Self)
        ensures
            r.code() == lower(opt_view(ast@), 0),
            well_paired(r.code()),
            r.code().len() <= usize::MAX,
            r.pc() == 0,
    {
        let mut commands: Vec<Command> = Vec::new();
        commands_from_optimized_ast(&mut commands, ast);
        assert(commands@ =~= lower(opt_view(ast@), 0));
        proof {
            assert(commands@.len() == commands.len());
            lemma_lower_paired(opt_view(ast@), 0);
        }
        Self { commands, index: 0 }
    }

    /// Advances to the following instruction.
    pub fn next(&mut self)
        requires
            old(self).pc() < usize::MAX,
        ensures
            final(self).pc() == old(self).pc() + 1,
            final(self).code() == old(self).code(),
    {
        self.index += 1;
    }

    /// Makes `index` the next instruction.
    pub fn jump(&mut self, index: usize)
        ensures
            final(self).pc() == index,
            final(self).code() == old(self).code(),
    {
        self.index = index;
    }

    /// The next instruction, or `None` once the index has left the program.
    pub fn get(&self) -> (r: Option<Command>)
        ensures
            r == (if self.pc() < self.code().len() {
                Some(self.code()[self.pc()])
            } else {
                None::<Command>
            }),
    {
        if self.index >= self.commands.len() {
            None
        } else {
            Some(self.commands[self.index])
        }
    }
}

} // verus!
