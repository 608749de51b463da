use vstd::prelude::*;

use crate::command_ast::parse_spec;
use crate::command_ast::parse_source;
use crate::commands::{lower, well_paired, Command};
use crate::errors::ParserError;
use crate::memory::{low_byte, Memory, Tape};
use crate::optimizer::{optimize, optimize_nodes};
use crate::program::Program;
use crate::semantics::exec_command;

verus! {

/// What one step asks of whoever drives the interpreter.
#[derive(PartialEq, Eq, Structural, Clone, Copy, Debug)]
pub enum StepOutcome {
    /// The program has ended normally; further steps do nothing.
    Halted,
    /// One instruction ran and there is nothing to do outside.
    Continue,
    /// An `Output` instruction ran: this character goes to the output.
    Output(char),
    /// The next instruction reads a character: hand it over with `provide_input`.
    NeedsInput,
}

/// A loaded program with its tape.
#[derive(Debug)]
pub struct Interpreter {
    memory: Memory,
    program: Program,
    always_flush: bool,
}

impl Interpreter {
    pub closed spec fn code(&self) -> Seq<Command> {
        self.program.code()
    }

    pub closed spec fn tape(&self) -> Tape {
        self.memory@
    }

    pub closed spec fn pc(&self) -> int {
        self.program.pc()
    }

    pub closed spec fn flushes(&self) -> bool {
        self.always_flush
    }

    /// The tape is valid, the loop instructions are paired and the next
    /// index is at most one past the last instruction.
    pub closed spec fn wf(&self) -> bool {
        &&& self.memory@.wf()
        &&& well_paired(self.program.code())
        &&& self.program.code().len() <= usize::MAX
        &&& 0 <= self.program.pc() <= self.program.code().len()
    }

    /// Parses `program_source`, optimizes it when `should_optimize` is set,
    /// lowers it and puts it in front of a blank tape of `memory_size` cells.
    pub fn load_program(
        program_source: String,
        memory_size: usize,
        always_flush: bool,
        should_optimize: bool,
    ) -> (r: Result<Self, ParserError>)
        requires
            memory_size > 0,
        ensures
            match parse_spec(program_source@) {
                Err(e) => r == Err::<Self, ParserError>(e),
                Ok(t) => r is Ok && {
                    let i = r->Ok_0;
                    &&& i.code() == lower(if should_optimize { optimize_nodes(t) } else { t }, 0)
                    &&& i.tape() == Tape::blank(memory_size as nat)
                    &&& i.pc() == 0
                    &&& i.flushes() == always_flush
                    &&& i.wf()
                },
            },
    {
        let ast = parse_source(program_source)?;
        let program = if should_optimize {
            let optimized_ast = optimize(ast);
            Program::from_optimized_ast(optimized_ast)
        } else {
            Program::from_ast(ast)
        };
        Ok(Self { memory: Memory::new(memory_size), program, always_flush })
    }

    /// Whether the output should be flushed after every character.
    pub fn always_flush(&self) -> (r: bool)
        ensures
            r == self.flushes(),
    {
        self.always_flush
    }

    /// Runs the next instruction, except an `Input`, which waits for
    /// `provide_input`.
    pub fn step(&mut self) -> (r: StepOutcome)
        requires
            old(self).wf(),
        ensures
            final(self).wf(),
            final(self).code() == old(self).code(),
            final(self).flushes() == old(self).flushes(),
            !(old(self).pc() < old(self).code().len()) ==> r == StepOutcome::Halted
                && final(self).tape() == old(self).tape() && final(self).pc() == old(self).pc(),
            old(self).pc() < old(self).code().len() ==> {
                let c = old(self).code()[old(self).pc()];
                let t = old(self).tape();
                match c {
                    Command::Input => r == StepOutcome::NeedsInput && final(self).tape() == t
                        && final(self).pc() == old(self).pc(),
                    Command::Output => r matches StepOutcome::Output(ch) && ch as u32
                        == t.current() as u32 && final(self).tape() == t && final(self).pc()
                        == old(self).pc() + 1,
                    _ => r == StepOutcome::Continue && (final(self).tape(), final(self).pc())
                        == exec_command(c, t, old(self).pc()),
                }
            },
    {
        let command = match self.program.get() {
            Some(op) => op,
            None => return StepOutcome::Halted,
        };
        let ghost code = self.program.code();
        let ghost pc = self.program.pc();
        assert(code[pc] == command);
        let outcome = match command {
            Command::Move(offset) => {
                self.memory.move_index(offset);
                StepOutcome::Continue
            },
            Command::Add(n, offset) => {
                self.memory.add_with_offset(n, offset);
                StepOutcome::Continue
            },
            Command::Zero => {
                self.memory.zero();
                StepOutcome::Continue
            },
            Command::Output => StepOutcome::Output(self.memory.get_char()),
            Command::Input => {
                return StepOutcome::NeedsInput;
            },
            Command::LoopBegin(i) => {
                proof {
                    reveal(crate::commands::paired_from);
                }
                if self.memory.is_zero() {
                    self.program.jump(i);
                }
                StepOutcome::Continue
            },
            Command::LoopEnd(i) => {
                proof {
                    reveal(crate::commands::paired_from);
                }
                if !self.memory.is_zero() {
                    self.program.jump(i);
                }
                StepOutcome::Continue
            },
        };
        self.program.next();
        outcome
    }

    /// Completes a waiting `Input` instruction by storing the low eight bits
    /// of `c` in the current cell. Returns whether an `Input` was waiting;
    /// if not, nothing changes.
    pub fn provide_input(&mut self, c: char) -> (r: bool)
        requires
            old(self).wf(),
        ensures
            final(self).wf(),
            final(self).code() == old(self).code(),
            final(self).flushes() == old(self).flushes(),
            r == (old(self).pc() < old(self).code().len() && old(self).code()[old(self).pc()]
                == Command::Input),
            r ==> final(self).tape() == old(self).tape().stored(low_byte(c)) && final(self).pc()
                == old(self).pc() + 1,
            !r ==> final(self).tape() == old(self).tape() && final(self).pc() == old(self).pc(),
    {
        match self.program.get() {
            Some(Command::Input) => {
                self.memory.set_char(c);
                self.program.next();
                true
            },
            _ => false,
        }
    }
}

} // verus!
