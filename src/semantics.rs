use vstd::prelude::*;

use crate::commands::Command;
use crate::memory::Tape;
use crate::tree::Node;

verus! {

/// The state of a run of a flat program: the tape, the index of the next
/// instruction, the input not read yet and the output written so far.
pub struct Machine {
    pub tape: Tape,
    pub pc: int,
    pub input: Seq<u8>,
    pub output: Seq<u8>,
}

/// The tape and the next index after instruction `c` at index `pc`, for
/// every instruction but `Input`, whose stored value comes from outside.
/// A taken jump lands on its target and then advances past it.
pub open spec fn exec_command(c: Command, t: Tape, pc: int) -> (Tape, int) {
    match c {
        Command::Move(d) => (t.moved(d as int), pc + 1),
        Command::Add(n, d) => (t.added_at(n, d as int), pc + 1),
        Command::Zero => (t.stored(0), pc + 1),
        Command::Output => (t, pc + 1),
        Command::Input => (t, pc + 1),
        Command::LoopBegin(j) => if t.current() == 0 {
            (t, j + 1)
        } else {
            (t, pc + 1)
        },
        Command::LoopEnd(j) => if t.current() != 0 {
            (t, j + 1)
        } else {
            (t, pc + 1)
        },
    }
}

/// Whether the run has left the program: normal termination.
pub open spec fn halted(code: Seq<Command>, m: Machine) -> bool {
    !(0 <= m.pc < code.len())
}

/// One step of a run; `None` once it has halted, or when an `Input` finds
/// no input left, which ends the run with an error.
pub open spec fn machine_step(code: Seq<Command>, m: Machine) -> Option<Machine> {
    if halted(code, m) {
        None
    } else {
        match code[m.pc] {
            Command::Input => if m.input.len() == 0 {
                None
            } else {
                Some(
                    Machine {
                        tape: m.tape.stored(m.input[0]),
                        pc: m.pc + 1,
                        input: m.input.drop_first(),
                        output: m.output,
                    },
                )
            },
            Command::Output => Some(
                Machine { pc: m.pc + 1, output: m.output.push(m.tape.current()), ..m },
            ),
            c => {
                let (t, pc) = exec_command(c, m.tape, m.pc);
                Some(Machine { tape: t, pc: pc, ..m })
            },
        }
    }
}

/// The state after `n` steps, or `None` if the run stops before.
pub open spec fn run_steps(code: Seq<Command>, m: Machine, n: nat) -> Option<Machine>
    decreases n,
{
    if n == 0 {
        Some(m)
    } else {
        match machine_step(code, m) {
            Some(m2) => run_steps(code, m2, (n - 1) as nat),
            None => None,
        }
    }
}

/// A run from `m` halts normally in state `r`.
pub open spec fn halts_with(code: Seq<Command>, m: Machine, r: Machine) -> bool {
    exists|n: nat| run_steps(code, m, n) == Some(r) && halted(code, r)
}

/// The state of a run as the tree sees it: the tape, the input not read
/// yet and the output written so far.
pub struct State {
    pub tape: Tape,
    pub input: Seq<u8>,
    pub output: Seq<u8>,
}

/// What node `n` does to `st`. Each loop iteration costs one unit of
/// `fuel`; `None` when the fuel runs out or an input finds none left.
pub open spec fn eval_node(n: Node, st: State, fuel: nat) -> Option<State>
    decreases fuel, n,
{
    match n {
        Node::Move(d) => Some(State { tape: st.tape.moved(d as int), ..st }),
        Node::Add(k) => Some(State { tape: st.tape.added_at(k, 0), ..st }),
        Node::AddAt(k, d) => Some(State { tape: st.tape.added_at(k, d as int), ..st }),
        Node::Zero => Some(State { tape: st.tape.stored(0), ..st }),
        Node::Output => Some(State { output: st.output.push(st.tape.current()), ..st }),
        Node::Input => if st.input.len() == 0 {
            None
        } else {
            Some(
                State {
                    tape: st.tape.stored(st.input[0]),
                    input: st.input.drop_first(),
                    output: st.output,
                },
            )
        },
        Node::Loop(body) => if st.tape.current() == 0 {
            Some(st)
        } else if fuel == 0 {
            None
        } else {
            match eval_list(body, st, (fuel - 1) as nat) {
                Some(st2) => eval_node(Node::Loop(body), st2, (fuel - 1) as nat),
                None => None,
            }
        },
    }
}

/// What a sibling list does to `st`: its nodes in order.
pub open spec fn eval_list(s: Seq<Node>, st: State, fuel: nat) -> Option<State>
    decreases fuel, s,
{
    if s.len() == 0 {
        Some(st)
    } else {
        match eval_list(s.drop_last(), st, fuel) {
            Some(st1) => eval_node(s.last(), st1, fuel),
            None => None,
        }
    }
}

} // verus!
