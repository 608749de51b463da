use vstd::prelude::*;
use vstd::arithmetic::div_mod::{lemma_add_mod_noop_right, lemma_small_mod};

use crate::memory::Tape;
use crate::optimizer::{
    fuse, is_zero_loop, optimize_each, optimize_node, optimize_nodes, starts_with_fusable,
};
use crate::commands::{lower, lower_node, Command};
use crate::semantics::{
    eval_list, eval_node, halted, halts_with, machine_step, run_steps, Machine, State,
};
use crate::tree::Node;

verus! {

proof fn lemma_moved_zero(t: Tape)
    requires
        t.wf(),
    ensures
        t.moved(0) == t,
{
    lemma_small_mod(t.cursor as nat, t.cells.len());
}

/// Moving by `d1`, adding at the cursor and moving by `d2` is adding at
/// offset `d1` and then moving by `d1 + d2`.
proof fn lemma_move_add_move(t: Tape, n: u8, d1: int, d2: int)
    requires
        t.wf(),
    ensures
        t.moved(d1).added_at(n, 0).moved(d2) == t.added_at(n, d1).moved(d1 + d2),
{
    let len = t.cells.len() as int;
    let c1 = (t.cursor + d1) % len;
    lemma_small_mod(c1 as nat, len as nat);
    assert(c1 + 0 == c1);
    lemma_add_mod_noop_right(d2, t.cursor + d1, len);
    assert(d2 + (t.cursor + d1) == t.cursor + (d1 + d2));
    assert(c1 + d2 == d2 + c1);
}

/// Evaluation keeps the tape valid and its length fixed.
proof fn lemma_eval_node_wf(n: Node, st: State, f: nat)
    requires
        st.tape.wf(),
        eval_node(n, st, f) is Some,
    ensures
        eval_node(n, st, f)->Some_0.tape.wf(),
        eval_node(n, st, f)->Some_0.tape.cells.len() == st.tape.cells.len(),
    decreases f, n,
{
    if let Node::Loop(body) = n {
        if st.tape.current() != 0 {
            lemma_eval_list_wf(body, st, (f - 1) as nat);
            let st2 = eval_list(body, st, (f - 1) as nat)->Some_0;
            lemma_eval_node_wf(n, st2, (f - 1) as nat);
        }
    }
}

proof fn lemma_eval_list_wf(s: Seq<Node>, st: State, f: nat)
    requires
        st.tape.wf(),
        eval_list(s, st, f) is Some,
    ensures
        eval_list(s, st, f)->Some_0.tape.wf(),
        eval_list(s, st, f)->Some_0.tape.cells.len() == st.tape.cells.len(),
    decreases f, s,
{
    if s.len() > 0 {
        lemma_eval_list_wf(s.drop_last(), st, f);
        lemma_eval_node_wf(s.last(), eval_list(s.drop_last(), st, f)->Some_0, f);
    }
}

/// Evaluating `a + b` is evaluating `a`, then `b`.
proof fn lemma_eval_concat(a: Seq<Node>, b: Seq<Node>, st: State, f: nat)
    ensures
        eval_list(a + b, st, f) == match eval_list(a, st, f) {
            Some(s1) => eval_list(b, s1, f),
            None => None,
        },
    decreases b.len(),
{
    if b.len() == 0 {
        assert(a + b =~= a);
    } else {
        lemma_eval_concat(a, b.drop_last(), st, f);
        assert((a + b).drop_last() =~= a + b.drop_last());
        assert((a + b).last() == b.last());
    }
}

proof fn lemma_eval_single(n: Node, st: State, f: nat)
    ensures
        eval_list(seq![n], st, f) == eval_node(n, st, f),
{
    assert(seq![n].drop_last() =~= Seq::<Node>::empty());
    assert(eval_list(Seq::<Node>::empty(), st, f) == Some(st));
    assert(seq![n].last() == n);
}

/// Fusion does not change what a list does.
pub proof fn lemma_fuse_sound(s: Seq<Node>, st: State, f: nat)
    requires
        st.tape.wf(),
    ensures
        eval_list(fuse(s), st, f) == eval_list(s, st, f),
    decreases s.len(),
{
    if starts_with_fusable(s) {
        let d1 = s[0]->Move_0;
        let n = s[1]->Add_0;
        let d2 = s[2]->Move_0;
        let d = d1 + d2;
        let head = Node::AddAt(n, d1);
        let rest = s.skip(3);
        assert(s =~= seq![s[0], s[1], s[2]] + rest);
        lemma_eval_concat(seq![s[0], s[1], s[2]], rest, st, f);
        assert(seq![s[0], s[1], s[2]] =~= seq![s[0], s[1]] + seq![s[2]]);
        assert(seq![s[0], s[1]] =~= seq![s[0]] + seq![s[1]]);
        lemma_eval_concat(seq![s[0], s[1]], seq![s[2]], st, f);
        lemma_eval_concat(seq![s[0]], seq![s[1]], st, f);
        lemma_eval_single(s[0], st, f);
        let t1 = st.tape.moved(d1 as int);
        let st1 = State { tape: t1, ..st };
        lemma_eval_single(s[1], st1, f);
        let st2 = State { tape: t1.added_at(n, 0), ..st };
        lemma_eval_single(s[2], st2, f);
        lemma_move_add_move(st.tape, n, d1 as int, d2 as int);
        let sth = State { tape: st.tape.added_at(n, d1 as int), ..st };
        lemma_eval_single(head, st, f);
        lemma_eval_node_wf(head, st, f);
        if d == 0 {
            lemma_fuse_sound(rest, sth, f);
            lemma_eval_concat(seq![head], fuse(rest), st, f);
            lemma_moved_zero(sth.tape);
        } else {
            let r2 = seq![Node::Move(d as isize)] + rest;
            lemma_fuse_sound(r2, sth, f);
            lemma_eval_concat(seq![head], fuse(r2), st, f);
            lemma_eval_concat(seq![Node::Move(d as isize)], rest, sth, f);
            lemma_eval_single(Node::Move(d as isize), sth, f);
        }
    } else if s.len() > 0 {
        let rest = s.skip(1);
        assert(s =~= seq![s[0]] + rest);
        lemma_eval_concat(seq![s[0]], rest, st, f);
        lemma_eval_concat(seq![s[0]], fuse(rest), st, f);
        lemma_eval_single(s[0], st, f);
        if eval_node(s[0], st, f) is Some {
            lemma_eval_node_wf(s[0], st, f);
            lemma_fuse_sound(rest, eval_node(s[0], st, f)->Some_0, f);
        }
    }
}

proof fn lemma_add_here(t: Tape, k: u8)
    requires
        t.wf(),
    ensures
        t.added_at(k, 0).cells.len() == t.cells.len(),
        t.added_at(k, 0).cursor == t.cursor,
        t.added_at(k, 0).current() == (t.current() + k) % 256,
        t.added_at(k, 0).stored(0) == t.stored(0),
{
    lemma_small_mod(t.cursor as nat, t.cells.len());
    assert(t.cursor + 0 == t.cursor);
    assert(t.added_at(k, 0).stored(0).cells =~= t.stored(0).cells);
}

/// A loop whose body is one add, when it ends, has only zeroed the current cell.
proof fn lemma_single_add_loop_result(k: u8, st: State, f: nat)
    requires
        st.tape.wf(),
        eval_node(Node::Loop(seq![Node::Add(k)]), st, f) is Some,
    ensures
        eval_node(Node::Loop(seq![Node::Add(k)]), st, f) == Some(
            State { tape: st.tape.stored(0), ..st },
        ),
    decreases f,
{
    if st.tape.current() == 0 {
        assert(st.tape.stored(0).cells =~= st.tape.cells);
    } else {
        lemma_eval_single(Node::Add(k), st, (f - 1) as nat);
        let st2 = State { tape: st.tape.added_at(k, 0), ..st };
        lemma_add_here(st.tape, k);
        lemma_single_add_loop_result(k, st2, (f - 1) as nat);
    }
}

proof fn lemma_mod_step(v: int, k: int, j: int)
    requires
        j >= 1,
        (v + j * k) % 256 == 0,
    ensures
        ((v + k) % 256 + (j - 1) * k) % 256 == 0,
{
    lemma_add_mod_noop_right((j - 1) * k, v + k, 256);
    assert((j - 1) * k + (v + k) == v + j * k) by (nonlinear_arith);
}

/// A loop whose body is one add of `k` ends, and only zeroes the current
/// cell, once `j` additions of `k` bring the cell to zero and the fuel
/// covers `j` iterations.
pub proof fn lemma_single_add_loop_ends(k: u8, st: State, j: nat, f: nat)
    requires
        st.tape.wf(),
        (st.tape.current() + j * k) % 256 == 0,
        f >= j,
    ensures
        eval_node(Node::Loop(seq![Node::Add(k)]), st, f) == Some(
            State { tape: st.tape.stored(0), ..st },
        ),
    decreases j,
{
    if st.tape.current() == 0 {
        assert(st.tape.stored(0).cells =~= st.tape.cells);
    } else {
        if j == 0 {
            assert(j * k == 0) by (nonlinear_arith)
                requires
                    j == 0,
            ;
            assert((st.tape.current() as int) % 256 == st.tape.current() as int);
        } else {
            lemma_eval_single(Node::Add(k), st, (f - 1) as nat);
            let st2 = State { tape: st.tape.added_at(k, 0), ..st };
            lemma_add_here(st.tape, k);
            let v = st.tape.current() as int;
            lemma_mod_step(v, k as int, j as int);
            lemma_single_add_loop_ends(k, st2, (j - 1) as nat, (f - 1) as nat);
        }
    }
}

/// Optimizing each node on its own keeps every evaluation that ends.
proof fn lemma_optimize_each_sound(s: Seq<Node>, st: State, f: nat)
    requires
        st.tape.wf(),
        eval_list(s, st, f) is Some,
    ensures
        eval_list(optimize_each(s), st, f) == eval_list(s, st, f),
    decreases f, s,
{
    if s.len() > 0 {
        let o = optimize_each(s);
        assert(o.drop_last() =~= optimize_each(s.drop_last()));
        lemma_optimize_each_sound(s.drop_last(), st, f);
        let st1 = eval_list(s.drop_last(), st, f)->Some_0;
        lemma_eval_list_wf(s.drop_last(), st, f);
        lemma_optimize_node_sound(s.last(), st1, f);
    }
}

proof fn lemma_optimize_node_sound(n: Node, st: State, f: nat)
    requires
        st.tape.wf(),
        eval_node(n, st, f) is Some,
    ensures
        eval_node(optimize_node(n), st, f) == eval_node(n, st, f),
    decreases f, n,
{
    if is_zero_loop(n) {
        let k = n->Loop_0[0]->Add_0;
        assert(n->Loop_0 =~= seq![Node::Add(k)]);
        lemma_single_add_loop_result(k, st, f);
    } else if let Node::Loop(body) = n {
        if st.tape.current() != 0 {
            let g = (f - 1) as nat;
            lemma_optimize_each_sound(body, st, g);
            lemma_fuse_sound(optimize_each(body), st, g);
            let st2 = eval_list(body, st, g)->Some_0;
            lemma_eval_list_wf(body, st, g);
            lemma_optimize_node_sound(n, st2, g);
        }
    }
}

/// Optimization keeps every evaluation of a list that ends: same tape,
/// same input left, same output.
pub proof fn lemma_optimize_sound(s: Seq<Node>, st: State, f: nat)
    requires
        st.tape.wf(),
        eval_list(s, st, f) is Some,
    ensures
        eval_list(optimize_nodes(s), st, f) == eval_list(s, st, f),
{
    lemma_optimize_each_sound(s, st, f);
    lemma_fuse_sound(optimize_each(s), st, f);
}

/// The machine state that pairs `st` with the instruction index `pc`.
pub open spec fn at(st: State, pc: int) -> Machine {
    Machine { tape: st.tape, pc: pc, input: st.input, output: st.output }
}

/// `code` holds `block` from index `base` on.
pub open spec fn holds_at(code: Seq<Command>, block: Seq<Command>, base: int) -> bool {
    &&& 0 <= base
    &&& base + block.len() <= code.len()
    &&& forall|i: int| 0 <= i < block.len() ==> code[base + i] == #[trigger] block[i]
}

proof fn lemma_holds_at_split(code: Seq<Command>, a: Seq<Command>, b: Seq<Command>, base: int)
    requires
        holds_at(code, a + b, base),
    ensures
        holds_at(code, a, base),
        holds_at(code, b, base + a.len()),
{
    assert forall|i: int| 0 <= i < a.len() implies code[base + i] == #[trigger] a[i] by {
        assert((a + b)[i] == a[i]);
    }
    assert forall|i: int| 0 <= i < b.len() implies code[base + a.len() + i] == #[trigger] b[i] by {
        assert((a + b)[a.len() + i] == b[i]);
        assert(base + a.len() + i == base + (a.len() + i));
    }
}

/// The instructions of a loop placed at `base`: its `LoopBegin`, its body
/// and its `LoopEnd`, which sits at the index the `LoopBegin` names.
proof fn lemma_loop_block(code: Seq<Command>, body: Seq<Node>, base: int)
    requires
        holds_at(code, lower_node(Node::Loop(body), base), base),
    ensures
        ({
            let e = base + 1 + lower(body, base + 1).len();
            &&& lower_node(Node::Loop(body), base).len() == lower(body, base + 1).len() + 2
            &&& code[base] == Command::LoopBegin(e as usize)
            &&& holds_at(code, lower(body, base + 1), base + 1)
            &&& code[e] == Command::LoopEnd(base as usize)
        }),
{
    let block = lower_node(Node::Loop(body), base);
    let inner = lower(body, base + 1);
    let e = base + 1 + inner.len();
    let begin = seq![Command::LoopBegin(e as usize)];
    let end = seq![Command::LoopEnd(base as usize)];
    assert(block =~= (begin + inner) + end);
    lemma_holds_at_split(code, begin + inner, end, base);
    lemma_holds_at_split(code, begin, inner, base);
    assert(code[base + 0] == block[0]);
    assert(code[e] == block[e - base]);
}

proof fn lemma_run_compose(code: Seq<Command>, m: Machine, a: nat, b: nat)
    ensures
        run_steps(code, m, a + b) == match run_steps(code, m, a) {
            Some(m2) => run_steps(code, m2, b),
            None => None,
        },
    decreases a,
{
    if a > 0 {
        if let Some(m2) = machine_step(code, m) {
            lemma_run_compose(code, m2, (a - 1) as nat, b);
            assert((a + b - 1) as nat == (a - 1) as nat + b);
        }
    }
}

proof fn lemma_run_one(code: Seq<Command>, m: Machine)
    ensures
        run_steps(code, m, 1) == machine_step(code, m),
{
    if let Some(m2) = machine_step(code, m) {
        assert(run_steps(code, m2, 0) == Some(m2));
    }
}

/// A list that evaluates to `r` runs, as instructions placed at `base`, from
/// its first instruction to just past its last, ending in `r`.
proof fn lemma_lower_list_runs(
    code: Seq<Command>,
    s: Seq<Node>,
    base: int,
    st: State,
    f: nat,
) -> (n: nat)
    requires
        holds_at(code, lower(s, base), base),
        base + lower(s, base).len() <= usize::MAX,
        eval_list(s, st, f) is Some,
    ensures
        run_steps(code, at(st, base), n) == Some(
            at(eval_list(s, st, f)->Some_0, base + lower(s, base).len()),
        ),
    decreases f, s, 0nat,
{
    if s.len() == 0 {
        0
    } else {
        let front = lower(s.drop_last(), base);
        let b2 = base + front.len();
        lemma_holds_at_split(code, front, lower_node(s.last(), b2), base);
        let n1 = lemma_lower_list_runs(code, s.drop_last(), base, st, f);
        let st1 = eval_list(s.drop_last(), st, f)->Some_0;
        let n2 = lemma_lower_node_runs(code, s.last(), b2, st1, f);
        lemma_run_compose(code, at(st, base), n1, n2);
        n1 + n2
    }
}

proof fn lemma_lower_node_runs(
    code: Seq<Command>,
    n: Node,
    base: int,
    st: State,
    f: nat,
) -> (k: nat)
    requires
        holds_at(code, lower_node(n, base), base),
        base + lower_node(n, base).len() <= usize::MAX,
        eval_node(n, st, f) is Some,
    ensures
        run_steps(code, at(st, base), k) == Some(
            at(eval_node(n, st, f)->Some_0, base + lower_node(n, base).len()),
        ),
    decreases f, n, 1nat,
{
    let block = lower_node(n, base);
    assert(code[base + 0] == block[0]);
    lemma_run_one(code, at(st, base));
    match n {
        Node::Loop(body) => {
            let inner = lower(body, base + 1);
            let e = base + 1 + inner.len();
            lemma_loop_block(code, body, base);
            assert(!halted(code, at(st, base)));
            if st.tape.current() == 0 {
                assert(machine_step(code, at(st, base)) == Some(at(st, e + 1)));
                assert(eval_node(n, st, f) == Some(st));
                assert(block.len() == inner.len() + 2);
                1
            } else {
                assert(machine_step(code, at(st, base)) == Some(at(st, base + 1)));
                let g = (f - 1) as nat;
                let n1 = lemma_lower_list_runs(code, body, base + 1, st, g);
                let st2 = eval_list(body, st, g)->Some_0;
                let n2 = lemma_loop_end_runs(code, body, base, st2, g);
                assert(eval_node(n, st, f) == eval_node(n, st2, g));
                lemma_run_compose(code, at(st, base + 1), n1, n2);
                lemma_run_compose(code, at(st, base), 1, n1 + n2);
                1 + n1 + n2
            }
        },
        _ => 1,
    }
}

/// From the `LoopEnd` of a loop placed at `base`, a run that the loop's
/// evaluation from there describes leaves the loop in the state it gives.
proof fn lemma_loop_end_runs(
    code: Seq<Command>,
    body: Seq<Node>,
    base: int,
    st: State,
    f: nat,
) -> (k: nat)
    requires
        holds_at(code, lower_node(Node::Loop(body), base), base),
        base + lower_node(Node::Loop(body), base).len() <= usize::MAX,
        eval_node(Node::Loop(body), st, f) is Some,
    ensures
        run_steps(code, at(st, base + 1 + lower(body, base + 1).len()), k) == Some(
            at(
                eval_node(Node::Loop(body), st, f)->Some_0,
                base + lower_node(Node::Loop(body), base).len(),
            ),
        ),
    decreases f, Node::Loop(body), 0nat,
{
    let block = lower_node(Node::Loop(body), base);
    let inner = lower(body, base + 1);
    let e = base + 1 + inner.len();
    lemma_loop_block(code, body, base);
    lemma_run_one(code, at(st, e));
    assert(code[e] == Command::LoopEnd(base as usize));
    assert(!halted(code, at(st, e)));
    if st.tape.current() == 0 {
        assert(machine_step(code, at(st, e)) == Some(at(st, e + 1)));
        assert(eval_node(Node::Loop(body), st, f) == Some(st));
        assert(block.len() == inner.len() + 2);
        1
    } else {
        assert(machine_step(code, at(st, e)) == Some(at(st, base + 1)));
        let g = (f - 1) as nat;
        let n1 = lemma_lower_list_runs(code, body, base + 1, st, g);
        let st2 = eval_list(body, st, g)->Some_0;
        let n2 = lemma_loop_end_runs(code, body, base, st2, g);
        assert(eval_node(Node::Loop(body), st, f) == eval_node(Node::Loop(body), st2, g));
        lemma_run_compose(code, at(st, base + 1), n1, n2);
        lemma_run_compose(code, at(st, e), 1, n1 + n2);
        1 + n1 + n2
    }
}

/// A tree whose evaluation from `st` ends runs, once lowered, from its first
/// instruction to a normal halt in the state that the evaluation gives.
pub proof fn lemma_lowering_runs(t: Seq<Node>, st: State, f: nat)
    requires
        lower(t, 0).len() <= usize::MAX,
        eval_list(t, st, f) is Some,
    ensures
        halts_with(
            lower(t, 0),
            at(st, 0),
            at(eval_list(t, st, f)->Some_0, lower(t, 0).len() as int),
        ),
{
    let code = lower(t, 0);
    assert(holds_at(code, code, 0));
    let n = lemma_lower_list_runs(code, t, 0, st, f);
    let r = eval_list(t, st, f)->Some_0;
    assert(run_steps(code, at(st, 0), n) == Some(at(r, code.len() as int)));
}

/// A loop whose body is one nonzero add of `k` zeroes the current cell and
/// does nothing else, exactly as `Zero` does, whenever some number `j` of
/// additions of `k` brings the cell's value to zero; `j` iterations of fuel
/// suffice. (When no such `j` exists, as for `k == 2` on an odd cell, the
/// loop never ends.)
pub proof fn law_zero_loop_collapse(k: u8, st: State, j: nat, f: nat)
    requires
        st.tape.wf(),
        k != 0,
        (st.tape.current() + j * k) % 256 == 0,
        f >= j,
    ensures
        eval_node(Node::Loop(seq![Node::Add(k)]), st, f) == eval_node(Node::Zero, st, f),
        eval_node(Node::Zero, st, f)->Some_0.tape.current() == 0,
        lower(seq![Node::Loop(seq![Node::Add(k)])], 0) == seq![
            Command::LoopBegin(2),
            Command::Add(k, 0),
            Command::LoopEnd(0),
        ],
        halts_with(
            lower(seq![Node::Loop(seq![Node::Add(k)])], 0),
            at(st, 0),
            at(State { tape: st.tape.stored(0), ..st }, 3),
        ),
{
    lemma_single_add_loop_ends(k, st, j, f);
    let l = Node::Loop(seq![Node::Add(k)]);
    assert(seq![l].drop_last() =~= Seq::<Node>::empty());
    assert(seq![Node::Add(k)].drop_last() =~= Seq::<Node>::empty());
    assert(lower(Seq::<Node>::empty(), 1) == Seq::<Command>::empty());
    assert(lower(Seq::<Node>::empty(), 0) == Seq::<Command>::empty());
    assert(seq![Node::Add(k)].last() == Node::Add(k));
    assert(seq![l].last() == l);
    assert(lower(seq![Node::Add(k)], 1) =~= Seq::<Command>::empty() + lower_node(Node::Add(k), 1));
    assert(lower(seq![Node::Add(k)], 1) =~= seq![Command::Add(k, 0)]);
    assert(lower(seq![l], 0) =~= Seq::<Command>::empty() + lower_node(l, 0));
    assert(lower(seq![l], 0) =~= seq![
        Command::LoopBegin(2),
        Command::Add(k, 0),
        Command::LoopEnd(0),
    ]);
    lemma_eval_single(l, st, f);
    lemma_lowering_runs(seq![l], st, f);
}

/// More fuel does not change an evaluation that ends.
proof fn lemma_eval_node_fuel(n: Node, st: State, f: nat, g: nat)
    requires
        eval_node(n, st, f) is Some,
        f <= g,
    ensures
        eval_node(n, st, g) == eval_node(n, st, f),
    decreases f, n,
{
    if let Node::Loop(body) = n {
        if st.tape.current() != 0 {
            lemma_eval_list_fuel(body, st, (f - 1) as nat, (g - 1) as nat);
            let st2 = eval_list(body, st, (f - 1) as nat)->Some_0;
            lemma_eval_node_fuel(n, st2, (f - 1) as nat, (g - 1) as nat);
        }
    }
}

proof fn lemma_eval_list_fuel(s: Seq<Node>, st: State, f: nat, g: nat)
    requires
        eval_list(s, st, f) is Some,
        f <= g,
    ensures
        eval_list(s, st, g) == eval_list(s, st, f),
    decreases f, s,
{
    if s.len() > 0 {
        lemma_eval_list_fuel(s.drop_last(), st, f, g);
        lemma_eval_node_fuel(s.last(), eval_list(s.drop_last(), st, f)->Some_0, f, g);
    }
}

proof fn lemma_run_prefix(code: Seq<Command>, m: Machine, k: nat, n: nat)
    requires
        k <= n,
        run_steps(code, m, n) is Some,
    ensures
        run_steps(code, m, k) is Some,
        run_steps(code, run_steps(code, m, k)->Some_0, (n - k) as nat) == run_steps(code, m, n),
{
    lemma_run_compose(code, m, k, (n - k) as nat);
    assert(k + (n - k) as nat == n);
}

/// A run that starts at the first instruction of a lowered list and is, after
/// `n` steps, outside the list's block, passed through the end of the block
/// within those steps, in the state that the list's evaluation gives.
proof fn lemma_list_exit(
    code: Seq<Command>,
    s: Seq<Node>,
    base: int,
    st: State,
    n: nat,
) -> (kf: (nat, nat))
    requires
        holds_at(code, lower(s, base), base),
        base + lower(s, base).len() <= usize::MAX,
        run_steps(code, at(st, base), n) is Some,
        !(base <= run_steps(code, at(st, base), n)->Some_0.pc < base + lower(s, base).len()),
    ensures
        kf.0 <= n,
        eval_list(s, st, kf.1) is Some,
        run_steps(code, at(st, base), kf.0) == Some(
            at(eval_list(s, st, kf.1)->Some_0, base + lower(s, base).len()),
        ),
    decreases n, s, 0nat,
{
    if s.len() == 0 {
        (0, 0)
    } else {
        let front = lower(s.drop_last(), base);
        let b2 = base + front.len();
        let last = lower_node(s.last(), b2);
        lemma_holds_at_split(code, front, last, base);
        let (k1, f1) = lemma_list_exit(code, s.drop_last(), base, st, n);
        let r1 = eval_list(s.drop_last(), st, f1)->Some_0;
        lemma_run_prefix(code, at(st, base), k1, n);
        let (k2, f2) = lemma_node_exit(code, s.last(), b2, r1, (n - k1) as nat);
        let f = if f1 <= f2 { f2 } else { f1 };
        lemma_eval_list_fuel(s.drop_last(), st, f1, f);
        lemma_eval_node_fuel(s.last(), r1, f2, f);
        lemma_run_compose(code, at(st, base), k1, k2);
        (k1 + k2, f)
    }
}

proof fn lemma_node_exit(
    code: Seq<Command>,
    n: Node,
    base: int,
    st: State,
    steps: nat,
) -> (kf: (nat, nat))
    requires
        holds_at(code, lower_node(n, base), base),
        base + lower_node(n, base).len() <= usize::MAX,
        run_steps(code, at(st, base), steps) is Some,
        !(base <= run_steps(code, at(st, base), steps)->Some_0.pc < base + lower_node(
            n,
            base,
        ).len()),
    ensures
        kf.0 <= steps,
        eval_node(n, st, kf.1) is Some,
        run_steps(code, at(st, base), kf.0) == Some(
            at(eval_node(n, st, kf.1)->Some_0, base + lower_node(n, base).len()),
        ),
    decreases steps, n, 1nat,
{
    let block = lower_node(n, base);
    assert(code[base + 0] == block[0]);
    lemma_run_one(code, at(st, base));
    lemma_run_prefix(code, at(st, base), 1, steps);
    match n {
        Node::Loop(body) => {
            let inner = lower(body, base + 1);
            let e = base + 1 + inner.len();
            lemma_loop_block(code, body, base);
            if st.tape.current() == 0 {
                assert(machine_step(code, at(st, base)) == Some(at(st, e + 1)));
                assert(eval_node(n, st, 0) == Some(st));
                (1, 0)
            } else {
                assert(machine_step(code, at(st, base)) == Some(at(st, base + 1)));
                let (k1, f1) = lemma_list_exit(code, body, base + 1, st, (steps - 1) as nat);
                let st2 = eval_list(body, st, f1)->Some_0;
                lemma_run_prefix(code, at(st, base + 1), k1, (steps - 1) as nat);
                let (k2, f2) = lemma_loop_end_exit(code, body, base, st2, (steps - 1 - k1) as nat);
                let g = if f1 <= f2 { f2 } else { f1 };
                lemma_eval_list_fuel(body, st, f1, g);
                lemma_eval_node_fuel(n, st2, f2, g);
                assert(eval_node(n, st, g + 1) == eval_node(n, st2, g));
                lemma_run_compose(code, at(st, base + 1), k1, k2);
                lemma_run_compose(code, at(st, base), 1, k1 + k2);
                (1 + k1 + k2, g + 1)
            }
        },
        _ => (1, 0),
    }
}

proof fn lemma_loop_end_exit(
    code: Seq<Command>,
    body: Seq<Node>,
    base: int,
    st: State,
    steps: nat,
) -> (kf: (nat, nat))
    requires
        holds_at(code, lower_node(Node::Loop(body), base), base),
        base + lower_node(Node::Loop(body), base).len() <= usize::MAX,
        run_steps(code, at(st, base + 1 + lower(body, base + 1).len()), steps) is Some,
        !(base <= run_steps(code, at(st, base + 1 + lower(body, base + 1).len()), steps)->Some_0.pc
            < base + lower_node(Node::Loop(body), base).len()),
    ensures
        kf.0 <= steps,
        eval_node(Node::Loop(body), st, kf.1) is Some,
        run_steps(code, at(st, base + 1 + lower(body, base + 1).len()), kf.0) == Some(
            at(
                eval_node(Node::Loop(body), st, kf.1)->Some_0,
                base + lower_node(Node::Loop(body), base).len(),
            ),
        ),
    decreases steps, Node::Loop(body), 0nat,
{
    let n = Node::Loop(body);
    let inner = lower(body, base + 1);
    let e = base + 1 + inner.len();
    lemma_loop_block(code, body, base);
    lemma_run_one(code, at(st, e));
    lemma_run_prefix(code, at(st, e), 1, steps);
    if st.tape.current() == 0 {
        assert(machine_step(code, at(st, e)) == Some(at(st, e + 1)));
        assert(eval_node(n, st, 0) == Some(st));
        (1, 0)
    } else {
        assert(machine_step(code, at(st, e)) == Some(at(st, base + 1)));
        let (k1, f1) = lemma_list_exit(code, body, base + 1, st, (steps - 1) as nat);
        let st2 = eval_list(body, st, f1)->Some_0;
        lemma_run_prefix(code, at(st, base + 1), k1, (steps - 1) as nat);
        let (k2, f2) = lemma_loop_end_exit(code, body, base, st2, (steps - 1 - k1) as nat);
        let g = if f1 <= f2 { f2 } else { f1 };
        lemma_eval_list_fuel(body, st, f1, g);
        lemma_eval_node_fuel(n, st2, f2, g);
        assert(eval_node(n, st, g + 1) == eval_node(n, st2, g));
        lemma_run_compose(code, at(st, base + 1), k1, k2);
        lemma_run_compose(code, at(st, e), 1, k1 + k2);
        (1 + k1 + k2, g + 1)
    }
}

/// A lowered list whose run halts normally does so in the state that the
/// list's evaluation gives, for some fuel.
proof fn lemma_halted_run_evaluates(t: Seq<Node>, st: State, m: Machine) -> (f: nat)
    requires
        lower(t, 0).len() <= usize::MAX,
        halts_with(lower(t, 0), at(st, 0), m),
    ensures
        eval_list(t, st, f) is Some,
        m == at(eval_list(t, st, f)->Some_0, lower(t, 0).len() as int),
{
    let code = lower(t, 0);
    let n = choose|n: nat| run_steps(code, at(st, 0), n) == Some(m) && halted(code, m);
    assert(holds_at(code, code, 0));
    let (k, f) = lemma_list_exit(code, t, 0, st, n);
    let r = at(eval_list(t, st, f)->Some_0, code.len() as int);
    lemma_run_prefix(code, at(st, 0), k, n);
    if n > k {
        assert(machine_step(code, r) is None);
        assert(run_steps(code, r, (n - k) as nat) is None);
    }
    f
}

/// Optimization preserves what a program does. When the plain lowering of
/// a tree, started on a valid tape with some input, halts normally, the
/// optimized lowering started the same way halts normally too, with the
/// same tape, the same input left and the same output.
pub proof fn law_optimization_preserves_runs(t: Seq<Node>, st: State, m: Machine)
    requires
        st.tape.wf(),
        lower(t, 0).len() <= usize::MAX,
        lower(optimize_nodes(t), 0).len() <= usize::MAX,
        halts_with(lower(t, 0), at(st, 0), m),
    ensures
        halts_with(
            lower(optimize_nodes(t), 0),
            at(st, 0),
            Machine { pc: lower(optimize_nodes(t), 0).len() as int, ..m },
        ),
{
    let f = lemma_halted_run_evaluates(t, st, m);
    lemma_optimize_sound(t, st, f);
    lemma_lowering_runs(optimize_nodes(t), st, f);
}

} // verus!
