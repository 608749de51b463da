use vstd::prelude::*;
use vstd::arithmetic::div_mod::lemma_add_mod_noop_right;

use crate::command_ast::{fold_op, is_command_char, parse_spec, scan, single_op};
use crate::memory::{wrap_add, Tape};
use crate::errors::ParserError;
use crate::tree::Node;

verus! {

/// The characters of `s` that carry meaning, in order.
pub open spec fn strip(s: Seq<char>) -> Seq<char>
    decreases s.len(),
{
    if s.len() == 0 {
        s
    } else if is_command_char(s.last()) {
        strip(s.drop_last()).push(s.last())
    } else {
        strip(s.drop_last())
    }
}

proof fn lemma_scan_strip(s: Seq<char>)
    ensures
        scan(s) == scan(strip(s)),
    decreases s.len(),
{
    if s.len() > 0 {
        lemma_scan_strip(s.drop_last());
        if is_command_char(s.last()) {
            let t = strip(s);
            assert(t.drop_last() =~= strip(s.drop_last()));
            assert(t.last() == s.last());
        }
    } else {
        assert(strip(s) =~= s);
    }
}

/// Characters other than the eight symbols do not matter: two sources with
/// the same symbols in the same order parse to the same tree, or fail alike.
pub proof fn law_ignored_characters(s: Seq<char>, t: Seq<char>)
    requires
        strip(s) == strip(t),
    ensures
        parse_spec(s) == parse_spec(t),
{
    lemma_scan_strip(s);
    lemma_scan_strip(t);
}

/// Moving by the tape's length plus `k` lands where moving by `k` does.
pub proof fn law_move_wraps(t: Tape, k: int)
    requires
        t.wf(),
    ensures
        t.moved(t.cells.len() + k) == t.moved(k),
{
    let len = t.cells.len() as int;
    vstd::arithmetic::div_mod::lemma_mod_add_multiples_vanish(t.cursor + k, len);
    assert(t.cursor + (len + k) == (t.cursor + k) + len);
}

/// Cell arithmetic wraps at eight bits: adding 255 and then 1 to a cell
/// restores it, so a zero cell goes to 255 (a decrement) and back to 0, and
/// 1 added to 255 gives 0.
pub proof fn law_cell_wraps(t: Tape, d: int)
    requires
        t.wf(),
    ensures
        t.added_at(255, d).added_at(1, d) == t,
        t.cells[wrap_index_of(t, d)] == 0 ==> t.added_at(255, d).cells[wrap_index_of(t, d)] == 255,
        t.cells[wrap_index_of(t, d)] == 255 ==> t.added_at(1, d).cells[wrap_index_of(t, d)] == 0,
{
    let i = wrap_index_of(t, d);
    let v = t.cells[i];
    assert(wrap_add(wrap_add(v, 255), 1) == v);
    assert(t.added_at(255, d).added_at(1, d).cells =~= t.cells);
}

/// The index that an offset of `d` from the cursor addresses.
pub open spec fn wrap_index_of(t: Tape, d: int) -> int {
    crate::memory::wrap_index(t.cursor, d, t.cells.len() as int)
}

/// The number of `>` minus the number of `<` in `s`.
pub open spec fn net_moves(s: Seq<char>) -> int
    decreases s.len(),
{
    if s.len() == 0 {
        0
    } else {
        net_moves(s.drop_last()) + if s.last() == '>' {
            1int
        } else if s.last() == '<' {
            -1int
        } else {
            0int
        }
    }
}

/// The number of `+` minus the number of `-` in `s`.
pub open spec fn net_adds(s: Seq<char>) -> int
    decreases s.len(),
{
    if s.len() == 0 {
        0
    } else {
        net_adds(s.drop_last()) + if s.last() == '+' {
            1int
        } else if s.last() == '-' {
            -1int
        } else {
            0int
        }
    }
}

/// How many values an `isize` has: offsets wrap modulo this.
pub open spec fn isize_span() -> int {
    isize::MAX - isize::MIN + 1
}

/// `t` is one move whose offset is `n` modulo the span of an offset.
pub open spec fn single_move_by(t: Seq<Node>, n: int) -> bool {
    &&& t.len() == 1
    &&& t[0] is Move
    &&& (t[0]->Move_0 - n) % isize_span() == 0
}

proof fn lemma_scan_moves(s: Seq<char>)
    requires
        s.len() > 0,
        forall|i: int| 0 <= i < s.len() ==> s[i] == '>' || s[i] == '<',
    ensures
        scan(s) is Some,
        scan(s)->Some_0.len() == 1,
        single_move_by(scan(s)->Some_0[0], net_moves(s)),
    decreases s.len(),
{
    let p = s.drop_last();
    let c = s.last();
    assert(c == s[s.len() - 1]);
    if p.len() == 0 {
        assert(scan(p) == Some(seq![Seq::<Node>::empty()]));
        assert(net_moves(p) == 0);
        assert(scan(s)->Some_0[0] == seq![single_op(c)]);
        assert(single_op(c)->Move_0 == net_moves(s));
        assert(0int % isize_span() == 0);
    } else {
        lemma_scan_moves(p);
        let d = scan(p)->Some_0[0][0]->Move_0;
        assert(isize_span() == usize::MAX + 1);
        let q = (d - net_moves(p)) / isize_span();
        vstd::arithmetic::div_mod::lemma_fundamental_div_mod(d - net_moves(p), isize_span());
        let e = if c == '>' { vstd::wrapping::isize_specs::wrapping_add(d, 1isize) } else {
            vstd::wrapping::isize_specs::wrapping_sub(d, 1isize) };
        let step = if c == '>' { 1int } else { -1int };
        assert(e - net_moves(s) == isize_span() * q || e - net_moves(s) == isize_span() * (q - 1)
            || e - net_moves(s) == isize_span() * (q + 1)) by (nonlinear_arith)
            requires
                d - net_moves(p) == isize_span() * q,
                net_moves(s) == net_moves(p) + step,
                e == d + step || e == d + step - isize_span() || e == d + step + isize_span(),
        ;
        vstd::arithmetic::div_mod::lemma_mod_multiples_basic(q, isize_span());
        vstd::arithmetic::div_mod::lemma_mod_multiples_basic(q - 1, isize_span());
        vstd::arithmetic::div_mod::lemma_mod_multiples_basic(q + 1, isize_span());
        assert(fold_op(scan(p)->Some_0[0], c) =~= seq![Node::Move(e)]);
        assert((e - net_moves(s)) % isize_span() == 0);
        assert(scan(s)->Some_0[0] == seq![Node::Move(e)]);
    }
}

/// A run of `>` and `<` folds into one move by its net count, taken modulo
/// the span of an offset.
pub proof fn law_move_runs_fold(s: Seq<char>)
    requires
        s.len() > 0,
        forall|i: int| 0 <= i < s.len() ==> s[i] == '>' || s[i] == '<',
    ensures
        parse_spec(s) is Ok,
        single_move_by(parse_spec(s)->Ok_0, net_moves(s)),
{
    lemma_scan_moves(s);
}

proof fn lemma_scan_adds(s: Seq<char>)
    requires
        s.len() > 0,
        forall|i: int| 0 <= i < s.len() ==> s[i] == '+' || s[i] == '-',
    ensures
        scan(s) is Some,
        scan(s)->Some_0.len() == 1,
        scan(s)->Some_0[0] == seq![Node::Add((net_adds(s) % 256) as u8)],
    decreases s.len(),
{
    let p = s.drop_last();
    let c = s.last();
    assert(c == s[s.len() - 1]);
    if p.len() == 0 {
        assert(scan(p) == Some(seq![Seq::<Node>::empty()]));
        assert(net_adds(p) == 0);
        assert(scan(s)->Some_0[0] == seq![single_op(c)]);
        assert(-1int % 256 == 255);
    } else {
        lemma_scan_adds(p);
        let n = scan(p)->Some_0[0][0]->Add_0;
        let e = if c == '+' { vstd::wrapping::u8_specs::wrapping_add(n, 1u8) } else {
            vstd::wrapping::u8_specs::wrapping_sub(n, 1u8) };
        let step = if c == '+' { 1int } else { -1int };
        assert(net_adds(s) == net_adds(p) + step);
        lemma_add_mod_noop_right(step, net_adds(p), 256);
        assert(e as int == (step + n) % 256);
        assert(fold_op(scan(p)->Some_0[0], c) =~= seq![Node::Add(e)]);
        assert(scan(s)->Some_0[0] == seq![Node::Add(e)]);
    }
}

/// A run of `+` and `-` folds into one add of its net count modulo 256.
pub proof fn law_add_runs_fold(s: Seq<char>)
    requires
        s.len() > 0,
        forall|i: int| 0 <= i < s.len() ==> s[i] == '+' || s[i] == '-',
    ensures
        parse_spec(s) == Ok::<Seq<Node>, ParserError>(seq![Node::Add((net_adds(s) % 256) as u8)]),
{
    lemma_scan_adds(s);
}

/// `m` copies of `>` followed by `n` more parse as one block of `m + n`
/// copies does: a single move by `m + n`, modulo the span of an offset.
pub proof fn law_move_blocks_join(m: nat, n: nat)
    requires
        m + n > 0,
    ensures
        parse_spec(Seq::new(m, |i: int| '>') + Seq::new(n, |i: int| '>')) == parse_spec(
            Seq::new(m + n, |i: int| '>'),
        ),
        parse_spec(Seq::new(m + n, |i: int| '>')) is Ok,
        single_move_by(parse_spec(Seq::new(m + n, |i: int| '>'))->Ok_0, (m + n) as int),
{
    let s = Seq::new(m + n, |i: int| '>');
    assert(Seq::new(m, |i: int| '>') + Seq::new(n, |i: int| '>') =~= s);
    law_move_runs_fold(s);
    lemma_net_moves_all_right(s);
}

proof fn lemma_net_moves_all_right(s: Seq<char>)
    requires
        forall|i: int| 0 <= i < s.len() ==> s[i] == '>',
    ensures
        net_moves(s) == s.len(),
    decreases s.len(),
{
    if s.len() > 0 {
        assert(s.last() == s[s.len() - 1]);
        lemma_net_moves_all_right(s.drop_last());
    }
}

} // verus!
