//! Properties of running programs, proved over the run semantics.
use vstd::prelude::*;
use vstd::arithmetic::div_mod::{lemma_add_mod_noop_right, lemma_small_mod};
use crate::ops::{Op, Operation};
use crate::interp::{run_spec, step_spec, wrap, Cfg, Status};

verus! {

/// The program `[-]`.
pub open spec fn clear_loop() -> Seq<Operation> {
    seq![
        Operation { operator: Op::Jpf, operand: 3 },
        Operation { operator: Op::Upd, operand: -1isize },
        Operation { operator: Op::Jpb, operand: 1 },
    ]
}

proof fn lemma_clear_iter(tape: Seq<u8>, ptr: int, input: Seq<u8>, w: nat)
    requires
        0 <= ptr < tape.len(),
        1 <= w <= 255,
        tape[ptr] == w,
    ensures
        run_spec(clear_loop(), Cfg { tape, ptr, pc: 1 }, input, 2 * w).cfg
            == (Cfg { tape: tape.update(ptr, 0), ptr, pc: 3 }),
        run_spec(clear_loop(), Cfg { tape, ptr, pc: 1 }, input, 2 * w).status == Status::Halted,
        run_spec(clear_loop(), Cfg { tape, ptr, pc: 1 }, input, 2 * w).output.len() == 0,
    decreases w,
{
    let ops = clear_loop();
    let c0 = Cfg { tape, ptr, pc: 1 };
    lemma_small_mod((w - 1) as nat, 256);
    let t1 = tape.update(ptr, (w - 1) as u8);
    let c1 = Cfg { tape: t1, ptr, pc: 2 };
    assert(step_spec(ops, c0) == Ok::<Cfg, crate::ops::BfError>(c1));
    assert(run_spec(ops, c0, input, 2 * w) == run_spec(ops, c1, input, (2 * w - 1) as nat));
    if w == 1 {
        let c2 = Cfg { tape: t1, ptr, pc: 3 };
        assert(step_spec(ops, c1) == Ok::<Cfg, crate::ops::BfError>(c2));
        assert(run_spec(ops, c1, input, 1) == run_spec(ops, c2, input, 0));
        assert(t1 =~= tape.update(ptr, 0));
    } else {
        let c2 = Cfg { tape: t1, ptr, pc: 1 };
        assert(step_spec(ops, c1) == Ok::<Cfg, crate::ops::BfError>(c2));
        assert(run_spec(ops, c1, input, (2 * w - 1) as nat) == run_spec(ops, c2, input, (2 * w - 2) as nat));
        lemma_clear_iter(t1, ptr, input, (w - 1) as nat);
        assert(t1.update(ptr, 0) =~= tape.update(ptr, 0));
        assert(2 * w - 2 == 2 * (w - 1));
    }
}

/// A clear loop `[-]` leaves its cell at zero, whatever the cell held, and
/// changes nothing else: after one step per jump and decrement it has halted
/// without output.
pub proof fn clear_loop_zeroes_cell(tape: Seq<u8>, ptr: int, input: Seq<u8>)
    requires
        0 <= ptr < tape.len(),
    ensures
        ({
            let r = run_spec(clear_loop(), Cfg { tape, ptr, pc: 0 }, input, (1 + 2 * tape[ptr]) as nat);
            &&& r.status == Status::Halted
            &&& r.cfg == (Cfg { tape: tape.update(ptr, 0), ptr, pc: 3 })
            &&& r.output.len() == 0
        }),
{
    let ops = clear_loop();
    let c0 = Cfg { tape, ptr, pc: 0 };
    let v = tape[ptr];
    if v == 0 {
        let c1 = Cfg { tape, ptr, pc: 3 };
        assert(step_spec(ops, c0) == Ok::<Cfg, crate::ops::BfError>(c1));
        assert(run_spec(ops, c0, input, 1) == run_spec(ops, c1, input, 0));
        assert(tape.update(ptr, 0) =~= tape);
    } else {
        let c1 = Cfg { tape, ptr, pc: 1 };
        assert(step_spec(ops, c0) == Ok::<Cfg, crate::ops::BfError>(c1));
        assert(run_spec(ops, c0, input, (1 + 2 * v) as nat) == run_spec(ops, c1, input, (2 * v) as nat));
        lemma_clear_iter(tape, ptr, input, v as nat);
    }
}

/// The `Asg 0` that replaces a clear loop leaves the same tape as the loop does.
pub proof fn clear_rewrite_agrees(tape: Seq<u8>, ptr: int, input: Seq<u8>)
    requires
        0 <= ptr < tape.len(),
    ensures
        ({
            let r = run_spec(seq![Operation { operator: Op::Asg, operand: 0 }], Cfg { tape, ptr, pc: 0 }, input, 1);
            &&& r.status == Status::Halted
            &&& r.cfg == (Cfg { tape: tape.update(ptr, 0), ptr, pc: 1 })
            &&& r.output.len() == 0
        }),
{
    let ops = seq![Operation { operator: Op::Asg, operand: 0 }];
    let c0 = Cfg { tape, ptr, pc: 0 };
    let c1 = Cfg { tape: tape.update(ptr, 0), ptr, pc: 1 };
    lemma_small_mod(0, 256);
    assert(step_spec(ops, c0) == Ok::<Cfg, crate::ops::BfError>(c1));
    assert(run_spec(ops, c0, input, 1) == run_spec(ops, c1, input, 0));
}

/// Incrementing 255 gives 0, and decrementing 0 gives 255.
pub proof fn cell_wraps_around(c: Cfg)
    requires
        0 <= c.ptr < c.tape.len(),
        0 <= c.pc,
    ensures
        c.tape[c.ptr] == 255 ==> step_spec(seq![Operation { operator: Op::Upd, operand: 1 }], Cfg { pc: 0, ..c })
            == Ok::<Cfg, crate::ops::BfError>(Cfg { tape: c.tape.update(c.ptr, 0), ptr: c.ptr, pc: 1 }),
        c.tape[c.ptr] == 0 ==> step_spec(seq![Operation { operator: Op::Upd, operand: -1isize }], Cfg { pc: 0, ..c })
            == Ok::<Cfg, crate::ops::BfError>(Cfg { tape: c.tape.update(c.ptr, 255), ptr: c.ptr, pc: 1 }),
{
    assert(wrap(256) == 0);
    assert(wrap(-1) == 255);
}

/// The program `[>+<-]` with shift `d` and factor `f`: `[` shift by `d`,
/// add `f`, shift back, subtract one `]`.
pub open spec fn mul_loop(d: isize, f: isize) -> Seq<Operation> {
    seq![
        Operation { operator: Op::Jpf, operand: 6 },
        Operation { operator: Op::Shf, operand: d },
        Operation { operator: Op::Upd, operand: f },
        Operation { operator: Op::Shf, operand: (-d) as isize },
        Operation { operator: Op::Upd, operand: -1isize },
        Operation { operator: Op::Jpb, operand: 1 },
    ]
}

/// What the optimizer puts in place of `mul_loop(d, f)`.
pub open spec fn mul_rewrite(d: isize, f: isize) -> Seq<Operation> {
    seq![
        Operation { operator: Op::Mul, operand: f },
        Operation { operator: Op::Add, operand: d },
        Operation { operator: Op::Asg, operand: 0 },
    ]
}

/// The tape after moving `f` times the cell at `ptr` into the cell at `ptr + d`.
pub open spec fn moved(tape: Seq<u8>, ptr: int, d: int, f: int) -> Seq<u8> {
    tape.update(ptr + d, wrap(tape[ptr + d] + f * tape[ptr])).update(ptr, 0)
}

pub open spec fn mul_ready(tape: Seq<u8>, ptr: int, d: isize, f: isize) -> bool {
    &&& tape.len() < usize::MAX
    &&& 0 <= ptr < tape.len()
    &&& 0 <= ptr + d < tape.len()
    &&& d != 0
    &&& d > isize::MIN
    &&& f > 0
}

proof fn lemma_mul_iter(tape: Seq<u8>, ptr: int, d: isize, f: isize, input: Seq<u8>, w: nat)
    requires
        mul_ready(tape, ptr, d, f),
        1 <= w <= 255,
        tape[ptr] == w,
    ensures
        run_spec(mul_loop(d, f), Cfg { tape, ptr, pc: 1 }, input, 5 * w).cfg
            == (Cfg { tape: moved(tape, ptr, d as int, f as int), ptr, pc: 6 }),
        run_spec(mul_loop(d, f), Cfg { tape, ptr, pc: 1 }, input, 5 * w).status == Status::Halted,
        run_spec(mul_loop(d, f), Cfg { tape, ptr, pc: 1 }, input, 5 * w).output.len() == 0,
    decreases w,
{
    let ops = mul_loop(d, f);
    let q = ptr + d;
    let x = tape[q];
    let c0 = Cfg { tape, ptr, pc: 1 };
    let c1 = Cfg { tape, ptr: q, pc: 2 };
    assert(step_spec(ops, c0) == Ok::<Cfg, crate::ops::BfError>(c1));
    let t2 = tape.update(q, wrap(x + f));
    let c2 = Cfg { tape: t2, ptr: q, pc: 3 };
    assert(step_spec(ops, c1) == Ok::<Cfg, crate::ops::BfError>(c2));
    let c3 = Cfg { tape: t2, ptr, pc: 4 };
    assert(step_spec(ops, c2) == Ok::<Cfg, crate::ops::BfError>(c3));
    lemma_small_mod((w - 1) as nat, 256);
    let t4 = t2.update(ptr, (w - 1) as u8);
    let c4 = Cfg { tape: t4, ptr, pc: 5 };
    assert(t2[ptr] == w);
    assert(step_spec(ops, c3) == Ok::<Cfg, crate::ops::BfError>(c4));
    assert(run_spec(ops, c0, input, 5 * w) == run_spec(ops, c1, input, (5 * w - 1) as nat));
    assert(run_spec(ops, c1, input, (5 * w - 1) as nat) == run_spec(ops, c2, input, (5 * w - 2) as nat));
    assert(run_spec(ops, c2, input, (5 * w - 2) as nat) == run_spec(ops, c3, input, (5 * w - 3) as nat));
    assert(run_spec(ops, c3, input, (5 * w - 3) as nat) == run_spec(ops, c4, input, (5 * w - 4) as nat));
    lemma_small_mod(x as nat, 256);
    if w == 1 {
        let c5 = Cfg { tape: t4, ptr, pc: 6 };
        assert(step_spec(ops, c4) == Ok::<Cfg, crate::ops::BfError>(c5));
        assert(run_spec(ops, c4, input, 1) == run_spec(ops, c5, input, 0));
        assert(t4 =~= moved(tape, ptr, d as int, f as int));
    } else {
        let c5 = Cfg { tape: t4, ptr, pc: 1 };
        assert(step_spec(ops, c4) == Ok::<Cfg, crate::ops::BfError>(c5));
        assert(run_spec(ops, c4, input, (5 * w - 4) as nat) == run_spec(ops, c5, input, (5 * w - 5) as nat));
        assert(5 * w - 5 == 5 * (w - 1));
        lemma_mul_iter(t4, ptr, d, f, input, (w - 1) as nat);
        assert(f * (w - 1) + f == f * w) by (nonlinear_arith);
        lemma_add_mod_noop_right(f * (w - 1), x + f, 256);
        assert(wrap(t4[q] + f * t4[ptr]) == wrap(x + f * w));
        assert(moved(t4, ptr, d as int, f as int) =~= moved(tape, ptr, d as int, f as int));
    }
}

/// A multiply-move loop with current cell `n` and cell `m` at offset `d`
/// halts with the current cell at zero and the other at `m + f * n`, modulo
/// 256, after `1 + 5 * n` steps and without output.
pub proof fn multiply_move_loop(tape: Seq<u8>, ptr: int, d: isize, f: isize, input: Seq<u8>)
    requires
        mul_ready(tape, ptr, d, f),
    ensures
        ({
            let r = run_spec(mul_loop(d, f), Cfg { tape, ptr, pc: 0 }, input, (1 + 5 * tape[ptr]) as nat);
            &&& r.status == Status::Halted
            &&& r.cfg == (Cfg { tape: moved(tape, ptr, d as int, f as int), ptr, pc: 6 })
            &&& r.output.len() == 0
        }),
{
    let ops = mul_loop(d, f);
    let c0 = Cfg { tape, ptr, pc: 0 };
    let n = tape[ptr];
    if n == 0 {
        let c1 = Cfg { tape, ptr, pc: 6 };
        assert(step_spec(ops, c0) == Ok::<Cfg, crate::ops::BfError>(c1));
        assert(run_spec(ops, c0, input, 1) == run_spec(ops, c1, input, 0));
        lemma_small_mod(tape[ptr + d] as nat, 256);
        assert(f * 0 == 0);
        assert(moved(tape, ptr, d as int, f as int) =~= tape);
    } else {
        let c1 = Cfg { tape, ptr, pc: 1 };
        assert(step_spec(ops, c0) == Ok::<Cfg, crate::ops::BfError>(c1));
        assert(run_spec(ops, c0, input, (1 + 5 * n) as nat) == run_spec(ops, c1, input, (5 * n) as nat));
        lemma_mul_iter(tape, ptr, d, f, input, n as nat);
    }
}

/// The three instructions that replace a multiply-move loop leave the same
/// tape as the loop does.
pub proof fn multiply_move_rewrite_agrees(tape: Seq<u8>, ptr: int, d: isize, f: isize, input: Seq<u8>)
    requires
        mul_ready(tape, ptr, d, f),
    ensures
        ({
            let r = run_spec(mul_rewrite(d, f), Cfg { tape, ptr, pc: 0 }, input, 3);
            &&& r.status == Status::Halted
            &&& r.cfg == (Cfg { tape: moved(tape, ptr, d as int, f as int), ptr, pc: 3 })
            &&& r.output.len() == 0
        }),
{
    let ops = mul_rewrite(d, f);
    let q = ptr + d;
    let n = tape[ptr];
    let c0 = Cfg { tape, ptr, pc: 0 };
    let t1 = tape.update(ptr, wrap(f * n));
    let c1 = Cfg { tape: t1, ptr, pc: 1 };
    assert(step_spec(ops, c0) == Ok::<Cfg, crate::ops::BfError>(c1));
    let t2 = t1.update(q, wrap(tape[q] + wrap(f * n)));
    let c2 = Cfg { tape: t2, ptr, pc: 2 };
    assert(step_spec(ops, c1) == Ok::<Cfg, crate::ops::BfError>(c2));
    lemma_small_mod(0, 256);
    let c3 = Cfg { tape: t2.update(ptr, 0), ptr, pc: 3 };
    assert(step_spec(ops, c2) == Ok::<Cfg, crate::ops::BfError>(c3));
    assert(run_spec(ops, c0, input, 3) == run_spec(ops, c1, input, 2));
    assert(run_spec(ops, c1, input, 2) == run_spec(ops, c2, input, 1));
    assert(run_spec(ops, c2, input, 1) == run_spec(ops, c3, input, 0));
    lemma_add_mod_noop_right(tape[q] as int, f * n, 256);
    assert(t2.update(ptr, 0) =~= moved(tape, ptr, d as int, f as int));
}

} // verus!
