//! Running an optimized stream gives the output that running the stream
//! itself gives.
use vstd::prelude::*;
use vstd::arithmetic::div_mod::{lemma_add_mod_noop_right, lemma_small_mod};
use crate::ops::{jump_ok, well_formed, Op, Operation};
use crate::interp::{grown, read_spec, run_spec, start_cfg, step_spec, target, wrap, Cfg, Status};
use crate::optimize::{clear_at, head, mul_at, new_index, next_pos, optimized, reaches};

verus! {

/// Cell `i` of a tape: cells past its end hold zero.
pub open spec fn cell(t: Seq<u8>, i: int) -> u8 {
    if 0 <= i < t.len() {
        t[i]
    } else {
        0
    }
}

/// Two tapes that differ at most in how many zero cells they have grown.
pub open spec fn same_cells(a: Seq<u8>, b: Seq<u8>) -> bool {
    forall|i: int| #[trigger] cell(a, i) == cell(b, i)
}

/// A state of a run of `ops` and the matching state of a run of its
/// optimized stream.
pub open spec fn related(ops: Seq<Operation>, c: Cfg, d: Cfg) -> bool {
    &&& c.ptr == d.ptr
    &&& 0 <= c.ptr < c.tape.len()
    &&& d.ptr < d.tape.len()
    &&& same_cells(c.tape, d.tape)
    &&& 0 <= c.pc <= ops.len()
    &&& reaches(ops, 0, c.pc)
    &&& d.pc == new_index(ops, c.pc)
}

/// A multiply-move loop reached with a zero counter and an offset that
/// leaves the tape: the loop would be passed over, its rewrite fails.
pub open spec fn hazard(ops: Seq<Operation>, c: Cfg) -> bool {
    &&& 0 <= c.pc < ops.len()
    &&& mul_at(ops, c.pc)
    &&& c.tape[c.ptr] == 0
    &&& target(c.ptr, ops[c.pc + 1].operand as int) is Err
}

/// The run from `c` meets no hazard within `fuel` steps.
pub open spec fn safe(ops: Seq<Operation>, c: Cfg, input: Seq<u8>, fuel: nat) -> bool
    decreases fuel,
{
    if !(0 <= c.pc < ops.len()) || fuel == 0 {
        true
    } else if hazard(ops, c) {
        false
    } else if ops[c.pc].operator == Op::Acp {
        if input.len() > 0 {
            safe(ops, read_spec(c, Some(input[0])), input.drop_first(), (fuel - 1) as nat)
        } else {
            safe(ops, read_spec(c, None), input, (fuel - 1) as nat)
        }
    } else {
        match step_spec(ops, c) {
            Err(_) => true,
            Ok(n) => safe(ops, n, input, (fuel - 1) as nat),
        }
    }
}

proof fn lemma_grown_cells(t: Seq<u8>, x: int)
    ensures
        same_cells(t, grown(t, x)),
        0 <= x ==> x < grown(t, x).len(),
        t.len() <= grown(t, x).len(),
{
    assert forall|i: int| #[trigger] cell(t, i) == cell(grown(t, x), i) by {
        if x >= t.len() && t.len() <= i < grown(t, x).len() {
            assert(grown(t, x)[i] == 0);
        }
    }
}

proof fn lemma_cells_trans(a: Seq<u8>, b: Seq<u8>, c: Seq<u8>)
    requires
        same_cells(a, b) || same_cells(b, a),
        same_cells(b, c) || same_cells(c, b),
    ensures
        same_cells(a, c),
        same_cells(c, a),
{
    assert forall|i: int| #[trigger] cell(a, i) == cell(c, i) by {
        assert(cell(a, i) == cell(b, i) || cell(b, i) == cell(a, i));
        assert(cell(b, i) == cell(c, i) || cell(c, i) == cell(b, i));
    }
    assert forall|i: int| #[trigger] cell(c, i) == cell(a, i) by {
        assert(cell(a, i) == cell(c, i));
    }
}

proof fn lemma_update_cells(a: Seq<u8>, b: Seq<u8>, p: int, v: u8)
    requires
        same_cells(a, b),
        0 <= p < a.len(),
        p < b.len(),
    ensures
        same_cells(a.update(p, v), b.update(p, v)),
{
    assert forall|i: int| #[trigger] cell(a.update(p, v), i) == cell(b.update(p, v), i) by {
        assert(cell(a, i) == cell(b, i));
    }
}

proof fn lemma_clear_iter_run(ops: Seq<Operation>, tape: Seq<u8>, ptr: int, h: int, input: Seq<u8>, f: nat, w: nat)
    requires
        well_formed(ops),
        clear_at(ops, h),
        0 <= ptr < tape.len(),
        1 <= w <= 255,
        tape[ptr] == w,
    ensures
        f < 2 * w ==> run_spec(ops, Cfg { tape, ptr, pc: h + 1 }, input, f).status == Status::Unfinished,
        f >= 2 * w ==> run_spec(ops, Cfg { tape, ptr, pc: h + 1 }, input, f) == run_spec(
            ops,
            Cfg { tape: tape.update(ptr, 0), ptr, pc: h + 3 },
            input,
            (f - 2 * w) as nat,
        ),
        f >= 2 * w && safe(ops, Cfg { tape, ptr, pc: h + 1 }, input, f) ==> safe(
            ops,
            Cfg { tape: tape.update(ptr, 0), ptr, pc: h + 3 },
            input,
            (f - 2 * w) as nat,
        ),
    decreases w,
{
    assert(jump_ok(ops, h));
    assert(ops[h].operand == h + 3);
    assert(jump_ok(ops, h + 2));
    let c0 = Cfg { tape, ptr, pc: h + 1 };
    lemma_small_mod((w - 1) as nat, 256);
    let t1 = tape.update(ptr, (w - 1) as u8);
    let c1 = Cfg { tape: t1, ptr, pc: h + 2 };
    assert(step_spec(ops, c0) == Ok::<Cfg, crate::ops::BfError>(c1));
    assert(!mul_at(ops, h + 1) && !mul_at(ops, h + 2));
    if f >= 2 {
        assert(run_spec(ops, c0, input, f) == run_spec(ops, c1, input, (f - 1) as nat));
        assert(safe(ops, c0, input, f) == safe(ops, c1, input, (f - 1) as nat));
        if w == 1 {
            let c2 = Cfg { tape: t1, ptr, pc: h + 3 };
            assert(step_spec(ops, c1) == Ok::<Cfg, crate::ops::BfError>(c2));
            assert(run_spec(ops, c1, input, (f - 1) as nat) == run_spec(ops, c2, input, (f - 2) as nat));
            assert(safe(ops, c1, input, (f - 1) as nat) == safe(ops, c2, input, (f - 2) as nat));
            assert(t1 =~= tape.update(ptr, 0));
        } else {
            let c2 = Cfg { tape: t1, ptr, pc: h + 1 };
            assert(step_spec(ops, c1) == Ok::<Cfg, crate::ops::BfError>(c2));
            assert(run_spec(ops, c1, input, (f - 1) as nat) == run_spec(ops, c2, input, (f - 2) as nat));
            assert(safe(ops, c1, input, (f - 1) as nat) == safe(ops, c2, input, (f - 2) as nat));
            lemma_clear_iter_run(ops, t1, ptr, h, input, (f - 2) as nat, (w - 1) as nat);
            assert(t1.update(ptr, 0) =~= tape.update(ptr, 0));
        }
    } else if f == 1 {
        assert(run_spec(ops, c0, input, f) == run_spec(ops, c1, input, 0));
    }
}

/// A clear loop at `h` in a stream: it runs `1 + 2 * v` steps for a cell
/// holding `v`, and ends with the cell at zero after the loop.
proof fn lemma_clear_run(ops: Seq<Operation>, tape: Seq<u8>, ptr: int, h: int, input: Seq<u8>, f: nat)
    requires
        well_formed(ops),
        clear_at(ops, h),
        0 <= ptr < tape.len(),
    ensures
        ({
            let steps = 1 + 2 * tape[ptr];
            let c0 = Cfg { tape, ptr, pc: h };
            let c2 = Cfg { tape: tape.update(ptr, 0), ptr, pc: h + 3 };
            &&& f < steps ==> run_spec(ops, c0, input, f).status == Status::Unfinished
            &&& f >= steps ==> run_spec(ops, c0, input, f) == run_spec(ops, c2, input, (f - steps) as nat)
            &&& f >= steps && safe(ops, c0, input, f) ==> safe(ops, c2, input, (f - steps) as nat)
        }),
{
    assert(jump_ok(ops, h));
    assert(ops[h].operand == h + 3);
    let c0 = Cfg { tape, ptr, pc: h };
    let v = tape[ptr];
    if f >= 1 {
        if v == 0 {
            let c1 = Cfg { tape, ptr, pc: h + 3 };
            assert(step_spec(ops, c0) == Ok::<Cfg, crate::ops::BfError>(c1));
            assert(run_spec(ops, c0, input, f) == run_spec(ops, c1, input, (f - 1) as nat));
            assert(safe(ops, c0, input, f) == safe(ops, c1, input, (f - 1) as nat));
            assert(tape.update(ptr, 0) =~= tape);
        } else {
            let c1 = Cfg { tape, ptr, pc: h + 1 };
            assert(step_spec(ops, c0) == Ok::<Cfg, crate::ops::BfError>(c1));
            assert(run_spec(ops, c0, input, f) == run_spec(ops, c1, input, (f - 1) as nat));
            assert(safe(ops, c0, input, f) == safe(ops, c1, input, (f - 1) as nat));
            lemma_clear_iter_run(ops, tape, ptr, h, input, (f - 1) as nat, v as nat);
        }
    }
}

/// One step that reads no input and writes no output.
proof fn lemma_plain_step(ops: Seq<Operation>, c: Cfg, n: Cfg, input: Seq<u8>, f: nat)
    requires
        0 <= c.pc < ops.len(),
        ops[c.pc].operator != Op::Acp,
        ops[c.pc].operator != Op::Out,
        step_spec(ops, c) == Ok::<Cfg, crate::ops::BfError>(n),
        !hazard(ops, c),
    ensures
        f == 0 ==> run_spec(ops, c, input, f).status == Status::Unfinished,
        f > 0 ==> run_spec(ops, c, input, f) == run_spec(ops, n, input, (f - 1) as nat),
        f > 0 ==> safe(ops, c, input, f) == safe(ops, n, input, (f - 1) as nat),
{
}

proof fn lemma_mul_iter_run(
    ops: Seq<Operation>,
    tape: Seq<u8>,
    ptr: int,
    h: int,
    input: Seq<u8>,
    f: nat,
    w: nat,
)
    requires
        well_formed(ops),
        mul_at(ops, h),
        tape.len() <= usize::MAX,
        0 <= ptr < tape.len(),
        0 <= ptr + ops[h + 1].operand < tape.len(),
        ops[h + 1].operand != 0,
        1 <= w <= 255,
        tape[ptr] == w,
    ensures
        ({
            let d = ops[h + 1].operand as int;
            let k = ops[h + 2].operand as int;
            let c0 = Cfg { tape, ptr, pc: h + 1 };
            let c2 = Cfg { tape: tape.update(ptr + d, wrap(tape[ptr + d] + k * w)).update(ptr, 0), ptr, pc: h + 6 };
            &&& f < 5 * w ==> run_spec(ops, c0, input, f).status == Status::Unfinished
            &&& f >= 5 * w ==> run_spec(ops, c0, input, f) == run_spec(ops, c2, input, (f - 5 * w) as nat)
            &&& f >= 5 * w && safe(ops, c0, input, f) ==> safe(ops, c2, input, (f - 5 * w) as nat)
        }),
    decreases w,
{
    assert(jump_ok(ops, h));
    assert(ops[h].operand == h + 6);
    assert(jump_ok(ops, h + 5));
    let d = ops[h + 1].operand as int;
    let k = ops[h + 2].operand as int;
    let q = ptr + d;
    let x = tape[q];
    let c0 = Cfg { tape, ptr, pc: h + 1 };
    let c1 = Cfg { tape, ptr: q, pc: h + 2 };
    assert(grown(tape, q) == tape);
    assert(step_spec(ops, c0) == Ok::<Cfg, crate::ops::BfError>(c1));
    let t2 = tape.update(q, wrap(x + k));
    let c2 = Cfg { tape: t2, ptr: q, pc: h + 3 };
    assert(step_spec(ops, c1) == Ok::<Cfg, crate::ops::BfError>(c2));
    let c3 = Cfg { tape: t2, ptr, pc: h + 4 };
    assert(grown(t2, ptr) == t2);
    assert(step_spec(ops, c2) == Ok::<Cfg, crate::ops::BfError>(c3));
    lemma_small_mod((w - 1) as nat, 256);
    let t4 = t2.update(ptr, (w - 1) as u8);
    let c4 = Cfg { tape: t4, ptr, pc: h + 5 };
    assert(t2[ptr] == w);
    assert(step_spec(ops, c3) == Ok::<Cfg, crate::ops::BfError>(c4));
    let c5 = Cfg { tape: t4, ptr, pc: if w == 1 { h + 6 } else { h + 1 } };
    assert(step_spec(ops, c4) == Ok::<Cfg, crate::ops::BfError>(c5));
    assert(!mul_at(ops, h + 1) && !mul_at(ops, h + 2) && !mul_at(ops, h + 3));
    assert(!mul_at(ops, h + 4) && !mul_at(ops, h + 5));
    lemma_plain_step(ops, c0, c1, input, f);
    if f >= 1 {
        lemma_plain_step(ops, c1, c2, input, (f - 1) as nat);
    }
    if f >= 2 {
        lemma_plain_step(ops, c2, c3, input, (f - 2) as nat);
    }
    if f >= 3 {
        lemma_plain_step(ops, c3, c4, input, (f - 3) as nat);
    }
    if f >= 4 {
        lemma_plain_step(ops, c4, c5, input, (f - 4) as nat);
    }
    lemma_small_mod(x as nat, 256);
    let target_tape = tape.update(q, wrap(x + k * w)).update(ptr, 0);
    if w == 1 {
        assert(k * 1 == k);
        assert(t4 =~= target_tape);
    } else if f >= 5 {
        lemma_mul_iter_run(ops, t4, ptr, h, input, (f - 5) as nat, (w - 1) as nat);
        assert(k * (w - 1) + k == k * w) by (nonlinear_arith);
        lemma_add_mod_noop_right(k * (w - 1), x + k, 256);
        assert(t4[q] == wrap(x + k));
        assert(wrap(t4[q] + k * t4[ptr]) == wrap(x + k * w));
        assert(t4.update(q, wrap(t4[q] + k * t4[ptr])).update(ptr, 0) =~= target_tape);
        assert(f - 5 - 5 * (w - 1) == f - 5 * w);
    }
}

/// A multiply-move loop whose shift is zero adds `k - 1` to its cell per
/// round: when it ends, the cell is zero and nothing else changed.
proof fn lemma_mul_zero_shift_run(ops: Seq<Operation>, tape: Seq<u8>, ptr: int, h: int, input: Seq<u8>, f: nat) -> (rest: nat)
    requires
        well_formed(ops),
        mul_at(ops, h),
        ops[h + 1].operand == 0,
        tape.len() <= usize::MAX,
        0 <= ptr < tape.len(),
        tape[ptr] != 0,
        run_spec(ops, Cfg { tape, ptr, pc: h + 1 }, input, f).status != Status::Unfinished,
    ensures
        rest < f,
        run_spec(ops, Cfg { tape, ptr, pc: h + 1 }, input, f) == run_spec(
            ops,
            Cfg { tape: tape.update(ptr, 0), ptr, pc: h + 6 },
            input,
            rest,
        ),
        safe(ops, Cfg { tape, ptr, pc: h + 1 }, input, f) ==> safe(
            ops,
            Cfg { tape: tape.update(ptr, 0), ptr, pc: h + 6 },
            input,
            rest,
        ),
    decreases f,
{
    assert(jump_ok(ops, h));
    assert(ops[h].operand == h + 6);
    assert(jump_ok(ops, h + 5));
    let k = ops[h + 2].operand as int;
    let w = tape[ptr];
    let c0 = Cfg { tape, ptr, pc: h + 1 };
    let c1 = Cfg { tape, ptr, pc: h + 2 };
    assert(grown(tape, ptr) == tape);
    assert(step_spec(ops, c0) == Ok::<Cfg, crate::ops::BfError>(c1));
    let t2 = tape.update(ptr, wrap(w + k));
    let c2 = Cfg { tape: t2, ptr, pc: h + 3 };
    assert(step_spec(ops, c1) == Ok::<Cfg, crate::ops::BfError>(c2));
    let c3 = Cfg { tape: t2, ptr, pc: h + 4 };
    assert(grown(t2, ptr) == t2);
    assert(step_spec(ops, c2) == Ok::<Cfg, crate::ops::BfError>(c3));
    let t4 = t2.update(ptr, wrap(t2[ptr] - 1));
    let c4 = Cfg { tape: t4, ptr, pc: h + 5 };
    assert(step_spec(ops, c3) == Ok::<Cfg, crate::ops::BfError>(c4));
    let c5 = Cfg { tape: t4, ptr, pc: if t4[ptr] == 0 { h + 6 } else { h + 1 } };
    assert(step_spec(ops, c4) == Ok::<Cfg, crate::ops::BfError>(c5));
    assert(!mul_at(ops, h + 1) && !mul_at(ops, h + 2) && !mul_at(ops, h + 3));
    assert(!mul_at(ops, h + 4) && !mul_at(ops, h + 5));
    lemma_plain_step(ops, c0, c1, input, f);
    if f >= 1 {
        lemma_plain_step(ops, c1, c2, input, (f - 1) as nat);
    }
    if f >= 2 {
        lemma_plain_step(ops, c2, c3, input, (f - 2) as nat);
    }
    if f >= 3 {
        lemma_plain_step(ops, c3, c4, input, (f - 3) as nat);
    }
    if f >= 4 {
        lemma_plain_step(ops, c4, c5, input, (f - 4) as nat);
    }
    assert(f >= 5);
    if t4[ptr] == 0 {
        assert(t4 =~= tape.update(ptr, 0));
        (f - 5) as nat
    } else {
        let rest = lemma_mul_zero_shift_run(ops, t4, ptr, h, input, (f - 5) as nat);
        assert(t4.update(ptr, 0) =~= tape.update(ptr, 0));
        rest
    }
}

/// The tape after a multiply-move loop with factor `k` and counter `v`
/// moved into cell `q`.
pub open spec fn after_mul(a: Seq<u8>, ptr: int, q: int, k: int, v: int) -> Seq<u8> {
    grown(a, q).update(q, wrap(cell(a, q) + k * v)).update(ptr, 0)
}

proof fn lemma_mul_cells(a: Seq<u8>, b: Seq<u8>, ptr: int, q: int, k: int)
    requires
        same_cells(a, b),
        0 <= ptr < a.len(),
        ptr < b.len(),
        0 <= q,
    ensures
        ({
            let v = a[ptr] as int;
            let e1 = b.update(ptr, wrap(k * v));
            let g = grown(e1, q);
            let e3 = g.update(q, wrap(g[q] + wrap(k * v))).update(ptr, wrap(0));
            &&& same_cells(after_mul(a, ptr, q, k, v), e3)
            &&& ptr < e3.len()
            &&& e3.len() == grown(b, q).len()
            &&& (v == 0 ==> same_cells(a, after_mul(a, ptr, q, k, v)))
            &&& (q == ptr ==> same_cells(a.update(ptr, 0), after_mul(a, ptr, q, k, v)))
        }),
{
    let v = a[ptr] as int;
    let e1 = b.update(ptr, wrap(k * v));
    let g = grown(e1, q);
    lemma_grown_cells(e1, q);
    lemma_grown_cells(a, q);
    lemma_small_mod(0, 256);
    assert(cell(a, ptr) == cell(b, ptr));
    assert(cell(a, q) == cell(b, q));
    lemma_add_mod_noop_right(cell(a, q) as int, k * v, 256);
    if q != ptr {
        assert(g[q] == cell(e1, q));
        assert(cell(e1, q) == cell(b, q));
    }
    let A = after_mul(a, ptr, q, k, v);
    let e3 = g.update(q, wrap(g[q] + wrap(k * v))).update(ptr, wrap(0));
    assert forall|i: int| #[trigger] cell(A, i) == cell(e3, i) by {
        assert(cell(a, i) == cell(b, i));
        assert(cell(grown(a, q), i) == cell(a, i));
        assert(cell(g, i) == cell(e1, i));
    }
    if v == 0 {
        lemma_small_mod(cell(a, q) as nat, 256);
        assert(k * 0 == 0);
        assert forall|i: int| #[trigger] cell(a, i) == cell(A, i) by {
            assert(cell(grown(a, q), i) == cell(a, i));
        }
    }
    if q == ptr {
        assert forall|i: int| #[trigger] cell(a.update(ptr, 0), i) == cell(A, i) by {
            assert(cell(grown(a, q), i) == cell(a, i));
        }
    }
}

/// An instruction that the pass keeps does in the optimized stream what it
/// does in the stream itself.
proof fn lemma_kept_step(ops: Seq<Operation>, c: Cfg, dd: Cfg)
    requires
        well_formed(ops),
        related(ops, c, dd),
        c.tape.len() <= usize::MAX,
        c.pc < ops.len(),
        !head(ops, c.pc),
    ensures
        0 <= dd.pc < optimized(ops).len(),
        optimized(ops)[dd.pc].operator == ops[c.pc].operator,
        ops[c.pc].operator == Op::Out ==> optimized(ops)[dd.pc].operand == ops[c.pc].operand,
        dd.tape[dd.ptr] == c.tape[c.ptr],
        step_spec(ops, c) is Ok <==> step_spec(optimized(ops), dd) is Ok,
        step_spec(ops, c) is Err ==> step_spec(optimized(ops), dd) == step_spec(ops, c),
        step_spec(ops, c) is Ok ==> related(ops, step_spec(ops, c)->Ok_0, step_spec(optimized(ops), dd)->Ok_0),
        step_spec(ops, c) is Ok ==> (step_spec(ops, c)->Ok_0).tape.len() <= usize::MAX,
        related(ops, read_spec(c, None), read_spec(dd, None)),
        forall|x: u8| related(ops, #[trigger] read_spec(c, Some(x)), read_spec(dd, Some(x))),
{
    let o = optimized(ops);
    let i = c.pc;
    let k = dd.pc;
    crate::optimize::kept_instruction_lands(ops, i);
    let op = ops[i];
    let oo = o[k];
    let v = c.tape[c.ptr];
    let p = c.ptr;
    assert(cell(c.tape, p) == cell(dd.tape, p));
    assert(jump_ok(ops, i));
    lemma_update_cells(c.tape, dd.tape, p, 0);
    assert forall|x: u8| related(ops, #[trigger] read_spec(c, Some(x)), read_spec(dd, Some(x))) by {
        lemma_update_cells(c.tape, dd.tape, p, x);
    }
    match op.operator {
        Op::Upd => {
            lemma_update_cells(c.tape, dd.tape, p, wrap(v + op.operand));
        },
        Op::Asg => {
            lemma_update_cells(c.tape, dd.tape, p, wrap(op.operand as int));
        },
        Op::Mul => {
            lemma_update_cells(c.tape, dd.tape, p, wrap(op.operand * v));
        },
        Op::Shf => {
            let t = p + op.operand;
            lemma_grown_cells(c.tape, t);
            lemma_grown_cells(dd.tape, t);
            lemma_cells_trans(grown(c.tape, t), c.tape, dd.tape);
            lemma_cells_trans(grown(c.tape, t), dd.tape, grown(dd.tape, t));
        },

        Op::Add => {
            let t = p + op.operand;
            lemma_grown_cells(c.tape, t);
            lemma_grown_cells(dd.tape, t);
            lemma_cells_trans(grown(c.tape, t), c.tape, dd.tape);
            lemma_cells_trans(grown(c.tape, t), dd.tape, grown(dd.tape, t));
            if target(p, op.operand as int) is Ok {
                let ga = grown(c.tape, t);
                let gb = grown(dd.tape, t);
                assert(cell(ga, t) == cell(c.tape, t));
                assert(cell(gb, t) == cell(dd.tape, t));
                assert(cell(c.tape, t) == cell(dd.tape, t));
                assert(cell(ga, p) == cell(c.tape, p));
                assert(cell(gb, p) == cell(dd.tape, p));
                lemma_update_cells(ga, gb, t, wrap(ga[t] + v));
            }
        },
        _ => {},
    }
}

proof fn lemma_sim(ops: Seq<Operation>, c: Cfg, dd: Cfg, input: Seq<u8>, f: nat) -> (g: nat)
    requires
        well_formed(ops),
        related(ops, c, dd),
        c.tape.len() <= usize::MAX,
        safe(ops, c, input, f),
        run_spec(ops, c, input, f).status != Status::Unfinished,
    ensures
        run_spec(optimized(ops), dd, input, g).status == run_spec(ops, c, input, f).status,
        run_spec(optimized(ops), dd, input, g).output == run_spec(ops, c, input, f).output,
    decreases f, 1nat,
{
    let o = optimized(ops);
    let raw = crate::optimize::opt_from(ops, 0);
    assert(o.len() == raw.len());
    if c.pc == ops.len() {
        assert(crate::optimize::opt_from(ops, ops.len() as int) =~= Seq::<Operation>::empty());
        assert(dd.pc == o.len());
        0
    } else if clear_at(ops, c.pc) {
        lemma_sim_clear(ops, c, dd, input, f)
    } else if mul_at(ops, c.pc) {
        lemma_sim_mul(ops, c, dd, input, f)
    } else {
        lemma_sim_kept(ops, c, dd, input, f)
    }
}

proof fn lemma_sim_clear(ops: Seq<Operation>, c: Cfg, dd: Cfg, input: Seq<u8>, f: nat) -> (g: nat)
    requires
        well_formed(ops),
        related(ops, c, dd),
        c.tape.len() <= usize::MAX,
        safe(ops, c, input, f),
        run_spec(ops, c, input, f).status != Status::Unfinished,
        c.pc < ops.len(),
        clear_at(ops, c.pc),
    ensures
        run_spec(optimized(ops), dd, input, g).status == run_spec(ops, c, input, f).status,
        run_spec(optimized(ops), dd, input, g).output == run_spec(ops, c, input, f).output,
    decreases f, 0nat,
{
    let o = optimized(ops);
    let raw = crate::optimize::opt_from(ops, 0);
    assert(o.len() == raw.len());
    let h = c.pc;
    let k = dd.pc;
    let p = c.ptr;
    let v = c.tape[p];
    assert(cell(c.tape, p) == cell(dd.tape, p));
    assert(dd.tape[p] == v);
        lemma_clear_run(ops, c.tape, p, h, input, f);
        let steps = 1 + 2 * v;
        crate::optimize::rewritten_loop_lands(ops, h);
        assert(new_index(ops, h + 3) <= raw.len());
        let c2 = Cfg { tape: c.tape.update(p, 0), ptr: p, pc: h + 3 };
        lemma_small_mod(0, 256);
        let d2 = Cfg { tape: dd.tape.update(p, 0), ptr: p, pc: k + 1 };
        lemma_update_cells(c.tape, dd.tape, p, 0);
        assert(step_spec(o, dd) == Ok::<Cfg, crate::ops::BfError>(d2));
        let g1 = lemma_sim(ops, c2, d2, input, (f - steps) as nat);
        assert(run_spec(o, dd, input, (g1 + 1) as nat) == run_spec(o, d2, input, (g1) as nat));
        g1 + 1
}

/// The run of `ops` through a multiply-move loop whose offset is on the
/// tape: it ends after the loop, the tape as `after_mul` gives it.
proof fn lemma_mul_orig(ops: Seq<Operation>, c: Cfg, input: Seq<u8>, f: nat) -> (r: (Cfg, nat))
    requires
        well_formed(ops),
        0 <= c.pc < ops.len(),
        mul_at(ops, c.pc),
        0 <= c.ptr < c.tape.len(),
        c.tape.len() <= usize::MAX,
        safe(ops, c, input, f),
        run_spec(ops, c, input, f).status != Status::Unfinished,
        target(c.ptr, ops[c.pc + 1].operand as int) is Ok,
    ensures
        r.1 < f,
        run_spec(ops, c, input, f) == run_spec(ops, r.0, input, r.1),
        safe(ops, r.0, input, r.1),
        r.0.ptr == c.ptr,
        r.0.pc == c.pc + 6,
        r.0.tape.len() <= usize::MAX,
        c.ptr < r.0.tape.len(),
        same_cells(
            r.0.tape,
            after_mul(c.tape, c.ptr, c.ptr + ops[c.pc + 1].operand, ops[c.pc + 2].operand as int, c.tape[c.ptr] as int),
        ),
{
    let h = c.pc;
    let p = c.ptr;
    let v = c.tape[p];
    assert(jump_ok(ops, h));
    assert(ops[h].operand == h + 6);
    let d = ops[h + 1].operand as int;
    let fc = ops[h + 2].operand as int;
    let q = p + d;
    let a3 = after_mul(c.tape, p, q, fc, v as int);
    lemma_mul_cells(c.tape, c.tape, p, q, fc);
    assert(!hazard(ops, c));
    assert(f > 0);
    if v == 0 {
        let c1 = Cfg { tape: c.tape, ptr: p, pc: h + 6 };
        lemma_plain_step(ops, c, c1, input, f);
        (c1, (f - 1) as nat)
    } else {
        let c1 = Cfg { tape: c.tape, ptr: p, pc: h + 1 };
        lemma_plain_step(ops, c, c1, input, f);
        assert(!mul_at(ops, h + 1));
        if d == 0 {
            let rest = lemma_mul_zero_shift_run(ops, c.tape, p, h, input, (f - 1) as nat);
            let cend = Cfg { tape: c.tape.update(p, 0), ptr: p, pc: h + 6 };
            (cend, rest)
        } else {
            let tg = grown(c.tape, q);
            lemma_grown_cells(c.tape, q);
            let c1g = Cfg { tape: tg, ptr: p, pc: h + 1 };
            let c2g = Cfg { tape: tg, ptr: q, pc: h + 2 };
            assert(grown(tg, q) =~= tg);
            assert(step_spec(ops, c1) == Ok::<Cfg, crate::ops::BfError>(c2g));
            assert(step_spec(ops, c1g) == Ok::<Cfg, crate::ops::BfError>(c2g));
            lemma_plain_step(ops, c1, c2g, input, (f - 1) as nat);
            lemma_plain_step(ops, c1g, c2g, input, (f - 1) as nat);
            assert(f >= 2);
            assert(tg[p] == v);
            lemma_mul_iter_run(ops, tg, p, h, input, (f - 1) as nat, v as nat);
            let cend = Cfg { tape: tg.update(q, wrap(tg[q] + fc * v)).update(p, 0), ptr: p, pc: h + 6 };
            assert(tg[q] == cell(c.tape, q));
            assert(cend.tape == a3);
            lemma_cells_trans(cend.tape, a3, a3);
            (cend, (f - 1 - 5 * v) as nat)
        }
    }
}

proof fn lemma_sim_mul(ops: Seq<Operation>, c: Cfg, dd: Cfg, input: Seq<u8>, f: nat) -> (g: nat)
    requires
        well_formed(ops),
        related(ops, c, dd),
        c.tape.len() <= usize::MAX,
        safe(ops, c, input, f),
        run_spec(ops, c, input, f).status != Status::Unfinished,
        c.pc < ops.len(),
        mul_at(ops, c.pc),
    ensures
        run_spec(optimized(ops), dd, input, g).status == run_spec(ops, c, input, f).status,
        run_spec(optimized(ops), dd, input, g).output == run_spec(ops, c, input, f).output,
    decreases f, 0nat,
{
    let o = optimized(ops);
    let h = c.pc;
    let k = dd.pc;
    let p = c.ptr;
    let v = c.tape[p];
    assert(cell(c.tape, p) == cell(dd.tape, p));
    assert(dd.tape[p] == v);
    assert(jump_ok(ops, h));
    assert(ops[h].operand == h + 6);
    let d = ops[h + 1].operand as int;
    let fc = ops[h + 2].operand as int;
    crate::optimize::rewritten_loop_lands(ops, h);
    let e1 = Cfg { tape: dd.tape.update(p, wrap(fc * v)), ptr: p, pc: k + 1 };
    assert(step_spec(o, dd) == Ok::<Cfg, crate::ops::BfError>(e1));
    assert(f > 0);
    assert(!hazard(ops, c));
    if target(p, d) is Err {
        let c1 = Cfg { tape: c.tape, ptr: p, pc: h + 1 };
        lemma_plain_step(ops, c, c1, input, f);
        assert(step_spec(ops, c1) is Err);
        assert(f >= 2);
        assert(run_spec(ops, c1, input, (f - 1) as nat).output =~= Seq::<u8>::empty());
        assert(step_spec(o, e1) == step_spec(ops, c1));
        assert(run_spec(o, dd, input, 2) == run_spec(o, e1, input, 1));
        assert(run_spec(o, e1, input, 1).output =~= Seq::<u8>::empty());
        2
    } else {
        let q = p + d;
        lemma_mul_cells(c.tape, dd.tape, p, q, fc);
        let g = grown(e1.tape, q);
        let e2 = Cfg { tape: g.update(q, wrap(g[q] + wrap(fc * v))), ptr: p, pc: k + 2 };
        lemma_grown_cells(e1.tape, q);
        assert(step_spec(o, e1) == Ok::<Cfg, crate::ops::BfError>(e2));
        let e3 = Cfg { tape: e2.tape.update(p, wrap(0)), ptr: p, pc: k + 3 };
        assert(step_spec(o, e2) == Ok::<Cfg, crate::ops::BfError>(e3));
        let (cend, rest) = lemma_mul_orig(ops, c, input, f);
        lemma_cells_trans(cend.tape, after_mul(c.tape, p, q, fc, v as int), e3.tape);
        assert(related(ops, cend, e3));
        let g1 = lemma_sim(ops, cend, e3, input, rest);
        assert(run_spec(o, dd, input, (g1 + 3) as nat) == run_spec(o, e1, input, (g1 + 2) as nat));
        assert(run_spec(o, e1, input, (g1 + 2) as nat) == run_spec(o, e2, input, (g1 + 1) as nat));
        assert(run_spec(o, e2, input, (g1 + 1) as nat) == run_spec(o, e3, input, g1));
        g1 + 3
    }
}

proof fn lemma_sim_kept(ops: Seq<Operation>, c: Cfg, dd: Cfg, input: Seq<u8>, f: nat) -> (g: nat)
    requires
        well_formed(ops),
        related(ops, c, dd),
        c.tape.len() <= usize::MAX,
        safe(ops, c, input, f),
        run_spec(ops, c, input, f).status != Status::Unfinished,
        c.pc < ops.len(),
        !head(ops, c.pc),
    ensures
        run_spec(optimized(ops), dd, input, g).status == run_spec(ops, c, input, f).status,
        run_spec(optimized(ops), dd, input, g).output == run_spec(ops, c, input, f).output,
    decreases f, 0nat,
{
    let o = optimized(ops);
    let raw = crate::optimize::opt_from(ops, 0);
    assert(o.len() == raw.len());
    let h = c.pc;
    let k = dd.pc;
    let p = c.ptr;
    let v = c.tape[p];
    assert(cell(c.tape, p) == cell(dd.tape, p));
    assert(dd.tape[p] == v);
        lemma_kept_step(ops, c, dd);
        let op = ops[h];
        assert(f > 0);
        if op.operator == Op::Acp {
            if input.len() > 0 {
                let c1 = read_spec(c, Some(input[0]));
                let d1 = read_spec(dd, Some(input[0]));
                let g1 = lemma_sim(ops, c1, d1, input.drop_first(), (f - 1) as nat);
                g1 + 1
            } else {
                let c1 = read_spec(c, None);
                let d1 = read_spec(dd, None);
                let g1 = lemma_sim(ops, c1, d1, input, (f - 1) as nat);
                g1 + 1
            }
        } else {
            match step_spec(ops, c) {
                Err(e) => {
                    1
                },
                Ok(c1) => {
                    let d1 = step_spec(o, dd)->Ok_0;
                    let g1 = lemma_sim(ops, c1, d1, input, (f - 1) as nat);
                    g1 + 1
                },
            }
        }
}

/// Whenever running a stream from a fresh machine ends within `fuel` steps,
/// halting or failing, the optimized stream, run on the same input, ends the
/// same way and writes the same bytes. The one exception is a run that
/// reaches a multiply-move loop with a zero counter whose offset lies off
/// the tape: the loop is passed over, while its rewrite fails.
pub proof fn optimize_preserves_output(ops: Seq<Operation>, input: Seq<u8>, fuel: nat)
    requires
        well_formed(ops),
        safe(ops, start_cfg(), input, fuel),
        run_spec(ops, start_cfg(), input, fuel).status != Status::Unfinished,
    ensures
        exists|steps: nat|
            {
                &&& #[trigger] run_spec(optimized(ops), start_cfg(), input, steps).status
                    == run_spec(ops, start_cfg(), input, fuel).status
                &&& run_spec(optimized(ops), start_cfg(), input, steps).output
                    == run_spec(ops, start_cfg(), input, fuel).output
            },
{
    let c = start_cfg();
    assert(reaches(ops, 0, 0));
    assert(new_index(ops, 0) == 0);
    assert(related(ops, c, c));
    let g = lemma_sim(ops, c, c, input, fuel);
}

} // verus!
