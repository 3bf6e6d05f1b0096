//! The peephole pass that rewrites clear loops and multiply-move loops.
use vstd::prelude::*;
use crate::ops::{is_jump, jump_ok, well_formed, BfStr, Op, Operation};

verus! {

/// The number of instructions strictly between the `Jpf` at `i` and its
/// `Jpb`, as the two jump operands give it.
pub open spec fn body_len(ops: Seq<Operation>, i: int) -> int {
    ops[i].operand - ops[ops[i].operand - 1].operand - 1
}

/// A clear loop `[-]` starts at `i`.
pub open spec fn clear_at(ops: Seq<Operation>, i: int) -> bool {
    &&& 0 <= i && i + 3 <= ops.len()
    &&& ops[i].operator == Op::Jpf
    &&& body_len(ops, i) == 1
    &&& ops[i + 1].operator == Op::Upd
    &&& ops[i + 1].operand == -1
}

/// A multiply-move loop `[>+<-]` (any shift, any positive factor) starts at `i`.
pub open spec fn mul_at(ops: Seq<Operation>, i: int) -> bool {
    &&& 0 <= i && i + 6 <= ops.len()
    &&& ops[i].operator == Op::Jpf
    &&& body_len(ops, i) == 4
    &&& ops[i + 1].operator == Op::Shf
    &&& ops[i + 2].operator == Op::Upd
    &&& ops[i + 3].operator == Op::Shf
    &&& ops[i + 4].operator == Op::Upd
    &&& ops[i + 1].operand == -ops[i + 3].operand
    &&& ops[i + 2].operand > 0
    &&& ops[i + 4].operand == -1
}

/// What the pass emits for the instructions from `i` on, jumps still holding
/// their old operands.
pub open spec fn opt_from(ops: Seq<Operation>, i: int) -> Seq<Operation>
    decreases ops.len() - i,
{
    if i < 0 || i >= ops.len() {
        Seq::empty()
    } else if clear_at(ops, i) {
        seq![Operation { operator: Op::Asg, operand: 0 }] + opt_from(ops, i + 3)
    } else if mul_at(ops, i) {
        seq![
            Operation { operator: Op::Mul, operand: ops[i + 2].operand },
            Operation { operator: Op::Add, operand: ops[i + 1].operand },
            Operation { operator: Op::Asg, operand: 0 },
        ] + opt_from(ops, i + 6)
    } else {
        seq![ops[i]] + opt_from(ops, i + 1)
    }
}

/// Where the instruction at old position `p` lands in the output.
pub open spec fn new_index(ops: Seq<Operation>, p: int) -> int {
    opt_from(ops, 0).len() - opt_from(ops, p).len()
}

/// A copied jump, pointed at its partner's new place.
pub open spec fn fix(ops: Seq<Operation>, o: Operation) -> Operation {
    if is_jump(o.operator) {
        Operation { operator: o.operator, operand: (new_index(ops, o.operand - 1) + 1) as isize }
    } else {
        o
    }
}

/// The optimized stream.
pub open spec fn optimized(ops: Seq<Operation>) -> Seq<Operation> {
    opt_from(ops, 0).map_values(|o: Operation| fix(ops, o))
}

proof fn lemma_opt_from_len(ops: Seq<Operation>, i: int)
    requires
        0 <= i <= ops.len(),
        well_formed(ops),
    ensures
        opt_from(ops, i).len() <= ops.len() - i,
    decreases ops.len() - i,
{
    if i < ops.len() {
        if clear_at(ops, i) {
            assert(jump_ok(ops, i));
            lemma_opt_from_len(ops, i + 3);
        } else if mul_at(ops, i) {
            assert(jump_ok(ops, i));
            lemma_opt_from_len(ops, i + 6);
        } else {
            lemma_opt_from_len(ops, i + 1);
        }
    }
}

fn is_clear_at(ops: &Vec<Operation>, i: usize) -> (r: bool)
    requires
        well_formed(ops@),
        i < ops@.len(),
        ops@[i as int].operator == Op::Jpf,
    ensures
        r == clear_at(ops@, i as int),
{
    proof {
        assert(jump_ok(ops@, i as int));
    }
    let t = ops[i].operand as usize;
    if ops[i].operand - ops[t - 1].operand - 1 != 1 {
        return false;
    }
    let b = ops[i + 1];
    b.operator == Op::Upd && b.operand == -1
}

fn is_mul_at(ops: &Vec<Operation>, i: usize) -> (r: bool)
    requires
        well_formed(ops@),
        i < ops@.len(),
        ops@[i as int].operator == Op::Jpf,
    ensures
        r == mul_at(ops@, i as int),
{
    proof {
        assert(jump_ok(ops@, i as int));
    }
    let t = ops[i].operand as usize;
    if ops[i].operand - ops[t - 1].operand - 1 != 4 {
        return false;
    }
    let a = ops[i + 1];
    let b = ops[i + 2];
    let c = ops[i + 3];
    let d = ops[i + 4];
    a.operator == Op::Shf && b.operator == Op::Upd && c.operator == Op::Shf && d.operator
        == Op::Upd && a.operand as i128 == -(c.operand as i128) && b.operand > 0 && d.operand
        == -1
}

/// What an emitted `Jpf` holds until the pass reaches its `Jpb`.
spec fn placeholder() -> Operation {
    Operation { operator: Op::Jpf, operand: 0 }
}

impl BfStr {
    /// Rewrites each clear loop `[-]` into `Asg 0`, and each multiply-move
    /// loop `[>n +m <n -]` into `Mul m`, `Add n`, `Asg 0`; everything else is
    /// copied, its jumps pointed at their partners' new places.
    #[verifier::rlimit(100)]
    #[verifier::spinoff_prover]
    pub fn optimize(&self) -> (r: BfStr)
        requires
            well_formed(self.ops@),
        ensures
            r.ops@ == optimized(self.ops@),
            well_formed(r.ops@),
    {
        let ops = &self.ops;
        let n = ops.len();
        let mut out: Vec<Operation> = Vec::new();
        let mut new_at: Vec<usize> = Vec::new();
        while new_at.len() < n
            invariant
                new_at@.len() <= n,
            decreases n - new_at@.len(),
        {
            new_at.push(0);
        }
        let ghost raw: Seq<Operation> = Seq::empty();
        let ghost origin: Seq<int> = Seq::empty();
        let mut pos: usize = 0;
        proof {
            lemma_opt_from_len(ops@, 0);
        }
        while pos < n
            invariant
                n == ops@.len(),
                well_formed(ops@),
                new_at@.len() == n,
                pos <= n,
                out@.len() == raw.len(),
                origin.len() == raw.len(),
                forall|k: int|
                    0 <= k < raw.len() && is_jump(#[trigger] raw[k].operator) ==> {
                        &&& 0 <= origin[k] < pos
                        &&& raw[k] == ops@[origin[k]]
                        &&& raw[k].operator == Op::Jpf ==> {
                            &&& new_at@[origin[k]] == k
                            &&& !clear_at(ops@, origin[k])
                            &&& !mul_at(ops@, origin[k])
                        }
                    },
                out@.len() <= pos,
                opt_from(ops@, 0) == raw + opt_from(ops@, pos as int),
                forall|h: int| 0 <= h < pos && #[trigger] clear_at(ops@, h) ==> h + 3 <= pos,
                forall|h: int| 0 <= h < pos && #[trigger] mul_at(ops@, h) ==> h + 6 <= pos,
                forall|p: int|
                    0 <= p < pos && ops@[p].operator == Op::Jpf && !clear_at(ops@, p) && !mul_at(ops@, p)
                        ==> {
                        &&& #[trigger] new_at@[p] < out@.len()
                        &&& raw[new_at@[p] as int] == ops@[p]
                        &&& new_at@[p] == new_index(ops@, p)
                    },
                forall|k: int| 0 <= k < out@.len() && !is_jump(raw[k].operator) ==> #[trigger] out@[k] == raw[k],
                forall|k: int|
                    0 <= k < out@.len() && raw[k].operator == Op::Jpb ==> {
                        &&& #[trigger] out@[k] == fix(ops@, raw[k])
                        &&& jump_ok(out@, k)
                    },
                forall|k: int|
                    0 <= k < out@.len() && raw[k].operator == Op::Jpf ==> {
                        &&& 1 <= raw[k].operand <= n
                        &&& raw[k].operand - 1 < pos ==> #[trigger] out@[k] == fix(ops@, raw[k]) && jump_ok(out@, k)
                        &&& raw[k].operand - 1 >= pos ==> out@[k] == placeholder()
                    },
            decreases n - pos,
        {
            let op = ops[pos];
            let ghost old_out = out@;
            let ghost old_raw = raw;
            proof {
                assert(jump_ok(ops@, pos as int));
                lemma_opt_from_len(ops@, pos as int);
            }
            if op.operator == Op::Jpf && is_clear_at(ops, pos) {
                let o = Operation { operator: Op::Asg, operand: 0 };
                out.push(o);
                proof {
                    raw = raw.push(o);
                    origin = origin.push(0);
                    assert(opt_from(ops@, 0) =~= raw + opt_from(ops@, pos + 3));
                    assert forall|k: int| 0 <= k < out@.len() && raw[k].operator == Op::Jpb implies
                        #[trigger] out@[k] == fix(ops@, raw[k]) && jump_ok(out@, k) by {
                        assert(jump_ok(old_out, k));
                    }
                    assert forall|k: int| 0 <= k < out@.len() && raw[k].operator == Op::Jpf implies
                        (raw[k].operand - 1 < pos + 3 ==> #[trigger] out@[k] == fix(ops@, raw[k]) && jump_ok(out@, k)) by {
                        if raw[k].operand - 1 < pos + 3 {
                            assert(jump_ok(ops@, origin[k]));
                            assert(raw[k].operand - 1 < pos);
                            assert(jump_ok(old_out, k));
                        }
                    }
                }
                pos = pos + 3;
            } else if op.operator == Op::Jpf && is_mul_at(ops, pos) {
                let a = Operation { operator: Op::Mul, operand: ops[pos + 2].operand };
                let b = Operation { operator: Op::Add, operand: ops[pos + 1].operand };
                let c = Operation { operator: Op::Asg, operand: 0 };
                out.push(a);
                out.push(b);
                out.push(c);
                proof {
                    raw = raw.push(a).push(b).push(c);
                    origin = origin.push(0).push(0).push(0);
                    assert(opt_from(ops@, 0) =~= raw + opt_from(ops@, pos + 6));
                    assert forall|k: int| 0 <= k < out@.len() && raw[k].operator == Op::Jpb implies
                        #[trigger] out@[k] == fix(ops@, raw[k]) && jump_ok(out@, k) by {
                        assert(jump_ok(old_out, k));
                    }
                    assert forall|k: int| 0 <= k < out@.len() && raw[k].operator == Op::Jpf implies
                        (raw[k].operand - 1 < pos + 6 ==> #[trigger] out@[k] == fix(ops@, raw[k]) && jump_ok(out@, k)) by {
                        if raw[k].operand - 1 < pos + 6 {
                            assert(jump_ok(ops@, origin[k]));
                            assert(raw[k].operand - 1 < pos);
                            assert(jump_ok(old_out, k));
                        }
                    }
                }
                pos = pos + 6;
            } else if op.operator == Op::Jpf {
                let l = out.len();
                new_at.set(pos, l);
                out.push(Operation { operator: Op::Jpf, operand: 0 });
                proof {
                    raw = raw.push(op);
                    origin = origin.push(pos as int);
                    assert(opt_from(ops@, 0) =~= raw + opt_from(ops@, pos + 1));
                    assert forall|k: int| 0 <= k < out@.len() && raw[k].operator == Op::Jpb implies
                        #[trigger] out@[k] == fix(ops@, raw[k]) && jump_ok(out@, k) by {
                        assert(jump_ok(old_out, k));
                    }
                    assert forall|k: int| 0 <= k < old_out.len() && raw[k].operator == Op::Jpf implies
                        (raw[k].operand - 1 < pos + 1 ==> #[trigger] out@[k] == fix(ops@, raw[k]) && jump_ok(out@, k)) by {
                        if raw[k].operand - 1 < pos + 1 {
                            assert(jump_ok(ops@, origin[k]));
                            assert(jump_ok(old_out, k));
                        }
                    }
                }
                pos = pos + 1;
            } else if op.operator == Op::Jpb {
                let i = (op.operand - 1) as usize;
                proof {
                    assert(jump_ok(ops@, i as int));
                    assert(!clear_at(ops@, i as int));
                    assert(!mul_at(ops@, i as int));
                }
                let fi = new_at[i];
                let l = out.len();
                proof {
                    assert(old_out[fi as int] == placeholder());
                }
                out.push(Operation { operator: Op::Jpb, operand: (fi + 1) as isize });
                out.set(fi, Operation { operator: Op::Jpf, operand: (l + 1) as isize });
                proof {
                    raw = raw.push(op);
                    origin = origin.push(pos as int);
                    assert(opt_from(ops@, 0) =~= raw + opt_from(ops@, pos + 1));
                    assert(jump_ok(out@, l as int));
                    assert(jump_ok(out@, fi as int));
                    assert forall|k: int| 0 <= k < old_out.len() && raw[k].operator == Op::Jpb implies
                        #[trigger] out@[k] == fix(ops@, raw[k]) && jump_ok(out@, k) by {
                        assert(jump_ok(old_out, k));
                    }
                    assert forall|k: int| 0 <= k < old_out.len() && raw[k].operator == Op::Jpf implies
                        (raw[k].operand - 1 < pos + 1 ==> #[trigger] out@[k] == fix(ops@, raw[k]) && jump_ok(out@, k))
                        && (raw[k].operand - 1 >= pos + 1 ==> out@[k] == placeholder()) by {
                        assert(jump_ok(ops@, origin[k]));
                        if k != fi {
                            if raw[k].operand - 1 == pos {
                                assert(origin[k] == i);
                            }
                            if raw[k].operand - 1 < pos {
                                assert(jump_ok(old_out, k));
                            }
                        }
                    }
                }
                pos = pos + 1;
            } else {
                out.push(op);
                proof {
                    raw = raw.push(op);
                    origin = origin.push(pos as int);
                    assert(opt_from(ops@, 0) =~= raw + opt_from(ops@, pos + 1));
                    assert forall|k: int| 0 <= k < out@.len() && raw[k].operator == Op::Jpb implies
                        #[trigger] out@[k] == fix(ops@, raw[k]) && jump_ok(out@, k) by {
                        assert(jump_ok(old_out, k));
                    }
                    assert forall|k: int| 0 <= k < old_out.len() && raw[k].operator == Op::Jpf implies
                        (raw[k].operand - 1 < pos + 1 ==> #[trigger] out@[k] == fix(ops@, raw[k]) && jump_ok(out@, k)) by {
                        if raw[k].operand - 1 < pos + 1 {
                            assert(jump_ok(ops@, origin[k]));
                            assert(jump_ok(old_out, k));
                        }
                    }
                }
                pos = pos + 1;
            }
        }
        proof {
            assert(opt_from(ops@, n as int) =~= Seq::<Operation>::empty());
            assert(raw =~= opt_from(ops@, 0));
            assert(out@ =~= optimized(ops@));
        }
        BfStr { ops: out }
    }
}

/// A loop that the pass rewrites starts at `i`.
pub open spec fn head(ops: Seq<Operation>, i: int) -> bool {
    clear_at(ops, i) || mul_at(ops, i)
}

/// The position the pass goes on from after position `i`.
pub open spec fn next_pos(ops: Seq<Operation>, i: int) -> int {
    if clear_at(ops, i) {
        i + 3
    } else if mul_at(ops, i) {
        i + 6
    } else {
        i + 1
    }
}

/// Scanning from position `p`, the pass stops at position `q`.
pub open spec fn reaches(ops: Seq<Operation>, p: int, q: int) -> bool
    decreases ops.len() - p,
{
    if p == q {
        true
    } else if 0 <= p < q && p < ops.len() {
        reaches(ops, next_pos(ops, p), q)
    } else {
        false
    }
}

proof fn lemma_reach_split(ops: Seq<Operation>, p: int, q: int)
    requires
        0 <= p,
        reaches(ops, p, q),
    ensures
        p <= q,
        p < q ==> q <= ops.len(),
        opt_from(ops, p).len() >= opt_from(ops, q).len(),
        p < q ==> opt_from(ops, p).len() > opt_from(ops, q).len(),
        opt_from(ops, p).skip(opt_from(ops, p).len() - opt_from(ops, q).len()) == opt_from(ops, q),
    decreases ops.len() - p,
{
    if p == q {
        assert(opt_from(ops, p).skip(0) =~= opt_from(ops, p));
    } else {
        let n = next_pos(ops, p);
        lemma_reach_split(ops, n, q);
        let a = opt_from(ops, p);
        let b = opt_from(ops, n);
        let e = a.len() - b.len();
        assert(a.skip(e) =~= b);
        assert(a.skip(a.len() - opt_from(ops, q).len()) =~= b.skip(b.len() - opt_from(ops, q).len()));
    }
}

proof fn lemma_reach_trans(ops: Seq<Operation>, a: int, b: int, c: int)
    requires
        0 <= a,
        reaches(ops, a, b),
        reaches(ops, b, c),
    ensures
        reaches(ops, a, c),
    decreases ops.len() - a,
{
    lemma_reach_split(ops, a, b);
    lemma_reach_split(ops, b, c);
    if a != b {
        lemma_reach_trans(ops, next_pos(ops, a), b, c);
    }
}

proof fn lemma_reach_order(ops: Seq<Operation>, a: int, b: int, c: int)
    requires
        0 <= a,
        reaches(ops, a, b),
        reaches(ops, a, c),
        b <= c,
    ensures
        reaches(ops, b, c),
    decreases ops.len() - a,
{
    lemma_reach_split(ops, a, b);
    lemma_reach_split(ops, a, c);
    if a != b {
        lemma_reach_order(ops, next_pos(ops, a), b, c);
    }
}

/// The pass cannot pass over `q` when no rewritten loop from `p` on spans it.
proof fn lemma_reach_free(ops: Seq<Operation>, p: int, q: int)
    requires
        0 <= p <= q <= ops.len(),
        forall|h: int| p <= h < q && #[trigger] head(ops, h) ==> next_pos(ops, h) <= q,
    ensures
        reaches(ops, p, q),
    decreases q - p,
{
    if p < q {
        if head(ops, p) {
            assert(next_pos(ops, p) <= q);
        }
        lemma_reach_free(ops, next_pos(ops, p), q);
    }
}

/// A rewritten loop spans no jump but its own two.
proof fn lemma_head_window(ops: Seq<Operation>, h: int, x: int)
    requires
        well_formed(ops),
        0 <= h,
        head(ops, h),
        h < x < next_pos(ops, h) - 1,
    ensures
        !is_jump(ops[x].operator),
{
}

/// Every `Jpf` is a position the pass stops at.
proof fn lemma_reach_jpf(ops: Seq<Operation>, i: int)
    requires
        well_formed(ops),
        0 <= i < ops.len(),
        ops[i].operator == Op::Jpf,
    ensures
        reaches(ops, 0, i),
{
    assert forall|h: int| 0 <= h < i && #[trigger] head(ops, h) implies next_pos(ops, h) <= i by {
        assert(jump_ok(ops, h));
        if next_pos(ops, h) > i {
            if i < next_pos(ops, h) - 1 {
                lemma_head_window(ops, h, i);
            }
        }
    }
    lemma_reach_free(ops, 0, i);
}

/// Every jump that the pass emits is a copy of the jump at a position the
/// pass stops at.
proof fn lemma_origin(ops: Seq<Operation>, p: int, k: int) -> (i: int)
    requires
        0 <= p <= ops.len(),
        0 <= k < opt_from(ops, p).len(),
        is_jump(opt_from(ops, p)[k].operator),
    ensures
        reaches(ops, p, i),
        p <= i < ops.len(),
        !head(ops, i),
        opt_from(ops, p)[k] == ops[i],
        opt_from(ops, p).skip(k) == opt_from(ops, i),
    decreases ops.len() - p,
{
    let a = opt_from(ops, p);
    let n = next_pos(ops, p);
    let b = opt_from(ops, n);
    let e = a.len() - b.len();
    if head(ops, p) {
        assert(k >= e);
        assert(b[k - e] == a[k]);
        let i = lemma_origin(ops, n, k - e);
        assert(a.skip(k) =~= b.skip(k - e));
        i
    } else if k == 0 {
        assert(a.skip(0) =~= a);
        p
    } else {
        assert(b[k - 1] == a[k]);
        let i = lemma_origin(ops, n, k - 1);
        assert(a.skip(k) =~= b.skip(k - 1));
        i
    }
}

/// A position the pass stops at, outside any rewritten loop, lands at its
/// new index as a copy.
proof fn lemma_landing(ops: Seq<Operation>, i: int)
    requires
        reaches(ops, 0, i),
        0 <= i < ops.len(),
        !head(ops, i),
    ensures
        0 <= new_index(ops, i) < opt_from(ops, 0).len(),
        opt_from(ops, 0)[new_index(ops, i)] == ops[i],
        opt_from(ops, 0).skip(new_index(ops, i)) == opt_from(ops, i),
{
    lemma_reach_split(ops, 0, i);
    let a = opt_from(ops, 0);
    assert(a.skip(new_index(ops, i))[0] == a[new_index(ops, i)]);
}

/// The `Jpb` of a `Jpf` that is kept is reached too.
proof fn lemma_partner_reach(ops: Seq<Operation>, i: int)
    requires
        well_formed(ops),
        0 <= i < ops.len(),
        ops[i].operator == Op::Jpf,
        !head(ops, i),
    ensures
        reaches(ops, i, ops[i].operand - 1),
        reaches(ops, 0, ops[i].operand - 1),
{
    assert(jump_ok(ops, i));
    let j = ops[i].operand - 1;
    assert forall|h: int| i <= h < j && #[trigger] head(ops, h) implies next_pos(ops, h) <= j by {
        assert(jump_ok(ops, h));
        if next_pos(ops, h) > j {
            if next_pos(ops, h) - 1 > j {
                lemma_head_window(ops, h, j);
            }
        }
    }
    lemma_reach_free(ops, i, j);
    lemma_reach_jpf(ops, i);
    lemma_reach_trans(ops, 0, i, j);
}

proof fn lemma_index_inj(ops: Seq<Operation>, a: int, b: int)
    requires
        reaches(ops, 0, a),
        reaches(ops, 0, b),
        0 <= a < b,
    ensures
        new_index(ops, a) < new_index(ops, b),
{
    lemma_reach_order(ops, 0, a, b);
    lemma_reach_split(ops, a, b);
}

/// The optimized stream is well formed: its jumps are resolved.
pub proof fn optimized_well_formed(ops: Seq<Operation>)
    requires
        well_formed(ops),
    ensures
        well_formed(optimized(ops)),
{
    let raw = opt_from(ops, 0);
    let o = optimized(ops);
    lemma_opt_from_len(ops, 0);
    assert forall|k: int| 0 <= k < o.len() implies #[trigger] jump_ok(o, k) by {
        if is_jump(raw[k].operator) {
            let x = lemma_origin(ops, 0, k);
            assert(raw.skip(k).len() == raw.len() - k);
            assert(new_index(ops, x) == k);
            assert(jump_ok(ops, x));
            if ops[x].operator == Op::Jpf {
                let j = ops[x].operand - 1;
                lemma_partner_reach(ops, x);
                lemma_landing(ops, j);
                lemma_index_inj(ops, x, j);
                assert(o[new_index(ops, j)] == fix(ops, ops[j]));
            } else {
                let i = ops[x].operand - 1;
                lemma_reach_jpf(ops, i);
                if head(ops, i) {
                    lemma_reach_order(ops, 0, i, x);
                    lemma_reach_split(ops, next_pos(ops, i), x);
                }
                lemma_landing(ops, i);
                lemma_index_inj(ops, i, x);
                assert(o[new_index(ops, i)] == fix(ops, ops[i]));
            }
        }
    }
}

/// The output holds no loop that the pass would rewrite.
proof fn lemma_no_head_in_output(ops: Seq<Operation>, k: int)
    requires
        well_formed(ops),
        0 <= k < optimized(ops).len(),
    ensures
        !head(optimized(ops), k),
{
    let raw = opt_from(ops, 0);
    let o = optimized(ops);
    optimized_well_formed(ops);
    if head(o, k) {
        assert(jump_ok(o, k));
        let i = lemma_origin(ops, 0, k);
        assert(raw.skip(k).len() == raw.len() - k);
        assert(new_index(ops, i) == k);
        assert(jump_ok(ops, i));
        let j = ops[i].operand - 1;
        lemma_partner_reach(ops, i);
        lemma_reach_jpf(ops, i);
        // the entries after the jump come from the positions right after it
        let r = opt_from(ops, i);
        assert(r == raw.skip(k));
        lemma_opt_from_len(ops, 0);
        lemma_landing(ops, j);
        assert(o[k] == fix(ops, ops[i]));
        assert(new_index(ops, j) == o[k].operand - 1);
        assert(o[k + 1].operator == raw[k + 1].operator);
        assert(r[1] == raw[k + 1]);
        assert(raw[k + 1] == o[k + 1]);
        assert(opt_from(ops, i + 1)[0] == r[1]);
        assert(!head(ops, i + 1));
        assert(ops[i + 1] == o[k + 1]);
        assert(i + 1 < j);
        assert(next_pos(ops, i + 1) == i + 2);
        assert(reaches(ops, i + 2, i + 2));
        assert(reaches(ops, i + 1, i + 2));
        assert(next_pos(ops, i) == i + 1);
        assert(reaches(ops, i + 1, i + 1));
        assert(reaches(ops, i, i + 1));
        if clear_at(o, k) {
            assert(o[k].operand == k + 3);
            lemma_reach_trans(ops, i, i + 1, i + 2);
            lemma_reach_order(ops, i, i + 2, j);
            lemma_reach_split(ops, i + 2, j);
            assert(opt_from(ops, i + 2).len() == r.len() - 2);
            assert(j == i + 2);
            assert(clear_at(ops, i));
        } else {
            assert(o[k].operand == k + 6);
            assert(o[k + 2].operator == raw[k + 2].operator);
            assert(o[k + 3].operator == raw[k + 3].operator);
            assert(o[k + 4].operator == raw[k + 4].operator);
            assert(r[2] == raw[k + 2] && raw[k + 2] == o[k + 2]);
            assert(r[3] == raw[k + 3] && raw[k + 3] == o[k + 3]);
            assert(r[4] == raw[k + 4] && raw[k + 4] == o[k + 4]);
            assert(opt_from(ops, i + 1)[1] == r[2]);
            assert(opt_from(ops, i + 2)[0] == r[2]);
            assert(!head(ops, i + 2));
            assert(ops[i + 2] == o[k + 2]);
            assert(i + 2 < j);
            assert(next_pos(ops, i + 2) == i + 3);
            assert(reaches(ops, i + 3, i + 3));
            assert(reaches(ops, i + 2, i + 3));
            assert(opt_from(ops, i + 2)[1] == r[3]);
            assert(opt_from(ops, i + 3)[0] == r[3]);
            assert(!head(ops, i + 3));
            assert(ops[i + 3] == o[k + 3]);
            assert(i + 3 < j);
            assert(next_pos(ops, i + 3) == i + 4);
            assert(reaches(ops, i + 4, i + 4));
            assert(reaches(ops, i + 3, i + 4));
            assert(opt_from(ops, i + 3)[1] == r[4]);
            assert(opt_from(ops, i + 4)[0] == r[4]);
            assert(!head(ops, i + 4));
            assert(ops[i + 4] == o[k + 4]);
            assert(i + 4 < j);
            assert(next_pos(ops, i + 4) == i + 5);
            assert(reaches(ops, i + 5, i + 5));
            assert(reaches(ops, i + 4, i + 5));
            lemma_reach_trans(ops, i + 3, i + 4, i + 5);
            lemma_reach_trans(ops, i + 2, i + 3, i + 5);
            lemma_reach_trans(ops, i + 1, i + 2, i + 5);
            lemma_reach_trans(ops, i, i + 1, i + 5);
            lemma_reach_order(ops, i, i + 5, j);
            lemma_reach_split(ops, i + 5, j);
            assert(opt_from(ops, i + 5).len() == r.len() - 5);
            assert(j == i + 5);
            assert(mul_at(ops, i));
        }
    }
}

proof fn lemma_opt_from_plain(o: Seq<Operation>, p: int)
    requires
        0 <= p <= o.len(),
        forall|k: int| 0 <= k < o.len() ==> !#[trigger] head(o, k),
    ensures
        opt_from(o, p) == o.skip(p),
    decreases o.len() - p,
{
    if p < o.len() {
        assert(!head(o, p));
        lemma_opt_from_plain(o, p + 1);
        assert(o.skip(p) =~= seq![o[p]] + o.skip(p + 1));
    } else {
        assert(o.skip(p) =~= Seq::<Operation>::empty());
    }
}

/// Optimizing an optimized stream changes nothing: the pass leaves no loop
/// behind that it would rewrite, and its compound instructions are never
/// part of one.
pub proof fn optimize_idempotent(ops: Seq<Operation>)
    requires
        well_formed(ops),
    ensures
        optimized(optimized(ops)) == optimized(ops),
{
    let o = optimized(ops);
    optimized_well_formed(ops);
    assert forall|k: int| 0 <= k < o.len() implies !#[trigger] head(o, k) by {
        lemma_no_head_in_output(ops, k);
    }
    assert forall|p: int| 0 <= p <= o.len() implies #[trigger] opt_from(o, p) == o.skip(p) by {
        lemma_opt_from_plain(o, p);
    }
    assert(opt_from(o, 0) =~= o);
    assert forall|k: int| 0 <= k < o.len() implies #[trigger] fix(o, o[k]) == o[k] by {
        assert(jump_ok(o, k));
        if is_jump(o[k].operator) {
            let x = o[k].operand - 1;
            assert(opt_from(o, x) == o.skip(x));
        }
    }
    assert(optimized(o) =~= o);
}

proof fn lemma_step_index(ops: Seq<Operation>, i: int)
    requires
        reaches(ops, 0, i),
        0 <= i < ops.len(),
        !head(ops, i),
    ensures
        reaches(ops, 0, i + 1),
        new_index(ops, i + 1) == new_index(ops, i) + 1,
{
    lemma_landing(ops, i);
    assert(next_pos(ops, i) == i + 1);
    assert(reaches(ops, i + 1, i + 1));
    assert(reaches(ops, i, i + 1));
    lemma_reach_trans(ops, 0, i, i + 1);
}

/// Each instruction that the pass keeps lands at its new index, unchanged
/// but for a jump, which is aimed at the new index of its old target; the
/// instruction after it lands right after it.
pub proof fn kept_instruction_lands(ops: Seq<Operation>, i: int)
    requires
        well_formed(ops),
        0 <= i < ops.len(),
        reaches(ops, 0, i),
        !head(ops, i),
    ensures
        0 <= new_index(ops, i) < optimized(ops).len(),
        optimized(ops)[new_index(ops, i)].operator == ops[i].operator,
        !is_jump(ops[i].operator) ==> optimized(ops)[new_index(ops, i)] == ops[i],
        is_jump(ops[i].operator) ==> {
            &&& reaches(ops, 0, ops[i].operand as int)
            &&& optimized(ops)[new_index(ops, i)].operand == new_index(ops, ops[i].operand as int)
        },
        reaches(ops, 0, i + 1),
        new_index(ops, i + 1) == new_index(ops, i) + 1,
{
    lemma_landing(ops, i);
    lemma_step_index(ops, i);
    lemma_opt_from_len(ops, 0);
    assert(jump_ok(ops, i));
    if ops[i].operator == Op::Jpf {
        let j = ops[i].operand - 1;
        lemma_partner_reach(ops, i);
        lemma_step_index(ops, j);
        lemma_landing(ops, j);
        assert(optimized(ops)[new_index(ops, i)] == fix(ops, ops[i]));
    } else if ops[i].operator == Op::Jpb {
        let p = ops[i].operand - 1;
        lemma_reach_jpf(ops, p);
        if head(ops, p) {
            lemma_reach_order(ops, 0, p, i);
            lemma_reach_split(ops, next_pos(ops, p), i);
        }
        lemma_step_index(ops, p);
        lemma_landing(ops, p);
        assert(optimized(ops)[new_index(ops, i)] == fix(ops, ops[i]));
    }
}

/// A loop that the pass rewrites lands as its compound instructions at its
/// new index, and the instruction after the loop lands right after them.
pub proof fn rewritten_loop_lands(ops: Seq<Operation>, h: int)
    requires
        well_formed(ops),
        reaches(ops, 0, h),
        head(ops, h),
    ensures
        reaches(ops, 0, next_pos(ops, h)),
        0 <= new_index(ops, h) < new_index(ops, next_pos(ops, h)) <= optimized(ops).len(),
        clear_at(ops, h) ==> {
            &&& new_index(ops, h + 3) == new_index(ops, h) + 1
            &&& optimized(ops)[new_index(ops, h)] == (Operation { operator: Op::Asg, operand: 0 })
        },
        mul_at(ops, h) ==> {
            &&& new_index(ops, h + 6) == new_index(ops, h) + 3
            &&& optimized(ops)[new_index(ops, h)] == (Operation { operator: Op::Mul, operand: ops[h + 2].operand })
            &&& optimized(ops)[new_index(ops, h) + 1] == (Operation { operator: Op::Add, operand: ops[h + 1].operand })
            &&& optimized(ops)[new_index(ops, h) + 2] == (Operation { operator: Op::Asg, operand: 0 })
        },
{
    assert(jump_ok(ops, h));
    let n = next_pos(ops, h);
    assert(reaches(ops, n, n));
    assert(reaches(ops, h, n));
    lemma_reach_trans(ops, 0, h, n);
    lemma_reach_split(ops, 0, h);
    let raw = opt_from(ops, 0);
    let k = new_index(ops, h);
    assert(raw.skip(k) == opt_from(ops, h));
    assert(raw[k] == opt_from(ops, h)[0]);
    lemma_reach_split(ops, h, n);
    if mul_at(ops, h) {
        assert(raw[k + 1] == opt_from(ops, h)[1]);
        assert(raw[k + 2] == opt_from(ops, h)[2]);
    }
}

} // verus!
