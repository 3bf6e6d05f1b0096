//! From source text to a run-length encoded instruction stream.
use vstd::prelude::*;
use crate::ops::{inside, is_jump, nested, well_formed, jump_ok, BfError, BfStr, Op, Operation};

verus! {

/// One of the eight Brainfuck commands; everything else is a comment.
pub open spec fn is_command(c: char) -> bool {
    c == '+' || c == '-' || c == ',' || c == '.' || c == '>' || c == '<' || c == '[' || c == ']'
}

/// A command whose repeats collapse into one instruction.
pub open spec fn is_run_command(c: char) -> bool {
    c == '+' || c == '-' || c == ',' || c == '.' || c == '>' || c == '<'
}

/// A command whose run length is stored negated.
pub open spec fn is_negative(c: char) -> bool {
    c == '-' || c == '<'
}

pub open spec fn op_of(c: char) -> Op {
    if c == '+' || c == '-' {
        Op::Upd
    } else if c == ',' {
        Op::Acp
    } else if c == '.' {
        Op::Out
    } else if c == '>' || c == '<' {
        Op::Shf
    } else if c == '[' {
        Op::Jpf
    } else {
        Op::Jpb
    }
}

/// The run of `c` that starts at `i`: how many copies of `c` it holds, and how
/// many comment characters between them it passes over. The run ends at the
/// first other command or at the end of the text.
pub open spec fn run_of(s: Seq<char>, i: int, c: char) -> (nat, nat)
    decreases s.len() - i,
{
    if i < 0 || i >= s.len() {
        (0, 0)
    } else if s[i] == c {
        let r = run_of(s, i + 1, c);
        (r.0 + 1, r.1)
    } else if !is_command(s[i]) {
        let r = run_of(s, i + 1, c);
        (r.0, r.1 + 1)
    } else {
        (0, 0)
    }
}

/// The instructions that parsing the text from `i` on yields, with every jump
/// operand left at zero (the jumps are resolved separately).
pub open spec fn rle_from(s: Seq<char>, i: int) -> Seq<Operation>
    decreases s.len() - i,
    via rle_from_decreases
{
    if i < 0 || i >= s.len() {
        Seq::empty()
    } else if is_run_command(s[i]) {
        let r = run_of(s, i, s[i]);
        let n = r.0 as int;
        let operand = if is_negative(s[i]) { -n } else { n };
        seq![Operation { operator: op_of(s[i]), operand: operand as isize }]
            + rle_from(s, i + r.0 + r.1)
    } else if s[i] == '[' || s[i] == ']' {
        seq![Operation { operator: op_of(s[i]), operand: 0 }] + rle_from(s, i + 1)
    } else {
        rle_from(s, i + 1)
    }
}

#[via_fn]
proof fn rle_from_decreases(s: Seq<char>, i: int) {
    if 0 <= i < s.len() && is_run_command(s[i]) {
        lemma_run_bound(s, i + 1, s[i]);
    }
}

/// The instruction stream of the text, jump operands left at zero.
pub open spec fn rle(s: Seq<char>) -> Seq<Operation> {
    rle_from(s, 0)
}

/// An instruction with its jump operand, if any, cleared.
pub open spec fn shape_of(o: Operation) -> Operation {
    if is_jump(o.operator) {
        Operation { operator: o.operator, operand: 0 }
    } else {
        o
    }
}

/// The stream with every jump operand cleared.
pub open spec fn shape(ops: Seq<Operation>) -> Seq<Operation> {
    ops.map_values(|o: Operation| shape_of(o))
}

/// Scanning from `i` with `d` loops open, every `]` closes an open loop and
/// no loop is left open at the end.
pub open spec fn balanced_from(s: Seq<char>, i: int, d: nat) -> bool
    decreases s.len() - i,
{
    if i < 0 || i >= s.len() {
        d == 0
    } else if s[i] == '[' {
        balanced_from(s, i + 1, d + 1)
    } else if s[i] == ']' {
        d > 0 && balanced_from(s, i + 1, (d - 1) as nat)
    } else {
        balanced_from(s, i + 1, d)
    }
}

/// The brackets of the text are balanced.
pub open spec fn balanced(s: Seq<char>) -> bool {
    balanced_from(s, 0, 0)
}

proof fn lemma_run_bound(s: Seq<char>, i: int, c: char)
    requires
        0 <= i <= s.len(),
    ensures
        run_of(s, i, c).0 + run_of(s, i, c).1 <= s.len() - i,
    decreases s.len() - i,
{
    if i < s.len() {
        lemma_run_bound(s, i + 1, c);
    }
}

/// A run lies in the text it was counted in, and counting it in a suffix of
/// the text gives the same result.
proof fn lemma_run_suffix(s: Seq<char>, i: int, j: int, c: char)
    requires
        0 <= i <= j <= s.len(),
    ensures
        run_of(s.subrange(i, s.len() as int), j - i, c) == run_of(s, j, c),
    decreases s.len() - j,
{
    if j < s.len() {
        lemma_run_suffix(s, i, j + 1, c);
    }
}

/// Passing over a run (which holds no bracket) leaves the balance unchanged.
proof fn lemma_run_balance(s: Seq<char>, i: int, c: char, d: nat)
    requires
        0 <= i <= s.len(),
        is_run_command(c),
    ensures
        balanced_from(s, i, d) == balanced_from(s, i + run_of(s, i, c).0 + run_of(s, i, c).1, d),
    decreases s.len() - i,
{
    if i < s.len() {
        lemma_run_balance(s, i + 1, c, d);
    }
}

fn is_command_char(c: char) -> (r: bool)
    ensures
        r == is_command(c),
{
    c == '+' || c == '-' || c == ',' || c == '.' || c == '>' || c == '<' || c == '[' || c == ']'
}

/// Counts the run of `to_match` at the start of `chars`: the copies of it,
/// and the comment characters passed over between them.
pub fn count_step(chars: &[char], to_match: &char) -> (r: (usize, usize))
    ensures
        r.0 == run_of(chars@, 0, *to_match).0,
        r.1 == run_of(chars@, 0, *to_match).1,
{
    let mut count: usize = 0;
    let mut empty: usize = 0;
    let mut i: usize = 0;
    while i < chars.len()
        invariant_except_break
            i <= chars@.len(),
            count + empty == i,
            run_of(chars@, 0, *to_match).0 == count + run_of(chars@, i as int, *to_match).0,
            run_of(chars@, 0, *to_match).1 == empty + run_of(chars@, i as int, *to_match).1,
        ensures
            run_of(chars@, 0, *to_match).0 == count,
            run_of(chars@, 0, *to_match).1 == empty,
        decreases chars@.len() - i,
    {
        let c = chars[i];
        if c == *to_match {
            count = count + 1;
        } else if !is_command_char(c) {
            empty = empty + 1;
        } else {
            break;
        }
        i = i + 1;
    }
    (count, empty)
}

/// Relies on `str::chars` collected into a `Vec`: the characters of the text, in order.
#[verifier::external_body]
fn chars_of(text: &str) -> (r: Vec<char>)
    ensures
        r@ == text@,
{
    text.chars().collect()
}

fn op_for(c: char) -> (r: Op)
    ensures
        r == op_of(c),
{
    if c == '+' || c == '-' {
        Op::Upd
    } else if c == ',' {
        Op::Acp
    } else if c == '.' {
        Op::Out
    } else if c == '>' || c == '<' {
        Op::Shf
    } else if c == '[' {
        Op::Jpf
    } else {
        Op::Jpb
    }
}

impl BfStr {
    /// Parses source text. Runs of `+ - , . > <` collapse into one instruction
    /// each, comments between repeats included; brackets are resolved into
    /// jumps. Fails exactly when the brackets are not balanced.
    pub fn parse(text: &str) -> (r: Result<BfStr, BfError>)
        requires
            text@.len() < isize::MAX,
        ensures
            r is Ok <==> balanced(text@),
            r matches Ok(b) ==> b.wf() && nested(b.ops@) && shape(b.ops@) == rle(text@),
            r matches Err(e) ==> e == BfError::UnbalancedJump,
    {
        let chars = chars_of(text);
        let n = chars.len();
        let mut ops: Vec<Operation> = Vec::new();
        let mut jmp_stack: Vec<usize> = Vec::new();
        let mut pos: usize = 0;
        while pos < n
            invariant
                n == chars@.len(),
                chars@ == text@,
                n < isize::MAX,
                pos <= n,
                ops@.len() <= pos,
                rle(chars@) == shape(ops@) + rle_from(chars@, pos as int),
                balanced(chars@) == balanced_from(chars@, pos as int, jmp_stack@.len()),
                forall|k: int|
                    0 <= k < jmp_stack@.len() ==> {
                        &&& #[trigger] jmp_stack@[k] < ops@.len()
                        &&& ops@[jmp_stack@[k] as int].operator == Op::Jpf
                        &&& ops@[jmp_stack@[k] as int].operand == 0
                    },
                forall|k: int, l: int| 0 <= k < l < jmp_stack@.len() ==> jmp_stack@[k] < jmp_stack@[l],
                nested(ops@),
                forall|q: int, m: int|
                    0 <= q < ops@.len() && ops@[q].operator == Op::Jpb && 0 <= m < jmp_stack@.len()
                        ==> #[trigger] jmp_stack@[m] < (#[trigger] ops@[q]).operand - 1 || jmp_stack@[m] > q,
                forall|i: int|
                    0 <= i < ops@.len() && ops@[i].operator == Op::Jpb ==> #[trigger] jump_ok(ops@, i),
                forall|i: int|
                    0 <= i < ops@.len() && ops@[i].operator == Op::Jpf && !jump_ok(ops@, i)
                        ==> exists|k: int| 0 <= k < jmp_stack@.len() && #[trigger] jmp_stack@[k] == i,
            decreases n - pos,
        {
            let c = chars[pos];
            let ghost old_ops = ops@;
            let ghost old_stack = jmp_stack@;
            if c == '+' || c == '-' || c == ',' || c == '.' || c == '>' || c == '<' {
                let (count, empty) = count_step(&chars.as_slice()[pos..n], &c);
                proof {
                    lemma_run_suffix(chars@, pos as int, pos as int, c);
                    assert(chars@.subrange(pos as int, n as int) == chars@.subrange(pos as int, chars@.len() as int));
                    lemma_run_bound(chars@, pos as int, c);
                    lemma_run_balance(chars@, pos as int, c, jmp_stack@.len());
                    assert(run_of(chars@, pos as int, c).0 >= 1);
                }
                let operand: isize = if c == '-' || c == '<' {
                    -(count as isize)
                } else {
                    count as isize
                };
                let op = Operation { operator: op_for(c), operand };
                proof {
                    assert(shape(ops@.push(op)) =~= shape(ops@).push(op));
                    assert(forall|i: int| 0 <= i < ops@.len() ==> jump_ok(ops@.push(op), i) == #[trigger] jump_ok(ops@, i));
                }
                ops.push(op);
                proof {
                    assert forall|i: int|
                        0 <= i < ops@.len() && ops@[i].operator == Op::Jpb implies #[trigger] jump_ok(ops@, i) by {
                        assert(jump_ok(old_ops, i));
                    }
                    assert forall|i: int|
                        0 <= i < ops@.len() && ops@[i].operator == Op::Jpf && !jump_ok(ops@, i)
                        implies exists|k: int| 0 <= k < jmp_stack@.len() && #[trigger] jmp_stack@[k] == i by {
                        assert(!jump_ok(old_ops, i));
                    }
                    assert forall|i: int, k: int|
                        0 <= i < k < ops@.len() && ops@[i].operator == Op::Jpf && k < ops@[i].operand - 1
                        implies #[trigger] inside(ops@, i, k) by {
                        assert(jump_ok(old_ops, i) || old_ops[i].operand == 0);
                        assert(inside(old_ops, i, k));
                    }
                }
                pos = pos + count + empty;
            } else if c == '[' {
                let op = Operation { operator: Op::Jpf, operand: 0 };
                proof {
                    assert(shape(ops@.push(op)) =~= shape(ops@).push(op));
                    assert(forall|i: int| 0 <= i < ops@.len() ==> jump_ok(ops@.push(op), i) == #[trigger] jump_ok(ops@, i));
                }
                ops.push(op);
                proof {
                    assert forall|i: int, k: int|
                        0 <= i < k < ops@.len() && ops@[i].operator == Op::Jpf && k < ops@[i].operand - 1
                        implies #[trigger] inside(ops@, i, k) by {
                        assert(jump_ok(old_ops, i) || old_ops[i].operand == 0);
                        assert(inside(old_ops, i, k));
                    }
                }
                jmp_stack.push(ops.len() - 1);
                proof {
                    let last = jmp_stack@.len() - 1;
                    assert(jmp_stack@[last] == ops@.len() - 1);
                    assert forall|i: int|
                        0 <= i < ops@.len() && ops@[i].operator == Op::Jpb implies #[trigger] jump_ok(ops@, i) by {
                        assert(jump_ok(old_ops, i));
                    }
                    assert forall|i: int|
                        0 <= i < ops@.len() && ops@[i].operator == Op::Jpf && !jump_ok(ops@, i)
                        implies exists|k: int| 0 <= k < jmp_stack@.len() && #[trigger] jmp_stack@[k] == i by {
                        if i < old_ops.len() {
                            assert(!jump_ok(old_ops, i));
                            let k = choose|k: int| 0 <= k < old_stack.len() && #[trigger] old_stack[k] == i;
                            assert(jmp_stack@[k] == i);
                        } else {
                            assert(jmp_stack@[last] == i);
                        }
                    }
                }
                pos = pos + 1;
            } else if c == ']' {
                match jmp_stack.pop() {
                    Some(idx) => {
                        let op = Operation { operator: Op::Jpb, operand: (idx + 1) as isize };
                        let ghost before = ops@;
                        ops.push(op);
                        let l = ops.len();
                        ops.set(idx, Operation { operator: Op::Jpf, operand: l as isize });
                        proof {
                            assert(shape(ops@) =~= shape(before).push(shape_of(op)));
                            assert(jump_ok(ops@, idx as int));
                            assert(jump_ok(ops@, l - 1));
                            let top = old_stack.len() - 1;
                            assert(old_stack[top] == idx);
                            assert forall|i: int, k: int|
                                0 <= i < k < ops@.len() && ops@[i].operator == Op::Jpf && k < ops@[i].operand - 1
                                implies #[trigger] inside(ops@, i, k) by {
                                if i == idx {
                                    if ops@[k].operator == Op::Jpb {
                                        assert(jump_ok(before, k));
                                        assert(old_stack[top] < before[k].operand - 1 || old_stack[top] > k);
                                    }
                                    if ops@[k].operator == Op::Jpf && before[k].operand != 0 {
                                        assert(jump_ok(before, k));
                                    }
                                } else {
                                    assert(jump_ok(before, i) || before[i].operand == 0);
                                    if before[i].operand != 0 {
                                        let q = before[i].operand - 1;
                                        assert(before[q].operator == Op::Jpb);
                                        assert(old_stack[top] < before[q].operand - 1 || old_stack[top] > q);
                                        assert(k != idx);
                                        assert(inside(before, i, k));
                                    }
                                }
                            }
                            assert forall|q: int, m: int|
                                0 <= q < ops@.len() && ops@[q].operator == Op::Jpb && 0 <= m < jmp_stack@.len()
                                implies #[trigger] jmp_stack@[m] < (#[trigger] ops@[q]).operand - 1 || jmp_stack@[m] > q by {
                                assert(jmp_stack@[m] == old_stack[m]);
                                assert(old_stack[m] < old_stack[top]);
                                if q < before.len() {
                                    assert(old_stack[m] < before[q].operand - 1 || old_stack[m] > q);
                                }
                            }
                            assert forall|i: int|
                                0 <= i < ops@.len() && ops@[i].operator == Op::Jpb implies #[trigger] jump_ok(ops@, i) by {
                                if i < before.len() {
                                    assert(jump_ok(before, i));
                                    assert(before[before[i].operand - 1].operand == i + 1);
                                }
                            }
                            assert forall|i: int|
                                0 <= i < ops@.len() && ops@[i].operator == Op::Jpf && !jump_ok(ops@, i)
                                implies exists|k: int| 0 <= k < jmp_stack@.len() && #[trigger] jmp_stack@[k] == i by {
                                assert(i != idx && i != l - 1);
                                assert(!jump_ok(before, i));
                                let k = choose|k: int| 0 <= k < old_stack.len() && #[trigger] old_stack[k] == i;
                                assert(jmp_stack@[k] == i);
                            }
                        }
                        pos = pos + 1;
                    },
                    None => {
                        return Err(BfError::UnbalancedJump);
                    },
                }
            } else {
                pos = pos + 1;
            }
        }
        if jmp_stack.len() > 0 {
            return Err(BfError::UnbalancedJump);
        }
        Ok(BfStr { ops })
    }
}

} // verus!
