//! Lowering an instruction stream to a C program over a growable tape.
use vstd::prelude::*;
use vstd::string::StringExecFns;
use crate::ops::{well_formed, BfStr, Op, Operation};
use crate::optimize::optimized;

verus! {

/// The runtime that every generated program starts with: a growable tape
/// and its primitive operations.
pub const FILE_HEAD: &'static str = "#include <assert.h>
#include <stdbool.h>
#include <inttypes.h>
#include <stdint.h>
#include <stdio.h>
#include <stdlib.h>

#define CAP 1024

#define da_append(da, item)                                                         \\
    do {                                                                            \\
        if ((da)->len >= (da)->cap) {                                               \\
            (da)->cap = ((da)->cap == 0) ? CAP : (da)->cap * 2;                     \\
            (da)->items = realloc((da)->items, sizeof(*(da)->items) * (da)->cap);   \\
            assert((da)->items != NULL && \"OOM!\");                                  \\
        }                                                                           \\
        (da)->items[(da)->len++] = (item);                                          \\
    } while (0)

typedef struct {
    uint8_t* items;
    size_t len;
    size_t cap;
    size_t ptr;
} Tape;

uint8_t tape_curr(Tape* tape) {
    return tape->items[tape->ptr];
}

void tape_assign(Tape* tape, uint8_t u8) {
    tape->items[tape->ptr] = u8;
}

size_t tape_target(Tape* tape, int64_t delta) {
    int64_t ret = (int64_t)tape->ptr + delta;
    if (ret < 0) assert(0 && \"Tape Underflow!\");
    while ((size_t)ret >= tape->len) da_append(tape, 0);
    return (size_t)ret;
}

void tape_shift(Tape* tape, int64_t delta) {
    tape->ptr = tape_target(tape, delta);
}

void tape_update(Tape* tape, int64_t delta) {
    tape->items[tape->ptr] += delta;
}

#define tape_jpf(tape, dst) if (tape_curr(tape) == 0) goto dst
#define tape_jpb(tape, dst) if (tape_curr(tape) != 0) goto dst

void tape_in(Tape* tape) {
    int c = fgetc(stdin);
    if (c != EOF && c != 0) tape_assign(tape, c);
}

void tape_out(Tape* tape, int64_t step) {
    for (int64_t i = 0; i < step; ++i) {
        printf(\"%c\", tape_curr(tape));
    }
}

void tape_add(Tape* tape, int64_t delta) {
    size_t dst = tape_target(tape, delta);
    tape->items[dst] += tape_curr(tape);
}

void tape_multiple(Tape* tape, int64_t step) {
    tape_assign(tape, (uint8_t)(tape_curr(tape) * step));
}

void tape_init(Tape* tape) {
    for (size_t i = 0; i < CAP; ++i) {
        da_append(tape, 0);
    }
}

";

/// The start of `main`.
pub const MAIN_HEAD: &'static str = "int main(void) {
    Tape tape = { 0 };
    tape_init(&tape);

";

/// The end of `main`.
pub const MAIN_TAIL: &'static str = "
    free(tape.items);
    return 0;
}
";

pub open spec fn digit(d: nat) -> char {
    if d == 0 { '0' }
    else if d == 1 { '1' }
    else if d == 2 { '2' }
    else if d == 3 { '3' }
    else if d == 4 { '4' }
    else if d == 5 { '5' }
    else if d == 6 { '6' }
    else if d == 7 { '7' }
    else if d == 8 { '8' }
    else { '9' }
}

/// The decimal digits of `n`, most significant first.
pub open spec fn dec_nat(n: nat) -> Seq<char>
    decreases n,
{
    if n < 10 {
        seq![digit(n)]
    } else {
        dec_nat(n / 10) + seq![digit(n % 10)]
    }
}

/// `v` in decimal, with a leading `-` when negative.
pub open spec fn dec(v: int) -> Seq<char> {
    if v < 0 {
        seq!['-'] + dec_nat((-v) as nat)
    } else {
        dec_nat(v as nat)
    }
}

/// A call of a runtime primitive with one integer argument.
pub open spec fn call(name: Seq<char>, v: int) -> Seq<char> {
    "    "@ + name + "(&tape, "@ + dec(v) + ");\n"@
}

/// The C statements for the instruction `o` at index `i`. A loop's two
/// labels are named after the indices just past each of its jumps.
pub open spec fn stmt(o: Operation, i: int) -> Seq<char> {
    match o.operator {
        Op::Upd => call("tape_update"@, o.operand as int),
        Op::Shf => call("tape_shift"@, o.operand as int),
        Op::Acp => "    tape_in(&tape);\n"@,
        Op::Out => call("tape_out"@, o.operand as int),
        Op::Jpf => "    tape_jpf(&tape, jpf"@ + dec(o.operand as int) + ");\n    jpb"@ + dec(i + 1)
            + ":\n"@,
        Op::Jpb => "    tape_jpb(&tape, jpb"@ + dec(o.operand as int) + ");\n    jpf"@ + dec(i + 1)
            + ":\n"@,
        Op::Asg => call("tape_assign"@, o.operand as int),
        Op::Mul => call("tape_multiple"@, o.operand as int),
        Op::Add => call("tape_add"@, o.operand as int),
    }
}

/// The statements for the first `n` instructions.
pub open spec fn stmts(ops: Seq<Operation>, n: int) -> Seq<char>
    decreases n,
{
    if n <= 0 {
        Seq::empty()
    } else {
        stmts(ops, n - 1) + stmt(ops[n - 1], n - 1)
    }
}

/// The whole C program for an instruction stream.
pub open spec fn c_program(ops: Seq<Operation>) -> Seq<char> {
    FILE_HEAD@ + MAIN_HEAD@ + stmts(ops, ops.len() as int) + MAIN_TAIL@
}

fn digit_str(d: u64) -> (r: &'static str)
    requires
        d < 10,
    ensures
        r@ == seq![digit(d as nat)],
{
    if d == 0 {
        proof { reveal_strlit("0"); }
        "0"
    } else if d == 1 {
        proof { reveal_strlit("1"); }
        "1"
    } else if d == 2 {
        proof { reveal_strlit("2"); }
        "2"
    } else if d == 3 {
        proof { reveal_strlit("3"); }
        "3"
    } else if d == 4 {
        proof { reveal_strlit("4"); }
        "4"
    } else if d == 5 {
        proof { reveal_strlit("5"); }
        "5"
    } else if d == 6 {
        proof { reveal_strlit("6"); }
        "6"
    } else if d == 7 {
        proof { reveal_strlit("7"); }
        "7"
    } else if d == 8 {
        proof { reveal_strlit("8"); }
        "8"
    } else {
        proof { reveal_strlit("9"); }
        "9"
    }
}

fn append_nat(s: &mut String, n: u64)
    ensures
        final(s)@ == old(s)@ + dec_nat(n as nat),
    decreases n,
{
    if n >= 10 {
        append_nat(s, n / 10);
    }
    s.append(digit_str(n % 10));
    proof {
        assert(final(s)@ =~= old(s)@ + dec_nat(n as nat));
    }
}

fn append_int(s: &mut String, v: isize)
    ensures
        final(s)@ == old(s)@ + dec(v as int),
{
    if v < 0 {
        proof { reveal_strlit("-"); }
        s.append("-");
        append_nat(s, (-(v + 1)) as u64 + 1);
        proof {
            assert(final(s)@ =~= old(s)@ + dec(v as int));
        }
    } else {
        append_nat(s, v as u64);
    }
}

fn append_call(s: &mut String, name: &str, v: isize)
    ensures
        final(s)@ == old(s)@ + call(name@, v as int),
{
    s.append("    ");
    s.append(name);
    s.append("(&tape, ");
    append_int(s, v);
    s.append(");\n");
    proof {
        assert(final(s)@ =~= old(s)@ + call(name@, v as int));
    }
}

fn append_stmt(s: &mut String, o: Operation, i: usize)
    requires
        i < isize::MAX,
    ensures
        final(s)@ == old(s)@ + stmt(o, i as int),
{
    match o.operator {
        Op::Upd => append_call(s, "tape_update", o.operand),
        Op::Shf => append_call(s, "tape_shift", o.operand),
        Op::Acp => s.append("    tape_in(&tape);\n"),
        Op::Out => append_call(s, "tape_out", o.operand),
        Op::Jpf => {
            s.append("    tape_jpf(&tape, jpf");
            append_int(s, o.operand);
            s.append(");\n    jpb");
            append_int(s, (i + 1) as isize);
            s.append(":\n");
            proof {
                assert(final(s)@ =~= old(s)@ + stmt(o, i as int));
            }
        },
        Op::Jpb => {
            s.append("    tape_jpb(&tape, jpb");
            append_int(s, o.operand);
            s.append(");\n    jpf");
            append_int(s, (i + 1) as isize);
            s.append(":\n");
            proof {
                assert(final(s)@ =~= old(s)@ + stmt(o, i as int));
            }
        },
        Op::Asg => append_call(s, "tape_assign", o.operand),
        Op::Mul => append_call(s, "tape_multiple", o.operand),
        Op::Add => append_call(s, "tape_add", o.operand),
    }
}

/// The C program for an instruction stream.
fn generate(ops: &Vec<Operation>) -> (r: String)
    requires
        ops@.len() < isize::MAX,
    ensures
        r@ == c_program(ops@),
{
    let mut s = String::new();
    s.append(FILE_HEAD);
    s.append(MAIN_HEAD);
    let mut i: usize = 0;
    while i < ops.len()
        invariant
            i <= ops@.len() < isize::MAX,
            s@ == FILE_HEAD@ + MAIN_HEAD@ + stmts(ops@, i as int),
        decreases ops@.len() - i,
    {
        append_stmt(&mut s, ops[i], i);
        i = i + 1;
        proof {
            assert(s@ =~= FILE_HEAD@ + MAIN_HEAD@ + stmts(ops@, i as int));
        }
    }
    s.append(MAIN_TAIL);
    s
}

impl BfStr {
    /// The C program for this Brainfuck program, optimized first when
    /// `is_optimize` is set.
    pub fn _cc(&self, is_optimize: bool) -> (r: String)
        requires
            well_formed(self.ops@),
        ensures
            r@ == c_program(if is_optimize { optimized(self.ops@) } else { self.ops@ }),
    {
        if is_optimize {
            let o = self.optimize();
            generate(&o.ops)
        } else {
            generate(&self.ops)
        }
    }
}

} // verus!
