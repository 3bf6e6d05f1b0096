use bf_str::{count_step, Action, BfError, BfStr, Machine, Op, Operation, Status};

const HELLO: &str = "++++++++[>++++[>++>+++>+++>+<<<<-]>+>+>->>+[<]<-]>>.>---.+++++++..+++.>>.<-.<.+++.------.--------.>>+.>++.";

fn run(src: &str, input: &[u8]) -> (Vec<u8>, Status) {
    let p = BfStr::parse(src).unwrap();
    p._interpret(input, 10_000_000)
}

fn op(operator: Op, operand: isize) -> Operation {
    Operation { operator, operand }
}

#[test]
fn test_interpret() {
    let (out, status) = run(HELLO, &[]);
    assert_eq!(out, b"Hello World!\n");
    assert_eq!(status, Status::Halted);
}

#[test]
fn hello_world_optimized_matches() {
    let p = BfStr::parse(HELLO).unwrap();
    let o = p.optimize();
    assert_eq!(o._interpret(&[], 10_000_000), p._interpret(&[], 10_000_000));
}

#[test]
fn idioms_optimized_match() {
    let p = BfStr::parse("++++++++[>++++++++<-]>+.[-]++++++++++.,[>+<-]>.").unwrap();
    let o = p.optimize();
    assert!(o.ops.len() < p.ops.len());
    let expected = (b"A\n\x07".to_vec(), Status::Halted);
    assert_eq!(p._interpret(&[7], 10_000), expected);
    assert_eq!(o._interpret(&[7], 10_000), expected);
}

#[test]
fn echo_one_byte() {
    assert_eq!(run(",.", &[0x41]), (b"A".to_vec(), Status::Halted));
}

#[test]
fn input_zero_or_end_leaves_cell() {
    assert_eq!(run("+++,.", &[0]).0, vec![3u8]);
    assert_eq!(run("+++,.", &[]).0, vec![3u8]);
    assert_eq!(run(",.,.", &[7]).0, vec![7u8, 7u8]);
}

#[test]
fn unterminated_loop_is_parse_error() {
    assert_eq!(BfStr::parse("+[>+").unwrap_err(), BfError::UnbalancedJump);
}

#[test]
fn excess_close_is_parse_error() {
    assert_eq!(BfStr::parse("+]").unwrap_err(), BfError::UnbalancedJump);
    assert_eq!(BfStr::parse("[]]").unwrap_err(), BfError::UnbalancedJump);
}

#[test]
fn pointer_below_zero_is_underflow() {
    let (out, status) = run(".<.", &[]);
    assert_eq!(out, vec![0u8]);
    assert_eq!(status, Status::Fault(BfError::TapeUnderflow));
}

#[test]
fn add_below_zero_is_underflow() {
    let p = BfStr { ops: vec![op(Op::Upd, 1), op(Op::Add, -1)] };
    assert_eq!(p._interpret(&[], 100).1, Status::Fault(BfError::TapeUnderflow));
}

#[test]
fn wraparound() {
    let mut src = String::new();
    for _ in 0..255 {
        src.push('+');
    }
    src.push_str(".+.");
    assert_eq!(run(&src, &[]).0, vec![255u8, 0u8]);
    assert_eq!(run("-.", &[]).0, vec![255u8]);
}

#[test]
fn clear_loop_zeroes() {
    assert_eq!(run("+++++[-].", &[]).0, vec![0u8]);
    assert_eq!(run("-[-].", &[]).0, vec![0u8]);
    assert_eq!(run("[-].", &[]).0, vec![0u8]);
}

#[test]
fn multiply_move() {
    assert_eq!(run("+++>++<[>+<-].>.", &[]).0, vec![0u8, 5u8]);
    assert_eq!(run("+++[>+++<-]>.", &[]).0, vec![9u8]);
    let p = BfStr::parse("+++>++<[>+++<-].>.").unwrap().optimize();
    assert_eq!(p._interpret(&[], 100).0, vec![0u8, 11u8]);
}

#[test]
fn run_length_and_comments() {
    let p = BfStr::parse("+ + x+--\n>><.,,").unwrap();
    assert_eq!(
        p.ops,
        vec![
            op(Op::Upd, 3),
            op(Op::Upd, -2),
            op(Op::Shf, 2),
            op(Op::Shf, -1),
            op(Op::Out, 1),
            op(Op::Acp, 2),
        ]
    );
}

#[test]
fn jumps_resolved() {
    let p = BfStr::parse("+[>[-]<]").unwrap();
    assert_eq!(
        p.ops,
        vec![
            op(Op::Upd, 1),
            op(Op::Jpf, 8),
            op(Op::Shf, 1),
            op(Op::Jpf, 6),
            op(Op::Upd, -1),
            op(Op::Jpb, 4),
            op(Op::Shf, -1),
            op(Op::Jpb, 2),
        ]
    );
}

#[test]
fn count_step_counts_run() {
    assert_eq!(count_step(&['+', 'a', '+', ' ', '-', '+'], &'+'), (2, 2));
    assert_eq!(count_step(&['.', '.', '.'], &'.'), (3, 0));
    assert_eq!(count_step(&[], &'>'), (0, 0));
}

#[test]
fn optimize_rewrites_idioms() {
    let p = BfStr::parse("[-]").unwrap().optimize();
    assert_eq!(p.ops, vec![op(Op::Asg, 0)]);
    let p = BfStr::parse("[<<+++>>-]").unwrap().optimize();
    assert_eq!(p.ops, vec![op(Op::Mul, 3), op(Op::Add, -2), op(Op::Asg, 0)]);
    let p = BfStr::parse("[>-<-]").unwrap().optimize();
    assert_eq!(p.ops.len(), 6);
    let p = BfStr::parse("[--]").unwrap().optimize();
    assert_eq!(p.ops.len(), 3);
}

#[test]
fn optimize_repoints_jumps() {
    let p = BfStr::parse("[-][.]").unwrap().optimize();
    assert_eq!(
        p.ops,
        vec![op(Op::Asg, 0), op(Op::Jpf, 4), op(Op::Out, 1), op(Op::Jpb, 2)]
    );
}

#[test]
fn optimize_is_idempotent() {
    let p = BfStr::parse(HELLO).unwrap().optimize();
    let q = p.optimize();
    assert_eq!(p.ops, q.ops);
    let p = BfStr::parse("+[[-]>[>+<-]<[.]]").unwrap().optimize();
    assert_eq!(p.optimize().ops, p.ops);
}

#[test]
fn step_and_feed() {
    let p = BfStr::parse(",+.").unwrap();
    let mut m = Machine::new();
    assert_eq!(p.step(&mut m), Action::Input);
    assert_eq!(m.pc, 0);
    p.feed(&mut m, Some(b'a'));
    assert_eq!(p.step(&mut m), Action::Continue);
    assert_eq!(p.step(&mut m), Action::Output { byte: b'b', count: 1 });
    assert_eq!(p.step(&mut m), Action::Halt);
}

#[test]
fn shift_grows_tape() {
    let p = BfStr { ops: vec![op(Op::Shf, 1024000), op(Op::Upd, 2), op(Op::Out, 2)] };
    let mut m = Machine::new();
    assert_eq!(m.tape.len(), 1024000);
    assert_eq!(p.step(&mut m), Action::Continue);
    assert_eq!(m.tape.len(), 1024001);
    assert_eq!(p._interpret(&[], 10).0, vec![2u8, 2u8]);
}

#[test]
fn step_budget_runs_out() {
    let (out, status) = run("+[]", &[]);
    assert!(out.is_empty());
    assert_eq!(status, Status::Unfinished);
}

#[test]
fn cc_emits_statements() {
    let p = BfStr::parse("+-,.><").unwrap();
    let c = p._cc(false);
    assert!(c.starts_with("#include <assert.h>\n"));
    assert!(c.contains("int main(void) {\n"));
    assert!(c.contains(
        "    tape_update(&tape, 1);\n    tape_update(&tape, -1);\n    tape_in(&tape);\n    tape_out(&tape, 1);\n    tape_shift(&tape, 1);\n    tape_shift(&tape, -1);\n"
    ));
    assert!(c.ends_with("    free(tape.items);\n    return 0;\n}\n"));
}

#[test]
fn cc_labels_loops() {
    let p = BfStr::parse("[.]").unwrap();
    let c = p._cc(false);
    assert!(c.contains(
        "    tape_jpf(&tape, jpf3);\n    jpb1:\n    tape_out(&tape, 1);\n    tape_jpb(&tape, jpb1);\n    jpf3:\n"
    ));
}

#[test]
fn cc_optimized() {
    let p = BfStr::parse("++++++++++++[>++++++++++<-]>.").unwrap();
    let c = p._cc(true);
    assert!(c.contains(
        "    tape_update(&tape, 12);\n    tape_multiple(&tape, 10);\n    tape_add(&tape, 1);\n    tape_assign(&tape, 0);\n    tape_shift(&tape, 1);\n    tape_out(&tape, 1);\n"
    ));
    assert!(!p._cc(false).contains("tape_multiple(&tape, 10)"));
}

#[test]
fn rewrite_offset_before_first_cell() {
    // With a zero counter the loop never runs, but its rewrite still moves
    // to the cell at the offset.
    let p = BfStr::parse("[<+>-]+.").unwrap();
    assert_eq!(p._interpret(&[], 100), (vec![1u8], Status::Halted));
    let o = p.optimize();
    assert_eq!(o._interpret(&[], 100), (vec![], Status::Fault(BfError::TapeUnderflow)));
}
