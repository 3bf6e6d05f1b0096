//! Running an instruction stream against a growable byte tape, one
//! instruction at a time.
use vstd::prelude::*;
use vstd::arithmetic::div_mod::{
    lemma_add_mod_noop_right, lemma_fundamental_div_mod_converse, lemma_mul_mod_noop_left,
};
use crate::ops::{well_formed, BfError, BfStr, Op, Operation};

verus! {

/// The number of cells a fresh tape starts with.
pub const TAPE_LEN: usize = 1024000;

/// `v` reduced to a byte, modulo 256.
pub open spec fn wrap(v: int) -> u8 {
    (v % 256) as u8
}

/// The tape extended with zero cells, if needed, so that index `t` exists.
pub open spec fn grown(tape: Seq<u8>, t: int) -> Seq<u8> {
    if t < tape.len() {
        tape
    } else {
        tape + Seq::new((t + 1 - tape.len()) as nat, |k: int| 0u8)
    }
}

/// The cell `d` away from `ptr`, or the error that moving there raises.
pub open spec fn target(ptr: int, d: int) -> Result<int, BfError> {
    if ptr + d < 0 {
        Err(BfError::TapeUnderflow)
    } else if ptr + d >= usize::MAX {
        Err(BfError::TapeOverflow)
    } else {
        Ok(ptr + d)
    }
}

/// The state of a run: the tape, the tape pointer and the program counter.
pub struct Cfg {
    pub tape: Seq<u8>,
    pub ptr: int,
    pub pc: int,
}

/// The tape with the current cell set to `v`, the counter one further.
pub open spec fn assign(c: Cfg, v: u8) -> Cfg {
    Cfg { tape: c.tape.update(c.ptr, v), ptr: c.ptr, pc: c.pc + 1 }
}

/// The effect of the instruction at the program counter. An `Acp` only moves
/// on here: the byte it reads is applied by `read_spec`.
pub open spec fn step_spec(ops: Seq<Operation>, c: Cfg) -> Result<Cfg, BfError> {
    let o = ops[c.pc];
    let v = c.tape[c.ptr];
    match o.operator {
        Op::Upd => Ok(assign(c, wrap(v + o.operand))),
        Op::Shf => match target(c.ptr, o.operand as int) {
            Ok(t) => Ok(Cfg { tape: grown(c.tape, t), ptr: t, pc: c.pc + 1 }),
            Err(e) => Err(e),
        },
        Op::Jpf => Ok(Cfg { pc: if v == 0 { o.operand as int } else { c.pc + 1 }, ..c }),
        Op::Jpb => Ok(Cfg { pc: if v != 0 { o.operand as int } else { c.pc + 1 }, ..c }),
        Op::Out => Ok(Cfg { pc: c.pc + 1, ..c }),
        Op::Acp => Ok(Cfg { pc: c.pc + 1, ..c }),
        Op::Asg => Ok(assign(c, wrap(o.operand as int))),
        Op::Mul => Ok(assign(c, wrap(o.operand * v))),
        Op::Add => match target(c.ptr, o.operand as int) {
            Ok(t) => {
                let g = grown(c.tape, t);
                Ok(Cfg { tape: g.update(t, wrap(g[t] + v)), ptr: c.ptr, pc: c.pc + 1 })
            },
            Err(e) => Err(e),
        },
    }
}

/// An `Acp` given the byte read, or `None` at the end of input: a zero byte
/// and the end of input both leave the cell as it is.
pub open spec fn read_spec(c: Cfg, b: Option<u8>) -> Cfg {
    match b {
        Some(x) if x != 0 => assign(c, x),
        _ => Cfg { pc: c.pc + 1, ..c },
    }
}

/// The bytes an `Out` with operand `n` writes when the cell holds `v`.
pub open spec fn written(v: u8, n: int) -> Seq<u8> {
    Seq::new(if n > 0 { n as nat } else { 0 }, |k: int| v)
}

/// What one call of `step` reports.
#[derive(Debug, Clone, Copy, PartialEq, Eq, Structural)]
pub enum Action {
    /// The program counter is past the last instruction.
    Halt,
    /// An instruction without input or output ran.
    Continue,
    /// An `Out` ran: `byte` is to be written `count` times.
    Output { byte: u8, count: usize },
    /// The instruction is an `Acp`: nothing ran; hand the byte to `feed`.
    Input,
    /// The instruction failed; nothing changed.
    Fault(BfError),
}

/// A tape, its pointer and a program counter.
#[derive(Debug)]
pub struct Machine {
    pub tape: Vec<u8>,
    pub ptr: usize,
    pub pc: usize,
}

impl Machine {
    pub open spec fn cfg(&self) -> Cfg {
        Cfg { tape: self.tape@, ptr: self.ptr as int, pc: self.pc as int }
    }

    /// The pointer is on the tape and the counter at most one past the end.
    pub open spec fn inv(&self, n: int) -> bool {
        &&& self.ptr < self.tape@.len()
        &&& self.pc <= n
    }

    /// A machine at the first instruction, on a zeroed tape of `TAPE_LEN` cells.
    pub fn new() -> (r: Machine)
        ensures
            r.tape@ == Seq::new(TAPE_LEN as nat, |k: int| 0u8),
            r.ptr == 0,
            r.pc == 0,
    {
        let mut tape: Vec<u8> = Vec::new();
        while tape.len() < TAPE_LEN
            invariant
                tape@ == Seq::new(tape@.len(), |k: int| 0u8),
                tape@.len() <= TAPE_LEN,
            decreases TAPE_LEN - tape@.len(),
        {
            tape.push(0);
            proof {
                assert(tape@ =~= Seq::new(tape@.len(), |k: int| 0u8));
            }
        }
        Machine { tape, ptr: 0, pc: 0 }
    }
}

/// `d` modulo 256.
fn residue(d: isize) -> (r: u8)
    ensures
        r as int == d as int % 256,
{
    if d >= 0 {
        (d % 256) as u8
    } else {
        let q: isize = -(d + 1);
        let m: isize = q % 256;
        proof {
            lemma_fundamental_div_mod_converse(q as int, 256, q as int / 256, m as int);
            lemma_fundamental_div_mod_converse(d as int, 256, -(q as int / 256) - 1, 255 - m);
        }
        (255 - m) as u8
    }
}

/// `v + d`, modulo 256.
fn wrap_add(v: u8, d: isize) -> (r: u8)
    ensures
        r == wrap(v + d),
{
    let m = residue(d);
    proof {
        lemma_add_mod_noop_right(v as int, d as int, 256);
    }
    ((v as u16 + m as u16) % 256) as u8
}

/// `d * v`, modulo 256.
fn wrap_mul(d: isize, v: u8) -> (r: u8)
    ensures
        r == wrap(d * v),
{
    let m = residue(d);
    proof {
        lemma_mul_mod_noop_left(d as int, v as int, 256);
        assert(m as int * v as int <= 255 * 255) by (nonlinear_arith)
            requires
                m <= 255,
                v <= 255,
        ;
    }
    ((m as u32 * v as u32) % 256) as u8
}

/// The cell `d` away from `ptr`.
fn offset(ptr: usize, d: isize) -> (r: Result<usize, BfError>)
    ensures
        match target(ptr as int, d as int) {
            Ok(t) => r == Ok::<usize, BfError>(t as usize),
            Err(e) => r == Err::<usize, BfError>(e),
        },
{
    if d >= 0 {
        let du = d as usize;
        if ptr >= usize::MAX - du {
            Err(BfError::TapeOverflow)
        } else {
            Ok(ptr + du)
        }
    } else {
        let mag: usize = (-(d + 1)) as usize + 1;
        if ptr < mag {
            Err(BfError::TapeUnderflow)
        } else {
            Ok(ptr - mag)
        }
    }
}

/// Extends the tape with zero cells until index `t` exists.
fn grow(tape: &mut Vec<u8>, t: usize)
    requires
        t < usize::MAX,
    ensures
        final(tape)@ == grown(old(tape)@, t as int),
{
    let ghost start = tape@;
    while tape.len() <= t
        invariant
            t < usize::MAX,
            start.len() <= tape@.len(),
            tape@.len() <= start.len() || tape@.len() <= t + 1,
            tape@ == start + Seq::new((tape@.len() - start.len()) as nat, |k: int| 0u8),
        decreases t + 1 - tape@.len(),
    {
        tape.push(0);
        proof {
            assert(tape@ =~= start + Seq::new((tape@.len() - start.len()) as nat, |k: int| 0u8));
        }
    }
    proof {
        if t < start.len() {
            assert(tape@ =~= start);
        }
    }
}

impl BfStr {
    /// Runs the instruction at the program counter, unless it is past the end
    /// (`Halt`), reads input (`Input`: see `feed`), or fails (`Fault`, and
    /// the machine is left as it was).
    pub fn step(&self, m: &mut Machine) -> (r: Action)
        requires
            well_formed(self.ops@),
            old(m).inv(self.ops@.len() as int),
        ensures
            final(m).inv(self.ops@.len() as int),
            old(m).pc == self.ops@.len() ==> r == Action::Halt && *final(m) == *old(m),
            old(m).pc < self.ops@.len() ==> {
                let o = self.ops@[old(m).pc as int];
                if o.operator == Op::Acp {
                    r == Action::Input && *final(m) == *old(m)
                } else {
                    match step_spec(self.ops@, old(m).cfg()) {
                        Ok(c) => {
                            &&& final(m).cfg() == c
                            &&& r == if o.operator == Op::Out {
                                Action::Output {
                                    byte: old(m).tape@[old(m).ptr as int],
                                    count: if o.operand > 0 { o.operand as usize } else { 0 },
                                }
                            } else {
                                Action::Continue
                            }
                        },
                        Err(e) => r == Action::Fault(e) && *final(m) == *old(m),
                    }
                }
            },
    {
        if m.pc >= self.ops.len() {
            return Action::Halt;
        }
        let op = self.ops[m.pc];
        proof {
            assert(crate::ops::jump_ok(self.ops@, m.pc as int));
        }
        let v = m.tape[m.ptr];
        match op.operator {
            Op::Upd => {
                let nv = wrap_add(v, op.operand);
                m.tape.set(m.ptr, nv);
                m.pc = m.pc + 1;
                Action::Continue
            },
            Op::Shf => match offset(m.ptr, op.operand) {
                Ok(t) => {
                    grow(&mut m.tape, t);
                    m.ptr = t;
                    m.pc = m.pc + 1;
                    Action::Continue
                },
                Err(e) => Action::Fault(e),
            },
            Op::Jpf => {
                if v == 0 {
                    m.pc = op.operand as usize;
                } else {
                    m.pc = m.pc + 1;
                }
                Action::Continue
            },
            Op::Jpb => {
                if v != 0 {
                    m.pc = op.operand as usize;
                } else {
                    m.pc = m.pc + 1;
                }
                Action::Continue
            },
            Op::Out => {
                m.pc = m.pc + 1;
                let count: usize = if op.operand > 0 { op.operand as usize } else { 0 };
                Action::Output { byte: v, count }
            },
            Op::Acp => Action::Input,
            Op::Asg => {
                m.tape.set(m.ptr, wrap_add(0, op.operand));
                m.pc = m.pc + 1;
                Action::Continue
            },
            Op::Mul => {
                m.tape.set(m.ptr, wrap_mul(op.operand, v));
                m.pc = m.pc + 1;
                Action::Continue
            },
            Op::Add => match offset(m.ptr, op.operand) {
                Ok(t) => {
                    grow(&mut m.tape, t);
                    let w = m.tape[t];
                    m.tape.set(t, wrap_add(w, v as isize));
                    m.pc = m.pc + 1;
                    Action::Continue
                },
                Err(e) => Action::Fault(e),
            },
        }
    }

    /// Runs the `Acp` at the program counter with the byte read, or `None`
    /// at the end of input.
    pub fn feed(&self, m: &mut Machine, b: Option<u8>)
        requires
            well_formed(self.ops@),
            old(m).inv(self.ops@.len() as int),
            old(m).pc < self.ops@.len(),
            self.ops@[old(m).pc as int].operator == Op::Acp,
        ensures
            final(m).inv(self.ops@.len() as int),
            final(m).cfg() == read_spec(old(m).cfg(), b),
    {
        match b {
            Some(x) => {
                if x != 0 {
                    m.tape.set(m.ptr, x);
                }
            },
            None => {},
        }
        m.pc = m.pc + 1;
    }
}

/// How a bounded run ended.
#[derive(Debug, Clone, Copy, PartialEq, Eq, Structural)]
pub enum Status {
    /// The program counter reached the end of the program.
    Halted,
    /// An instruction failed.
    Fault(BfError),
    /// The step budget ran out first.
    Unfinished,
}

/// Where a run stands: the machine, the input not yet read, the bytes
/// written, and how it ended.
pub struct Outcome {
    pub cfg: Cfg,
    pub rest: Seq<u8>,
    pub output: Seq<u8>,
    pub status: Status,
}

/// A fresh machine: a zeroed tape of `TAPE_LEN` cells, pointer and counter at zero.
pub open spec fn start_cfg() -> Cfg {
    Cfg { tape: Seq::new(TAPE_LEN as nat, |k: int| 0u8), ptr: 0, pc: 0 }
}

/// Runs at most `fuel` instructions from `c`, reading from `input`. Each
/// `Acp` takes the next byte, or finds the end of input.
pub open spec fn run_spec(ops: Seq<Operation>, c: Cfg, input: Seq<u8>, fuel: nat) -> Outcome
    decreases fuel,
{
    if !(0 <= c.pc < ops.len()) {
        Outcome { cfg: c, rest: input, output: Seq::empty(), status: Status::Halted }
    } else if fuel == 0 {
        Outcome { cfg: c, rest: input, output: Seq::empty(), status: Status::Unfinished }
    } else if ops[c.pc].operator == Op::Acp {
        if input.len() > 0 {
            run_spec(ops, read_spec(c, Some(input[0])), input.drop_first(), (fuel - 1) as nat)
        } else {
            run_spec(ops, read_spec(c, None), input, (fuel - 1) as nat)
        }
    } else {
        match step_spec(ops, c) {
            Err(e) => Outcome { cfg: c, rest: input, output: Seq::empty(), status: Status::Fault(e) },
            Ok(n) => {
                let r = run_spec(ops, n, input, (fuel - 1) as nat);
                if ops[c.pc].operator == Op::Out {
                    Outcome { output: written(c.tape[c.ptr], ops[c.pc].operand as int) + r.output, ..r }
                } else {
                    r
                }
            },
        }
    }
}

impl BfStr {
    /// Runs the program on a fresh machine for at most `max_steps`
    /// instructions, reading bytes from `input`: the bytes written, and how
    /// the run ended.
    pub fn _interpret(&self, input: &[u8], max_steps: u64) -> (r: (Vec<u8>, Status))
        requires
            well_formed(self.ops@),
        ensures
            r.0@ == run_spec(self.ops@, start_cfg(), input@, max_steps as nat).output,
            r.1 == run_spec(self.ops@, start_cfg(), input@, max_steps as nat).status,
    {
        let mut m = Machine::new();
        let mut out: Vec<u8> = Vec::new();
        let mut in_pos: usize = 0;
        let mut fuel: u64 = max_steps;
        let ghost total = run_spec(self.ops@, start_cfg(), input@, max_steps as nat);
        proof {
            assert(m.cfg() == start_cfg());
            assert(input@.skip(0) =~= input@);
        }
        loop
            invariant
                well_formed(self.ops@),
                m.inv(self.ops@.len() as int),
                in_pos <= input@.len(),
                total == run_spec(self.ops@, start_cfg(), input@, max_steps as nat),
                total.output == out@ + run_spec(self.ops@, m.cfg(), input@.skip(in_pos as int), fuel as nat).output,
                total.status == run_spec(self.ops@, m.cfg(), input@.skip(in_pos as int), fuel as nat).status,
            decreases fuel,
        {
            if m.pc >= self.ops.len() {
                proof {
                    assert(out@ + Seq::empty() =~= out@);
                }
                return (out, Status::Halted);
            }
            if fuel == 0 {
                proof {
                    assert(out@ + Seq::empty() =~= out@);
                }
                return (out, Status::Unfinished);
            }
            let ghost c = m.cfg();
            let ghost rest = input@.skip(in_pos as int);
            let a = self.step(&mut m);
            match a {
                Action::Input => {
                    if in_pos < input.len() {
                        let x = input[in_pos];
                        self.feed(&mut m, Some(x));
                        in_pos = in_pos + 1;
                        proof {
                            assert(rest.drop_first() =~= input@.skip(in_pos as int));
                        }
                    } else {
                        self.feed(&mut m, None);
                    }
                },
                Action::Output { byte, count } => {
                    let ghost before = out@;
                    let mut k: usize = 0;
                    while k < count
                        invariant
                            k <= count,
                            out@ == before + Seq::new(k as nat, |j: int| byte),
                        decreases count - k,
                    {
                        out.push(byte);
                        k = k + 1;
                        proof {
                            assert(out@ =~= before + Seq::new(k as nat, |j: int| byte));
                        }
                    }
                    proof {
                        let o = self.ops@[c.pc];
                        assert(Seq::new(k as nat, |j: int| byte) =~= written(c.tape[c.ptr], o.operand as int));
                        assert(total.output =~= out@ + run_spec(self.ops@, m.cfg(), input@.skip(in_pos as int), (fuel - 1) as nat).output);
                    }
                },
                Action::Fault(e) => {
                    proof {
                        assert(out@ + Seq::empty() =~= out@);
                    }
                    return (out, Status::Fault(e));
                },
                Action::Halt => {
                    return (out, Status::Halted);
                },
                Action::Continue => {},
            }
            fuel = fuel - 1;
        }
    }
}

} // verus!
