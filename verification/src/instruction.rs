//! The VLIW-470 instruction set, its functional units and the bundles that hold them.
use vstd::prelude::*;
use vstd::string::*;
use crate::text::{nat_text, int_text, bool_text, push_nat, push_int, push_bool};

verus! {

/// A functional unit of the machine.
#[derive(Clone, Copy, Debug, PartialEq, Eq, Structural)]
pub enum ExecutionUnit {
    Alu,
    Mul,
    Mem,
    Branch,
}

/// The position of a unit among `Alu`, `Mul`, `Mem`, `Branch`.
pub open spec fn unit_index(u: ExecutionUnit) -> int {
    match u {
        ExecutionUnit::Alu => 0,
        ExecutionUnit::Mul => 1,
        ExecutionUnit::Mem => 2,
        ExecutionUnit::Branch => 3,
    }
}

/// The unit at a position among `Alu`, `Mul`, `Mem`, `Branch`.
pub open spec fn unit_at(i: int) -> ExecutionUnit {
    if i == 0 { ExecutionUnit::Alu }
    else if i == 1 { ExecutionUnit::Mul }
    else if i == 2 { ExecutionUnit::Mem }
    else { ExecutionUnit::Branch }
}

/// Cycles until a result of the unit can be read.
pub open spec fn unit_latency(u: ExecutionUnit) -> nat {
    match u {
        ExecutionUnit::Mul => 3,
        _ => 1,
    }
}

/// How many units of this kind a bundle offers.
pub open spec fn unit_capacity(u: ExecutionUnit) -> nat {
    match u {
        ExecutionUnit::Alu => 2,
        _ => 1,
    }
}

/// All units, in slot order.
pub open spec fn all_units() -> Seq<ExecutionUnit> {
    seq![ExecutionUnit::Alu, ExecutionUnit::Mul, ExecutionUnit::Mem, ExecutionUnit::Branch]
}

impl ExecutionUnit {
    /// The position of the unit among `Alu`, `Mul`, `Mem`, `Branch`.
    pub fn index(&self) -> (r: usize)
        ensures
            r == unit_index(*self),
            r < 4,
    {
        match self {
            ExecutionUnit::Alu => 0,
            ExecutionUnit::Mul => 1,
            ExecutionUnit::Mem => 2,
            ExecutionUnit::Branch => 3,
        }
    }

    pub fn latency(&self) -> (r: u8)
        ensures
            r == unit_latency(*self),
    {
        match self {
            ExecutionUnit::Mul => 3,
            _ => 1,
        }
    }

    pub fn nb_available(&self) -> (r: usize)
        ensures
            r == unit_capacity(*self),
    {
        match self {
            ExecutionUnit::Alu => 2,
            _ => 1,
        }
    }

    pub fn iter() -> (r: Vec<ExecutionUnit>)
        ensures
            r@ == all_units(),
    {
        let mut v = Vec::new();
        v.push(ExecutionUnit::Alu);
        v.push(ExecutionUnit::Mul);
        v.push(ExecutionUnit::Mem);
        v.push(ExecutionUnit::Branch);
        assert(v@ =~= all_units());
        v
    }
}

/// The loop-count and epilogue-count registers.
#[derive(Copy, Clone, Debug, PartialEq, Eq, Hash, Structural)]
pub enum SpecialRegister {
    LoopCount,
    EpCount,
}

/// The assembly name of a special register.
pub open spec fn special_register_text(r: SpecialRegister) -> Seq<char> {
    match r {
        SpecialRegister::LoopCount => "LC"@,
        SpecialRegister::EpCount => "EC"@,
    }
}

impl SpecialRegister {
    pub fn to_string(&self) -> (s: String)
        ensures
            s@ == special_register_text(*self),
    {
        match self {
            SpecialRegister::LoopCount => String::from_str("LC"),
            SpecialRegister::EpCount => String::from_str("EC"),
        }
    }

    fn push_text(&self, out: &mut String)
        ensures
            final(out)@ == old(out)@ + special_register_text(*self),
    {
        match self {
            SpecialRegister::LoopCount => out.append("LC"),
            SpecialRegister::EpCount => out.append("EC"),
        }
    }
}

/// One scalar operation. Register operands are numbers; `Ld` and `St` take
/// `(register, offset, address register)`.
#[derive(Copy, Clone, Debug, PartialEq, Eq, Hash, Structural)]
pub enum Instruction {
    Add(u8, u8, u8),
    Addi(u8, u8, i16),
    Sub(u8, u8, u8),
    Mulu(u8, u8, u8),
    Ld(u8, i16, u8),
    St(u8, i16, u8),
    Loop(usize),
    LoopPip(usize),
    MovP(u8, bool),
    MovL(SpecialRegister, i16),
    MovI(u8, i16),
    Mov(u8, u8),
    Nop,
}

/// The unit that executes an instruction.
pub open spec fn spec_unit(i: Instruction) -> ExecutionUnit {
    match i {
        Instruction::Ld(_, _, _) | Instruction::St(_, _, _) => ExecutionUnit::Mem,
        Instruction::Loop(_) | Instruction::LoopPip(_) => ExecutionUnit::Branch,
        Instruction::Mulu(_, _, _) => ExecutionUnit::Mul,
        _ => ExecutionUnit::Alu,
    }
}

/// The general-purpose register an instruction writes, if any.
pub open spec fn spec_dest(i: Instruction) -> Option<u8> {
    match i {
        Instruction::Add(d, _, _) => Some(d),
        Instruction::Addi(d, _, _) => Some(d),
        Instruction::Sub(d, _, _) => Some(d),
        Instruction::Mulu(d, _, _) => Some(d),
        Instruction::Ld(d, _, _) => Some(d),
        Instruction::Mov(d, _) => Some(d),
        Instruction::MovI(d, _) => Some(d),
        _ => None,
    }
}

/// The registers an instruction reads, in operand order, repetitions kept.
pub open spec fn spec_operands(i: Instruction) -> Seq<u8> {
    match i {
        Instruction::Add(_, a, b) => seq![a, b],
        Instruction::Addi(_, a, _) => seq![a],
        Instruction::Sub(_, a, b) => seq![a, b],
        Instruction::Mulu(_, a, b) => seq![a, b],
        Instruction::Ld(_, _, addr) => seq![addr],
        Instruction::St(s, _, addr) => seq![s, addr],
        Instruction::Mov(_, s) => seq![s],
        _ => seq![],
    }
}

/// The registers an instruction reads, each once, in first-occurrence order.
pub open spec fn spec_sources(i: Instruction) -> Seq<u8> {
    let ops = spec_operands(i);
    if ops.len() == 2 && ops[0] == ops[1] {
        seq![ops[0]]
    } else {
        ops
    }
}

/// The instruction with its destination register replaced, for the
/// instructions that have one.
pub open spec fn spec_with_dest(i: Instruction, r: u8) -> Instruction {
    match i {
        Instruction::Add(_, a, b) => Instruction::Add(r, a, b),
        Instruction::Addi(_, a, imm) => Instruction::Addi(r, a, imm),
        Instruction::Sub(_, a, b) => Instruction::Sub(r, a, b),
        Instruction::Mulu(_, a, b) => Instruction::Mulu(r, a, b),
        Instruction::Ld(_, imm, addr) => Instruction::Ld(r, imm, addr),
        Instruction::Mov(_, s) => Instruction::Mov(r, s),
        Instruction::MovI(_, imm) => Instruction::MovI(r, imm),
        _ => i,
    }
}

/// The instruction with its operand registers replaced, in operand order.
pub open spec fn spec_with_operands(i: Instruction, ops: Seq<u8>) -> Instruction {
    match i {
        Instruction::Add(d, _, _) => Instruction::Add(d, ops[0], ops[1]),
        Instruction::Sub(d, _, _) => Instruction::Sub(d, ops[0], ops[1]),
        Instruction::Mulu(d, _, _) => Instruction::Mulu(d, ops[0], ops[1]),
        Instruction::St(_, imm, _) => Instruction::St(ops[0], imm, ops[1]),
        Instruction::Mov(d, _) => Instruction::Mov(d, ops[0]),
        Instruction::Ld(d, imm, _) => Instruction::Ld(d, imm, ops[0]),
        Instruction::Addi(d, _, imm) => Instruction::Addi(d, ops[0], imm),
        _ => i,
    }
}

/// The two instructions agree but for their register numbers: same operation,
/// same immediates, same branch targets.
pub open spec fn same_form(a: Instruction, b: Instruction) -> bool {
    match (a, b) {
        (Instruction::Add(_, _, _), Instruction::Add(_, _, _)) => true,
        (Instruction::Addi(_, _, i), Instruction::Addi(_, _, j)) => i == j,
        (Instruction::Sub(_, _, _), Instruction::Sub(_, _, _)) => true,
        (Instruction::Mulu(_, _, _), Instruction::Mulu(_, _, _)) => true,
        (Instruction::Ld(_, i, _), Instruction::Ld(_, j, _)) => i == j,
        (Instruction::St(_, i, _), Instruction::St(_, j, _)) => i == j,
        (Instruction::Loop(i), Instruction::Loop(j)) => i == j,
        (Instruction::LoopPip(i), Instruction::LoopPip(j)) => i == j,
        (Instruction::MovP(_, i), Instruction::MovP(_, j)) => i == j,
        (Instruction::MovL(r, i), Instruction::MovL(q, j)) => r == q && i == j,
        (Instruction::MovI(_, i), Instruction::MovI(_, j)) => i == j,
        (Instruction::Mov(_, _), Instruction::Mov(_, _)) => true,
        (Instruction::Nop, Instruction::Nop) => true,
        _ => false,
    }
}

/// Instructions of the same form run on the same unit, both write a register
/// or neither does, and read as many registers.
pub proof fn lemma_same_form(a: Instruction, b: Instruction, c: Instruction)
    ensures
        same_form(a, a),
        same_form(a, b) ==> same_form(b, a),
        same_form(a, b) && same_form(b, c) ==> same_form(a, c),
        same_form(a, b) ==> spec_unit(a) == spec_unit(b),
        same_form(a, b) ==> (spec_dest(a) is Some <==> spec_dest(b) is Some),
        same_form(a, b) ==> spec_operands(a).len() == spec_operands(b).len(),
{
}

/// The assembly text of an instruction, with its leading space.
pub open spec fn instruction_text(i: Instruction) -> Seq<char> {
    match i {
        Instruction::Add(d, a, b) =>
            " add x"@ + nat_text(d as nat) + ", x"@ + nat_text(a as nat) + ", x"@ + nat_text(b as nat),
        Instruction::Addi(d, a, imm) =>
            " addi x"@ + nat_text(d as nat) + ", x"@ + nat_text(a as nat) + ", "@ + int_text(imm as int),
        Instruction::Sub(d, a, b) =>
            " sub x"@ + nat_text(d as nat) + ", x"@ + nat_text(a as nat) + ", x"@ + nat_text(b as nat),
        Instruction::Mulu(d, a, b) =>
            " mulu x"@ + nat_text(d as nat) + ", x"@ + nat_text(a as nat) + ", x"@ + nat_text(b as nat),
        Instruction::Ld(d, imm, addr) =>
            " ld x"@ + nat_text(d as nat) + ", "@ + int_text(imm as int) + "(x"@ + nat_text(addr as nat) + ")"@,
        Instruction::St(s, imm, addr) =>
            " st x"@ + nat_text(s as nat) + ", "@ + int_text(imm as int) + "(x"@ + nat_text(addr as nat) + ")"@,
        Instruction::Loop(imm) => " loop "@ + nat_text(imm as nat),
        Instruction::LoopPip(imm) => " loop.pip "@ + nat_text(imm as nat),
        Instruction::MovP(d, p) => " mov p"@ + nat_text((d & 63u8) as nat) + ", "@ + bool_text(p),
        Instruction::MovL(r, imm) => " mov "@ + special_register_text(r) + ", "@ + int_text(imm as int),
        Instruction::MovI(d, imm) => " mov x"@ + nat_text(d as nat) + ", "@ + int_text(imm as int),
        Instruction::Mov(d, s) => " mov x"@ + nat_text(d as nat) + ", x"@ + nat_text(s as nat),
        Instruction::Nop => " nop"@,
    }
}

fn push_reg(out: &mut String, prefix: &str, r: u8)
    ensures
        final(out)@ == old(out)@ + prefix@ + nat_text(r as nat),
{
    out.append(prefix);
    push_nat(out, r as u64);
}

fn push_imm(out: &mut String, prefix: &str, imm: i16)
    ensures
        final(out)@ == old(out)@ + prefix@ + int_text(imm as int),
{
    out.append(prefix);
    push_int(out, imm as i64);
}

impl Instruction {
    pub fn unit(&self) -> (u: ExecutionUnit)
        ensures
            u == spec_unit(*self),
    {
        match self {
            Instruction::Ld(_, _, _) | Instruction::St(_, _, _) => ExecutionUnit::Mem,
            Instruction::Loop(_) | Instruction::LoopPip(_) => ExecutionUnit::Branch,
            Instruction::Mulu(_, _, _) => ExecutionUnit::Mul,
            _ => ExecutionUnit::Alu,
        }
    }

    /// Appends the assembly text of the instruction.
    pub fn push_text(&self, out: &mut String)
        ensures
            final(out)@ == old(out)@ + instruction_text(*self),
    {
        let ghost o = old(out)@;
        match *self {
            Instruction::Add(d, a, b) => {
                push_reg(out, " add x", d);
                push_reg(out, ", x", a);
                push_reg(out, ", x", b);
            },
            Instruction::Addi(d, a, imm) => {
                push_reg(out, " addi x", d);
                push_reg(out, ", x", a);
                push_imm(out, ", ", imm);
            },
            Instruction::Sub(d, a, b) => {
                push_reg(out, " sub x", d);
                push_reg(out, ", x", a);
                push_reg(out, ", x", b);
            },
            Instruction::Mulu(d, a, b) => {
                push_reg(out, " mulu x", d);
                push_reg(out, ", x", a);
                push_reg(out, ", x", b);
            },
            Instruction::Ld(d, imm, addr) => {
                push_reg(out, " ld x", d);
                push_imm(out, ", ", imm);
                push_reg(out, "(x", addr);
                out.append(")");
            },
            Instruction::St(s, imm, addr) => {
                push_reg(out, " st x", s);
                push_imm(out, ", ", imm);
                push_reg(out, "(x", addr);
                out.append(")");
            },
            Instruction::Loop(imm) => {
                out.append(" loop ");
                push_nat(out, imm as u64);
            },
            Instruction::LoopPip(imm) => {
                out.append(" loop.pip ");
                push_nat(out, imm as u64);
            },
            Instruction::MovP(d, p) => {
                push_reg(out, " mov p", d & 0b0111_111);
                out.append(", ");
                push_bool(out, p);
            },
            Instruction::MovL(r, imm) => {
                out.append(" mov ");
                r.push_text(out);
                push_imm(out, ", ", imm);
            },
            Instruction::MovI(d, imm) => {
                push_reg(out, " mov x", d);
                push_imm(out, ", ", imm);
            },
            Instruction::Mov(d, s) => {
                push_reg(out, " mov x", d);
                push_reg(out, ", x", s);
            },
            Instruction::Nop => {
                out.append(" nop");
            },
        }
        assert(final(out)@ =~= o + instruction_text(*self));
    }

    pub fn to_string(&self) -> (s: String)
        ensures
            s@ == instruction_text(*self),
    {
        let mut s = String::new();
        self.push_text(&mut s);
        assert(s@ =~= instruction_text(*self));
        s
    }

    pub fn dest(&self) -> (r: Option<u8>)
        ensures
            r == spec_dest(*self),
    {
        match self {
            Instruction::Add(dest, _, _) => Some(*dest),
            Instruction::Addi(dest, _, _) => Some(*dest),
            Instruction::Sub(dest, _, _) => Some(*dest),
            Instruction::Mulu(dest, _, _) => Some(*dest),
            Instruction::Ld(dest, _, _) => Some(*dest),
            Instruction::Mov(dest, _) => Some(*dest),
            Instruction::MovI(dest, _) => Some(*dest),
            _ => None,
        }
    }

    /// The registers read, each once.
    pub fn sources(&self) -> (r: Vec<u8>)
        ensures
            r@ == spec_sources(*self),
    {
        let mut result = Vec::new();
        match *self {
            Instruction::Add(_, opa, opb)
            | Instruction::Sub(_, opa, opb)
            | Instruction::Mulu(_, opa, opb)
            | Instruction::St(opa, _, opb) => {
                result.push(opa);
                if opb != opa {
                    result.push(opb);
                }
            },
            Instruction::Addi(_, opa, _) | Instruction::Ld(_, _, opa) | Instruction::Mov(_, opa) => {
                result.push(opa);
            },
            _ => {},
        }
        assert(result@ =~= spec_sources(*self));
        result
    }

    /// The registers read, in operand order, repetitions kept.
    pub fn operands(&self) -> (r: Vec<u8>)
        ensures
            r@ == spec_operands(*self),
    {
        let mut v = Vec::new();
        match *self {
            Instruction::Add(_, opa, opb) => { v.push(opa); v.push(opb); },
            Instruction::Addi(_, opa, _) => { v.push(opa); },
            Instruction::Sub(_, opa, opb) => { v.push(opa); v.push(opb); },
            Instruction::Mulu(_, opa, opb) => { v.push(opa); v.push(opb); },
            Instruction::Ld(_, _, addr) => { v.push(addr); },
            Instruction::St(source, _, addr) => { v.push(source); v.push(addr); },
            Instruction::Mov(_, src) => { v.push(src); },
            _ => {},
        }
        assert(v@ =~= spec_operands(*self));
        v
    }
}

/// An instruction that carries the predicate register guarding it; register
/// 0 to 31 means "always executed".
#[derive(Copy, Clone, Debug, PartialEq, Eq, Structural)]
pub enum PredicatedInstruction {
    Add(u8, u8, u8, u8),
    Addi(u8, u8, u8, i16),
    Sub(u8, u8, u8, u8),
    Mulu(u8, u8, u8, u8),
    Ld(u8, u8, i16, u8),
    St(u8, u8, i16, u8),
    Loop(usize),
    LoopPip(usize),
    MovP(u8, bool),
    MovL(SpecialRegister, i16),
    MovI(u8, u8, i16),
    Mov(u8, u8, u8),
    Nop,
}

/// The instruction guarded by `pred`; loops and moves into special or
/// predicate registers carry no guard.
pub open spec fn spec_predicate(ins: Instruction, pred: u8) -> PredicatedInstruction {
    match ins {
        Instruction::Add(d, a, b) => PredicatedInstruction::Add(pred, d, a, b),
        Instruction::Addi(d, a, imm) => PredicatedInstruction::Addi(pred, d, a, imm),
        Instruction::Sub(d, a, b) => PredicatedInstruction::Sub(pred, d, a, b),
        Instruction::Mulu(d, a, b) => PredicatedInstruction::Mulu(pred, d, a, b),
        Instruction::Ld(d, imm, addr) => PredicatedInstruction::Ld(pred, d, imm, addr),
        Instruction::St(s, imm, addr) => PredicatedInstruction::St(pred, s, imm, addr),
        Instruction::Loop(t) => PredicatedInstruction::Loop(t),
        Instruction::LoopPip(t) => PredicatedInstruction::LoopPip(t),
        Instruction::MovP(d, v) => PredicatedInstruction::MovP(d, v),
        Instruction::MovL(r, imm) => PredicatedInstruction::MovL(r, imm),
        Instruction::MovI(d, imm) => PredicatedInstruction::MovI(pred, d, imm),
        Instruction::Mov(d, s) => PredicatedInstruction::Mov(pred, d, s),
        Instruction::Nop => PredicatedInstruction::Nop,
    }
}

/// The instruction with its guard dropped.
pub open spec fn spec_unpredicate(p: PredicatedInstruction) -> Instruction {
    match p {
        PredicatedInstruction::Add(_, d, a, b) => Instruction::Add(d, a, b),
        PredicatedInstruction::Addi(_, d, a, imm) => Instruction::Addi(d, a, imm),
        PredicatedInstruction::Sub(_, d, a, b) => Instruction::Sub(d, a, b),
        PredicatedInstruction::Mulu(_, d, a, b) => Instruction::Mulu(d, a, b),
        PredicatedInstruction::Ld(_, d, imm, addr) => Instruction::Ld(d, imm, addr),
        PredicatedInstruction::St(_, s, imm, addr) => Instruction::St(s, imm, addr),
        PredicatedInstruction::Loop(t) => Instruction::Loop(t),
        PredicatedInstruction::LoopPip(t) => Instruction::LoopPip(t),
        PredicatedInstruction::MovP(d, v) => Instruction::MovP(d, v),
        PredicatedInstruction::MovL(r, imm) => Instruction::MovL(r, imm),
        PredicatedInstruction::MovI(_, d, imm) => Instruction::MovI(d, imm),
        PredicatedInstruction::Mov(_, d, s) => Instruction::Mov(d, s),
        PredicatedInstruction::Nop => Instruction::Nop,
    }
}

/// The guard register of a predicated instruction, if it has one.
pub open spec fn spec_guard(p: PredicatedInstruction) -> Option<u8> {
    match p {
        PredicatedInstruction::Add(g, _, _, _) => Some(g),
        PredicatedInstruction::Addi(g, _, _, _) => Some(g),
        PredicatedInstruction::Sub(g, _, _, _) => Some(g),
        PredicatedInstruction::Mulu(g, _, _, _) => Some(g),
        PredicatedInstruction::Ld(g, _, _, _) => Some(g),
        PredicatedInstruction::St(g, _, _, _) => Some(g),
        PredicatedInstruction::MovI(g, _, _) => Some(g),
        PredicatedInstruction::Mov(g, _, _) => Some(g),
        _ => None,
    }
}

/// The assembly text of a predicated instruction: guards from register 32 on
/// are written as a `(pN) ` prefix.
pub open spec fn predicated_text(p: PredicatedInstruction) -> Seq<char> {
    match spec_guard(p) {
        Some(g) => if g < 32 {
            instruction_text(spec_unpredicate(p))
        } else {
            "(p"@ + nat_text(g as nat) + ") "@ + instruction_text(spec_unpredicate(p))
        },
        None => instruction_text(spec_unpredicate(p)),
    }
}

impl PredicatedInstruction {
    pub fn from(ins: &Instruction, pred: u8) -> (r: PredicatedInstruction)
        ensures
            r == spec_predicate(*ins, pred),
    {
        match *ins {
            Instruction::Add(dest, opa, opb) => PredicatedInstruction::Add(pred, dest, opa, opb),
            Instruction::Addi(dest, opa, imm) => PredicatedInstruction::Addi(pred, dest, opa, imm),
            Instruction::Sub(dest, opa, opb) => PredicatedInstruction::Sub(pred, dest, opa, opb),
            Instruction::Mulu(dest, opa, opb) => PredicatedInstruction::Mulu(pred, dest, opa, opb),
            Instruction::Ld(dest, imm, addr) => PredicatedInstruction::Ld(pred, dest, imm, addr),
            Instruction::St(source, imm, addr) => PredicatedInstruction::St(pred, source, imm, addr),
            Instruction::Loop(t) => PredicatedInstruction::Loop(t),
            Instruction::LoopPip(t) => PredicatedInstruction::LoopPip(t),
            Instruction::MovP(dest, val) => PredicatedInstruction::MovP(dest, val),
            Instruction::MovL(spec_reg, imm) => PredicatedInstruction::MovL(spec_reg, imm),
            Instruction::MovI(dest, imm) => PredicatedInstruction::MovI(pred, dest, imm),
            Instruction::Mov(dest, source) => PredicatedInstruction::Mov(pred, dest, source),
            Instruction::Nop => PredicatedInstruction::Nop,
        }
    }

    pub fn to_ins(&self) -> (r: Instruction)
        ensures
            r == spec_unpredicate(*self),
    {
        match *self {
            PredicatedInstruction::Add(_, dest, opa, opb) => Instruction::Add(dest, opa, opb),
            PredicatedInstruction::Addi(_, dest, opa, imm) => Instruction::Addi(dest, opa, imm),
            PredicatedInstruction::Sub(_, dest, opa, opb) => Instruction::Sub(dest, opa, opb),
            PredicatedInstruction::Mulu(_, dest, opa, opb) => Instruction::Mulu(dest, opa, opb),
            PredicatedInstruction::Ld(_, dest, imm, addr) => Instruction::Ld(dest, imm, addr),
            PredicatedInstruction::St(_, src, imm, addr) => Instruction::St(src, imm, addr),
            PredicatedInstruction::Loop(t) => Instruction::Loop(t),
            PredicatedInstruction::LoopPip(t) => Instruction::LoopPip(t),
            PredicatedInstruction::MovP(dest, val) => Instruction::MovP(dest, val),
            PredicatedInstruction::MovL(spec_reg, imm) => Instruction::MovL(spec_reg, imm),
            PredicatedInstruction::MovI(_, dest, imm) => Instruction::MovI(dest, imm),
            PredicatedInstruction::Mov(_, dest, source) => Instruction::Mov(dest, source),
            PredicatedInstruction::Nop => Instruction::Nop,
        }
    }

    /// The guard register, for the instructions that carry one.
    fn guard(&self) -> (r: Option<u8>)
        ensures
            r == spec_guard(*self),
    {
        match *self {
            PredicatedInstruction::Add(g, _, _, _) => Some(g),
            PredicatedInstruction::Addi(g, _, _, _) => Some(g),
            PredicatedInstruction::Sub(g, _, _, _) => Some(g),
            PredicatedInstruction::Mulu(g, _, _, _) => Some(g),
            PredicatedInstruction::Ld(g, _, _, _) => Some(g),
            PredicatedInstruction::St(g, _, _, _) => Some(g),
            PredicatedInstruction::MovI(g, _, _) => Some(g),
            PredicatedInstruction::Mov(g, _, _) => Some(g),
            _ => None,
        }
    }

    pub fn to_string(&self) -> (s: String)
        ensures
            s@ == predicated_text(*self),
    {
        let mut s = String::new();
        match self.guard() {
            Some(g) => {
                if g >= 32 {
                    push_reg(&mut s, "(p", g);
                    s.append(") ");
                }
            },
            None => {},
        }
        self.to_ins().push_text(&mut s);
        assert(s@ =~= predicated_text(*self));
        s
    }
}

/// One bundle: the instructions issued in one cycle, listed per unit.
#[derive(Clone, Debug)]
pub struct VLIW {
    alu: Vec<Instruction>,
    mul: Vec<Instruction>,
    mem: Vec<Instruction>,
    branch: Vec<Instruction>,
}

impl View for VLIW {
    /// The instructions of each unit, indexed by `unit_index`.
    type V = Seq<Seq<Instruction>>;

    closed spec fn view(&self) -> Seq<Seq<Instruction>> {
        seq![self.alu@, self.mul@, self.mem@, self.branch@]
    }
}

/// A bundle lists exactly the four units.
pub broadcast proof fn lemma_vliw_view_len(v: VLIW)
    ensures
        #[trigger] v@.len() == 4,
{
}

/// A bundle with no instruction.
pub open spec fn empty_bundle() -> Seq<Seq<Instruction>> {
    seq![seq![], seq![], seq![], seq![]]
}

/// The text of slot `i` of one unit: the instruction there, or ` nop`.
pub open spec fn slot_text(s: Seq<Instruction>, i: int) -> Seq<char> {
    if i < s.len() { instruction_text(s[i]) } else { " nop"@ }
}

/// A text between double quotes.
pub open spec fn quoted(t: Seq<char>) -> Seq<char> {
    "\""@ + t + "\""@
}

/// The text of a bundle: its five slots `[ALU0, ALU1, Mult, Mem, Branch]`,
/// each quoted.
pub open spec fn bundle_text(b: Seq<Seq<Instruction>>) -> Seq<char> {
    "["@ + quoted(slot_text(b[0], 0)) + ","@ + quoted(slot_text(b[0], 1)) + ","@
        + quoted(slot_text(b[1], 0)) + ","@ + quoted(slot_text(b[2], 0)) + ","@
        + quoted(slot_text(b[3], 0)) + "]"@
}

fn push_slot(out: &mut String, s: &Vec<Instruction>, i: usize)
    ensures
        final(out)@ == old(out)@ + quoted(slot_text(s@, i as int)),
{
    out.append("\"");
    if i < s.len() {
        s[i].push_text(out);
    } else {
        out.append(" nop");
    }
    out.append("\"");
    assert(final(out)@ =~= old(out)@ + quoted(slot_text(s@, i as int)));
}

impl VLIW {
    pub fn new() -> (r: Self)
        ensures
            r@ == empty_bundle(),
    {
        let r = VLIW { alu: Vec::new(), mul: Vec::new(), mem: Vec::new(), branch: Vec::new() };
        assert(r@ =~= empty_bundle());
        r
    }

    pub fn to_string(&self) -> (s: String)
        ensures
            s@ == bundle_text(self@),
    {
        let mut s = String::new();
        s.append("[");
        push_slot(&mut s, &self.alu, 0);
        s.append(",");
        push_slot(&mut s, &self.alu, 1);
        s.append(",");
        push_slot(&mut s, &self.mul, 0);
        s.append(",");
        push_slot(&mut s, &self.mem, 0);
        s.append(",");
        push_slot(&mut s, &self.branch, 0);
        s.append("]");
        assert(s@ =~= bundle_text(self@));
        s
    }

    /// The instructions of one unit, for reading and rewriting in place.
    pub fn iter(&mut self, unit: ExecutionUnit) -> (r: &mut Vec<Instruction>)
        ensures
            r@ == old(self)@[unit_index(unit)],
            final(self)@ == old(self)@.update(unit_index(unit), final(r)@),
    {
        match unit {
            ExecutionUnit::Alu => &mut self.alu,
            ExecutionUnit::Mul => &mut self.mul,
            ExecutionUnit::Mem => &mut self.mem,
            ExecutionUnit::Branch => &mut self.branch,
        }
    }

    /// The instructions of one unit.
    pub fn slots(&self, unit: ExecutionUnit) -> (r: &Vec<Instruction>)
        ensures
            r@ == self@[unit_index(unit)],
    {
        match unit {
            ExecutionUnit::Alu => &self.alu,
            ExecutionUnit::Mul => &self.mul,
            ExecutionUnit::Mem => &self.mem,
            ExecutionUnit::Branch => &self.branch,
        }
    }

    /// Replaces the instruction at position `i` of a unit.
    pub fn set_slot(&mut self, unit: ExecutionUnit, i: usize, instruction: Instruction)
        requires
            i < old(self)@[unit_index(unit)].len(),
        ensures
            final(self)@ == old(self)@.update(unit_index(unit), old(self)@[unit_index(unit)].update(i as int, instruction)),
    {
        self.iter(unit).set(i, instruction);
    }

    pub fn is_available(&self, unit: ExecutionUnit) -> (r: bool)
        ensures
            r == (self@[unit_index(unit)].len() < unit_capacity(unit)),
    {
        self.slots(unit).len() < unit.nb_available()
    }

    /// Adds the instruction to its unit when a slot is free; says whether it did.
    pub fn add(&mut self, instruction: Instruction) -> (r: bool)
        ensures
            r == (old(self)@[unit_index(spec_unit(instruction))].len()
                < unit_capacity(spec_unit(instruction))),
            final(self)@ == if r {
                old(self)@.update(
                    unit_index(spec_unit(instruction)),
                    old(self)@[unit_index(spec_unit(instruction))].push(instruction),
                )
            } else {
                old(self)@
            },
    {
        let unit = instruction.unit();
        if self.is_available(unit) {
            self.iter(unit).push(instruction);
            return true;
        }
        false
    }

    /// Removes the last instruction of a unit.
    pub fn pop(&mut self, unit: ExecutionUnit) -> (r: Option<Instruction>)
        ensures
            old(self)@[unit_index(unit)].len() == 0 ==> r is None && final(self)@ == old(self)@,
            old(self)@[unit_index(unit)].len() > 0 ==> r == Some(old(self)@[unit_index(unit)].last())
                && final(self)@ == old(self)@.update(
                    unit_index(unit),
                    old(self)@[unit_index(unit)].drop_last(),
                ),
    {
        let r = self.iter(unit).pop();
        proof {
            if old(self)@[unit_index(unit)].len() == 0 {
                assert(final(self)@ =~= old(self)@);
            }
        }
        r
    }
}


/// A predicated instruction prints as its instruction, with the stage
/// predicate it was built with written in front as `(pN) ` when that is a
/// rotating predicate (from 32 on) and the instruction reads or writes a
/// general-purpose register; otherwise it prints as the instruction alone.
pub proof fn lemma_predicated_text(ins: Instruction, pred: u8)
    ensures
        pred >= 32 && (spec_dest(ins) is Some || spec_operands(ins).len() > 0) ==>
            predicated_text(spec_predicate(ins, pred)) == "(p"@ + nat_text(pred as nat) + ") "@ + instruction_text(ins),
        !(pred >= 32 && (spec_dest(ins) is Some || spec_operands(ins).len() > 0)) ==>
            predicated_text(spec_predicate(ins, pred)) == instruction_text(ins),
        spec_unpredicate(spec_predicate(ins, pred)) == ins,
        (spec_dest(ins) is Some || spec_operands(ins).len() > 0) ==> spec_guard(spec_predicate(ins, pred)) == Some(pred),
{
}

} // verus!
