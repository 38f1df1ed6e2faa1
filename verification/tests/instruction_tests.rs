use vliw470::instruction::{ExecutionUnit, Instruction, PredicatedInstruction, SpecialRegister, VLIW};

#[test]
fn units_latencies_and_capacities() {
    assert_eq!(ExecutionUnit::iter(), vec![ExecutionUnit::Alu, ExecutionUnit::Mul, ExecutionUnit::Mem, ExecutionUnit::Branch]);
    assert_eq!(ExecutionUnit::Mul.latency(), 3);
    assert_eq!(ExecutionUnit::Mem.latency(), 1);
    assert_eq!(ExecutionUnit::Alu.nb_available(), 2);
    assert_eq!(ExecutionUnit::Branch.nb_available(), 1);
    assert_eq!(Instruction::Ld(1, 0, 2).unit(), ExecutionUnit::Mem);
    assert_eq!(Instruction::LoopPip(3).unit(), ExecutionUnit::Branch);
    assert_eq!(Instruction::Mulu(1, 2, 3).unit(), ExecutionUnit::Mul);
    assert_eq!(Instruction::Nop.unit(), ExecutionUnit::Alu);
}

#[test]
fn instruction_text() {
    assert_eq!(Instruction::Add(1, 2, 3).to_string(), " add x1, x2, x3");
    assert_eq!(Instruction::Addi(1, 2, -7).to_string(), " addi x1, x2, -7");
    assert_eq!(Instruction::Sub(4, 5, 6).to_string(), " sub x4, x5, x6");
    assert_eq!(Instruction::Mulu(4, 5, 6).to_string(), " mulu x4, x5, x6");
    assert_eq!(Instruction::Ld(5, -8, 2).to_string(), " ld x5, -8(x2)");
    assert_eq!(Instruction::St(3, 4096, 0).to_string(), " st x3, 4096(x0)");
    assert_eq!(Instruction::Loop(12).to_string(), " loop 12");
    assert_eq!(Instruction::LoopPip(7).to_string(), " loop.pip 7");
    assert_eq!(Instruction::MovP(33, false).to_string(), " mov p33, false");
    assert_eq!(Instruction::MovP(96, true).to_string(), " mov p32, true");
    assert_eq!(Instruction::MovL(SpecialRegister::EpCount, 3).to_string(), " mov EC, 3");
    assert_eq!(Instruction::MovL(SpecialRegister::LoopCount, -1).to_string(), " mov LC, -1");
    assert_eq!(Instruction::MovI(9, 0).to_string(), " mov x9, 0");
    assert_eq!(Instruction::Mov(9, 10).to_string(), " mov x9, x10");
    assert_eq!(Instruction::Nop.to_string(), " nop");
    assert_eq!(SpecialRegister::LoopCount.to_string(), "LC");
}

#[test]
fn destinations_operands_and_sources() {
    assert_eq!(Instruction::Add(1, 2, 2).dest(), Some(1));
    assert_eq!(Instruction::St(3, 0, 4).dest(), None);
    assert_eq!(Instruction::MovP(3, true).dest(), None);
    assert_eq!(Instruction::Add(1, 2, 2).operands(), vec![2, 2]);
    assert_eq!(Instruction::Add(1, 2, 2).sources(), vec![2]);
    assert_eq!(Instruction::St(3, 0, 4).operands(), vec![3, 4]);
    assert_eq!(Instruction::St(3, 0, 4).sources(), vec![3, 4]);
    assert_eq!(Instruction::Ld(3, 0, 4).operands(), vec![4]);
    assert_eq!(Instruction::MovI(3, 0).operands(), Vec::<u8>::new());
}

#[test]
fn predication_round_trip_and_text() {
    let p = PredicatedInstruction::from(&Instruction::Add(1, 2, 3), 34);
    assert_eq!(p, PredicatedInstruction::Add(34, 1, 2, 3));
    assert_eq!(p.to_ins(), Instruction::Add(1, 2, 3));
    assert_eq!(p.to_string(), "(p34)  add x1, x2, x3");
    let q = PredicatedInstruction::from(&Instruction::Mov(1, 2), 0);
    assert_eq!(q.to_string(), " mov x1, x2");
    let l = PredicatedInstruction::from(&Instruction::LoopPip(5), 40);
    assert_eq!(l, PredicatedInstruction::LoopPip(5));
    assert_eq!(l.to_string(), " loop.pip 5");
    assert_eq!(PredicatedInstruction::from(&Instruction::Nop, 33), PredicatedInstruction::Nop);
}

#[test]
fn bundle_slots_and_text() {
    let mut bundle = VLIW::new();
    assert_eq!(bundle.to_string(), "[\" nop\",\" nop\",\" nop\",\" nop\",\" nop\"]");
    assert!(bundle.add(Instruction::Add(1, 2, 3)));
    assert!(bundle.add(Instruction::MovI(4, 5)));
    assert!(!bundle.is_available(ExecutionUnit::Alu));
    assert!(!bundle.add(Instruction::Sub(1, 2, 3)));
    assert!(bundle.add(Instruction::St(1, 8, 2)));
    assert!(bundle.add(Instruction::Loop(0)));
    assert_eq!(
        bundle.to_string(),
        "[\" add x1, x2, x3\",\" mov x4, 5\",\" nop\",\" st x1, 8(x2)\",\" loop 0\"]"
    );
    assert_eq!(bundle.pop(ExecutionUnit::Alu), Some(Instruction::MovI(4, 5)));
    assert_eq!(bundle.pop(ExecutionUnit::Mul), None);
    assert!(bundle.is_available(ExecutionUnit::Alu));
    assert_eq!(bundle.iter(ExecutionUnit::Mem).len(), 1);
}
