use vliw470::instruction::{Instruction, SpecialRegister};
use vliw470::parser::parse_instruction;

#[test]
fn parses_every_form() {
    assert_eq!(parse_instruction("add x1, x2, x3"), Ok(Instruction::Add(1, 2, 3)));
    assert_eq!(parse_instruction("addi x1, x2, 0x10"), Ok(Instruction::Addi(1, 2, 16)));
    assert_eq!(parse_instruction("sub x4, x5, x6"), Ok(Instruction::Sub(4, 5, 6)));
    assert_eq!(parse_instruction("mulu x4, x5, x6"), Ok(Instruction::Mulu(4, 5, 6)));
    assert_eq!(parse_instruction("ld x5, 8(x2)"), Ok(Instruction::Ld(5, 8, 2)));
    assert_eq!(parse_instruction("st x3, -4(x2)"), Ok(Instruction::St(3, -4, 2)));
    assert_eq!(parse_instruction("loop 4"), Ok(Instruction::Loop(4)));
    assert_eq!(parse_instruction("loop.pip 3"), Ok(Instruction::LoopPip(3)));
    assert_eq!(parse_instruction("mov LC, 100"), Ok(Instruction::MovL(SpecialRegister::LoopCount, 100)));
    assert_eq!(parse_instruction("mov EC, 2"), Ok(Instruction::MovL(SpecialRegister::EpCount, 2)));
    assert_eq!(parse_instruction("mov p32, true"), Ok(Instruction::MovP(32, true)));
    assert_eq!(parse_instruction("mov x1, x2"), Ok(Instruction::Mov(1, 2)));
    assert_eq!(parse_instruction("mov x1, 5"), Ok(Instruction::MovI(1, 5)));
    assert_eq!(parse_instruction("add x1,, x2,x3"), Ok(Instruction::Add(1, 2, 3)));
}

#[test]
fn a_negative_loop_target_wraps() {
    assert_eq!(parse_instruction("loop -1"), Ok(Instruction::Loop((-1i16) as usize)));
}

#[test]
fn reports_each_error() {
    assert_eq!(parse_instruction(""), Err("Empty input".to_string()));
    assert_eq!(parse_instruction("nop"), Err("Unknown instruction".to_string()));
    assert_eq!(
        parse_instruction("add x1, x2"),
        Err("Incorrect number of operands for 'add' instruction".to_string())
    );
    assert_eq!(
        parse_instruction("loop"),
        Err("Incorrect number of operands for 'loop' instruction".to_string())
    );
    assert_eq!(parse_instruction("add x97, x1, x2"), Err("Invalid register: x97".to_string()));
    assert_eq!(
        parse_instruction("addi x1, x2, 40000"),
        Err("Invalid immediate value: 40000".to_string())
    );
    assert_eq!(
        parse_instruction("mov p1, maybe"),
        Err("Invalid predicate value: maybe".to_string())
    );
    assert_eq!(parse_instruction("mov y1, 5"), Err("Invalid register: y1".to_string()));
}

#[test]
fn a_move_needs_a_register_kind() {
    assert_eq!(
        parse_instruction("mov 7, 5"),
        Err("Incorrect format of operands for 'mov' instruction".to_string())
    );
}

#[test]
fn parsing_a_printed_instruction_gives_it_back() {
    let all = vec![
        Instruction::Add(1, 2, 3),
        Instruction::Addi(4, 5, -7),
        Instruction::Sub(96, 0, 1),
        Instruction::Mulu(10, 20, 30),
        Instruction::Ld(1, -4, 2),
        Instruction::St(3, 12, 4),
        Instruction::Loop(3),
        Instruction::LoopPip(32767),
        Instruction::MovP(63, true),
        Instruction::MovP(0, false),
        Instruction::MovL(SpecialRegister::LoopCount, 100),
        Instruction::MovL(SpecialRegister::EpCount, -1),
        Instruction::MovI(2, 0x1000),
        Instruction::Mov(1, 2),
    ];
    for i in all {
        assert_eq!(parse_instruction(&i.to_string()), Ok(i));
    }
}
