use vliw470::compile::{compile, has_loop};
use vliw470::dependency::get_dependency_table;
use vliw470::instruction::{Instruction, PredicatedInstruction, SpecialRegister, VLIW};
use vliw470::listing::{extract_strings, pipelined_text, schedule_text};
use vliw470::parser::parse_instruction;
use vliw470::scheduler::get_vliw_schedule;

fn get_large_loop() -> Vec<Instruction> {
    vec![
        Instruction::MovL(SpecialRegister::LoopCount, 100),
        Instruction::MovI(2, 0x1000),
        Instruction::MovI(3, 1),
        Instruction::MovI(4, 25),
        Instruction::Ld(5, 0, 2),
        Instruction::Mulu(6, 5, 4),
        Instruction::Mulu(3, 3, 5),
        Instruction::St(6, 0, 2),
        Instruction::Addi(2, 2, 1),
        Instruction::Loop(4),
        Instruction::St(3, 0, 2),
    ]
}

#[test]
fn extract_strings_keeps_the_quoted_pieces() {
    assert_eq!(
        extract_strings("[\"add x1, x2, x3\", \"loop 4\"],"),
        vec!["add x1, x2, x3".to_string(), ",".to_string(), "loop 4".to_string()]
    );
    assert_eq!(extract_strings("  \"mov LC, 100\","), vec!["mov LC, 100".to_string()]);
    assert_eq!(extract_strings("x"), Vec::<String>::new());
    assert_eq!(extract_strings(""), Vec::<String>::new());
    assert_eq!(extract_strings("[ ]"), Vec::<String>::new());
    assert_eq!(extract_strings("é"), vec!["é".to_string()]);
    assert_eq!(extract_strings("\u{3000}ab\u{3000}"), vec!["ab".to_string()]);
}

#[test]
fn schedule_listing_text() {
    assert_eq!(schedule_text(&Vec::new()), "[\n\n]\n");
    let mut b = VLIW::new();
    b.add(Instruction::MovI(1, 2));
    assert_eq!(
        schedule_text(&vec![b, VLIW::new()]),
        "[\n\t[\" mov x1, 2\",\" nop\",\" nop\",\" nop\",\" nop\"],\n\t[\" nop\",\" nop\",\" nop\",\" nop\",\" nop\"]\n]\n"
    );
}

#[test]
fn pipelined_listing_text() {
    let nop = PredicatedInstruction::Nop;
    let row = [PredicatedInstruction::Add(33, 1, 2, 3), nop, nop, nop, PredicatedInstruction::LoopPip(1)];
    assert_eq!(
        pipelined_text(&vec![row]),
        "[\n\t[\"(p33)  add x1, x2, x3\", \" nop\", \" nop\", \" nop\", \" loop.pip 1\"]\n]\n"
    );
}

#[test]
fn has_loop_looks_for_plain_loops() {
    assert!(has_loop(&get_large_loop()));
    assert!(!has_loop(&vec![Instruction::MovI(1, 1), Instruction::LoopPip(0)]));
}

#[test]
fn compile_without_pipelining_lists_the_vliw_schedule() {
    let program = get_large_loop();
    let table = get_dependency_table(&program);
    let bundles = get_vliw_schedule(&program, &table);
    assert_eq!(compile(&program, false), Some(schedule_text(&bundles)));
}

#[test]
fn compile_pipelines_the_large_loop() {
    let expected = "[\n".to_string()
        + "\t[\" mov LC, 100\", \" mov x33, 4096\", \" nop\", \" nop\", \" nop\"],\n"
        + "\t[\" mov x42, 1\", \" mov x1, 25\", \" nop\", \" nop\", \" nop\"],\n"
        + "\t[\" mov p32, true\", \" mov EC, 1\", \" nop\", \" nop\", \" nop\"],\n"
        + "\t[\"(p32)  addi x32, x33, 1\", \" nop\", \" nop\", \"(p32)  ld x35, 0(x33)\", \" nop\"],\n"
        + "\t[\" nop\", \" nop\", \"(p32)  mulu x38, x35, x1\", \"(p33)  st x39, 0(x34)\", \" nop\"],\n"
        + "\t[\" nop\", \" nop\", \"(p32)  mulu x41, x42, x35\", \" nop\", \" loop.pip 3\"],\n"
        + "\t[\" nop\", \" nop\", \" nop\", \" st x42, 0(x33)\", \" nop\"]\n"
        + "]\n";
    assert_eq!(compile(&get_large_loop(), true), Some(expected));
}

#[test]
fn compile_schedules_a_pipelined_loop_without_pipelining() {
    let program = vec![Instruction::MovI(1, 1), Instruction::LoopPip(0)];
    let expected = "[\n".to_string()
        + "\t[\" mov x1, 1\",\" nop\",\" nop\",\" nop\",\" loop.pip 0\"]\n"
        + "]\n";
    assert_eq!(compile(&program, false), Some(expected.clone()));
    assert_eq!(compile(&program, true), Some(expected));
}

#[test]
fn compile_refuses_a_loop_that_jumps_too_far() {
    let forward = vec![Instruction::Loop(3), Instruction::MovI(1, 1)];
    assert_eq!(compile(&forward, false), None);
    let to_the_end = vec![Instruction::MovI(1, 1), Instruction::Loop(2)];
    assert_eq!(compile(&to_the_end, false), None);
}

#[test]
fn compile_schedules_a_pipelined_loop_after_a_loop() {
    let program = vec![Instruction::Loop(0), Instruction::LoopPip(0)];
    let expected = "[\n".to_string()
        + "\t[\" nop\",\" nop\",\" nop\",\" nop\",\" loop 0\"],\n"
        + "\t[\" nop\",\" nop\",\" nop\",\" nop\",\" loop.pip 0\"]\n"
        + "]\n";
    assert_eq!(compile(&program, false), Some(expected));
}

#[test]
fn compile_lists_the_loop_example_without_pipelining() {
    let lines = [
        "mov LC, 100", "mov x2, 10", "mov x3, 0x1000",
        "ld x4, 0(x3)", "add x4, x4, x2", "st x4, 0(x3)", "loop 3",
    ];
    let program: Vec<Instruction> = lines.iter().map(|l| parse_instruction(l).unwrap()).collect();
    let expected = "[\n".to_string()
        + "\t[\" mov LC, 100\",\" mov x1, 10\",\" nop\",\" nop\",\" nop\"],\n"
        + "\t[\" mov x2, 4096\",\" nop\",\" nop\",\" nop\",\" nop\"],\n"
        + "\t[\" nop\",\" nop\",\" nop\",\" ld x3, 0(x2)\",\" nop\"],\n"
        + "\t[\" add x4, x3, x1\",\" nop\",\" nop\",\" nop\",\" nop\"],\n"
        + "\t[\" nop\",\" nop\",\" nop\",\" st x4, 0(x2)\",\" loop 2\"]\n"
        + "]\n";
    assert_eq!(compile(&program, false), Some(expected));
}

#[test]
fn compile_schedules_a_loop_onto_the_next_instruction() {
    let program = vec![Instruction::MovI(1, 1), Instruction::Loop(2), Instruction::MovI(2, 3)];
    let expected = "[\n".to_string()
        + "\t[\" mov x1, 1\",\" nop\",\" nop\",\" nop\",\" loop 1\"],\n"
        + "\t[\" mov x2, 3\",\" nop\",\" nop\",\" nop\",\" nop\"]\n"
        + "]\n";
    assert_eq!(compile(&program, false), Some(expected));
}
