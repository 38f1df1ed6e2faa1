use vliw470::dependency::get_dependency_table;
use vliw470::instruction::{ExecutionUnit, Instruction, SpecialRegister};
use vliw470::scheduler::{
    compute_initiation_interval, fix_schedule_offsets, get_asap_schedule, get_local_schedule,
    get_loop_schedule, get_vliw_schedule, has_carried_pair,
};

fn get_simple_loop() -> Vec<Instruction> {
    vec![
        Instruction::MovL(SpecialRegister::LoopCount, 100),
        Instruction::MovI(2, 5),
        Instruction::Mulu(2, 2, 2),
        Instruction::Add(2, 2, 2),
        Instruction::Loop(3),
        Instruction::St(2, 0x1000, 0),
    ]
}

fn get_large_loop() -> Vec<Instruction> {
    vec![
        Instruction::MovL(SpecialRegister::LoopCount, 100),
        Instruction::MovI(2, 0x1000),
        Instruction::MovI(3, 1),
        Instruction::MovI(4, 25),
        Instruction::Ld(5, 0, 2),
        Instruction::Mulu(6, 5, 4),
        Instruction::Mulu(3, 3, 5),
        Instruction::St(6, 0, 2),
        Instruction::Addi(2, 2, 1),
        Instruction::Loop(4),
        Instruction::St(3, 0, 2),
    ]
}

#[test]
fn scheduler_compute_initiation_interval_works() {
    let program = vec![
        Instruction::Add(0, 0, 0),
        Instruction::Add(0, 0, 0),
        Instruction::Add(0, 0, 0),
        Instruction::Add(0, 0, 0),
        Instruction::Mulu(0, 0, 0),
        Instruction::Mulu(0, 0, 0),
        Instruction::Ld(0, 0, 0),
        Instruction::Ld(0, 0, 0),
        Instruction::Ld(0, 0, 0),
        Instruction::Ld(0, 0, 0),
        Instruction::Loop(0),
    ];
    assert_eq!(compute_initiation_interval(&program), 4);
}

#[test]
fn get_local_schedule_works_bb0() {
    let program = get_simple_loop();
    let dep_table = get_dependency_table(&program);
    let schedule = get_local_schedule(&program[0..3], &dep_table, 0);
    let expected = vec![0, 0, 1];
    assert_eq!(schedule, expected);
}

#[test]
fn get_local_schedule_works_bb2() {
    let program = get_simple_loop();
    let dep_table = get_dependency_table(&program);
    let schedule = get_local_schedule(&program[5..], &dep_table, 5);
    assert_eq!(schedule, vec![0]);
}

#[test]
fn fix_schedule_offsets_works() {
    let program = get_simple_loop();
    let dep_table = get_dependency_table(&program);
    let mut schedule = get_local_schedule(&program[0..3], &dep_table, 0);
    let mut body = get_loop_schedule(&program[3..5], &dep_table, 3);
    let mut tail = get_loop_schedule(&program[5..], &dep_table, 5);
    schedule.append(&mut body);
    fix_schedule_offsets(&mut schedule, &program, &dep_table, 3);
    assert_eq!(schedule, vec![0, 0, 1, 4, 4]);
}

#[test]
fn get_loop_schedule_works_on_small_loop() {
    let program = get_simple_loop();
    let dep_table = get_dependency_table(&program);
    let schedule = get_loop_schedule(&program[3..5], &dep_table, 3);
    let expected = vec![0, 0];
    assert_eq!(schedule, expected);
}

#[test]
fn get_loop_schedule_works_on_large_loop() {
    let program = get_large_loop();
    let dep_table = get_dependency_table(&program);
    let schedule = get_loop_schedule(&program[4..10], &dep_table, 4);
    let expected = vec![0, 1, 2, 4, 0, 4];
    assert_eq!(schedule, expected);
}

#[test]
fn get_asap_schedule_works_simple_loop() {
    let program = get_simple_loop();
    let dep_table = get_dependency_table(&program);
    let schedule = get_asap_schedule(&program, &dep_table, 3, 5);
    let expected = vec![0, 0, 1, 4, 4, 5];
    assert_eq!(schedule, expected);
}

#[test]
fn get_asap_schedule_works_large_loop() {
    let program = get_large_loop();
    let dep_table = get_dependency_table(&program);
    let schedule = get_asap_schedule(&program, &dep_table, 4, 10);
    let expected = vec![0, 0, 1, 1, 2, 3, 4, 6, 2, 6, 7];
    assert_eq!(schedule, expected);
}

#[test]
fn vliw_schedule_works_large_loop_dest() {
    let program = get_large_loop();
    let dep_table = get_dependency_table(&program);
    let mut bundles = get_vliw_schedule(&program, &dep_table);
    assert_eq!(bundles[0].iter(ExecutionUnit::Alu)[0].dest(), None);
    assert_eq!(bundles[0].iter(ExecutionUnit::Alu)[1].dest(), Some(1));
    assert_eq!(bundles[1].iter(ExecutionUnit::Alu)[0].dest(), Some(2));
    assert_eq!(bundles[1].iter(ExecutionUnit::Alu)[1].dest(), Some(3));
    assert_eq!(bundles[2].iter(ExecutionUnit::Alu)[0].dest(), Some(4));
    assert_eq!(bundles[2].iter(ExecutionUnit::Mem)[0].dest(), Some(5));
    assert_eq!(bundles[3].iter(ExecutionUnit::Mul)[0].dest(), Some(6));
    assert_eq!(bundles[4].iter(ExecutionUnit::Mul)[0].dest(), Some(7));
}

#[test]
fn vliw_schedule_works_large_loop_ops() {
    let program = get_large_loop();
    let dep_table = get_dependency_table(&program);
    let mut bundles = get_vliw_schedule(&program, &dep_table);
    assert_eq!(bundles[2].iter(ExecutionUnit::Alu)[0].operands(), vec![1]);
    assert_eq!(bundles[2].iter(ExecutionUnit::Mem)[0].operands(), vec![1]);
    assert_eq!(bundles[3].iter(ExecutionUnit::Mul)[0].operands(), vec![5, 3]);
    assert_eq!(bundles[4].iter(ExecutionUnit::Mul)[0].operands(), vec![2, 5]);
    assert_eq!(bundles[6].iter(ExecutionUnit::Alu)[0].operands(), vec![4]);
    assert_eq!(bundles[7].iter(ExecutionUnit::Alu)[0].operands(), vec![7]);
    assert_eq!(bundles[8].iter(ExecutionUnit::Mem)[0].operands(), vec![7, 4]);
}

#[test]
fn vliw_schedule_works_simple_loop_dest() {
    let program = get_simple_loop();
    let dep_table = get_dependency_table(&program);
    let mut bundles = get_vliw_schedule(&program, &dep_table);
    assert_eq!(bundles[0].iter(ExecutionUnit::Alu)[1].dest(), Some(1));
    assert_eq!(bundles[1].iter(ExecutionUnit::Mul)[0].dest(), Some(2));
    assert_eq!(bundles[4].iter(ExecutionUnit::Alu)[0].dest(), Some(3));
}

#[test]
fn vliw_schedule_puts_the_loop_at_the_end_of_its_body() {
    let program = get_large_loop();
    let dep_table = get_dependency_table(&program);
    let mut bundles = get_vliw_schedule(&program, &dep_table);
    let mut loops = Vec::new();
    for b in 0..bundles.len() {
        for ins in bundles[b].iter(ExecutionUnit::Branch).iter() {
            loops.push((b, *ins));
        }
    }
    assert_eq!(loops.len(), 1);
    assert_eq!(loops[0].1, Instruction::Loop(2));
    assert!(bundles[2].iter(ExecutionUnit::Mem)[0] == Instruction::Ld(5, 0, 1));
}

#[test]
fn has_carried_pair_finds_two_producers_of_one_register() {
    let program = get_large_loop();
    let dep_table = get_dependency_table(&program);
    assert!(has_carried_pair(&program, &dep_table));
    let straight = vec![Instruction::MovI(1, 1), Instruction::Add(2, 1, 1)];
    let straight_table = get_dependency_table(&straight);
    assert!(!has_carried_pair(&straight, &straight_table));
}
