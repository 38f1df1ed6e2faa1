use vliw470::dependency::get_dependency_table;
use vliw470::instruction::{Instruction, PredicatedInstruction, SpecialRegister};
use vliw470::pip_reg_alloc::{prepare_loop, realloc_operands, register_realloc};
use vliw470::pip_scheduler::{
    compute_initiation_interval, find_loop_bounds, format_scheduler, internal_pip_scheduler,
    loop_pip_schedule,
};

const NOP: Instruction = Instruction::Nop;
const PNOP: PredicatedInstruction = PredicatedInstruction::Nop;

fn get_large_loop() -> Vec<Instruction> {
    vec![
        Instruction::MovL(SpecialRegister::LoopCount, 100),
        Instruction::MovI(2, 0x1000),
        Instruction::MovI(3, 1),
        Instruction::MovI(4, 25),
        Instruction::Ld(5, 0, 2),
        Instruction::Mulu(6, 5, 4),
        Instruction::Mulu(3, 3, 5),
        Instruction::St(6, 0, 2),
        Instruction::Addi(2, 2, 1),
        Instruction::Loop(4),
        Instruction::St(3, 0, 2),
    ]
}

#[test]
fn pip_scheduler_compute_initiation_interval_works() {
    let mut program: Vec<Instruction> = Vec::new();
    program.push(Instruction::MovL(SpecialRegister::LoopCount, 100));
    program.push(Instruction::MovI(2, 0x1000));
    program.push(Instruction::MovI(3, 1));
    program.push(Instruction::MovI(4, 25));
    program.push(Instruction::Ld(5, 0, 2));
    program.push(Instruction::Mulu(6, 5, 4));
    program.push(Instruction::Mulu(3, 3, 5));
    program.push(Instruction::St(6, 0, 2));
    program.push(Instruction::Addi(2, 2, 1));
    program.push(Instruction::LoopPip(4));
    program.push(Instruction::St(3, 0, 2));
    assert_eq!(compute_initiation_interval(&program), 2);
}

#[test]
fn find_loop_bounds_takes_the_last_loop() {
    assert_eq!(find_loop_bounds(&get_large_loop()), (4, 9));
    let straight = vec![Instruction::MovI(1, 2), Instruction::Add(3, 1, 1)];
    assert_eq!(find_loop_bounds(&straight), (2, 2));
    let two = vec![Instruction::Loop(0), Instruction::MovI(1, 2), Instruction::LoopPip(1)];
    assert_eq!(find_loop_bounds(&two), (1, 2));
}

#[test]
fn pip_schedule_of_the_large_loop() {
    let program = get_large_loop();
    let table = get_dependency_table(&program);
    let (schedule, b0, b1, b2, ii) = internal_pip_scheduler(&program, &table).unwrap();
    // Interval 2 is rejected: the multiply carried around the loop needs 3.
    assert_eq!(ii, 3);
    assert_eq!(schedule, vec![0, 0, 1, 1, 2, 3, 4, 6, 2, 4, 8]);
    assert_eq!((b0, b1, b2), (1, 7, 8));
    // The loop spans a whole number of intervals.
    assert_eq!((b1 - b0) % ii, 0);
}

#[test]
fn pip_schedule_without_loop_is_the_list_schedule() {
    let program = vec![
        Instruction::MovI(1, 2),
        Instruction::MovI(2, 3),
        Instruction::MovI(3, 4),
        Instruction::Mulu(4, 1, 2),
    ];
    let table = get_dependency_table(&program);
    let (schedule, b0, b1, b2, ii) = internal_pip_scheduler(&program, &table).unwrap();
    assert_eq!(schedule, vec![0, 0, 1, 1]);
    assert_eq!((b0, b1, b2, ii), (1, 4, 4, 1));
}

fn expected_layout() -> Vec<[Instruction; 5]> {
    vec![
        [Instruction::MovL(SpecialRegister::LoopCount, 100), Instruction::MovI(2, 0x1000), NOP, NOP, NOP],
        [Instruction::MovI(3, 1), Instruction::MovI(4, 25), NOP, NOP, NOP],
        [Instruction::Addi(2, 2, 1), NOP, NOP, Instruction::Ld(5, 0, 2), NOP],
        [NOP, NOP, Instruction::Mulu(6, 5, 4), NOP, NOP],
        [NOP, NOP, Instruction::Mulu(3, 3, 5), NOP, Instruction::LoopPip(4)],
        [NOP; 5],
        [NOP, NOP, NOP, Instruction::St(6, 0, 2), NOP],
        [NOP; 5],
        [NOP, NOP, NOP, Instruction::St(3, 0, 2), NOP],
    ]
}

fn expected_map() -> Vec<(usize, usize)> {
    vec![(0, 0), (0, 1), (1, 0), (1, 1), (2, 3), (3, 2), (4, 2), (6, 3), (2, 0), (4, 4), (8, 3)]
}

#[test]
fn loop_pip_schedule_lays_out_the_bundles() {
    let (bundles, map, b0, b1, b2, ii) = loop_pip_schedule(get_large_loop()).unwrap();
    assert_eq!(bundles, expected_layout());
    assert_eq!(map, expected_map());
    assert_eq!((b0, b1, b2, ii), (1, 7, 8, 3));
}

#[test]
fn format_scheduler_fills_the_alu_slots_in_order() {
    let program = vec![
        Instruction::MovI(1, 1),
        Instruction::MovI(2, 2),
        Instruction::LoopPip(0),
        Instruction::Loop(0),
        Instruction::St(1, 0, 2),
    ];
    let (bundles, map) = format_scheduler(program, vec![0, 0, 0, 1, 1], 1);
    assert_eq!(bundles[0], [Instruction::MovI(1, 1), Instruction::MovI(2, 2), NOP, NOP, Instruction::LoopPip(0)]);
    // A loop instruction is written in its pipelined form; a pipelined one
    // is written as it is.
    assert_eq!(bundles[1], [NOP, NOP, NOP, Instruction::St(1, 0, 2), Instruction::LoopPip(0)]);
    assert_eq!(map, vec![(0, 0), (0, 1), (0, 4), (1, 4), (1, 3)]);
}

#[test]
fn realloc_operands_renames_every_read() {
    assert_eq!(realloc_operands(Instruction::Add(1, 2, 2), 2, 7), Instruction::Add(1, 7, 7));
    assert_eq!(realloc_operands(Instruction::Add(2, 3, 4), 2, 7), Instruction::Add(2, 3, 4));
    assert_eq!(realloc_operands(Instruction::St(2, 8, 3), 3, 9), Instruction::St(2, 8, 9));
    assert_eq!(realloc_operands(Instruction::Ld(3, 8, 3), 3, 9), Instruction::Ld(3, 8, 9));
    assert_eq!(realloc_operands(Instruction::Mov(5, 3), 3, 1), Instruction::Mov(5, 1));
    assert_eq!(realloc_operands(Instruction::MovP(3, true), 3, 1), Instruction::MovP(3, true));
}

fn allocated_layout() -> Vec<[Instruction; 5]> {
    vec![
        [Instruction::MovL(SpecialRegister::LoopCount, 100), Instruction::MovI(33, 0x1000), NOP, NOP, NOP],
        [Instruction::MovI(42, 1), Instruction::MovI(1, 25), NOP, NOP, NOP],
        [Instruction::Addi(32, 33, 1), NOP, NOP, Instruction::Ld(35, 0, 33), NOP],
        [NOP, NOP, Instruction::Mulu(38, 35, 1), NOP, NOP],
        [NOP, NOP, Instruction::Mulu(41, 42, 35), NOP, Instruction::LoopPip(4)],
        [NOP; 5],
        [NOP, NOP, NOP, Instruction::St(39, 0, 34), NOP],
        [NOP; 5],
        [NOP, NOP, NOP, Instruction::St(42, 0, 33), NOP],
    ]
}

#[test]
fn register_realloc_rotates_the_loop_registers() {
    let program = get_large_loop();
    let mut schedule = expected_layout();
    let ok = register_realloc(&program, expected_map(), &mut schedule, 1, 7, 8, 3);
    assert!(ok);
    assert_eq!(schedule, allocated_layout());
}

#[test]
fn register_realloc_refuses_bounds_outside_the_schedule() {
    let program = get_large_loop();
    let mut schedule = expected_layout();
    assert!(!register_realloc(&program, expected_map(), &mut schedule, 1, 9, 9, 3));
    assert!(!register_realloc(&program, expected_map(), &mut schedule, 1, 7, 8, 0));
    assert!(!register_realloc(&program, expected_map(), &mut schedule, 7, 1, 8, 3));
    assert_eq!(schedule.len(), 9);
}

#[test]
fn prepare_loop_folds_the_stages() {
    let out = prepare_loop(&expected_layout(), 3, 1, 7);
    let expected = vec![
        [PredicatedInstruction::MovL(SpecialRegister::LoopCount, 100), PredicatedInstruction::MovI(0, 2, 0x1000), PNOP, PNOP, PNOP],
        [PredicatedInstruction::MovI(0, 3, 1), PredicatedInstruction::MovI(0, 4, 25), PNOP, PNOP, PNOP],
        [PredicatedInstruction::MovP(32, true), PredicatedInstruction::MovL(SpecialRegister::EpCount, 1), PNOP, PNOP, PNOP],
        [PredicatedInstruction::Addi(32, 2, 2, 1), PNOP, PNOP, PredicatedInstruction::Ld(32, 5, 0, 2), PNOP],
        [PNOP, PNOP, PredicatedInstruction::Mulu(32, 6, 5, 4), PredicatedInstruction::St(33, 6, 0, 2), PNOP],
        [PNOP, PNOP, PredicatedInstruction::Mulu(32, 3, 3, 5), PNOP, PredicatedInstruction::LoopPip(3)],
        [PNOP, PNOP, PNOP, PredicatedInstruction::St(0, 3, 0, 2), PNOP],
    ];
    assert_eq!(out, expected);
    assert_eq!(out[4][3].to_string(), "(p33)  st x6, 0(x2)");
    assert_eq!(out[6][3].to_string(), " st x3, 0(x2)");
}

#[test]
fn prepare_loop_uses_free_alu_slots_before_the_loop() {
    let schedule = vec![
        [NOP, NOP, NOP, Instruction::Ld(1, 0, 2), NOP],
        [NOP; 5],
        [NOP, NOP, NOP, NOP, Instruction::LoopPip(1)],
    ];
    let out = prepare_loop(&schedule, 1, 0, 2);
    assert_eq!(out.len(), 2);
    assert_eq!(
        out[0],
        [
            PredicatedInstruction::MovP(32, true),
            PredicatedInstruction::MovL(SpecialRegister::EpCount, 1),
            PNOP,
            PredicatedInstruction::Ld(0, 1, 0, 2),
            PNOP
        ]
    );
    assert_eq!(out[1], [PNOP, PNOP, PNOP, PNOP, PredicatedInstruction::LoopPip(1)]);
}

fn small_loop() -> Vec<Instruction> {
    vec![Instruction::MovI(5, 7), Instruction::Ld(6, 0, 5), Instruction::Addi(7, 6, 1), Instruction::Loop(1)]
}

#[test]
fn loop_pip_schedule_of_a_small_loop() {
    let nop = Instruction::Nop;
    let (bundles, map, b0, b1, b2, ii) = loop_pip_schedule(small_loop()).unwrap();
    assert_eq!(
        bundles,
        vec![
            [Instruction::MovI(5, 7), nop, nop, nop, nop],
            [nop, nop, nop, Instruction::Ld(6, 0, 5), Instruction::LoopPip(1)],
            [Instruction::Addi(7, 6, 1), nop, nop, nop, nop],
        ]
    );
    assert_eq!(map, vec![(0, 0), (1, 3), (2, 0), (1, 4)]);
    assert_eq!((b0, b1, b2, ii), (0, 2, 2, 1));
}

#[test]
fn register_realloc_of_a_small_loop() {
    let nop = Instruction::Nop;
    let program = small_loop();
    let (mut bundles, map, b0, b1, b2, ii) = loop_pip_schedule(program.clone()).unwrap();
    assert!(register_realloc(&program, map, &mut bundles, b0, b1, b2, ii));
    assert_eq!(
        bundles,
        vec![
            [Instruction::MovI(1, 7), nop, nop, nop, nop],
            [nop, nop, nop, Instruction::Ld(32, 0, 1), Instruction::LoopPip(1)],
            [Instruction::Addi(35, 33, 1), nop, nop, nop, nop],
        ]
    );
}

#[test]
fn pipelined_loop_waits_for_values_carried_from_later_instructions() {
    let program = vec![
        Instruction::MovI(5, 3),
        Instruction::Add(4, 2, 2),
        Instruction::Ld(6, 0, 5),
        Instruction::Mulu(2, 6, 6),
        Instruction::Loop(1),
    ];
    let table = get_dependency_table(&program);
    let (_, map, _, _, _, ii) = loop_pip_schedule(program.clone()).unwrap();
    // the add reads x2 from the multiply of the previous iteration
    let lat = program[3].unit().latency() as usize;
    assert!(map[3].0 + lat <= map[1].0 + ii);
    assert!(table[1].iter(vliw470::dependency::Dependency::InterLoop).contains(&3));
}
