use vliw470::dependency::Dependency::{InterLoop, Local, LoopInvariant, PostLoop};
use vliw470::dependency::{get_dependency_table, get_dependency_type, get_depended_upon, Dependency, DependencyList};
use vliw470::instruction::{Instruction, SpecialRegister};

fn get_program() -> Vec<Instruction> {
    vec![
        Instruction::MovL(SpecialRegister::LoopCount, 100),
        Instruction::MovI(2, 0x1000),
        Instruction::MovI(3, 1),
        Instruction::MovI(4, 25),
        Instruction::Ld(5, 0, 2),
        Instruction::Mulu(6, 5, 4),
        Instruction::Mulu(3, 3, 5),
        Instruction::St(6, 0, 2),
        Instruction::Addi(2, 2, 1),
        Instruction::Loop(4),
        Instruction::St(3, 0, 2),
    ]
}

fn get_simple_loop() -> Vec<Instruction> {
    vec![
        Instruction::MovL(SpecialRegister::LoopCount, 100),
        Instruction::MovI(2, 5),
        Instruction::Mulu(2, 2, 2),
        Instruction::Add(2, 2, 2),
        Instruction::Loop(3),
        Instruction::St(2, 0x1000, 0),
    ]
}

#[test]
fn get_dependency_table_works_large_loop() {
    let program = get_program();

    let table = get_dependency_table(&program);

    assert_eq!(table.len(), program.len());
    assert!(table[0].is_empty());
    assert!(table[1].is_empty());
    assert!(table[2].is_empty());
    assert!(table[3].is_empty());
    assert_eq!(*table[4].iter(InterLoop), vec![1, 8]);
    assert_eq!(*table[5].iter(Local), vec![4]);
    assert_eq!(*table[5].iter(LoopInvariant), vec![3]);
    assert_eq!(*table[6].iter(Local), vec![4]);
    assert_eq!(*table[6].iter(InterLoop), vec![2, 6]);
    assert_eq!(*table[7].iter(Local), vec![5]);
    assert_eq!(*table[7].iter(InterLoop), vec![1, 8]);
    assert_eq!(*table[8].iter(InterLoop), vec![1, 8]);
    assert!(table[9].is_empty());
    assert_eq!(*table[10].iter(PostLoop), vec![6, 8]);
}

#[test]
fn get_dependency_table_works_simple_loop() {
    let program = get_simple_loop();

    let table = get_dependency_table(&program);
    assert!(table[0].is_empty());
    assert!(table[1].is_empty());
    assert_eq!(*table[2].iter(Dependency::Local), vec![1]);
    assert_eq!(*table[3].iter(Dependency::InterLoop), vec![2, 3]);
    assert!(table[4].is_empty());
    assert_eq!(*table[5].iter(Dependency::PostLoop), vec![3]);
}

#[test]
fn dependency_type_follows_the_regions() {
    // Loop body [3, 5): before, inside and after it.
    assert_eq!(get_dependency_type(1, 2, 3, 5, false), Some(Local));
    assert_eq!(get_dependency_type(2, 2, 3, 5, false), None);
    assert_eq!(get_dependency_type(1, 4, 3, 5, true), Some(InterLoop));
    assert_eq!(get_dependency_type(1, 4, 3, 5, false), Some(LoopInvariant));
    assert_eq!(get_dependency_type(1, 6, 3, 5, true), Some(LoopInvariant));
    assert_eq!(get_dependency_type(3, 4, 3, 5, false), Some(Local));
    assert_eq!(get_dependency_type(4, 3, 3, 5, false), Some(InterLoop));
    assert_eq!(get_dependency_type(4, 4, 3, 5, false), Some(InterLoop));
    assert_eq!(get_dependency_type(4, 6, 3, 5, false), Some(PostLoop));
    assert_eq!(get_dependency_type(4, 1, 3, 5, false), None);
    assert_eq!(get_dependency_type(6, 7, 3, 5, false), Some(Local));
    assert_eq!(get_dependency_type(6, 6, 3, 5, false), None);
}

#[test]
fn dependency_list_push_pop_sort() {
    let mut list = DependencyList::new();
    assert!(list.is_empty());
    list.push(Local, 7);
    list.push(Local, 2);
    list.push(PostLoop, 5);
    assert!(!list.is_empty());
    assert_eq!(*list.iter(Local), vec![7, 2]);
    list.sort();
    assert_eq!(*list.iter(Local), vec![2, 7]);
    list.pop(Local);
    assert_eq!(*list.iter(Local), vec![2]);
    assert_eq!(*list.iter(PostLoop), vec![5]);
    assert_eq!(*list.iter(InterLoop), Vec::<usize>::new());
}

#[test]
fn dependency_kinds_in_order() {
    assert_eq!(Dependency::iter(), vec![Local, InterLoop, LoopInvariant, PostLoop]);
    assert_eq!(PostLoop.index(), 3);
}

#[test]
fn depended_upon_lists_the_readers() {
    let program = get_program();
    let table = get_dependency_table(&program);
    // The load at 4 is read by 5, 6 (local) and 7 reads 5.
    assert_eq!(get_depended_upon(&program, &table, 4), vec![5, 6]);
    assert_eq!(get_depended_upon(&program, &table, 8), vec![4, 7, 8, 10]);
    assert_eq!(get_depended_upon(&program, &table, 0), Vec::<usize>::new());
}
