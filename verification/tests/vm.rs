use dm::opcode::Opcode;
use dm::process::{Process, Step};
use dm::register::Register;

#[test]
fn test_create_process() {
    let test_process = Process::new(0, vec![], vec![]);
    assert_eq!(test_process.registers[0], Register::default());
    assert_eq!(test_process.position(), 0);
    assert_eq!(test_process.bytecode().len(), 0);
}

#[test]
fn test_load_program() {
    let test_process = Process::new(
        0,
        vec![
            Opcode::LOAD_IMMEDIATE.to_byte(),
            0,
            0x2A,
            0x3F,
            0x80,
            0x00,
            0x00,
            Opcode::HALT.to_byte(),
        ],
        vec![],
    );
    assert_eq!(test_process.bytecode().len(), 8);
}

#[test]
fn test_execute_one() {
    let mut test_process = Process::new(
        0,
        vec![
            Opcode::LOAD_IMMEDIATE.to_byte(),
            0,
            0x2A,
            0x00,
            0x00,
            0x80,
            0x3F,
            Opcode::HALT.to_byte(),
        ],
        vec![],
    );
    assert!(matches!(test_process.execute_one(), Step::Continue));
    assert_eq!(test_process.position(), 7);

    let first_register = &test_process.registers[0];
    assert_eq!(first_register.tag, 0x2A);
    assert_eq!(f32::from_bits(first_register.value), 1.0);
}

#[test]
fn test_add() {
    let mut test_process = Process::new(
        0,
        vec![
            Opcode::LOAD_IMMEDIATE.to_byte(),
            0,
            0x2A,
            0x00,
            0x00,
            0x80,
            0x3F,
            Opcode::LOAD_IMMEDIATE.to_byte(),
            1,
            0x2A,
            0x00,
            0x00,
            0x80,
            0x3F,
            Opcode::ADD.to_byte(),
            0,
            1,
            2,
            Opcode::HALT.to_byte(),
        ],
        vec![],
    );
    assert!(matches!(test_process.execute_one(), Step::Continue));
    assert!(matches!(test_process.execute_one(), Step::Continue));
    match test_process.execute_one() {
        Step::Arithmetic { op, left, right } => {
            assert_eq!(op, Opcode::ADD);
            let sum = f32::from_bits(left) + f32::from_bits(right);
            assert!(test_process.supply_number(sum.to_bits()));
        }
        other => panic!("unexpected step {:?}", other),
    }

    let result_register = &test_process.registers[2];
    assert_eq!(result_register.tag, 0x2A);
    assert_eq!(f32::from_bits(result_register.value), 2.0);

    println!("{:#?}", test_process);
}
