use dm::ast::{
    BinaryOp, Expression, Follow, IfArm, IfChain, Procedure, Statement, Term, VarStatement,
};
use dm::compiler::compile;
use dm::opcode::Opcode;
use dm::process::{Fault, Process, Step};
use dm::register::{Register, NUMBER_TAG};
use dm::vm::{Action, VM};

fn lit(n: i32) -> Expression {
    Expression::Base { unary: vec![], term: Term::Int(n), follow: vec![] }
}

fn lit_f(x: f32) -> Expression {
    Expression::Base { unary: vec![], term: Term::Float(x.to_bits()), follow: vec![] }
}

fn ident(name: &str) -> Expression {
    Expression::Base { unary: vec![], term: Term::Ident(name.to_string()), follow: vec![] }
}

fn binary(op: BinaryOp, lhs: Expression, rhs: Expression) -> Expression {
    Expression::BinaryOp { op, lhs: Box::new(lhs), rhs: Box::new(rhs) }
}

fn ret(expr: Expression) -> Statement {
    Statement::Return(Some(expr))
}

fn procedure(parameters: &[&str], code: Vec<Statement>) -> Procedure {
    Procedure { parameters: parameters.iter().map(|p| p.to_string()).collect(), code: Some(code) }
}

fn number(x: f32) -> Register {
    Register::new(NUMBER_TAG, x.to_bits())
}

fn arithmetic(op: Opcode, left: u32, right: u32) -> u32 {
    let (a, b) = (f32::from_bits(left), f32::from_bits(right));
    let result = match op {
        Opcode::ADD => a + b,
        Opcode::SUB => a - b,
        Opcode::MUL => a * b,
        Opcode::DIV => a / b,
        other => panic!("no arithmetic: {:?}", other),
    };
    result.to_bits()
}

/// Runs procedure `id` to its end. Fields are answered with the field name
/// as a number, native calls with the sum of their arguments' payloads.
fn drive(vm: &mut VM, id: u32, args: Vec<Register>) -> Result<Register, Fault> {
    let mut action = vm.run_program(id, args);
    loop {
        action = match action {
            Action::Continue => vm.execute(1000),
            Action::Finished(value) => return Ok(value),
            Action::Arithmetic { op, left, right } => {
                vm.resume_number(arithmetic(op, left, right))
            }
            Action::GetField { source: _, field } => vm.resume_value(number(field as f32)),
            Action::NativeCall { id: _, args } => {
                vm.resume_value(Register::new(7, args.iter().map(|a| a.value).sum()))
            }
            Action::Fault(fault) => return Err(fault),
        }
    }
}

fn run(proc: &Procedure, args: Vec<Register>) -> Register {
    let mut vm = VM::new();
    vm.add_program(1, compile(proc).unwrap());
    drive(&mut vm, 1, args).unwrap()
}

#[test]
fn integer_literals_come_back_as_floats() {
    for n in [0, 1, -1, 5, 255, 16777216, 16777217, 123456789, i32::MAX, i32::MIN, -16777219] {
        let result = run(&procedure(&[], vec![ret(lit(n))]), vec![]);
        assert_eq!(result.tag, NUMBER_TAG);
        assert_eq!(result.value, (n as f32).to_bits());
    }
}

#[test]
fn float_literals_come_back_bit_for_bit() {
    for x in [0.0f32, -0.0, 1.5, -2.25, f32::MAX, f32::MIN_POSITIVE, f32::INFINITY, f32::NAN] {
        let result = run(&procedure(&[], vec![ret(lit_f(x))]), vec![]);
        assert_eq!(result.tag, NUMBER_TAG);
        assert_eq!(result.value, x.to_bits());
    }
}

#[test]
fn arithmetic_follows_ieee() {
    let values = [0.0f32, -0.0, 1.0, -3.5, 1e30, f32::INFINITY, f32::NAN, 7.0];
    for a in values {
        for b in values {
            let cases = [
                (BinaryOp::Add, a + b),
                (BinaryOp::Sub, a - b),
                (BinaryOp::Mul, a * b),
                (BinaryOp::Div, a / b),
            ];
            for (op, expected) in cases {
                let result = run(&procedure(&[], vec![ret(binary(op, lit_f(a), lit_f(b)))]), vec![]);
                assert_eq!(result.tag, NUMBER_TAG);
                assert_eq!(result.value, expected.to_bits());
            }
        }
    }
}

#[test]
fn division_by_zero_is_no_error() {
    let result = run(&procedure(&[], vec![ret(binary(BinaryOp::Div, lit(1), lit(0)))]), vec![]);
    assert_eq!(f32::from_bits(result.value), f32::INFINITY);
    let result = run(&procedure(&[], vec![ret(binary(BinaryOp::Div, lit(-1), lit(0)))]), vec![]);
    assert_eq!(f32::from_bits(result.value), f32::NEG_INFINITY);
    let result = run(&procedure(&[], vec![ret(binary(BinaryOp::Div, lit(0), lit(0)))]), vec![]);
    assert!(f32::from_bits(result.value).is_nan());
}

#[test]
fn comparisons_are_one_or_zero() {
    let values = [
        0.0f32,
        -0.0,
        1.0,
        -1.0,
        2.5,
        f32::MIN_POSITIVE,
        -f32::MIN_POSITIVE,
        f32::MAX,
        f32::MIN,
        f32::INFINITY,
        f32::NEG_INFINITY,
        f32::NAN,
        -f32::NAN,
    ];
    for a in values {
        for b in values {
            let cases = [
                (BinaryOp::Less, a < b),
                (BinaryOp::LessEq, a <= b),
                (BinaryOp::Eq, a == b),
                (BinaryOp::GreaterEq, a >= b),
                (BinaryOp::Greater, a > b),
            ];
            for (op, expected) in cases {
                let result = run(&procedure(&[], vec![ret(binary(op, lit_f(a), lit_f(b)))]), vec![]);
                assert_eq!(result.tag, NUMBER_TAG);
                let expected_bits = if expected { 1.0f32.to_bits() } else { 0.0f32.to_bits() };
                assert_eq!(result.value, expected_bits, "{:?} {:?} {:?}", a, op, b);
            }
        }
    }
}

#[test]
fn equal_is_false_for_nan() {
    let result =
        run(&procedure(&[], vec![ret(binary(BinaryOp::Eq, lit_f(f32::NAN), lit_f(f32::NAN)))]), vec![]);
    assert_eq!(result, number(0.0));
}

#[test]
fn local_variable_round_trip() {
    let proc = procedure(
        &[],
        vec![
            Statement::Var(VarStatement { name: "x".to_string(), value: Some(lit(5)) }),
            ret(ident("x")),
        ],
    );
    assert_eq!(run(&proc, vec![]), number(5.0));
}

#[test]
fn argument_pass_through() {
    let proc = procedure(&["a"], vec![ret(ident("a"))]);
    assert_eq!(run(&proc, vec![number(7.0)]), number(7.0));
    // An argument keeps its tag, whatever it is.
    assert_eq!(run(&proc, vec![Register::new(9, 1234)]), Register::new(9, 1234));
}

#[test]
fn missing_argument_is_a_fault() {
    let proc = procedure(&["a"], vec![ret(ident("a"))]);
    let mut vm = VM::new();
    vm.add_program(1, compile(&proc).unwrap());
    assert_eq!(drive(&mut vm, 1, vec![]), Err(Fault::ArgumentOutOfRange));
}

#[test]
fn without_return_the_value_is_register_zero() {
    let result = run(&procedure(&[], vec![]), vec![]);
    assert_eq!(result, Register::new(0, 0));
    let result = run(&procedure(&[], vec![Statement::Expr(lit(3))]), vec![]);
    assert_eq!(result, number(3.0));
}

#[test]
fn return_does_not_stop_the_execution() {
    let result = run(&procedure(&[], vec![ret(lit(1)), ret(lit(2))]), vec![]);
    assert_eq!(result, number(2.0));
}

fn three_arms() -> Procedure {
    // if (a < 10) return 1; else if (a < 20) return 2; else return 3;
    procedure(
        &["a"],
        vec![Statement::If(IfChain {
            arms: vec![
                IfArm {
                    condition: binary(BinaryOp::Less, ident("a"), lit(10)),
                    block: vec![ret(lit(1))],
                },
                IfArm {
                    condition: binary(BinaryOp::Less, ident("a"), lit(20)),
                    block: vec![ret(lit(2))],
                },
            ],
            else_arm: Some(vec![ret(lit(3))]),
        })],
    )
}

#[test]
fn exactly_one_arm_runs() {
    let proc = three_arms();
    assert_eq!(run(&proc, vec![number(5.0)]), number(1.0));
    assert_eq!(run(&proc, vec![number(15.0)]), number(2.0));
    assert_eq!(run(&proc, vec![number(25.0)]), number(3.0));
    assert_eq!(run(&proc, vec![number(f32::NAN)]), number(3.0));
}

#[test]
fn all_arms_converge_to_one_position() {
    let code = compile(&three_arms()).unwrap();
    let end = (code.len() - 1) as u64;
    for a in [5.0f32, 15.0, 25.0] {
        let mut process = Process::new(0, code.clone(), vec![number(a)]);
        let mut steps = 0;
        let mut blocks_entered = 0;
        loop {
            // Every block of the chain is one `return`.
            if code[process.position() as usize] == Opcode::RETURN.to_byte() {
                blocks_entered += 1;
            }
            match process.execute_one() {
                Step::Continue => {}
                Step::Halt => break,
                other => panic!("unexpected step {:?}", other),
            }
            steps += 1;
            assert!(steps < 100);
        }
        assert_eq!(blocks_entered, 1);
        // The opcode that stopped the process is the one behind the chain.
        assert_eq!(process.position(), end + 1);
        assert_eq!(code[end as usize], Opcode::HALT.to_byte());
    }
}

#[test]
fn arms_without_else_fall_through() {
    // if (a == 1) return 10; else if (a == 2) return 20;  return a + 30;
    let proc = procedure(
        &["a"],
        vec![
            Statement::If(IfChain {
                arms: vec![
                    IfArm {
                        condition: binary(BinaryOp::Eq, ident("a"), lit(1)),
                        block: vec![ret(lit(10))],
                    },
                    IfArm {
                        condition: binary(BinaryOp::Eq, ident("a"), lit(2)),
                        block: vec![ret(lit(20))],
                    },
                ],
                else_arm: None,
            }),
            ret(binary(BinaryOp::Add, ident("a"), lit(30))),
        ],
    );
    // Without an else every arm falls through to what follows the chain.
    assert_eq!(run(&proc, vec![number(1.0)]), number(31.0));
    assert_eq!(run(&proc, vec![number(2.0)]), number(32.0));
    assert_eq!(run(&proc, vec![number(3.0)]), number(33.0));
}

#[test]
fn nested_if_chains() {
    // if (a < 0) { if (b < 0) return 1; else return 2; } else return 3;
    let inner = Statement::If(IfChain {
        arms: vec![IfArm {
            condition: binary(BinaryOp::Less, ident("b"), lit(0)),
            block: vec![ret(lit(1))],
        }],
        else_arm: Some(vec![ret(lit(2))]),
    });
    let proc = procedure(
        &["a", "b"],
        vec![Statement::If(IfChain {
            arms: vec![IfArm {
                condition: binary(BinaryOp::Less, ident("a"), lit(0)),
                block: vec![inner],
            }],
            else_arm: Some(vec![ret(lit(3))]),
        })],
    );
    assert_eq!(run(&proc, vec![number(-1.0), number(-1.0)]), number(1.0));
    assert_eq!(run(&proc, vec![number(-1.0), number(1.0)]), number(2.0));
    assert_eq!(run(&proc, vec![number(1.0), number(-1.0)]), number(3.0));
}

#[test]
fn nested_expression_with_locals_and_arguments() {
    // var x = a * 2; var y = x - b; return (y + 1) / 4;
    let proc = procedure(
        &["a", "b"],
        vec![
            Statement::Var(VarStatement {
                name: "x".to_string(),
                value: Some(binary(BinaryOp::Mul, ident("a"), lit(2))),
            }),
            Statement::Var(VarStatement {
                name: "y".to_string(),
                value: Some(binary(BinaryOp::Sub, ident("x"), ident("b"))),
            }),
            ret(binary(BinaryOp::Div, binary(BinaryOp::Add, ident("y"), lit(1)), lit(4))),
        ],
    );
    assert_eq!(run(&proc, vec![number(10.0), number(5.0)]), number(4.0));
}

#[test]
fn field_access_asks_the_host() {
    let expr = Expression::Base {
        unary: vec![],
        term: Term::Ident("src".to_string()),
        follow: vec![Follow::Field(0x0102)],
    };
    let proc = procedure(&["src"], vec![ret(expr)]);
    let mut vm = VM::new();
    vm.add_program(1, compile(&proc).unwrap());
    let object = Register::new(0x21, 99);
    assert!(matches!(vm.run_program(1, vec![object]), Action::Continue));
    match vm.execute(10) {
        Action::GetField { source, field } => {
            assert_eq!(source, object);
            assert_eq!(field, 0x0102);
        }
        other => panic!("unexpected action {:?}", other),
    }
    assert!(matches!(vm.resume_value(Register::new(6, 41)), Action::Continue));
    match vm.execute(10) {
        Action::Finished(value) => assert_eq!(value, Register::new(6, 41)),
        other => panic!("unexpected action {:?}", other),
    }
    assert_eq!(vm.depth(), 0);
}

#[test]
fn compiled_code_stops_within_its_length() {
    let deep = binary(
        BinaryOp::Add,
        binary(BinaryOp::Mul, ident("a"), lit(3)),
        binary(BinaryOp::Sub, lit(1), binary(BinaryOp::Div, ident("a"), lit_f(0.5))),
    );
    let programs = vec![
        procedure(&[], vec![]),
        three_arms(),
        procedure(&["a"], vec![ret(deep)]),
        procedure(
            &["a"],
            vec![
                Statement::Var(VarStatement { name: "x".to_string(), value: Some(ident("a")) }),
                Statement::If(IfChain {
                    arms: vec![IfArm {
                        condition: binary(BinaryOp::GreaterEq, ident("x"), lit(0)),
                        block: vec![Statement::If(IfChain {
                            arms: vec![IfArm {
                                condition: binary(BinaryOp::Greater, ident("x"), lit(100)),
                                block: vec![ret(lit(2))],
                            }],
                            else_arm: None,
                        })],
                    }],
                    else_arm: None,
                }),
                ret(ident("x")),
            ],
        ),
    ];
    for proc in &programs {
        let code = compile(proc).unwrap();
        for a in [-5.0f32, 0.0, 50.0, 500.0, f32::NAN] {
            let mut process = Process::new(0, code.clone(), vec![number(a)]);
            let mut steps = 0;
            let mut last = 0;
            loop {
                let step = process.execute_one();
                steps += 1;
                match step {
                    Step::Continue => {}
                    Step::Halt => break,
                    Step::Arithmetic { op, left, right } => {
                        assert!(process.supply_number(arithmetic(op, left, right)));
                    }
                    other => panic!("unexpected step {:?}", other),
                }
                // Every step moves the cursor forwards.
                assert!(process.position() > last);
                last = process.position();
            }
            assert!(steps <= code.len());
            assert_eq!(process.position(), code.len() as u64);
        }
    }
}
