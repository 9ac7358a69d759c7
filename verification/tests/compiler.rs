use dm::ast::{
    BinaryOp, CompileError, Expression, Follow, IfArm, IfChain, Procedure, Statement, Term,
    UnaryOp, VarStatement,
};
use dm::compiler::{compile, Compiler};
use dm::opcode::Opcode;

fn base(term: Term) -> Expression {
    Expression::Base { unary: vec![], term, follow: vec![] }
}

fn lit(n: i32) -> Expression {
    base(Term::Int(n))
}

fn lit_f(x: f32) -> Expression {
    base(Term::Float(x.to_bits()))
}

fn ident(name: &str) -> Expression {
    base(Term::Ident(name.to_string()))
}

fn binary(op: BinaryOp, lhs: Expression, rhs: Expression) -> Expression {
    Expression::BinaryOp { op, lhs: Box::new(lhs), rhs: Box::new(rhs) }
}

fn ret(expr: Expression) -> Statement {
    Statement::Return(Some(expr))
}

fn var(name: &str, value: Option<Expression>) -> Statement {
    Statement::Var(VarStatement { name: name.to_string(), value })
}

fn procedure(parameters: &[&str], code: Vec<Statement>) -> Procedure {
    Procedure { parameters: parameters.iter().map(|p| p.to_string()).collect(), code: Some(code) }
}

fn load(reg: u8, x: f32) -> Vec<u8> {
    let mut bytes = vec![Opcode::LOAD_IMMEDIATE.to_byte(), reg, 0x2A];
    bytes.extend(x.to_le_bytes().iter());
    bytes
}

fn jump_false(reg: u8, target: u32) -> Vec<u8> {
    let mut bytes = vec![Opcode::JUMP_FALSE.to_byte(), reg];
    bytes.extend(target.to_le_bytes().iter());
    bytes
}

fn jump(target: u32) -> Vec<u8> {
    let mut bytes = vec![Opcode::JUMP.to_byte()];
    bytes.extend(target.to_le_bytes().iter());
    bytes
}

fn unwrap_err(result: Result<Vec<u8>, CompileError>) -> CompileError {
    match result {
        Ok(code) => panic!("compiled to {:?}", code),
        Err(error) => error,
    }
}

#[test]
fn return_integer_literal() {
    let code = compile(&procedure(&[], vec![ret(lit(5))])).unwrap();
    let mut expected = load(0, 5.0);
    expected.extend([Opcode::RETURN.to_byte(), 0, Opcode::HALT.to_byte()]);
    assert_eq!(code, expected);
    assert_eq!(code, vec![1, 0, 0x2A, 0x00, 0x00, 0xA0, 0x40, 21, 0, 0]);
}

#[test]
fn return_float_literal() {
    let code = compile(&procedure(&[], vec![ret(lit_f(-0.5))])).unwrap();
    assert_eq!(code, vec![1, 0, 0x2A, 0x00, 0x00, 0x00, 0xBF, 21, 0, 0]);
}

#[test]
fn procedure_without_body_is_a_halt() {
    let proc = Procedure { parameters: vec![], code: None };
    assert_eq!(compile(&proc).unwrap(), vec![Opcode::HALT.to_byte()]);
    assert_eq!(compile(&procedure(&[], vec![])).unwrap(), vec![Opcode::HALT.to_byte()]);
}

#[test]
fn binary_operation_lowers_left_then_right() {
    let ops = [
        (BinaryOp::Add, Opcode::ADD),
        (BinaryOp::Sub, Opcode::SUB),
        (BinaryOp::Mul, Opcode::MUL),
        (BinaryOp::Div, Opcode::DIV),
        (BinaryOp::Less, Opcode::LESS_THAN),
        (BinaryOp::LessEq, Opcode::LESS_OR_EQUAL),
        (BinaryOp::Eq, Opcode::EQUAL),
        (BinaryOp::GreaterEq, Opcode::GREATER_OR_EQUAL),
        (BinaryOp::Greater, Opcode::GREATER_THAN),
    ];
    for (op, opcode) in ops {
        let code = compile(&procedure(&[], vec![ret(binary(op, lit(1), lit(2)))])).unwrap();
        let mut expected = load(0, 1.0);
        expected.extend(load(1, 2.0));
        expected.extend([opcode.to_byte(), 0, 1, 2]);
        expected.extend([Opcode::RETURN.to_byte(), 2, Opcode::HALT.to_byte()]);
        assert_eq!(code, expected);
    }
}

#[test]
fn other_operators_are_not_implemented() {
    let others = [
        BinaryOp::Pow,
        BinaryOp::Mod,
        BinaryOp::NotEq,
        BinaryOp::Equiv,
        BinaryOp::NotEquiv,
        BinaryOp::BitAnd,
        BinaryOp::BitXor,
        BinaryOp::BitOr,
        BinaryOp::LShift,
        BinaryOp::RShift,
        BinaryOp::And,
        BinaryOp::Or,
        BinaryOp::In,
        BinaryOp::To,
    ];
    for op in others {
        let error = unwrap_err(compile(&procedure(&[], vec![ret(binary(op, lit(1), lit(2)))])));
        assert!(matches!(error, CompileError::OperatorNotImplemented(o) if o == op));
    }
}

#[test]
fn operands_are_reported_before_the_operator() {
    let expr = binary(BinaryOp::Pow, ident("nobody"), lit(2));
    let error = unwrap_err(compile(&procedure(&[], vec![ret(expr)])));
    assert!(matches!(error, CompileError::UnknownIdentifier(name) if name == "nobody"));
}

#[test]
fn temporaries_are_reused_across_subexpressions() {
    // (1 + 2) + (3 + 4): the operands of the second sum take the
    // temporaries that the first sum gave back.
    let expr = binary(
        BinaryOp::Add,
        binary(BinaryOp::Add, lit(1), lit(2)),
        binary(BinaryOp::Add, lit(3), lit(4)),
    );
    let proc = procedure(&[], vec![]);
    let mut compiler = Compiler::new(&proc);
    let reg = compiler.visit_expression(&expr).unwrap();
    let mut expected = load(0, 1.0);
    expected.extend(load(1, 2.0));
    expected.extend([Opcode::ADD.to_byte(), 0, 1, 2]);
    expected.extend(load(0, 3.0));
    expected.extend(load(1, 4.0));
    expected.extend([Opcode::ADD.to_byte(), 0, 1, 3]);
    expected.extend([Opcode::ADD.to_byte(), 2, 3, 0]);
    assert_eq!(compiler.bytecode(), &expected);
    assert_eq!(reg, 0);
    assert_eq!(compiler.next_free_register(), 4);
    assert_eq!(compiler.free_registers(), vec![1, 2, 3]);
    compiler.release(reg);
    assert_eq!(compiler.free_registers(), vec![0, 1, 2, 3]);
}

#[test]
fn free_list_recovers_after_each_statement() {
    let proc = procedure(&[], vec![]);
    let mut compiler = Compiler::new(&proc);
    for n in 0..40 {
        let expr = binary(BinaryOp::Mul, binary(BinaryOp::Add, lit(n), lit(1)), lit(2));
        compiler.visit_statement(&Statement::Expr(expr)).unwrap();
        assert_eq!(compiler.next_free_register(), 3);
        assert_eq!(compiler.free_registers(), vec![0, 1, 2]);
    }
}

#[test]
fn smallest_free_register_is_taken_first() {
    let proc = procedure(&[], vec![]);
    let mut compiler = Compiler::new(&proc);
    for expected in 0..5 {
        assert_eq!(compiler.get_free_register().unwrap(), expected);
    }
    compiler.release(3);
    compiler.release(1);
    assert_eq!(compiler.free_registers(), vec![1, 3]);
    assert_eq!(compiler.get_free_register().unwrap(), 1);
    assert_eq!(compiler.get_free_register().unwrap(), 3);
    assert_eq!(compiler.get_free_register().unwrap(), 5);
    assert_eq!(compiler.next_free_register(), 6);
}

fn nested_right(depth: usize) -> Expression {
    let mut expr = lit(0);
    for n in 0..depth {
        expr = binary(BinaryOp::Add, lit(n as i32), expr);
    }
    expr
}

fn nested_left(depth: usize) -> Expression {
    let mut expr = lit(0);
    for n in 0..depth {
        expr = binary(BinaryOp::Add, expr, lit(n as i32));
    }
    expr
}

#[test]
fn nesting_to_the_left_needs_three_registers() {
    let proc = procedure(&[], vec![]);
    let mut compiler = Compiler::new(&proc);
    compiler.visit_expression(&nested_left(200)).unwrap();
    assert_eq!(compiler.next_free_register(), 3);
}

#[test]
fn nesting_to_the_right_is_bounded_by_the_register_file() {
    // n additions nested to the right hold n - 1 left operands while the
    // innermost addition holds its two operands and its result: n + 2
    // temporaries, so 14 additions fit into sixteen registers.
    let code = compile(&procedure(&[], vec![ret(nested_right(14))]));
    assert!(code.is_ok());
    let error = unwrap_err(compile(&procedure(&[], vec![ret(nested_right(15))])));
    assert!(matches!(error, CompileError::TooManyRegisters));
}

#[test]
fn compiled_code_names_no_register_out_of_range() {
    let code = compile(&procedure(&[], vec![ret(nested_right(14))])).unwrap();
    let mut at = 0;
    while at < code.len() {
        let op = Opcode::from_byte(code[at]);
        match op {
            Opcode::LOAD_IMMEDIATE => {
                assert!(code[at + 1] < 16);
                at += 7;
            }
            Opcode::ADD => {
                assert!(code[at + 1] < 16 && code[at + 2] < 16 && code[at + 3] < 16);
                at += 4;
            }
            Opcode::RETURN => {
                assert!(code[at + 1] < 16);
                at += 2;
            }
            Opcode::HALT => {
                at += 1;
                assert_eq!(at, code.len());
            }
            other => panic!("unexpected {:?}", other),
        }
    }
}

#[test]
fn argument_is_loaded_by_position() {
    let code = compile(&procedure(&["a", "b"], vec![ret(ident("b"))])).unwrap();
    assert_eq!(
        code,
        vec![Opcode::LOAD_ARGUMENT.to_byte(), 1, 0, Opcode::RETURN.to_byte(), 0, 0]
    );
}

#[test]
fn local_is_stored_and_loaded_by_slot() {
    let code = compile(&procedure(
        &[],
        vec![var("x", Some(lit(5))), var("y", None), var("z", Some(lit(7))), ret(ident("z"))],
    ))
    .unwrap();
    let mut expected = load(0, 5.0);
    expected.extend([Opcode::STORE_LOCAL.to_byte(), 0, 0]);
    expected.extend(load(0, 7.0));
    expected.extend([Opcode::STORE_LOCAL.to_byte(), 0, 2]);
    expected.extend([Opcode::LOAD_LOCAL.to_byte(), 2, 0]);
    expected.extend([Opcode::RETURN.to_byte(), 0, Opcode::HALT.to_byte()]);
    assert_eq!(code, expected);
}

#[test]
fn argument_takes_precedence_over_local() {
    let code =
        compile(&procedure(&["x"], vec![var("x", Some(lit(1))), ret(ident("x"))])).unwrap();
    let mut expected = load(0, 1.0);
    expected.extend([Opcode::STORE_LOCAL.to_byte(), 0, 0]);
    expected.extend([Opcode::LOAD_ARGUMENT.to_byte(), 0, 0]);
    expected.extend([Opcode::RETURN.to_byte(), 0, Opcode::HALT.to_byte()]);
    assert_eq!(code, expected);
}

#[test]
fn later_declaration_of_a_name_counts() {
    let code =
        compile(&procedure(&["p", "p"], vec![var("x", None), var("x", None), ret(ident("x"))]))
            .unwrap();
    assert_eq!(code, vec![Opcode::LOAD_LOCAL.to_byte(), 1, 0, Opcode::RETURN.to_byte(), 0, 0]);
    let code = compile(&procedure(&["p", "p"], vec![ret(ident("p"))])).unwrap();
    assert_eq!(code, vec![Opcode::LOAD_ARGUMENT.to_byte(), 1, 0, Opcode::RETURN.to_byte(), 0, 0]);
}

#[test]
fn unknown_identifier_is_an_error() {
    let error = unwrap_err(compile(&procedure(&["a"], vec![ret(ident("b"))])));
    assert!(matches!(error, CompileError::UnknownIdentifier(name) if name == "b"));
}

#[test]
fn seventeenth_local_is_an_error() {
    let mut code: Vec<Statement> = (0..16).map(|n| var(&format!("v{}", n), None)).collect();
    assert!(compile(&procedure(&[], code.iter().map(|_| var("v", None)).collect())).is_ok());
    code.push(var("one_more", None));
    let error = unwrap_err(compile(&procedure(&[], code)));
    assert!(matches!(error, CompileError::TooManyLocals));
}

#[test]
fn argument_beyond_one_byte_is_an_error() {
    let names: Vec<String> = (0..257).map(|n| format!("p{}", n)).collect();
    let refs: Vec<&str> = names.iter().map(|n| n.as_str()).collect();
    let code = compile(&procedure(&refs, vec![ret(ident("p255"))])).unwrap();
    assert_eq!(code, vec![Opcode::LOAD_ARGUMENT.to_byte(), 255, 0, Opcode::RETURN.to_byte(), 0, 0]);
    let error = unwrap_err(compile(&procedure(&refs, vec![ret(ident("p256"))])));
    assert!(matches!(error, CompileError::TooManyArguments));
}

#[test]
fn field_access_reuses_the_base_register() {
    let expr = Expression::Base {
        unary: vec![],
        term: Term::Ident("src".to_string()),
        follow: vec![Follow::Field(0x1234)],
    };
    let code = compile(&procedure(&["src"], vec![ret(expr)])).unwrap();
    assert_eq!(
        code,
        vec![
            Opcode::LOAD_ARGUMENT.to_byte(),
            0,
            0,
            Opcode::GET_FIELD.to_byte(),
            0,
            0x34,
            0x12,
            0,
            Opcode::RETURN.to_byte(),
            0,
            Opcode::HALT.to_byte(),
        ]
    );
}

#[test]
fn unsupported_follows_are_errors() {
    let chained = Expression::Base {
        unary: vec![],
        term: Term::Ident("src".to_string()),
        follow: vec![Follow::Field(1), Follow::Field(2)],
    };
    let error = unwrap_err(compile(&procedure(&["src"], vec![ret(chained)])));
    assert!(matches!(error, CompileError::UnsupportedFollow(text) if text == "more than one follow"));

    let index = Expression::Base {
        unary: vec![],
        term: Term::Ident("src".to_string()),
        follow: vec![Follow::Other("Index".to_string())],
    };
    let error = unwrap_err(compile(&procedure(&["src"], vec![ret(index)])));
    assert!(matches!(error, CompileError::UnsupportedFollow(text) if text == "Index"));

    let on_literal =
        Expression::Base { unary: vec![], term: Term::Int(1), follow: vec![Follow::Field(1)] };
    let error = unwrap_err(compile(&procedure(&[], vec![ret(on_literal)])));
    assert!(matches!(
        error,
        CompileError::UnsupportedFollow(text) if text == "follow on a term that is not an identifier"
    ));
}

#[test]
fn unsupported_forms_are_errors() {
    let error = unwrap_err(compile(&procedure(&[], vec![Statement::Other("While".to_string())])));
    assert!(matches!(error, CompileError::UnsupportedStatement(text) if text == "While"));

    let error = unwrap_err(compile(&procedure(&[], vec![Statement::Return(None)])));
    assert!(matches!(
        error,
        CompileError::UnsupportedStatement(text) if text == "return without a value"
    ));

    let error = unwrap_err(compile(&procedure(
        &[],
        vec![ret(Expression::Other("TernaryOp".to_string()))],
    )));
    assert!(matches!(error, CompileError::UnsupportedExpression(text) if text == "TernaryOp"));

    let error = unwrap_err(compile(&procedure(&[], vec![ret(base(Term::Other("Null".to_string())))])));
    assert!(matches!(error, CompileError::UnsupportedTerm(text) if text == "Null"));

    let negated = Expression::Base { unary: vec![UnaryOp::Neg], term: Term::Int(1), follow: vec![] };
    let error = unwrap_err(compile(&procedure(&[], vec![ret(negated)])));
    assert!(matches!(error, CompileError::UnsupportedExpression(text) if text == "unary operator"));
}

#[test]
fn error_aborts_the_whole_procedure() {
    let error = unwrap_err(compile(&procedure(
        &[],
        vec![ret(lit(1)), Statement::Other("Spawn".to_string()), ret(lit(2))],
    )));
    assert!(matches!(error, CompileError::UnsupportedStatement(text) if text == "Spawn"));
}

#[test]
fn parentheses_are_transparent() {
    let inner = binary(BinaryOp::Add, lit(1), lit(2));
    let plain = compile(&procedure(&[], vec![ret(binary(BinaryOp::Add, lit(1), lit(2)))])).unwrap();
    let wrapped = compile(&procedure(&[], vec![ret(base(Term::Expr(Box::new(inner))))])).unwrap();
    assert_eq!(plain, wrapped);
}

#[test]
fn expression_statement_emits_and_drops() {
    let code = compile(&procedure(&[], vec![Statement::Expr(lit(1)), ret(lit(2))])).unwrap();
    let mut expected = load(0, 1.0);
    expected.extend(load(0, 2.0));
    expected.extend([Opcode::RETURN.to_byte(), 0, Opcode::HALT.to_byte()]);
    assert_eq!(code, expected);
}

fn chain(arms: Vec<(Expression, Vec<Statement>)>, else_arm: Option<Vec<Statement>>) -> Statement {
    Statement::If(IfChain {
        arms: arms.into_iter().map(|(condition, block)| IfArm { condition, block }).collect(),
        else_arm,
    })
}

#[test]
fn if_without_else_falls_through() {
    // if (a) return 1;  return 2;
    let code =
        compile(&procedure(&["a"], vec![chain(vec![(ident("a"), vec![ret(lit(1))])], None), ret(lit(2))]))
            .unwrap();
    let mut expected = vec![Opcode::LOAD_ARGUMENT.to_byte(), 0, 0];
    expected.extend(jump_false(0, 18));
    expected.extend(load(0, 1.0));
    expected.extend([Opcode::RETURN.to_byte(), 0]);
    assert_eq!(expected.len(), 18);
    expected.extend(load(0, 2.0));
    expected.extend([Opcode::RETURN.to_byte(), 0, Opcode::HALT.to_byte()]);
    assert_eq!(code, expected);
}

#[test]
fn if_else_if_else_jumps_forward_to_one_end() {
    // if (a) return 1; else if (b) return 2; else return 3;
    let code = compile(&procedure(
        &["a", "b"],
        vec![chain(
            vec![(ident("a"), vec![ret(lit(1))]), (ident("b"), vec![ret(lit(2))])],
            Some(vec![ret(lit(3))]),
        )],
    ))
    .unwrap();
    let mut expected = vec![Opcode::LOAD_ARGUMENT.to_byte(), 0, 0];
    expected.extend(jump_false(0, 23));
    expected.extend(load(0, 1.0));
    expected.extend([Opcode::RETURN.to_byte(), 0]);
    expected.extend(jump(55));
    assert_eq!(expected.len(), 23);
    expected.extend([Opcode::LOAD_ARGUMENT.to_byte(), 1, 0]);
    expected.extend(jump_false(0, 46));
    expected.extend(load(0, 2.0));
    expected.extend([Opcode::RETURN.to_byte(), 0]);
    expected.extend(jump(55));
    assert_eq!(expected.len(), 46);
    expected.extend(load(0, 3.0));
    expected.extend([Opcode::RETURN.to_byte(), 0]);
    assert_eq!(expected.len(), 55);
    expected.push(Opcode::HALT.to_byte());
    assert_eq!(code, expected);
}

#[test]
fn condition_register_is_free_inside_the_block() {
    let proc = procedure(&["a"], vec![]);
    let mut compiler = Compiler::new(&proc);
    let statement = chain(vec![(ident("a"), vec![Statement::Expr(lit(1))])], None);
    compiler.visit_statement(&statement).unwrap();
    assert_eq!(compiler.next_free_register(), 1);
    assert_eq!(compiler.free_registers(), vec![0]);
}

#[test]
fn emit_appends() {
    let proc = procedure(&[], vec![]);
    let mut compiler = Compiler::new(&proc);
    compiler.emit(&[1, 2, 3]);
    compiler.emit(&[]);
    compiler.emit(&[4]);
    assert_eq!(compiler.bytecode(), &vec![1, 2, 3, 4]);
    assert_eq!(compiler.len(), 4);
}

#[test]
fn visit_block_lowers_in_order() {
    let proc = procedure(&[], vec![]);
    let mut compiler = Compiler::new(&proc);
    compiler.visit_block(&vec![ret(lit(1)), ret(lit(2))]).unwrap();
    let mut expected = load(0, 1.0);
    expected.extend([Opcode::RETURN.to_byte(), 0]);
    expected.extend(load(0, 2.0));
    expected.extend([Opcode::RETURN.to_byte(), 0]);
    assert_eq!(compiler.bytecode(), &expected);
}

#[test]
fn visit_term_and_expression_impl_ignore_the_statement_flag() {
    let proc = procedure(&[], vec![]);
    let mut first = Compiler::new(&proc);
    let mut second = Compiler::new(&proc);
    assert_eq!(first.visit_term(&Term::Int(3), &vec![], false).unwrap(), 0);
    assert_eq!(second.visit_term(&Term::Int(3), &vec![], true).unwrap(), 0);
    assert_eq!(first.bytecode(), second.bytecode());
    assert_eq!(first.visit_expression_impl(&lit(4), false).unwrap(), 1);
    assert_eq!(second.visit_expression_impl(&lit(4), true).unwrap(), 1);
    assert_eq!(first.bytecode(), second.bytecode());
}
