use lattice::syntax::ast::{BinaryOp, ExprKind, Item, Literal, StmtKind, TypeExpr, PrimitiveType, UnaryOp};
use lattice::syntax::parser::{parse, parse_expression, ParseError};

#[test]
fn test_parse_int_literal() {
    let expr = parse_expression("42").unwrap();
    assert!(matches!(expr.kind, ExprKind::Literal(Literal::Int(42))));
}

#[test]
fn test_parse_float_literal() {
    let expr = parse_expression("3.14").unwrap();
    match expr.kind {
        ExprKind::Literal(Literal::Float(f)) => {
            let v: f64 = f.parse().unwrap();
            assert!((v - 3.14).abs() < 0.001)
        }
        _ => panic!("Expected float literal"),
    }
}

#[test]
fn test_parse_string_literal() {
    let expr = parse_expression("\"hello\"").unwrap();
    assert!(matches!(expr.kind, ExprKind::Literal(Literal::String(s)) if s == "hello"));
}

#[test]
fn test_parse_bool_literal() {
    let expr = parse_expression("true").unwrap();
    assert!(matches!(expr.kind, ExprKind::Literal(Literal::Bool(true))));

    let expr = parse_expression("false").unwrap();
    assert!(matches!(expr.kind, ExprKind::Literal(Literal::Bool(false))));
}

#[test]
fn test_parse_variable() {
    let expr = parse_expression("foo").unwrap();
    assert!(matches!(expr.kind, ExprKind::Var(s) if s == "foo"));
}

#[test]
fn test_parse_binary_expr() {
    let expr = parse_expression("1 + 2").unwrap();
    match expr.kind {
        ExprKind::Binary { op, .. } => assert_eq!(op, BinaryOp::Add),
        _ => panic!("Expected binary expression"),
    }
}

#[test]
fn test_parse_list_literal() {
    let expr = parse_expression("[1, 2, 3]").unwrap();
    match expr.kind {
        ExprKind::List(elements) => assert_eq!(elements.len(), 3),
        _ => panic!("Expected list literal"),
    }
}

#[test]
fn test_parse_type_def() {
    let program = parse("type Person { name: String, age: Int }").unwrap();
    assert_eq!(program.items.len(), 1);
    match &program.items[0] {
        Item::TypeDef(td) => {
            assert_eq!(td.name.node, "Person");
            assert_eq!(td.fields.len(), 2);
        }
        _ => panic!("Expected type definition"),
    }
}

#[test]
fn test_parse_enum_def() {
    let program = parse("enum Color { Red, Green, Blue }").unwrap();
    assert_eq!(program.items.len(), 1);
    match &program.items[0] {
        Item::EnumDef(ed) => {
            assert_eq!(ed.name.node, "Color");
            assert_eq!(ed.variants.len(), 3);
        }
        _ => panic!("Expected enum definition"),
    }
}

#[test]
fn test_parse_function_def() {
    let program = parse("def add(a: Int, b: Int) -> Int { a + b }").unwrap();
    assert_eq!(program.items.len(), 1);
    match &program.items[0] {
        Item::FunctionDef(fd) => {
            assert_eq!(fd.name.node, "add");
            assert_eq!(fd.params.len(), 2);
        }
        _ => panic!("Expected function definition"),
    }
}

#[test]
fn test_parse_let_statement() {
    let program = parse("let x = 42").unwrap();
    assert_eq!(program.items.len(), 1);
    match &program.items[0] {
        Item::Statement(stmt) => match &stmt.kind {
            StmtKind::Let { name, .. } => assert_eq!(name.node, "x"),
            _ => panic!("Expected let statement"),
        },
        _ => panic!("Expected statement"),
    }
}

#[test]
fn test_parse_if_statement() {
    let program = parse("if x > 0 { y } else { z }").unwrap();
    assert_eq!(program.items.len(), 1);
}

#[test]
fn parser_test_parse_function_call() {
    let expr = parse_expression("foo(1, 2)").unwrap();
    match expr.kind {
        ExprKind::Call { args, .. } => assert_eq!(args.len(), 2),
        _ => panic!("Expected function call"),
    }
}

#[test]
fn test_parse_field_access() {
    let expr = parse_expression("obj.field").unwrap();
    match expr.kind {
        ExprKind::Field { field, .. } => assert_eq!(field, "field"),
        _ => panic!("Expected field access"),
    }
}

#[test]
fn test_parse_index_access() {
    let expr = parse_expression("arr[0]").unwrap();
    assert!(matches!(expr.kind, ExprKind::Index { .. }));
}

#[test]
fn test_precedence() {
    let expr = parse_expression("1 + 2 * 3").unwrap();
    match expr.kind {
        ExprKind::Binary { op, right, .. } => {
            assert_eq!(op, BinaryOp::Add);
            assert!(matches!(right.kind, ExprKind::Binary { op: BinaryOp::Mul, .. }));
        }
        _ => panic!("Expected binary expression"),
    }
}

#[test]
fn left_associative_subtraction() {
    let expr = parse_expression("10 - 4 - 3").unwrap();
    match expr.kind {
        ExprKind::Binary { op, left, right } => {
            assert_eq!(op, BinaryOp::Sub);
            assert!(matches!(left.kind, ExprKind::Binary { op: BinaryOp::Sub, .. }));
            assert!(matches!(right.kind, ExprKind::Literal(Literal::Int(3))));
        }
        _ => panic!("Expected binary expression"),
    }
}

#[test]
fn logic_binds_looser_than_comparison() {
    let expr = parse_expression("a < b && !c || d == e").unwrap();
    match expr.kind {
        ExprKind::Binary { op, left, right } => {
            assert_eq!(op, BinaryOp::Or);
            match left.kind {
                ExprKind::Binary { op, left: l, right: r } => {
                    assert_eq!(op, BinaryOp::And);
                    assert!(matches!(l.kind, ExprKind::Binary { op: BinaryOp::Lt, .. }));
                    assert!(matches!(r.kind, ExprKind::Unary { op: UnaryOp::Not, .. }));
                }
                _ => panic!("Expected &&"),
            }
            assert!(matches!(right.kind, ExprKind::Binary { op: BinaryOp::Eq, .. }));
        }
        _ => panic!("Expected ||"),
    }
}

#[test]
fn grouping_overrides_precedence() {
    let expr = parse_expression("(1 + 2) * 3").unwrap();
    match expr.kind {
        ExprKind::Binary { op, left, .. } => {
            assert_eq!(op, BinaryOp::Mul);
            assert!(matches!(left.kind, ExprKind::Grouped(_)));
        }
        _ => panic!("Expected binary expression"),
    }
}

#[test]
fn struct_literal_and_enum_variant() {
    let expr = parse_expression("Person { name: \"Ann\", age: 3 }").unwrap();
    match expr.kind {
        ExprKind::Struct { name, fields } => {
            assert_eq!(name, "Person");
            assert_eq!(fields.len(), 2);
            assert_eq!(fields[1].name, "age");
        }
        _ => panic!("Expected struct literal"),
    }
    let expr = parse_expression("Color::Red").unwrap();
    assert!(matches!(expr.kind, ExprKind::EnumVariant { ref enum_name, ref variant } if enum_name == "Color" && variant == "Red"));
}

#[test]
fn map_and_optional_types() {
    let program = parse("type Index { entries: Map<String, [Int]>, note: String? \"free text\" }").unwrap();
    match &program.items[0] {
        Item::TypeDef(td) => {
            assert!(matches!(td.fields[0].ty.ty, TypeExpr::MapOf(_, _)));
            assert!(matches!(td.fields[1].ty.ty, TypeExpr::Primitive(PrimitiveType::String)));
            assert!(td.fields[1].ty.optional);
            assert_eq!(td.fields[1].description.as_deref(), Some("free text"));
        }
        _ => panic!("Expected type definition"),
    }
}

#[test]
fn block_value_and_statements() {
    let program = parse("def f(x: Int) { let y = x * 2\n y = y + 1\n if y > 3 { y } else { 0 } }").unwrap();
    match &program.items[0] {
        Item::FunctionDef(fd) => {
            let lattice::syntax::ast::FunctionBody::Block(b) = &fd.body;
            assert_eq!(b.stmts.len(), 2);
            assert!(matches!(b.stmts[1].kind, StmtKind::Assign { .. }));
            assert!(matches!(b.expr.as_ref().unwrap().kind, ExprKind::If { .. }));
            assert!(fd.return_type.is_none());
        }
        _ => panic!("Expected function definition"),
    }
}

#[test]
fn loops_and_return() {
    let program = parse("while i < 3 { i = i + 1 }\nfor x in xs { total = total + x }\nreturn total").unwrap();
    assert_eq!(program.items.len(), 3);
    assert!(matches!(&program.items[0], Item::Statement(s) if matches!(s.kind, StmtKind::While { .. })));
    assert!(matches!(&program.items[1], Item::Statement(s) if matches!(s.kind, StmtKind::For { .. })));
    assert!(matches!(&program.items[2], Item::Statement(s) if matches!(s.kind, StmtKind::Return { value: Some(_) })));
}

#[test]
fn syntax_errors_name_the_token() {
    match parse("let = 3") {
        Err(ParseError::Syntax { position }) => assert_eq!(position, 1),
        _ => panic!("Expected a syntax error"),
    }
    assert!(matches!(parse("let x = \"open"), Err(ParseError::Lex(_))));
    assert!(parse_expression("1 +").is_err());
    assert!(parse_expression("1 2").is_err());
}

#[test]
fn empty_program_has_no_items() {
    let program = parse("  // only a comment\n").unwrap();
    assert_eq!(program.items.len(), 0);
}

#[test]
fn nodes_carry_the_spans_of_their_tokens() {
    let e = parse_expression("a + (b * 2)").unwrap();
    assert_eq!((e.span.start, e.span.end, e.span.line, e.span.column), (0, 11, 1, 1));
    match e.kind {
        ExprKind::Binary { left, right, .. } => {
            assert_eq!((left.span.start, left.span.end), (0, 1));
            assert_eq!((right.span.start, right.span.end, right.span.column), (4, 11, 5));
            match right.kind {
                ExprKind::Grouped(inner) => assert_eq!((inner.span.start, inner.span.end), (5, 10)),
                _ => panic!("expected a parenthesized expression"),
            }
        }
        _ => panic!("expected a binary expression"),
    }
    let prog = parse("let x = 1\nwhile x < 3 { x = x + 1 }").unwrap();
    match &prog.items[1] {
        Item::Statement(s) => {
            assert_eq!((s.span.start, s.span.end, s.span.line, s.span.column), (10, 35, 2, 1));
            match &s.kind {
                StmtKind::While { body, .. } => {
                    assert_eq!((body.span.start, body.span.end, body.span.line, body.span.column), (22, 35, 2, 13));
                }
                _ => panic!("expected a while loop"),
            }
        }
        _ => panic!("expected a statement"),
    }
}

#[test]
fn arithmetic_groups_by_precedence() {
    let e = parse_expression("1 - 2 - 3").unwrap();
    match e.kind {
        ExprKind::Binary { left, op: BinaryOp::Sub, right } => {
            assert!(matches!(left.kind, ExprKind::Binary { op: BinaryOp::Sub, .. }));
            assert!(matches!(right.kind, ExprKind::Literal(Literal::Int(3))));
        }
        _ => panic!("expected a subtraction"),
    }
    let e = parse_expression("1 < 2 == 3 < 4 || 5 % 6 > 0 && 7").unwrap();
    match e.kind {
        ExprKind::Binary { left, op: BinaryOp::Or, right } => {
            assert!(matches!(left.kind, ExprKind::Binary { op: BinaryOp::Eq, .. }));
            assert!(matches!(right.kind, ExprKind::Binary { op: BinaryOp::And, .. }));
        }
        _ => panic!("expected ||"),
    }
}

#[test]
fn variables_group_by_precedence() {
    let e = parse_expression("a + b * c").unwrap();
    match e.kind {
        ExprKind::Binary { left, op: BinaryOp::Add, right } => {
            assert!(matches!(&left.kind, ExprKind::Var(x) if x == "a"));
            match right.kind {
                ExprKind::Binary { left, op: BinaryOp::Mul, right } => {
                    assert!(matches!(&left.kind, ExprKind::Var(x) if x == "b"));
                    assert!(matches!(&right.kind, ExprKind::Var(x) if x == "c"));
                }
                _ => panic!("expected a product"),
            }
        }
        _ => panic!("expected a sum"),
    }
}

#[test]
fn function_definitions_with_arithmetic_bodies_parse() {
    let program = parse("def f() -> Int { 1 + x * 2 }").unwrap();
    assert_eq!(program.items.len(), 1);
    match &program.items[0] {
        Item::FunctionDef(fd) => {
            assert_eq!(fd.name.node, "f");
            assert_eq!(fd.params.len(), 0);
            let lattice::syntax::ast::FunctionBody::Block(b) = &fd.body;
            assert!(b.stmts.is_empty());
            match &b.expr {
                Some(e) => assert!(matches!(e.kind, ExprKind::Binary { op: BinaryOp::Add, .. })),
                None => panic!("expected a body expression"),
            }
        }
        _ => panic!("expected a function definition"),
    }
    let program = parse("def id(a: Int) -> Int { a }").unwrap();
    match &program.items[0] {
        Item::FunctionDef(fd) => {
            assert_eq!(fd.params.len(), 1);
            assert_eq!(fd.params[0].name.node, "a");
        }
        _ => panic!("expected a function definition"),
    }
}
