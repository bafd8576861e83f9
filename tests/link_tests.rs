use psyx::link::{
    parse_attribute_list, parse_expression_text, parse_integer_constant, parse_line, Attribute,
    BinaryOp, Command, Expression, UnaryOp,
};

fn parse_command(input: &str) -> Command {
    parse_line(input).unwrap().0.unwrap()
}

fn parse_expr(input: &str) -> Expression {
    parse_expression_text(input).expect("parse failed").0
}

fn attributes_of(input: &str) -> Vec<Attribute> {
    parse_attribute_list(input.as_bytes(), 0).unwrap().0
}

#[test]
fn test_parse_integer_constant() {
    let output = parse_integer_constant("1234".as_bytes(), 0).unwrap().0;
    assert_eq!(1234, output);

    let output = parse_integer_constant("$1234".as_bytes(), 0).unwrap().0;
    assert_eq!(0x1234, output);

    let output = parse_integer_constant("%1010".as_bytes(), 0).unwrap().0;
    assert_eq!(10, output);
}

#[test]
fn test_parse_command_include() {
    let output = parse_command("include \"foo.obj\"");

    match output {
        Command::Include { filename } => assert_eq!("foo.obj", filename),
        _ => panic!("unexpected output: {:?}", output),
    }
}

#[test]
fn test_parse_command_inclib() {
    let output = parse_command("inclib \"bar.lib\"");

    match output {
        Command::IncLib { filename } => assert_eq!("bar.lib", filename),
        _ => panic!("unexpected output: {:?}", output),
    }
}

#[test]
fn test_parse_command_org() {
    let output = parse_command("org 1234");
    match output {
        Command::Origin { address } => assert_eq!(1234, address),
        _ => panic!("unexpected output: {:?}", output),
    }

    let output = parse_command("org $1234");
    match output {
        Command::Origin { address } => assert_eq!(0x1234, address),
        _ => panic!("unexpected output: {:?}", output),
    }

    let output = parse_command("org %1010");
    match output {
        Command::Origin { address } => assert_eq!(10, address),
        _ => panic!("unexpected output: {:?}", output),
    }
}

#[test]
fn test_parse_command_workspace() {
    let output = parse_command("workspace 1234");
    match output {
        Command::Workspace { address } => assert_eq!(1234, address),
        _ => panic!("unexpected output: {:?}", output),
    }

    let output = parse_command("workspace $1234");
    match output {
        Command::Workspace { address } => assert_eq!(0x1234, address),
        _ => panic!("unexpected output: {:?}", output),
    }

    let output = parse_command("workspace %1010");
    match output {
        Command::Workspace { address } => assert_eq!(10, address),
        _ => panic!("unexpected output: {:?}", output),
    }
}

#[test]
fn test_parse_command_equals() {
    let output = parse_command("foo = bar");
    match output {
        Command::Equals { left, right } => {
            assert_eq!("foo", left);
            let Expression::Symbol(symbol) = right else {
                panic!("unexpected value: {:?}", right);
            };
            assert_eq!("bar", symbol);
        }
        _ => panic!("unexpected output: {:?}", output),
    }
}

#[test]
fn test_parse_command_regs() {
    let output = parse_command("regs pc=ENTRY_POINT");

    match output {
        Command::Regs {
            register,
            expression,
        } => {
            assert_eq!("pc", register);
            let Expression::Symbol(symbol) = expression else {
                panic!("unexpected value: {:?}", expression);
            };
            assert_eq!("ENTRY_POINT", symbol);
        }
        _ => panic!("unexpected output: {:?}", output),
    }
}

#[test]
fn parse_command_group() {
    let output = parse_command("anim group");

    match output {
        Command::Group { name, attributes } => {
            assert_eq!("anim", name);
            assert!(attributes.is_empty());
        }
        _ => panic!("unexpected output: {:?}", output),
    }

    let output = parse_command("anim group bss");

    match output {
        Command::Group { name, attributes } => {
            assert_eq!("anim", name);
            assert_eq!(vec![Attribute::BSS], attributes);
        }
        _ => panic!("unexpected output: {:?}", output),
    }
}

#[test]
fn test_parse_command_section() {
    let output = parse_command("anim section");

    match output {
        Command::Section {
            name,
            group: _,
            attributes,
        } => {
            assert_eq!("anim", name);
            assert!(attributes.is_empty());
        }
        _ => panic!("unexpected output: {:?}", output),
    }

    let output = parse_command("anim section bss");

    let Command::Section {
        name,
        group: _,
        attributes,
    } = output
    else {
        panic!("unexpected output: {:?}", output);
    };
    assert_eq!("anim", name);
    assert_eq!(vec![Attribute::BSS], attributes);

    let output = parse_command("section anim");
    let Command::Section {
        name,
        group,
        attributes,
    } = output
    else {
        panic!("unexpected output: {:?}", output);
    };
    assert_eq!("anim", name);
    assert!(group.is_none());
    assert!(attributes.is_empty());

    let output = parse_command("section anim,squares");
    let Command::Section {
        name,
        group,
        attributes,
    } = output
    else {
        panic!("unexpected output: {:?}", output);
    };
    assert_eq!("anim", name);
    let Some(group) = group else {
        panic!("unexpected output: {:?}", group);
    };
    assert_eq!("squares".to_string(), group);
    assert!(attributes.is_empty());
}

#[test]
fn test_parse_command_alias() {
    let output = parse_command("foo alias bar");
    let Command::Alias { name, target } = output else {
        panic!("unexpected output: {:?}", output);
    };
    assert_eq!("foo".to_string(), name);
    assert_eq!("bar".to_string(), target);
}

#[test]
fn test_parse_command_unit() {
    let output = parse_command("unit %1010");
    let Command::Unit { unitnum } = output else {
        panic!("unexpected output: {:?}", output);
    };
    assert_eq!(10, unitnum);
}

#[test]
fn test_parse_command_global() {
    let output = parse_command("global foo");

    match output {
        Command::Global { symbols } => assert_eq!(vec!["foo".to_string()], symbols),
        _ => panic!("unexpected output: {:?}", output),
    }

    let output = parse_command("global foo, bar , baz");

    match output {
        Command::Global { symbols } => assert_eq!(
            vec!["foo".to_string(), "bar".to_string(), "baz".to_string(),],
            symbols
        ),
        _ => panic!("unexpected output: {:?}", output),
    }
}

#[test]
fn test_parse_command_xdef() {
    let output = parse_command("xdef foo, bar, baz");

    match output {
        Command::XDef { symbols } => assert_eq!(
            vec!["foo".to_string(), "bar".to_string(), "baz".to_string(),],
            symbols
        ),
        _ => panic!("unexpected output: {:?}", output),
    }
}

#[test]
fn test_parse_command_xref() {
    let output = parse_command("xref foo, bar, baz");

    match output {
        Command::XRef { symbols } => assert_eq!(
            vec!["foo".to_string(), "bar".to_string(), "baz".to_string(),],
            symbols
        ),
        _ => panic!("unexpected output: {:?}", output),
    }
}

#[test]
fn test_parse_command_public() {
    let output = parse_command("public on");
    match output {
        Command::Public { public } => assert!(public),
        _ => panic!("unexpected output: {:?}", output),
    }

    let output = parse_command("PUBLIC OFF");
    match output {
        Command::Public { public } => assert!(!public),
        _ => panic!("unexpected output: {:?}", output),
    }
}

#[test]
fn test_parse_comment() {
    // line with only a comment
    let line = parse_line("; hello, world!").unwrap();

    assert!(line.0.is_none());
    assert_eq!("hello, world!", line.1.unwrap().comment);

    // line with command & comment
    let line = parse_line("global foo; my global\nnot comment content").unwrap();

    match line.0 {
        Some(Command::Global { symbols }) => assert_eq!(vec!["foo".to_string()], symbols),
        _ => panic!("unexpected output: {:?}", line),
    }
    assert_eq!("my global", line.1.unwrap().comment);

    // line with command no comment
    let line = parse_line("global foo").unwrap();

    match line.0 {
        Some(Command::Global { symbols }) => assert_eq!(vec!["foo".to_string()], symbols),
        _ => panic!("unexpected output: {:?}", line),
    }
    assert!(line.1.is_none());

    // empty line
    let line = parse_line("   \t ").unwrap();
    assert!(line.0.is_none());
    assert!(line.1.is_none());
}

#[test]
fn test_parse_attribute_list() {
    let attributes = attributes_of("bss,word,file(\"foo\")");
    assert_eq!(3, attributes.len());

    assert!(matches!(attributes.first(), Some(Attribute::BSS)));
    assert!(matches!(attributes.get(1), Some(Attribute::Word)));
    let Some(Attribute::File { filename }) = attributes.get(2) else {
        panic!("unexpected value: {:?}", attributes.get(2));
    };
    assert_eq!("foo", filename);

    let attributes = attributes_of("");
    assert!(attributes.is_empty());

    let attributes = attributes_of("bss");
    assert_eq!(1, attributes.len());
    assert!(matches!(attributes.first(), Some(Attribute::BSS)));

    let attributes = attributes_of("size(42)");
    assert_eq!(1, attributes.len());
    assert!(matches!(
        attributes.first(),
        Some(Attribute::Size { maxsize: 42 })
    ));

    let attributes = attributes_of("over(squares)");
    assert_eq!(1, attributes.len());
    let Some(Attribute::Over { group }) = attributes.first() else {
        panic!("unexpected value: {:?}", attributes.first());
    };
    assert_eq!("squares", group);

    let attributes = attributes_of("org($1234)");
    assert_eq!(1, attributes.len());
    let Some(Attribute::Origin { address }) = attributes.first() else {
        panic!("unexpected value: {:?}", attributes.first());
    };
    assert_eq!(0x1234, *address);

    let attributes = attributes_of("obj($4567)");
    assert_eq!(1, attributes.len());
    let Some(Attribute::Obj { address }) = attributes.first() else {
        panic!("unexpected value: {:?}", attributes.first());
    };
    assert!(matches!(address, Some(0x4567)));

    let attributes = attributes_of("obj()");
    assert_eq!(1, attributes.len());
    let Some(Attribute::Obj { address }) = attributes.first() else {
        panic!("unexpected value: {:?}", attributes.first());
    };
    assert!(address.is_none());
}

#[test]
fn test_constant() {
    assert_eq!(parse_expr("42"), Expression::Constant(42));
    assert_eq!(parse_expr("$ABCD"), Expression::Constant(0xABCD));
    assert_eq!(parse_expr("%1010"), Expression::Constant(0b1010));
}

#[test]
fn test_symbol() {
    assert_eq!(parse_expr("foo"), Expression::Symbol("foo".into()));
    assert_eq!(parse_expr("_start"), Expression::Symbol("_start".into()));
    assert_eq!(parse_expr("var123"), Expression::Symbol("var123".into()));
}

#[test]
fn test_simple_binary() {
    let expr = parse_expr("1 + 2");
    assert_eq!(
        expr,
        Expression::Binary {
            left: Box::new(Expression::Constant(1)),
            op: BinaryOp::Add,
            right: Box::new(Expression::Constant(2)),
        }
    );
}

#[test]
fn test_precedence() {
    // 1 + 2 * 3 should parse as 1 + (2 * 3)
    let expr = parse_expr("1 + 2 * 3");
    assert_eq!(
        expr,
        Expression::Binary {
            left: Box::new(Expression::Constant(1)),
            op: BinaryOp::Add,
            right: Box::new(Expression::Binary {
                left: Box::new(Expression::Constant(2)),
                op: BinaryOp::Mul,
                right: Box::new(Expression::Constant(3)),
            }),
        }
    );
}

#[test]
fn test_left_associativity() {
    // 1 - 2 - 3 should parse as (1 - 2) - 3
    let expr = parse_expr("1 - 2 - 3");
    assert_eq!(
        expr,
        Expression::Binary {
            left: Box::new(Expression::Binary {
                left: Box::new(Expression::Constant(1)),
                op: BinaryOp::Sub,
                right: Box::new(Expression::Constant(2)),
            }),
            op: BinaryOp::Sub,
            right: Box::new(Expression::Constant(3)),
        }
    );
}

#[test]
fn test_parentheses() {
    // (1 + 2) * 3
    let expr = parse_expr("(1 + 2) * 3");
    assert_eq!(
        expr,
        Expression::Binary {
            left: Box::new(Expression::Parens(Box::new(Expression::Binary {
                left: Box::new(Expression::Constant(1)),
                op: BinaryOp::Add,
                right: Box::new(Expression::Constant(2)),
            }))),
            op: BinaryOp::Mul,
            right: Box::new(Expression::Constant(3)),
        }
    );
}

#[test]
fn test_unary() {
    assert_eq!(
        parse_expr("-42"),
        Expression::Unary {
            op: UnaryOp::Neg,
            operand: Box::new(Expression::Constant(42)),
        }
    );

    assert_eq!(
        parse_expr("~$FF"),
        Expression::Unary {
            op: UnaryOp::Not,
            operand: Box::new(Expression::Constant(0xFF)),
        }
    );
}

#[test]
fn test_function_call() {
    let expr = parse_expr("sectstart(text)");
    assert_eq!(
        expr,
        Expression::Function {
            name: "sectstart".into(),
            arg: Box::new(Expression::Symbol("text".into())),
        }
    );
}

#[test]
fn test_complex_expression() {
    // base + (offset & $FFFF) | $8000
    let expr = parse_expr("base + (offset & $FFFF) | $8000");

    // Should parse as: (base + (offset & 0xFFFF)) | 0x8000
    match expr {
        Expression::Binary {
            left,
            op: BinaryOp::Or,
            right,
        } => {
            assert_eq!(*right, Expression::Constant(0x8000));

            match *left {
                Expression::Binary {
                    left: base,
                    op: BinaryOp::Add,
                    right: mask_expr,
                } => {
                    assert_eq!(*base, Expression::Symbol("base".into()));

                    match *mask_expr {
                        Expression::Parens(inner) => match *inner {
                            Expression::Binary {
                                left,
                                op: BinaryOp::And,
                                right,
                            } => {
                                assert_eq!(*left, Expression::Symbol("offset".into()));
                                assert_eq!(*right, Expression::Constant(0xFFFF));
                            }
                            _ => panic!("unexpected inner expression"),
                        },
                        _ => panic!("expected parenthesized expression"),
                    }
                }
                _ => panic!("unexpected left side"),
            }
        }
        _ => panic!("expected binary OR expression"),
    }
}

#[test]
fn test_bitwise_operators() {
    parse_expr("a & b");
    parse_expr("a | b");
    parse_expr("a ^ b");
    parse_expr("a << 4");
    parse_expr("a >> 2");
}

#[test]
fn test_comparison_operators() {
    parse_expr("a == b");
    parse_expr("a != b");
    parse_expr("a < b");
    parse_expr("a <= b");
    parse_expr("a > b");
    parse_expr("a >= b");
}

#[test]
fn test_logical_operators() {
    parse_expr("a && b");
    parse_expr("a || b");
    parse_expr("!a");
}

#[test]
fn test_whitespace_handling() {
    assert_eq!(parse_expr("1+2"), parse_expr("1 + 2"));
    assert_eq!(parse_expr("  1  +  2  "), parse_expr("1+2"));
}

#[test]
fn test_real_world_examples() {
    parse_expr("BUFFER_END = BUFFER_START + $1000");
    parse_expr("(base & $FFFF0000) | $8000");
    parse_expr("sectstart(text) + $100");
    parse_expr("-(offset + 4)");
    parse_expr("~(flags | $FF)");
}

#[test]
fn test_display() {
    let expr = Expression::Binary {
        left: Box::new(Expression::Symbol("a".into())),
        op: BinaryOp::Add,
        right: Box::new(Expression::Constant(0x100)),
    };
    assert_eq!(expr.to_text(), "(a + $100)");
}
