use simplelang::ast::{ASTNode, Instr, Label, Operator, Register};
use simplelang::compiler::{compile, compile_tokens, instr_string};
use simplelang::lexer::{Lexer, Token, Tokentype};
use simplelang::parser::{Parser, parse_number};
use simplelang::error::{CompileError, Expected};
use simplelang::symbols::SymbolTable;

fn tokens_of(src: &str) -> Vec<Token> {
    Lexer::new(src.to_string()).tokenize().unwrap()
}

fn lines(src: &str) -> Vec<String> {
    compile(src).unwrap().lines().map(|l| l.to_string()).collect()
}

#[test]
fn declaration_and_addition_scenario() {
    let mut parser = Parser::new(tokens_of("int a = 5; int b = a + 1;"));
    assert!(parser.parse().is_ok());
    assert_eq!(parser.symbols().slot_of("a"), Ok(1));
    assert_eq!(parser.symbols().slot_of("b"), Ok(2));
    assert_eq!(
        compile("int a = 5; int b = a + 1;").unwrap(),
        ".text\nldi A 5\nsta 1\nlda 1\nldi B 1\nadd\nsta 2\nhlt\n"
    );
}

#[test]
fn conditional_scenario() {
    let out = lines("int x = 1; if (x == 1) { x = 2; } else { x = 3; }");
    assert_eq!(
        out,
        vec![
            ".text", "ldi A 1", "sta 1", "lda 1", "ldi B 1", "cmp", "jnz %else_branch_0", "ldi A 2", "sta 1",
            "jmp %endif_0", "else_branch_0:", "ldi A 3", "sta 1", "endif_0:", "hlt",
        ]
    );
    let jmp = out.iter().position(|l| l == "jmp %endif_0").unwrap();
    let else_label = out.iter().position(|l| l == "else_branch_0:").unwrap();
    let else_code = out.iter().position(|l| l == "ldi A 3").unwrap();
    let end = out.iter().position(|l| l == "endif_0:").unwrap();
    assert!(jmp < else_label && else_label < else_code && else_code < end);
}

#[test]
fn redeclaration_fails() {
    assert_eq!(compile("int x; int x;"), Err(CompileError::DuplicateDeclaration("x".to_string())));
}

#[test]
fn assignment_to_undeclared_fails() {
    assert_eq!(compile("y = 1;"), Err(CompileError::UndeclaredVariable("y".to_string())));
}

#[test]
fn read_of_undeclared_declares_it() {
    let mut parser = Parser::new(tokens_of("int a = b + 1;"));
    assert!(parser.parse().is_ok());
    assert_eq!(parser.symbols().slot_of("b"), Ok(1));
    assert_eq!(parser.symbols().slot_of("a"), Ok(2));
    assert_eq!(compile("int a = b + 1;").unwrap(), ".text\nlda 1\nldi B 1\nadd\nsta 2\nhlt\n");
}

#[test]
fn initializer_may_read_the_declared_name() {
    assert_eq!(compile("int x = x + 1;").unwrap(), ".text\nlda 1\nldi B 1\nadd\nsta 1\nhlt\n");
}

#[test]
fn expressions_fold_to_the_left() {
    let mut parser = Parser::new(tokens_of("1 + 2 - 3;"));
    let root = parser.parse().unwrap();
    let stmts = match &root {
        ASTNode::Block(b) => &b.statements,
        _ => panic!("root is not a block"),
    };
    assert_eq!(stmts.len(), 1);
    let outer = match &stmts[0] {
        ASTNode::BinaryOp(b) => b,
        _ => panic!("not a binary operation"),
    };
    assert_eq!(outer.op, Operator::Minus);
    assert!(matches!(&*outer.r, ASTNode::Number(n) if n.val == 3));
    let inner = match &*outer.l {
        ASTNode::BinaryOp(b) => b,
        _ => panic!("left operand is not a binary operation"),
    };
    assert_eq!(inner.op, Operator::Plus);
    assert!(matches!(&*inner.l, ASTNode::Number(n) if n.val == 1));
    assert!(matches!(&*inner.r, ASTNode::Number(n) if n.val == 2));
    assert_eq!(lines("1 + 2 - 3;"), vec![".text", "ldi A 1", "ldi B 2", "add", "ldi B 3", "sub", "hlt"]);
}

#[test]
fn slots_follow_first_declaration() {
    let mut parser = Parser::new(tokens_of("int c = 1; int a; int b = c; a = b;"));
    assert!(parser.parse().is_ok());
    let t = parser.symbols();
    assert_eq!(t.len(), 3);
    assert_eq!(t.slot_of("c"), Ok(1));
    assert_eq!(t.slot_of("a"), Ok(2));
    assert_eq!(t.slot_of("b"), Ok(3));
    assert!(t.is_declared("a"));
    assert!(!t.is_declared("d"));
}

#[test]
fn declare_is_idempotent() {
    let mut t = SymbolTable::new();
    assert_eq!(t.declare("x"), 1);
    assert_eq!(t.declare("y"), 2);
    assert_eq!(t.declare("x"), 1);
    assert_eq!(t.len(), 2);
    assert_eq!(t.slot_of("z"), Err(CompileError::UndeclaredVariable("z".to_string())));
}

#[test]
fn declaration_without_initializer_stores_a() {
    assert_eq!(compile("int x;").unwrap(), ".text\nsta 1\nsta 1\nhlt\n");
}

#[test]
fn empty_program() {
    assert_eq!(compile("").unwrap(), ".text\nhlt\n");
}

#[test]
fn nested_conditionals_get_distinct_labels() {
    let out = lines("int x = 0; if (x == 0) if (x == 1) x = 1; else x = 2; x = 3;");
    assert_eq!(
        out,
        vec![
            ".text", "ldi A 0", "sta 1", "lda 1", "ldi B 0", "cmp", "jnz %else_branch_0", "lda 1", "ldi B 1",
            "cmp", "jnz %else_branch_1", "ldi A 1", "sta 1", "jmp %endif_1", "else_branch_1:", "ldi A 2",
            "sta 1", "endif_1:", "jmp %endif_0", "else_branch_0:", "endif_0:", "ldi A 3", "sta 1", "hlt",
        ]
    );
}

#[test]
fn variable_as_right_operand_moves_into_b() {
    assert_eq!(
        lines("int a = 1; int b = 2; a = 7 - b;"),
        vec![".text", "ldi A 1", "sta 1", "ldi A 2", "sta 2", "ldi A 7", "mov B M 2", "sub", "sta 1", "hlt"]
    );
}

#[test]
fn slots_beyond_nine_are_written_in_decimal() {
    let src = "int a; int b; int c; int d; int e; int f; int g; int h; int i; int j; j = 12;";
    let out = lines(src);
    assert_eq!(out[out.len() - 3], "ldi A 12");
    assert_eq!(out[out.len() - 2], "sta 10");
}

#[test]
fn instruction_text() {
    assert_eq!(instr_string(Instr::LoadImm(Register::B, -42)), "ldi B -42");
    assert_eq!(instr_string(Instr::Load(305)), "lda 305");
    assert_eq!(instr_string(Instr::Mark(Label::End(17))), "endif_17:");
    assert_eq!(instr_string(Instr::JumpNonZero(Label::Else(4))), "jnz %else_branch_4");
}

#[test]
fn missing_semicolon_is_a_parse_error() {
    assert_eq!(
        compile("int x = 5"),
        Err(CompileError::ParseError {
            at: 4,
            expected: Expected::Token(Tokentype::SEMICOLON),
            found: Some(String::new()),
        })
    );
}

#[test]
fn unexpected_token_in_primary_is_a_parse_error() {
    assert_eq!(
        compile("int x = ;"),
        Err(CompileError::ParseError { at: 3, expected: Expected::Primary, found: Some(";".to_string()) })
    );
}

#[test]
fn number_out_of_range_is_rejected() {
    assert_eq!(compile("int x = 2147483648;"), Err(CompileError::InvalidNumber(3)));
    assert_eq!(lines("int x = 2147483647;")[1], "ldi A 2147483647");
    assert_eq!(parse_number("123"), Some(123));
    assert_eq!(parse_number("12a"), None);
    assert_eq!(parse_number(""), None);
}

#[test]
fn assign_operator_inside_expression_is_unsupported() {
    assert_eq!(compile("int x = 1; x = x = 2;"), Err(CompileError::UnsupportedOperator));
}

#[test]
fn lex_error_stops_compilation() {
    assert_eq!(compile("int x = 1 # 2;"), Err(CompileError::LexError(10)));
}

#[test]
fn compile_from_tokens() {
    let code = compile_tokens(tokens_of("int q = 3 + 4;")).unwrap();
    assert_eq!(
        code,
        vec![Instr::Text, Instr::LoadImm(Register::A, 3), Instr::LoadImm(Register::B, 4), Instr::Add, Instr::Store(1), Instr::Halt]
    );
    let bad = vec![Token { typ: Tokentype::IF, value: "if".to_string() }];
    assert_eq!(
        compile_tokens(bad),
        Err(CompileError::ParseError { at: 1, expected: Expected::Token(Tokentype::LPAREN), found: None })
    );
}

#[test]
fn failed_parse_keeps_no_declarations() {
    let mut parser = Parser::new(tokens_of("int a = 1; int b; y = 1;"));
    assert_eq!(parser.parse().err(), Some(CompileError::UndeclaredVariable("y".to_string())));
    assert_eq!(parser.symbols().len(), 0);
    assert!(!parser.symbols().is_declared("a"));
    assert!(!parser.symbols().is_declared("y"));
}

#[test]
fn failed_generation_appends_nothing() {
    let mut parser = Parser::new(tokens_of("int x = 1; if (x == 1) { x = 2; } x = x = 2;"));
    let root = parser.parse().ok().unwrap();
    let mut out = vec![Instr::Text];
    let mut labels: u64 = 0;
    assert_eq!(root.generate_code(&mut out, &mut labels), Err(CompileError::UnsupportedOperator));
    assert_eq!(out, vec![Instr::Text]);
}
