use ted::compiler::ast::{Ast, BinaryExprKind, Block, Expr, ExprKind};
use ted::compiler::checker::{check_ast, Type};
use ted::compiler::parser::{lex, parse_string, Keyword, StringTable, TokenKind};
use ted::compiler::types::{CopyRange, Error, ErrorMessage};

fn message(e: Error) -> (String, u32, usize, usize) {
    match e {
        Error::Message(m) => (m.message, m.file, m.range.start, m.range.end),
    }
}

#[test]
fn test_parser() {
    let mut table = StringTable::new();
    let text = r#"
        let hello = wait slow()
        let a = 12

        print(hello, a)
        "#;

    let data = match lex(&mut table, 0, text) {
        Ok(data) => data,
        Err(e) => panic!("{:?}", message(e)),
    };
    assert!(!data.is_empty());
}

#[test]
fn lex_keywords_words_and_integers() {
    let mut table = StringTable::new();
    let toks = lex(&mut table, 0, "let x = 12").unwrap();
    let kinds: Vec<TokenKind> = toks.iter().map(|t| t.kind).collect();
    assert_eq!(
        kinds,
        vec![
            TokenKind::Word,
            TokenKind::Skip,
            TokenKind::Word,
            TokenKind::Skip,
            TokenKind::Equal,
            TokenKind::Skip,
            TokenKind::Integer,
        ]
    );
    assert_eq!(toks[0].data, Keyword::Let.id());
    // "x" is the first new text after the keywords
    assert_eq!(toks[2].data, 13);
    let total: usize = toks.iter().map(|t| t.len(&table)).sum();
    assert_eq!(total, "let x = 12".len());
}

#[test]
fn lex_two_byte_operators() {
    let mut table = StringTable::new();
    let toks = lex(&mut table, 3, "a<=b==c").unwrap();
    let kinds: Vec<TokenKind> = toks.iter().map(|t| t.kind).collect();
    assert_eq!(
        kinds,
        vec![TokenKind::Word, TokenKind::LtEq, TokenKind::Word, TokenKind::Equal2, TokenKind::Word]
    );
}

#[test]
fn lex_reports_unrecognized_byte() {
    let mut table = StringTable::new();
    let e = lex(&mut table, 2, "a $").unwrap_err();
    assert_eq!(message(e), ("unrecognized token".to_string(), 2, 2, 3));
}

#[test]
fn lex_reports_unterminated_string() {
    let mut table = StringTable::new();
    let e = lex(&mut table, 1, "x \"abc").unwrap_err();
    assert_eq!(message(e), ("failed to parse char or string".to_string(), 1, 3, 6));
}

#[test]
fn parse_string_finds_closing_quote() {
    let bytes = b"\"ab\\\"c\" rest";
    assert_eq!(parse_string(0, bytes, 1, b'"').ok(), Some(7));
    assert!(parse_string(0, b"\"abc", 1, b'"').is_err());
}

#[test]
fn string_table_keeps_one_copy() {
    let mut table = StringTable::new();
    let n = table.names.len();
    let a = table.add(b"hello");
    let b = table.add(b"hello");
    assert_eq!(a, b);
    assert_eq!(table.names.len(), n + 1);
    assert_eq!(table.add(b"let"), Keyword::Let.id());
}

#[test]
fn error_messages_append_in_order() {
    let mut messages: Vec<ErrorMessage> = Vec::new();
    Error::new("one".to_string(), CopyRange { start: 0, end: 1 }).append_messages(&mut messages);
    Error::new("two".to_string(), CopyRange { start: 2, end: 4 }).append_messages(&mut messages);
    assert_eq!(messages.len(), 2);
    assert_eq!(messages[0].message, "one");
    assert_eq!(messages[1].range, CopyRange { start: 2, end: 4 });
    assert_eq!(messages[1].file, 0);
}

fn loc(n: usize) -> CopyRange {
    CopyRange { start: n, end: n + 1 }
}

fn expr(kind: ExprKind, n: usize) -> Expr {
    Expr { kind, loc: loc(n) }
}

const PRINT: u32 = 50;

#[test]
fn check_let_and_use() {
    // let x = 5; print(x + x)
    let exprs = vec![
        expr(ExprKind::Integer(5), 0),
        expr(ExprKind::Let { symbol: 20, value: 0 }, 1),
        expr(ExprKind::Ident { symbol: 20 }, 2),
        expr(ExprKind::Ident { symbol: 20 }, 3),
        expr(ExprKind::BinaryOp { kind: BinaryExprKind::Add, left: 2, right: 3 }, 4),
        expr(ExprKind::Ident { symbol: PRINT }, 5),
        expr(ExprKind::Call { callee: 5, args: vec![4] }, 6),
    ];
    let ast = Ast { exprs, block: Block { stmts: vec![1, 6] } };
    let env = check_ast(&ast, PRINT).ok().unwrap();
    assert_eq!(env.type_of.get(&0), Some(&Type::Unsigned));
    assert_eq!(env.type_of.get(&1), Some(&Type::Null));
    assert_eq!(env.type_of.get(&4), Some(&Type::Unsigned));
    assert_eq!(env.type_of.get(&6), Some(&Type::Null));
    assert_eq!(env.type_of.get(&5), None);
    assert_eq!(env.ident_to_expr.get(&2), Some(&0));
    assert_eq!(env.ident_to_expr.get(&3), Some(&0));
}

#[test]
fn check_reports_unbound_variable() {
    let exprs = vec![expr(ExprKind::Ident { symbol: 7 }, 9)];
    let ast = Ast { exprs, block: Block { stmts: vec![0] } };
    let e = check_ast(&ast, PRINT).err().unwrap();
    assert_eq!(message(e), ("couldn't find variable".to_string(), 0, 9, 10));
}

#[test]
fn check_reports_redeclared_variable() {
    let exprs = vec![
        expr(ExprKind::Integer(1), 0),
        expr(ExprKind::Let { symbol: 3, value: 0 }, 1),
        expr(ExprKind::Integer(2), 2),
        expr(ExprKind::Let { symbol: 3, value: 2 }, 3),
    ];
    let ast = Ast { exprs, block: Block { stmts: vec![1, 3] } };
    let e = check_ast(&ast, PRINT).err().unwrap();
    assert_eq!(message(e), ("redeclared variable".to_string(), 0, 3, 4));
}

#[test]
fn check_block_scopes_end() {
    // { let y = 1 }; y
    let exprs = vec![
        expr(ExprKind::Integer(1), 0),
        expr(ExprKind::Let { symbol: 4, value: 0 }, 1),
        expr(ExprKind::Block(Block { stmts: vec![1] }), 2),
        expr(ExprKind::Ident { symbol: 4 }, 3),
    ];
    let ast = Ast { exprs, block: Block { stmts: vec![2, 3] } };
    let e = check_ast(&ast, PRINT).err().unwrap();
    assert_eq!(message(e), ("couldn't find variable".to_string(), 0, 3, 4));
}

#[test]
fn check_inner_block_sees_outer_and_may_shadow() {
    // let y = 1; { let y = y }
    let exprs = vec![
        expr(ExprKind::Integer(1), 0),
        expr(ExprKind::Let { symbol: 4, value: 0 }, 1),
        expr(ExprKind::Ident { symbol: 4 }, 2),
        expr(ExprKind::Let { symbol: 4, value: 2 }, 3),
        expr(ExprKind::Block(Block { stmts: vec![3] }), 4),
    ];
    let ast = Ast { exprs, block: Block { stmts: vec![1, 4] } };
    let env = check_ast(&ast, PRINT).ok().unwrap();
    assert_eq!(env.ident_to_expr.get(&2), Some(&0));
    assert_eq!(env.type_of.get(&4), Some(&Type::Null));
}

#[test]
fn check_reports_type_mismatch() {
    // 1 + { }
    let exprs = vec![
        expr(ExprKind::Integer(1), 0),
        expr(ExprKind::Block(Block { stmts: vec![] }), 1),
        expr(ExprKind::BinaryOp { kind: BinaryExprKind::Equal, left: 0, right: 1 }, 2),
    ];
    let ast = Ast { exprs, block: Block { stmts: vec![2] } };
    let e = check_ast(&ast, PRINT).err().unwrap();
    assert_eq!(
        message(e),
        ("binary operation should be with values that are the same type".to_string(), 0, 2, 3)
    );
}

use ted::compiler::interp::{interpret, Register};

#[test]
fn registers_give_their_low_bits() {
    let r = Register { value: 0x1_0000_0005 };
    assert_eq!(r.u32(), 5);
    assert_eq!(r.u64(), 0x1_0000_0005);
}

#[test]
fn interpret_runs_lets_and_blocks() {
    // { let a = { } }
    let exprs = vec![
        expr(ExprKind::Block(Block { stmts: vec![] }), 0),
        expr(ExprKind::Let { symbol: 1, value: 0 }, 1),
        expr(ExprKind::Block(Block { stmts: vec![1] }), 2),
    ];
    let ast = Ast { exprs, block: Block { stmts: vec![2] } };
    interpret(&ast);
}

#[test]
fn lex_stores_new_texts_in_order() {
    let mut table = StringTable::new();
    let toks = lex(&mut table, 0, "a<=b a").unwrap();
    let datas: Vec<(TokenKind, u32)> = toks.iter().map(|t| (t.kind, t.data)).collect();
    assert_eq!(
        datas,
        vec![
            (TokenKind::Word, 13),
            (TokenKind::LtEq, 0),
            (TokenKind::Word, 14),
            (TokenKind::Skip, 1),
            (TokenKind::Word, 13),
        ]
    );
    assert_eq!(table.names.len(), 15);
    assert_eq!(table.names[13], b"a".to_vec());
    assert_eq!(table.names[14], b"b".to_vec());
}

#[test]
fn lex_char_literal_closes_at_its_quote() {
    let mut table = StringTable::new();
    let toks = lex(&mut table, 0, "'a' \"b\\\"c\"").unwrap();
    let kinds: Vec<TokenKind> = toks.iter().map(|t| t.kind).collect();
    assert_eq!(kinds, vec![TokenKind::Char, TokenKind::Skip, TokenKind::String]);
    assert_eq!(table.names[toks[0].data as usize], b"a".to_vec());
    assert_eq!(table.names[toks[2].data as usize], b"b\\\"c".to_vec());
    assert!(lex(&mut table, 0, "'a\"").is_err());
    assert_eq!(parse_string(0, b"'x'", 1, b'\'').ok(), Some(3));
    assert_eq!(parse_string(0, b"'\\''", 1, b'\'').ok(), Some(4));
}
