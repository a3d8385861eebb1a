use cake::ast::{Expr, Node, Statement};
use cake::lexer::Lexer;
use cake::parser::Parser;
use cake::token::{lookup_ident, Token};

// Parsing the same source twice yields structurally identical trees.
#[test]
fn test_determinism() {
    let src = "let a = 1 + 2 * 3; if (a > 3) { return true; } else { return false; }; add(1, 2+3);";
    let mut p1 = Parser::new(Lexer::new(src));
    let mut p2 = Parser::new(Lexer::new(src));
    let prog1 = p1.parse();
    let prog2 = p2.parse();
    assert_eq!(prog1.statements, prog2.statements);
    assert_eq!(prog1.literal(), prog2.literal());
}

// Lexing a text with one unsupported character yields exactly one illegal
// token for it; the token count is one more than for the text without it.
#[test]
fn test_illegal_token_count() {
    let mut with_at = Lexer::new("let a @ = 5;");
    let mut without_at = Lexer::new("let a  = 5;");
    let toks_with = with_at.read_all();
    let toks_without = without_at.read_all();
    assert_eq!(toks_with.len(), toks_without.len() + 1);
    let illegal: Vec<&Token> = toks_with
        .iter()
        .filter(|t| matches!(t, Token::Illegal(_)))
        .collect();
    assert_eq!(illegal.len(), 1);
    assert_eq!(*illegal[0], Token::Illegal(vec!['@']));
}

// One malformed statement does not abort the parse: the statements after it
// are still parsed.
#[test]
fn test_recovery_after_malformed_statement() {
    let mut parser = Parser::new(Lexer::new("let a = 1 let b = 2;"));
    let prog = parser.parse();
    assert_eq!(prog.statements.len(), 1);
    assert_eq!(prog.statements[0].literal(), "Let(b, 2)");
}

#[test]
fn test_recovery_missing_return_semicolon() {
    let mut parser = Parser::new(Lexer::new("return 1 let b = 3;"));
    let prog = parser.parse();
    assert_eq!(prog.statements.len(), 1);
    assert_eq!(prog.statements[0].literal(), "Let(b, 3)");
}

// An empty source yields an empty program.
#[test]
fn test_empty_input() {
    let mut lexer = Lexer::new("");
    assert_eq!(lexer.read_all(), vec![Token::EOF]);
    let mut parser = Parser::new(Lexer::new(""));
    let prog = parser.parse();
    assert_eq!(prog.statements.len(), 0);
    assert_eq!(prog.literal(), "Program {}");
}

// An integer literal too large for a 64-bit signed integer fails its
// statement rather than wrapping or panicking.
#[test]
fn test_int_literal_overflow() {
    let mut parser = Parser::new(Lexer::new("9223372036854775807; 9223372036854775808;"));
    let prog = parser.parse();
    assert_eq!(prog.statements.len(), 1);
    assert_eq!(prog.statements[0].literal(), "9223372036854775807");
}

// A lexer stopped mid-identifier or mid-number still emits the partial token.
#[test]
fn test_partial_tokens_at_end() {
    let mut lexer = Lexer::new("ab");
    assert_eq!(lexer.read_all(), vec![Token::Ident(vec!['a', 'b']), Token::EOF]);
    let mut lexer = Lexer::new("12");
    assert_eq!(lexer.read_all(), vec![Token::Int(vec!['1', '2']), Token::EOF]);
    let mut lexer = Lexer::new("=");
    assert_eq!(lexer.read_all(), vec![Token::Assign, Token::EOF]);
    let mut lexer = Lexer::new("!");
    assert_eq!(lexer.read_all(), vec![Token::Bang, Token::EOF]);
    let mut lexer = Lexer::new("==!=");
    assert_eq!(lexer.read_all(), vec![Token::Eq, Token::NotEq, Token::EOF]);
}

// Keywords map to keyword tokens; everything else is an identifier.
#[test]
fn test_lookup_ident() {
    assert_eq!(lookup_ident("func"), Token::Func);
    assert_eq!(lookup_ident("let"), Token::Let);
    assert_eq!(lookup_ident("true"), Token::True);
    assert_eq!(lookup_ident("false"), Token::False);
    assert_eq!(lookup_ident("if"), Token::If);
    assert_eq!(lookup_ident("else"), Token::Else);
    assert_eq!(lookup_ident("return"), Token::Return);
    assert_eq!(lookup_ident("funcs"), Token::Ident(vec!['f', 'u', 'n', 'c', 's']));
}

// Grouping parentheses affect only parsing order: no extra node appears.
#[test]
fn test_grouping() {
    let mut parser = Parser::new(Lexer::new("(1 + 2) * 3;"));
    let prog = parser.parse();
    assert_eq!(prog.statements.len(), 1);
    assert_eq!(prog.statements[0].literal(), "((1 + 2) * 3)");
}

// A conditional without an else-arm carries none.
#[test]
fn test_if_without_else_shape() {
    let mut parser = Parser::new(Lexer::new("if (1+2>3) { let a=1; };"));
    let prog = parser.parse();
    assert_eq!(prog.statements.len(), 1);
    match &prog.statements[0] {
        Statement::IfExpression(c) => {
            assert!(c.else_.is_none());
            match &*c.then_branch {
                Statement::BlockStatement(ss) => assert_eq!(ss.len(), 1),
                other => panic!("then arm is not a block: {:?}", other),
            }
        },
        other => panic!("not a conditional: {:?}", other),
    }
    assert_eq!(prog.statements[0].literal(), "If(((1 + 2) > 3), { Let(a, 1); })");
}

// A call's arguments keep their order; a function literal's parameters too.
#[test]
fn test_call_and_function_shape() {
    let mut parser = Parser::new(Lexer::new("add(1, 2+3, 4*5);"));
    let prog = parser.parse();
    match &prog.statements[0] {
        Statement::Expression(Expr::Call(f, args)) => {
            assert_eq!(f.literal(), "add");
            assert_eq!(args.len(), 3);
            assert_eq!(args[0].literal(), "1");
            assert_eq!(args[1].literal(), "(2 + 3)");
            assert_eq!(args[2].literal(), "(4 * 5)");
        },
        other => panic!("not a call statement: {:?}", other),
    }

    let mut parser = Parser::new(Lexer::new("let f = func(x,y){x+y;};"));
    let prog = parser.parse();
    match &prog.statements[0] {
        Statement::Let(l) => match &l.expr {
            Expr::Function(params, _) => {
                assert_eq!(params.len(), 2);
                assert_eq!(params[0].name, "x");
                assert_eq!(params[1].name, "y");
            },
            other => panic!("not a function literal: {:?}", other),
        },
        other => panic!("not a let statement: {:?}", other),
    }
}

// Negative integers render with their sign through the prefix operator.
#[test]
fn test_prefix_render() {
    let mut parser = Parser::new(Lexer::new("-15;"));
    let prog = parser.parse();
    assert_eq!(prog.statements[0].literal(), "(-15)");
    let mut parser = Parser::new(Lexer::new("!-a;"));
    let prog = parser.parse();
    assert_eq!(prog.statements[0].literal(), "(!(-a))");
}

// Every character with the White_Space property is skipped between tokens,
// as the host runtime's whitespace notion directs.
#[test]
fn test_unicode_whitespace_skipped() {
    let mut lexer = Lexer::new("let\u{A0}a\u{0C}=\u{2003}5\u{85};\u{3000}");
    assert_eq!(
        lexer.read_all(),
        vec![
            Token::Let,
            Token::Ident(vec!['a']),
            Token::Assign,
            Token::Int(vec!['5']),
            Token::Semicolon,
            Token::EOF,
        ]
    );
}
