use cppparse::context::{Context, ScopeKind};
use cppparse::errors::{InternalError, ParserError};
use cppparse::inline_asm::{Asm, AsmParser};
use cppparse::array::ArrayParser;
use cppparse::lexer::Lexer;
use cppparse::names::Qualified;
use cppparse::statements::{CompoundStmtParser, DeclOrExpr, ReturnStmtParser, Statement, StatementParser, WhileStmtParser};
use cppparse::token::Token;
use cppparse::using::{Declaration, Name, UsingDecl, UsingEnum, UsingNS, UsingParser};

fn mk_id(parts: &[&str]) -> Qualified {
    Qualified { names: parts.iter().map(|p| p.as_bytes().to_vec()).collect() }
}

fn ident(s: &str) -> Token {
    Token::Identifier(s.as_bytes().to_vec())
}

fn parse_using(src: &str) -> (Option<Token>, Option<Declaration>) {
    let mut l = Lexer::new(src.as_bytes());
    let p = UsingParser::new();
    let mut context = Context::new();
    p.parse(None, &mut l, &mut context).unwrap()
}

#[test]
fn test_asm() {
    let mut l = Lexer::new(
        r#"
(R"(
.globl func
    .type func, @function
    func:
    .cfi_startproc
    movl $7, %eax
    ret
    .cfi_endproc
)")
"#
        .as_bytes(),
    );
    let p = AsmParser::new();
    let (_, u) = p.parse(None, &mut l).unwrap();

    let code = r#"
.globl func
    .type func, @function
    func:
    .cfi_startproc
    movl $7, %eax
    ret
    .cfi_endproc
"#;

    assert_eq!(u.unwrap(), Asm { attributes: None, code: code.as_bytes().to_vec() });
}

#[test]
fn test_using_one() {
    let (_, u) = parse_using("using A::B");
    assert_eq!(
        u.unwrap(),
        Declaration::UsingDecl(UsingDecl {
            names: vec![Name { name: mk_id(&["A", "B"]), typename: false }],
            ellipsis: false,
        })
    );
}

#[test]
fn test_using_typename_one() {
    let (_, u) = parse_using("using typename A::B");
    assert_eq!(
        u.unwrap(),
        Declaration::UsingDecl(UsingDecl {
            names: vec![Name { name: mk_id(&["A", "B"]), typename: true }],
            ellipsis: false,
        })
    );
}

#[test]
fn test_using_several() {
    let (_, u) = parse_using("using A::B, typename C, D::E");
    assert_eq!(
        u.unwrap(),
        Declaration::UsingDecl(UsingDecl {
            names: vec![
                Name { name: mk_id(&["A", "B"]), typename: false },
                Name { name: mk_id(&["C"]), typename: true },
                Name { name: mk_id(&["D", "E"]), typename: false },
            ],
            ellipsis: false,
        })
    );
}

#[test]
fn test_using_ellipsis() {
    let (_, u) = parse_using("using A::B...");
    assert_eq!(
        u.unwrap(),
        Declaration::UsingDecl(UsingDecl {
            names: vec![Name { name: mk_id(&["A", "B"]), typename: false }],
            ellipsis: true,
        })
    );
}

#[test]
fn test_using_enum() {
    let (_, u) = parse_using("using enum A::B");
    assert_eq!(u.unwrap(), Declaration::UsingEnum(UsingEnum { name: mk_id(&["A", "B"]) }));
}

#[test]
fn test_using_namespace() {
    let (_, u) = parse_using("using namespace A::B");
    assert_eq!(
        u.unwrap(),
        Declaration::UsingNS(UsingNS { name: mk_id(&["A", "B"]), attributes: None })
    );
}

#[test]
fn using_list_hands_back_trailing_token() {
    let (t, u) = parse_using("using A, B;");
    assert_eq!(t, Some(Token::SemiColon));
    match u.unwrap() {
        Declaration::UsingDecl(d) => assert_eq!(d.names.len(), 2),
        other => panic!("unexpected {:?}", other),
    }
}

#[test]
fn using_ellipsis_ends_the_list() {
    let (t, u) = parse_using("using A..., B");
    assert_eq!(t, None);
    match u.unwrap() {
        Declaration::UsingDecl(d) => {
            assert_eq!(d.names.len(), 1);
            assert!(d.ellipsis);
        }
        other => panic!("unexpected {:?}", other),
    }
}

#[test]
fn using_not_a_using() {
    let (t, u) = parse_using("while");
    assert_eq!(t, Some(Token::While));
    assert!(u.is_none());
}

#[test]
fn using_alias_registers_name() {
    let mut l = Lexer::new(b"using T = A::B;");
    let mut context = Context::new();
    let (t, u) = UsingParser::new().parse(None, &mut l, &mut context).unwrap();
    assert_eq!(t, Some(Token::SemiColon));
    match u.unwrap() {
        Declaration::UsingAlias(a) => {
            assert_eq!(a.name, b"T".to_vec());
            assert_eq!(a.attributes, None);
            assert_eq!(a.typ.typ, mk_id(&["A", "B"]));
        }
        other => panic!("unexpected {:?}", other),
    }
    assert!(context.lookup(&b"T".to_vec()).is_some());
    assert!(context.lookup(&b"U".to_vec()).is_none());
}

#[test]
fn using_alias_with_attributes() {
    let mut l = Lexer::new(b"using T [[deprecated]] = int");
    let mut context = Context::new();
    let (_, u) = UsingParser::new().parse(None, &mut l, &mut context).unwrap();
    match u.unwrap() {
        Declaration::UsingAlias(a) => {
            assert_eq!(a.name, b"T".to_vec());
            assert_eq!(a.attributes.unwrap().toks, vec![ident("deprecated")]);
            assert_eq!(a.typ.typ, mk_id(&["int"]));
        }
        other => panic!("unexpected {:?}", other),
    }
    assert!(context.lookup(&b"T".to_vec()).is_some());
}

#[test]
fn using_errors() {
    let mut context = Context::new();
    let mut l = Lexer::new(b"using enum ;");
    assert_eq!(
        UsingParser::new().parse(None, &mut l, &mut context),
        Err(ParserError::InvalidTokenInUsingEnum { sp: 3, tok: Token::SemiColon })
    );
    let mut l = Lexer::new(b"using A, ;");
    assert_eq!(
        UsingParser::new().parse(None, &mut l, &mut context),
        Err(ParserError::InvalidTokenInUsing { sp: 4, tok: Token::SemiColon })
    );
    let mut l = Lexer::new(b"using T [[a]] int");
    assert_eq!(
        UsingParser::new().parse(None, &mut l, &mut context),
        Err(ParserError::InvalidTokenInAlias { sp: 6, tok: ident("int") })
    );
    let mut l = Lexer::new(b"using A, T = int");
    assert_eq!(
        UsingParser::new().parse(None, &mut l, &mut context),
        Err(ParserError::InvalidTokenInAlias { sp: 5, tok: Token::Equal })
    );
    let mut l = Lexer::new(b"using T [[a");
    assert_eq!(
        UsingParser::new().parse(None, &mut l, &mut context),
        Err(ParserError::UnterminatedAttributes)
    );
    assert!(context.lookup(&b"T".to_vec()).is_none());
}

#[test]
fn asm_joins_adjacent_literals_and_keeps_whitespace() {
    let mut l = Lexer::new(b"(\"  nop\\n\" \"ret  \")");
    let (t, a) = AsmParser::new().parse(None, &mut l).unwrap();
    assert_eq!(t, None);
    assert_eq!(a.unwrap().code, b"  nop\nret  ".to_vec());
}

#[test]
fn asm_errors() {
    let mut l = Lexer::new(b"\"x\")");
    assert_eq!(
        AsmParser::new().parse(None, &mut l),
        Err(InternalError::UnexpectedTokenInAsm { sp: 1, tok: Token::LiteralString(b"x".to_vec()) })
    );
    let mut l = Lexer::new(b"(x)");
    assert_eq!(AsmParser::new().parse(None, &mut l), Err(InternalError::UnexpectedTokenInAsm { sp: 2, tok: ident("x") }));
    let mut l = Lexer::new(b"(\"x\";");
    assert_eq!(AsmParser::new().parse(None, &mut l), Err(InternalError::UnexpectedTokenInAsm { sp: 3, tok: Token::SemiColon }));
}

#[test]
fn array_suffixes() {
    let mut l = Lexer::new(b"[N + 1] x");
    let (t, a) = ArrayParser::new().parse(None, &mut l);
    assert_eq!(t, Some(ident("x")));
    let a = a.unwrap();
    assert!(a.identifier.is_none());
    assert_eq!(a.size.unwrap().toks, vec![ident("N"), Token::Other(b'+'), Token::Number(b"1".to_vec())]);

    let mut l = Lexer::new(b"[]");
    let (t, a) = ArrayParser::new().parse(None, &mut l);
    assert_eq!(t, Some(Token::Eof));
    assert!(a.unwrap().size.is_none());

    let mut l = Lexer::new(b"x");
    let (t, a) = ArrayParser::new().parse(None, &mut l);
    assert_eq!(t, Some(ident("x")));
    assert!(a.is_none());
}

#[test]
fn return_with_and_without_value() {
    let mut l = Lexer::new(b"f(a, b);");
    let (t, r) = ReturnStmtParser::new().parse(None, &mut l);
    assert_eq!(t, None);
    assert_eq!(r.unwrap().val.unwrap().toks.len(), 6);
    let mut l = Lexer::new(b";");
    let (_, r) = ReturnStmtParser::new().parse(None, &mut l);
    assert!(r.unwrap().val.is_none());
}

fn compound(src: &str) -> Vec<Statement> {
    let mut l = Lexer::new(src.as_bytes());
    let mut context = Context::new();
    let (t, c) = CompoundStmtParser::new().parse(None, &mut l, &mut context).unwrap();
    assert_eq!(t, None);
    assert!(context.scopes_len() == 0);
    c.unwrap().stmts
}

#[test]
fn compound_zero_one_many() {
    assert_eq!(compound("}").len(), 0);
    assert_eq!(compound("a; }").len(), 1);
    let s = compound("a; return b; while (c) d; { e; } }");
    assert_eq!(s.len(), 4);
    assert!(matches!(s[0], Statement::Expr(_)));
    assert!(matches!(s[1], Statement::Return(_)));
    assert!(matches!(s[2], Statement::While(_)));
    assert!(matches!(s[3], Statement::Compound(_)));
}

#[test]
fn compound_unterminated_keeps_statements() {
    let s = compound("a; b;");
    assert_eq!(s.len(), 2);
    assert_eq!(s[1], Statement::Expr(cppparse::expr::ExprNode { toks: vec![ident("b")] }));
}

#[test]
fn while_declaration_condition() {
    let mut l = Lexer::new(b"(int x = f()) { x; }");
    let mut context = Context::new();
    let (_, w) = WhileStmtParser::new().parse(None, &mut l, &mut context).unwrap();
    let w = w.unwrap();
    match &w.condition {
        DeclOrExpr::Decl(d) => {
            assert_eq!(d.typ, mk_id(&["int"]));
            assert_eq!(d.identifier, Some(b"x".to_vec()));
        }
        other => panic!("unexpected {:?}", other),
    }
    assert_eq!(context.scopes_len(), 0);
    assert!(context.lookup(&b"x".to_vec()).is_none());
}

#[test]
fn while_header_makes_name_visible() {
    let mut l = Lexer::new(b"(int x = 1) x;");
    let mut context = Context::new();
    let p = WhileStmtParser::new();
    let c = p.parse_header(&mut l, &mut context).unwrap();
    assert!(matches!(c, DeclOrExpr::Decl(_)));
    assert!(context.lookup(&b"x".to_vec()).is_some());
    assert_eq!(context.scopes_len(), 1);
}

#[test]
fn while_errors_close_the_scope() {
    let mut context = Context::new();
    context.set_current(ScopeKind::Block);
    let mut l = Lexer::new(b"x) y;");
    assert_eq!(
        WhileStmtParser::new().parse(None, &mut l, &mut context),
        Err(ParserError::InvalidTokenInWhile { sp: 1, tok: ident("x") })
    );
    assert_eq!(context.scopes_len(), 1);
    let mut l = Lexer::new(b"(int x; y;");
    assert_eq!(
        WhileStmtParser::new().parse(None, &mut l, &mut context),
        Err(ParserError::InvalidTokenInWhile { sp: 4, tok: Token::SemiColon })
    );
    assert_eq!(context.scopes_len(), 1);
    assert!(context.lookup(&b"x".to_vec()).is_none());
}

#[test]
fn statement_dispatch() {
    let mut l = Lexer::new(b"} x");
    let mut context = Context::new();
    let (t, s) = StatementParser::new().parse(None, &mut l, &mut context).unwrap();
    assert_eq!(t, Some(Token::RightBrace));
    assert!(s.is_none());
    let mut l = Lexer::new(b")");
    assert_eq!(
        StatementParser::new().parse(None, &mut l, &mut context),
        Err(ParserError::InvalidTokenInStatement { sp: 1, tok: Token::RightParen })
    );
}

#[test]
fn lexer_tokens() {
    let mut l = Lexer::new(b"using A::B... [[x]] = // note\n /* c */ ;");
    let want = vec![
        Token::Using,
        ident("A"),
        Token::ColonColon,
        ident("B"),
        Token::Ellipsis,
        Token::DoubleLeftBrack,
        ident("x"),
        Token::DoubleRightBrack,
        Token::Equal,
        Token::SemiColon,
        Token::Eof,
        Token::Eof,
    ];
    for w in want {
        assert_eq!(l.next_useful(), w);
    }
}

#[test]
fn alias_lookup_gives_the_registered_declarator() {
    let mut l = Lexer::new(b"using T = A::B;");
    let mut context = Context::new();
    let (_, u) = UsingParser::new().parse(None, &mut l, &mut context).unwrap();
    match u.unwrap() {
        Declaration::UsingAlias(a) => {
            let found = context.lookup(&b"T".to_vec()).unwrap();
            assert!(std::rc::Rc::ptr_eq(&found, &a.typ));
        }
        other => panic!("unexpected {:?}", other),
    }
}

#[test]
fn while_missing_close_paren() {
    let mut context = Context::new();
    let mut l = Lexer::new(b"(a ; b;");
    assert_eq!(
        WhileStmtParser::new().parse(None, &mut l, &mut context),
        Err(ParserError::InvalidTokenInWhile { sp: 3, tok: Token::SemiColon })
    );
    let mut l = Lexer::new(b"() b;");
    assert_eq!(
        WhileStmtParser::new().parse(None, &mut l, &mut context),
        Err(ParserError::InvalidTokenInWhile { sp: 2, tok: Token::RightParen })
    );
    assert_eq!(context.scopes_len(), 0);
}

#[test]
fn while_expression_condition_succeeds() {
    let mut context = Context::new();
    let mut l = Lexer::new(b"(a) ;");
    let (t, w) = WhileStmtParser::new().parse(None, &mut l, &mut context).unwrap();
    assert_eq!(t, None);
    let w = w.unwrap();
    assert_eq!(w.condition, DeclOrExpr::Expr(cppparse::expr::ExprNode { toks: vec![ident("a")] }));
    assert_eq!(w.body, Statement::Empty);
}

#[test]
fn while_body_block_and_missing_body() {
    let mut context = Context::new();
    let mut l = Lexer::new(b"(a) { b; ; c }");
    let (_, w) = WhileStmtParser::new().parse(None, &mut l, &mut context).unwrap();
    match w.unwrap().body {
        Statement::Compound(c) => {
            assert_eq!(c.stmts.len(), 3);
            assert_eq!(c.stmts[1], Statement::Empty);
        }
        other => panic!("unexpected {:?}", other),
    }
    let mut l = Lexer::new(b"(a) }");
    assert_eq!(
        WhileStmtParser::new().parse(None, &mut l, &mut context),
        Err(ParserError::InvalidTokenInWhile { sp: 4, tok: Token::RightBrace })
    );
    assert_eq!(context.scopes_len(), 0);
}

#[test]
fn block_with_return_and_while_in_order() {
    let s = compound("1; return; while (x) return y; }");
    assert_eq!(s.len(), 3);
    assert!(matches!(s[0], Statement::Expr(_)));
    assert!(matches!(s[1], Statement::Return(_)));
    match &s[2] {
        Statement::While(w) => assert!(matches!(w.body, Statement::Return(_))),
        other => panic!("unexpected {:?}", other),
    }
}

#[test]
fn block_unterminated_after_return_keeps_it() {
    let s = compound("a; return x");
    assert_eq!(s.len(), 2);
    assert!(matches!(s[1], Statement::Return(_)));
}

#[test]
fn block_nested_error_propagates() {
    let mut context = Context::new();
    let mut l = Lexer::new(b"a; { ) }");
    assert_eq!(
        CompoundStmtParser::new().parse(None, &mut l, &mut context),
        Err(ParserError::InvalidTokenInStatement { sp: 4, tok: Token::RightParen })
    );
    assert_eq!(context.scopes_len(), 0);
}

#[test]
fn while_return_body_keeps_lookahead() {
    let mut context = Context::new();
    let mut l = Lexer::new(b"(x) return y ) z");
    let (t, w) = WhileStmtParser::new().parse(None, &mut l, &mut context).unwrap();
    assert_eq!(t, Some(Token::RightParen));
    assert!(matches!(w.unwrap().body, Statement::Return(_)));
}

#[test]
fn using_qualified_alias_name_is_rejected() {
    let mut context = Context::new();
    let mut l = Lexer::new(b"using A::B = int;");
    assert_eq!(
        UsingParser::new().parse(None, &mut l, &mut context),
        Err(ParserError::InvalidTokenInAlias { sp: 5, tok: Token::Equal })
    );
    assert!(context.lookup(&b"A".to_vec()).is_none());
}
