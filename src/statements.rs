use vstd::prelude::*;
use std::rc::Rc;
use crate::context::{Context, ScopeKind};
use crate::errors::ParserError;
use crate::expr::{Attributes, ExprNode, parse_expression, expr_end, lemma_expr_end_bounds};
use crate::lexer::Lexer;
use crate::token::{
    Token, tok_at, after, stream, pending_ok, resumes_at, lemma_resumes_stream,
    lemma_stream_no_eof, lemma_after_step, lemma_after_after, no_eof,
};
use crate::names::qual_ok;
use crate::types::{decl_has_ident, decl_name_at, TypeDeclarator, TypeDeclaratorParser, decl_matches, decl_resumes, decl_end, lemma_decl_end};

verus! {

/// A statement.
#[derive(Debug, PartialEq)]
pub enum Statement {
    Compound(Box<Compound>),
    Return(Box<Return>),
    While(Box<While>),
    Expr(ExprNode),
    Empty,
}

/// `{ ... }`: the statements of a block, in order.
#[derive(Debug, PartialEq)]
pub struct Compound {
    pub attributes: Option<Attributes>,
    pub stmts: Vec<Statement>,
}

/// `return` with its value, if any.
#[derive(Debug, PartialEq)]
pub struct Return {
    pub attributes: Option<Attributes>,
    pub val: Option<ExprNode>,
}

/// The condition of a loop or branch header: a declaration or an expression.
#[derive(Debug, PartialEq)]
pub enum DeclOrExpr {
    Decl(Rc<TypeDeclarator>),
    Expr(ExprNode),
}

/// `while (condition) body`.
#[derive(Debug, PartialEq)]
pub struct While {
    pub attributes: Option<Attributes>,
    pub condition: DeclOrExpr,
    pub body: Statement,
}

/// Type names known without any declaration.
pub open spec fn builtin_type(n: Seq<u8>) -> bool {
    n == seq![105u8, 110u8, 116u8] || n == seq![99u8, 104u8, 97u8, 114u8] || n == seq![98u8, 111u8, 111u8, 108u8]
        || n == seq![97u8, 117u8, 116u8, 111u8] || n == seq![108u8, 111u8, 110u8, 103u8]
}

/// A header that starts with `t` reads as a declaration when the names `ns` are visible.
pub open spec fn starts_decl(t: Token, ns: Seq<Seq<u8>>) -> bool {
    t is Identifier && (builtin_type(t->Identifier_0@) || ns.contains(t->Identifier_0@))
}

fn is_builtin_type(n: &Vec<u8>) -> (r: bool)
    ensures
        r == builtin_type(n@),
{
    let l = n.len();
    if l == 3 {
        let r = n[0] == 105u8 && n[1] == 110u8 && n[2] == 116u8;
        proof {
            if r {
                assert(n@ =~= seq![105u8, 110u8, 116u8]);
            }
        }
        r
    } else if l == 4 {
        let r = (n[0] == 99u8 && n[1] == 104u8 && n[2] == 97u8 && n[3] == 114u8)
            || (n[0] == 98u8 && n[1] == 111u8 && n[2] == 111u8 && n[3] == 108u8)
            || (n[0] == 97u8 && n[1] == 117u8 && n[2] == 116u8 && n[3] == 111u8)
            || (n[0] == 108u8 && n[1] == 111u8 && n[2] == 110u8 && n[3] == 103u8);
        proof {
            if n[0] == 99u8 && n[1] == 104u8 && n[2] == 97u8 && n[3] == 114u8 {
                assert(n@ =~= seq![99u8, 104u8, 97u8, 114u8]);
            }
            if n[0] == 98u8 && n[1] == 111u8 && n[2] == 111u8 && n[3] == 108u8 {
                assert(n@ =~= seq![98u8, 111u8, 111u8, 108u8]);
            }
            if n[0] == 97u8 && n[1] == 117u8 && n[2] == 116u8 && n[3] == 111u8 {
                assert(n@ =~= seq![97u8, 117u8, 116u8, 111u8]);
            }
            if n[0] == 108u8 && n[1] == 111u8 && n[2] == 110u8 && n[3] == 103u8 {
                assert(n@ =~= seq![108u8, 111u8, 110u8, 103u8]);
            }
        }
        r
    } else {
        false
    }
}

pub struct DeclOrExprParser {}

impl DeclOrExprParser {
    pub fn new() -> Self {
        DeclOrExprParser {  }
    }

    /// Reads a header condition. A leading type name commits to a declaration, whose declared
    /// name is registered in the innermost scope; anything else is read as an expression.
    pub fn parse(self, tok: Option<Token>, lexer: &mut Lexer, context: &mut Context) -> (r: (Option<Token>, Option<DeclOrExpr>))
        requires
            old(lexer).wf(),
            old(context).wf(),
            pending_ok(tok, old(lexer)@),
        ensures
            final(lexer).wf(),
            final(context).wf(),
            pending_ok(r.0, final(lexer)@),
            Context::extends_current(*old(context), *final(context)),
            ({
                let s = stream(tok, old(lexer)@);
                &&& starts_decl(tok_at(s, 0), old(context).visible()) ==> decl_resumes(r.0, final(lexer)@, s)
                &&& starts_decl(tok_at(s, 0), old(context).visible()) && !qual_ok(s, 0) ==> r.1 is None && final(context).names() == old(context).names()
                &&& starts_decl(tok_at(s, 0), old(context).visible()) && qual_ok(s, 0) ==> (r.1 matches Some(DeclOrExpr::Decl(d))
                    && decl_matches(*d, s) && decl_resumes(r.0, final(lexer)@, s)
                    && (d.identifier matches Some(n) ==> final(context).names() == old(context).names().push((n@, old(context).scopes().len() as int)))
                    && (d.identifier is None ==> final(context).names() == old(context).names()))
                &&& !starts_decl(tok_at(s, 0), old(context).visible()) ==> (final(context).names() == old(context).names()
                    && resumes_at(r.0, final(lexer)@, s, expr_end(s, 0, 0))
                    && (r.1 is Some <==> expr_end(s, 0, 0) > 0)
                    && (r.1 matches Some(c) ==> (c matches DeclOrExpr::Expr(x) && expr_end(s, 0, 0) <= s.len() && x.toks@ == s.subrange(0, expr_end(s, 0, 0)))))
            }),
    {
        let ghost s = stream(tok, lexer@);
        proof {
            lemma_stream_no_eof(tok, lexer@);
            lemma_after_step(s, 0);
        }
        let t = match tok {
            Some(t) => t,
            None => lexer.next_useful(),
        };
        proof { Context::lemma_visible(*context); }
        let is_decl = match &t {
            Token::Identifier(n) => is_builtin_type(n) || context.lookup(n).is_some(),
            _ => false,
        };
        proof {
            assert(pending_ok(Some(t), lexer@));
            assert(stream(Some(t), lexer@) =~= s);
        }
        if is_decl {
            let tdp = TypeDeclaratorParser::new();
            let (t, d) = tdp.parse(Some(t), lexer);
            let d = match d {
                Some(d) => Rc::new(d),
                None => {
                    proof { Context::lemma_extends_refl(*context); }
                    return (t, None);
                },
            };
            let ghost before = *context;
            context.add_type_decl(d.clone());
            assert(context.names().take(before.names().len() as int) =~= before.names());
            (t, Some(DeclOrExpr::Decl(d)))
        } else {
            proof { lemma_expr_end_bounds(s, 0, 0); }
            let (t, e) = parse_expression(Some(t), lexer);
            proof { Context::lemma_extends_refl(*context); }
            match e {
                Some(e) => (t, Some(DeclOrExpr::Expr(e))),
                None => (t, None),
            }
        }
    }
}

/// Closing a scope opened over `before`, in which names were only registered at its own
/// depth, gives back exactly the names of `before`.
proof fn lemma_pop_restores(before: Context, mid: Context, fin: Context, k: ScopeKind)
    requires
        before.wf(),
        mid.scopes() == before.scopes().push(k),
        before.names().len() <= mid.names().len(),
        mid.names().take(before.names().len() as int) == before.names(),
        forall|i: int| before.names().len() <= i < mid.names().len()
            ==> mid.names()[i].1 == before.scopes().len() + 1,
        fin.scopes() == mid.scopes().drop_last(),
        ({
            let n = fin.names().len() as int;
            &&& n <= mid.names().len()
            &&& fin.names() == mid.names().take(n)
            &&& forall|i: int| n <= i < mid.names().len() ==> mid.names()[i].1 == mid.scopes().len()
            &&& forall|i: int| 0 <= i < n ==> mid.names()[i].1 < mid.scopes().len()
        }),
    ensures
        fin.scopes() == before.scopes(),
        fin.names() == before.names(),
{
    let n = fin.names().len() as int;
    let b = before.names().len() as int;
    assert(fin.scopes() =~= before.scopes());
    if n > b {
        assert(mid.names()[b].1 == before.scopes().len() + 1);
        assert(mid.names()[b].1 < mid.scopes().len());
    }
    if n < b {
        assert(mid.names()[n] == before.names()[n]);
        assert(before.names()[n].1 <= before.scopes().len());
    }
    assert(fin.names() =~= before.names());
}

/// The name a header condition declares, if any.
pub open spec fn declared_name(c: DeclOrExpr) -> Option<Seq<u8>> {
    match c {
        DeclOrExpr::Decl(d) => match d.identifier {
            Some(n) => Some(n@),
            None => None,
        },
        DeclOrExpr::Expr(_) => None,
    }
}

proof fn lemma_declared_name(c1: Context, mid: Context, c: DeclOrExpr)
    requires
        declared_name(c) matches Some(n) ==> mid.names() == c1.names().push((n, c1.scopes().len() as int)),
    ensures
        declared_name(c) matches Some(n) ==> mid.declares(n),
{
    if let Some(n) = declared_name(c) {
        assert(mid.names()[c1.names().len() as int].0 == n);
    }
}

/// `c` is the condition read from `s` under the visible names `ns`: a declaration exactly when `s` starts
/// with a type name, with its parts as written; otherwise the expression as written.
pub open spec fn condition_matches(c: DeclOrExpr, s: Seq<Token>, ns: Seq<Seq<u8>>) -> bool {
    &&& starts_decl(tok_at(s, 0), ns) <==> c is Decl
    &&& c matches DeclOrExpr::Decl(d) ==> decl_matches(*d, s)
    &&& c matches DeclOrExpr::Expr(x) ==> expr_end(s, 0, 0) <= s.len() && x.toks@ == s.subrange(0, expr_end(s, 0, 0))
}

/// Position, in the header tokens `h`, of the token that follows the condition.
pub open spec fn cond_end(h: Seq<Token>, ns: Seq<Seq<u8>>) -> int {
    if starts_decl(tok_at(h, 0), ns) {
        decl_end(h)
    } else {
        expr_end(h, 0, 0)
    }
}

/// A condition stands at the start of the header tokens `h`.
pub open spec fn cond_present(h: Seq<Token>, ns: Seq<Seq<u8>>) -> bool {
    if starts_decl(tok_at(h, 0), ns) {
        qual_ok(h, 0)
    } else {
        expr_end(h, 0, 0) > 0
    }
}

/// The token that makes the header `(condition)` at the start of `s` fail, if any.
pub open spec fn header_fault(s: Seq<Token>, ns: Seq<Seq<u8>>) -> Option<Token> {
    let h = after(s, 1);
    if !(tok_at(s, 0) is LeftParen) {
        Some(tok_at(s, 0))
    } else if !cond_present(h, ns) || !(tok_at(h, cond_end(h, ns)) is RightParen) {
        Some(tok_at(h, cond_end(h, ns)))
    } else {
        None
    }
}

/// A token that starts a statement of its own kind, or ends a block.
pub open spec fn is_stmt_head(t: Token) -> bool {
    t is LeftBrace || t is Return || t is While || t is SemiColon || ends_block(t)
}

/// `ret` is the `return` statement read from `s`, the tokens after the keyword.
pub open spec fn return_matches(ret: Return, s: Seq<Token>) -> bool {
    let e = expr_end(s, 0, 0);
    &&& ret.attributes is None
    &&& (ret.val is Some <==> e > 0)
    &&& (ret.val matches Some(x) ==> e <= s.len() && x.toks@ == s.subrange(0, e))
}

/// The tokens of the body of the `while` whose header starts `s`.
pub open spec fn while_body(s: Seq<Token>, ns: Seq<Seq<u8>>) -> Seq<Token> {
    let h = after(s, 1);
    after(h, cond_end(h, ns) + 1)
}

/// The visible names once the header condition at the start of `h` has been read.
pub open spec fn cond_names(h: Seq<Token>, ns: Seq<Seq<u8>>) -> Seq<Seq<u8>> {
    if starts_decl(tok_at(h, 0), ns) && qual_ok(h, 0) && decl_has_ident(h) {
        ns.push(tok_at(h, decl_name_at(h))->Identifier_0@)
    } else {
        ns
    }
}

/// How many tokens a `return` statement takes after its keyword, `;` included.
pub open spec fn return_len(a: Seq<Token>) -> int {
    if tok_at(a, expr_end(a, 0, 0)) is SemiColon {
        expr_end(a, 0, 0) + 1
    } else {
        expr_end(a, 0, 0)
    }
}

/// `e` is the error of kind `k` (0: no statement can start; 1: a malformed `while`) at `t`.
pub open spec fn fault_is(e: ParserError, k: int, t: Token) -> bool {
    if k == 0 {
        e matches ParserError::InvalidTokenInStatement { tok, .. } && tok == t
    } else {
        e matches ParserError::InvalidTokenInWhile { tok, .. } && tok == t
    }
}

/// Reading the statement at the start of `s` with the names `ns` visible: whether it is read
/// without error, how many tokens it takes, and otherwise the kind and token of its error.
/// At `}` or the end of input there is no statement.
pub open spec fn stmt_read(s: Seq<Token>, ns: Seq<Seq<u8>>) -> (bool, int, int, Token)
    decreases s.len(), 0nat,
{
    let t0 = tok_at(s, 0);
    if ends_block(t0) {
        (true, 0, 0, t0)
    } else if t0 is SemiColon {
        (true, 1, 0, t0)
    } else if t0 is Return {
        (true, 1 + return_len(after(s, 1)), 0, t0)
    } else if t0 is LeftBrace && s.len() > 0 {
        let b = block_read(after(s, 1), ns);
        (b.0, 1 + b.1, b.2, b.3)
    } else if t0 is While && s.len() > 0 {
        let w = while_read(after(s, 1), ns);
        (w.0, 1 + w.1, w.2, w.3)
    } else if expr_end(s, 0, 0) == 0 || is_stmt_head(t0) {
        (false, 0, 0, t0)
    } else if tok_at(s, expr_end(s, 0, 0)) is SemiColon {
        (true, expr_end(s, 0, 0) + 1, 0, t0)
    } else {
        (true, expr_end(s, 0, 0), 0, t0)
    }
}

/// Reading what follows `while` at the start of `w`: header, then body.
pub open spec fn while_read(w: Seq<Token>, ns: Seq<Seq<u8>>) -> (bool, int, int, Token)
    decreases w.len(), 1nat,
{
    let b = while_body(w, ns);
    match header_fault(w, ns) {
        Some(t) => (false, 0, 1, t),
        None => if ends_block(tok_at(b, 0)) {
            (false, 0, 1, tok_at(b, 0))
        } else if b.len() < w.len() {
            let r = stmt_read(b, cond_names(after(w, 1), ns));
            (r.0, (w.len() - b.len()) + r.1, r.2, r.3)
        } else {
            (false, 0, 1, tok_at(b, 0))
        },
    }
}

/// Reading the statements of a block body at the start of `s`, up to and with its `}`
/// (the end of input ends it too).
pub open spec fn block_read(s: Seq<Token>, ns: Seq<Seq<u8>>) -> (bool, int, int, Token)
    decreases s.len(), 1nat,
{
    let t0 = tok_at(s, 0);
    if ends_block(t0) {
        (true, if t0 is RightBrace { 1int } else { 0int }, 0, t0)
    } else {
        let r = stmt_read(s, ns);
        if !r.0 {
            r
        } else if r.1 > 0 {
            let b = block_read(after(s, r.1), ns);
            (b.0, r.1 + b.1, b.2, b.3)
        } else {
            (false, 0, 0, t0)
        }
    }
}

/// `st` is the statement read at the start of `s`.
pub open spec fn stmt_matches(st: Statement, s: Seq<Token>, ns: Seq<Seq<u8>>) -> bool
    decreases s.len(), 0nat,
{
    let t0 = tok_at(s, 0);
    if t0 is SemiColon {
        st is Empty
    } else if t0 is Return {
        st matches Statement::Return(r) && return_matches(*r, after(s, 1))
    } else if t0 is LeftBrace {
        s.len() > 0 && (st matches Statement::Compound(c) && c.attributes is None
            && block_matches(c.stmts@, after(s, 1), ns))
    } else if t0 is While {
        s.len() > 0 && (st matches Statement::While(w) && while_matches(*w, after(s, 1), ns, None))
    } else {
        st matches Statement::Expr(x) && expr_end(s, 0, 0) <= s.len() && x.toks@ == s.subrange(0, expr_end(s, 0, 0))
    }
}

/// `w` is the loop read from `ws`, what follows `while`, with the given attributes.
pub open spec fn while_matches(w: While, ws: Seq<Token>, ns: Seq<Seq<u8>>, attributes: Option<Attributes>) -> bool
    decreases ws.len(), 1nat,
{
    let b = while_body(ws, ns);
    &&& w.attributes == attributes
    &&& condition_matches(w.condition, after(ws, 1), ns)
    &&& b.len() < ws.len()
    &&& stmt_matches(w.body, b, cond_names(after(ws, 1), ns))
}

/// `stmts` are, in order, the statements of the block body at the start of `s`.
pub open spec fn block_matches(stmts: Seq<Statement>, s: Seq<Token>, ns: Seq<Seq<u8>>) -> bool
    decreases s.len(), 1nat,
{
    if ends_block(tok_at(s, 0)) {
        stmts.len() == 0
    } else {
        let n = stmt_read(s, ns).1;
        &&& n > 0
        &&& stmts.len() > 0
        &&& stmt_matches(stmts[0], s, ns)
        &&& block_matches(stmts.drop_first(), after(s, n), ns)
    }
}

/// A statement, a loop tail and a block body never take a negative number of tokens.
proof fn lemma_read_len(s: Seq<Token>, ns: Seq<Seq<u8>>)
    ensures
        stmt_read(s, ns).1 >= 0,
    decreases s.len(), 0nat,
{
    let t0 = tok_at(s, 0);
    lemma_expr_end_bounds(s, 0, 0);
    if t0 is Return {
        lemma_expr_end_bounds(after(s, 1), 0, 0);
    } else if t0 is LeftBrace && s.len() > 0 {
        lemma_block_len(after(s, 1), ns);
    } else if t0 is While && s.len() > 0 {
        lemma_while_len(after(s, 1), ns);
    }
}

proof fn lemma_while_len(w: Seq<Token>, ns: Seq<Seq<u8>>)
    ensures
        while_read(w, ns).1 >= 0,
    decreases w.len(), 1nat,
{
    let b = while_body(w, ns);
    if header_fault(w, ns) is None && !ends_block(tok_at(b, 0)) && b.len() < w.len() {
        lemma_read_len(b, cond_names(after(w, 1), ns));
    }
}

proof fn lemma_block_len(s: Seq<Token>, ns: Seq<Seq<u8>>)
    ensures
        block_read(s, ns).1 >= 0,
    decreases s.len(), 1nat,
{
    if !ends_block(tok_at(s, 0)) {
        let r = stmt_read(s, ns);
        if r.0 && r.1 > 0 {
            lemma_block_len(after(s, r.1), ns);
        } else {
            lemma_read_len(s, ns);
        }
    }
}

/// The stream read by a parser, as a length.
pub open spec fn remaining(tok: Option<Token>, rest: Seq<Token>) -> nat {
    stream(tok, rest).len()
}

/// The first token of a statement's stream, `}` or end-of-input, ends a block instead.
pub open spec fn ends_block(t: Token) -> bool {
    t is RightBrace || t is Eof
}

pub struct StatementParser {}

impl StatementParser {
    pub fn new() -> Self {
        StatementParser {  }
    }

    /// Reads one statement. At `}` or end of input there is none, and the token is handed back.
    pub fn parse(self, tok: Option<Token>, lexer: &mut Lexer, context: &mut Context) -> (r: Result<(Option<Token>, Option<Statement>), ParserError>)
        requires
            old(lexer).wf(),
            old(context).wf(),
            pending_ok(tok, old(lexer)@),
        ensures
            final(lexer).wf(),
            final(context).wf(),
            final(context).scopes() == old(context).scopes(),
            final(context).names() == old(context).names(),
            ({
                let s = stream(tok, old(lexer)@);
                &&& ends_block(tok_at(s, 0)) ==> r == Ok::<_, ParserError>((Some(tok_at(s, 0)), None::<Statement>)) && final(lexer)@ == after(s, 1)
                &&& r matches Ok((p, st)) ==> (pending_ok(p, final(lexer)@) && remaining(p, final(lexer)@) <= s.len()
                    && (st is None ==> p is Some))
                &&& !ends_block(tok_at(s, 0)) ==> (r matches Ok((p, _)) ==> remaining(p, final(lexer)@) < s.len())
                &&& tok_at(s, 0) is SemiColon ==> r == Ok::<_, ParserError>((None::<Token>, Some(Statement::Empty)))
                &&& !ends_block(tok_at(s, 0)) && stmt_read(s, old(context).visible()).0 ==> (r matches Ok((p, Some(st)))
                    && stmt_matches(st, s, old(context).visible())
                    && stream(p, final(lexer)@) == after(s, stmt_read(s, old(context).visible()).1))
                &&& !ends_block(tok_at(s, 0)) && !stmt_read(s, old(context).visible()).0 ==> (r matches Err(e)
                    && fault_is(e, stmt_read(s, old(context).visible()).2, stmt_read(s, old(context).visible()).3))
                &&& tok_at(s, 0) is Return ==> (r matches Ok((_, Some(Statement::Return(ret)))) && return_matches(*ret, after(s, 1)))
                &&& !is_stmt_head(tok_at(s, 0)) && expr_end(s, 0, 0) > 0 ==> (r matches Ok((_, Some(Statement::Expr(x))))
                    && x.toks@ == s.subrange(0, expr_end(s, 0, 0)))
                &&& !is_stmt_head(tok_at(s, 0)) && expr_end(s, 0, 0) == 0 ==> (r matches Err(ParserError::InvalidTokenInStatement { tok, .. })
                    && tok == tok_at(s, 0))
                &&& tok_at(s, 0) is While && header_fault(after(s, 1), old(context).visible()) is Some ==> (r matches Err(ParserError::InvalidTokenInWhile { tok, .. })
                    && Some(tok) == header_fault(after(s, 1), old(context).visible()))
                &&& r matches Ok((_, Some(st))) ==> ((tok_at(s, 0) is LeftBrace <==> st is Compound)
                    && (tok_at(s, 0) is Return <==> st is Return) && (tok_at(s, 0) is While <==> st is While)
                    && (tok_at(s, 0) is SemiColon <==> st is Empty))
            }),
            r matches Err(e) ==> e.raised_at(final(lexer).position()),
        decreases remaining(tok, old(lexer)@), 0nat,
    {
        let ghost s = stream(tok, lexer@);
        proof {
            lemma_stream_no_eof(tok, lexer@);
            lemma_after_step(s, 0);
        }
        let t = match tok {
            Some(t) => t,
            None => lexer.next_useful(),
        };
        assert(lexer@ =~= after(s, 1));
        assert(t is Eof || lexer@.len() + 1 == s.len());
        proof { Context::lemma_extends_refl(*context); }
        match t {
            Token::RightBrace | Token::Eof => Ok((Some(t), None)),
            Token::LeftBrace => {
                proof {
                    lemma_block_len(after(s, 1), context.visible());
                    lemma_after_after(s, 1, block_read(after(s, 1), context.visible()).1);
                }
                let cp = CompoundStmtParser::new();
                match cp.parse(None, lexer, context) {
                    Ok((p, Some(c))) => Ok((p, Some(Statement::Compound(Box::new(c))))),
                    Ok((p, None)) => Ok((p, None)),
                    Err(e) => Err(e),
                }
            },
            Token::Return => {
                proof { lemma_expr_end_bounds(after(s, 1), 0, 0); }
                let rp = ReturnStmtParser::new();
                let (p, ret) = rp.parse(None, lexer);
                proof {
                    let a = after(s, 1);
                    let e = expr_end(a, 0, 0);
                    lemma_after_after(s, 1, e + 1);
                    lemma_after_after(s, 1, e);
                    if !(tok_at(a, e) is SemiColon) {
                        lemma_resumes_stream(p, lexer@, a, e);
                    }
                }
                match ret {
                    Some(ret) => Ok((p, Some(Statement::Return(Box::new(ret))))),
                    None => Ok((p, None)),
                }
            },
            Token::While => {
                proof {
                    lemma_while_len(after(s, 1), context.visible());
                    lemma_after_after(s, 1, while_read(after(s, 1), context.visible()).1);
                }
                let wp = WhileStmtParser::new();
                match wp.parse(None, lexer, context) {
                    Ok((p, Some(w))) => Ok((p, Some(Statement::While(Box::new(w))))),
                    Ok((p, None)) => Ok((p, None)),
                    Err(e) => Err(e),
                }
            },
            Token::SemiColon => Ok((None, Some(Statement::Empty))),
            other => {
                assert(stream(Some(other), lexer@) =~= s);
                proof { lemma_expr_end_bounds(s, 0, 0); }
                let (p, e) = parse_expression(Some(other), lexer);
                proof { lemma_resumes_stream(p, lexer@, s, expr_end(s, 0, 0)); }
                let e = match e {
                    Some(e) => e,
                    None => {
                        return match p {
                            Some(p) => Err(ParserError::InvalidTokenInStatement { sp: lexer.span(), tok: p }),
                            None => Err(ParserError::InvalidTokenInStatement { sp: lexer.span(), tok: Token::Eof }),
                        };
                    },
                };
                let p = p.unwrap();
                match p {
                    Token::SemiColon => Ok((None, Some(Statement::Expr(e)))),
                    other => Ok((Some(other), Some(Statement::Expr(e)))),
                }
            },
        }
    }
}

pub struct ReturnStmtParser {}

impl ReturnStmtParser {
    pub fn new() -> Self {
        ReturnStmtParser {  }
    }

    /// Reads what follows `return`: an optional value, then an optional `;`.
    pub fn parse(self, attributes: Option<Attributes>, lexer: &mut Lexer) -> (r: (Option<Token>, Option<Return>))
        requires
            old(lexer).wf(),
        ensures
            final(lexer).wf(),
            ({
                let s = old(lexer)@;
                let e = expr_end(s, 0, 0);
                &&& r.1 matches Some(ret)
                &&& r.1 matches Some(ret) ==> (ret.attributes == attributes && (ret.val is Some <==> e > 0)
                    && (ret.val matches Some(x) ==> x.toks@ == s.subrange(0, e)))
                &&& tok_at(s, e) is SemiColon ==> r.0 is None && final(lexer)@ == after(s, e + 1)
                &&& !(tok_at(s, e) is SemiColon) ==> resumes_at(r.0, final(lexer)@, s, e)
                &&& pending_ok(r.0, final(lexer)@)
                &&& remaining(r.0, final(lexer)@) <= s.len()
            }),
    {
        let ghost s = lexer@;
        proof { lemma_expr_end_bounds(s, 0, 0); }
        let (p, val) = parse_expression(None, lexer);
        proof { lemma_resumes_stream(p, lexer@, s, expr_end(s, 0, 0)); }
        let ret = Return { attributes, val };
        match p {
            Some(Token::SemiColon) => {
                assert(lexer@ =~= after(s, expr_end(s, 0, 0) + 1));
                (None, Some(ret))
            },
            other => (other, Some(ret)),
        }
    }
}

pub struct CompoundStmtParser {}

impl CompoundStmtParser {
    pub fn new() -> Self {
        CompoundStmtParser {  }
    }

    /// Reads the statements of a block up to its `}` (or the end of input), inside a block
    /// scope that is closed again on every outcome.
    pub fn parse(self, attributes: Option<Attributes>, lexer: &mut Lexer, context: &mut Context) -> (r: Result<(Option<Token>, Option<Compound>), ParserError>)
        requires
            old(lexer).wf(),
            old(context).wf(),
        ensures
            final(lexer).wf(),
            final(context).wf(),
            final(context).scopes() == old(context).scopes(),
            final(context).names() == old(context).names(),
            ends_block(tok_at(old(lexer)@, 0)) ==> r matches Ok((None, Some(c))),
            ends_block(tok_at(old(lexer)@, 0)) ==> (r matches Ok((_, Some(c))) ==> (c.stmts@.len() == 0
                && c.attributes == attributes && final(lexer)@ == after(old(lexer)@, 1))),
            r matches Ok((p, c)) ==> (p is None && c is Some && final(lexer)@.len() <= old(lexer)@.len()),
            r matches Ok((_, Some(c))) ==> c.attributes == attributes,
            ({
                let b = block_read(old(lexer)@, old(context).visible());
                &&& b.0 ==> (r matches Ok((None, Some(c))) && block_matches(c.stmts@, old(lexer)@, old(context).visible())
                    && final(lexer)@ == after(old(lexer)@, b.1))
                &&& !b.0 ==> (r matches Err(e) && fault_is(e, b.2, b.3))
            }),
            r matches Err(e) ==> e.raised_at(final(lexer).position()),
        decreases old(lexer)@.len(), 1nat,
    {
        let ghost c0 = *context;
        let mut stmts: Vec<Statement> = Vec::new();
        context.set_current(ScopeKind::Block);
        let ghost s = lexer@;
        proof { lemma_after_step(s, 0); }
        let mut t = lexer.next_useful();
        assert(stream(Some(t), lexer@) =~= s);
        let ghost ns = c0.visible();
        let ghost mut k: int = 0;
        proof { lemma_stream_no_eof(Some(t), lexer@); }
        assert forall|rest: Seq<Statement>| #[trigger] block_matches(rest, stream(Some(t), lexer@), ns)
            implies block_matches(stmts@ + rest, s, ns) by {
            assert(stmts@ + rest =~= rest);
        }
        loop
            invariant
                lexer.wf(),
                context.wf(),
                c0 == *old(context),
                c0.wf(),
                pending_ok(Some(t), lexer@),
                remaining(Some(t), lexer@) <= s.len(),
                s == old(lexer)@,
                context.scopes() == c0.scopes().push(ScopeKind::Block),
                context.names() == c0.names(),
                ends_block(tok_at(s, 0)) ==> t == tok_at(s, 0) && stmts@.len() == 0 && lexer@ == after(s, 1),
                ns == c0.visible(),
                0 <= k,
                stream(Some(t), lexer@) == after(s, k),
                no_eof(s),
                block_read(s, ns).0 == block_read(stream(Some(t), lexer@), ns).0,
                block_read(s, ns).1 == k + block_read(stream(Some(t), lexer@), ns).1,
                block_read(s, ns).2 == block_read(stream(Some(t), lexer@), ns).2,
                block_read(s, ns).3 == block_read(stream(Some(t), lexer@), ns).3,
                forall|rest: Seq<Statement>| #[trigger] block_matches(rest, stream(Some(t), lexer@), ns)
                    ==> block_matches(stmts@ + rest, s, ns),
            decreases remaining(Some(t), lexer@),
        {
            let ghost cur = stream(Some(t), lexer@);
            if matches!(t, Token::RightBrace | Token::Eof) {
                proof {
                    assert(ends_block(tok_at(cur, 0)));
                    assert(block_matches(Seq::<Statement>::empty(), cur, ns));
                    assert(stmts@ + Seq::<Statement>::empty() =~= stmts@);
                    lemma_after_after(s, k, 1);
                    if t is RightBrace {
                        assert(lexer@ =~= after(cur, 1));
                    } else {
                        assert(cur.len() == 0);
                        assert(lexer@ =~= after(s, k));
                    }
                }
                let ghost mid = *context;
                context.pop();
                proof {
                    assert(mid.names().take(c0.names().len() as int) =~= c0.names());
                    lemma_pop_restores(c0, mid, *context, ScopeKind::Block);
                }
                return Ok((None, Some(Compound { attributes, stmts })));
            }
            let sp = StatementParser::new();
            let (tk, stmt) = match sp.parse(Some(t), lexer, context) {
                Ok(x) => x,
                Err(e) => {
                    let ghost mid = *context;
                    context.pop();
                    proof {
                        assert(mid.names().take(c0.names().len() as int) =~= c0.names());
                        lemma_pop_restores(c0, mid, *context, ScopeKind::Block);
                    }
                    return Err(e);
                },
            };
            let ghost old_stmts = stmts@;
            let ghost st = stmt;
            match stmt {
                Some(stmt) => {
                    stmts.push(stmt);
                },
                None => {},
            }
            let ghost before = lexer@;
            t = match tk {
                Some(tk) => tk,
                None => lexer.next_useful(),
            };
            assert(stream(Some(t), lexer@) =~= stream(tk, before));
            proof {
                let nxt = stream(Some(t), lexer@);
                let rd = stmt_read(cur, ns);
                assert(!ends_block(tok_at(cur, 0)));
                assert(rd.0);
                assert(rd.1 > 0);
                let x = st->Some_0;
                assert(stmts@ == old_stmts.push(x));
                assert(nxt == after(cur, rd.1));
                lemma_after_after(s, k, rd.1);
                assert forall|rest: Seq<Statement>| #[trigger] block_matches(rest, nxt, ns)
                    implies block_matches(stmts@ + rest, s, ns) by {
                    let r0 = seq![x] + rest;
                    assert(r0[0] == x);
                    assert(r0.drop_first() =~= rest);
                    assert(block_matches(r0, cur, ns));
                    assert(old_stmts + r0 =~= stmts@ + rest);
                }
                k = k + rd.1;
            }
        }
    }
}

pub struct WhileStmtParser {}

impl WhileStmtParser {
    pub fn new() -> Self {
        WhileStmtParser {  }
    }

    /// Reads `(condition)` after `while`, opening the loop-header scope. A declared name is
    /// registered in that scope before this returns, so the body sees it. On an error the
    /// scope is closed again.
    pub fn parse_header(&self, lexer: &mut Lexer, context: &mut Context) -> (r: Result<DeclOrExpr, ParserError>)
        requires
            old(lexer).wf(),
            old(context).wf(),
        ensures
            final(lexer).wf(),
            final(context).wf(),
            !(tok_at(old(lexer)@, 0) is LeftParen) ==> (r matches Err(ParserError::InvalidTokenInWhile { tok: found, .. }) && found == tok_at(old(lexer)@, 0)),
            !(tok_at(old(lexer)@, 0) is LeftParen) ==> final(lexer)@ == after(old(lexer)@, 1),
            r is Err ==> final(context).scopes() == old(context).scopes() && final(context).names() == old(context).names(),
            r is Ok ==> {
                &&& final(context).scopes() == old(context).scopes().push(ScopeKind::WhileBlock)
                &&& old(context).names().len() <= final(context).names().len()
                &&& final(context).names().take(old(context).names().len() as int) == old(context).names()
                &&& forall|i: int| old(context).names().len() <= i < final(context).names().len()
                    ==> final(context).names()[i].1 == old(context).scopes().len() + 1
                &&& final(lexer)@.len() < old(lexer)@.len()
            },
            r matches Ok(c) ==> (declared_name(c) matches Some(n) ==> final(context).declares(n)),
            r matches Ok(c) ==> condition_matches(c, after(old(lexer)@, 1), old(context).visible()),
            header_fault(old(lexer)@, old(context).visible()) matches Some(t) ==> (r matches Err(ParserError::InvalidTokenInWhile { tok, .. }) && tok == t),
            header_fault(old(lexer)@, old(context).visible()) is None ==> (r is Ok && final(lexer)@ == after(after(old(lexer)@, 1), cond_end(after(old(lexer)@, 1), old(context).visible()) + 1)),
            header_fault(old(lexer)@, old(context).visible()) is None ==> cond_end(after(old(lexer)@, 1), old(context).visible()) >= 0,
            r is Ok ==> final(context).visible() == cond_names(after(old(lexer)@, 1), old(context).visible()),
            r matches Err(e) ==> e.raised_at(final(lexer).position()),
    {
        let ghost c0 = *context;
        let ghost s = lexer@;
        proof { lemma_after_step(s, 0); }
        let t = lexer.next_useful();
        match t {
            Token::LeftParen => {},
            other => {
                return Err(ParserError::InvalidTokenInWhile { sp: lexer.span(), tok: other });
            },
        }
        assert(lexer@ =~= after(s, 1));
        context.set_current(ScopeKind::WhileBlock);
        let ghost c1 = *context;
        assert(forall|n: Seq<u8>| c1.declares(n) == c0.declares(n));
        let ghost s1 = lexer@;
        let dep = DeclOrExprParser::new();
        let (t, condition) = dep.parse(None, lexer, context);
        let ghost mid = *context;
        proof {
            let h = after(s, 1);
            assert(stream(None, s1) == h);
            crate::token::lemma_stream_no_eof(None, s1);
            if starts_decl(tok_at(h, 0), c1.visible()) {
                lemma_decl_end(t, lexer@, h);
            } else {
                lemma_expr_end_bounds(h, 0, 0);
            }
            assert(c0.visible() =~= c1.visible());
            assert(resumes_at(t, lexer@, h, cond_end(h, c0.visible())));
        }
        let condition = match condition {
            Some(c) => c,
            None => {
                context.pop();
                proof { lemma_pop_restores(c0, mid, *context, ScopeKind::WhileBlock); }
                return match t {
                    Some(t) => Err(ParserError::InvalidTokenInWhile { sp: lexer.span(), tok: t }),
                    None => Err(ParserError::InvalidTokenInWhile { sp: lexer.span(), tok: Token::Eof }),
                };
            },
        };
        proof {
            lemma_declared_name(c1, mid, condition);
            let h = after(s, 1);
            let ns0 = c0.visible();
            assert(c1.visible() =~= ns0);
            if starts_decl(tok_at(h, 0), ns0) && qual_ok(h, 0) && decl_has_ident(h) {
                Context::lemma_visible_push(c1, mid, tok_at(h, decl_name_at(h))->Identifier_0@, c1.scopes().len() as int);
            } else {
                assert(mid.visible() =~= c1.visible());
            }
        }
        let t = match t {
            Some(t) => t,
            None => lexer.next_useful(),
        };
        match t {
            Token::RightParen => {},
            other => {
                context.pop();
                proof { lemma_pop_restores(c0, mid, *context, ScopeKind::WhileBlock); }
                return Err(ParserError::InvalidTokenInWhile { sp: lexer.span(), tok: other });
            },
        }
        Ok(condition)
    }

    /// Reads what follows `while`: `(condition)` and the body, inside a loop-header scope that
    /// is closed again on every outcome.
    pub fn parse(self, attributes: Option<Attributes>, lexer: &mut Lexer, context: &mut Context) -> (r: Result<(Option<Token>, Option<While>), ParserError>)
        requires
            old(lexer).wf(),
            old(context).wf(),
        ensures
            final(lexer).wf(),
            final(context).wf(),
            final(context).scopes() == old(context).scopes(),
            final(context).names() == old(context).names(),
            !(tok_at(old(lexer)@, 0) is LeftParen) ==> (r matches Err(ParserError::InvalidTokenInWhile { tok: found, .. }) && found == tok_at(old(lexer)@, 0)),
            !(tok_at(old(lexer)@, 0) is LeftParen) ==> final(lexer)@ == after(old(lexer)@, 1),
            r matches Ok((p, w)) ==> (w is Some && pending_ok(p, final(lexer)@) && remaining(p, final(lexer)@) < old(lexer)@.len()),
            r matches Ok((_, Some(w))) ==> (w.attributes == attributes && condition_matches(w.condition, after(old(lexer)@, 1), old(context).visible())),
            ({
                let w = while_read(old(lexer)@, old(context).visible());
                &&& w.0 ==> (r matches Ok((p, Some(wv))) && while_matches(wv, old(lexer)@, old(context).visible(), attributes)
                    && stream(p, final(lexer)@) == after(old(lexer)@, w.1))
                &&& !w.0 ==> (r matches Err(e) && fault_is(e, w.2, w.3))
            }),
            header_fault(old(lexer)@, old(context).visible()) matches Some(t) ==> (r matches Err(ParserError::InvalidTokenInWhile { tok, .. }) && tok == t),
            r matches Err(e) ==> e.raised_at(final(lexer).position()),
        decreases old(lexer)@.len(), 1nat,
    {
        let ghost c0 = *context;
        let ghost s0 = lexer@;
        let hr = self.parse_header(lexer, context);
        let condition = match hr {
            Ok(c) => c,
            Err(e) => {
                return Err(e);
            },
        };
        let ghost ws = lexer@;
        let ghost b = lexer@;
        proof {
            let h = after(s0, 1);
            let c = cond_end(h, c0.visible());
            lemma_after_after(s0, 1, c + 1);
            crate::token::lemma_stream_no_eof(None, b);
        }
        let sp = StatementParser::new();
        let res = sp.parse(None, lexer, context);
        proof {
            let h = after(s0, 1);
            let c = cond_end(h, c0.visible());
            let ns2 = cond_names(h, c0.visible());
            if !ends_block(tok_at(b, 0)) {
                let rd = stmt_read(b, ns2);
                if rd.0 {
                    assert(rd.1 > 0);
                    lemma_after_after(s0, c + 2, rd.1);
                }
            }
        }
        let ghost mid = *context;
        context.pop();
        proof { lemma_pop_restores(c0, mid, *context, ScopeKind::WhileBlock); }
        match res {
            Ok((p, Some(body))) => Ok((p, Some(While { attributes, condition, body }))),
            Ok((p, None)) => Err(ParserError::InvalidTokenInWhile { sp: lexer.span(), tok: p.unwrap() }),
            Err(e) => Err(e),
        }
    }
}

} // verus!
