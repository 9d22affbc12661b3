use vstd::prelude::*;
use crate::errors::ParserError;
use crate::lexer::Lexer;
use crate::token::{Token, tok_at, after, stream, pending_ok, resumes_at, lemma_after_step};

verus! {

/// An expression, kept as the run of tokens that spells it.
#[derive(Debug, PartialEq)]
pub struct ExprNode {
    pub toks: Vec<Token>,
}

pub open spec fn is_open(t: Token) -> bool {
    t is LeftParen || t is LeftBrack || t is LeftBrace
}

pub open spec fn is_close(t: Token) -> bool {
    t is RightParen || t is RightBrack || t is RightBrace
}

/// Position where the expression starting at `i` ends, `depth` brackets deep: the first
/// closing bracket or `;` outside all brackets, or the end of input.
pub open spec fn expr_end(s: Seq<Token>, i: int, depth: int) -> int
    decreases s.len() - i,
{
    if i < 0 || i >= s.len() {
        i
    } else if depth <= 0 && (is_close(s[i]) || s[i] is SemiColon) {
        i
    } else if is_open(s[i]) {
        expr_end(s, i + 1, depth + 1)
    } else if is_close(s[i]) {
        expr_end(s, i + 1, depth - 1)
    } else {
        expr_end(s, i + 1, depth)
    }
}

pub proof fn lemma_expr_end_bounds(s: Seq<Token>, i: int, depth: int)
    requires
        0 <= i,
    ensures
        i <= expr_end(s, i, depth),
        i <= s.len() ==> expr_end(s, i, depth) <= s.len(),
    decreases s.len() - i,
{
    if i < s.len() {
        if !(depth <= 0 && (is_close(s[i]) || s[i] is SemiColon)) {
            if is_open(s[i]) {
                lemma_expr_end_bounds(s, i + 1, depth + 1);
            } else if is_close(s[i]) {
                lemma_expr_end_bounds(s, i + 1, depth - 1);
            } else {
                lemma_expr_end_bounds(s, i + 1, depth);
            }
        }
    }
}

/// Reads an expression; the token that ends it is handed back. No tokens at all give `None`.
pub fn parse_expression(tok: Option<Token>, lexer: &mut Lexer) -> (r: (Option<Token>, Option<ExprNode>))
    requires
        old(lexer).wf(),
        pending_ok(tok, old(lexer)@),
    ensures
        final(lexer).wf(),
        ({
            let s = stream(tok, old(lexer)@);
            let e = expr_end(s, 0, 0);
            &&& resumes_at(r.0, final(lexer)@, s, e)
            &&& (r.1 is Some <==> e > 0)
            &&& (r.1 matches Some(x) ==> x.toks@ == s.subrange(0, e))
        }),
{
    let ghost s = stream(tok, lexer@);
    proof { lemma_after_step(s, 0); }
    let mut t = match tok {
        Some(t) => t,
        None => lexer.next_useful(),
    };
    let mut toks: Vec<Token> = Vec::new();
    let mut depth: usize = 0;
    let ghost mut i: int = 0;
    proof { lemma_expr_end_bounds(s, 0, 0); }
    loop
        invariant
            s == stream(tok, old(lexer)@),
            lexer.wf(),
            0 <= i <= s.len(),
            s.len() <= usize::MAX,
            depth <= i,
            t == tok_at(s, i),
            t is Eof <==> i == s.len(),
            lexer@ == after(s, i + 1),
            toks@ == s.subrange(0, i),
            expr_end(s, 0, 0) == expr_end(s, i, depth as int),
        decreases s.len() - i,
    {
        let stop = match t {
            Token::Eof => true,
            Token::RightParen | Token::RightBrack | Token::RightBrace | Token::SemiColon => depth == 0,
            _ => false,
        };
        if stop {
            proof { lemma_expr_end_bounds(s, i, depth as int); }
            let e = if toks.len() == 0 { None } else { Some(ExprNode { toks }) };
            assert(pending_ok(Some(t), lexer@));
            return (Some(t), e);
        }
        match t {
            Token::LeftParen | Token::LeftBrack | Token::LeftBrace => { depth = depth + 1; },
            Token::RightParen | Token::RightBrack | Token::RightBrace => { depth = depth - 1; },
            _ => {},
        }
        proof {
            lemma_after_step(s, i + 1);
            assert(s.subrange(0, i).push(t) =~= s.subrange(0, i + 1));
        }
        toks.push(t);
        t = lexer.next_useful();
        proof {
            i = i + 1;
            assert(lexer@ =~= after(s, i + 1));
        }
    }
}

/// An attribute list `[[ ... ]]`, kept as the tokens between the brackets.
#[derive(Debug, PartialEq)]
pub struct Attributes {
    pub toks: Vec<Token>,
}

/// Position of the first `]]` at or after `i`, or the end of input.
pub open spec fn attr_end(s: Seq<Token>, i: int) -> int
    decreases s.len() - i,
{
    if i < 0 || i >= s.len() || s[i] is DoubleRightBrack {
        i
    } else {
        attr_end(s, i + 1)
    }
}

pub proof fn lemma_attr_end_bounds(s: Seq<Token>, i: int)
    requires
        0 <= i,
    ensures
        i <= attr_end(s, i),
        i <= s.len() ==> attr_end(s, i) <= s.len(),
    decreases s.len() - i,
{
    if 0 <= i < s.len() && !(s[i] is DoubleRightBrack) {
        lemma_attr_end_bounds(s, i + 1);
    }
}

/// Reads an attribute list when one starts here. Without `[[` the token is handed back.
/// A list that reaches the end of input without `]]` is an error.
pub fn parse_attributes(tok: Option<Token>, lexer: &mut Lexer) -> (r: Result<
    (Option<Token>, Option<Attributes>),
    ParserError,
>)
    requires
        old(lexer).wf(),
        pending_ok(tok, old(lexer)@),
    ensures
        final(lexer).wf(),
        ({
            let s = stream(tok, old(lexer)@);
            let e = attr_end(s, 1);
            &&& !(tok_at(s, 0) is DoubleLeftBrack) ==> r == Ok::<_, ParserError>((Some(tok_at(s, 0)), None::<Attributes>)) && final(lexer)@ == after(s, 1)
            &&& tok_at(s, 0) is DoubleLeftBrack && e < s.len() ==> (r matches Ok((None, Some(a))) && a.toks@ == s.subrange(1, e) && final(lexer)@ == after(s, e + 1))
            &&& tok_at(s, 0) is DoubleLeftBrack && e >= s.len() ==> r == Err::<(Option<Token>, Option<Attributes>), _>(ParserError::UnterminatedAttributes)
            &&& r matches Ok((p, _)) ==> pending_ok(p, final(lexer)@)
        }),
{
    let ghost s = stream(tok, lexer@);
    proof { lemma_after_step(s, 0); }
    let t = match tok {
        Some(t) => t,
        None => lexer.next_useful(),
    };
    match t {
        Token::DoubleLeftBrack => {},
        other => {
            return Ok((Some(other), None));
        },
    }
    let mut toks: Vec<Token> = Vec::new();
    let ghost mut i: int = 1;
    proof { lemma_attr_end_bounds(s, 1); }
    loop
        invariant
            s == stream(tok, old(lexer)@),
            tok_at(s, 0) is DoubleLeftBrack,
            lexer.wf(),
            1 <= i <= s.len(),
            i <= attr_end(s, 1),
            lexer@ == after(s, i),
            toks@ == s.subrange(1, i),
            attr_end(s, 1) == attr_end(s, i),
        decreases s.len() - i,
    {
        proof { lemma_after_step(s, i); lemma_attr_end_bounds(s, i); }
        let t = lexer.next_useful();
        match t {
            Token::DoubleRightBrack => {
                return Ok((None, Some(Attributes { toks })));
            },
            Token::Eof => {
                return Err(ParserError::UnterminatedAttributes);
            },
            other => {
                proof {
                    assert(i < s.len());
                    assert(attr_end(s, i) == attr_end(s, i + 1));
                    lemma_attr_end_bounds(s, i + 1);
                    assert(s.subrange(1, i).push(other) =~= s.subrange(1, i + 1));
                }
                toks.push(other);
                proof { i = i + 1; }
            },
        }
    }
}

} // verus!
