use vstd::prelude::*;
use crate::errors::InternalError;
use crate::expr::Attributes;
use crate::lexer::Lexer;
use crate::token::{Token, tok_at, after, lemma_after_step};

verus! {

/// An inline assembly declaration: its attributes and its code, byte for byte.
#[derive(Debug, PartialEq)]
pub struct Asm {
    pub attributes: Option<Attributes>,
    pub code: Vec<u8>,
}

/// Position of the first token at or after `i` that is not a string literal.
pub open spec fn lit_end(s: Seq<Token>, i: int) -> int
    decreases s.len() - i,
{
    if 0 <= i < s.len() && s[i] is LiteralString {
        lit_end(s, i + 1)
    } else {
        i
    }
}

/// The bodies of the string literals from `i` on, joined.
pub open spec fn lit_concat(s: Seq<Token>, i: int) -> Seq<u8>
    decreases s.len() - i,
{
    if 0 <= i < s.len() && s[i] is LiteralString {
        s[i]->LiteralString_0@ + lit_concat(s, i + 1)
    } else {
        Seq::empty()
    }
}

/// What reading `( "literal"... )` from `s` gives.
pub open spec fn asm_result(
    s: Seq<Token>,
    attributes: Option<Attributes>,
    r: Result<(Option<Token>, Option<Asm>), InternalError>,
    rest: Seq<Token>,
) -> bool {
    let e = lit_end(s, 1);
    if !(tok_at(s, 0) is LeftParen) {
        (r matches Err(InternalError::UnexpectedTokenInAsm { tok: found, .. }) && found == tok_at(s, 0))
    } else if !(tok_at(s, 1) is LiteralString) {
        (r matches Err(InternalError::UnexpectedTokenInAsm { tok: found, .. }) && found == tok_at(s, 1))
    } else if !(tok_at(s, e) is RightParen) {
        (r matches Err(InternalError::UnexpectedTokenInAsm { tok: found, .. }) && found == tok_at(s, e))
    } else {
        &&& r matches Ok((None, Some(a)))
        &&& a.code@ == lit_concat(s, 1)
        &&& a.attributes == attributes
        &&& rest == after(s, e + 1)
    }
}

pub struct AsmParser {}

impl AsmParser {
    pub fn new() -> Self {
        AsmParser {  }
    }

    /// Reads the argument list of `asm`: `(`, one or more adjacent string literals, `)`.
    pub fn parse(self, attributes: Option<Attributes>, lexer: &mut Lexer) -> (r: Result<(Option<Token>, Option<Asm>), InternalError>)
        requires
            old(lexer).wf(),
        ensures
            final(lexer).wf(),
            asm_result(old(lexer)@, attributes, r, final(lexer)@),
            r matches Err(InternalError::UnexpectedTokenInAsm { sp, .. }) ==> sp == final(lexer).position(),
    {
        let ghost s = lexer@;
        proof { lemma_after_step(s, 0); }
        let t = lexer.next_useful();
        match t {
            Token::LeftParen => {},
            other => {
                return Err(InternalError::UnexpectedTokenInAsm { sp: lexer.span(), tok: other });
            },
        }
        assert(lexer@ =~= after(s, 1));
        let mut code: Vec<u8> = Vec::new();
        let ghost mut i: int = 1;
        proof { lemma_after_step(s, 1); }
        let mut t = lexer.next_useful();
        assert(lexer@ =~= after(s, 2));
        match t {
            Token::LiteralString(_) => {},
            other => {
                return Err(InternalError::UnexpectedTokenInAsm { sp: lexer.span(), tok: other });
            },
        }
        loop
            invariant
                s == old(lexer)@,
                tok_at(s, 0) is LeftParen,
                tok_at(s, 1) is LiteralString,
                lexer.wf(),
                1 <= i <= s.len(),
                t == tok_at(s, i),
                lexer@ == after(s, i + 1),
                lit_end(s, 1) == lit_end(s, i),
                lit_concat(s, 1) == code@ + lit_concat(s, i),
            decreases s.len() - i,
        {
            match t {
                Token::LiteralString(part) => {
                    let mut part = part;
                    proof {
                        assert(code@ + lit_concat(s, i) =~= (code@ + part@) + lit_concat(s, i + 1));
                        lemma_after_step(s, i + 1);
                    }
                    code.append(&mut part);
                    t = lexer.next_useful();
                    proof {
                        i = i + 1;
                        assert(lexer@ =~= after(s, i + 1));
                    }
                },
                Token::RightParen => {
                    assert(lit_end(s, i) == i);
                    assert(lit_concat(s, i) == Seq::<u8>::empty());
                    assert(code@ =~= lit_concat(s, 1));
                    return Ok((None, Some(Asm { attributes, code })));
                },
                other => {
                    assert(lit_end(s, i) == i);
                    return Err(InternalError::UnexpectedTokenInAsm { sp: lexer.span(), tok: other });
                },
            }
        }
    }
}

} // verus!
