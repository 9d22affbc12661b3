use vstd::prelude::*;
use crate::expr::{ExprNode, expr_end, parse_expression, lemma_expr_end_bounds};
use crate::lexer::Lexer;
use crate::names::Qualified;
use crate::token::{
    Token, tok_at, after, stream, pending_ok, resumes_at, lemma_stream_no_eof, lemma_after_step,
    lemma_after_after, };

verus! {

/// An array suffix `[size]`; the size is absent for `[]`.
#[derive(Debug, PartialEq)]
pub struct Array {
    pub identifier: Option<Qualified>,
    pub size: Option<ExprNode>,
}

/// Position, in `s`, of the token that ends the bound of the array suffix starting at `s[0]`.
pub open spec fn array_close(s: Seq<Token>) -> int {
    expr_end(after(s, 1), 0, 0) + 1
}

pub struct ArrayParser {}

impl ArrayParser {
    pub fn new() -> Self {
        ArrayParser {  }
    }

    /// Reads an array suffix when `[` comes next; otherwise the token is handed back.
    /// A closing `]` is consumed and the token after it handed back.
    pub fn parse(self, tok: Option<Token>, lexer: &mut Lexer) -> (r: (Option<Token>, Option<Array>))
        requires
            old(lexer).wf(),
            pending_ok(tok, old(lexer)@),
        ensures
            final(lexer).wf(),
            ({
                let s = stream(tok, old(lexer)@);
                let c = array_close(s);
                &&& !(tok_at(s, 0) is LeftBrack) ==> r.1 is None && resumes_at(r.0, final(lexer)@, s, 0)
                &&& tok_at(s, 0) is LeftBrack ==> (r.1 matches Some(a) && a.identifier is None
                    && (a.size is Some <==> c > 1)
                    && (a.size matches Some(x) ==> x.toks@ == s.subrange(1, c)))
                &&& tok_at(s, 0) is LeftBrack && tok_at(s, c) is RightBrack ==> resumes_at(r.0, final(lexer)@, s, c + 1)
                &&& tok_at(s, 0) is LeftBrack && !(tok_at(s, c) is RightBrack) ==> resumes_at(r.0, final(lexer)@, s, c)
            }),
    {
        let ghost s = stream(tok, lexer@);
        proof {
            lemma_stream_no_eof(tok, lexer@);
            lemma_after_step(s, 0);
        }
        let t = match tok {
            Some(t) => t,
            None => lexer.next_useful(),
        };
        assert(lexer@ =~= after(s, 1));
        match t {
            Token::LeftBrack => {},
            other => {
                return (Some(other), None);
            },
        }
        let ghost a = after(s, 1);
        proof {
            lemma_expr_end_bounds(a, 0, 0);
            lemma_after_after(s, 1, expr_end(a, 0, 0));
            lemma_after_after(s, 1, expr_end(a, 0, 0) + 1);
            lemma_after_after(s, 1, 0);
            assert(a.len() == 0 || s.len() == a.len() + 1);
        }
        let (t, size) = parse_expression(None, lexer);
        proof {
            if size is Some {
                assert(a.subrange(0, expr_end(a, 0, 0)) =~= s.subrange(1, array_close(s)));
            }
        }
        let array = Array { identifier: None, size };
        let t = t.unwrap();
        match t {
            Token::RightBrack => {
                proof { lemma_after_step(s, array_close(s) + 1); }
                let next = lexer.next_useful();
                assert(lexer@ =~= after(s, array_close(s) + 2));
                (Some(next), Some(array))
            },
            other => (Some(other), Some(array)),
        }
    }
}

} // verus!
