use vstd::prelude::*;
use crate::expr::{ExprNode, expr_end, parse_expression};
use crate::lexer::Lexer;
use crate::names::{Qualified, QualifiedParser, qual_end, qual_ok, qual_segs};
use crate::token::{
    Token, tok_at, after, stream, pending_ok, resumes_at, no_eof, lemma_resumes_stream,
    lemma_after_after, lemma_stream_no_eof,
};

verus! {

/// A declared type: its type name, the name it declares if any, and that name's initializer.
#[derive(Debug, PartialEq)]
pub struct TypeDeclarator {
    pub typ: Qualified,
    pub identifier: Option<Vec<u8>>,
    pub init: Option<ExprNode>,
}

/// How a type declarator reads `s`: type name, declared name, initializer, and where it
/// stops (the position of the token handed back).
pub open spec fn decl_name_at(s: Seq<Token>) -> int {
    qual_end(s, 0)
}

pub open spec fn decl_has_ident(s: Seq<Token>) -> bool {
    tok_at(s, decl_name_at(s)) is Identifier
}

pub open spec fn decl_has_init(s: Seq<Token>) -> bool {
    decl_has_ident(s) && tok_at(s, decl_name_at(s) + 1) is Equal
}

/// The tokens that an initializer reads.
pub open spec fn decl_init_stream(s: Seq<Token>) -> Seq<Token> {
    after(s, decl_name_at(s) + 2)
}

pub open spec fn decl_init_end(s: Seq<Token>) -> int {
    expr_end(decl_init_stream(s), 0, 0)
}

/// The declarator read from `s`, under the reading above.
pub open spec fn decl_matches(d: TypeDeclarator, s: Seq<Token>) -> bool {
    &&& d.typ@ == qual_segs(s, 0)
    &&& decl_has_ident(s) ==> (d.identifier matches Some(id) && id@ == tok_at(s, decl_name_at(s))->Identifier_0@)
    &&& !decl_has_ident(s) ==> d.identifier is None
    &&& decl_has_init(s) ==> (d.init is Some <==> decl_init_end(s) > 0)
    &&& !decl_has_init(s) ==> d.init is None
    &&& d.init matches Some(x) ==> x.toks@ == decl_init_stream(s).subrange(0, decl_init_end(s))
}

/// Where reading a declarator from `s` leaves the stream: `p` over `rest`.
pub open spec fn decl_resumes(p: Option<Token>, rest: Seq<Token>, s: Seq<Token>) -> bool {
    &&& !qual_ok(s, 0) ==> resumes_at(p, rest, s, decl_name_at(s))
    &&& qual_ok(s, 0) && !decl_has_ident(s) ==> resumes_at(p, rest, s, decl_name_at(s))
    &&& qual_ok(s, 0) && decl_has_ident(s) && !decl_has_init(s) ==> resumes_at(p, rest, s, decl_name_at(s) + 1)
    &&& qual_ok(s, 0) && decl_has_init(s) ==> resumes_at(p, rest, decl_init_stream(s), decl_init_end(s))
}

/// Position of the token handed back after reading a declarator from `s`.
pub open spec fn decl_end(s: Seq<Token>) -> int {
    if !qual_ok(s, 0) || !decl_has_ident(s) {
        decl_name_at(s)
    } else if !decl_has_init(s) {
        decl_name_at(s) + 1
    } else {
        decl_name_at(s) + 2 + decl_init_end(s)
    }
}

/// Reading a declarator hands back the token at `decl_end`.
pub proof fn lemma_decl_end(p: Option<Token>, rest: Seq<Token>, s: Seq<Token>)
    requires
        decl_resumes(p, rest, s),
    ensures
        resumes_at(p, rest, s, decl_end(s)),
        decl_end(s) >= 0,
{
    crate::names::lemma_qual_end_ge(s, 0);
    if qual_ok(s, 0) && decl_has_init(s) {
        let a = decl_name_at(s) + 2;
        let k = decl_init_end(s);
        crate::expr::lemma_expr_end_bounds(decl_init_stream(s), 0, 0);
        lemma_after_after(s, a, k);
        lemma_after_after(s, a, k + 1);
    }
}

pub struct TypeDeclaratorParser {}

impl TypeDeclaratorParser {
    pub fn new() -> Self {
        TypeDeclaratorParser {  }
    }

    /// Reads `Type`, `Type name` or `Type name = init`. Without a type name nothing is read
    /// but that token, which is handed back.
    pub fn parse(self, tok: Option<Token>, lexer: &mut Lexer) -> (r: (Option<Token>, Option<TypeDeclarator>))
        requires
            old(lexer).wf(),
            pending_ok(tok, old(lexer)@),
        ensures
            final(lexer).wf(),
            ({
                let s = stream(tok, old(lexer)@);
                &&& r.1 is Some <==> qual_ok(s, 0)
                &&& r.1 matches Some(d) ==> decl_matches(d, s)
                &&& decl_resumes(r.0, final(lexer)@, s)
            }),
    {
        let ghost s = stream(tok, lexer@);
        proof { lemma_stream_no_eof(tok, lexer@); }
        let qp = QualifiedParser::new();
        let (t, name) = qp.parse(tok, lexer);
        let typ = match name {
            Some(q) => q,
            None => {
                return (t, None);
            },
        };
        let ghost e = qual_end(s, 0);
        proof {
            crate::names::lemma_qual_end_ge(s, 0);
            lemma_resumes_stream(t, lexer@, s, e);
        }
        let t = t.unwrap();
        let id = match t {
            Token::Identifier(id) => id,
            other => {
                return (Some(other), Some(TypeDeclarator { typ, identifier: None, init: None }));
            },
        };
        let t = lexer.next_useful();
        proof {
            lemma_after_after(s, e, 1);
            crate::token::lemma_after_step(s, e + 1);
            assert(lexer@ =~= after(s, e + 2));
        }
        match t {
            Token::Equal => {},
            other => {
                return (Some(other), Some(TypeDeclarator { typ, identifier: Some(id), init: None }));
            },
        }
        proof {
            lemma_after_after(s, e, 2);
            assert(no_eof(lexer@));
        }
        let (t, init) = parse_expression(None, lexer);
        (t, Some(TypeDeclarator { typ, identifier: Some(id), init }))
    }
}

} // verus!
