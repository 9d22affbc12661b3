use vstd::prelude::*;
use std::rc::Rc;
use crate::context::{Context, copy_bytes};
use crate::errors::ParserError;
use crate::expr::{Attributes, attr_end, parse_attributes, lemma_attr_end_bounds};
use crate::lexer::Lexer;
use crate::names::{Qualified, QualifiedParser, qual_end, qual_ok, qual_segs, lemma_qual_end_ge, lemma_qual_shift};
use crate::token::{
    Token, tok_at, after, stream, pending_ok, resumes_at, no_eof, lemma_resumes_stream,
    lemma_after_after, lemma_stream_no_eof, lemma_after_step,
};
use crate::types::{TypeDeclarator, TypeDeclaratorParser, decl_matches, decl_resumes};

verus! {

/// `using A::B, typename C, ...`: the names brought in, and whether the list ends in `...`.
#[derive(Debug, PartialEq)]
pub struct UsingDecl {
    pub names: Vec<Name>,
    pub ellipsis: bool,
}

/// One entry of a `using` list.
#[derive(Debug, PartialEq)]
pub struct Name {
    pub name: Qualified,
    pub typename: bool,
}

impl View for Name {
    type V = (Seq<Seq<u8>>, bool);

    open spec fn view(&self) -> (Seq<Seq<u8>>, bool) {
        (self.name@, self.typename)
    }
}

impl View for UsingDecl {
    type V = (Seq<(Seq<Seq<u8>>, bool)>, bool);

    open spec fn view(&self) -> (Seq<(Seq<Seq<u8>>, bool)>, bool) {
        (self.names@.map_values(|n: Name| n@), self.ellipsis)
    }
}

/// `using enum A::B`.
#[derive(Debug, PartialEq)]
pub struct UsingEnum {
    pub name: Qualified,
}

/// `using namespace A::B`.
#[derive(Debug, PartialEq)]
pub struct UsingNS {
    pub name: Qualified,
    pub attributes: Option<Attributes>,
}

/// `using Name = Type` or `using Name [[attrs]] = Type`. The declarator is shared with the
/// alias table of the context it was registered in.
#[derive(Debug, PartialEq)]
pub struct UsingAlias {
    pub name: Vec<u8>,
    pub typ: Rc<TypeDeclarator>,
    pub attributes: Option<Attributes>,
}

pub open spec fn is_ident_at(s: Seq<Token>, i: int) -> bool {
    tok_at(s, i) is Identifier
}

/// Where the qualified name of the list entry at `i` starts (after an optional `typename`).
pub open spec fn entry_start(s: Seq<Token>, i: int) -> int {
    if tok_at(s, i) is Typename {
        i + 1
    } else {
        i
    }
}

/// Position of the token that follows the list entry at `i`.
pub open spec fn entry_end(s: Seq<Token>, i: int) -> int {
    qual_end(s, entry_start(s, i))
}

pub open spec fn entry_ok(s: Seq<Token>, i: int) -> bool {
    qual_ok(s, entry_start(s, i))
}

pub open spec fn entry_view(s: Seq<Token>, i: int) -> (Seq<Seq<u8>>, bool) {
    (qual_segs(s, entry_start(s, i)), tok_at(s, i) is Typename)
}

/// The entry at `i` is well formed and followed by a comma.
pub open spec fn entry_continues(s: Seq<Token>, i: int) -> bool {
    entry_ok(s, i) && tok_at(s, entry_end(s, i)) is Comma && i <= entry_end(s, i) < s.len()
}

/// Position of the last entry of the list whose first entry is at `i`.
pub open spec fn list_last(s: Seq<Token>, i: int) -> int
    decreases s.len() - i,
{
    if entry_continues(s, i) {
        list_last(s, entry_end(s, i) + 1)
    } else {
        i
    }
}

/// The entries before the last one of the list whose first entry is at `i`.
pub open spec fn list_init(s: Seq<Token>, i: int) -> Seq<(Seq<Seq<u8>>, bool)>
    decreases s.len() - i,
{
    if entry_continues(s, i) {
        seq![entry_view(s, i)] + list_init(s, entry_end(s, i) + 1)
    } else {
        Seq::empty()
    }
}

/// Positions of the entries of the list whose first entry is at `i`, in order.
pub open spec fn list_positions(s: Seq<Token>, i: int) -> Seq<int>
    decreases s.len() - i,
{
    if entry_continues(s, i) {
        seq![i] + list_positions(s, entry_end(s, i) + 1)
    } else {
        seq![i]
    }
}

/// Where the alias's type begins once the tokens after the alias name are read:
/// `=` directly, or an attribute list and then `=`.
pub open spec fn alias_attr_close(s: Seq<Token>, e: int) -> int {
    attr_end(after(s, e), 1) + e
}

/// The tokens of an alias's type, in the stream `a` that starts right after the alias name.
pub open spec fn alias_type_stream(a: Seq<Token>) -> Seq<Token> {
    if tok_at(a, 0) is Equal {
        after(a, 1)
    } else {
        after(a, attr_end(a, 1) + 2)
    }
}

/// What reading an alias's tail from `a` (starting at `=` or `[[`) gives, for `name`.
pub open spec fn alias_result(
    a: Seq<Token>,
    name: Seq<u8>,
    r: Result<(Option<Token>, Option<Declaration>), ParserError>,
    rest: Seq<Token>,
) -> bool {
    let t = alias_type_stream(a);
    let ae = attr_end(a, 1);
    if tok_at(a, 0) is DoubleLeftBrack && ae >= a.len() {
        r == Err::<(Option<Token>, Option<Declaration>), _>(ParserError::UnterminatedAttributes)
    } else if tok_at(a, 0) is DoubleLeftBrack && !(tok_at(a, ae + 1) is Equal) {
        (r matches Err(ParserError::InvalidTokenInAlias { tok: found, .. }) && found == tok_at(a, ae + 1))
    } else if !qual_ok(t, 0) {
        (r matches Err(ParserError::InvalidTokenInAlias { tok: found, .. }) && found == tok_at(t, qual_end(t, 0)))
    } else {
        &&& r matches Ok((p, Some(Declaration::UsingAlias(u))))
        &&& u.name@ == name
        &&& decl_matches(*u.typ, t)
        &&& decl_resumes(p, rest, t)
        &&& (tok_at(a, 0) is Equal ==> u.attributes is None)
        &&& (tok_at(a, 0) is DoubleLeftBrack ==> (u.attributes matches Some(at) && at.toks@ == a.subrange(1, ae)))
    }
}

/// The alias registration made when `r` succeeded with an alias, none otherwise.
pub open spec fn registers(r: Result<(Option<Token>, Option<Declaration>), ParserError>, before: Context, after_: Context) -> bool {
    &&& after_.scopes() == before.scopes()
    &&& (r matches Ok((_, Some(Declaration::UsingAlias(u)))) ==> after_.names() == before.names().push((u.name@, before.scopes().len() as int))
        && after_.types() == before.types().push(*u.typ))
    &&& (!(r matches Ok((_, Some(Declaration::UsingAlias(_))))) ==> after_.names() == before.names()
        && after_.types() == before.types())
}

/// Reads the tail of an alias declaration, from the `=` or `[[` that follows its name,
/// and registers the alias.
fn parse_alias(name: Vec<u8>, follow: Token, lexer: &mut Lexer, context: &mut Context) -> (r: Result<(Option<Token>, Option<Declaration>), ParserError>)
    requires
        old(lexer).wf(),
        old(context).wf(),
        follow is Equal || follow is DoubleLeftBrack,
    ensures
        final(lexer).wf(),
        final(context).wf(),
        alias_result(seq![follow] + old(lexer)@, name@, r, final(lexer)@),
        registers(r, *old(context), *final(context)),
        r matches Ok((p, _)) ==> pending_ok(p, final(lexer)@),
        r matches Err(e) ==> e.raised_at(final(lexer).position()),
{
    let ghost a = seq![follow] + lexer@;
    assert(stream(Some(follow), lexer@) == a);
    proof { lemma_stream_no_eof(Some(follow), lexer@); }
    let attributes = match follow {
        Token::DoubleLeftBrack => {
            let (t, attrs) = match parse_attributes(Some(follow), lexer) {
                Ok(x) => x,
                Err(e) => {
                    return Err(e);
                },
            };
            let ghost ae = attr_end(a, 1);
            proof { lemma_attr_end_bounds(a, 1); lemma_after_step(a, ae + 1); }
            let t = match t {
                Some(t) => t,
                None => lexer.next_useful(),
            };
            match t {
                Token::Equal => {},
                other => {
                    return Err(ParserError::InvalidTokenInAlias { sp: lexer.span(), tok: other });
                },
            }
            proof { lemma_after_after(a, ae + 2, 0); }
            attrs
        },
        _ => {
            proof { lemma_after_after(a, 1, 0); }
            None
        },
    };
    assert(lexer@ == alias_type_stream(a));
    let tdp = TypeDeclaratorParser::new();
    let (t, typ) = tdp.parse(None, lexer);
    let typ = match typ {
        Some(typ) => typ,
        None => {
            return Err(ParserError::InvalidTokenInAlias { sp: lexer.span(), tok: t.unwrap() });
        },
    };
    let typ = Rc::new(typ);
    context.add_alias(copy_bytes(&name), typ.clone());
    Ok((t, Some(Declaration::UsingAlias(UsingAlias { name, typ, attributes }))))
}

/// What reading a `using` declaration from `s` gives, given what was read.
pub open spec fn using_result(
    s: Seq<Token>,
    r: Result<(Option<Token>, Option<Declaration>), ParserError>,
    rest: Seq<Token>,
) -> bool {
    let q = after(s, 2);
    let j = list_last(s, 1);
    let e = entry_end(s, j);
    let f = tok_at(s, e);
    if !(tok_at(s, 0) is Using) {
        r == Ok::<_, ParserError>((Some(tok_at(s, 0)), None::<Declaration>)) && rest == after(s, 1)
    } else if tok_at(s, 1) is Enum || tok_at(s, 1) is Namespace {
        if !qual_ok(q, 0) {
            (r matches Err(ParserError::InvalidTokenInUsingEnum { tok: found, .. }) && found == tok_at(q, qual_end(q, 0)))
        } else if tok_at(s, 1) is Enum {
            &&& r matches Ok((p, Some(Declaration::UsingEnum(u))))
            &&& u.name@ == qual_segs(q, 0)
            &&& resumes_at(p, rest, q, qual_end(q, 0))
        } else {
            &&& r matches Ok((p, Some(Declaration::UsingNS(u))))
            &&& u.name@ == qual_segs(q, 0)
            &&& u.attributes is None
            &&& resumes_at(p, rest, q, qual_end(q, 0))
        }
    } else if !entry_ok(s, j) {
        (r matches Err(ParserError::InvalidTokenInUsing { tok: found, .. }) && found == f)
    } else if f is Equal || f is DoubleLeftBrack {
        if j != 1 || qual_segs(s, entry_start(s, 1)).len() != 1 {
            (r matches Err(ParserError::InvalidTokenInAlias { tok: found, .. }) && found == f)
        } else {
            alias_result(after(s, e), qual_segs(s, entry_start(s, 1))[0], r, rest)
        }
    } else {
        &&& r matches Ok((p, Some(Declaration::UsingDecl(u))))
        &&& u@ == (list_init(s, 1).push(entry_view(s, j)), f is Ellipsis)
        &&& f is Ellipsis ==> p is None && rest == after(s, e + 1)
        &&& !(f is Ellipsis) ==> resumes_at(p, rest, s, e)
    }
}

pub struct UsingParser {}

impl UsingParser {
    pub fn new() -> Self {
        UsingParser {  }
    }

    /// Reads a `using` declaration: `using enum Q`, `using namespace Q`, an alias
    /// `using Name [[attrs]] = Type`, or a list of names. Without `using` the token is handed back.
    pub fn parse(self, tok: Option<Token>, lexer: &mut Lexer, context: &mut Context) -> (r: Result<(Option<Token>, Option<Declaration>), ParserError>)
        requires
            old(lexer).wf(),
            old(context).wf(),
            pending_ok(tok, old(lexer)@),
        ensures
            final(lexer).wf(),
            final(context).wf(),
            using_result(stream(tok, old(lexer)@), r, final(lexer)@),
            registers(r, *old(context), *final(context)),
            r matches Ok((p, _)) ==> pending_ok(p, final(lexer)@),
            r matches Err(e) ==> e.raised_at(final(lexer).position()),
    {
        let ghost s = stream(tok, lexer@);
        proof {
            lemma_stream_no_eof(tok, lexer@);
            lemma_after_step(s, 0);
        }
        let t = match tok {
            Some(t) => t,
            None => lexer.next_useful(),
        };
        assert(lexer@ =~= after(s, 1));
        match t {
            Token::Using => {},
            other => {
                return Ok((Some(other), None));
            },
        }
        proof { lemma_after_step(s, 1); }
        let t = lexer.next_useful();
        assert(lexer@ =~= after(s, 2));
        match t {
            Token::Enum => {
                let qp = QualifiedParser::new();
                let (t, name) = qp.parse(None, lexer);
                return match name {
                    Some(name) => Ok((t, Some(Declaration::UsingEnum(UsingEnum { name })))),
                    None => Err(ParserError::InvalidTokenInUsingEnum { sp: lexer.span(), tok: t.unwrap() }),
                };
            },
            Token::Namespace => {
                let qp = QualifiedParser::new();
                let (t, name) = qp.parse(None, lexer);
                return match name {
                    Some(name) => Ok((t, Some(Declaration::UsingNS(UsingNS { name, attributes: None })))),
                    None => Err(ParserError::InvalidTokenInUsingEnum { sp: lexer.span(), tok: t.unwrap() }),
                };
            },
            _ => {},
        }
        let mut names: Vec<Name> = Vec::new();
        let mut t = t;
        let ghost mut i: int = 1;
        loop
            invariant
                s == stream(tok, old(lexer)@),
                no_eof(s),
                tok_at(s, 0) is Using,
                !(tok_at(s, 1) is Enum || tok_at(s, 1) is Namespace),
                1 <= i <= s.len(),
                t == tok_at(s, i),
                lexer@ == after(s, i + 1),
                lexer.wf(),
                list_last(s, 1) == list_last(s, i),
                list_init(s, 1) == names@.map_values(|n: Name| n@) + list_init(s, i),
                names@.len() == 0 <==> i == 1,
                context.wf(),
                context.scopes() == old(context).scopes(),
                context.names() == old(context).names(),
                context.types() == old(context).types(),
            decreases s.len() - i,
        {
            let ghost st = entry_start(s, i);
            proof {
                lemma_after_step(s, i + 1);
                lemma_after_after(s, i + 1, 0);
            }
            let (t2, typename) = match t {
                Token::Typename => (lexer.next_useful(), true),
                other => (other, false),
            };
            proof {
                lemma_after_after(s, st, 0);
                lemma_after_after(s, st, 1);
                assert(stream(Some(t2), lexer@) =~= after(s, st));
                lemma_qual_shift(s, st, 0);
                lemma_qual_end_ge(s, st);
                lemma_after_after(s, st, qual_end(s, st) - st);
                lemma_after_after(s, st, qual_end(s, st) - st + 1);
            }
            let qp = QualifiedParser::new();
            let (t3, name) = qp.parse(Some(t2), lexer);
            let ghost e = entry_end(s, i);
            let name = match name {
                Some(name) => name,
                None => {
                    return Err(ParserError::InvalidTokenInUsing { sp: lexer.span(), tok: t3.unwrap() });
                },
            };
            let f = t3.unwrap();
            assert(f == tok_at(s, e));
            assert(lexer@ == after(s, e + 1));
            match f {
                Token::Comma => {
                    proof {
                        assert(entry_continues(s, i));
                        let nv = names@.map_values(|n: Name| n@);
                        assert(names@.push(Name { name, typename }).map_values(|n: Name| n@) =~= nv.push(entry_view(s, i)));
                        assert(nv + list_init(s, i) =~= nv.push(entry_view(s, i)) + list_init(s, e + 1));
                        lemma_after_step(s, e + 1);
                    }
                    names.push(Name { name, typename });
                    t = lexer.next_useful();
                    proof {
                        i = e + 1;
                        assert(lexer@ =~= after(s, i + 1));
                    }
                },
                Token::Equal | Token::DoubleLeftBrack => {
                    assert(name.names@.len() == name@.len());
                    if names.len() > 0 || name.names.len() != 1 {
                        return Err(ParserError::InvalidTokenInAlias { sp: lexer.span(), tok: f });
                    }
                    assert(is_ident_at(s, st));
                    assert(qual_segs(s, st).len() > 0);
                    assert(name.names@.len() == name@.len());
                    let first = copy_bytes(&name.names[0]);
                    proof {
                        assert(name@[0] == name.names@[0]@);
                        lemma_resumes_stream(Some(f), lexer@, s, e);
                        assert(seq![f] + lexer@ =~= after(s, e));
                    }
                    return parse_alias(first, f, lexer, context);
                },
                other => {
                    let ellipsis = match other {
                        Token::Ellipsis => true,
                        _ => false,
                    };
                    proof {
                        let nv = names@.map_values(|n: Name| n@);
                        assert(names@.push(Name { name, typename }).map_values(|n: Name| n@) =~= nv.push(entry_view(s, i)));
                        assert(nv + list_init(s, i) =~= nv);
                    }
                    names.push(Name { name, typename });
                    let u = UsingDecl { names, ellipsis };
                    if ellipsis {
                        return Ok((None, Some(Declaration::UsingDecl(u))));
                    }
                    return Ok((Some(other), Some(Declaration::UsingDecl(u))));
                },
            }
        }
    }
}

#[derive(Debug, PartialEq)]
pub enum Declaration {
    UsingDecl(UsingDecl),
    UsingEnum(UsingEnum),
    UsingNS(UsingNS),
    UsingAlias(UsingAlias),
}

} // verus!
