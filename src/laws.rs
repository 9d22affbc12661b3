use vstd::prelude::*;
use crate::context::Context;
use crate::expr::attr_end;
use crate::inline_asm::{Asm, asm_result, lit_concat, lit_end};
use crate::errors::ParserError;
use crate::names::{qual_ok, qual_segs, qual_end};
use crate::token::{Token, tok_at, after};
use crate::types::decl_matches;
use crate::using::{
    Declaration, using_result, registers, alias_type_stream, list_last, entry_end,
    entry_start, entry_continues, entry_view, list_init, list_positions,
};

verus! {

/// `using enum Q` reads as `UsingEnum` naming exactly `Q`, and `using namespace Q` as
/// `UsingNS` naming exactly `Q` with no attributes, for every qualified name `Q`.
pub proof fn lemma_using_enum_namespace(q: Seq<Token>, kw: Token, r: Result<(Option<Token>, Option<Declaration>), ParserError>, rest: Seq<Token>)
    requires
        kw is Enum || kw is Namespace,
        qual_ok(q, 0),
        using_result(seq![Token::Using, kw] + q, r, rest),
    ensures
        kw is Enum ==> (r matches Ok((_, Some(Declaration::UsingEnum(u)))) && u.name@ == qual_segs(q, 0)),
        kw is Namespace ==> (r matches Ok((_, Some(Declaration::UsingNS(u)))) && u.name@ == qual_segs(q, 0)
            && u.attributes is None),
{
    let s = seq![Token::Using, kw] + q;
    assert(after(s, 2) =~= q);
    assert(tok_at(s, 0) == Token::Using);
    assert(tok_at(s, 1) == kw);
}

/// The bytes of a single raw or plain string literal in `asm( ... )` come out as the code,
/// unchanged: every byte, newlines and surrounding blanks included.
pub proof fn lemma_asm_code_verbatim(body: Vec<u8>, attributes: Option<crate::expr::Attributes>, r: Result<(Option<Token>, Option<Asm>), crate::errors::InternalError>, rest: Seq<Token>)
    requires
        asm_result(seq![Token::LeftParen, Token::LiteralString(body), Token::RightParen], attributes, r, rest),
    ensures
        r matches Ok((_, Some(a))) && a.code@ == body@,
{
    let s = seq![Token::LeftParen, Token::LiteralString(body), Token::RightParen];
    assert(lit_end(s, 3) == 3);
    assert(lit_end(s, 2) == 2);
    assert(lit_end(s, 1) == 2);
    assert(lit_concat(s, 2) == Seq::<u8>::empty());
    assert(lit_concat(s, 1) =~= body@);
}

/// `using Name = Type` reads as an alias of `Name` without attributes, and registers `Name`
/// as a type name in the innermost scope.
pub proof fn lemma_using_alias(
    name: Vec<u8>,
    t: Seq<Token>,
    r: Result<(Option<Token>, Option<Declaration>), ParserError>,
    rest: Seq<Token>,
    before: Context,
    after_: Context,
)
    requires
        qual_ok(t, 0),
        using_result(seq![Token::Using, Token::Identifier(name), Token::Equal] + t, r, rest),
        registers(r, before, after_),
    ensures
        r matches Ok((_, Some(Declaration::UsingAlias(u)))) && u.name@ == name@ && u.attributes is None
            && decl_matches(*u.typ, t),
        after_.names() == before.names().push((name@, before.scopes().len() as int)),
        after_.declares(name@),
        r matches Ok((_, Some(Declaration::UsingAlias(u)))) ==> after_.types() == before.types().push(*u.typ),
{
    let s = seq![Token::Using, Token::Identifier(name), Token::Equal] + t;
    assert(tok_at(s, 1) == Token::Identifier(name));
    assert(tok_at(s, 2) == Token::Equal);
    assert(entry_start(s, 1) == 1);
    assert(qual_end(s, 1) == 2);
    assert(entry_end(s, 1) == 2);
    assert(list_last(s, 1) == 1);
    assert(qual_segs(s, 1) =~= seq![name@]);
    let a = after(s, 2);
    assert(a =~= seq![Token::Equal] + t);
    assert(after(a, 1) =~= t);
    assert(alias_type_stream(a) =~= t);
    assert(after_.names()[before.names().len() as int].0 == name@);
}

/// Where the `]]` closing an attribute list of tokens `at` stands.
proof fn lemma_attr_end_of(x: Seq<Token>, at: Seq<Token>, i: int)
    requires
        0 <= i <= at.len(),
        x.len() > at.len() + 1,
        forall|k: int| 0 <= k < at.len() ==> x[k + 1] == at[k] && !(at[k] is DoubleRightBrack),
        x[at.len() as int + 1] is DoubleRightBrack,
    ensures
        attr_end(x, i + 1) == at.len() + 1,
    decreases at.len() - i,
{
    if i < at.len() {
        assert(x[i + 1] == at[i]);
        lemma_attr_end_of(x, at, i + 1);
    } else {
        assert(x[i + 1] is DoubleRightBrack);
    }
}

/// `using Name [[attrs]] = Type` reads as an alias of `Name` carrying exactly those
/// attributes, and registers `Name` as a type name in the innermost scope.
pub proof fn lemma_using_alias_attributes(
    name: Vec<u8>,
    at: Seq<Token>,
    t: Seq<Token>,
    r: Result<(Option<Token>, Option<Declaration>), ParserError>,
    rest: Seq<Token>,
    before: Context,
    after_: Context,
)
    requires
        qual_ok(t, 0),
        forall|k: int| 0 <= k < at.len() ==> !(at[k] is DoubleRightBrack),
        using_result(seq![Token::Using, Token::Identifier(name), Token::DoubleLeftBrack] + at + seq![Token::DoubleRightBrack, Token::Equal] + t, r, rest),
        registers(r, before, after_),
    ensures
        r matches Ok((_, Some(Declaration::UsingAlias(u)))) && u.name@ == name@
            && (u.attributes matches Some(x) && x.toks@ == at) && decl_matches(*u.typ, t),
        after_.names() == before.names().push((name@, before.scopes().len() as int)),
        after_.declares(name@),
        r matches Ok((_, Some(Declaration::UsingAlias(u)))) ==> after_.types() == before.types().push(*u.typ),
{
    let s = seq![Token::Using, Token::Identifier(name), Token::DoubleLeftBrack] + at + seq![Token::DoubleRightBrack, Token::Equal] + t;
    assert(tok_at(s, 1) == Token::Identifier(name));
    assert(tok_at(s, 2) == Token::DoubleLeftBrack);
    assert(entry_start(s, 1) == 1);
    assert(qual_end(s, 1) == 2);
    assert(entry_end(s, 1) == 2);
    assert(list_last(s, 1) == 1);
    assert(qual_segs(s, 1) =~= seq![name@]);
    let a = after(s, 2);
    assert(a =~= seq![Token::DoubleLeftBrack] + at + seq![Token::DoubleRightBrack, Token::Equal] + t);
    assert forall|k: int| 0 <= k < at.len() implies a[k + 1] == at[k] && !(at[k] is DoubleRightBrack) by {}
    assert(a[at.len() as int + 1] == Token::DoubleRightBrack);
    lemma_attr_end_of(a, at, 0);
    let ae = attr_end(a, 1);
    assert(tok_at(a, ae + 1) == Token::Equal);
    assert(after(a, ae + 2) =~= t);
    assert(a.subrange(1, ae) =~= at);
    assert(after_.names()[before.names().len() as int].0 == name@);
}

proof fn lemma_list_shape(s: Seq<Token>, i: int)
    ensures
        ({
            let ps = list_positions(s, i);
            &&& ps.len() == list_init(s, i).len() + 1
            &&& ps[0] == i
            &&& ps.last() == list_last(s, i)
            &&& forall|k: int| 0 <= k < ps.len() - 1 ==> list_init(s, i)[k] == entry_view(s, ps[k])
            &&& forall|k: int| 0 <= k < ps.len() - 1 ==> ps[k] < ps[k + 1] && tok_at(s, entry_end(s, ps[k])) is Comma
        }),
    decreases s.len() - i,
{
    if entry_continues(s, i) {
        let n = entry_end(s, i) + 1;
        lemma_list_shape(s, n);
        let ps = list_positions(s, i);
        let qs = list_positions(s, n);
        assert(ps == seq![i] + qs);
        assert forall|k: int| 0 <= k < ps.len() - 1 implies list_init(s, i)[k] == entry_view(s, ps[k]) by {
            if k > 0 {
                assert(ps[k] == qs[k - 1]);
            }
        }
        assert forall|k: int| 0 <= k < ps.len() - 1 implies ps[k] < ps[k + 1] && tok_at(s, entry_end(s, ps[k])) is Comma by {
            if k > 0 {
                assert(ps[k] == qs[k - 1]);
                assert(ps[k + 1] == qs[k]);
            }
        }
    }
}

/// A `using` list reads as written: one entry per name, in the order written, each with the
/// qualified name and `typename` flag found at its place, consecutive entries separated by
/// commas. It ends with `ellipsis` exactly when its last name is followed by `...`, and then
/// nothing after the `...` has been read.
pub proof fn lemma_using_list_as_written(s: Seq<Token>, r: Result<(Option<Token>, Option<Declaration>), ParserError>, rest: Seq<Token>)
    requires
        using_result(s, r, rest),
        r matches Ok((_, Some(Declaration::UsingDecl(_)))),
    ensures
        r matches Ok((_, Some(Declaration::UsingDecl(u)))) && ({
            let ps = list_positions(s, 1);
            let e = entry_end(s, ps.last());
            &&& u@.0.len() == ps.len()
            &&& forall|k: int| 0 <= k < ps.len() ==> u@.0[k] == entry_view(s, ps[k])
            &&& forall|k: int| 0 <= k < ps.len() - 1 ==> ps[k] < ps[k + 1] && tok_at(s, entry_end(s, ps[k])) is Comma
            &&& u@.1 <==> tok_at(s, e) is Ellipsis
            &&& u@.1 ==> rest == after(s, e + 1)
        }),
{
    lemma_list_shape(s, 1);
    let ps = list_positions(s, 1);
    if let Ok((_, Some(Declaration::UsingDecl(u)))) = r {
        assert forall|k: int| 0 <= k < ps.len() implies u@.0[k] == entry_view(s, ps[k]) by {
            if k < ps.len() - 1 {
                assert(u@.0[k] == list_init(s, 1)[k]);
            }
        }
    }
}

} // verus!
