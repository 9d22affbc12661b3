use vstd::prelude::*;
use crate::lexer::Lexer;
use crate::token::{Token, tok_at, after, stream, pending_ok, resumes_at, lemma_after_step, lemma_after_after};

verus! {

/// A possibly qualified name such as `A::B::C`, one segment per entry.
#[derive(Debug, PartialEq)]
pub struct Qualified {
    pub names: Vec<Vec<u8>>,
}

impl View for Qualified {
    type V = Seq<Seq<u8>>;

    open spec fn view(&self) -> Seq<Seq<u8>> {
        self.names@.map_values(|v: Vec<u8>| v@)
    }
}

pub open spec fn is_ident(t: Token) -> bool {
    t is Identifier
}

/// The segments of the qualified name that starts at position `i` of `s`.
pub open spec fn qual_segs(s: Seq<Token>, i: int) -> Seq<Seq<u8>>
    decreases s.len() - i,
{
    if 0 <= i < s.len() && is_ident(s[i]) {
        if tok_at(s, i + 1) is ColonColon && is_ident(tok_at(s, i + 2)) {
            seq![s[i]->Identifier_0@] + qual_segs(s, i + 2)
        } else {
            seq![s[i]->Identifier_0@]
        }
    } else {
        Seq::empty()
    }
}

/// Whether the qualified name at `i` breaks off after a `::` with no name following it.
pub open spec fn qual_bad(s: Seq<Token>, i: int) -> bool
    decreases s.len() - i,
{
    if 0 <= i < s.len() && is_ident(s[i]) && tok_at(s, i + 1) is ColonColon {
        if is_ident(tok_at(s, i + 2)) {
            qual_bad(s, i + 2)
        } else {
            true
        }
    } else {
        false
    }
}

/// Position of the first token after the qualified name at `i` (or of the offending token).
pub open spec fn qual_end(s: Seq<Token>, i: int) -> int
    decreases s.len() - i,
{
    if 0 <= i < s.len() && is_ident(s[i]) {
        if tok_at(s, i + 1) is ColonColon {
            if is_ident(tok_at(s, i + 2)) {
                qual_end(s, i + 2)
            } else {
                i + 2
            }
        } else {
            i + 1
        }
    } else {
        i
    }
}

/// A qualified name stands at `i`.
pub open spec fn qual_ok(s: Seq<Token>, i: int) -> bool {
    is_ident(tok_at(s, i)) && !qual_bad(s, i)
}

pub proof fn lemma_qual_end_ge(s: Seq<Token>, i: int)
    requires
        0 <= i,
    ensures
        qual_end(s, i) >= i,
        is_ident(tok_at(s, i)) ==> qual_end(s, i) > i,
    decreases s.len() - i,
{
    if 0 <= i < s.len() && is_ident(s[i]) && tok_at(s, i + 1) is ColonColon && is_ident(
        tok_at(s, i + 2),
    ) {
        lemma_qual_end_ge(s, i + 2);
    }
}

/// Reading a qualified name at `i` of what is left after `k` tokens is reading it at `k + i`.
pub proof fn lemma_qual_shift(s: Seq<Token>, k: int, i: int)
    requires
        0 <= k,
        0 <= i,
    ensures
        qual_segs(after(s, k), i) == qual_segs(s, k + i),
        qual_bad(after(s, k), i) == qual_bad(s, k + i),
        qual_end(after(s, k), i) + k == qual_end(s, k + i),
        qual_ok(after(s, k), i) == qual_ok(s, k + i),
    decreases s.len() - k - i,
{
    lemma_after_after(s, k, i);
    lemma_after_after(s, k, i + 1);
    lemma_after_after(s, k, i + 2);
    let a = after(s, k);
    if 0 <= i < a.len() && is_ident(a[i]) && tok_at(a, i + 1) is ColonColon && is_ident(tok_at(a, i + 2)) {
        lemma_qual_shift(s, k, i + 2);
    }
}

pub struct QualifiedParser {}

impl QualifiedParser {
    pub fn new() -> Self {
        QualifiedParser {  }
    }

    /// Reads a qualified name. The token after it (or the offending token) is handed back.
    pub fn parse(self, tok: Option<Token>, lexer: &mut Lexer) -> (r: (Option<Token>, Option<Qualified>))
        requires
            old(lexer).wf(),
            pending_ok(tok, old(lexer)@),
        ensures
            final(lexer).wf(),
            ({
                let s = stream(tok, old(lexer)@);
                &&& resumes_at(r.0, final(lexer)@, s, qual_end(s, 0))
                &&& (r.1 is Some <==> qual_ok(s, 0))
                &&& (r.1 matches Some(q) ==> q@ == qual_segs(s, 0))
            }),
    {
        let ghost s = stream(tok, lexer@);
        proof { lemma_after_step(s, 0); }
        let t = match tok {
            Some(t) => t,
            None => lexer.next_useful(),
        };
        assert(t == tok_at(s, 0));
        assert(lexer@ == after(s, 1));
        proof { lemma_qual_end_ge(s, 0); }
        let first = match t {
            Token::Identifier(id) => id,
            other => {
                return (Some(other), None);
            },
        };
        let mut names: Vec<Vec<u8>> = Vec::new();
        names.push(first);
        let ghost mut i: int = 0;
        loop
            invariant
                0 <= i,
                lexer.wf(),
                lexer@ == after(s, i + 1),
                i < s.len(),
                is_ident(s[i]),
                names@.len() > 0,
                names@.last()@ == s[i]->Identifier_0@,
                qual_segs(s, 0) == names@.drop_last().map_values(|v: Vec<u8>| v@) + qual_segs(s, i),
                qual_bad(s, 0) == qual_bad(s, i),
                is_ident(tok_at(s, 0)),
                s == stream(tok, old(lexer)@),
                qual_end(s, 0) == qual_end(s, i),
            decreases s.len() - i,
        {
            proof { lemma_after_step(s, i + 1); }
            let t = lexer.next_useful();
            assert(t == tok_at(s, i + 1));
            assert(lexer@ =~= after(s, i + 2));
            assert(pending_ok(Some(t), lexer@));
            match t {
                Token::ColonColon => {},
                other => {
                    proof {
                        assert(qual_end(s, i) == i + 1);
                        assert(!qual_bad(s, i));
                        assert(qual_segs(s, i) == seq![names@.last()@]);
                        assert(names@.map_values(|v: Vec<u8>| v@) =~= names@.drop_last().map_values(|v: Vec<u8>| v@).push(names@.last()@));
                    }
                    let q = Qualified { names };
                    assert(q@ =~= qual_segs(s, 0));

                    return (Some(other), Some(q));
                },
            }
            proof { lemma_after_step(s, i + 2); }
            let t = lexer.next_useful();
            assert(t == tok_at(s, i + 2));
            assert(lexer@ =~= after(s, i + 3));
            assert(pending_ok(Some(t), lexer@));
            match t {
                Token::Identifier(id) => {
                    proof {
                        let old_names = names@;
                        assert(old_names.push(id).drop_last().map_values(|v: Vec<u8>| v@) =~= old_names.drop_last().map_values(|v: Vec<u8>| v@).push(old_names.last()@));
                        assert(qual_segs(s, i) == seq![old_names.last()@] + qual_segs(s, i + 2));
                        assert(old_names.drop_last().map_values(|v: Vec<u8>| v@) + qual_segs(s, i) =~= old_names.drop_last().map_values(|v: Vec<u8>| v@).push(old_names.last()@) + qual_segs(s, i + 2));
                    }
                    names.push(id);
                    proof { i = i + 2; }
                },
                other => {
                    proof {
                        assert(qual_end(s, i) == i + 2);
                        assert(qual_bad(s, i));
                    }
                    return (Some(other), None);
                },
            }
        }
    }
}

} // verus!
