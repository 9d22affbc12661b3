use vstd::prelude::*;

verus! {

/// A lexical token. Names and literal bodies are kept as raw bytes.
#[derive(Debug, PartialEq)]
pub enum Token {
    Using,
    Enum,
    Namespace,
    Typename,
    Asm,
    Return,
    While,
    Identifier(Vec<u8>),
    Number(Vec<u8>),
    LiteralString(Vec<u8>),
    ColonColon,
    Colon,
    Comma,
    Ellipsis,
    Dot,
    DoubleLeftBrack,
    DoubleRightBrack,
    LeftBrack,
    RightBrack,
    LeftParen,
    RightParen,
    LeftBrace,
    RightBrace,
    Equal,
    SemiColon,
    Other(u8),
    Eof,
}

/// The token at position `i` of a stream; past its end the stream reads as end-of-input.
pub open spec fn tok_at(s: Seq<Token>, i: int) -> Token {
    if 0 <= i < s.len() {
        s[i]
    } else {
        Token::Eof
    }
}

/// What is left of a stream once its first `k` tokens are consumed.
pub open spec fn after(s: Seq<Token>, k: int) -> Seq<Token> {
    if k <= 0 {
        s
    } else if k <= s.len() {
        s.subrange(k, s.len() as int)
    } else {
        Seq::empty()
    }
}

/// The tokens a parser sees: its pending lookahead token, if any, then the unread rest.
/// A pending end-of-input token stands for the end of the rest.
pub open spec fn stream(tok: Option<Token>, rest: Seq<Token>) -> Seq<Token> {
    match tok {
        Some(t) => if t is Eof {
            rest
        } else {
            seq![t] + rest
        },
        None => rest,
    }
}

/// A pending end-of-input token is only ever held once the rest is exhausted.
pub open spec fn pending_ok(tok: Option<Token>, rest: Seq<Token>) -> bool {
    tok matches Some(Token::Eof) ==> rest.len() == 0
}

/// The stream seen after handing back `tok` over `rest` is the input with its first `k` tokens
/// consumed, and `tok` is the token found at `k`.
pub open spec fn resumes_at(tok: Option<Token>, rest: Seq<Token>, s: Seq<Token>, k: int) -> bool {
    &&& tok == Some(tok_at(s, k))
    &&& rest == after(s, k + 1)
    &&& pending_ok(tok, rest)
}

/// Reading one token from what is left after `k` tokens gives the token at `k`,
/// and leaves what is left after `k + 1`.
pub proof fn lemma_after_step(s: Seq<Token>, k: int)
    requires
        0 <= k,
    ensures
        after(s, k).len() > 0 ==> after(s, k)[0] == tok_at(s, k) && after(s, k).drop_first()
            =~= after(s, k + 1),
        after(s, k).len() == 0 ==> tok_at(s, k) is Eof && after(s, k + 1).len() == 0,
        after(s, 0) == s,
{
}

/// No end-of-input token stands inside the sequence.
pub open spec fn no_eof(s: Seq<Token>) -> bool {
    forall|i: int| 0 <= i < s.len() ==> !(s[i] is Eof)
}

/// A pending token over an end-of-input-free rest gives an end-of-input-free stream.
pub proof fn lemma_stream_no_eof(tok: Option<Token>, rest: Seq<Token>)
    requires
        no_eof(rest),
    ensures
        no_eof(stream(tok, rest)),
        tok matches Some(t) && !(t is Eof) ==> stream(tok, rest).len() == rest.len() + 1,
        !(tok matches Some(t) && !(t is Eof)) ==> stream(tok, rest) == rest,
{
    if let Some(t) = tok {
        if !(t is Eof) {
            assert forall|i: int| 0 <= i < stream(tok, rest).len() implies !(stream(tok, rest)[i] is Eof) by {
                if i > 0 {
                    assert(stream(tok, rest)[i] == rest[i - 1]);
                }
            }
        }
    }
}

/// Handing back the token at `k` over what follows it is the stream from `k` on.
pub proof fn lemma_resumes_stream(tok: Option<Token>, rest: Seq<Token>, s: Seq<Token>, k: int)
    requires
        0 <= k,
        no_eof(s),
        resumes_at(tok, rest, s, k),
    ensures
        stream(tok, rest) =~= after(s, k),
        no_eof(after(s, k)),
{
    if k < s.len() {
        assert(after(s, k) =~= seq![s[k]] + after(s, k + 1));
    }
}

/// Consuming `a` tokens and then `b` more is consuming `a + b`.
pub proof fn lemma_after_after(s: Seq<Token>, a: int, b: int)
    requires
        0 <= a,
        0 <= b,
    ensures
        after(after(s, a), b) =~= after(s, a + b),
        tok_at(after(s, a), b) == tok_at(s, a + b),
        no_eof(s) ==> no_eof(after(s, a)),
{
}

} // verus!
