use vstd::prelude::*;
use crate::token::Token;

verus! {

/// The token source: an already scanned sequence of tokens, handed out one at a time.
/// Tokens are stored last first so that taking the next one is a `pop`.
pub struct Lexer {
    pending: Vec<Token>,
    read: usize,
}

pub open spec fn reversed(s: Seq<Token>) -> Seq<Token>
    decreases s.len(),
{
    if s.len() == 0 {
        s
    } else {
        seq![s.last()] + reversed(s.drop_last())
    }
}

proof fn lemma_reversed_len(s: Seq<Token>)
    ensures
        reversed(s).len() == s.len(),
    decreases s.len(),
{
    if s.len() > 0 {
        lemma_reversed_len(s.drop_last());
    }
}

impl View for Lexer {
    type V = Seq<Token>;

    /// The tokens not yet read, in reading order.
    closed spec fn view(&self) -> Seq<Token> {
        reversed(self.pending@)
    }
}

impl Lexer {
    /// Well-formed token sources never hold an end-of-input token, and the tokens read and
    /// unread together can be counted in a `usize`.
    pub open spec fn wf(&self) -> bool {
        &&& forall|i: int| 0 <= i < self@.len() ==> !(self@[i] is Eof)
        &&& self@.len() + self.position() < usize::MAX
    }

    /// How many tokens have been read so far.
    pub closed spec fn position(&self) -> nat {
        self.read as nat
    }

    /// Where reading stands: the number of tokens read so far.
    pub fn span(&self) -> (r: usize)
        ensures
            r == self.position(),
    {
        self.read
    }

    /// A token source over `toks`, read from first to last.
    pub fn from_tokens(toks: Vec<Token>) -> (r: Lexer)
        requires
            forall|i: int| 0 <= i < toks@.len() ==> !(toks@[i] is Eof),
            toks@.len() < usize::MAX,
        ensures
            r@ == toks@,
            r.wf(),
            r.position() == 0,
    {
        let mut toks = toks;
        let ghost orig = toks@;
        let mut pending: Vec<Token> = Vec::new();
        while toks.len() > 0
            invariant
                orig == toks@ + reversed(pending@),
            decreases toks.len(),
        {
            let t = toks.pop().unwrap();
            proof {
                let p2 = pending@.push(t);
                assert(p2.drop_last() =~= pending@);
                assert(reversed(p2) == seq![t] + reversed(pending@));
                assert(orig =~= toks@ + reversed(p2));
            }
            pending.push(t);
        }
        assert(toks@ + reversed(pending@) =~= reversed(pending@));
        let r = Lexer { pending, read: 0 };
        assert(r@ == orig);
        r
    }

    /// Takes the next token; once the source is exhausted this is end-of-input, again and again.
    pub fn next_useful(&mut self) -> (r: Token)
        ensures
            old(self)@.len() == 0 ==> r is Eof && final(self)@ == old(self)@,
            old(self)@.len() > 0 ==> r == old(self)@[0] && final(self)@ == old(self)@.drop_first(),
            old(self).wf() ==> final(self).wf(),
            old(self).wf() ==> (r is Eof <==> old(self)@.len() == 0),
            old(self).wf() && old(self)@.len() > 0 ==> final(self).position() == old(self).position() + 1,
            old(self)@.len() == 0 ==> final(self).position() == old(self).position(),
    {
        proof {
            lemma_reversed_len(self.pending@);
        }
        match self.pending.pop() {
            Some(t) => {
                proof {
                    assert(old(self)@ == seq![t] + reversed(self.pending@));
                    assert(old(self)@.drop_first() =~= reversed(self.pending@));
                    if old(self).wf() {
                        assert(old(self)@[0] == t);
                    }
                }
                if self.read < usize::MAX {
                    self.read = self.read + 1;
                }
                t
            },
            None => Token::Eof,
        }
    }

    /// Whether every token has been read.
    pub fn is_done(&self) -> (r: bool)
        ensures
            r == (self@.len() == 0),
    {
        proof {
            lemma_reversed_len(self.pending@);
        }
        self.pending.len() == 0
    }
}

fn is_ident_start(b: u8) -> bool {
    (b >= 65 && b <= 90) || (b >= 97 && b <= 122) || b == 95
}

fn is_ident_char(b: u8) -> bool {
    is_ident_start(b) || (b >= 48 && b <= 57)
}

fn is_space(b: u8) -> bool {
    b == 32 || b == 9 || b == 10 || b == 13
}

/// Whether `w` spells the keyword `k`.
fn word_is(w: &Vec<u8>, k: &[u8]) -> (r: bool)
    ensures
        r == (w@ == k@),
{
    if w.len() != k.len() {
        return false;
    }
    let mut i: usize = 0;
    while i < w.len()
        invariant
            w@.len() == k@.len(),
            i <= w@.len(),
            forall|j: int| 0 <= j < i ==> w@[j] == k@[j],
        decreases w@.len() - i,
    {
        if w[i] != k[i] {
            return false;
        }
        i = i + 1;
    }
    assert(w@ =~= k@);
    true
}

/// The token for a word: a keyword, or else an identifier.
fn word_token(w: Vec<u8>) -> (r: Token)
    ensures
        !(r is Eof),
{
    if word_is(&w, &[117u8, 115, 105, 110, 103]) {
        Token::Using
    } else if word_is(&w, &[101u8, 110, 117, 109]) {
        Token::Enum
    } else if word_is(&w, &[110u8, 97, 109, 101, 115, 112, 97, 99, 101]) {
        Token::Namespace
    } else if word_is(&w, &[116u8, 121, 112, 101, 110, 97, 109, 101]) {
        Token::Typename
    } else if word_is(&w, &[97u8, 115, 109]) {
        Token::Asm
    } else if word_is(&w, &[114u8, 101, 116, 117, 114, 110]) {
        Token::Return
    } else if word_is(&w, &[119u8, 104, 105, 108, 101]) {
        Token::While
    } else {
        Token::Identifier(w)
    }
}

/// Whether `src[pos..]` starts with `)`, then `delim`, then `"`: the end of a raw string.
fn raw_end_at(src: &[u8], pos: usize, delim: &Vec<u8>) -> (r: bool)
    requires
        pos <= src@.len(),
        src@.len() < usize::MAX,
{
    if pos >= src.len() || src[pos] != 41 {
        return false;
    }
    if src.len() - pos - 1 <= delim.len() {
        return false;
    }
    assert(pos + 1 + delim@.len() < src@.len());
    let mut k: usize = 0;
    while k < delim.len()
        invariant
            src@.len() < usize::MAX,
            pos < src@.len(),
            pos + 1 + delim@.len() < src@.len(),
            k <= delim@.len(),
        decreases delim@.len() - k,
    {
        let idx: usize = pos + 1 + k;
        if src[idx] != delim[k] {
            return false;
        }
        k = k + 1;
    }
    src[pos + 1 + delim.len()] == 34
}

impl Lexer {
    /// Scans source text into tokens: words and keywords, numbers, string literals (with
    /// their escapes resolved) and raw string literals `R"d(...)d"` (taken verbatim),
    /// punctuators; blanks and comments are skipped.
    pub fn new(src: &[u8]) -> (r: Lexer)
        requires
            src@.len() < usize::MAX,
        ensures
            r.wf(),
            r.position() == 0,
            r@.len() <= src@.len(),
    {
        let mut toks: Vec<Token> = Vec::new();
        let n = src.len();
        let mut i: usize = 0;
        while i < n
            invariant
                n == src@.len(),
                n < usize::MAX,
                i <= n,
                toks@.len() <= i,
                forall|j: int| 0 <= j < toks@.len() ==> !(toks@[j] is Eof),
            decreases n - i,
        {
            let b = src[i];
            let start = i;
            if is_space(b) {
                i = i + 1;
                continue;
            }
            if b == 47 && i + 1 < n && src[i + 1] == 47 {
                while i < n && src[i] != 10
                    invariant
                        start < i || i == start,
                        i <= n,
                        n == src@.len(),
                    decreases n - i,
                {
                    i = i + 1;
                }
                continue;
            }
            if b == 47 && i + 1 < n && src[i + 1] == 42 {
                i = i + 2;
                while i < n && !(src[i] == 42 && i + 1 < n && src[i + 1] == 47)
                    invariant
                        start + 2 <= i <= n,
                        n == src@.len(),
                    decreases n - i,
                {
                    i = i + 1;
                }
                i = if i + 1 < n { i + 2 } else { n };
                continue;
            }
            let tok: Token;
            if b == 82 && i + 1 < n && src[i + 1] == 34 {
                // a raw string: R"delim( ... )delim"
                let mut delim: Vec<u8> = Vec::new();
                let mut j: usize = i + 2;
                while j < n && src[j] != 40
                    invariant
                        i + 2 <= j <= n,
                        n == src@.len(),
                    decreases n - j,
                {
                    delim.push(src[j]);
                    j = j + 1;
                }
                j = if j < n { j + 1 } else { n };
                let mut body: Vec<u8> = Vec::new();
                while j < n && !raw_end_at(src, j, &delim)
                    invariant
                        i + 2 <= j <= n,
                        n == src@.len(),
                        n < usize::MAX,
                    decreases n - j,
                {
                    body.push(src[j]);
                    j = j + 1;
                }
                let rem = n - j;
                i = if j < n && delim.len() < rem && rem - delim.len() >= 2 { j + 2 + delim.len() } else { n };
                tok = Token::LiteralString(body);
            } else if is_ident_start(b) {
                let mut w: Vec<u8> = Vec::new();
                w.push(b);
                i = i + 1;
                while i < n && is_ident_char(src[i])
                    invariant
                        start < i <= n,
                        n == src@.len(),
                    decreases n - i,
                {
                    w.push(src[i]);
                    i = i + 1;
                }
                tok = word_token(w);
            } else if b >= 48 && b <= 57 {
                let mut w: Vec<u8> = Vec::new();
                w.push(b);
                i = i + 1;
                while i < n && is_ident_char(src[i])
                    invariant
                        start < i <= n,
                        n == src@.len(),
                    decreases n - i,
                {
                    w.push(src[i]);
                    i = i + 1;
                }
                tok = Token::Number(w);
            } else if b == 34 {
                let mut body: Vec<u8> = Vec::new();
                i = i + 1;
                while i < n && src[i] != 34
                    invariant
                        start < i <= n,
                        n == src@.len(),
                    decreases n - i,
                {
                    if src[i] == 92 && i + 1 < n {
                        let e = src[i + 1];
                        body.push(if e == 110 { 10u8 } else if e == 116 { 9u8 } else { e });
                        i = i + 2;
                    } else {
                        body.push(src[i]);
                        i = i + 1;
                    }
                }
                i = if i < n { i + 1 } else { n };
                tok = Token::LiteralString(body);
            } else {
                let has2 = i + 1 < n;
                let has3 = i + 2 < n;
                let next: u8 = if has2 { src[i + 1] } else { 0 };
                let third: u8 = if has3 { src[i + 2] } else { 0 };
                if has2 && b == 58 && next == 58 {
                    tok = Token::ColonColon;
                    i = i + 2;
                } else if has3 && b == 46 && next == 46 && third == 46 {
                    tok = Token::Ellipsis;
                    i = i + 3;
                } else if has2 && b == 91 && next == 91 {
                    tok = Token::DoubleLeftBrack;
                    i = i + 2;
                } else if has2 && b == 93 && next == 93 {
                    tok = Token::DoubleRightBrack;
                    i = i + 2;
                } else {
                    tok = if b == 58 {
                        Token::Colon
                    } else if b == 44 {
                        Token::Comma
                    } else if b == 46 {
                        Token::Dot
                    } else if b == 91 {
                        Token::LeftBrack
                    } else if b == 93 {
                        Token::RightBrack
                    } else if b == 40 {
                        Token::LeftParen
                    } else if b == 41 {
                        Token::RightParen
                    } else if b == 123 {
                        Token::LeftBrace
                    } else if b == 125 {
                        Token::RightBrace
                    } else if b == 61 {
                        Token::Equal
                    } else if b == 59 {
                        Token::SemiColon
                    } else {
                        Token::Other(b)
                    };
                    i = i + 1;
                }
            }
            assert(i > start);
            toks.push(tok);
        }
        Lexer::from_tokens(toks)
    }
}

} // verus!
