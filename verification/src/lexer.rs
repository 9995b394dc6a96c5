//! Byte-stream tokenizer.
//!
//! A [`Lexer`] walks a byte slice once, from left to right, and hands out one
//! [`Token`] per call. What it returns is stated over the byte sequence and the
//! cursor alone, by [`token_at`] and [`next_pos`].

use vstd::prelude::*;

verus! {

/// A half-open range `[start, end)` of positions in the input.
#[derive(Debug, Clone, Copy, PartialEq, Eq)]
pub struct Span {
    pub start: usize,
    pub end: usize,
}

/// A lexical token. A number carries the range of input bytes that spell it.
#[derive(Debug, Clone, Copy, PartialEq, Eq)]
pub enum Token {
    Number(Span),
    Plus,
    Minus,
    Asterisk,
    Slash,
    LParen,
    RParen,
}

/// ASCII `0`.
pub const ZERO: u8 = 0x30;

/// ASCII `9`.
pub const NINE: u8 = 0x39;

/// ASCII `.`, the decimal point.
pub const POINT: u8 = 0x2e;

/// ASCII `+`.
pub const PLUS: u8 = 0x2b;

/// ASCII `-`.
pub const MINUS: u8 = 0x2d;

/// ASCII `*`.
pub const ASTERISK: u8 = 0x2a;

/// ASCII `/`.
pub const SLASH: u8 = 0x2f;

/// ASCII `(`.
pub const LPAREN: u8 = 0x28;

/// ASCII `)`.
pub const RPAREN: u8 = 0x29;

/// `c` is an ASCII digit.
pub open spec fn is_digit(c: u8) -> bool {
    ZERO <= c <= NINE
}

/// `c` may stand in a numeric run: an ASCII digit or the decimal point.
pub open spec fn is_numeric(c: u8) -> bool {
    is_digit(c) || c == POINT
}

/// The end of the longest stretch of numeric bytes that begins at `from`.
pub open spec fn run_end(s: Seq<u8>, from: int) -> int
    decreases s.len() - from,
{
    if 0 <= from < s.len() && is_numeric(s[from]) {
        run_end(s, from + 1)
    } else {
        from
    }
}

/// `text` spells a decimal number: digits with at most one decimal point, and
/// at least one digit.
pub open spec fn is_decimal(text: Seq<u8>) -> bool {
    &&& forall|i: int| 0 <= i < text.len() ==> is_numeric(#[trigger] text[i])
    &&& exists|i: int| 0 <= i < text.len() && is_digit(#[trigger] text[i])
    &&& forall|i: int, j: int|
        0 <= i < j < text.len() ==> !(#[trigger] text[i] == POINT && #[trigger] text[j] == POINT)
}

/// The token that a single non-numeric byte stands for, if any.
pub open spec fn symbol(c: u8) -> Option<Token> {
    if c == PLUS {
        Some(Token::Plus)
    } else if c == MINUS {
        Some(Token::Minus)
    } else if c == ASTERISK {
        Some(Token::Asterisk)
    } else if c == SLASH {
        Some(Token::Slash)
    } else if c == LPAREN {
        Some(Token::LParen)
    } else if c == RPAREN {
        Some(Token::RParen)
    } else {
        None
    }
}

/// The token that begins at `pos`, or `None` where the input has ended, the
/// byte is not part of the language, or the numeric run is no decimal number.
pub open spec fn token_at(s: Seq<u8>, pos: int) -> Option<Token> {
    if !(0 <= pos < s.len()) {
        None
    } else if is_numeric(s[pos]) {
        let end = run_end(s, pos);
        if is_decimal(s.subrange(pos, end)) {
            Some(Token::Number(Span { start: pos as usize, end: end as usize }))
        } else {
            None
        }
    } else {
        symbol(s[pos])
    }
}

/// Where the cursor stands after one step from `pos`: behind the whole numeric
/// run, or one byte on; at the end of the input it stays.
pub open spec fn next_pos(s: Seq<u8>, pos: int) -> int {
    if !(0 <= pos < s.len()) {
        pos
    } else if is_numeric(s[pos]) {
        run_end(s, pos)
    } else {
        pos + 1
    }
}

/// The tokens read from `pos` on, up to the first step that yields none.
pub open spec fn tokens_from(s: Seq<u8>, pos: int) -> Seq<Token>
    decreases s.len() - pos,
{
    if 0 <= pos < s.len() {
        match token_at(s, pos) {
            Some(token) => {
                proof {
                    lemma_run_end(s, pos);
                }
                seq![token] + tokens_from(s, next_pos(s, pos))
            },
            None => Seq::empty(),
        }
    } else {
        Seq::empty()
    }
}

/// A numeric run ends inside the input, holds numeric bytes only, and cannot be
/// extended.
pub proof fn lemma_run_end(s: Seq<u8>, from: int)
    requires
        0 <= from <= s.len(),
    ensures
        from <= run_end(s, from) <= s.len(),
        forall|i: int| from <= i < run_end(s, from) ==> is_numeric(#[trigger] s[i]),
        run_end(s, from) < s.len() ==> !is_numeric(s[run_end(s, from)]),
        from < s.len() && is_numeric(s[from]) ==> from < run_end(s, from),
    decreases s.len() - from,
{
    if from < s.len() && is_numeric(s[from]) {
        lemma_run_end(s, from + 1);
    }
}

/// While bytes remain, a step moves the cursor forward, and never past the end.
pub proof fn lemma_next_pos(s: Seq<u8>, pos: int)
    requires
        0 <= pos < s.len(),
    ensures
        pos < next_pos(s, pos) <= s.len(),
{
    lemma_run_end(s, pos);
}

/// Where the tokens read from `pos` on end: the position of the first step
/// that yields none.
pub open spec fn scan_end(s: Seq<u8>, pos: int) -> int
    decreases s.len() - pos,
{
    if 0 <= pos < s.len() && token_at(s, pos) is Some {
        proof {
            lemma_run_end(s, pos);
        }
        scan_end(s, next_pos(s, pos))
    } else {
        pos
    }
}

/// The bytes that spell one token of the input `s`.
pub open spec fn token_text(token: Token, s: Seq<u8>) -> Seq<u8> {
    match token {
        Token::Number(span) => s.subrange(span.start as int, span.end as int),
        Token::Plus => seq![PLUS],
        Token::Minus => seq![MINUS],
        Token::Asterisk => seq![ASTERISK],
        Token::Slash => seq![SLASH],
        Token::LParen => seq![LPAREN],
        Token::RParen => seq![RPAREN],
    }
}

/// The bytes that spell the tokens `ts` of the input `s`, one after the other.
pub open spec fn text(ts: Seq<Token>, s: Seq<u8>) -> Seq<u8>
    decreases ts.len(),
{
    if ts.len() == 0 {
        Seq::empty()
    } else {
        token_text(ts[0], s) + text(ts.skip(1), s)
    }
}

/// A number token of the input `s` carries a range that lies in `s`, is not
/// empty and spells a decimal number.
pub open spec fn genuine(token: Token, s: Seq<u8>) -> bool {
    token matches Token::Number(span) ==> {
        &&& span.start < span.end <= s.len()
        &&& is_decimal(s.subrange(span.start as int, span.end as int))
    }
}

/// The token read at `pos` is genuine.
pub proof fn lemma_token_genuine(s: Seq<u8>, pos: int)
    requires
        s.len() <= usize::MAX,
    ensures
        token_at(s, pos) matches Some(token) ==> genuine(token, s),
{
    if 0 <= pos < s.len() {
        lemma_run_end(s, pos);
    }
}

/// Every token read from `pos` on is genuine.
pub proof fn lemma_tokens_genuine(s: Seq<u8>, pos: int)
    requires
        0 <= pos <= s.len() <= usize::MAX,
    ensures
        forall|i: int|
            0 <= i < tokens_from(s, pos).len() ==> genuine(#[trigger] tokens_from(s, pos)[i], s),
    decreases s.len() - pos,
{
    if pos < s.len() && token_at(s, pos) is Some {
        let ts = tokens_from(s, pos);
        let rest = tokens_from(s, next_pos(s, pos));
        lemma_next_pos(s, pos);
        lemma_token_genuine(s, pos);
        lemma_tokens_genuine(s, next_pos(s, pos));
        assert forall|i: int| 0 <= i < ts.len() implies genuine(#[trigger] ts[i], s) by {
            if i > 0 {
                assert(ts[i] == rest[i - 1]);
            }
        }
    }
}

/// There are no more tokens than bytes: reading token after token ends after
/// at most as many steps as bytes remain.
pub proof fn lemma_tokens_len(s: Seq<u8>, pos: int)
    requires
        0 <= pos <= s.len(),
    ensures
        tokens_from(s, pos).len() <= s.len() - pos,
    decreases s.len() - pos,
{
    if pos < s.len() && token_at(s, pos) is Some {
        lemma_next_pos(s, pos);
        lemma_tokens_len(s, next_pos(s, pos));
    }
}

/// The tokens read from `pos` on spell the input from `pos` to where they
/// end, byte for byte: nothing is skipped and nothing is read twice.
pub proof fn lemma_tokens_text(s: Seq<u8>, pos: int)
    requires
        0 <= pos <= s.len() <= usize::MAX,
    ensures
        pos <= scan_end(s, pos) <= s.len(),
        text(tokens_from(s, pos), s) == s.subrange(pos, scan_end(s, pos)),
    decreases s.len() - pos,
{
    if pos < s.len() && token_at(s, pos) is Some {
        let next = next_pos(s, pos);
        let token = token_at(s, pos).unwrap();
        lemma_next_pos(s, pos);
        lemma_tokens_text(s, next);
        let ts = tokens_from(s, pos);
        assert(ts.skip(1) =~= tokens_from(s, next));
        assert(token_text(token, s) =~= s.subrange(pos, next));
        assert(s.subrange(pos, next) + s.subrange(next, scan_end(s, next)) =~= s.subrange(
            pos,
            scan_end(s, pos),
        ));
    } else {
        assert(text(tokens_from(s, pos), s) =~= s.subrange(pos, pos));
    }
}

/// A one-pass cursor over a byte slice.
#[derive(Debug)]
pub struct Lexer<'a> {
    input: &'a [u8],
    pos: usize,
}

impl<'a> Lexer<'a> {
    /// The cursor never leaves the input.
    #[verifier::type_invariant]
    spec fn in_bounds(self) -> bool {
        self.pos <= self.input@.len()
    }

    /// The bytes being read.
    pub closed spec fn bytes(&self) -> Seq<u8> {
        self.input@
    }

    /// The cursor: the position of the next byte to read.
    pub closed spec fn position(&self) -> int {
        self.pos as int
    }

    /// A lexer at the first byte of `input`.
    pub fn new(input: &'a [u8]) -> (lexer: Self)
        ensures
            lexer.bytes() == input@,
            lexer.position() == 0,
    {
        Self { input, pos: 0 }
    }

    /// Reads the token at the cursor and moves the cursor behind it.
    pub fn token(&mut self) -> (token: Option<Token>)
        ensures
            token == token_at(old(self).bytes(), old(self).position()),
            final(self).position() == next_pos(old(self).bytes(), old(self).position()),
            final(self).bytes() == old(self).bytes(),
            old(self).position() < old(self).bytes().len()
                ==> old(self).position() < final(self).position(),
            final(self).position() <= final(self).bytes().len(),
            token matches Some(t) ==> genuine(t, old(self).bytes()),
    {
        proof {
            use_type_invariant(&*self);
            if self.pos < self.input@.len() {
                lemma_next_pos(self.input@, self.pos as int);
            }
            assert(self.input@.len() == self.input.len());
            lemma_token_genuine(self.input@, self.pos as int);
        }
        let current = *self.curr()?;
        let token = if Self::is_number(current) {
            let start = self.pos;
            let mut digit = current != POINT;
            let mut point = current == POINT;
            let mut repeated = false;
            while self.peek().is_some() && Self::is_number(*self.peek().unwrap())
                invariant
                    self.bytes() == old(self).bytes(),
                    start == old(self).pos,
                    start <= self.pos < self.input@.len(),
                    is_numeric(self.input@[self.pos as int]),
                    run_end(self.input@, start as int) == run_end(self.input@, self.pos as int),
                    forall|i: int| start <= i <= self.pos ==> is_numeric(#[trigger] self.input@[i]),
                    digit <==> exists|i: int|
                        start <= i <= self.pos && is_digit(#[trigger] self.input@[i]),
                    point <==> exists|i: int|
                        start <= i <= self.pos && #[trigger] self.input@[i] == POINT,
                    repeated <==> exists|i: int, j: int|
                        start <= i < j <= self.pos && #[trigger] self.input@[i] == POINT
                            && #[trigger] self.input@[j] == POINT,
                decreases self.input@.len() - self.pos,
            {
                self.next();
                let c = *self.curr().unwrap();
                if c == POINT {
                    repeated = repeated || point;
                    point = true;
                } else {
                    digit = true;
                }
            }
            assert(self.pos < self.input.len());
            let end = self.pos + 1;
            proof {
                let s = self.input@;
                let text = s.subrange(start as int, end as int);
                assert(run_end(s, self.pos as int) == run_end(s, end as int));
                assert(run_end(s, start as int) == end);
                assert forall|i: int| 0 <= i < text.len() implies is_numeric(
                    #[trigger] text[i],
                ) by {
                    assert(text[i] == s[start + i]);
                }
                if digit {
                    let k = choose|i: int| start <= i <= self.pos && is_digit(#[trigger] s[i]);
                    assert(is_digit(text[k - start]));
                }
                if is_decimal(text) {
                    let k = choose|i: int| 0 <= i < text.len() && is_digit(#[trigger] text[i]);
                    assert(is_digit(s[start + k]));
                }
                if repeated {
                    let (a, b) = choose|i: int, j: int|
                        start <= i < j <= self.pos && #[trigger] s[i] == POINT && #[trigger] s[j]
                            == POINT;
                    assert(text[a - start] == POINT && text[b - start] == POINT);
                }
                if !repeated {
                    assert forall|i: int, j: int| 0 <= i < j < text.len() implies !(
                    #[trigger] text[i] == POINT && #[trigger] text[j] == POINT) by {
                        assert(text[i] == s[start + i]);
                        assert(text[j] == s[start + j]);
                    }
                }
                assert(is_decimal(text) <==> digit && !repeated);
            }
            if digit && !repeated {
                Some(Token::Number(Span { start, end }))
            } else {
                None
            }
        } else {
            if current == PLUS {
                Some(Token::Plus)
            } else if current == MINUS {
                Some(Token::Minus)
            } else if current == ASTERISK {
                Some(Token::Asterisk)
            } else if current == SLASH {
                Some(Token::Slash)
            } else if current == LPAREN {
                Some(Token::LParen)
            } else if current == RPAREN {
                Some(Token::RParen)
            } else {
                None
            }
        };
        self.next();
        token
    }

    /// Moves the cursor one byte on, unless it stands at the end already.
    pub fn next(&mut self)
        ensures
            final(self).bytes() == old(self).bytes(),
            final(self).position() == if old(self).position() < old(self).bytes().len() {
                old(self).position() + 1
            } else {
                old(self).position()
            },
    {
        proof {
            use_type_invariant(&*self);
        }
        if self.pos < self.input.len() {
            self.pos += 1;
        }
    }

    /// The byte at the cursor.
    pub fn curr(&mut self) -> (byte: Option<&u8>)
        ensures
            *final(self) == *old(self),
            byte == if old(self).position() < old(self).bytes().len() {
                Some(&old(self).bytes()[old(self).position()])
            } else {
                None
            },
    {
        self.input.get(self.pos)
    }

    /// The byte behind the one at the cursor.
    pub fn peek(&mut self) -> (byte: Option<&u8>)
        ensures
            *final(self) == *old(self),
            byte == if old(self).position() + 1 < old(self).bytes().len() {
                Some(&old(self).bytes()[old(self).position() + 1])
            } else {
                None
            },
    {
        proof {
            use_type_invariant(&*self);
        }
        if self.pos < self.input.len() {
            self.input.get(self.pos + 1)
        } else {
            None
        }
    }

    /// Whether `c` belongs to a numeric run.
    pub fn is_number(c: u8) -> (numeric: bool)
        ensures
            numeric == is_numeric(c),
    {
        (ZERO <= c && c <= NINE) || c == POINT
    }
}

} // verus!
