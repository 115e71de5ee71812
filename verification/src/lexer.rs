//! The lexer: source characters to tokens. The meaning of a character
//! sequence is fixed by the spec-level [`lex_from`]; the executable
//! [`Lexer::tokenize`] is proved to return exactly those tokens, or the
//! first lexing error.

use vstd::prelude::*;

verus! {

/// The tokens of the source language.
#[derive(Debug)]
pub enum Token {
    Number(i32),
    Plus,
    Minus,
    Star,
    Slash,
    LPara,
    RPara,
    Define,
    Ident(String),
    If,
    Equal,
    NotEqual,
    Less,
    Greater,
    LessEq,
    GreaterEq,
    While,
    Percent,
    SlashSlash,
    StarStar,
}

/// The mathematical value of a token: identifier names become character
/// sequences.
pub enum TokenV {
    Number(i32),
    Plus,
    Minus,
    Star,
    Slash,
    LPara,
    RPara,
    Define,
    Ident(Seq<char>),
    If,
    Equal,
    NotEqual,
    Less,
    Greater,
    LessEq,
    GreaterEq,
    While,
    Percent,
    SlashSlash,
    StarStar,
}

impl View for Token {
    type V = TokenV;

    open spec fn view(&self) -> TokenV {
        match self {
            Token::Number(n) => TokenV::Number(*n),
            Token::Plus => TokenV::Plus,
            Token::Minus => TokenV::Minus,
            Token::Star => TokenV::Star,
            Token::Slash => TokenV::Slash,
            Token::LPara => TokenV::LPara,
            Token::RPara => TokenV::RPara,
            Token::Define => TokenV::Define,
            Token::Ident(s) => TokenV::Ident(s@),
            Token::If => TokenV::If,
            Token::Equal => TokenV::Equal,
            Token::NotEqual => TokenV::NotEqual,
            Token::Less => TokenV::Less,
            Token::Greater => TokenV::Greater,
            Token::LessEq => TokenV::LessEq,
            Token::GreaterEq => TokenV::GreaterEq,
            Token::While => TokenV::While,
            Token::Percent => TokenV::Percent,
            Token::SlashSlash => TokenV::SlashSlash,
            Token::StarStar => TokenV::StarStar,
        }
    }
}

/// The values of a token sequence.
pub open spec fn toks_view(ts: Seq<Token>) -> Seq<TokenV> {
    ts.map_values(|t: Token| t@)
}

/// Indexing a token sequence's values is viewing the indexed token.
pub broadcast proof fn lemma_toks_view_index(ts: Seq<Token>, i: int)
    requires
        0 <= i < ts.len(),
    ensures
        #[trigger] toks_view(ts)[i] == ts[i]@,
{
}

/// A token sequence's values keep its length.
pub broadcast proof fn lemma_toks_view_len(ts: Seq<Token>)
    ensures
        #[trigger] toks_view(ts).len() == ts.len(),
{
}

/// The ways a character sequence can fail to lex.
#[derive(Clone, Copy, Debug, PartialEq, Eq, Structural)]
pub enum LexError {
    /// A character that no token can start with.
    InvalidCharacter(char),
    /// `=` not followed by a second `=`.
    LoneEquals,
    /// `!` not followed by `=`.
    LoneBang,
    /// An integer literal that exceeds `i32::MAX`.
    NumberTooLarge,
}

/// The characters skipped between tokens: space, tab, newline.
pub open spec fn is_space_char(c: char) -> bool {
    c == ' ' || c == '\t' || c == '\n'
}

/// ASCII decimal digits.
pub open spec fn is_digit_char(c: char) -> bool {
    48 <= c as u32 <= 57
}

/// ASCII letters and underscore: the characters an identifier can start
/// with.
pub open spec fn is_ident_start_char(c: char) -> bool {
    (65 <= c as u32 <= 90) || (97 <= c as u32 <= 122) || c == '_'
}

/// The characters an identifier can continue with: letters, digits,
/// underscore.
pub open spec fn is_ident_char(c: char) -> bool {
    is_ident_start_char(c) || is_digit_char(c)
}

/// The numeric value of a digit character.
pub open spec fn digit_val(c: char) -> int {
    c as u32 - 48
}

/// The index just after the run of digits that starts at `i`.
pub open spec fn digits_end(cs: Seq<char>, i: int) -> int
    decreases cs.len() - i,
{
    if i < cs.len() && is_digit_char(cs[i]) {
        digits_end(cs, i + 1)
    } else {
        i
    }
}

/// The index just after the run of identifier characters that starts at `i`.
pub open spec fn ident_end(cs: Seq<char>, i: int) -> int
    decreases cs.len() - i,
{
    if i < cs.len() && is_ident_char(cs[i]) {
        ident_end(cs, i + 1)
    } else {
        i
    }
}

/// The base-10 value of the digits `cs[i .. j]`.
pub open spec fn num_val(cs: Seq<char>, i: int, j: int) -> int
    decreases j - i,
{
    if i >= j {
        0
    } else {
        num_val(cs, i, j - 1) * 10 + digit_val(cs[j - 1])
    }
}

/// Every character in `cs[i .. j]` is a digit.
pub open spec fn all_digits(cs: Seq<char>, i: int, j: int) -> bool {
    forall|k: int| i <= k < j ==> is_digit_char(#[trigger] cs[k])
}

/// The token an identifier lexes to: the reserved words become keyword
/// tokens, everything else stays an identifier.
pub open spec fn keyword_token(name: Seq<char>) -> TokenV {
    if name == "define"@ {
        TokenV::Define
    } else if name == "if"@ {
        TokenV::If
    } else if name == "while"@ {
        TokenV::While
    } else {
        TokenV::Ident(name)
    }
}

/// Prefix a token sequence onto a lexing result; errors pass through.
pub open spec fn lex_prepend(ts: Seq<TokenV>, r: Result<Seq<TokenV>, LexError>) -> Result<
    Seq<TokenV>,
    LexError,
> {
    match r {
        Ok(rest) => Ok(ts + rest),
        Err(e) => Err(e),
    }
}

/// Prefix one token onto a lexing result.
pub open spec fn lex_cons(t: TokenV, r: Result<Seq<TokenV>, LexError>) -> Result<
    Seq<TokenV>,
    LexError,
> {
    lex_prepend(seq![t], r)
}

proof fn lemma_digits_end_bounds(cs: Seq<char>, i: int)
    requires
        0 <= i <= cs.len(),
    ensures
        i <= digits_end(cs, i) <= cs.len(),
    decreases cs.len() - i,
{
    if i < cs.len() && is_digit_char(cs[i]) {
        lemma_digits_end_bounds(cs, i + 1);
    }
}

proof fn lemma_ident_end_bounds(cs: Seq<char>, i: int)
    requires
        0 <= i <= cs.len(),
    ensures
        i <= ident_end(cs, i) <= cs.len(),
    decreases cs.len() - i,
{
    if i < cs.len() && is_ident_char(cs[i]) {
        lemma_ident_end_bounds(cs, i + 1);
    }
}

/// All characters of a digit run are digits.
proof fn lemma_digits_end_all(cs: Seq<char>, i: int)
    requires
        0 <= i <= cs.len(),
    ensures
        all_digits(cs, i, digits_end(cs, i)),
    decreases cs.len() - i,
{
    if i < cs.len() && is_digit_char(cs[i]) {
        lemma_digits_end_all(cs, i + 1);
        lemma_digits_end_bounds(cs, i + 1);
    }
}

/// The value of a digit run only grows as more digits are taken.
proof fn lemma_num_val_nonneg(cs: Seq<char>, i: int, j: int)
    requires
        all_digits(cs, i, j),
    ensures
        num_val(cs, i, j) >= 0,
    decreases j - i,
{
    if i < j {
        lemma_num_val_nonneg(cs, i, j - 1);
    }
}

proof fn lemma_num_val_mono(cs: Seq<char>, i: int, j1: int, j2: int)
    requires
        i <= j1 <= j2,
        all_digits(cs, i, j2),
    ensures
        num_val(cs, i, j1) <= num_val(cs, i, j2),
    decreases j2 - j1,
{
    if j1 < j2 {
        lemma_num_val_mono(cs, i, j1, j2 - 1);
        lemma_num_val_nonneg(cs, i, j2 - 1);
    }
}

/// The tokens of `cs` from position `i` on, or the first lexing error. This
/// is the reference meaning of the surface syntax: whitespace separates
/// tokens, two-character operators win over their one-character prefixes,
/// and a lone `=` or `!` is malformed.
pub open spec fn lex_from(cs: Seq<char>, i: int) -> Result<Seq<TokenV>, LexError>
    decreases cs.len() - i,
        when 0 <= i <= cs.len()
        via lex_from_dec
{
    if i >= cs.len() {
        Ok(Seq::empty())
    } else {
        let c = cs[i];
        if is_space_char(c) {
            lex_from(cs, i + 1)
        } else if is_digit_char(c) {
            let j = digits_end(cs, i);
            let v = num_val(cs, i, j);
            if v > i32::MAX {
                Err(LexError::NumberTooLarge)
            } else {
                lex_cons(TokenV::Number(v as i32), lex_from(cs, j))
            }
        } else if is_ident_start_char(c) {
            let j = ident_end(cs, i);
            lex_cons(keyword_token(cs.subrange(i, j)), lex_from(cs, j))
        } else if c == '+' {
            lex_cons(TokenV::Plus, lex_from(cs, i + 1))
        } else if c == '-' {
            lex_cons(TokenV::Minus, lex_from(cs, i + 1))
        } else if c == '*' {
            if i + 1 < cs.len() && cs[i + 1] == '*' {
                lex_cons(TokenV::StarStar, lex_from(cs, i + 2))
            } else {
                lex_cons(TokenV::Star, lex_from(cs, i + 1))
            }
        } else if c == '/' {
            if i + 1 < cs.len() && cs[i + 1] == '/' {
                lex_cons(TokenV::SlashSlash, lex_from(cs, i + 2))
            } else {
                lex_cons(TokenV::Slash, lex_from(cs, i + 1))
            }
        } else if c == '%' {
            lex_cons(TokenV::Percent, lex_from(cs, i + 1))
        } else if c == '(' {
            lex_cons(TokenV::LPara, lex_from(cs, i + 1))
        } else if c == ')' {
            lex_cons(TokenV::RPara, lex_from(cs, i + 1))
        } else if c == '=' {
            if i + 1 < cs.len() && cs[i + 1] == '=' {
                lex_cons(TokenV::Equal, lex_from(cs, i + 2))
            } else {
                Err(LexError::LoneEquals)
            }
        } else if c == '!' {
            if i + 1 < cs.len() && cs[i + 1] == '=' {
                lex_cons(TokenV::NotEqual, lex_from(cs, i + 2))
            } else {
                Err(LexError::LoneBang)
            }
        } else if c == '<' {
            if i + 1 < cs.len() && cs[i + 1] == '=' {
                lex_cons(TokenV::LessEq, lex_from(cs, i + 2))
            } else {
                lex_cons(TokenV::Less, lex_from(cs, i + 1))
            }
        } else if c == '>' {
            if i + 1 < cs.len() && cs[i + 1] == '=' {
                lex_cons(TokenV::GreaterEq, lex_from(cs, i + 2))
            } else {
                lex_cons(TokenV::Greater, lex_from(cs, i + 1))
            }
        } else {
            Err(LexError::InvalidCharacter(c))
        }
    }
}

#[via_fn]
proof fn lex_from_dec(cs: Seq<char>, i: int) {
    if 0 <= i < cs.len() {
        if is_digit_char(cs[i]) {
            lemma_digits_end_bounds(cs, i + 1);
        }
        if is_ident_start_char(cs[i]) {
            lemma_ident_end_bounds(cs, i + 1);
        }
    }
}

/// The lexer walks the characters of its input once, left to right.
pub struct Lexer {
    input: String,
    pos: usize,
}

impl Lexer {
    /// The characters being lexed.
    pub closed spec fn src(&self) -> Seq<char> {
        self.input@
    }

    /// The current position, as an index into [`Lexer::src`].
    pub closed spec fn at(&self) -> int {
        self.pos as int
    }

    /// The position is inside the input (or just past it) and the input is
    /// addressable.
    pub open spec fn wf(&self) -> bool {
        0 <= self.at() <= self.src().len() <= usize::MAX
    }

    /// A lexer at the start of `input`.
    pub fn new(input: &str) -> (l: Lexer)
        ensures
            l.src() == input@,
            l.at() == 0,
            l.wf(),
    {
        let n = input.unicode_len();
        Lexer { input: String::from_str(input), pos: 0 }
    }

    /// Number of characters in the input.
    fn length(&self) -> (n: usize)
        ensures
            n == self.src().len(),
    {
        self.input.as_str().unicode_len()
    }

    /// The character at the current position, if any.
    fn peek(&self) -> (r: Option<char>)
        requires
            self.wf(),
        ensures
            r == if self.at() < self.src().len() {
                Some(self.src()[self.at()])
            } else {
                None::<char>
            },
    {
        if self.pos < self.input.as_str().unicode_len() {
            Some(self.input.as_str().get_char(self.pos))
        } else {
            None
        }
    }

    /// Move past the current character.
    fn advance(&mut self)
        requires
            old(self).wf(),
            old(self).at() < old(self).src().len(),
        ensures
            final(self).src() == old(self).src(),
            final(self).at() == old(self).at() + 1,
            final(self).wf(),
    {
        self.pos = self.pos + 1;
    }

    /// Read a run of digits as a base-10 integer; reports `NumberTooLarge`
    /// exactly when the run's value exceeds `i32::MAX`.
    fn read_number(&mut self) -> (r: Result<i32, LexError>)
        requires
            old(self).wf(),
        ensures
            final(self).src() == old(self).src(),
            final(self).wf(),
            match r {
                Ok(v) => {
                    &&& final(self).at() == digits_end(old(self).src(), old(self).at())
                    &&& v as int == num_val(old(self).src(), old(self).at(), final(self).at())
                    &&& v >= 0
                },
                Err(e) => {
                    &&& e == LexError::NumberTooLarge
                    &&& num_val(
                        old(self).src(),
                        old(self).at(),
                        digits_end(old(self).src(), old(self).at()),
                    ) > i32::MAX
                },
            },
    {
        let ghost src = self.src();
        let ghost start = self.at();
        let mut acc: i64 = 0;
        let n = self.length();
        loop
            invariant
                src == old(self).src(),
                start == old(self).at(),
                self.wf(),
                self.src() == src,
                n == src.len(),
                start <= self.at() <= src.len(),
                all_digits(src, start, self.at()),
                digits_end(src, start) == digits_end(src, self.at()),
                acc == num_val(src, start, self.at()),
                0 <= acc <= i32::MAX,
            ensures
                self.wf(),
                self.src() == src,
                start <= self.at() <= src.len(),
                digits_end(src, start) == self.at(),
                acc == num_val(src, start, self.at()),
                0 <= acc <= i32::MAX,
            decreases src.len() - self.at(),
        {
            if self.pos >= n {
                break ;
            }
            let c = self.input.as_str().get_char(self.pos);
            if !is_digit_exec(c) {
                break ;
            }
            let d: i64 = (c as u32) as i64 - 48;
            let acc2: i64 = acc * 10 + d;
            proof {
                assert(num_val(src, start, self.at() + 1) == num_val(src, start, self.at()) * 10
                    + digit_val(src[self.at()]));
            }
            if acc2 > 2147483647i64 {
                proof {
                    lemma_digits_end_bounds(src, self.at() + 1);
                    lemma_digits_end_all(src, start);
                    lemma_num_val_mono(src, start, self.at() + 1, digits_end(src, start));
                }
                return Err(LexError::NumberTooLarge);
            }
            acc = acc2;
            self.advance();
        }
        Ok(acc as i32)
    }

    /// Read a run of identifier characters as a string.
    fn read_identifier(&mut self) -> (r: String)
        requires
            old(self).wf(),
        ensures
            final(self).src() == old(self).src(),
            final(self).wf(),
            final(self).at() == ident_end(old(self).src(), old(self).at()),
            old(self).at() <= final(self).at(),
            r@ == old(self).src().subrange(old(self).at(), final(self).at()),
    {
        let ghost src = self.src();
        let start = self.pos;
        let n = self.length();
        loop
            invariant
                src == old(self).src(),
                start as int == old(self).at(),
                self.wf(),
                self.src() == src,
                n == src.len(),
                start <= self.at() <= src.len(),
                ident_end(src, start as int) == ident_end(src, self.at()),
            ensures
                self.wf(),
                self.src() == src,
                start <= self.at() <= src.len(),
                ident_end(src, start as int) == self.at(),
            decreases src.len() - self.at(),
        {
            if self.pos >= n {
                break ;
            }
            let c = self.input.as_str().get_char(self.pos);
            if !is_ident_exec(c) {
                break ;
            }
            self.advance();
        }
        let sub = self.input.as_str().substring_char(start, self.pos);
        String::from_str(sub)
    }

    /// Lex the whole input from the current position: the resulting tokens
    /// are exactly what [`lex_from`] assigns to the characters, and the
    /// first malformed piece of input is reported as its error.
    pub fn tokenize(&mut self) -> (r: Result<Vec<Token>, LexError>)
        requires
            old(self).wf(),
        ensures
            match lex_from(old(self).src(), old(self).at()) {
                Ok(ts) => r matches Ok(v) && toks_view(v@) == ts,
                Err(e) => r == Err::<Vec<Token>, LexError>(e),
            },
    {
        let ghost src = self.src();
        let ghost at0 = self.at();
        let mut tokens: Vec<Token> = Vec::new();
        let n = self.length();
        loop
            invariant
                src == old(self).src(),
                at0 == old(self).at(),
                self.wf(),
                self.src() == src,
                n == src.len(),
                at0 <= self.at(),
                lex_from(src, at0) == lex_prepend(toks_view(tokens@), lex_from(src, self.at())),
            ensures
                self.at() == src.len(),
                lex_from(src, at0) == lex_prepend(toks_view(tokens@), lex_from(src, self.at())),
            decreases src.len() - self.at(),
        {
            if self.pos >= n {
                break ;
            }
            let ghost p = self.at();
            let c = self.input.as_str().get_char(self.pos);
            if is_space_exec(c) {
                self.advance();
            } else if is_digit_exec(c) {
                match self.read_number() {
                    Ok(v) => {
                        let tok = Token::Number(v);
                        proof {
                            lemma_digits_end_bounds(src, p + 1);
                            lemma_lex_push(src, at0, p, tokens@, tok, lex_from(src, self.at()));
                        }
                        tokens.push(tok);
                    },
                    Err(e) => {
                        proof {
                            assert(lex_from(src, p) == Err::<Seq<TokenV>, LexError>(
                                LexError::NumberTooLarge,
                            ));
                        }
                        return Err(e);
                    },
                }
            } else if is_ident_start_exec(c) {
                let name = self.read_identifier();
                let tok: Token = if string_eq_literal(&name, "define") {
                    Token::Define
                } else if string_eq_literal(&name, "if") {
                    Token::If
                } else if string_eq_literal(&name, "while") {
                    Token::While
                } else {
                    Token::Ident(name)
                };
                proof {
                    lemma_ident_end_bounds(src, p + 1);
                    assert(tok@ == keyword_token(src.subrange(p, self.at())));
                    lemma_lex_push(src, at0, p, tokens@, tok, lex_from(src, self.at()));
                }
                tokens.push(tok);
            } else if c == '+' {
                self.advance();
                let tok = Token::Plus;
                proof {
                    lemma_lex_push(src, at0, p, tokens@, tok, lex_from(src, self.at()));
                }
                tokens.push(tok);
            } else if c == '-' {
                self.advance();
                let tok = Token::Minus;
                proof {
                    lemma_lex_push(src, at0, p, tokens@, tok, lex_from(src, self.at()));
                }
                tokens.push(tok);
            } else if c == '*' {
                self.advance();
                let two = match self.peek() {
                    Some(c2) => c2 == '*',
                    None => false,
                };
                let tok: Token = if two {
                    self.advance();
                    Token::StarStar
                } else {
                    Token::Star
                };
                proof {
                    lemma_lex_push(src, at0, p, tokens@, tok, lex_from(src, self.at()));
                }
                tokens.push(tok);
            } else if c == '/' {
                self.advance();
                let two = match self.peek() {
                    Some(c2) => c2 == '/',
                    None => false,
                };
                let tok: Token = if two {
                    self.advance();
                    Token::SlashSlash
                } else {
                    Token::Slash
                };
                proof {
                    lemma_lex_push(src, at0, p, tokens@, tok, lex_from(src, self.at()));
                }
                tokens.push(tok);
            } else if c == '%' {
                self.advance();
                let tok = Token::Percent;
                proof {
                    lemma_lex_push(src, at0, p, tokens@, tok, lex_from(src, self.at()));
                }
                tokens.push(tok);
            } else if c == '(' {
                self.advance();
                let tok = Token::LPara;
                proof {
                    lemma_lex_push(src, at0, p, tokens@, tok, lex_from(src, self.at()));
                }
                tokens.push(tok);
            } else if c == ')' {
                self.advance();
                let tok = Token::RPara;
                proof {
                    lemma_lex_push(src, at0, p, tokens@, tok, lex_from(src, self.at()));
                }
                tokens.push(tok);
            } else if c == '=' {
                self.advance();
                let two = match self.peek() {
                    Some(c2) => c2 == '=',
                    None => false,
                };
                if two {
                    self.advance();
                    let tok = Token::Equal;
                    proof {
                        lemma_lex_push(src, at0, p, tokens@, tok, lex_from(src, self.at()));
                    }
                    tokens.push(tok);
                } else {
                    proof {
                        assert(lex_from(src, p) == Err::<Seq<TokenV>, LexError>(
                            LexError::LoneEquals,
                        ));
                    }
                    return Err(LexError::LoneEquals);
                }
            } else if c == '!' {
                self.advance();
                let two = match self.peek() {
                    Some(c2) => c2 == '=',
                    None => false,
                };
                if two {
                    self.advance();
                    let tok = Token::NotEqual;
                    proof {
                        lemma_lex_push(src, at0, p, tokens@, tok, lex_from(src, self.at()));
                    }
                    tokens.push(tok);
                } else {
                    proof {
                        assert(lex_from(src, p) == Err::<Seq<TokenV>, LexError>(LexError::LoneBang));
                    }
                    return Err(LexError::LoneBang);
                }
            } else if c == '<' {
                self.advance();
                let two = match self.peek() {
                    Some(c2) => c2 == '=',
                    None => false,
                };
                let tok: Token = if two {
                    self.advance();
                    Token::LessEq
                } else {
                    Token::Less
                };
                proof {
                    lemma_lex_push(src, at0, p, tokens@, tok, lex_from(src, self.at()));
                }
                tokens.push(tok);
            } else if c == '>' {
                self.advance();
                let two = match self.peek() {
                    Some(c2) => c2 == '=',
                    None => false,
                };
                let tok: Token = if two {
                    self.advance();
                    Token::GreaterEq
                } else {
                    Token::Greater
                };
                proof {
                    lemma_lex_push(src, at0, p, tokens@, tok, lex_from(src, self.at()));
                }
                tokens.push(tok);
            } else {
                proof {
                    assert(lex_from(src, p) == Err::<Seq<TokenV>, LexError>(
                        LexError::InvalidCharacter(c),
                    ));
                }
                return Err(LexError::InvalidCharacter(c));
            }
        }
        proof {
            assert(lex_from(src, self.at()) == Ok::<Seq<TokenV>, LexError>(Seq::empty()));
            assert(toks_view(tokens@) + Seq::<TokenV>::empty() =~= toks_view(tokens@));
        }
        Ok(tokens)
    }
}

/// Rewrites the loop invariant of [`Lexer::tokenize`] after one more token.
proof fn lemma_lex_push(
    src: Seq<char>,
    at0: int,
    p: int,
    ts: Seq<Token>,
    t: Token,
    r: Result<Seq<TokenV>, LexError>,
)
    requires
        lex_from(src, at0) == lex_prepend(toks_view(ts), lex_from(src, p)),
        lex_from(src, p) == lex_cons(t@, r),
    ensures
        lex_from(src, at0) == lex_prepend(toks_view(ts.push(t)), r),
{
    assert(toks_view(ts.push(t)) =~= toks_view(ts).push(t@));
    match r {
        Ok(rest) => {
            assert(toks_view(ts) + (seq![t@] + rest) =~= toks_view(ts).push(t@) + rest);
        },
        Err(_) => {},
    }
}

/// Executable test for [`is_space_char`].
fn is_space_exec(c: char) -> (b: bool)
    ensures
        b == is_space_char(c),
{
    c == ' ' || c == '\t' || c == '\n'
}

/// Executable test for [`is_digit_char`].
fn is_digit_exec(c: char) -> (b: bool)
    ensures
        b == is_digit_char(c),
{
    let u = c as u32;
    48 <= u && u <= 57
}

/// Executable test for [`is_ident_start_char`].
fn is_ident_start_exec(c: char) -> (b: bool)
    ensures
        b == is_ident_start_char(c),
{
    let u = c as u32;
    (65 <= u && u <= 90) || (97 <= u && u <= 122) || c == '_'
}

/// Executable test for [`is_ident_char`].
fn is_ident_exec(c: char) -> (b: bool)
    ensures
        b == is_ident_char(c),
{
    is_ident_start_exec(c) || is_digit_exec(c)
}

/// Whether a string's characters equal a literal's.
fn string_eq_literal(s: &String, lit: &str) -> (b: bool)
    ensures
        b == (s@ == lit@),
{
    *s == String::from_str(lit)
}

} // verus!
