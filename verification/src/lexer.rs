use vstd::prelude::*;
use vstd::string::StrSliceExecFns;
use vstd::string::StringExecFns;
use crate::value::{digits_end, is_digit_char, lemma_digits_end_bounds};

verus! {

/// What a token is, with any carried text as the specifications see it.
pub enum SpecTokenKind {
    Plus,
    Minus,
    Div,
    Mult,
    Mod,
    Equal,
    Lparen,
    Rparen,
    Num(Seq<char>),
    Ident(Seq<char>),
    Var,
    Sin,
    Cos,
    Tan,
    Log,
    Pow,
    Illegal,
}

/// A token as the specifications see it.  `offset` counts the characters
/// of the line consumed once the token has been read, so it names the
/// position one past the token's last character.
pub struct SpecToken {
    pub kind: SpecTokenKind,
    pub offset: int,
}

/// The kind of a lexed token.  Number and identifier tokens carry the raw
/// matched text; deciding whether number text denotes a representable
/// number is deferred to the parser.
#[derive(PartialEq, Eq, Debug)]
pub enum TokenKind {
    Plus,
    Minus,
    Div,
    Mult,
    Mod,
    Equal,
    Lparen,
    Rparen,
    Num(String),
    Ident(String),
    Var,
    Sin,
    Cos,
    Tan,
    Log,
    Pow,
    Illegal,
}

impl View for TokenKind {
    type V = SpecTokenKind;

    open spec fn view(&self) -> SpecTokenKind {
        match self {
            TokenKind::Plus => SpecTokenKind::Plus,
            TokenKind::Minus => SpecTokenKind::Minus,
            TokenKind::Div => SpecTokenKind::Div,
            TokenKind::Mult => SpecTokenKind::Mult,
            TokenKind::Mod => SpecTokenKind::Mod,
            TokenKind::Equal => SpecTokenKind::Equal,
            TokenKind::Lparen => SpecTokenKind::Lparen,
            TokenKind::Rparen => SpecTokenKind::Rparen,
            TokenKind::Num(s) => SpecTokenKind::Num(s@),
            TokenKind::Ident(s) => SpecTokenKind::Ident(s@),
            TokenKind::Var => SpecTokenKind::Var,
            TokenKind::Sin => SpecTokenKind::Sin,
            TokenKind::Cos => SpecTokenKind::Cos,
            TokenKind::Tan => SpecTokenKind::Tan,
            TokenKind::Log => SpecTokenKind::Log,
            TokenKind::Pow => SpecTokenKind::Pow,
            TokenKind::Illegal => SpecTokenKind::Illegal,
        }
    }
}

/// A token: its kind and the count of characters consumed up to and
/// including its last character.  Subtract the token's length to recover
/// where it starts.
pub struct Token {
    pub kind: TokenKind,
    pub offset: u8,
}

impl View for Token {
    type V = SpecToken;

    open spec fn view(&self) -> SpecToken {
        SpecToken { kind: self.kind@, offset: self.offset as int }
    }
}

/// The characters the lexer skips between tokens: the Unicode white space
/// code points.
pub open spec fn is_ws_char(c: char) -> bool {
    let u = c as int;
    (0x09 <= u <= 0x0D) || u == 0x20 || u == 0x85 || u == 0xA0 || u == 0x1680 || (0x2000 <= u
        <= 0x200A) || u == 0x2028 || u == 0x2029 || u == 0x202F || u == 0x205F || u == 0x3000
}

/// The characters that can start an identifier.
pub open spec fn is_ident_start_char(c: char) -> bool {
    let u = c as int;
    (65 <= u <= 90) || (97 <= u <= 122) || u == 95
}

/// The characters that can continue an identifier.
pub open spec fn is_ident_cont_char(c: char) -> bool {
    is_ident_start_char(c) || is_digit_char(c)
}

/// The first position at or after `i` holding something other than white
/// space.
pub open spec fn ws_end(s: Seq<char>, i: int) -> int
    recommends
        0 <= i <= s.len(),
    decreases s.len() - i,
{
    if i < s.len() && is_ws_char(s[i]) {
        ws_end(s, i + 1)
    } else {
        i
    }
}

/// The first position at or after `i` that cannot continue an identifier.
pub open spec fn ident_end(s: Seq<char>, i: int) -> int
    recommends
        0 <= i <= s.len(),
    decreases s.len() - i,
{
    if i < s.len() && is_ident_cont_char(s[i]) {
        ident_end(s, i + 1)
    } else {
        i
    }
}

/// Where number text that started just before `i` ends: further digits,
/// then optionally a single point and more digits.  A trailing point is
/// part of the token.
pub open spec fn num_end(s: Seq<char>, i: int) -> int
    recommends
        0 <= i <= s.len(),
{
    let e = digits_end(s, i);
    if e < s.len() && s[e] == '.' {
        digits_end(s, e + 1)
    } else {
        e
    }
}

/// The five reserved words; all other identifier text stays generic.
pub open spec fn keyword_kind(text: Seq<char>) -> SpecTokenKind {
    if text == "sin"@ {
        SpecTokenKind::Sin
    } else if text == "cos"@ {
        SpecTokenKind::Cos
    } else if text == "tan"@ {
        SpecTokenKind::Tan
    } else if text == "log"@ {
        SpecTokenKind::Log
    } else if text == "pow"@ {
        SpecTokenKind::Pow
    } else {
        SpecTokenKind::Ident(text)
    }
}

/// The token that starts at the non-white-space position `i`.
pub open spec fn spec_token_at(s: Seq<char>, i: int) -> SpecToken
    recommends
        0 <= i < s.len(),
        !is_ws_char(s[i]),
{
    let c = s[i];
    if c == '(' {
        SpecToken { kind: SpecTokenKind::Lparen, offset: i + 1 }
    } else if c == ')' {
        SpecToken { kind: SpecTokenKind::Rparen, offset: i + 1 }
    } else if c == '+' {
        SpecToken { kind: SpecTokenKind::Plus, offset: i + 1 }
    } else if c == '-' {
        SpecToken { kind: SpecTokenKind::Minus, offset: i + 1 }
    } else if c == '*' {
        SpecToken { kind: SpecTokenKind::Mult, offset: i + 1 }
    } else if c == '/' {
        SpecToken { kind: SpecTokenKind::Div, offset: i + 1 }
    } else if c == '%' {
        SpecToken { kind: SpecTokenKind::Mod, offset: i + 1 }
    } else if c == '$' {
        SpecToken { kind: SpecTokenKind::Var, offset: i + 1 }
    } else if c == '=' {
        SpecToken { kind: SpecTokenKind::Equal, offset: i + 1 }
    } else if is_ident_start_char(c) {
        let e = ident_end(s, i + 1);
        SpecToken { kind: keyword_kind(s.subrange(i, e)), offset: e }
    } else if is_digit_char(c) {
        let e = num_end(s, i + 1);
        SpecToken { kind: SpecTokenKind::Num(s.subrange(i, e)), offset: e }
    } else {
        SpecToken { kind: SpecTokenKind::Illegal, offset: i + 1 }
    }
}

/// The next token of the line from position `i` on, if any is left.
pub open spec fn spec_next(s: Seq<char>, i: int) -> Option<SpecToken>
    recommends
        0 <= i <= s.len(),
{
    let j = ws_end(s, i);
    if j >= s.len() {
        None
    } else {
        Some(spec_token_at(s, j))
    }
}

pub proof fn lemma_ws_end_bounds(s: Seq<char>, i: int)
    requires
        0 <= i <= s.len(),
    ensures
        i <= ws_end(s, i) <= s.len(),
    decreases s.len() - i,
{
    if i < s.len() && is_ws_char(s[i]) {
        lemma_ws_end_bounds(s, i + 1);
    }
}

pub proof fn lemma_ident_end_bounds(s: Seq<char>, i: int)
    requires
        0 <= i <= s.len(),
    ensures
        i <= ident_end(s, i) <= s.len(),
    decreases s.len() - i,
{
    if i < s.len() && is_ident_cont_char(s[i]) {
        lemma_ident_end_bounds(s, i + 1);
    }
}

/// A token read from the line advances past at least one character.
pub proof fn lemma_next_advances(s: Seq<char>, i: int)
    requires
        0 <= i <= s.len(),
    ensures
        match spec_next(s, i) {
            Some(t) => i < t.offset <= s.len(),
            None => true,
        },
{
    lemma_ws_end_bounds(s, i);
    let j = ws_end(s, i);
    if j < s.len() {
        let c = s[j];
        if is_ident_start_char(c) {
            lemma_ident_end_bounds(s, j + 1);
        } else if is_digit_char(c) {
            lemma_digits_end_bounds(s, j + 1);
            let e = digits_end(s, j + 1);
            if e < s.len() && s[e] == '.' {
                lemma_digits_end_bounds(s, e + 1);
            }
        }
    }
}

/// Converts a source line into tokens, one at a time, skipping white
/// space.  The line is restricted to 255 characters so that every offset
/// fits the small offset field.
pub struct Lexer<'a> {
    pub source: &'a str,
    offset: u8,
}

impl<'a> Lexer<'a> {
    /// How many characters of the line have been consumed.
    pub closed spec fn spec_offset(&self) -> int {
        self.offset as int
    }

    /// The characters of the line being lexed.
    pub closed spec fn spec_source(&self) -> Seq<char> {
        self.source@
    }

    pub closed spec fn wf(&self) -> bool {
        0 <= self.spec_offset() <= self.source@.len() <= 255
    }

    pub fn new(source: &'a str) -> (r: Self)
        requires
            source@.len() <= 255,
        ensures
            r.wf(),
            r.spec_source() == source@,
            r.spec_offset() == 0,
    {
        Self { source, offset: 0 }
    }

    /// Skips white space, then consumes and returns the next character.
    fn advance(&mut self) -> (r: Option<char>)
        requires
            old(self).wf(),
        ensures
            final(self).wf(),
            final(self).source == old(self).source,
            ({
                let j = ws_end(old(self).source@, old(self).spec_offset());
                match r {
                    Some(c) => j < old(self).source@.len() && c == old(self).source@[j]
                        && final(self).spec_offset() == j + 1,
                    None => j == old(self).source@.len() && final(self).spec_offset() == j,
                }
            }),
    {
        let len = self.source.unicode_len();
        while (self.offset as usize) < len && is_ws(self.source.get_char(self.offset as usize))
            invariant
                len == self.source@.len(),
                self.wf(),
                self.source == old(self).source,
                ws_end(self.source@, old(self).spec_offset()) == ws_end(
                    self.source@,
                    self.spec_offset(),
                ),
            decreases len - self.offset,
        {
            self.offset = self.offset + 1;
        }
        if (self.offset as usize) < len {
            let c = self.source.get_char(self.offset as usize);
            self.offset = self.offset + 1;
            Some(c)
        } else {
            None
        }
    }

    /// Wraps a kind into a token stamped with the current offset.
    fn make_token(&self, kind: TokenKind) -> (r: Token)
        ensures
            r.kind == kind,
            r.offset == self.spec_offset(),
    {
        Token { kind, offset: self.offset }
    }

    /// Maps the reserved words to their kinds; everything else becomes a
    /// generic identifier token carrying its text.
    fn match_ident(&self, ident: &str) -> (r: TokenKind)
        ensures
            r@ == keyword_kind(ident@),
    {
        if str_is(ident, "sin") {
            TokenKind::Sin
        } else if str_is(ident, "cos") {
            TokenKind::Cos
        } else if str_is(ident, "tan") {
            TokenKind::Tan
        } else if str_is(ident, "log") {
            TokenKind::Log
        } else if str_is(ident, "pow") {
            TokenKind::Pow
        } else {
            TokenKind::Ident(ident.to_owned())
        }
    }

    /// Reads the next token, or reports that the line is exhausted.
    pub fn next(&mut self) -> (r: Option<Token>)
        requires
            old(self).wf(),
        ensures
            final(self).wf(),
            final(self).spec_source() == old(self).spec_source(),
            match spec_next(old(self).spec_source(), old(self).spec_offset()) {
                Some(t) => r matches Some(tok) && tok@ == t && final(self).spec_offset()
                    == t.offset,
                None => r is None && final(self).spec_offset() == old(self).spec_source().len(),
            },
    {
        let len = self.source.unicode_len();
        proof {
            lemma_ws_end_bounds(self.source@, self.spec_offset());
        }
        let c = match self.advance() {
            Some(c) => c,
            None => return None,
        };
        let ghost j = self.spec_offset() - 1;
        let start = self.offset as usize - 1;
        if c == '(' {
            Some(self.make_token(TokenKind::Lparen))
        } else if c == ')' {
            Some(self.make_token(TokenKind::Rparen))
        } else if c == '+' {
            Some(self.make_token(TokenKind::Plus))
        } else if c == '-' {
            Some(self.make_token(TokenKind::Minus))
        } else if c == '*' {
            Some(self.make_token(TokenKind::Mult))
        } else if c == '/' {
            Some(self.make_token(TokenKind::Div))
        } else if c == '%' {
            Some(self.make_token(TokenKind::Mod))
        } else if c == '$' {
            Some(self.make_token(TokenKind::Var))
        } else if c == '=' {
            Some(self.make_token(TokenKind::Equal))
        } else if is_ident_start(c) {
            while (self.offset as usize) < len && is_ident_cont(
                self.source.get_char(self.offset as usize),
            )
                invariant
                    len == self.source@.len(),
                    self.wf(),
                    self.source == old(self).source,
                    j + 1 <= self.spec_offset(),
                    ident_end(self.source@, j + 1) == ident_end(self.source@, self.spec_offset()),
                decreases len - self.offset,
            {
                self.offset = self.offset + 1;
            }
            assert(ident_end(self.source@, j + 1) == self.spec_offset());
            let text = self.source.substring_char(start, self.offset as usize);
            Some(self.make_token(self.match_ident(text)))
        } else if is_digit_ch(c) {
            while (self.offset as usize) < len && is_digit_ch(
                self.source.get_char(self.offset as usize),
            )
                invariant
                    len == self.source@.len(),
                    self.wf(),
                    self.source == old(self).source,
                    j + 1 <= self.spec_offset(),
                    digits_end(self.source@, j + 1) == digits_end(self.source@, self.spec_offset()),
                decreases len - self.offset,
            {
                self.offset = self.offset + 1;
            }
            assert(digits_end(self.source@, j + 1) == self.spec_offset());
            if (self.offset as usize) < len && self.source.get_char(self.offset as usize) == '.' {
                self.offset = self.offset + 1;
                let ghost e1 = self.spec_offset();
                while (self.offset as usize) < len && is_digit_ch(
                    self.source.get_char(self.offset as usize),
                )
                    invariant
                        len == self.source@.len(),
                        self.wf(),
                        self.source == old(self).source,
                        e1 <= self.spec_offset(),
                        digits_end(self.source@, e1) == digits_end(
                            self.source@,
                            self.spec_offset(),
                        ),
                    decreases len - self.offset,
                {
                    self.offset = self.offset + 1;
                }
                assert(digits_end(self.source@, e1) == self.spec_offset());
            }
            assert(num_end(self.source@, j + 1) == self.spec_offset());
            let text = self.source.substring_char(start, self.offset as usize);
            Some(self.make_token(TokenKind::Num(text.to_owned())))
        } else {
            Some(self.make_token(TokenKind::Illegal))
        }
    }
}

fn is_ws(c: char) -> (r: bool)
    ensures
        r == is_ws_char(c),
{
    let u = c as u32;
    (0x09 <= u && u <= 0x0D) || u == 0x20 || u == 0x85 || u == 0xA0 || u == 0x1680 || (0x2000 <= u
        && u <= 0x200A) || u == 0x2028 || u == 0x2029 || u == 0x202F || u == 0x205F || u == 0x3000
}

fn is_ident_start(c: char) -> (r: bool)
    ensures
        r == is_ident_start_char(c),
{
    let u = c as u32;
    (65 <= u && u <= 90) || (97 <= u && u <= 122) || u == 95
}

fn is_ident_cont(c: char) -> (r: bool)
    ensures
        r == is_ident_cont_char(c),
{
    let u = c as u32;
    (65 <= u && u <= 90) || (97 <= u && u <= 122) || u == 95 || (48 <= u && u <= 57)
}

fn is_digit_ch(c: char) -> (r: bool)
    ensures
        r == is_digit_char(c),
{
    let u = c as u32;
    48 <= u && u <= 57
}

fn str_is(a: &str, b: &str) -> (r: bool)
    ensures
        r == (a@ == b@),
{
    let x = a.to_owned();
    let y = b.to_owned();
    x == y
}

/// The whole token sequence of a line.
pub open spec fn spec_tokens(s: Seq<char>, i: int) -> Seq<SpecToken>
    recommends
        0 <= i <= s.len(),
    decreases s.len() - i,
{
    match spec_next(s, i) {
        Some(t) => if i < t.offset <= s.len() {
            seq![t] + spec_tokens(s, t.offset)
        } else {
            seq![t]
        },
        None => Seq::empty(),
    }
}

/// Runs the lexer over the whole line and collects the tokens.
pub fn tokenize(source: &str) -> (r: Vec<Token>)
    requires
        source@.len() <= 255,
    ensures
        r@.map_values(|t: Token| t@) == spec_tokens(source@, 0),
{
    let mut lexer = Lexer::new(source);
    let mut out: Vec<Token> = Vec::new();
    loop
        invariant
            lexer.wf(),
            lexer.spec_source() == source@,
            out@.map_values(|t: Token| t@) + spec_tokens(source@, lexer.spec_offset())
                =~= spec_tokens(source@, 0),
        decreases source@.len() - lexer.spec_offset(),
    {
        let ghost pos = lexer.spec_offset();
        proof {
            lemma_next_advances(source@, pos);
        }
        match lexer.next() {
            Some(tok) => {
                out.push(tok);
                assert(out@.map_values(|t: Token| t@) + spec_tokens(source@, lexer.spec_offset())
                    =~= spec_tokens(source@, 0));
            },
            None => {
                assert(out@.map_values(|t: Token| t@) =~= spec_tokens(source@, 0));
                return out;
            },
        }
    }
}

} // verus!
