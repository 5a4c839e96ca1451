use vstd::prelude::*;

verus! {

/// One lexical unit: each input character becomes exactly one token.
#[derive(Debug, Clone, Copy, PartialEq, Eq, Structural)]
pub enum Token {
    WhiteSpace,
    NewLine,
    Period,
    Comma,
    Pound,
    LeftSquareBracket,
    RightSquareBracket,
    LeftCurlyBrace,
    RightCurlyBrace,
    Equal,
    DoubleQuote,
    SingleQuote,
    PlusSign,
    MinusSign,
    Slash,
    Number(u32),
    Character(char),
}

/// The Unicode `White_Space` property, the set that `char::is_whitespace` tests.
pub open spec fn is_white_space(c: char) -> bool {
    let u = c as u32;
    ||| 0x09 <= u <= 0x0D
    ||| u == 0x20
    ||| u == 0x85
    ||| u == 0xA0
    ||| u == 0x1680
    ||| 0x2000 <= u <= 0x200A
    ||| u == 0x2028
    ||| u == 0x2029
    ||| u == 0x202F
    ||| u == 0x205F
    ||| u == 0x3000
}

pub open spec fn is_ascii_digit(c: char) -> bool {
    '0' <= c <= '9'
}

/// The classification of one character: punctuation first, then line feed,
/// then other white space, then ASCII digits, and every other character as is.
pub open spec fn token_of(c: char) -> Token {
    if c == '.' {
        Token::Period
    } else if c == ',' {
        Token::Comma
    } else if c == '#' {
        Token::Pound
    } else if c == '[' {
        Token::LeftSquareBracket
    } else if c == ']' {
        Token::RightSquareBracket
    } else if c == '{' {
        Token::LeftCurlyBrace
    } else if c == '}' {
        Token::RightCurlyBrace
    } else if c == '=' {
        Token::Equal
    } else if c == '"' {
        Token::DoubleQuote
    } else if c == '\'' {
        Token::SingleQuote
    } else if c == '+' {
        Token::PlusSign
    } else if c == '-' {
        Token::MinusSign
    } else if c == '/' {
        Token::Slash
    } else if c == '\n' {
        Token::NewLine
    } else if is_white_space(c) {
        Token::WhiteSpace
    } else if is_ascii_digit(c) {
        Token::Number((c as u32 - '0' as u32) as u32)
    } else {
        Token::Character(c)
    }
}

/// The token sequence of a character sequence: one token per character.
pub open spec fn lex_spec(s: Seq<char>) -> Seq<Token> {
    s.map_values(|c: char| token_of(c))
}

fn white_space(c: char) -> (r: bool)
    ensures
        r == is_white_space(c),
{
    let u = c as u32;
    (0x09 <= u && u <= 0x0D) || u == 0x20 || u == 0x85 || u == 0xA0 || u == 0x1680 || (0x2000
        <= u && u <= 0x200A) || u == 0x2028 || u == 0x2029 || u == 0x202F || u == 0x205F || u
        == 0x3000
}

impl Token {
    /// The token that one character becomes; defined for every character.
    pub fn from_char(value: char) -> (r: Token)
        ensures
            r == token_of(value),
    {
        match value {
            '.' => Token::Period,
            ',' => Token::Comma,
            '#' => Token::Pound,
            '[' => Token::LeftSquareBracket,
            ']' => Token::RightSquareBracket,
            '{' => Token::LeftCurlyBrace,
            '}' => Token::RightCurlyBrace,
            '=' => Token::Equal,
            '"' => Token::DoubleQuote,
            '\'' => Token::SingleQuote,
            '+' => Token::PlusSign,
            '-' => Token::MinusSign,
            '/' => Token::Slash,
            '\n' => Token::NewLine,
            ch => {
                if white_space(ch) {
                    Token::WhiteSpace
                } else if '0' <= ch && ch <= '9' {
                    Token::Number(ch as u32 - '0' as u32)
                } else {
                    Token::Character(ch)
                }
            },
        }
    }
}

impl From<char> for Token {
    fn from(value: char) -> (r: Token) {
        Token::from_char(value)
    }
}

impl vstd::std_specs::convert::FromSpecImpl<char> for Token {
    open spec fn obeys_from_spec() -> bool {
        true
    }

    open spec fn from_spec(v: char) -> Token {
        token_of(v)
    }
}

/// Lexes a whole character sequence; never fails.
pub fn lex(chars: &Vec<char>) -> (r: Vec<Token>)
    ensures
        r@ == lex_spec(chars@),
{
    let mut out: Vec<Token> = Vec::new();
    let mut i: usize = 0;
    while i < chars.len()
        invariant
            i <= chars@.len(),
            out@ == lex_spec(chars@.subrange(0, i as int)),
        decreases chars@.len() - i,
    {
        out.push(Token::from_char(chars[i]));
        proof {
            assert(chars@.subrange(0, i + 1) =~= chars@.subrange(0, i as int).push(chars@[i as int]));
        }
        i = i + 1;
    }
    proof {
        assert(chars@.subrange(0, chars@.len() as int) =~= chars@);
    }
    out
}

/// Every character lexes to exactly one token, so the token sequence is as
/// long as the input and its i-th token is the classification of the i-th
/// character.
pub proof fn lemma_lex_total(s: Seq<char>)
    ensures
        lex_spec(s).len() == s.len(),
        forall|i: int| 0 <= i < s.len() ==> #[trigger] lex_spec(s)[i] == token_of(s[i]),
{
}

/// The characters of a string, in order.
pub fn chars_of(s: &str) -> (r: Vec<char>)
    ensures
        r@ == s@,
{
    let n = s.unicode_len();
    let mut chars: Vec<char> = Vec::new();
    let mut i: usize = 0;
    while i < n
        invariant
            n == s@.len(),
            i <= n,
            chars@ == s@.subrange(0, i as int),
        decreases n - i,
    {
        chars.push(s.get_char(i));
        proof {
            assert(s@.subrange(0, i + 1) =~= s@.subrange(0, i as int).push(s@[i as int]));
        }
        i = i + 1;
    }
    proof {
        assert(s@.subrange(0, n as int) =~= s@);
    }
    chars
}

/// The number of line feeds in a token sequence.
pub open spec fn newlines(s: Seq<Token>) -> nat
    decreases s.len(),
{
    if s.len() == 0 {
        0
    } else {
        newlines(s.drop_last()) + if s.last() == Token::NewLine { 1nat } else { 0nat }
    }
}

/// The number of tokens after the last line feed of a token sequence.
pub open spec fn column(s: Seq<Token>) -> nat
    decreases s.len(),
{
    if s.len() == 0 {
        0
    } else if s.last() == Token::NewLine {
        0
    } else {
        column(s.drop_last()) + 1
    }
}

/// On a line with no line feed, the line is 0 and the column is the length.
pub proof fn lemma_no_newline(s: Seq<Token>)
    requires
        forall|i: int| 0 <= i < s.len() ==> s[i] != Token::NewLine,
    ensures
        newlines(s) == 0,
        column(s) == s.len(),
    decreases s.len(),
{
    if s.len() > 0 {
        assert(s[s.len() - 1] == s.last());
        assert forall|i: int| 0 <= i < s.drop_last().len() implies s.drop_last()[i] != Token::NewLine by {
            assert(s.drop_last()[i] == s[i]);
        }
        lemma_no_newline(s.drop_last());
    }
}

/// Extending a prefix by tokens with no line feed keeps the line and moves
/// the column by their number.
pub proof fn lemma_same_line(s: Seq<Token>, a: int, b: int)
    requires
        0 <= a <= b <= s.len(),
        forall|i: int| a <= i < b ==> s[i] != Token::NewLine,
    ensures
        newlines(s.subrange(0, b)) == newlines(s.subrange(0, a)),
        column(s.subrange(0, b)) == column(s.subrange(0, a)) + (b - a),
    decreases b - a,
{
    if b > a {
        lemma_same_line(s, a, b - 1);
        assert(s.subrange(0, b).drop_last() =~= s.subrange(0, b - 1));
        assert(s.subrange(0, b).last() == s[b - 1]);
    }
}

/// Right after a line feed the column is 0 and the line one more.
pub proof fn lemma_after_newline(s: Seq<Token>, a: int)
    requires
        0 <= a < s.len(),
        s[a] == Token::NewLine,
    ensures
        newlines(s.subrange(0, a + 1)) == newlines(s.subrange(0, a)) + 1,
        column(s.subrange(0, a + 1)) == 0,
{
    assert(s.subrange(0, a + 1).drop_last() =~= s.subrange(0, a));
    assert(s.subrange(0, a + 1).last() == s[a]);
}

proof fn lemma_newlines_bound(s: Seq<Token>)
    ensures
        newlines(s) <= s.len(),
        column(s) <= s.len(),
    decreases s.len(),
{
    if s.len() > 0 {
        lemma_newlines_bound(s.drop_last());
    }
}

/// A cursor over a lexed input: the tokens, the index of the current token,
/// and the line and column of that index, both counted from 0.
#[derive(Debug)]
pub struct InputTokens {
    line: usize,
    col: usize,
    pos: usize,
    tokens: Vec<Token>,
}

impl InputTokens {
    pub closed spec fn tokens(&self) -> Seq<Token> {
        self.tokens@
    }

    pub closed spec fn position(&self) -> nat {
        self.pos as nat
    }

    pub closed spec fn line_spec(&self) -> nat {
        self.line as nat
    }

    pub closed spec fn col_spec(&self) -> nat {
        self.col as nat
    }

    /// The cursor stands inside the input, and its line and column are those
    /// of the consumed prefix.
    pub open spec fn wf(&self) -> bool {
        &&& self.position() <= self.tokens().len()
        &&& self.line_spec() == newlines(self.tokens().subrange(0, self.position() as int))
        &&& self.col_spec() == column(self.tokens().subrange(0, self.position() as int))
        &&& self.line_spec() <= self.position()
        &&& self.col_spec() <= self.position()
    }

    /// The token at the cursor, if any is left.
    pub open spec fn current(&self) -> Option<Token> {
        if self.position() < self.tokens().len() {
            Some(self.tokens()[self.position() as int])
        } else {
            None
        }
    }

    /// Lexes `chars` and places the cursor before the first token.
    pub fn from_chars(chars: &Vec<char>) -> (r: InputTokens)
        ensures
            r.wf(),
            r.tokens() == lex_spec(chars@),
            r.position() == 0,
    {
        let tokens = lex(chars);
        let r = InputTokens { line: 0, col: 0, pos: 0, tokens };
        proof {
            lemma_newlines_bound(r.tokens().subrange(0, 0));
        }
        proof {
            assert(r.tokens().subrange(0, 0) =~= Seq::<Token>::empty());
        }
        r
    }

    /// Lexes a string and places the cursor before the first token.
    pub fn from_text(s: &str) -> (r: InputTokens)
        ensures
            r.wf(),
            r.tokens() == lex_spec(s@),
            r.position() == 0,
    {
        let chars = chars_of(s);
        InputTokens::from_chars(&chars)
    }

    /// Whether unconsumed tokens remain.
    pub fn has_next(&self) -> (r: bool)
        requires
            self.wf(),
        ensures
            r == (self.position() < self.tokens().len()),
    {
        self.tokens.len() > self.pos
    }

    /// The token one place after the cursor, without moving it.
    pub fn next_token(&self) -> (r: Option<Token>)
        requires
            self.wf(),
        ensures
            r == (if self.position() + 1 < self.tokens().len() {
                Some(self.tokens()[self.position() as int + 1])
            } else {
                None
            }),
    {
        if self.pos < self.tokens.len() && self.pos + 1 < self.tokens.len() {
            Some(self.tokens[self.pos + 1])
        } else {
            None
        }
    }

    /// The token at the cursor, without moving it.
    pub fn peek(&self) -> (r: Option<Token>)
        requires
            self.wf(),
        ensures
            r == self.current(),
    {
        if self.pos < self.tokens.len() {
            Some(self.tokens[self.pos])
        } else {
            None
        }
    }

    /// Consumes the token at the cursor; past the end nothing changes and
    /// `None` comes back.
    pub fn next(&mut self) -> (r: Option<Token>)
        requires
            old(self).wf(),
        ensures
            final(self).wf(),
            r == old(self).current(),
            final(self).tokens() == old(self).tokens(),
            final(self).position() == if r is Some {
                old(self).position() + 1
            } else {
                old(self).position() + 0
            },
    {
        if self.pos < self.tokens.len() {
            let t = self.tokens[self.pos];
            proof {
                let p = self.pos as int;
                let s = self.tokens@;
                assert(s.subrange(0, p + 1).drop_last() =~= s.subrange(0, p));
                lemma_newlines_bound(s.subrange(0, p));
                lemma_newlines_bound(s.subrange(0, p + 1));
            }
            if t == Token::NewLine {
                self.line = self.line + 1;
                self.col = 0;
            } else {
                self.col = self.col + 1;
            }
            self.pos = self.pos + 1;
            Some(t)
        } else {
            None
        }
    }

    /// The index of the token at the cursor.
    pub fn pos(&self) -> (r: usize)
        ensures
            r == self.position(),
    {
        self.pos
    }

    /// The line of the cursor, counted from 0.
    pub fn line(&self) -> (r: usize)
        ensures
            r == self.line_spec(),
    {
        self.line
    }

    /// The column of the cursor, counted from 0.
    pub fn col(&self) -> (r: usize)
        ensures
            r == self.col_spec(),
    {
        self.col
    }
}

} // verus!
