use vstd::prelude::*;

use crate::error::ParseError;
use crate::scalar::{classify, classify_spec, Scalar, ScalarError};
use crate::table::{insert_value, keys_unique, open_header};
use crate::token::{
    chars_of, lemma_after_newline, lemma_no_newline, lemma_same_line, lex_spec, token_of, InputTokens,
    Token,
};
use crate::value::Value;

verus! {

/// How deep arrays and inline tables may nest.
pub const MAX_DEPTH: usize = 64;

/// The cursor walks the lexed form of `chars`.
pub open spec fn tracks(c: InputTokens, chars: Seq<char>) -> bool {
    c.wf() && c.tokens() == lex_spec(chars)
}

/// `after` is the cursor `before` moved forward over the same tokens.
pub open spec fn moved_on(before: InputTokens, after: InputTokens) -> bool {
    &&& after.wf()
    &&& after.tokens() == before.tokens()
    &&& after.position() >= before.position()
}

/// The line and column of an error lie inside an input of `n` characters.
pub open spec fn located_within(e: ParseError, n: nat) -> bool {
    match e {
        ParseError::IllegalChar(_, l, k) => l <= n && k <= n,
        ParseError::InvalidString(_, l, k) => l <= n && k <= n,
        ParseError::DuplicateKey(_, l, k) => l <= n && k <= n,
        ParseError::InvalidNumber(l, k) => l <= n && k <= n,
        ParseError::InvalidDateTime(l, k) => l <= n && k <= n,
        ParseError::UnexpectedEndOfInput => true,
        ParseError::UnexpectedToken(_, _, l, k) => l <= n && k <= n,
    }
}

/// A failure, if `r` is one, points inside an input of `n` characters.
pub open spec fn fails_within<T>(r: Result<T, ParseError>, n: nat) -> bool {
    r matches Err(e) ==> located_within(e, n)
}

/// Relies on `String::from_iter`: the string holds the characters in order.
#[verifier::external_body]
fn string_from_chars(v: &Vec<char>) -> (r: String)
    ensures
        r@ == v@,
{
    String::from_iter(v.iter())
}

/// Consumes the token at the cursor and gives it with the character it came from.
fn take(chars: &Vec<char>, c: &mut InputTokens) -> (r: Option<(Token, char)>)
    requires
        tracks(*old(c), chars@),
    ensures
        tracks(*final(c), chars@),
        moved_on(*old(c), *final(c)),
        r is None <==> old(c).current() is None,
        r matches Some(p) ==> p.0 == token_of(p.1) && Some(p.0) == old(c).current() && p.1
            == chars@[old(c).position() as int] && final(c).position() == old(c).position() + 1,
{
    let p = c.pos();
    match c.next() {
        Some(t) => {
            let ch = chars[p];
            Some((t, ch))
        },
        None => None,
    }
}

/// The error for the token at the cursor when `expected` should stand there:
/// a stray character is illegal, any other token unexpected.
fn unexpected(c: &InputTokens, expected: &str) -> (r: ParseError)
    requires
        c.wf(),
    ensures
        located_within(r, c.tokens().len()),
        c.current() is None ==> r == ParseError::UnexpectedEndOfInput,
        c.current() matches Some(Token::Character(ch)) ==> r == ParseError::IllegalChar(
            ch,
            c.line_spec() as usize,
            c.col_spec() as usize,
        ),
        c.current() is Some && !(c.current() matches Some(Token::Character(_))) ==> (
        r matches ParseError::UnexpectedToken(e, t, l, k) && e@ == expected@ && Some(t)
            == c.current() && l == c.line_spec() && k == c.col_spec()),
{
    match c.peek() {
        Some(Token::Character(ch)) => ParseError::IllegalChar(ch, c.line(), c.col()),
        Some(t) => ParseError::UnexpectedToken(expected.to_owned(), t, c.line(), c.col()),
        None => ParseError::UnexpectedEndOfInput,
    }
}

/// Consumes white space (not line feeds).
fn skip_ws(c: &mut InputTokens)
    requires
        old(c).wf(),
    ensures
        moved_on(*old(c), *final(c)),
        final(c).current() != Some(Token::WhiteSpace),
        old(c).current() != Some(Token::WhiteSpace) ==> *final(c) == *old(c),
        forall|i: int|
            old(c).position() <= i < final(c).position() ==> old(c).tokens()[i]
                == Token::WhiteSpace,
{
    while c.peek() == Some(Token::WhiteSpace)
        invariant
            moved_on(*old(c), *c),
            forall|i: int|
                old(c).position() <= i < c.position() ==> old(c).tokens()[i] == Token::WhiteSpace,
            old(c).current() != Some(Token::WhiteSpace) ==> *c == *old(c),
        decreases c.tokens().len() - c.position(),
    {
        c.next();
    }
}

/// Consumes a comment up to, not including, the line feed that ends it.
fn skip_comment(c: &mut InputTokens)
    requires
        old(c).wf(),
    ensures
        moved_on(*old(c), *final(c)),
        old(c).current() is Some ==> final(c).position() > old(c).position(),
        final(c).current() is None || final(c).current() == Some(Token::NewLine),
{
    c.next();
    loop
        invariant
            moved_on(*old(c), *c),
            old(c).current() is Some ==> c.position() > old(c).position(),
        ensures
            moved_on(*old(c), *c),
            old(c).current() is Some ==> c.position() > old(c).position(),
            c.current() is None || c.current() == Some(Token::NewLine),
        decreases c.tokens().len() - c.position(),
    {
        match c.peek() {
            None => break,
            Some(Token::NewLine) => break,
            Some(_) => {
                c.next();
            },
        }
    }
}

/// Consumes white space, line feeds and comments.
fn skip_blank(c: &mut InputTokens)
    requires
        old(c).wf(),
    ensures
        moved_on(*old(c), *final(c)),
        final(c).current() != Some(Token::WhiteSpace),
        final(c).current() != Some(Token::NewLine),
        final(c).current() != Some(Token::Pound),
{
    loop
        invariant
            moved_on(*old(c), *c),
        ensures
            moved_on(*old(c), *c),
            c.current() != Some(Token::WhiteSpace),
            c.current() != Some(Token::NewLine),
            c.current() != Some(Token::Pound),
        decreases c.tokens().len() - c.position(),
    {
        match c.peek() {
            Some(Token::WhiteSpace) => {
                c.next();
            },
            Some(Token::NewLine) => {
                c.next();
            },
            Some(Token::Pound) => {
                skip_comment(c);
            },
            _ => break,
        }
    }
}

/// Consumes the token `t`, or fails with the token that stands there.
fn expect(c: &mut InputTokens, t: Token, what: &str) -> (r: Result<(), ParseError>)
    requires
        old(c).wf(),
    ensures
        moved_on(*old(c), *final(c)),
        fails_within(r, old(c).tokens().len()),
        r is Ok <==> old(c).current() == Some(t),
        r is Ok ==> final(c).position() == old(c).position() + 1,
{
    if c.peek() == Some(t) {
        c.next();
        Ok(())
    } else {
        Err(unexpected(c, what))
    }
}


/// The character that an escape `\x` stands for inside a quoted string.
pub open spec fn escape_spec(x: char) -> Option<char> {
    if x == 'n' {
        Some('\n')
    } else if x == 't' {
        Some('\t')
    } else if x == '"' {
        Some('"')
    } else if x == '\\' {
        Some('\\')
    } else {
        None
    }
}

/// The characters that the body of a `"` string stands for, or `None` where
/// a backslash starts no known escape.
pub open spec fn unescape(s: Seq<char>) -> Option<Seq<char>>
    decreases s.len(),
{
    if s.len() == 0 {
        Some(Seq::empty())
    } else if s[0] == '\\' {
        if s.len() >= 2 && escape_spec(s[1]) is Some {
            match unescape(s.subrange(2, s.len() as int)) {
                Some(rest) => Some(seq![escape_spec(s[1])->0] + rest),
                None => None,
            }
        } else {
            None
        }
    } else {
        match unescape(s.drop_first()) {
            Some(rest) => Some(seq![s[0]] + rest),
            None => None,
        }
    }
}

proof fn lemma_unescape_append(p: Seq<char>, q: Seq<char>, o: Seq<char>)
    requires
        unescape(p) == Some(o),
    ensures
        unescape(p + q) == match unescape(q) {
            Some(r) => Some(o + r),
            None => None::<Seq<char>>,
        },
    decreases p.len(),
{
    if p.len() == 0 {
        assert(p + q =~= q);
        assert(o =~= Seq::<char>::empty());
        match unescape(q) {
            Some(r) => {
                assert(o + r =~= r);
            },
            None => {},
        }
    } else if p[0] == '\\' {
        let tail = p.subrange(2, p.len() as int);
        let e = escape_spec(p[1])->0;
        let ot = unescape(tail)->0;
        lemma_unescape_append(tail, q, ot);
        assert((p + q).subrange(2, (p + q).len() as int) =~= tail + q);
        assert((p + q)[0] == p[0] && (p + q)[1] == p[1]);
        match unescape(q) {
            Some(r) => {
                assert(seq![e] + (ot + r) =~= (seq![e] + ot) + r);
            },
            None => {},
        }
    } else {
        let tail = p.drop_first();
        let ot = unescape(tail)->0;
        lemma_unescape_append(tail, q, ot);
        assert((p + q).drop_first() =~= tail + q);
        assert((p + q)[0] == p[0]);
        match unescape(q) {
            Some(r) => {
                assert(seq![p[0]] + (ot + r) =~= (seq![p[0]] + ot) + r);
            },
            None => {},
        }
    }
}

pub fn decode_escape(x: char) -> (r: Option<char>)
    ensures
        r == escape_spec(x),
{
    match x {
        'n' => Some('\n'),
        't' => Some('\t'),
        '"' => Some('"'),
        '\\' => Some('\\'),
        _ => None,
    }
}

/// Reads the body of a `"` string whose opening quote is consumed, up to and
/// including the closing quote, and decodes its escapes.
/// From `p` to the end, no character is `q`, a line feed, or (where
/// `escapes`) a backslash: a string opened before `p` never closes.
pub open spec fn never_closes(chars: Seq<char>, p: int, q: char, escapes: bool) -> bool {
    forall|i: int|
        p <= i < chars.len() ==> #[trigger] chars[i] != q && chars[i] != '\n' && (escapes
            ==> chars[i] != '\\')
}

/// `chars[p..q]` holds no `"`, backslash or line feed, and `chars[q]` is `"`:
/// a plain string body and its closing quote.
pub open spec fn plain_until(chars: Seq<char>, p: int, q: int) -> bool {
    &&& 0 <= p <= q < chars.len()
    &&& chars[q] == '"'
    &&& forall|i: int|
        p <= i < q ==> #[trigger] chars[i] != '"' && chars[i] != '\\' && chars[i] != '\n'
}

fn basic_string(chars: &Vec<char>, c: &mut InputTokens) -> (r: Result<String, ParseError>)
    requires
        tracks(*old(c), chars@),
    ensures
        tracks(*final(c), chars@),
        moved_on(*old(c), *final(c)),
        fails_within(r, chars@.len()),
        forall|q: int| #[trigger]
            plain_until(chars@, old(c).position() as int, q) ==> (r matches Ok(s) && s@
                == chars@.subrange(old(c).position() as int, q) && final(c).position() == q + 1),
        never_closes(chars@, old(c).position() as int, '"', true) ==> r == Err::<String, ParseError>(
            ParseError::UnexpectedEndOfInput,
        ),
        r is Ok ==> final(c).position() > old(c).position(),
        r matches Ok(s) ==> chars@[final(c).position() - 1] == '"' && unescape(
            chars@.subrange(old(c).position() as int, final(c).position() - 1),
        ) == Some(s@),
{
    let mut out: Vec<char> = Vec::new();
    let start = c.pos();
    proof {
        assert(chars@.subrange(start as int, start as int) =~= Seq::<char>::empty());
    }
    loop
        invariant
            tracks(*c, chars@),
            moved_on(*old(c), *c),
            start == old(c).position(),
            unescape(chars@.subrange(start as int, c.position() as int)) == Some(out@),
            forall|q: int| #[trigger]
                plain_until(chars@, old(c).position() as int, q) ==> c.position() <= q && out@
                    == chars@.subrange(start as int, c.position() as int),
            never_closes(chars@, old(c).position() as int, '"', true) ==> never_closes(
                chars@,
                c.position() as int,
                '"',
                true,
            ),
        decreases c.tokens().len() - c.position(),
    {
        let ghost before: int = c.position() as int;
        let ghost done = chars@.subrange(start as int, before);
        let line = c.line();
        let col = c.col();
        match take(chars, c) {
            None => {
                return Err(ParseError::UnexpectedEndOfInput);
            },
            Some((Token::DoubleQuote, _)) => {
                return Ok(string_from_chars(&out));
            },
            Some((Token::NewLine, _)) => {
                return Err(
                    ParseError::InvalidString("line feed inside a string".to_owned(), line, col),
                );
            },
            Some((_, '\\')) => {
                match take(chars, c) {
                    None => {
                        return Err(ParseError::UnexpectedEndOfInput);
                    },
                    Some((_, x)) => match decode_escape(x) {
                        Some(d) => {
                            proof {
                                let q = seq!['\\', x];
                                assert(q.subrange(2, 2) =~= Seq::<char>::empty());
                                assert(unescape(q.subrange(2, 2)) == Some(Seq::<char>::empty()));
                                assert(unescape(q) == Some(seq![d] + Seq::<char>::empty()));
                                assert(seq![d] + Seq::<char>::empty() =~= seq![d]);
                                lemma_unescape_append(done, q, out@);
                                assert(chars@.subrange(start as int, before + 2) =~= done + q);
                                assert(out@.push(d) =~= out@ + seq![d]);
                            }
                            out.push(d);
                        },
                        None => {
                            return Err(
                                ParseError::InvalidString(
                                    "unknown escape sequence".to_owned(),
                                    line,
                                    col,
                                ),
                            );
                        },
                    },
                }
            },
            Some((_, ch)) => {
                proof {
                    let q = seq![ch];
                    assert(q.drop_first() =~= Seq::<char>::empty());
                    assert(unescape(q.drop_first()) == Some(Seq::<char>::empty()));
                    assert(unescape(q) == Some(seq![ch] + Seq::<char>::empty()));
                    assert(seq![ch] + Seq::<char>::empty() =~= seq![ch]);
                    lemma_unescape_append(done, q, out@);
                    assert(chars@.subrange(start as int, before + 1) =~= done + q);
                    assert(out@.push(ch) =~= out@ + seq![ch]);
                }
                out.push(ch);
            },
        }
    }
}

/// Reads the body of a `'` string whose opening quote is consumed; no escapes.
/// The body is every character up to the closing quote.
fn literal_string(chars: &Vec<char>, c: &mut InputTokens) -> (r: Result<String, ParseError>)
    requires
        tracks(*old(c), chars@),
    ensures
        tracks(*final(c), chars@),
        moved_on(*old(c), *final(c)),
        fails_within(r, chars@.len()),
        never_closes(chars@, old(c).position() as int, '\'', false) ==> r == Err::<
            String,
            ParseError,
        >(ParseError::UnexpectedEndOfInput),
        r is Ok ==> final(c).position() > old(c).position(),
        r matches Ok(s) ==> s@ == chars@.subrange(
            old(c).position() as int,
            final(c).position() - 1,
        ) && chars@[final(c).position() - 1] == '\'',
        r matches Ok(s) ==> forall|i: int| 0 <= i < s@.len() ==> s@[i] != '\n' && s@[i] != '\'',
{
    let mut out: Vec<char> = Vec::new();
    let start = c.pos();
    loop
        invariant
            tracks(*c, chars@),
            moved_on(*old(c), *c),
            start == old(c).position(),
            out@ == chars@.subrange(start as int, c.position() as int),
            forall|i: int| 0 <= i < out@.len() ==> out@[i] != '\n' && out@[i] != '\'',
            never_closes(chars@, old(c).position() as int, '\'', false) ==> never_closes(
                chars@,
                c.position() as int,
                '\'',
                false,
            ),
        decreases c.tokens().len() - c.position(),
    {
        let ghost before: int = c.position() as int;
        let line = c.line();
        let col = c.col();
        match take(chars, c) {
            None => {
                return Err(ParseError::UnexpectedEndOfInput);
            },
            Some((Token::SingleQuote, _)) => {
                return Ok(string_from_chars(&out));
            },
            Some((Token::NewLine, _)) => {
                return Err(
                    ParseError::InvalidString("line feed inside a string".to_owned(), line, col),
                );
            },
            Some((_, ch)) => {
                out.push(ch);
                proof {
                    assert(chars@.subrange(start as int, before + 1) =~= chars@.subrange(
                        start as int,
                        before as int,
                    ).push(ch));
                }
            },
        }
    }
}

/// A token that may stand in a bare key: a letter, `_`, a digit or `-`.
pub open spec fn is_bare_key_token(t: Token) -> bool {
    match t {
        Token::Character(ch) => ('a' <= ch <= 'z') || ('A' <= ch <= 'Z') || ch == '_',
        Token::Number(_) => true,
        Token::MinusSign => true,
        _ => false,
    }
}

/// A catch-all token that may not stand in a bare key.
pub open spec fn is_stray(t: Option<Token>) -> bool {
    t matches Some(Token::Character(ch)) && !is_bare_key_token(Token::Character(ch))
}

pub open spec fn stray_char(t: Option<Token>) -> char {
    match t {
        Some(Token::Character(ch)) => ch,
        _ => ' ',
    }
}

fn bare_key_token(t: Option<Token>) -> (r: bool)
    ensures
        r == (t matches Some(x) && is_bare_key_token(x)),
{
    match t {
        Some(Token::Character(ch)) => ('a' <= ch && ch <= 'z') || ('A' <= ch && ch <= 'Z') || ch
            == '_',
        Some(Token::Number(_)) => true,
        Some(Token::MinusSign) => true,
        _ => false,
    }
}

/// Reads one key: a quoted string or a non-empty run of bare key tokens.
fn key_segment(chars: &Vec<char>, c: &mut InputTokens) -> (r: Result<String, ParseError>)
    requires
        tracks(*old(c), chars@),
    ensures
        tracks(*final(c), chars@),
        moved_on(*old(c), *final(c)),
        fails_within(r, chars@.len()),
        old(c).current() matches Some(t) && is_bare_key_token(t) ==> forall|i: int|
            old(c).position() <= i < final(c).position() ==> is_bare_key_token(
                #[trigger] old(c).tokens()[i],
            ),
        is_stray(old(c).current()) ==> r == Err::<String, ParseError>(
            ParseError::IllegalChar(
                stray_char(old(c).current()),
                old(c).line_spec() as usize,
                old(c).col_spec() as usize,
            ),
        ),
        old(c).current() matches Some(t) && is_bare_key_token(t) ==> {
            &&& r matches Ok(k) && k@ == chars@.subrange(
                old(c).position() as int,
                final(c).position() as int,
            )
            &&& !(final(c).current() matches Some(t) && is_bare_key_token(t))
        },
        r is Ok ==> final(c).position() > old(c).position(),
{
    match c.peek() {
        Some(Token::DoubleQuote) => {
            c.next();
            return basic_string(chars, c);
        },
        Some(Token::SingleQuote) => {
            c.next();
            return literal_string(chars, c);
        },
        _ => {},
    }
    if !bare_key_token(c.peek()) {
        return Err(unexpected(c, "a key"));
    }
    let start = c.pos();
    let mut out: Vec<char> = Vec::new();
    while bare_key_token(c.peek())
        invariant
            tracks(*c, chars@),
            moved_on(*old(c), *c),
            start == old(c).position(),
            out@ == chars@.subrange(start as int, c.position() as int),
            forall|i: int|
                old(c).position() <= i < c.position() ==> is_bare_key_token(
                    #[trigger] old(c).tokens()[i],
                ),
        decreases c.tokens().len() - c.position(),
    {
        let ghost before: int = c.position() as int;
        match take(chars, c) {
            Some((_, ch)) => {
                out.push(ch);
                proof {
                    assert(chars@.subrange(start as int, before + 1) =~= chars@.subrange(
                        start as int,
                        before,
                    ).push(ch));
                }
            },
            None => {},
        }
    }
    Ok(string_from_chars(&out))
}

/// `tokens[p..e]` is a bare key, followed by one white space and `=`.
pub open spec fn bare_key_then_equal(tokens: Seq<Token>, p: int, e: int) -> bool {
    &&& 0 <= p < e
    &&& e + 1 < tokens.len()
    &&& forall|i: int| p <= i < e ==> is_bare_key_token(#[trigger] tokens[i])
    &&& tokens[e] == Token::WhiteSpace
    &&& tokens[e + 1] == Token::Equal
}

/// Reads a key path `a.b.c`, with white space allowed around the dots.
fn key_path(chars: &Vec<char>, c: &mut InputTokens) -> (r: Result<Vec<String>, ParseError>)
    requires
        tracks(*old(c), chars@),
    ensures
        tracks(*final(c), chars@),
        moved_on(*old(c), *final(c)),
        fails_within(r, chars@.len()),
        forall|e: int|
            #[trigger] bare_key_then_equal(old(c).tokens(), old(c).position() as int, e) ==> {
                &&& r matches Ok(p) && p@.len() == 1 && p@[0]@ == chars@.subrange(
                    old(c).position() as int,
                    e,
                )
                &&& final(c).position() == e + 1
            },
        is_stray(old(c).current()) ==> r == Err::<Vec<String>, ParseError>(
            ParseError::IllegalChar(
                stray_char(old(c).current()),
                old(c).line_spec() as usize,
                old(c).col_spec() as usize,
            ),
        ),
        r is Ok ==> final(c).position() > old(c).position() && r->Ok_0@.len() > 0,
{
    let mut path: Vec<String> = Vec::new();
    let first = match key_segment(chars, c) {
        Ok(k) => k,
        Err(e) => {
            return Err(e);
        },
    };
    proof {
        assert forall|e: int|
            #[trigger] bare_key_then_equal(old(c).tokens(), old(c).position() as int, e) implies c.position()
            == e by {
            let f = c.position() as int;
            if f > e {
                assert(is_bare_key_token(old(c).tokens()[e]));
            }
            if f < e {
                assert(is_bare_key_token(old(c).tokens()[f]));
            }
        }
    }
    path.push(first);
    loop
        invariant
            forall|e: int|
                #[trigger] bare_key_then_equal(old(c).tokens(), old(c).position() as int, e) ==> c.position()
                    == e && path@.len() == 1 && path@[0]@ == chars@.subrange(
                    old(c).position() as int,
                    e,
                ),
            tracks(*c, chars@),
            moved_on(*old(c), *c),
            c.position() > old(c).position(),
            path@.len() > 0,
            !is_stray(old(c).current()),
        decreases c.tokens().len() - c.position(),
    {
        skip_ws(c);
        proof {
            assert forall|e: int|
                #[trigger] bare_key_then_equal(old(c).tokens(), old(c).position() as int, e) implies c.position()
                == e + 1 by {
                let f = c.position() as int;
                if f > e + 1 {
                    assert(old(c).tokens()[e + 1] == Token::WhiteSpace);
                }
                if f == e {
                    assert(c.current() == Some(Token::WhiteSpace));
                }
            }
        }
        if c.peek() == Some(Token::Period) {
            c.next();
            skip_ws(c);
            let seg = key_segment(chars, c)?;
            path.push(seg);
        } else {
            return Ok(path);
        }
    }
}


/// A token that ends a bare literal.
pub open spec fn ends_literal(t: Option<Token>) -> bool {
    match t {
        None => true,
        Some(Token::WhiteSpace) => true,
        Some(Token::NewLine) => true,
        Some(Token::Comma) => true,
        Some(Token::RightSquareBracket) => true,
        Some(Token::RightCurlyBrace) => true,
        Some(Token::Pound) => true,
        _ => false,
    }
}

fn literal_end(t: Option<Token>) -> (r: bool)
    ensures
        r == ends_literal(t),
{
    match t {
        None => true,
        Some(Token::WhiteSpace) => true,
        Some(Token::NewLine) => true,
        Some(Token::Comma) => true,
        Some(Token::RightSquareBracket) => true,
        Some(Token::RightCurlyBrace) => true,
        Some(Token::Pound) => true,
        _ => false,
    }
}

/// `v` is the value of the bare literal `run`, classified as `sc`.
pub open spec fn scalar_value_spec(run: Seq<char>, sc: Scalar, v: Value) -> bool {
    match sc {
        Scalar::Bool(b) => v == Value::Boolean(b),
        Scalar::Int(i) => v == Value::Integer(i),
        Scalar::DateTimeLit(d) => v == Value::DateTimeValue(d),
        Scalar::TimeLit(t) => v == Value::TimeValue(t),
        Scalar::Float => v matches Value::Float(f) && f@ == run,
    }
}

/// The outcome of reading the bare literal `run` that starts at `line`, `col`.
pub open spec fn bare_literal_spec(run: Seq<char>, line: nat, col: nat, r: Result<Value, ParseError>) -> bool {
    match classify_spec(run) {
        Ok(sc) => r matches Ok(v) && scalar_value_spec(run, sc, v),
        Err(ScalarError::Number) => r == Err::<Value, ParseError>(
            ParseError::InvalidNumber(line as usize, col as usize),
        ),
        Err(ScalarError::DateTime) => r == Err::<Value, ParseError>(
            ParseError::InvalidDateTime(line as usize, col as usize),
        ),
    }
}

/// The value that a classified bare literal stands for.
fn scalar_value(run: &Vec<char>, sc: Scalar) -> (r: Value)
    ensures
        scalar_value_spec(run@, sc, r),
{
    match sc {
        Scalar::Bool(b) => Value::Boolean(b),
        Scalar::Int(i) => Value::Integer(i),
        Scalar::Float => Value::Float(string_from_chars(run)),
        Scalar::DateTimeLit(d) => Value::DateTimeValue(d),
        Scalar::TimeLit(t) => Value::TimeValue(t),
    }
}

/// Reads a bare literal: the characters up to white space, a line feed, a
/// comment, a comma, a closing bracket or brace, or the end.
fn bare_literal(chars: &Vec<char>, c: &mut InputTokens) -> (r: Result<Value, ParseError>)
    requires
        tracks(*old(c), chars@),
    ensures
        tracks(*final(c), chars@),
        moved_on(*old(c), *final(c)),
        fails_within(r, chars@.len()),
        forall|i: int|
            old(c).position() <= i < final(c).position() ==> !ends_literal(
                Some(#[trigger] old(c).tokens()[i]),
            ),
        r is Ok ==> final(c).position() > old(c).position(),
        !ends_literal(old(c).current()) ==> {
            &&& ends_literal(final(c).current())
            &&& bare_literal_spec(
                chars@.subrange(old(c).position() as int, final(c).position() as int),
                old(c).line_spec(),
                old(c).col_spec(),
                r,
            )
        },
{
    if literal_end(c.peek()) {
        return Err(unexpected(c, "a value"));
    }
    let line = c.line();
    let col = c.col();
    let start = c.pos();
    let mut run: Vec<char> = Vec::new();
    while !literal_end(c.peek())
        invariant
            tracks(*c, chars@),
            moved_on(*old(c), *c),
            start == old(c).position(),
            run@ == chars@.subrange(start as int, c.position() as int),
            forall|i: int|
                old(c).position() <= i < c.position() ==> !ends_literal(
                    Some(#[trigger] old(c).tokens()[i]),
                ),
            line == old(c).line_spec(),
            col == old(c).col_spec(),
        decreases c.tokens().len() - c.position(),
    {
        let ghost before: int = c.position() as int;
        match take(chars, c) {
            Some((_, ch)) => {
                run.push(ch);
                proof {
                    assert(chars@.subrange(start as int, before + 1) =~= chars@.subrange(
                        start as int,
                        before as int,
                    ).push(ch));
                }
            },
            None => {},
        }
    }
    match classify(&run) {
        Ok(sc) => Ok(scalar_value(&run, sc)),
        Err(ScalarError::Number) => Err(ParseError::InvalidNumber(line, col)),
        Err(ScalarError::DateTime) => Err(ParseError::InvalidDateTime(line, col)),
    }
}

/// A token that opens a bare literal rather than a string, array or inline table.
pub open spec fn starts_bare_literal(t: Option<Token>) -> bool {
    &&& !ends_literal(t)
    &&& t != Some(Token::DoubleQuote)
    &&& t != Some(Token::SingleQuote)
    &&& t != Some(Token::LeftSquareBracket)
    &&& t != Some(Token::LeftCurlyBrace)
}

/// Reads one value at the cursor; arrays and inline tables may nest `depth`
/// levels more.
pub fn parse_value(chars: &Vec<char>, c: &mut InputTokens, depth: usize) -> (r: Result<
    Value,
    ParseError,
>)
    requires
        tracks(*old(c), chars@),
    ensures
        tracks(*final(c), chars@),
        moved_on(*old(c), *final(c)),
        fails_within(r, chars@.len()),
        r is Ok ==> final(c).position() > old(c).position(),
        old(c).current() is None ==> r == Err::<Value, ParseError>(ParseError::UnexpectedEndOfInput),
        starts_bare_literal(old(c).current()) ==> {
            &&& ends_literal(final(c).current())
            &&& forall|i: int|
                old(c).position() <= i < final(c).position() ==> !ends_literal(
                    Some(#[trigger] old(c).tokens()[i]),
                )
            &&& bare_literal_spec(
                chars@.subrange(old(c).position() as int, final(c).position() as int),
                old(c).line_spec(),
                old(c).col_spec(),
                r,
            )
        },
        old(c).current() == Some(Token::SingleQuote) && r is Ok ==> (r->Ok_0 matches Value::StringValue(s)
            && s@ == chars@.subrange(old(c).position() as int + 1, final(c).position() - 1)),
        r is Ok && old(c).current() == Some(Token::LeftSquareBracket) ==> chars@[final(c).position()
            - 1] == ']' && r->Ok_0 is Array,
        r is Ok && old(c).current() == Some(Token::LeftCurlyBrace) ==> (r->Ok_0 matches Value::InlineTable(t)
            && keys_unique(t@)),
        r is Ok && old(c).current() == Some(Token::LeftCurlyBrace) ==> chars@[final(c).position()
            - 1] == '}',
        r is Ok && old(c).current() == Some(Token::SingleQuote) ==> chars@[final(c).position() - 1]
            == '\'',
        old(c).current() == Some(Token::DoubleQuote) ==> forall|q: int| #[trigger]
            plain_until(chars@, old(c).position() as int + 1, q) ==> (r matches Ok(Value::StringValue(s))
                && s@ == chars@.subrange(old(c).position() as int + 1, q) && final(c).position() == q + 1),
        old(c).current() == Some(Token::DoubleQuote) && never_closes(
            chars@,
            old(c).position() as int + 1,
            '"',
            true,
        ) ==> r == Err::<Value, ParseError>(ParseError::UnexpectedEndOfInput),
        old(c).current() == Some(Token::SingleQuote) && never_closes(
            chars@,
            old(c).position() as int + 1,
            '\'',
            false,
        ) ==> r == Err::<Value, ParseError>(ParseError::UnexpectedEndOfInput),
        old(c).current() == Some(Token::DoubleQuote) && r is Ok ==> (r->Ok_0 matches Value::StringValue(s)
            && unescape(chars@.subrange(old(c).position() as int + 1, final(c).position() - 1))
            == Some(s@)),
    decreases depth, 1nat,
{
    match c.peek() {
        None => Err(ParseError::UnexpectedEndOfInput),
        Some(Token::DoubleQuote) => {
            c.next();
            let s = match basic_string(chars, c) {
                Ok(s) => s,
                Err(e) => {
                    return Err(e);
                },
            };
            Ok(Value::StringValue(s))
        },
        Some(Token::SingleQuote) => {
            c.next();
            let s = match literal_string(chars, c) {
                Ok(s) => s,
                Err(e) => {
                    return Err(e);
                },
            };
            Ok(Value::StringValue(s))
        },
        Some(Token::LeftSquareBracket) => {
            if depth == 0 {
                return Err(unexpected(c, "a value nested less deeply"));
            }
            c.next();
            parse_array(chars, c, depth)
        },
        Some(Token::LeftCurlyBrace) => {
            if depth == 0 {
                return Err(unexpected(c, "a value nested less deeply"));
            }
            c.next();
            parse_inline_table(chars, c, depth)
        },
        Some(_) => bare_literal(chars, c),
    }
}

/// Reads the elements of an array whose `[` is consumed, up to and including
/// its `]`. Elements are separated by commas; a trailing comma is allowed.
fn parse_array(chars: &Vec<char>, c: &mut InputTokens, depth: usize) -> (r: Result<
    Value,
    ParseError,
>)
    requires
        tracks(*old(c), chars@),
        depth > 0,
    ensures
        tracks(*final(c), chars@),
        moved_on(*old(c), *final(c)),
        fails_within(r, chars@.len()),
        r is Ok ==> final(c).position() > old(c).position(),
        r is Ok ==> chars@[final(c).position() - 1] == ']',
        r is Ok ==> r->Ok_0 is Array,
    decreases depth, 0nat,
{
    let mut items: Vec<Value> = Vec::new();
    loop
        invariant
            tracks(*c, chars@),
            moved_on(*old(c), *c),
            depth > 0,
        decreases c.tokens().len() - c.position(),
    {
        skip_blank(c);
        if c.peek() == Some(Token::RightSquareBracket) {
            c.next();
            return Ok(Value::Array(items));
        }
        let v = parse_value(chars, c, depth - 1)?;
        items.push(v);
        skip_blank(c);
        match c.peek() {
            Some(Token::Comma) => {
                c.next();
            },
            Some(Token::RightSquareBracket) => {
                c.next();
                return Ok(Value::Array(items));
            },
            _ => {
                return Err(unexpected(c, "`,` or `]`"));
            },
        }
    }
}

/// Reads the entries of an inline table whose `{` is consumed, up to and
/// including its `}`. Entries are `key = value`, separated by commas, with no
/// trailing comma.
fn parse_inline_table(chars: &Vec<char>, c: &mut InputTokens, depth: usize) -> (r: Result<
    Value,
    ParseError,
>)
    requires
        tracks(*old(c), chars@),
        depth > 0,
    ensures
        tracks(*final(c), chars@),
        moved_on(*old(c), *final(c)),
        fails_within(r, chars@.len()),
        r is Ok ==> final(c).position() > old(c).position(),
        r matches Ok(Value::InlineTable(t)) ==> keys_unique(t@),
        r is Ok ==> r->Ok_0 is InlineTable,
        r is Ok ==> chars@[final(c).position() - 1] == '}',
    decreases depth, 0nat,
{
    let mut entries: Vec<(String, Value)> = Vec::new();
    skip_ws(c);
    if c.peek() == Some(Token::RightCurlyBrace) {
        c.next();
        return Ok(Value::InlineTable(entries));
    }
    loop
        invariant
            tracks(*c, chars@),
            moved_on(*old(c), *c),
            keys_unique(entries@),
            depth > 0,
        decreases c.tokens().len() - c.position(),
    {
        skip_ws(c);
        let line = c.line();
        let col = c.col();
        let path = key_path(chars, c)?;
        skip_ws(c);
        expect(c, Token::Equal, "`=`")?;
        skip_ws(c);
        let v = parse_value(chars, c, depth - 1)?;
        insert_value(&mut entries, &path, 0, v, line, col)?;
        skip_ws(c);
        match c.peek() {
            Some(Token::Comma) => {
                c.next();
            },
            Some(Token::RightCurlyBrace) => {
                c.next();
                return Ok(Value::InlineTable(entries));
            },
            _ => {
                return Err(unexpected(c, "`,` or `}`"));
            },
        }
    }
}


/// Ends a line: white space, then an optional comment, then a line feed or
/// the end of the input.
fn end_of_line(c: &mut InputTokens) -> (r: Result<(), ParseError>)
    requires
        old(c).wf(),
    ensures
        moved_on(*old(c), *final(c)),
        fails_within(r, old(c).tokens().len()),
        old(c).current() is None ==> r is Ok,
        old(c).current() == Some(Token::NewLine) ==> r is Ok && final(c).position()
            == old(c).position() + 1,
{
    skip_ws(c);
    match c.peek() {
        None => Ok(()),
        Some(Token::NewLine) => {
            c.next();
            Ok(())
        },
        Some(Token::Pound) => {
            skip_comment(c);
            Ok(())
        },
        Some(_) => Err(unexpected(c, "the end of the line")),
    }
}

pub open spec fn same_keys(a: Seq<String>, b: Seq<String>) -> bool {
    a.len() == b.len() && forall|i: int| 0 <= i < a.len() ==> (#[trigger] a[i])@ == b[i]@
}

pub open spec fn has_prefix(p: Seq<String>, q: Seq<String>) -> bool {
    q.len() <= p.len() && same_keys(p.subrange(0, q.len() as int), q)
}

/// Whether `p` begins with the keys of `q`.
fn starts_with(p: &Vec<String>, q: &Vec<String>) -> (r: bool)
    ensures
        r == has_prefix(p@, q@),
{
    if q.len() > p.len() {
        return false;
    }
    let mut i: usize = 0;
    while i < q.len()
        invariant
            q@.len() <= p@.len(),
            i <= q@.len(),
            forall|j: int| 0 <= j < i ==> (#[trigger] p@[j])@ == q@[j]@,
        decreases q@.len() - i,
    {
        if p[i] != q[i] {
            assert(p@.subrange(0, q@.len() as int)[i as int] == p@[i as int]);
            return false;
        }
        i = i + 1;
    }
    proof {
        assert forall|j: int| 0 <= j < q@.len() implies (#[trigger] p@.subrange(
            0,
            q@.len() as int,
        )[j])@ == q@[j]@ by {
            assert(p@.subrange(0, q@.len() as int)[j] == p@[j]);
        }
    }
    true
}

/// A copy of `a` followed by a copy of `b`.
fn join(a: &Vec<String>, b: &Vec<String>) -> (r: Vec<String>)
    ensures
        r@ == a@ + b@,
{
    let mut r: Vec<String> = Vec::new();
    let mut i: usize = 0;
    while i < a.len()
        invariant
            i <= a@.len(),
            r@ == a@.subrange(0, i as int),
        decreases a@.len() - i,
    {
        r.push(a[i].clone());
        proof {
            assert(a@.subrange(0, i + 1) =~= a@.subrange(0, i as int).push(a@[i as int]));
        }
        i = i + 1;
    }
    let mut j: usize = 0;
    while j < b.len()
        invariant
            i == a@.len(),
            j <= b@.len(),
            r@ == a@ + b@.subrange(0, j as int),
        decreases b@.len() - j,
    {
        r.push(b[j].clone());
        proof {
            assert(b@.subrange(0, j + 1) =~= b@.subrange(0, j as int).push(b@[j as int]));
            assert(a@ + b@.subrange(0, j + 1) =~= (a@ + b@.subrange(0, j as int)).push(b@[j as int]));
        }
        j = j + 1;
    }
    proof {
        assert(a@.subrange(0, i as int) =~= a@);
        assert(b@.subrange(0, j as int) =~= b@);
    }
    r
}

/// The header paths of `defined` that do not begin with `q`.
fn drop_under(defined: &Vec<Vec<String>>, q: &Vec<String>) -> (r: Vec<Vec<String>>)
    ensures
        forall|i: int| 0 <= i < r@.len() ==> !has_prefix(#[trigger] r@[i]@, q@),
{
    let mut r: Vec<Vec<String>> = Vec::new();
    let empty: Vec<String> = Vec::new();
    let mut i: usize = 0;
    while i < defined.len()
        invariant
            i <= defined@.len(),
            empty@.len() == 0,
            forall|j: int| 0 <= j < r@.len() ==> !has_prefix(#[trigger] r@[j]@, q@),
        decreases defined@.len() - i,
    {
        if !starts_with(&defined[i], q) {
            let copy = join(&defined[i], &empty);
            proof {
                assert(copy@ =~= defined@[i as int]@);
            }
            r.push(copy);
        }
        i = i + 1;
    }
    r
}

/// Whether `q` is one of the paths of `defined`.
fn contains_path(defined: &Vec<Vec<String>>, q: &Vec<String>) -> (r: bool)
    ensures
        r == exists|i: int| 0 <= i < defined@.len() && same_keys(#[trigger] defined@[i]@, q@),
{
    let mut i: usize = 0;
    while i < defined.len()
        invariant
            i <= defined@.len(),
            forall|j: int| 0 <= j < i ==> !same_keys(#[trigger] defined@[j]@, q@),
        decreases defined@.len() - i,
    {
        if defined[i].len() == q.len() && starts_with(&defined[i], q) {
            proof {
                assert(defined@[i as int]@.subrange(0, q@.len() as int) =~= defined@[i as int]@);
            }
            return true;
        }
        proof {
            if defined@[i as int]@.len() == q@.len() {
                assert(defined@[i as int]@.subrange(0, q@.len() as int) =~= defined@[i as int]@);
            }
        }
        i = i + 1;
    }
    false
}

/// `chars[s..e]` is the line `k = lit`: a bare key of `klen` characters, a
/// space, `=`, a space, and a bare literal running to `e`.
pub open spec fn assignment_at(chars: Seq<char>, s: int, klen: int, e: int) -> bool {
    &&& 0 <= s
    &&& 0 < klen
    &&& s + klen + 3 < e <= chars.len()
    &&& forall|i: int| s <= i < s + klen ==> is_bare_key_token(#[trigger] token_of(chars[i]))
    &&& chars[s + klen] == ' '
    &&& chars[s + klen + 1] == '='
    &&& chars[s + klen + 2] == ' '
    &&& starts_bare_literal(Some(token_of(chars[s + klen + 3])))
    &&& forall|i: int| s + klen + 3 <= i < e ==> !ends_literal(Some(#[trigger] token_of(chars[i])))
}

/// `chars` is the one line `k = lit` with a key of `klen` characters.
pub open spec fn one_assignment(chars: Seq<char>, klen: int) -> bool {
    assignment_at(chars, 0, klen, chars.len() as int)
}

/// `chars` is two lines `k = lit` with the same key of `klen` characters,
/// the first ending at `e`, and both literals valid.
pub open spec fn repeated_key(chars: Seq<char>, klen: int, e: int) -> bool {
    &&& assignment_at(chars, 0, klen, e)
    &&& classify_spec(chars.subrange(klen + 3, e)) is Ok
    &&& e < chars.len()
    &&& chars[e] == '\n'
    &&& assignment_at(chars, e + 1, klen, chars.len() as int)
    &&& classify_spec(chars.subrange(e + 1 + klen + 3, chars.len() as int)) is Ok
    &&& chars.subrange(e + 1, e + 1 + klen) == chars.subrange(0, klen)
}

proof fn lemma_repeated_key_unique(chars: Seq<char>, a: int, e: int, b: int, f: int)
    requires
        repeated_key(chars, a, e),
        repeated_key(chars, b, f),
    ensures
        a == b && e == f,
{
    if a < b {
        assert(is_bare_key_token(token_of(chars[a])));
    }
    if b < a {
        assert(is_bare_key_token(token_of(chars[b])));
    }
    if e < f {
        assert(!ends_literal(Some(token_of(chars[e]))));
    }
    if f < e {
        assert(!ends_literal(Some(token_of(chars[f]))));
    }
}

/// The outcome of parsing the line `k = lit`: a table holding `k` alone, with
/// the value that the literal stands for; or the literal's error at its start.
pub open spec fn assignment_result(chars: Seq<char>, klen: int, r: Result<Value, ParseError>) -> bool {
    let lit = chars.subrange(klen + 3, chars.len() as int);
    match classify_spec(lit) {
        Ok(sc) => r matches Ok(Value::Table(t)) && t@.len() == 1 && t@[0].0@ == chars.subrange(
            0,
            klen,
        ) && scalar_value_spec(lit, sc, t@[0].1),
        Err(ScalarError::Number) => r == Err::<Value, ParseError>(
            ParseError::InvalidNumber(0, (klen + 3) as usize),
        ),
        Err(ScalarError::DateTime) => r == Err::<Value, ParseError>(
            ParseError::InvalidDateTime(0, (klen + 3) as usize),
        ),
    }
}

/// `chars` is a bare key of `klen` characters, ` = `, and a string whose
/// opening quote is never closed.
pub open spec fn unclosed_string(chars: Seq<char>, klen: int) -> bool {
    &&& 0 < klen
    &&& klen + 3 < chars.len()
    &&& forall|i: int| 0 <= i < klen ==> is_bare_key_token(#[trigger] token_of(chars[i]))
    &&& chars[klen] == ' '
    &&& chars[klen + 1] == '='
    &&& chars[klen + 2] == ' '
    &&& {
        ||| chars[klen + 3] == '"' && never_closes(chars, klen + 4, '"', true)
        ||| chars[klen + 3] == '\'' && never_closes(chars, klen + 4, '\'', false)
    }
}

proof fn lemma_unclosed_string_unique(chars: Seq<char>, a: int, b: int)
    requires
        unclosed_string(chars, a),
        unclosed_string(chars, b),
    ensures
        a == b,
{
    if a < b {
        assert(is_bare_key_token(token_of(chars[a])));
    }
    if b < a {
        assert(is_bare_key_token(token_of(chars[b])));
    }
}

/// `chars` is the one line `k = "body"`: a bare key of `klen` characters,
/// ` = `, and a quoted string with a plain body that closes at the end.
pub open spec fn quoted_assignment(chars: Seq<char>, klen: int) -> bool {
    &&& 0 < klen
    &&& klen + 4 < chars.len()
    &&& forall|i: int| 0 <= i < klen ==> is_bare_key_token(#[trigger] token_of(chars[i]))
    &&& chars[klen] == ' '
    &&& chars[klen + 1] == '='
    &&& chars[klen + 2] == ' '
    &&& chars[klen + 3] == '"'
    &&& plain_until(chars, klen + 4, chars.len() - 1)
}

/// The outcome of parsing the line `k = "body"`: a table holding `k` alone,
/// with the body as a string.
pub open spec fn quoted_result(chars: Seq<char>, klen: int, r: Result<Value, ParseError>) -> bool {
    r matches Ok(Value::Table(t)) && t@.len() == 1 && t@[0].0@ == chars.subrange(0, klen) && (
    t@[0].1 matches Value::StringValue(s) && s@ == chars.subrange(klen + 4, chars.len() - 1))
}

proof fn lemma_quoted_assignment_unique(chars: Seq<char>, a: int, b: int)
    requires
        quoted_assignment(chars, a),
        quoted_assignment(chars, b),
    ensures
        a == b,
{
    if a < b {
        assert(is_bare_key_token(token_of(chars[a])));
    }
    if b < a {
        assert(is_bare_key_token(token_of(chars[b])));
    }
}

proof fn lemma_one_assignment_unique(chars: Seq<char>, a: int, b: int)
    requires
        one_assignment(chars, a),
        one_assignment(chars, b),
    ensures
        a == b,
{
    if a < b {
        assert(is_bare_key_token(token_of(chars[a])));
    }
    if b < a {
        assert(is_bare_key_token(token_of(chars[b])));
    }
}

/// A character that can start no line: it lexes to the catch-all token and
/// may not stand in a bare key.
pub open spec fn starts_stray(ch: char) -> bool {
    token_of(ch) == Token::Character(ch) && !is_bare_key_token(Token::Character(ch))
}

/// Parses a document given as characters into its root table.
#[verifier::rlimit(100)]
#[verifier::spinoff_prover]
pub fn parse_chars(chars: &Vec<char>) -> (r: Result<Value, ParseError>)
    ensures
        r is Ok ==> r->Ok_0 is Table,
        r matches Ok(Value::Table(t)) ==> keys_unique(t@),
        chars@.len() == 0 ==> (r matches Ok(Value::Table(t)) && t@.len() == 0),
        fails_within(r, chars@.len()),
        chars@.len() > 0 && starts_stray(chars@[0]) ==> r == Err::<Value, ParseError>(
            ParseError::IllegalChar(chars@[0], 0, 0),
        ),
        forall|klen: int| #[trigger] one_assignment(chars@, klen) ==> assignment_result(chars@, klen, r),
        forall|klen: int, e: int| #[trigger]
            repeated_key(chars@, klen, e) ==> (r matches Err(ParseError::DuplicateKey(k, l, k2))
                && k@ == chars@.subrange(0, klen) && l == 1 && k2 == 0),
        forall|klen: int| #[trigger]
            unclosed_string(chars@, klen) ==> r == Err::<Value, ParseError>(
                ParseError::UnexpectedEndOfInput,
            ),
        forall|klen: int| #[trigger] quoted_assignment(chars@, klen) ==> quoted_result(chars@, klen, r),
{
    let mut c = InputTokens::from_chars(chars);
    let mut root: Vec<(String, Value)> = Vec::new();
    // The key path of the table that key/value lines go into.
    let mut current: Vec<String> = Vec::new();
    // The paths opened by `[...]` headers, which may not be opened twice. A
    // `[[...]]` header starts a new table, below which paths are fresh again.
    let mut defined: Vec<Vec<String>> = Vec::new();
    let ghost kl: int = choose|k: int| one_assignment(chars@, k);
    let ghost lit = chars@.subrange(kl + 3, chars@.len() as int);
    proof {
        assert forall|klen: int| #[trigger] one_assignment(chars@, klen) implies klen == kl by {
            lemma_one_assignment_unique(chars@, klen, kl);
        }
    }
    let ghost rk: int = (choose|k: int, e: int| repeated_key(chars@, k, e)).0;
    let ghost re: int = (choose|k: int, e: int| repeated_key(chars@, k, e)).1;
    proof {
        assert forall|k: int, e: int| #[trigger] repeated_key(chars@, k, e) implies k == rk && e
            == re by {
            lemma_repeated_key_unique(chars@, k, e, rk, re);
        }
    }
    let ghost uk: int = choose|k: int| unclosed_string(chars@, k);
    proof {
        assert forall|k: int| #[trigger] unclosed_string(chars@, k) implies k == uk by {
            lemma_unclosed_string_unique(chars@, k, uk);
        }
    }
    let ghost qk: int = choose|k: int| quoted_assignment(chars@, k);
    proof {
        assert forall|k: int| #[trigger] quoted_assignment(chars@, k) implies k == qk by {
            lemma_quoted_assignment_unique(chars@, k, qk);
        }
    }
    loop
        invariant
            forall|k: int| #[trigger] quoted_assignment(chars@, k) ==> k == qk,
            quoted_assignment(chars@, qk) ==> (c.position() == 0 && root@.len() == 0) || (
            c.position() == chars@.len() && quoted_result(chars@, qk, Ok(Value::Table(root)))),
            forall|k: int| #[trigger] unclosed_string(chars@, k) ==> k == uk,
            unclosed_string(chars@, uk) ==> c.position() == 0,
            forall|k: int, e: int| #[trigger] repeated_key(chars@, k, e) ==> k == rk && e == re,
            repeated_key(chars@, rk, re) ==> (c.position() == 0 && root@.len() == 0) || (
            c.position() == re + 1 && root@.len() == 1 && root@[0].0@ == chars@.subrange(0, rk)
                && c.line_spec() == 1 && c.col_spec() == 0 && current@.len() == 0),
            forall|klen: int| #[trigger] one_assignment(chars@, klen) ==> klen == kl,
            kl == choose|k: int| one_assignment(chars@, k),
            lit == chars@.subrange(kl + 3, chars@.len() as int),
            one_assignment(chars@, kl) ==> (c.position() == 0 && root@.len() == 0) || (c.position()
                == chars@.len() && classify_spec(lit) is Ok && root@.len() == 1 && root@[0].0@
                == chars@.subrange(0, kl) && scalar_value_spec(
                lit,
                classify_spec(lit)->Ok_0,
                root@[0].1,
            )),
            tracks(c, chars@),
            keys_unique(root@),
            chars@.len() == 0 ==> root@.len() == 0,
            c.position() == 0 ==> c.line_spec() == 0 && c.col_spec() == 0,
            c.position() == 0 ==> current@.len() == 0,
            chars@.len() > 0 && starts_stray(chars@[0]) ==> c.position() == 0,
        decreases c.tokens().len() - c.position(),
    {
        proof {
            if unclosed_string(chars@, uk) {
                assert(c.tokens()[0] == token_of(chars@[0]));
            }
            if quoted_assignment(chars@, qk) && c.position() == 0 {
                assert(c.tokens()[0] == token_of(chars@[0]));
            }
        }
        skip_ws(&mut c);
        let line = c.line();
        let col = c.col();
        match c.peek() {
            None => {
                return Ok(Value::Table(root));
            },
            Some(Token::NewLine) => {
                c.next();
            },
            Some(Token::Pound) => {
                skip_comment(&mut c);
            },
            Some(Token::LeftSquareBracket) => {
                c.next();
                let array = c.peek() == Some(Token::LeftSquareBracket);
                if array {
                    c.next();
                }
                skip_ws(&mut c);
                let path = key_path(chars, &mut c)?;
                skip_ws(&mut c);
                expect(&mut c, Token::RightSquareBracket, "`]`")?;
                if array {
                    expect(&mut c, Token::RightSquareBracket, "`]`")?;
                } else if contains_path(&defined, &path) {
                    return Err(ParseError::DuplicateKey(path[path.len() - 1].clone(), line, col));
                }
                open_header(&mut root, &path, 0, array, line, col)?;
                if array {
                    defined = drop_under(&defined, &path);
                } else {
                    let empty: Vec<String> = Vec::new();
                    defined.push(join(&path, &empty));
                }
                current = path;
                end_of_line(&mut c)?;
            },
            Some(_) => {
                let ghost p0 = c.position() as int;
                let ghost one = one_assignment(chars@, kl) && p0 == 0;
                let ghost first = repeated_key(chars@, rk, re) && p0 == 0;
                let ghost second = repeated_key(chars@, rk, re) && p0 == re + 1;
                let ghost shape = one || first || second;
                let ghost unc = unclosed_string(chars@, uk) && p0 == 0;
                let ghost qa = quoted_assignment(chars@, qk) && p0 == 0;
                let ghost kk = if one {
                    kl
                } else {
                    rk
                };
                let ghost stop = if first && !one {
                    re
                } else {
                    chars@.len() as int
                };
                proof {
                    if one && first {
                        assert(!ends_literal(Some(token_of(chars@[re]))));
                    }
                    if shape {
                        assert(assignment_at(chars@, p0, kk, stop));
                        assert(bare_key_then_equal(c.tokens(), p0, p0 + kk));
                    }
                    if unc {
                        assert(bare_key_then_equal(c.tokens(), 0, uk));
                    }
                    if qa {
                        assert(bare_key_then_equal(c.tokens(), 0, qk));
                    }
                }
                let key = match key_path(chars, &mut c) {
                    Ok(k) => k,
                    Err(e) => {
                        return Err(e);
                    },
                };
                skip_ws(&mut c);
                expect(&mut c, Token::Equal, "`=`")?;
                skip_ws(&mut c);
                proof {
                    if shape {
                        let f = c.position() as int;
                        assert(c.tokens()[p0 + kk + 3] == token_of(chars@[p0 + kk + 3]));
                        if f > p0 + kk + 3 {
                            assert(c.tokens()[p0 + kk + 3] == Token::WhiteSpace);
                        }
                        if f == p0 + kk + 2 {
                            assert(c.current() == Some(Token::WhiteSpace));
                        }
                        assert(f == p0 + kk + 3);
                        assert forall|i: int| p0 <= i < f implies c.tokens()[i] != Token::NewLine by {
                            assert(c.tokens()[i] == token_of(chars@[i]));
                        }
                        lemma_same_line(c.tokens(), p0, f);
                    }
                    if qa {
                        let f = c.position() as int;
                        assert(c.tokens()[qk + 3] == token_of(chars@[qk + 3]));
                        if f > qk + 3 {
                            assert(c.tokens()[qk + 3] == Token::WhiteSpace);
                        }
                        if f == qk + 2 {
                            assert(c.current() == Some(Token::WhiteSpace));
                        }
                        assert(f == qk + 3);
                        assert(plain_until(chars@, qk + 4, chars@.len() - 1));
                    }
                    if unc {
                        let f = c.position() as int;
                        assert(c.tokens()[uk + 3] == token_of(chars@[uk + 3]));
                        if f > uk + 3 {
                            assert(c.tokens()[uk + 3] == Token::WhiteSpace);
                        }
                        if f == uk + 2 {
                            assert(c.current() == Some(Token::WhiteSpace));
                        }
                        assert(f == uk + 3);
                    }
                }
                let v = match parse_value(chars, &mut c, MAX_DEPTH) {
                    Ok(v) => v,
                    Err(e) => {
                        proof {
                            if shape {
                                let f = c.position() as int;
                                if f < stop {
                                    assert(c.tokens()[f] == token_of(chars@[f]));
                                }
                                if f > stop {
                                    assert(c.tokens()[stop] == token_of(chars@[stop]));
                                }
                                assert(f == stop);
                            }
                        }
                        return Err(e);
                    },
                };
                proof {
                    if shape {
                        let f = c.position() as int;
                        if f < stop {
                            assert(c.tokens()[f] == token_of(chars@[f]));
                        }
                        if f > stop {
                            assert(c.tokens()[stop] == token_of(chars@[stop]));
                        }
                        assert(f == stop);
                    }
                }
                let full = join(&current, &key);
                proof {
                    if shape || qa {
                        assert(full@ =~= key@);
                    }
                    if second {
                        assert(root@[0].0@ == full@[0]@);
                    }
                }
                match insert_value(&mut root, &full, 0, v, line, col) {
                    Ok(()) => {},
                    Err(e) => {
                        return Err(e);
                    },
                }
                proof {
                    if first && !one {
                        assert(c.tokens()[re] == token_of(chars@[re]));
                    }
                }
                end_of_line(&mut c)?;
                proof {
                    if first && !one {
                        assert(c.position() == re + 1);
                        assert forall|i: int| 0 <= i < re implies c.tokens()[i] != Token::NewLine by {
                            assert(c.tokens()[i] == token_of(chars@[i]));
                        }
                        lemma_same_line(c.tokens(), 0, re);
                        lemma_no_newline(c.tokens().subrange(0, 0));
                        lemma_after_newline(c.tokens(), re);
                        assert(root@.len() == 1);
                        assert(root@[0].0@ == chars@.subrange(0, rk));
                    }
                }
            },
        }
    }
}

/// Parses a document into its root table.
pub fn parse(text: &str) -> (r: Result<Value, ParseError>)
    ensures
        r is Ok ==> r->Ok_0 is Table,
        r matches Ok(Value::Table(t)) ==> keys_unique(t@),
        text@.len() == 0 ==> (r matches Ok(Value::Table(t)) && t@.len() == 0),
        fails_within(r, text@.len()),
        text@.len() > 0 && starts_stray(text@[0]) ==> r == Err::<Value, ParseError>(
            ParseError::IllegalChar(text@[0], 0, 0),
        ),
        forall|klen: int| #[trigger] one_assignment(text@, klen) ==> assignment_result(text@, klen, r),
        forall|klen: int, e: int| #[trigger]
            repeated_key(text@, klen, e) ==> (r matches Err(ParseError::DuplicateKey(k, l, k2))
                && k@ == text@.subrange(0, klen) && l == 1 && k2 == 0),
        forall|klen: int| #[trigger]
            unclosed_string(text@, klen) ==> r == Err::<Value, ParseError>(
                ParseError::UnexpectedEndOfInput,
            ),
        forall|klen: int| #[trigger] quoted_assignment(text@, klen) ==> quoted_result(text@, klen, r),
{
    let chars = chars_of(text);
    parse_chars(&chars)
}

} // verus!
