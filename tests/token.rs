use toml_lite::token::{lex, InputTokens, Token};

#[test]
fn test_token_from_char() {
    assert_eq!(Token::from(' '), Token::WhiteSpace);
    assert_eq!(Token::from('\t'), Token::WhiteSpace);
    assert_eq!(Token::from('\n'), Token::NewLine);
    assert_eq!(Token::from(0xA as char), Token::NewLine);
    assert_eq!(Token::from('.'), Token::Period);
    assert_eq!(Token::from(','), Token::Comma);
    assert_eq!(Token::from('#'), Token::Pound);
    assert_eq!(Token::from('['), Token::LeftSquareBracket);
    assert_eq!(Token::from(']'), Token::RightSquareBracket);
    assert_eq!(Token::from('{'), Token::LeftCurlyBrace);
    assert_eq!(Token::from('}'), Token::RightCurlyBrace);
    assert_eq!(Token::from('='), Token::Equal);
    assert_eq!(Token::from('"'), Token::DoubleQuote);
    assert_eq!(Token::from('\''), Token::SingleQuote);
    assert_eq!(Token::from('+'), Token::PlusSign);
    assert_eq!(Token::from('-'), Token::MinusSign);
    assert_eq!(Token::from('/'), Token::Slash);
    (0..10).for_each(|d| {
        let c = char::from_digit(d, 10).unwrap();
        assert_eq!(Token::from(c), Token::Number(d));
    });
    ('a'..='z').for_each(|ch| {
        assert_eq!(Token::from(ch), Token::Character(ch));
    });
    ('A'..='Z').for_each(|ch| {
        assert_eq!(Token::from(ch), Token::Character(ch));
    });
    let tokens = vec![
        '!', '@', '$', '%', '^', '&', '*', '(', ')', '~', '<', '>', ':', ';', '\\',
    ];
    tokens.into_iter().for_each(|ch| {
        assert_eq!(Token::from(ch), Token::Character(ch));
    });
}

#[test]
fn unicode_white_space_and_others() {
    assert_eq!(Token::from('\u{3000}'), Token::WhiteSpace);
    assert_eq!(Token::from('\r'), Token::WhiteSpace);
    assert_eq!(Token::from('\u{a0}'), Token::WhiteSpace);
    assert_eq!(Token::from('_'), Token::Character('_'));
    assert_eq!(Token::from('é'), Token::Character('é'));
    assert_eq!(Token::from('\u{0}'), Token::Character('\u{0}'));
}

#[test]
fn lex_gives_one_token_per_character() {
    let chars: Vec<char> = "a = [1]\n".chars().collect();
    let tokens = lex(&chars);
    assert_eq!(tokens.len(), chars.len());
    assert_eq!(
        tokens,
        vec![
            Token::Character('a'),
            Token::WhiteSpace,
            Token::Equal,
            Token::WhiteSpace,
            Token::LeftSquareBracket,
            Token::Number(1),
            Token::RightSquareBracket,
            Token::NewLine,
        ]
    );
    assert!(lex(&Vec::new()).is_empty());
}

#[test]
fn cursor_tracks_line_and_column() {
    let mut c = InputTokens::from_text("ab\nc");
    assert!(c.has_next());
    assert_eq!(c.peek(), Some(Token::Character('a')));
    assert_eq!(c.next_token(), Some(Token::Character('b')));
    assert_eq!(c.next(), Some(Token::Character('a')));
    assert_eq!((c.line(), c.col(), c.pos()), (0, 1, 1));
    assert_eq!(c.next(), Some(Token::Character('b')));
    assert_eq!(c.next(), Some(Token::NewLine));
    assert_eq!((c.line(), c.col(), c.pos()), (1, 0, 3));
    assert_eq!(c.next_token(), None);
    assert_eq!(c.next(), Some(Token::Character('c')));
    assert!(!c.has_next());
    assert_eq!(c.next(), None);
    assert_eq!(c.next(), None);
    assert_eq!((c.line(), c.col(), c.pos()), (1, 1, 4));
}
