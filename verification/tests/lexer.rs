use novadb::lexer::{keyword, lex, Keyword, LexError, LexErrorKind, Span, TokenKind};

/// A token kind with float literals read as numbers.
#[derive(Debug, PartialEq)]
enum Kind {
    Token(TokenKind),
    Float(f64),
}

fn t(kind: TokenKind) -> Kind {
    Kind::Token(kind)
}

fn kinds(source: &str) -> Vec<Kind> {
    lex(source)
        .unwrap()
        .into_iter()
        .map(|token| match token.kind {
            TokenKind::Float(text) => Kind::Float(text.parse::<f64>().unwrap()),
            other => Kind::Token(other),
        })
        .collect()
}

fn ident(name: &str) -> Kind {
    t(TokenKind::Identifier(name.to_owned()))
}

fn kw(keyword: Keyword) -> Kind {
    t(TokenKind::Keyword(keyword))
}

#[test]
fn lexes_a_representative_novaql_pipeline() {
    assert_eq!(
        kinds("find students | where cgpa >= 8.5 and active == true | sort by cgpa desc | limit 10;"),
        vec![
            kw(Keyword::Find),
            ident("students"),
            t(TokenKind::Pipe),
            kw(Keyword::Where),
            ident("cgpa"),
            t(TokenKind::GreaterEqual),
            Kind::Float(8.5),
            kw(Keyword::And),
            ident("active"),
            t(TokenKind::EqualEqual),
            kw(Keyword::True),
            t(TokenKind::Pipe),
            kw(Keyword::Sort),
            kw(Keyword::By),
            ident("cgpa"),
            kw(Keyword::Desc),
            t(TokenKind::Pipe),
            kw(Keyword::Limit),
            t(TokenKind::Integer(10)),
            t(TokenKind::Semicolon),
            t(TokenKind::Eof),
        ]
    );
}

#[test]
fn lexes_document_literals_punctuation_and_operators() {
    let source = r#"insert into users {name: "Ada", scores: [1, -2, 3.0], ok: !false}; a.b != 0 + 2 * 4 / 2 % 3 <= 9 > 1 = 1"#;
    let tokens = kinds(source);
    for expected in [
        TokenKind::LeftBrace,
        TokenKind::RightBrace,
        TokenKind::LeftBracket,
        TokenKind::RightBracket,
        TokenKind::Colon,
        TokenKind::Comma,
        TokenKind::Minus,
        TokenKind::Bang,
        TokenKind::Dot,
        TokenKind::BangEqual,
        TokenKind::Plus,
        TokenKind::Star,
        TokenKind::Slash,
        TokenKind::Percent,
        TokenKind::LessEqual,
        TokenKind::Greater,
        TokenKind::Equal,
    ] {
        let expected = t(expected);
        assert!(tokens.contains(&expected), "missing {expected:?}");
    }
}

#[test]
fn strings_decode_json_escapes_unicode_and_surrogate_pairs() {
    assert_eq!(
        kinds(r#""line\nquote\" slash\\ snowman \u2603 planet \uD83C\uDF0D""#),
        vec![
            t(TokenKind::String("line\nquote\" slash\\ snowman ☃ planet 🌍".to_owned())),
            t(TokenKind::Eof),
        ]
    );
}

#[test]
fn unicode_identifiers_and_byte_spans_are_preserved() {
    let source = "find विद्यार्थी";
    let tokens = lex(source).unwrap();
    assert_eq!(tokens[1].kind, TokenKind::Identifier("विद्यार्थी".to_owned()));
    assert_eq!(&source[tokens[1].span.start..tokens[1].span.end], "विद्यार्थी");
    assert_eq!(tokens.last().unwrap().span, Span::new(source.len(), source.len()));
}

#[test]
fn keywords_are_case_insensitive_but_identifiers_keep_case() {
    assert_eq!(
        kinds("FiNd Students TRUE null"),
        vec![
            kw(Keyword::Find),
            ident("Students"),
            kw(Keyword::True),
            kw(Keyword::Null),
            t(TokenKind::Eof),
        ]
    );
}

#[test]
fn comments_and_whitespace_are_discarded() {
    assert_eq!(
        kinds("find // one line\n users /* block */ | limit 1"),
        vec![
            kw(Keyword::Find),
            ident("users"),
            t(TokenKind::Pipe),
            kw(Keyword::Limit),
            t(TokenKind::Integer(1)),
            t(TokenKind::Eof),
        ]
    );
}

#[test]
fn numeric_forms_are_typed() {
    assert_eq!(
        kinds("0 127 0.25 1e3 2.5E-2 1.foo"),
        vec![
            t(TokenKind::Integer(0)),
            t(TokenKind::Integer(127)),
            Kind::Float(0.25),
            Kind::Float(1_000.0),
            Kind::Float(0.025),
            t(TokenKind::Integer(1)),
            t(TokenKind::Dot),
            ident("foo"),
            t(TokenKind::Eof),
        ]
    );
}

fn error(source: &str) -> LexError {
    lex(source).unwrap_err()
}

#[test]
fn malformed_input_reports_kind_and_exact_span() {
    let cases = [
        ("@", LexErrorKind::UnexpectedCharacter('@'), 0, 1),
        ("\"unterminated", LexErrorKind::UnterminatedString, 0, 13),
        ("\"bad\\q\"", LexErrorKind::InvalidEscape('q'), 4, 6),
        ("\"\\u12xz\"", LexErrorKind::InvalidUnicodeEscape, 1, 6),
        ("\"\\uDC00\"", LexErrorKind::InvalidUnicodeEscape, 1, 7),
        ("\"\\uD83Cx\"", LexErrorKind::InvalidUnicodeEscape, 1, 7),
        ("/* open", LexErrorKind::UnterminatedBlockComment, 0, 7),
        ("1e", LexErrorKind::InvalidNumber, 0, 2),
        ("123abc", LexErrorKind::InvalidNumber, 0, 6),
        ("\"a\u{7}\"", LexErrorKind::UnexpectedCharacter('\u{7}'), 2, 3),
    ];
    for (source, kind, start, end) in cases {
        let found = error(source);
        assert_eq!(found.kind, kind, "{source:?}");
        assert_eq!(found.span, Span::new(start, end), "{source:?}");
        assert!(found.span.end <= source.len());
    }
}

#[test]
fn integers_must_fit_a_signed_64_bit_value() {
    assert_eq!(
        lex("9223372036854775807").unwrap()[0].kind,
        TokenKind::Integer(i64::MAX)
    );
    let overflow = error("9223372036854775808");
    assert_eq!(overflow.kind, LexErrorKind::InvalidNumber);
    assert_eq!(overflow.span, Span::new(0, 19));
}

#[test]
fn spans_count_bytes_of_multibyte_characters() {
    let source = "é = \"☃\"";
    let tokens = lex(source).unwrap();
    assert_eq!(tokens[0].span, Span::new(0, 2));
    assert_eq!(tokens[1].span, Span::new(3, 4));
    assert_eq!(tokens[2].span, Span::new(5, 10));
    assert_eq!(tokens[3].span, Span::new(10, 10));
    assert!(lex("").unwrap() == vec![novadb::lexer::Token { kind: TokenKind::Eof, span: Span::new(0, 0) }]);
}

#[test]
fn keyword_lookup_ignores_ascii_case_only() {
    assert_eq!(keyword("SeT"), Some(Keyword::SetClause));
    assert_eq!(keyword("collection"), Some(Keyword::Collection));
    assert_eq!(keyword("sets"), None);
    assert_eq!(keyword(""), None);
}

#[test]
fn span_join_covers_both() {
    assert_eq!(Span::new(4, 6).join(Span::new(1, 5)), Span::new(1, 6));
    assert_eq!(Span::new(2, 3).join(Span::new(7, 9)), Span::new(2, 9));
}
