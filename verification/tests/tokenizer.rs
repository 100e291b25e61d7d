use exprlex::input::{Cursor, Span};
use exprlex::lex::{Error, Token, TokenKind, Tokenizer};

fn tokens_of(src: &str) -> Vec<Result<Token, Error>> {
    let cursor = Cursor::new(src.chars().collect());
    let mut tokenizer = Tokenizer::new(cursor);
    let mut out = Vec::new();
    while let Some(item) = tokenizer.next_token() {
        let failed = item.is_err();
        out.push(item);
        if failed {
            break;
        }
    }
    out
}

fn kinds_of(src: &str) -> Vec<TokenKind> {
    tokens_of(src).into_iter().map(|item| item.unwrap().kind).collect()
}

#[test]
fn test_tokenizer() {
    let tokens = kinds_of("1 + 2 # a comment");
    assert_eq!(
        tokens,
        vec![
            TokenKind::Num("1".to_string()),
            TokenKind::Space,
            TokenKind::Plus,
            TokenKind::Space,
            TokenKind::Num("2".to_string()),
            TokenKind::Space,
            TokenKind::Comment(" a comment".to_string()),
        ]
    );
    assert_eq!("1".parse::<f64>().unwrap(), 1.0);
    assert_eq!("2".parse::<f64>().unwrap(), 2.0);
}

#[test]
fn full_statement_scenario() {
    let tokens = kinds_of("x = 1 + 2 # sum\n");
    assert_eq!(
        tokens,
        vec![
            TokenKind::Symbol("x".to_string()),
            TokenKind::Space,
            TokenKind::Equal,
            TokenKind::Space,
            TokenKind::Num("1".to_string()),
            TokenKind::Space,
            TokenKind::Plus,
            TokenKind::Space,
            TokenKind::Num("2".to_string()),
            TokenKind::Space,
            TokenKind::Comment(" sum".to_string()),
            TokenKind::NewLine,
        ]
    );
}

#[test]
fn empty_input_yields_nothing() {
    assert!(tokens_of("").is_empty());
}

#[test]
fn single_char_tokens() {
    let tokens = kinds_of("()=+-*/%,\n");
    assert_eq!(
        tokens,
        vec![
            TokenKind::OpenPar,
            TokenKind::ClosePar,
            TokenKind::Equal,
            TokenKind::Plus,
            TokenKind::Minus,
            TokenKind::Star,
            TokenKind::Slash,
            TokenKind::Percent,
            TokenKind::Comma,
            TokenKind::NewLine,
        ]
    );
}

#[test]
fn numeric_round_trip() {
    for (src, value) in [("0", 0.0f64), ("3.14", 3.14f64), ("120.5", 120.5f64)] {
        let tokens = tokens_of(src);
        assert_eq!(tokens.len(), 1);
        let token = tokens[0].as_ref().unwrap();
        assert_eq!(token.span, Span { start: 0, end: src.chars().count() });
        match &token.kind {
            TokenKind::Num(text) => {
                assert_eq!(text, src);
                assert_eq!(text.parse::<f64>().unwrap(), value);
            }
            other => panic!("expected a number, got {:?}", other),
        }
    }
}

#[test]
fn trailing_dot_and_leading_dot_parse() {
    let tokens = kinds_of("1.");
    assert_eq!(tokens, vec![TokenKind::Num("1.".to_string())]);
    assert_eq!("1.".parse::<f64>().unwrap(), 1.0);
    let tokens = kinds_of(".5");
    assert_eq!(tokens, vec![TokenKind::Num(".5".to_string())]);
    assert_eq!(".5".parse::<f64>().unwrap(), 0.5);
}

#[test]
fn pushback_keeps_spans_contiguous() {
    let tokens = tokens_of("12+3");
    let tokens: Vec<Token> = tokens.into_iter().map(|item| item.unwrap()).collect();
    assert_eq!(tokens[0].kind, TokenKind::Num("12".to_string()));
    assert_eq!(tokens[0].span, Span { start: 0, end: 2 });
    assert_eq!(tokens[1].kind, TokenKind::Plus);
    assert_eq!(tokens[1].span, Span { start: 2, end: 3 });
    assert_eq!(tokens[2].kind, TokenKind::Num("3".to_string()));
    assert_eq!(tokens[2].span, Span { start: 3, end: 4 });
    assert_eq!(tokens.len(), 3);
}

#[test]
fn dot_after_symbol_starts_numeric_run() {
    let tokens = kinds_of("a1.5");
    assert_eq!(
        tokens,
        vec![TokenKind::Symbol("a1".to_string()), TokenKind::Num(".5".to_string())]
    );
}

#[test]
fn spans_partition_the_input() {
    let src = "x = 1 + 2 # sum\n";
    let chars: Vec<char> = src.chars().collect();
    let mut rebuilt = String::new();
    for item in tokens_of(src) {
        let token = item.unwrap();
        rebuilt.extend(chars[token.span.start..token.span.end].iter());
    }
    assert_eq!(rebuilt, src);
}

#[test]
fn spans_cover_input_up_to_failure() {
    let src = "ab$cd";
    let chars: Vec<char> = src.chars().collect();
    let mut rebuilt = String::new();
    let mut saw_error = false;
    for item in tokens_of(src) {
        match item {
            Ok(token) => rebuilt.extend(chars[token.span.start..token.span.end].iter()),
            Err(err) => {
                saw_error = true;
                assert!(matches!(err, Error::InvalidChar(_, '$')));
            }
        }
    }
    assert!(saw_error);
    assert_eq!(rebuilt, "ab");
}

#[test]
fn whitespace_run_collapses_into_one_space() {
    let tokens = tokens_of("a \t\r b");
    let tokens: Vec<Token> = tokens.into_iter().map(|item| item.unwrap()).collect();
    assert_eq!(tokens[0].kind, TokenKind::Symbol("a".to_string()));
    assert_eq!(tokens[1].kind, TokenKind::Space);
    assert_eq!(tokens[1].span, Span { start: 1, end: 5 });
    assert_eq!(tokens[2].kind, TokenKind::Symbol("b".to_string()));
    assert_eq!(tokens.len(), 3);
}

#[test]
fn newline_is_not_swallowed_by_whitespace() {
    let tokens = kinds_of(" \n ");
    assert_eq!(tokens, vec![TokenKind::Space, TokenKind::NewLine, TokenKind::Space]);
}

#[test]
fn comment_excludes_hash_and_newline() {
    let tokens = kinds_of("#abc\nx");
    assert_eq!(
        tokens,
        vec![
            TokenKind::Comment("abc".to_string()),
            TokenKind::NewLine,
            TokenKind::Symbol("x".to_string()),
        ]
    );
}

#[test]
fn symbols_take_letters_digits_underscores() {
    let tokens = kinds_of("_foo9 Bar_2");
    assert_eq!(
        tokens,
        vec![
            TokenKind::Symbol("_foo9".to_string()),
            TokenKind::Space,
            TokenKind::Symbol("Bar_2".to_string()),
        ]
    );
}

#[test]
fn invalid_char_reports_line_and_column() {
    let tokens = tokens_of("1 $ 2");
    assert_eq!(tokens.len(), 3);
    assert!(matches!(tokens[0], Ok(Token { kind: TokenKind::Num(_), .. })));
    assert!(matches!(tokens[1], Ok(Token { kind: TokenKind::Space, .. })));
    match tokens[2].as_ref().unwrap_err() {
        Error::InvalidChar(lc, c) => {
            assert_eq!(*c, '$');
            assert_eq!(lc.line, 1);
            assert_eq!(lc.col, 3);
        }
        other => panic!("expected an invalid character, got {:?}", other),
    }
}

#[test]
fn invalid_num_reports_raw_text_and_position() {
    let tokens = tokens_of("1..2");
    assert_eq!(tokens.len(), 1);
    match tokens[0].as_ref().unwrap_err() {
        Error::InvalidNum(lc, text) => {
            assert_eq!(text, "1..2");
            assert_eq!(lc.line, 1);
            assert_eq!(lc.col, 1);
        }
        other => panic!("expected an invalid number, got {:?}", other),
    }
}

#[test]
fn lone_dot_is_an_invalid_number() {
    let tokens = tokens_of(".");
    assert_eq!(tokens.len(), 1);
    assert!(matches!(tokens[0].as_ref().unwrap_err(), Error::InvalidNum(_, _)));
}

#[test]
fn error_position_counts_lines() {
    let tokens = tokens_of("ab\nc$");
    let err = tokens.last().unwrap().as_ref().unwrap_err();
    match err {
        Error::InvalidChar(lc, c) => {
            assert_eq!(*c, '$');
            assert_eq!(lc.line, 2);
            assert_eq!(lc.col, 2);
        }
        other => panic!("expected an invalid character, got {:?}", other),
    }
}

#[test]
fn error_messages_render_position() {
    let tokens = tokens_of("1 $ 2");
    let err = tokens[2].as_ref().unwrap_err();
    assert_eq!(err.message(), "Invalid character '$' at 1:3");
    let tokens = tokens_of("1..2");
    let err = tokens[0].as_ref().unwrap_err();
    assert_eq!(err.message(), "Invalid number '1..2' at 1:1");
}
