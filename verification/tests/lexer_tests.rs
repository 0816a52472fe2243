use monkey::lexer::Lexer;
use monkey::token::Token;

#[test]
fn test_lexer() {
    let x = "let x = 21 * 23 - ;";
    let mut new_lexer = Lexer::new(String::from(x));
    let expected = [
        Token::Let,
        Token::Ident(String::from("x")),
        Token::Assing,
        Token::Int(String::from("21")),
        Token::Asterisk,
        Token::Int(String::from("23")),
        Token::Minus,
    ];
    for tok in expected {
        assert_eq!(new_lexer.next_token(), tok);
    }
}

fn lex_all(src: &str) -> Vec<Token> {
    let mut l = Lexer::new(String::from(src));
    let mut out = Vec::new();
    loop {
        let t = l.next_token();
        if t == Token::Eof {
            break;
        }
        out.push(t);
    }
    out
}

#[test]
fn keywords_and_names() {
    assert_eq!(
        lex_all("let fn true false func if else return foo"),
        vec![
            Token::Let,
            Token::Func,
            Token::True,
            Token::False,
            Token::Func,
            Token::If,
            Token::Else,
            Token::Return,
            Token::Ident("foo".to_string()),
        ]
    );
}

#[test]
fn single_byte_symbols() {
    assert_eq!(
        lex_all("; > < , { } ( ) * + - / ! ="),
        vec![
            Token::Semicolon,
            Token::Gt,
            Token::Lt,
            Token::Comma,
            Token::Lbrace,
            Token::Rbrace,
            Token::Lparen,
            Token::Rparen,
            Token::Asterisk,
            Token::Plus,
            Token::Minus,
            Token::Slash,
            Token::Bang,
            Token::Assing,
        ]
    );
}

#[test]
fn not_equal_reads_as_bang_and_assign() {
    assert_eq!(
        lex_all("1 != 2"),
        vec![Token::Int("1".to_string()), Token::Bang, Token::Assing, Token::Int("2".to_string())]
    );
}

#[test]
fn equals_sign_past_position_sixty() {
    // The `=` at byte 60 is followed by position 61, the code of `=`.
    let src = format!("{}==", " ".repeat(60));
    assert_eq!(lex_all(&src), vec![Token::Eq, Token::Assing]);
    let src = format!("{}!=", " ".repeat(60));
    assert_eq!(lex_all(&src), vec![Token::NotEq, Token::Assing]);
}

#[test]
fn end_repeats() {
    let mut l = Lexer::new(String::new());
    assert_eq!(l.next_token(), Token::Eof);
    assert_eq!(l.next_token(), Token::Eof);
    let mut l = Lexer::new("a".to_string());
    assert_eq!(l.next_token(), Token::Ident("a".to_string()));
    assert_eq!(l.next_token(), Token::Eof);
    assert_eq!(l.next_token(), Token::Eof);
}

#[test]
fn zero_byte_ends_input() {
    let mut l = Lexer::new("a\0b".to_string());
    assert_eq!(l.next_token(), Token::Ident("a".to_string()));
    assert_eq!(l.next_token(), Token::Eof);
    assert_eq!(l.next_token(), Token::Eof);
}

#[test]
fn illegal_bytes_and_upper_case() {
    assert_eq!(lex_all("@"), vec![Token::Illgl("@".to_string())]);
    assert_eq!(lex_all("Abc"), vec![Token::Illgl("A".to_string()), Token::Ident("bc".to_string())]);
    assert_eq!(lex_all("aBc"), vec![Token::Ident("aBc".to_string())]);
}

#[test]
fn numbers_then_words() {
    assert_eq!(
        lex_all("12ab\t\n\r 7"),
        vec![Token::Int("12".to_string()), Token::Ident("ab".to_string()), Token::Int("7".to_string())]
    );
}

#[test]
fn token_text() {
    assert_eq!(Token::Plus.text(), "+");
    assert_eq!(Token::Eq.text(), "==");
    assert_eq!(Token::Func.text(), "fn");
    assert_eq!(Token::Eof.text(), "EOF");
    assert_eq!(Token::Ident("abc".to_string()).text(), "abc");
    assert_eq!(Token::Int("42".to_string()).clone(), Token::Int("42".to_string()));
}

#[test]
fn white_space_changes_keep_tokens() {
    let plain = lex_all("let a = b + 12 * c;");
    assert_eq!(lex_all("let a = b \t+\n12  *   c;"), plain);
    assert_eq!(lex_all("let a = b + 12 * c;  \n"), plain);
    assert_eq!(lex_all("  \r\nlet a = b + 12 * c;"), plain);
}
