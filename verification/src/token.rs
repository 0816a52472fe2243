use vstd::prelude::*;

verus! {

/// A token of the language.
#[derive(Debug, PartialEq)]
pub enum Token {
    /// A byte that starts no token; holds that byte as a character.
    Illgl(String),
    /// The end of the input.
    Eof,
    /// A name: a lower-case ASCII letter followed by ASCII letters.
    Ident(String),
    /// An integer literal: a run of ASCII digits.
    Int(String),
    Assing,
    Plus,
    Minus,
    Bang,
    Asterisk,
    Slash,
    Lt,
    Gt,
    Eq,
    NotEq,
    Comma,
    Semicolon,
    Lparen,
    Rparen,
    Lbrace,
    Rbrace,
    Func,
    Let,
    True,
    False,
    If,
    Else,
    Return,
}

/// The mathematical value of a [`Token`]: its text held as a sequence of characters.
pub enum TokenView {
    Illgl(Seq<char>),
    Eof,
    Ident(Seq<char>),
    Int(Seq<char>),
    Assing,
    Plus,
    Minus,
    Bang,
    Asterisk,
    Slash,
    Lt,
    Gt,
    Eq,
    NotEq,
    Comma,
    Semicolon,
    Lparen,
    Rparen,
    Lbrace,
    Rbrace,
    Func,
    Let,
    True,
    False,
    If,
    Else,
    Return,
}

impl View for Token {
    type V = TokenView;

    open spec fn view(&self) -> TokenView {
        match self {
            Token::Illgl(s) => TokenView::Illgl(s@),
            Token::Eof => TokenView::Eof,
            Token::Ident(s) => TokenView::Ident(s@),
            Token::Int(s) => TokenView::Int(s@),
            Token::Assing => TokenView::Assing,
            Token::Plus => TokenView::Plus,
            Token::Minus => TokenView::Minus,
            Token::Bang => TokenView::Bang,
            Token::Asterisk => TokenView::Asterisk,
            Token::Slash => TokenView::Slash,
            Token::Lt => TokenView::Lt,
            Token::Gt => TokenView::Gt,
            Token::Eq => TokenView::Eq,
            Token::NotEq => TokenView::NotEq,
            Token::Comma => TokenView::Comma,
            Token::Semicolon => TokenView::Semicolon,
            Token::Lparen => TokenView::Lparen,
            Token::Rparen => TokenView::Rparen,
            Token::Lbrace => TokenView::Lbrace,
            Token::Rbrace => TokenView::Rbrace,
            Token::Func => TokenView::Func,
            Token::Let => TokenView::Let,
            Token::True => TokenView::True,
            Token::False => TokenView::False,
            Token::If => TokenView::If,
            Token::Else => TokenView::Else,
            Token::Return => TokenView::Return,
        }
    }
}

/// The text of a token: the characters it holds, or the characters it is
/// written with (`EOF` for the end of the input).
pub open spec fn token_text(t: TokenView) -> Seq<char> {
    match t {
        TokenView::Illgl(s) => s,
        TokenView::Eof => "EOF"@,
        TokenView::Ident(s) => s,
        TokenView::Int(s) => s,
        TokenView::Assing => "="@,
        TokenView::Plus => "+"@,
        TokenView::Minus => "-"@,
        TokenView::Bang => "!"@,
        TokenView::Asterisk => "*"@,
        TokenView::Slash => "/"@,
        TokenView::Lt => "<"@,
        TokenView::Gt => ">"@,
        TokenView::Eq => "=="@,
        TokenView::NotEq => "!="@,
        TokenView::Comma => ","@,
        TokenView::Semicolon => ";"@,
        TokenView::Lparen => "("@,
        TokenView::Rparen => ")"@,
        TokenView::Lbrace => "{"@,
        TokenView::Rbrace => "}"@,
        TokenView::Func => "fn"@,
        TokenView::Let => "let"@,
        TokenView::True => "true"@,
        TokenView::False => "false"@,
        TokenView::If => "if"@,
        TokenView::Else => "else"@,
        TokenView::Return => "return"@,
    }
}

impl Token {
    /// The text of the token (see [`token_text`]).
    pub fn text(&self) -> (res: String)
        ensures
            res@ == token_text(self@),
    {
        match self {
            Token::Illgl(s) => s.clone(),
            Token::Eof => String::from_str("EOF"),
            Token::Ident(s) => s.clone(),
            Token::Int(s) => s.clone(),
            Token::Assing => String::from_str("="),
            Token::Plus => String::from_str("+"),
            Token::Minus => String::from_str("-"),
            Token::Bang => String::from_str("!"),
            Token::Asterisk => String::from_str("*"),
            Token::Slash => String::from_str("/"),
            Token::Lt => String::from_str("<"),
            Token::Gt => String::from_str(">"),
            Token::Eq => String::from_str("=="),
            Token::NotEq => String::from_str("!="),
            Token::Comma => String::from_str(","),
            Token::Semicolon => String::from_str(";"),
            Token::Lparen => String::from_str("("),
            Token::Rparen => String::from_str(")"),
            Token::Lbrace => String::from_str("{"),
            Token::Rbrace => String::from_str("}"),
            Token::Func => String::from_str("fn"),
            Token::Let => String::from_str("let"),
            Token::True => String::from_str("true"),
            Token::False => String::from_str("false"),
            Token::If => String::from_str("if"),
            Token::Else => String::from_str("else"),
            Token::Return => String::from_str("return"),
        }
    }
}

impl Clone for Token {
    fn clone(&self) -> (res: Self)
        ensures
            res@ == self@,
    {
        match self {
            Token::Illgl(s) => Token::Illgl(s.clone()),
            Token::Eof => Token::Eof,
            Token::Ident(s) => Token::Ident(s.clone()),
            Token::Int(s) => Token::Int(s.clone()),
            Token::Assing => Token::Assing,
            Token::Plus => Token::Plus,
            Token::Minus => Token::Minus,
            Token::Bang => Token::Bang,
            Token::Asterisk => Token::Asterisk,
            Token::Slash => Token::Slash,
            Token::Lt => Token::Lt,
            Token::Gt => Token::Gt,
            Token::Eq => Token::Eq,
            Token::NotEq => Token::NotEq,
            Token::Comma => Token::Comma,
            Token::Semicolon => Token::Semicolon,
            Token::Lparen => Token::Lparen,
            Token::Rparen => Token::Rparen,
            Token::Lbrace => Token::Lbrace,
            Token::Rbrace => Token::Rbrace,
            Token::Func => Token::Func,
            Token::Let => Token::Let,
            Token::True => Token::True,
            Token::False => Token::False,
            Token::If => Token::If,
            Token::Else => Token::Else,
            Token::Return => Token::Return,
        }
    }
}

} // verus!
