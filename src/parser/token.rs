//! Tokens of the command language.
use vstd::prelude::*;

verus! {

#[derive(Debug, PartialEq, Eq)]
pub enum Token {
    Keyword(Keyword),
    Indentifer(String),
    DataType(DataType),
    Value(Value),
    Wildcard,
    Punctuation(Punctuation),
}

#[derive(Clone, Copy, Debug, PartialEq, Eq, Structural)]
pub enum DataType {
    Integer32,
    Varchar256,
}

#[derive(Debug, PartialEq, Eq)]
pub enum Value {
    String(String),
    Integer(i32),
}

#[derive(Clone, Copy, Debug, PartialEq, Eq, Structural)]
pub enum Keyword {
    Create,
    Table,
    Insert,
    Into,
    Values,
    Primary,
    Key,
    Select,
    From,
}

#[derive(Clone, Copy, Debug, PartialEq, Eq, Structural)]
pub enum Punctuation {
    LeftParen,
    RightParen,
    Comma,
    SemiColon,
}

/// A token with its strings seen as character sequences.
pub ghost enum TokenView {
    Keyword(Keyword),
    Indentifer(Seq<char>),
    DataType(DataType),
    Text(Seq<char>),
    Integer(i32),
    Wildcard,
    Punctuation(Punctuation),
}

pub open spec fn token_view(t: Token) -> TokenView {
    match t {
        Token::Keyword(k) => TokenView::Keyword(k),
        Token::Indentifer(s) => TokenView::Indentifer(s@),
        Token::DataType(d) => TokenView::DataType(d),
        Token::Value(Value::String(s)) => TokenView::Text(s@),
        Token::Value(Value::Integer(i)) => TokenView::Integer(i),
        Token::Wildcard => TokenView::Wildcard,
        Token::Punctuation(p) => TokenView::Punctuation(p),
    }
}

/// The spelling of a keyword.
pub open spec fn keyword_text(k: Keyword) -> Seq<char> {
    match k {
        Keyword::Create => seq!['C', 'R', 'E', 'A', 'T', 'E'],
        Keyword::Table => seq!['T', 'A', 'B', 'L', 'E'],
        Keyword::Insert => seq!['I', 'N', 'S', 'E', 'R', 'T'],
        Keyword::Into => seq!['I', 'N', 'T', 'O'],
        Keyword::Values => seq!['V', 'A', 'L', 'U', 'E', 'S'],
        Keyword::Primary => seq!['P', 'R', 'I', 'M', 'A', 'R', 'Y'],
        Keyword::Key => seq!['K', 'E', 'Y'],
        Keyword::Select => seq!['S', 'E', 'L', 'E', 'C', 'T'],
        Keyword::From => seq!['F', 'R', 'O', 'M'],
    }
}

pub open spec fn data_type_text(d: DataType) -> Seq<char> {
    match d {
        DataType::Integer32 => seq!['I', 'N', 'T'],
        DataType::Varchar256 => seq!['V', 'A', 'R', 'C', 'H', 'A', 'R'],
    }
}

pub open spec fn punctuation_char(p: Punctuation) -> char {
    match p {
        Punctuation::LeftParen => '(',
        Punctuation::RightParen => ')',
        Punctuation::Comma => ',',
        Punctuation::SemiColon => ';',
    }
}

impl Keyword {
    pub fn value(&self) -> (r: &'static str)
        ensures
            r@ == keyword_text(*self),
    {
        proof {
            reveal_strlit("CREATE");
            reveal_strlit("TABLE");
            reveal_strlit("INSERT");
            reveal_strlit("INTO");
            reveal_strlit("VALUES");
            reveal_strlit("PRIMARY");
            reveal_strlit("KEY");
            reveal_strlit("SELECT");
            reveal_strlit("FROM");
        }
        match self {
            Keyword::Create => "CREATE",
            Keyword::Table => "TABLE",
            Keyword::Insert => "INSERT",
            Keyword::Into => "INTO",
            Keyword::Values => "VALUES",
            Keyword::Primary => "PRIMARY",
            Keyword::Key => "KEY",
            Keyword::Select => "SELECT",
            Keyword::From => "FROM",
        }
    }
}

impl DataType {
    pub fn value(&self) -> (r: &'static str)
        ensures
            r@ == data_type_text(*self),
    {
        proof {
            reveal_strlit("INT");
            reveal_strlit("VARCHAR");
        }
        match self {
            DataType::Integer32 => "INT",
            DataType::Varchar256 => "VARCHAR",
        }
    }
}

impl Punctuation {
    pub fn value(&self) -> (r: char)
        ensures
            r == punctuation_char(*self),
    {
        match self {
            Punctuation::LeftParen => '(',
            Punctuation::RightParen => ')',
            Punctuation::Comma => ',',
            Punctuation::SemiColon => ';',
        }
    }
}

} // verus!
