//! The command language: tokens, the tokenizer and the statement parser.
pub mod ast;
pub mod token;
pub mod tokenizer;

use vstd::prelude::*;
use ast::{ColumnDefinition, Columns, SqlStatement};
use token::{DataType, Keyword, Punctuation, Token, TokenView, Value};
use tokenizer::{Lexed, Tokenizer, lex, skip_spaces, word_end, quote_end, digits_end, is_digit, punctuation_of};

verus! {

/// A lexed token ends after the position it started from, within the input.
proof fn lemma_lex_advances(b: Seq<u8>, p: int)
    requires
        0 <= p <= b.len(),
    ensures
        lex(b, p) matches Lexed::Tok(_, e) ==> p < e <= b.len(),
{
    lemma_skip_spaces_bounds(b, p);
    let s = skip_spaces(b, p);
    if s < b.len() {
        if b[s] == 34 {
            lemma_quote_end_bounds(b, s + 1);
        } else if is_digit(b[s]) {
            lemma_digits_end_bounds(b, s);
        } else if punctuation_of(b[s]) is None && b[s] != 42 {
            lemma_word_end_bounds(b, s);
        }
    }
}

proof fn lemma_skip_spaces_bounds(b: Seq<u8>, p: int)
    requires
        0 <= p <= b.len(),
    ensures
        p <= skip_spaces(b, p) <= b.len(),
        skip_spaces(b, p) < b.len() ==> !tokenizer::is_space(b[skip_spaces(b, p)]),
    decreases b.len() - p,
{
    if p < b.len() && tokenizer::is_space(b[p]) {
        lemma_skip_spaces_bounds(b, p + 1);
    }
}

proof fn lemma_quote_end_bounds(b: Seq<u8>, p: int)
    requires
        0 <= p <= b.len(),
    ensures
        p <= quote_end(b, p) <= b.len(),
    decreases b.len() - p,
{
    if p < b.len() && b[p] != 34 {
        lemma_quote_end_bounds(b, p + 1);
    }
}

proof fn lemma_digits_end_bounds(b: Seq<u8>, p: int)
    requires
        0 <= p < b.len(),
        is_digit(b[p]),
    ensures
        p < digits_end(b, p) <= b.len(),
    decreases b.len() - p,
{
    assert(digits_end(b, p) == digits_end(b, p + 1));
    if p + 1 < b.len() && is_digit(b[p + 1]) {
        lemma_digits_end_bounds(b, p + 1);
    }
}

proof fn lemma_word_end_bounds(b: Seq<u8>, p: int)
    requires
        0 <= p <= b.len(),
    ensures
        p <= word_end(b, p) <= b.len(),
        p < b.len() && !tokenizer::ends_word(b[p]) ==> p < word_end(b, p),
    decreases b.len() - p,
{
    if p < b.len() && !tokenizer::ends_word(b[p]) {
        lemma_word_end_bounds(b, p + 1);
    }
}

/// The `n`-th token from position `p` on.
pub open spec fn token_after(b: Seq<u8>, p: int, n: nat) -> Lexed
    decreases n,
{
    if n == 0 {
        lex(b, p)
    } else {
        match lex(b, p) {
            Lexed::Tok(_, e) => token_after(b, e, (n - 1) as nat),
            other => other,
        }
    }
}

/// The table of a command `SELECT * FROM <table>;` that starts at `p`.
pub open spec fn select_all_table(b: Seq<u8>, p: int) -> Option<Seq<char>> {
    if token_after(b, p, 0) matches Lexed::Tok(TokenView::Keyword(Keyword::Select), _)
        && token_after(b, p, 1) matches Lexed::Tok(TokenView::Wildcard, _)
        && token_after(b, p, 2) matches Lexed::Tok(TokenView::Keyword(Keyword::From), _)
        && token_after(b, p, 3) matches Lexed::Tok(TokenView::Indentifer(_), _)
        && token_after(b, p, 4) matches Lexed::Tok(TokenView::Punctuation(Punctuation::SemiColon), _) {
        match token_after(b, p, 3) {
            Lexed::Tok(TokenView::Indentifer(t), _) => Some(t),
            _ => None,
        }
    } else {
        None
    }
}

proof fn lemma_skip_twice(b: Seq<u8>, p: int)
    requires
        0 <= p <= b.len(),
    ensures
        skip_spaces(b, skip_spaces(b, p)) == skip_spaces(b, p),
    decreases b.len() - p,
{
    if p < b.len() && tokenizer::is_space(b[p]) {
        lemma_skip_twice(b, p + 1);
    }
}

/// Spaces before a token do not change it.
proof fn lemma_lex_skip(b: Seq<u8>, p: int)
    requires
        0 <= p <= b.len(),
    ensures
        lex(b, skip_spaces(b, p)) == lex(b, p),
{
    lemma_skip_twice(b, p);
}

/// The statement keyword that starts a command.
pub open spec fn leading_keyword(b: Seq<u8>) -> Option<Keyword> {
    match lex(b, 0) {
        Lexed::Tok(TokenView::Keyword(k), _) => Some(k),
        _ => None,
    }
}

pub open spec fn statement_keyword(s: SqlStatement) -> Keyword {
    match s {
        SqlStatement::CreateTable { .. } => Keyword::Create,
        SqlStatement::InsertInto { .. } => Keyword::Insert,
        SqlStatement::Select { .. } => Keyword::Select,
    }
}

/// Parses one command: `CREATE TABLE`, `INSERT INTO` or `SELECT`.
pub fn parse(input: String) -> (r: Result<SqlStatement, String>)
    ensures
        r matches Ok(s) ==> leading_keyword(encode_utf8_of(input)) == Some(statement_keyword(s)),
        !(leading_keyword(encode_utf8_of(input)) matches Some(k) && (k == Keyword::Create || k
            == Keyword::Insert || k == Keyword::Select)) ==> r is Err,
        select_all_table(encode_utf8_of(input), 0) matches Some(t) ==> (r matches Ok(s)
            && s matches SqlStatement::Select { columns, table } && columns is All && table@ == t),
        select_list_parts(encode_utf8_of(input), 0) matches Some(sp) ==> gives_select_list(
            r,
            sp.0,
            sp.1,
        ),
        insert_parts(encode_utf8_of(input), 0) matches Some(ip) ==> gives_insert(r, ip.0, ip.1, ip.2),
        create_parts(encode_utf8_of(input), 0) matches Some(cp) ==> gives_create(r, cp.0, cp.1, cp.2),
{
    let mut tokenizer = Tokenizer::new(input);
    let first = tokenizer.peek();
    tokenizer.position = 0;
    match first {
        Ok(Some(Token::Keyword(Keyword::Create))) => parse_create_command(tokenizer),
        Ok(Some(Token::Keyword(Keyword::Insert))) => parse_insert_command(tokenizer),
        Ok(Some(Token::Keyword(Keyword::Select))) => parse_select_command(tokenizer),
        Ok(Some(_)) => Err("First token error, no such command".to_string()),
        Ok(None) => Err("Error reading first token".to_string()),
        Err(e) => Err(e),
    }
}

pub open spec fn encode_utf8_of(s: String) -> Seq<u8> {
    vstd::utf8::encode_utf8(s@)
}

/// Consumes the next token; succeeds when it is the keyword `expected`.
fn expect_keyword(tokenizer: &mut Tokenizer, expected: Keyword) -> (r: Result<(), ()>)
    requires
        old(tokenizer).position <= old(tokenizer).bytes().len(),
    ensures
        final(tokenizer).input == old(tokenizer).input,
        old(tokenizer).position <= final(tokenizer).position <= final(tokenizer).bytes().len(),
        r is Ok <==> lex(old(tokenizer).bytes(), old(tokenizer).position as int) == Lexed::Tok(
            TokenView::Keyword(expected),
            final(tokenizer).position as int,
        ),
        final(tokenizer).position == tokenizer::position_after(
            lex(old(tokenizer).bytes(), old(tokenizer).position as int),
            skip_spaces(old(tokenizer).bytes(), old(tokenizer).position as int),
        ),
{
    proof {
        lemma_lex_advances(tokenizer.bytes(), tokenizer.position as int);
        lemma_skip_spaces_bounds(tokenizer.bytes(), tokenizer.position as int);
    }
    match tokenizer.next_token() {
        Ok(Some(Token::Keyword(k))) => if k == expected {
            Ok(())
        } else {
            Err(())
        },
        _ => Err(()),
    }
}

/// Consumes the next token; succeeds when it is the punctuation mark `expected`.
fn expect_punctuation(tokenizer: &mut Tokenizer, expected: Punctuation) -> (r: Result<(), ()>)
    requires
        old(tokenizer).position <= old(tokenizer).bytes().len(),
    ensures
        final(tokenizer).input == old(tokenizer).input,
        old(tokenizer).position <= final(tokenizer).position <= final(tokenizer).bytes().len(),
        r is Ok <==> lex(old(tokenizer).bytes(), old(tokenizer).position as int) == Lexed::Tok(
            TokenView::Punctuation(expected),
            final(tokenizer).position as int,
        ),
        final(tokenizer).position == tokenizer::position_after(
            lex(old(tokenizer).bytes(), old(tokenizer).position as int),
            skip_spaces(old(tokenizer).bytes(), old(tokenizer).position as int),
        ),
{
    proof {
        lemma_lex_advances(tokenizer.bytes(), tokenizer.position as int);
        lemma_skip_spaces_bounds(tokenizer.bytes(), tokenizer.position as int);
    }
    match tokenizer.next_token() {
        Ok(Some(Token::Punctuation(p))) => if p == expected {
            Ok(())
        } else {
            Err(())
        },
        _ => Err(()),
    }
}

/// Consumes the next token and returns it, with the position advanced past it.
fn next_in(tokenizer: &mut Tokenizer) -> (r: Result<Option<Token>, String>)
    requires
        old(tokenizer).position <= old(tokenizer).bytes().len(),
    ensures
        final(tokenizer).input == old(tokenizer).input,
        old(tokenizer).position <= final(tokenizer).position <= final(tokenizer).bytes().len(),
        r matches Ok(Some(_)) ==> old(tokenizer).position < final(tokenizer).position,
        final(tokenizer).position == tokenizer::position_after(
            lex(old(tokenizer).bytes(), old(tokenizer).position as int),
            skip_spaces(old(tokenizer).bytes(), old(tokenizer).position as int),
        ),
        tokenizer::reports(r, lex(old(tokenizer).bytes(), old(tokenizer).position as int)),
{
    proof {
        lemma_lex_advances(tokenizer.bytes(), tokenizer.position as int);
        lemma_skip_spaces_bounds(tokenizer.bytes(), tokenizer.position as int);
    }
    tokenizer.next_token()
}


/// The token that closes a list of names.
#[derive(Clone, Copy, PartialEq, Eq, Structural)]
pub enum ListEnd {
    From,
    RightParen,
}

pub open spec fn end_token(e: ListEnd) -> TokenView {
    match e {
        ListEnd::From => TokenView::Keyword(Keyword::From),
        ListEnd::RightParen => TokenView::Punctuation(Punctuation::RightParen),
    }
}

/// Names separated by commas from `p` on, up to a `stop` token: the names and the
/// position just after the last one. `fuel` bounds the number of commas.
pub open spec fn ident_list(b: Seq<u8>, p: int, stop: TokenView, fuel: nat) -> Option<
    (Seq<Seq<char>>, int),
>
    decreases fuel,
{
    match lex(b, p) {
        Lexed::Tok(TokenView::Indentifer(name), e) => match lex(b, e) {
            Lexed::Tok(TokenView::Punctuation(Punctuation::Comma), e2) => if fuel == 0 {
                None
            } else {
                match ident_list(b, e2, stop, (fuel - 1) as nat) {
                    Some(x) => Some((seq![name] + x.0, x.1)),
                    None => None,
                }
            },
            Lexed::Tok(t, _) => if t == stop {
                Some((seq![name], e))
            } else {
                None
            },
            _ => None,
        },
        _ => None,
    }
}

pub open spec fn names(v: Seq<String>) -> Seq<Seq<char>> {
    v.map_values(|s: String| s@)
}

/// Reads names separated by commas up to the token `end`, which it leaves in place.
fn names_until(tokenizer: &mut Tokenizer, end: ListEnd) -> (r: Result<Vec<String>, String>)
    requires
        old(tokenizer).position <= old(tokenizer).bytes().len(),
    ensures
        final(tokenizer).input == old(tokenizer).input,
        old(tokenizer).position <= final(tokenizer).position <= final(tokenizer).bytes().len(),
        ident_list(
            old(tokenizer).bytes(),
            old(tokenizer).position as int,
            end_token(end),
            old(tokenizer).bytes().len(),
        ) matches Some(x) ==> (r matches Ok(v) && names(v@) == x.0 && final(tokenizer).position
            == skip_spaces(old(tokenizer).bytes(), x.1) && 0 <= x.1 <= old(tokenizer).bytes().len()),
{
    let ghost b = tokenizer.bytes();
    let ghost goal = ident_list(b, tokenizer.position as int, end_token(end), b.len());
    let ghost mut fuel: nat = b.len();
    let mut out: Vec<String> = Vec::new();
    loop
        invariant
            tokenizer.input == old(tokenizer).input,
            b == tokenizer.bytes(),
            goal == ident_list(b, old(tokenizer).position as int, end_token(end), b.len()),
            old(tokenizer).position <= tokenizer.position <= b.len(),
            goal matches Some(g) ==> (ident_list(b, tokenizer.position as int, end_token(end), fuel)
                matches Some(x) && g.0 == names(out@) + x.0 && g.1 == x.1),
        decreases b.len() - tokenizer.position,
    {
        let ghost p = tokenizer.position as int;
        let ghost before = out@;
        let name = match next_in(tokenizer) {
            Ok(Some(Token::Indentifer(name))) => name,
            Ok(None) => return Err("Unexpected end of input while parsing a name".to_string()),
            _ => return Err("Expected a name".to_string()),
        };
        out.push(name);
        proof {
            assert(out@.drop_last() == before);
            assert(names(out@) =~= names(before) + seq![name@]);
            lemma_skip_spaces_bounds(b, tokenizer.position as int);
            lemma_lex_skip(b, tokenizer.position as int);
        }
        let ghost e = tokenizer.position as int;
        match tokenizer.peek() {
            Ok(Some(Token::Punctuation(Punctuation::Comma))) => {
                match next_in(tokenizer) {
                    Ok(_) => {},
                    Err(err) => return Err(err),
                }
                proof {
                    if goal is Some {
                        let x = ident_list(b, p, end_token(end), fuel).unwrap();
                        assert(fuel > 0);
                        let rest = ident_list(b, tokenizer.position as int, end_token(end), (fuel - 1) as nat).unwrap();
                        assert(x.0 == seq![name@] + rest.0);
                        assert(names(before) + x.0 =~= names(out@) + rest.0);
                    }
                    fuel = (fuel - 1) as nat;
                }
            },
            Ok(Some(t)) => {
                if match (&t, end) {
                    (Token::Keyword(Keyword::From), ListEnd::From) => true,
                    (Token::Punctuation(Punctuation::RightParen), ListEnd::RightParen) => true,
                    _ => false,
                } {
                    proof {
                        if goal is Some {
                            let x = ident_list(b, p, end_token(end), fuel).unwrap();
                            assert(x.0 == seq![name@]);
                            assert(names(before) + x.0 =~= names(out@));
                        }
                    }
                    return Ok(out);
                }
                return Err("Expected a comma or the end of the list".to_string());
            },
            Ok(None) => return Err("Unexpected end of input after a name".to_string()),
            Err(err) => return Err(err),
        }
    }
}

/// Values separated by commas from `p` on, up to a closing parenthesis: the
/// value tokens and the position just after the last one.
pub open spec fn value_list(b: Seq<u8>, p: int, fuel: nat) -> Option<(Seq<TokenView>, int)>
    decreases fuel,
{
    match lex(b, p) {
        Lexed::Tok(v, e) => if v is Text || v is Integer {
            match lex(b, e) {
                Lexed::Tok(TokenView::Punctuation(Punctuation::Comma), e2) => if fuel == 0 {
                    None
                } else {
                    match value_list(b, e2, (fuel - 1) as nat) {
                        Some(x) => Some((seq![v] + x.0, x.1)),
                        None => None,
                    }
                },
                Lexed::Tok(TokenView::Punctuation(Punctuation::RightParen), _) => Some((seq![v], e)),
                _ => None,
            }
        } else {
            None
        },
        _ => None,
    }
}

pub open spec fn value_view(v: ast::Value) -> TokenView {
    match v {
        ast::Value::VarChar256(s) => TokenView::Text(s@),
        ast::Value::Int32(i) => TokenView::Integer(i),
    }
}

pub open spec fn value_views(v: Seq<ast::Value>) -> Seq<TokenView> {
    v.map_values(|x: ast::Value| value_view(x))
}

/// Reads values separated by commas up to a closing parenthesis, left in place.
fn values_until_close(tokenizer: &mut Tokenizer) -> (r: Result<Vec<ast::Value>, String>)
    requires
        old(tokenizer).position <= old(tokenizer).bytes().len(),
    ensures
        final(tokenizer).input == old(tokenizer).input,
        old(tokenizer).position <= final(tokenizer).position <= final(tokenizer).bytes().len(),
        value_list(old(tokenizer).bytes(), old(tokenizer).position as int, old(tokenizer).bytes().len())
            matches Some(x) ==> (r matches Ok(v) && value_views(v@) == x.0 && final(tokenizer).position
            == skip_spaces(old(tokenizer).bytes(), x.1) && 0 <= x.1 <= old(tokenizer).bytes().len()),
{
    let ghost b = tokenizer.bytes();
    let ghost goal = value_list(b, tokenizer.position as int, b.len());
    let ghost mut fuel: nat = b.len();
    let mut out: Vec<ast::Value> = Vec::new();
    loop
        invariant
            tokenizer.input == old(tokenizer).input,
            b == tokenizer.bytes(),
            goal == value_list(b, old(tokenizer).position as int, b.len()),
            old(tokenizer).position <= tokenizer.position <= b.len(),
            goal matches Some(g) ==> (value_list(b, tokenizer.position as int, fuel) matches Some(x)
                && g.0 == value_views(out@) + x.0 && g.1 == x.1),
        decreases b.len() - tokenizer.position,
    {
        let ghost p = tokenizer.position as int;
        let ghost before = out@;
        let value = match next_in(tokenizer) {
            Ok(Some(Token::Value(Value::String(s)))) => ast::Value::VarChar256(s),
            Ok(Some(Token::Value(Value::Integer(integer)))) => ast::Value::Int32(integer),
            Ok(None) => return Err("Unexpected end of input while parsing values".to_string()),
            _ => return Err("Expected value".to_string()),
        };
        let ghost vv = value_view(value);
        out.push(value);
        proof {
            assert(out@.drop_last() == before);
            assert(value_views(out@) =~= value_views(before) + seq![vv]);
            lemma_skip_spaces_bounds(b, tokenizer.position as int);
            lemma_lex_skip(b, tokenizer.position as int);
        }
        match tokenizer.peek() {
            Ok(Some(Token::Punctuation(Punctuation::Comma))) => {
                match next_in(tokenizer) {
                    Ok(_) => {},
                    Err(err) => return Err(err),
                }
                proof {
                    if goal is Some {
                        let x = value_list(b, p, fuel).unwrap();
                        assert(fuel > 0);
                        let rest = value_list(b, tokenizer.position as int, (fuel - 1) as nat).unwrap();
                        assert(x.0 == seq![vv] + rest.0);
                        assert(value_views(before) + x.0 =~= value_views(out@) + rest.0);
                    }
                    fuel = (fuel - 1) as nat;
                }
            },
            Ok(Some(Token::Punctuation(Punctuation::RightParen))) => {
                proof {
                    if goal is Some {
                        let x = value_list(b, p, fuel).unwrap();
                        assert(x.0 == seq![vv]);
                        assert(value_views(before) + x.0 =~= value_views(out@));
                    }
                }
                return Ok(out);
            },
            Ok(_) => return Err("Expected comma or closing parenthesis after a value".to_string()),
            Err(err) => return Err(err),
        }
    }
}

/// The parts of `INSERT INTO <table> (<names>) VALUES (<values>);` at `p`.
pub open spec fn insert_parts(b: Seq<u8>, p: int) -> Option<(Seq<char>, Seq<Seq<char>>, Seq<TokenView>)> {
    match (lex(b, p), lex(b, lex_end(b, p))) {
        (
            Lexed::Tok(TokenView::Keyword(Keyword::Insert), _),
            Lexed::Tok(TokenView::Keyword(Keyword::Into), e1),
        ) => match (lex(b, e1), lex(b, lex_end(b, e1))) {
            (
                Lexed::Tok(TokenView::Indentifer(t), _),
                Lexed::Tok(TokenView::Punctuation(Punctuation::LeftParen), e3),
            ) => match ident_list(b, e3, TokenView::Punctuation(Punctuation::RightParen), b.len()) {
                Some(cl) => match (lex(b, cl.1), lex(b, lex_end(b, cl.1)), lex(
                    b,
                    lex_end(b, lex_end(b, cl.1)),
                )) {
                    (
                        Lexed::Tok(TokenView::Punctuation(Punctuation::RightParen), _),
                        Lexed::Tok(TokenView::Keyword(Keyword::Values), _),
                        Lexed::Tok(TokenView::Punctuation(Punctuation::LeftParen), e6),
                    ) => match value_list(b, e6, b.len()) {
                        Some(vl) => match (lex(b, vl.1), lex(b, lex_end(b, vl.1))) {
                            (
                                Lexed::Tok(TokenView::Punctuation(Punctuation::RightParen), _),
                                Lexed::Tok(TokenView::Punctuation(Punctuation::SemiColon), _),
                            ) => Some((t, cl.0, vl.0)),
                            _ => None,
                        },
                        None => None,
                    },
                    _ => None,
                },
                None => None,
            },
            _ => None,
        },
        _ => None,
    }
}

/// Where the token at `p` ends.
pub open spec fn lex_end(b: Seq<u8>, p: int) -> int {
    match lex(b, p) {
        Lexed::Tok(_, e) => e,
        _ => p,
    }
}

/// Column definitions `<name> <type>,` from `p` on, up to the keyword PRIMARY:
/// the names with their types, and the position just after the last comma.
pub open spec fn column_defs(b: Seq<u8>, p: int, fuel: nat) -> Option<
    (Seq<(Seq<char>, ast::DataType)>, int),
>
    decreases fuel,
{
    match (lex(b, p), lex(b, lex_end(b, p)), lex(b, lex_end(b, lex_end(b, p)))) {
        (
            Lexed::Tok(TokenView::Indentifer(n), _),
            Lexed::Tok(TokenView::DataType(d), _),
            Lexed::Tok(TokenView::Punctuation(Punctuation::Comma), e3),
        ) => match lex(b, e3) {
            Lexed::Tok(TokenView::Keyword(Keyword::Primary), _) => Some((seq![(n, ast::column_type(d))], e3)),
            Lexed::Tok(TokenView::Indentifer(_), _) => if fuel == 0 {
                None
            } else {
                match column_defs(b, e3, (fuel - 1) as nat) {
                    Some(x) => Some((seq![(n, ast::column_type(d))] + x.0, x.1)),
                    None => None,
                }
            },
            _ => None,
        },
        _ => None,
    }
}

pub open spec fn column_views(v: Seq<ColumnDefinition>) -> Seq<(Seq<char>, ast::DataType)> {
    v.map_values(|c: ColumnDefinition| (c.name@, c.data_type))
}

/// Reads column definitions, each followed by a comma, up to the keyword PRIMARY.
fn column_definitions(tokenizer: &mut Tokenizer) -> (r: Result<Vec<ColumnDefinition>, String>)
    requires
        old(tokenizer).position <= old(tokenizer).bytes().len(),
    ensures
        final(tokenizer).input == old(tokenizer).input,
        old(tokenizer).position <= final(tokenizer).position <= final(tokenizer).bytes().len(),
        column_defs(old(tokenizer).bytes(), old(tokenizer).position as int, old(tokenizer).bytes().len())
            matches Some(x) ==> (r matches Ok(v) && column_views(v@) == x.0 && final(tokenizer).position
            == skip_spaces(old(tokenizer).bytes(), x.1) && 0 <= x.1 <= old(tokenizer).bytes().len()),
{
    let ghost b = tokenizer.bytes();
    let ghost goal = column_defs(b, tokenizer.position as int, b.len());
    let ghost mut fuel: nat = b.len();
    let mut columns: Vec<ColumnDefinition> = Vec::new();
    loop
        invariant
            tokenizer.input == old(tokenizer).input,
            b == tokenizer.bytes(),
            goal == column_defs(b, old(tokenizer).position as int, b.len()),
            old(tokenizer).position <= tokenizer.position <= b.len(),
            goal matches Some(g) ==> (column_defs(b, tokenizer.position as int, fuel) matches Some(x)
                && g.0 == column_views(columns@) + x.0 && g.1 == x.1),
        decreases b.len() - tokenizer.position,
    {
        let ghost p = tokenizer.position as int;
        let ghost before = columns@;
        let name = match next_in(tokenizer) {
            Ok(Some(Token::Indentifer(name))) => name,
            Ok(None) => return Err("Unexpected end of input while parsing column name".to_string()),
            _ => return Err("Expected column name".to_string()),
        };
        let data_type = match next_in(tokenizer) {
            Ok(Some(Token::DataType(type_token))) => match type_token {
                DataType::Integer32 => ast::DataType::Int32,
                DataType::Varchar256 => ast::DataType::VarChar256,
            },
            Ok(None) => return Err("Unexpected end of input while parsing data type".to_string()),
            _ => return Err("Expected data type".to_string()),
        };
        let ghost cv = (name@, data_type);
        columns.push(ColumnDefinition { name, data_type });
        if let Err(_err) = expect_punctuation(tokenizer, Punctuation::Comma) {
            return Err("Expected comma after column definition".to_string());
        }
        proof {
            assert(columns@.drop_last() == before);
            assert(column_views(columns@) =~= column_views(before) + seq![cv]);
            lemma_skip_spaces_bounds(b, tokenizer.position as int);
            lemma_lex_skip(b, tokenizer.position as int);
        }
        let ghost e3 = tokenizer.position as int;
        match tokenizer.peek() {
            Ok(Some(Token::Indentifer(_))) => {
                proof {
                    if goal is Some {
                        assert(fuel > 0);
                        lemma_column_defs_skip(b, e3, (fuel - 1) as nat);
                    }
                }
            },
            Ok(Some(Token::Keyword(Keyword::Primary))) => {
                proof {
                    if goal is Some {
                        let x = column_defs(b, p, fuel).unwrap();
                        assert(x.0 == seq![cv]);
                        assert(column_views(before) + x.0 =~= column_views(columns@));
                    }
                }
                return Ok(columns);
            },
            Ok(Some(_)) => {
                return Err("Expected column definition or PRIMARY KEY".to_string());
            },
            _ => {
                return Err("Failed while parsing command".to_string());
            },
        }
        proof {
            if goal is Some {
                let x = column_defs(b, p, fuel).unwrap();
                let rest = column_defs(b, e3, (fuel - 1) as nat).unwrap();
                assert(x.0 == seq![cv] + rest.0);
                assert(column_views(before) + x.0 =~= column_views(columns@) + rest.0);
            }
            fuel = (fuel - 1) as nat;
        }
    }
}

proof fn lemma_column_defs_skip(b: Seq<u8>, p: int, fuel: nat)
    requires
        0 <= p <= b.len(),
    ensures
        column_defs(b, skip_spaces(b, p), fuel) == column_defs(b, p, fuel),
{
    lemma_lex_skip(b, p);
}

/// The parts of `CREATE TABLE <t> (<name> <type>, ... PRIMARY KEY (<key>))` at `p`.
pub open spec fn create_parts(b: Seq<u8>, p: int) -> Option<
    (Seq<char>, Seq<(Seq<char>, ast::DataType)>, Seq<char>),
> {
    let e0 = lex_end(b, p);
    let e1 = lex_end(b, e0);
    let e2 = lex_end(b, e1);
    let e3 = lex_end(b, e2);
    match (lex(b, p), lex(b, e0), lex(b, e1), lex(b, e2)) {
        (
            Lexed::Tok(TokenView::Keyword(Keyword::Create), _),
            Lexed::Tok(TokenView::Keyword(Keyword::Table), _),
            Lexed::Tok(TokenView::Indentifer(t), _),
            Lexed::Tok(TokenView::Punctuation(Punctuation::LeftParen), _),
        ) => match column_defs(b, e3, b.len()) {
            Some(x) => {
                let q0 = x.1;
                let q1 = lex_end(b, q0);
                let q2 = lex_end(b, q1);
                let q3 = lex_end(b, q2);
                let q4 = lex_end(b, q3);
                let q5 = lex_end(b, q4);
                match (lex(b, q0), lex(b, q1), lex(b, q2), lex(b, q3), lex(b, q4), lex(b, q5)) {
                    (
                        Lexed::Tok(TokenView::Keyword(Keyword::Primary), _),
                        Lexed::Tok(TokenView::Keyword(Keyword::Key), _),
                        Lexed::Tok(TokenView::Punctuation(Punctuation::LeftParen), _),
                        Lexed::Tok(TokenView::Indentifer(k), _),
                        Lexed::Tok(TokenView::Punctuation(Punctuation::RightParen), _),
                        Lexed::Tok(TokenView::Punctuation(Punctuation::RightParen), _),
                    ) => Some((t, x.0, k)),
                    _ => None,
                }
            },
            None => None,
        },
        _ => None,
    }
}

/// `r` creates table `t` with the columns `cols` and the primary key `k`.
pub open spec fn gives_create(
    r: Result<SqlStatement, String>,
    t: Seq<char>,
    cols: Seq<(Seq<char>, ast::DataType)>,
    k: Seq<char>,
) -> bool {
    match r {
        Ok(SqlStatement::CreateTable { table_name, primary_key, columns }) => table_name@ == t
            && primary_key@ == k && column_views(columns@) == cols,
        _ => false,
    }
}

fn parse_create_command(input_tokens: Tokenizer) -> (r: Result<SqlStatement, String>)
    requires
        input_tokens.position <= input_tokens.bytes().len(),
    ensures
        r matches Ok(s) ==> s is CreateTable,
        r is Ok ==> lex(input_tokens.bytes(), input_tokens.position as int) matches Lexed::Tok(
            TokenView::Keyword(Keyword::Create),
            _,
        ),
        create_parts(input_tokens.bytes(), input_tokens.position as int) matches Some(cp)
            ==> gives_create(r, cp.0, cp.1, cp.2),
{
    let mut tokenizer = input_tokens;
    let ghost b = tokenizer.bytes();
    if let Err(_err) = expect_keyword(&mut tokenizer, Keyword::Create) {
        return Err("No keyword \"CREATE\"".to_string());
    }
    if let Err(_err) = expect_keyword(&mut tokenizer, Keyword::Table) {
        return Err("No keyword \"TABLE\" after CREATE".to_string());
    }
    let table_name = match next_in(&mut tokenizer) {
        Ok(Some(Token::Indentifer(name))) => name,
        _ => return Err("Expected table name".to_string()),
    };
    if let Err(_err) = expect_punctuation(&mut tokenizer, Punctuation::LeftParen) {
        return Err("Expected left parenthesis after table name".to_string());
    }
    let columns = column_definitions(&mut tokenizer)?;
    proof {
        lemma_skip_spaces_bounds(b, tokenizer.position as int);
        if create_parts(b, input_tokens.position as int) is Some {
            let x = column_defs(b, lex_end(b, lex_end(b, lex_end(b, lex_end(b, input_tokens.position as int)))), b.len()).unwrap();
            lemma_lex_skip(b, x.1);
        }
    }
    if let Err(_err) = expect_keyword(&mut tokenizer, Keyword::Primary) {
        return Err("No keyword \"PRIMARY\" after column definitions".to_string());
    }
    if let Err(_err) = expect_keyword(&mut tokenizer, Keyword::Key) {
        return Err("No keyword \"KEY\" after PRIMARY".to_string());
    }
    if let Err(_err) = expect_punctuation(&mut tokenizer, Punctuation::LeftParen) {
        return Err("Expected left parenthesis after KEY".to_string());
    }
    let primary_key_collumn = match next_in(&mut tokenizer) {
        Ok(Some(Token::Indentifer(name))) => name,
        Ok(None) => {
            return Err("Unexpected end of input when tried to parse primary key".to_string())
        },
        _ => return Err("Expected name of primary key column".to_string()),
    };
    if let Err(_err) = expect_punctuation(&mut tokenizer, Punctuation::RightParen) {
        return Err("Expected right parenthesis after primary key column name".to_string());
    }
    if let Err(_err) = expect_punctuation(&mut tokenizer, Punctuation::RightParen) {
        return Err("Expected right parenthesis when closing column definitions".to_string());
    }
    Ok(SqlStatement::CreateTable { table_name, primary_key: primary_key_collumn, columns })
}


fn parse_insert_command(input_tokens: Tokenizer) -> (r: Result<SqlStatement, String>)
    requires
        input_tokens.position <= input_tokens.bytes().len(),
    ensures
        r matches Ok(s) ==> s is InsertInto,
        r is Ok ==> lex(input_tokens.bytes(), input_tokens.position as int) matches Lexed::Tok(
            TokenView::Keyword(Keyword::Insert),
            _,
        ),
        insert_parts(input_tokens.bytes(), input_tokens.position as int) matches Some(ip) ==> gives_insert(
            r,
            ip.0,
            ip.1,
            ip.2,
        ),
{
    let mut tokenizer = input_tokens;
    let ghost b = tokenizer.bytes();
    let ghost ok = insert_parts(b, tokenizer.position as int) is Some;
    if let Err(_err) = expect_keyword(&mut tokenizer, Keyword::Insert) {
        return Err("No keyword \"INSERT\"".to_string());
    }
    if let Err(_err) = expect_keyword(&mut tokenizer, Keyword::Into) {
        return Err("No keyword \"INTO\" after INSERT".to_string());
    }
    let table_name = match next_in(&mut tokenizer) {
        Ok(Some(Token::Indentifer(name))) => name,
        _ => return Err("Expected table name after \"INTO\" keyword".to_string()),
    };
    if let Err(_err) = expect_punctuation(&mut tokenizer, Punctuation::LeftParen) {
        return Err("Expected left parenthesis after table name".to_string());
    }
    let column_names = names_until(&mut tokenizer, ListEnd::RightParen)?;
    let ghost q = tokenizer.position as int;
    proof {
        lemma_skip_spaces_bounds(b, q);
    }
    if let Err(_err) = expect_punctuation(&mut tokenizer, Punctuation::RightParen) {
        return Err("Expected right parenthesis after column names".to_string());
    }
    if let Err(_err) = expect_keyword(&mut tokenizer, Keyword::Values) {
        return Err("Expected keyword \"VALUES\"".to_string());
    }
    if let Err(_err) = expect_punctuation(&mut tokenizer, Punctuation::LeftParen) {
        return Err("Expected left parenthesis after \"VALUES\" keyword".to_string());
    }
    let values = values_until_close(&mut tokenizer)?;
    if let Err(_err) = expect_punctuation(&mut tokenizer, Punctuation::RightParen) {
        return Err("Expected right parenthesis after values".to_string());
    }
    if let Err(_err) = expect_punctuation(&mut tokenizer, Punctuation::SemiColon) {
        return Err("Expected semicolon at the end of the command".to_string());
    }
    Ok(SqlStatement::InsertInto { table_name, column_names, values })
}

/// The parts of `SELECT <names> FROM <table>;` at `p`.
pub open spec fn select_list_parts(b: Seq<u8>, p: int) -> Option<(Seq<Seq<char>>, Seq<char>)> {
    match lex(b, p) {
        Lexed::Tok(TokenView::Keyword(Keyword::Select), e0) => match ident_list(
            b,
            e0,
            TokenView::Keyword(Keyword::From),
            b.len(),
        ) {
            Some(x) => match (lex(b, x.1), lex(b, lex_end(b, x.1)), lex(
                b,
                lex_end(b, lex_end(b, x.1)),
            )) {
                (
                    Lexed::Tok(TokenView::Keyword(Keyword::From), _),
                    Lexed::Tok(TokenView::Indentifer(t), _),
                    Lexed::Tok(TokenView::Punctuation(Punctuation::SemiColon), _),
                ) => Some((x.0, t)),
                _ => None,
            },
            None => None,
        },
        _ => None,
    }
}

/// `r` selects the columns `cols` from table `t`.
pub open spec fn gives_select_list(r: Result<SqlStatement, String>, cols: Seq<Seq<char>>, t: Seq<char>) -> bool {
    match r {
        Ok(SqlStatement::Select { columns: Columns::Specific(v), table }) => names(v@) == cols
            && table@ == t,
        _ => false,
    }
}

proof fn lemma_ident_list_skip(b: Seq<u8>, p: int, stop: TokenView, fuel: nat)
    requires
        0 <= p <= b.len(),
    ensures
        ident_list(b, skip_spaces(b, p), stop, fuel) == ident_list(b, p, stop, fuel),
{
    lemma_lex_skip(b, p);
}

/// `r` is the insertion into table `t` of the values `vs` for the columns `cols`.
pub open spec fn gives_insert(
    r: Result<SqlStatement, String>,
    t: Seq<char>,
    cols: Seq<Seq<char>>,
    vs: Seq<TokenView>,
) -> bool {
    match r {
        Ok(SqlStatement::InsertInto { table_name, column_names, values }) => table_name@ == t
            && names(column_names@) == cols && value_views(values@) == vs,
        _ => false,
    }
}

fn parse_select_command(input_tokens: Tokenizer) -> (r: Result<SqlStatement, String>)
    requires
        input_tokens.position <= input_tokens.bytes().len(),
    ensures
        r matches Ok(s) ==> s is Select,
        r is Ok ==> lex(input_tokens.bytes(), input_tokens.position as int) matches Lexed::Tok(
            TokenView::Keyword(Keyword::Select),
            _,
        ),
        select_all_table(input_tokens.bytes(), input_tokens.position as int) matches Some(t) ==> (
        r matches Ok(s) && s matches SqlStatement::Select { columns, table } && columns is All
            && table@ == t),
        select_list_parts(input_tokens.bytes(), input_tokens.position as int) matches Some(sp)
            ==> gives_select_list(r, sp.0, sp.1),
{
    let mut tokenizer = input_tokens;
    let ghost start = tokenizer;
    let ghost b = tokenizer.bytes();
    let ghost p0 = tokenizer.position as int;
    let ghost e0: int = match lex(b, p0) {
        Lexed::Tok(_, e) => e,
        _ => 0,
    };
    let ghost e1: int = match lex(b, e0) {
        Lexed::Tok(_, e) => e,
        _ => 0,
    };
    let ghost e2: int = match lex(b, e1) {
        Lexed::Tok(_, e) => e,
        _ => 0,
    };
    let ghost e3: int = match lex(b, e2) {
        Lexed::Tok(_, e) => e,
        _ => 0,
    };
    let ghost all = select_all_table(b, p0) is Some;
    proof {
        if all {
            assert(lex(b, p0) matches Lexed::Tok(TokenView::Keyword(Keyword::Select), _));
            assert(token_after(b, p0, 1) == token_after(b, e0, 0));
            assert(lex(b, e0) matches Lexed::Tok(TokenView::Wildcard, _));
            assert(token_after(b, e0, 1) == token_after(b, e1, 0));
            assert(token_after(b, p0, 2) == token_after(b, e0, 1));
            assert(lex(b, e1) matches Lexed::Tok(TokenView::Keyword(Keyword::From), _));
            assert(token_after(b, e1, 1) == token_after(b, e2, 0));
            assert(token_after(b, e0, 2) == token_after(b, e1, 1));
            assert(token_after(b, p0, 3) == token_after(b, e0, 2));
            assert(lex(b, e2) == token_after(b, p0, 3));
            assert(token_after(b, e2, 1) == token_after(b, e3, 0));
            assert(token_after(b, e1, 2) == token_after(b, e2, 1));
            assert(token_after(b, e0, 3) == token_after(b, e1, 2));
            assert(token_after(b, p0, 4) == token_after(b, e0, 3));
            assert(lex(b, e3) matches Lexed::Tok(TokenView::Punctuation(Punctuation::SemiColon), _));
        }
    }
    if let Err(_err) = expect_keyword(&mut tokenizer, Keyword::Select) {
        return Err("No keyword \"SELECT\"".to_string());
    }
    proof {
        lemma_skip_spaces_bounds(tokenizer.bytes(), tokenizer.position as int);
        lemma_lex_skip(b, tokenizer.position as int);
    }
    let ghost p1 = tokenizer.position as int;
    let columns: Columns = match tokenizer.peek() {
        Ok(Some(Token::Wildcard)) => {
            match next_in(&mut tokenizer) {
                Ok(_) => {},
                Err(e) => return Err(e),
            }
            Columns::All
        },
        Ok(Some(Token::Indentifer(_))) => {
            proof {
                lemma_ident_list_skip(b, p1, TokenView::Keyword(Keyword::From), b.len());
            }
            let collumns = names_until(&mut tokenizer, ListEnd::From)?;
            proof {
                if select_list_parts(b, p0) is Some {
                    let x = ident_list(b, p1, TokenView::Keyword(Keyword::From), b.len()).unwrap();
                    lemma_skip_spaces_bounds(b, x.1);
                    lemma_lex_skip(b, x.1);
                }
            }
            Columns::Specific(collumns)
        },
        _ => return Err("Error parsing columns to show".to_string()),
    };
    proof {
        lemma_skip_spaces_bounds(tokenizer.bytes(), tokenizer.position as int);
    }
    let ghost p2 = tokenizer.position as int;
    if let Err(_err) = expect_keyword(&mut tokenizer, Keyword::From) {
        return Err("No keyword \"FROM\" after SELECT".to_string());
    }
    let ghost p3 = tokenizer.position as int;
    let table = match next_in(&mut tokenizer) {
        Ok(Some(Token::Indentifer(name))) => name,
        Ok(None) => return Err("Unexpected end of input while parsing table name".to_string()),
        _ => return Err("Expected table name".to_string()),
    };
    if let Err(_err) = expect_punctuation(&mut tokenizer, Punctuation::SemiColon) {
        return Err("Expected semicolon at the end of the command".to_string());
    }
    Ok(SqlStatement::Select { columns, table })
}

} // verus!
