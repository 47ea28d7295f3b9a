//! Splits a command into tokens. The grammar is ASCII: spaces, tabs and line
//! breaks separate tokens, and a word ends at a space or a punctuation mark.
use vstd::prelude::*;
use vstd::utf8::*;
use crate::codec::{decode_utf8_lossy, utf8_text};
use crate::parser::token::{DataType, Keyword, Punctuation, Token, TokenView, Value, token_view};

verus! {

pub open spec fn is_space(c: u8) -> bool {
    c == 32 || (9 <= c && c <= 13)
}

pub open spec fn is_digit(c: u8) -> bool {
    48 <= c && c <= 57
}

/// Bytes that end a word: a space and the punctuation marks.
pub open spec fn ends_word(c: u8) -> bool {
    c == 32 || c == 40 || c == 41 || c == 44 || c == 59
}

/// The first position at or after `p` that does not hold a space.
pub open spec fn skip_spaces(b: Seq<u8>, p: int) -> int
    decreases b.len() - p,
{
    if 0 <= p < b.len() && is_space(b[p]) {
        skip_spaces(b, p + 1)
    } else {
        p
    }
}

/// The first position at or after `p` that does not hold a digit.
pub open spec fn digits_end(b: Seq<u8>, p: int) -> int
    decreases b.len() - p,
{
    if 0 <= p < b.len() && is_digit(b[p]) {
        digits_end(b, p + 1)
    } else {
        p
    }
}

/// The first position at or after `p` that ends a word, or the end of the input.
pub open spec fn word_end(b: Seq<u8>, p: int) -> int
    decreases b.len() - p,
{
    if 0 <= p < b.len() && !ends_word(b[p]) {
        word_end(b, p + 1)
    } else {
        p
    }
}

/// The first position at or after `p` that holds a double quote, or the end of the input.
pub open spec fn quote_end(b: Seq<u8>, p: int) -> int
    decreases b.len() - p,
{
    if 0 <= p < b.len() && b[p] != 34 {
        quote_end(b, p + 1)
    } else {
        p
    }
}

/// The number that a sequence of decimal digits spells.
pub open spec fn digits_value(w: Seq<u8>) -> int
    decreases w.len(),
{
    if w.len() == 0 {
        0
    } else {
        digits_value(w.drop_last()) * 10 + (w.last() - 48)
    }
}

pub open spec fn keyword_bytes(k: Keyword) -> Seq<u8> {
    match k {
        Keyword::Create => seq![67u8, 82, 69, 65, 84, 69],
        Keyword::Table => seq![84u8, 65, 66, 76, 69],
        Keyword::Insert => seq![73u8, 78, 83, 69, 82, 84],
        Keyword::Into => seq![73u8, 78, 84, 79],
        Keyword::Values => seq![86u8, 65, 76, 85, 69, 83],
        Keyword::Primary => seq![80u8, 82, 73, 77, 65, 82, 89],
        Keyword::Key => seq![75u8, 69, 89],
        Keyword::Select => seq![83u8, 69, 76, 69, 67, 84],
        Keyword::From => seq![70u8, 82, 79, 77],
    }
}

pub open spec fn data_type_bytes(d: DataType) -> Seq<u8> {
    match d {
        DataType::Integer32 => seq![73u8, 78, 84],
        DataType::Varchar256 => seq![86u8, 65, 82, 67, 72, 65, 82],
    }
}

/// The token that a word stands for: a keyword, a data type, or an identifier.
pub open spec fn word_token(w: Seq<u8>) -> TokenView {
    if exists|k: Keyword| keyword_bytes(k) == w {
        TokenView::Keyword(choose|k: Keyword| keyword_bytes(k) == w)
    } else if exists|d: DataType| data_type_bytes(d) == w {
        TokenView::DataType(choose|d: DataType| data_type_bytes(d) == w)
    } else {
        TokenView::Indentifer(utf8_text(w))
    }
}

pub open spec fn punctuation_of(c: u8) -> Option<Punctuation> {
    if c == 40 {
        Some(Punctuation::LeftParen)
    } else if c == 41 {
        Some(Punctuation::RightParen)
    } else if c == 44 {
        Some(Punctuation::Comma)
    } else if c == 59 {
        Some(Punctuation::SemiColon)
    } else {
        None
    }
}

/// What the input holds at position `p`.
pub ghost enum Lexed {
    /// Only spaces are left.
    End,
    /// An unterminated string, or a number too large for `i32`.
    Fail,
    /// A token, and the position just after it.
    Tok(TokenView, int),
}

/// The token that starts at or after `p`, once spaces are skipped.
pub open spec fn lex(b: Seq<u8>, p: int) -> Lexed {
    let s = skip_spaces(b, p);
    if s >= b.len() {
        Lexed::End
    } else if b[s] == 34 {
        let q = quote_end(b, s + 1);
        if q >= b.len() {
            Lexed::Fail
        } else {
            Lexed::Tok(TokenView::Text(utf8_text(b.subrange(s + 1, q))), q + 1)
        }
    } else if is_digit(b[s]) {
        let e = digits_end(b, s);
        let v = digits_value(b.subrange(s, e));
        if v > i32::MAX {
            Lexed::Fail
        } else {
            Lexed::Tok(TokenView::Integer(v as i32), e)
        }
    } else if punctuation_of(b[s]) is Some {
        Lexed::Tok(TokenView::Punctuation(punctuation_of(b[s])->0), s + 1)
    } else if b[s] == 42 {
        Lexed::Tok(TokenView::Wildcard, s + 1)
    } else {
        let e = word_end(b, s);
        Lexed::Tok(word_token(b.subrange(s, e)), e)
    }
}

/// `r` reports `l`: nothing at the end, an error where lexing fails, else the token.
pub open spec fn reports(r: Result<Option<Token>, String>, l: Lexed) -> bool {
    match l {
        Lexed::End => r matches Ok(None),
        Lexed::Fail => r is Err,
        Lexed::Tok(t, _) => r matches Ok(Some(tok)) && token_view(tok) == t,
    }
}

/// The position after the token that `l` describes, or `s` where there is none.
pub open spec fn position_after(l: Lexed, s: int) -> int {
    match l {
        Lexed::Tok(_, e) => e,
        _ => s,
    }
}

pub struct Tokenizer {
    pub input: String,
    /// Byte offset of the next unread byte.
    pub position: usize,
}

proof fn lemma_digits_value_grows(w: Seq<u8>, k: int)
    requires
        0 <= k <= w.len(),
        forall|i: int| 0 <= i < w.len() ==> is_digit(#[trigger] w[i]),
    ensures
        digits_value(w.subrange(0, k)) <= digits_value(w),
        0 <= digits_value(w.subrange(0, k)),
    decreases w.len(),
{
    if w.len() > 0 {
        if k == w.len() {
            assert(w.subrange(0, k) =~= w);
            lemma_digits_value_grows(w.drop_last(), k - 1);
            assert(w.drop_last().subrange(0, k - 1) =~= w.drop_last());
        } else {
            lemma_digits_value_grows(w.drop_last(), k);
            assert(w.drop_last().subrange(0, k) =~= w.subrange(0, k));
            lemma_digits_value_grows(w.drop_last(), w.len() - 1);
            assert(w.drop_last().subrange(0, w.len() - 1) =~= w.drop_last());
        }
    }
}

/// Whether `b[s..e]` equals `lit`.
fn range_equals(b: &[u8], s: usize, e: usize, lit: &[u8]) -> (r: bool)
    requires
        s <= e <= b@.len(),
    ensures
        r == (b@.subrange(s as int, e as int) == lit@),
{
    if e - s != lit.len() {
        return false;
    }
    let mut i: usize = 0;
    while i < lit.len()
        invariant
            e - s == lit@.len(),
            s <= e <= b@.len(),
            i <= lit@.len(),
            forall|j: int| 0 <= j < i ==> b@[s + j] == lit@[j],
        decreases lit@.len() - i,
    {
        if b[s + i] != lit[i] {
            assert(b@.subrange(s as int, e as int)[i as int] != lit@[i as int]);
            return false;
        }
        i += 1;
    }
    assert(b@.subrange(s as int, e as int) =~= lit@);
    true
}

fn keyword_of_word(b: &[u8], s: usize, e: usize) -> (r: Option<Keyword>)
    requires
        s <= e <= b@.len(),
    ensures
        r matches Some(k) ==> keyword_bytes(k) == b@.subrange(s as int, e as int),
        r is None ==> forall|k: Keyword| keyword_bytes(k) != b@.subrange(s as int, e as int),
{
    let ghost w = b@.subrange(s as int, e as int);
    if range_equals(b, s, e, &[67u8, 82, 69, 65, 84, 69]) {
        Some(Keyword::Create)
    } else if range_equals(b, s, e, &[84u8, 65, 66, 76, 69]) {
        Some(Keyword::Table)
    } else if range_equals(b, s, e, &[73u8, 78, 83, 69, 82, 84]) {
        Some(Keyword::Insert)
    } else if range_equals(b, s, e, &[73u8, 78, 84, 79]) {
        Some(Keyword::Into)
    } else if range_equals(b, s, e, &[86u8, 65, 76, 85, 69, 83]) {
        Some(Keyword::Values)
    } else if range_equals(b, s, e, &[80u8, 82, 73, 77, 65, 82, 89]) {
        Some(Keyword::Primary)
    } else if range_equals(b, s, e, &[75u8, 69, 89]) {
        Some(Keyword::Key)
    } else if range_equals(b, s, e, &[83u8, 69, 76, 69, 67, 84]) {
        Some(Keyword::Select)
    } else if range_equals(b, s, e, &[70u8, 82, 79, 77]) {
        Some(Keyword::From)
    } else {
        assert forall|k: Keyword| keyword_bytes(k) != w by {
            match k {
                Keyword::Create => {},
                Keyword::Table => {},
                Keyword::Insert => {},
                Keyword::Into => {},
                Keyword::Values => {},
                Keyword::Primary => {},
                Keyword::Key => {},
                Keyword::Select => {},
                Keyword::From => {},
            }
        }
        None
    }
}

fn data_type_of_word(b: &[u8], s: usize, e: usize) -> (r: Option<DataType>)
    requires
        s <= e <= b@.len(),
    ensures
        r matches Some(d) ==> data_type_bytes(d) == b@.subrange(s as int, e as int),
        r is None ==> forall|d: DataType| data_type_bytes(d) != b@.subrange(s as int, e as int),
{
    let ghost w = b@.subrange(s as int, e as int);
    if range_equals(b, s, e, &[73u8, 78, 84]) {
        Some(DataType::Integer32)
    } else if range_equals(b, s, e, &[86u8, 65, 82, 67, 72, 65, 82]) {
        Some(DataType::Varchar256)
    } else {
        assert forall|d: DataType| data_type_bytes(d) != w by {
            match d {
                DataType::Integer32 => {},
                DataType::Varchar256 => {},
            }
        }
        None
    }
}

proof fn lemma_keyword_bytes_injective(k1: Keyword, k2: Keyword)
    requires
        keyword_bytes(k1) == keyword_bytes(k2),
    ensures
        k1 == k2,
{
    assert(keyword_bytes(k1).len() == keyword_bytes(k2).len());
    assert(keyword_bytes(k1)[0] == keyword_bytes(k2)[0]);
    assert(keyword_bytes(k1)[1] == keyword_bytes(k2)[1]);
    assert(keyword_bytes(k1)[2] == keyword_bytes(k2)[2]);
}

proof fn lemma_data_type_bytes_injective(d1: DataType, d2: DataType)
    requires
        data_type_bytes(d1) == data_type_bytes(d2),
    ensures
        d1 == d2,
{
    assert(data_type_bytes(d1).len() == data_type_bytes(d2).len());
}

impl Tokenizer {
    pub open spec fn bytes(&self) -> Seq<u8> {
        encode_utf8(self.input@)
    }

    pub fn new(input: String) -> (r: Self)
        ensures
            r.input == input,
            r.position == 0,
    {
        Tokenizer { input, position: 0 }
    }

    fn skip_whitespace(&mut self)
        ensures
            final(self).input == old(self).input,
            final(self).position == skip_spaces(old(self).bytes(), old(self).position as int),
    {
        let bytes = self.input.as_str().as_bytes();
        let mut p = self.position;
        while p < bytes.len() && (bytes[p] == 32 || (9 <= bytes[p] && bytes[p] <= 13))
            invariant
                bytes@ == old(self).bytes(),
                old(self).position <= p,
                skip_spaces(bytes@, p as int) == skip_spaces(bytes@, old(self).position as int),
            decreases bytes@.len() - p,
        {
            p += 1;
        }
        self.position = p;
    }

    /// The token at the current position, with the position just after it.
    fn lex_here(&self) -> (r: Result<Option<(Token, usize)>, String>)
        ensures
            match lex(self.bytes(), self.position as int) {
                Lexed::End => r matches Ok(None),
                Lexed::Fail => r is Err,
                Lexed::Tok(t, e) => r matches Ok(Some(p)) && token_view(p.0) == t && p.1 == e,
            },
    {
        let bytes = self.input.as_str().as_bytes();
        let ghost b = bytes@;
        let mut s = self.position;
        while s < bytes.len() && (bytes[s] == 32 || (9 <= bytes[s] && bytes[s] <= 13))
            invariant
                bytes@ == self.bytes(),
                bytes@ == b,
                self.position <= s,
                skip_spaces(b, s as int) == skip_spaces(b, self.position as int),
            decreases bytes@.len() - s,
        {
            s += 1;
        }
        assert(s == skip_spaces(b, s as int));
        if s >= bytes.len() {
            return Ok(None);
        }
        let c = bytes[s];
        if c == 34 {
            let mut q = s + 1;
            while q < bytes.len() && bytes[q] != 34
                invariant
                    s + 1 <= q,
                    bytes@ == b,
                    skip_spaces(b, self.position as int) == s,
                    b == self.bytes(),
                    s < b.len(),
                    quote_end(b, q as int) == quote_end(b, s + 1),
                decreases bytes@.len() - q,
            {
                q += 1;
            }
            if q >= bytes.len() {
                return Err("Neverending string".to_string());
            }
            let text = decode_utf8_lossy(&bytes[s + 1..q]);
            return Ok(Some((Token::Value(Value::String(text)), q + 1)));
        }
        if 48 <= c && c <= 57 {
            let mut e = s;
            let mut acc: u64 = 0;
            while e < bytes.len() && 48 <= bytes[e] && bytes[e] <= 57
                invariant
                    s <= e <= b.len(),
                    bytes@ == b,
                    skip_spaces(b, self.position as int) == s,
                    b == self.bytes(),
                    s < b.len(),
                    is_digit(b[s as int]),
                    digits_end(b, e as int) == digits_end(b, s as int),
                    forall|i: int| s <= i < e ==> is_digit(#[trigger] b[i]),
                    acc <= i32::MAX,
                    acc == digits_value(b.subrange(s as int, e as int)),
                decreases bytes@.len() - e,
            {
                let d = (bytes[e] - 48) as u64;
                assert(b.subrange(s as int, e + 1).drop_last() =~= b.subrange(s as int, e as int));
                assert(digits_end(b, e as int) == digits_end(b, e + 1));
                acc = acc * 10 + d;
                e += 1;
                if acc > i32::MAX as u64 {
                    proof {
                        lemma_digits_end_bounds(b, e as int);
                        lemma_digits_end_bounds(b, s as int);
                        let w = b.subrange(s as int, digits_end(b, s as int));
                        assert forall|i: int| 0 <= i < w.len() implies is_digit(#[trigger] w[i]) by {
                            lemma_digits_run(b, s as int, s + i);
                        }
                        lemma_digits_value_grows(w, e - s);
                        assert(w.subrange(0, e - s) =~= b.subrange(s as int, e as int));
                        assert(digits_value(w) > i32::MAX);
                    }
                    return Err("Cannot parse int".to_string());
                }
            }
            assert(e as int == digits_end(b, e as int));
            return Ok(Some((Token::Value(Value::Integer(acc as i32)), e)));
        }
        if c == 40 {
            return Ok(Some((Token::Punctuation(Punctuation::LeftParen), s + 1)));
        }
        if c == 41 {
            return Ok(Some((Token::Punctuation(Punctuation::RightParen), s + 1)));
        }
        if c == 44 {
            return Ok(Some((Token::Punctuation(Punctuation::Comma), s + 1)));
        }
        if c == 59 {
            return Ok(Some((Token::Punctuation(Punctuation::SemiColon), s + 1)));
        }
        if c == 42 {
            return Ok(Some((Token::Wildcard, s + 1)));
        }
        let mut e = s;
        while e < bytes.len() && !(bytes[e] == 32 || bytes[e] == 40 || bytes[e] == 41
            || bytes[e] == 44 || bytes[e] == 59)
            invariant
                s <= e <= b.len(),
                bytes@ == b,
                skip_spaces(b, self.position as int) == s,
                    b == self.bytes(),
                s < b.len(),
                word_end(b, e as int) == word_end(b, s as int),
            decreases bytes@.len() - e,
        {
            e += 1;
        }
        assert(e as int == word_end(b, e as int));
        let ghost w = b.subrange(s as int, e as int);
        match keyword_of_word(bytes, s, e) {
            Some(k) => {
                proof {
                    assert forall|k2: Keyword| keyword_bytes(k2) == w implies k2 == k by {
                        lemma_keyword_bytes_injective(k, k2);
                    }
                }
                Ok(Some((Token::Keyword(k), e)))
            },
            None => match data_type_of_word(bytes, s, e) {
                Some(d) => {
                    proof {
                        assert forall|d2: DataType| data_type_bytes(d2) == w implies d2 == d by {
                            lemma_data_type_bytes_injective(d, d2);
                        }
                    }
                    Ok(Some((Token::DataType(d), e)))
                },
                None => {
                    let text = decode_utf8_lossy(&bytes[s..e]);
                    Ok(Some((Token::Indentifer(text), e)))
                },
            },
        }
    }

    /// Skips spaces and returns the next token without consuming it.
    pub fn peek(&mut self) -> (r: Result<Option<Token>, String>)
        ensures
            final(self).input == old(self).input,
            final(self).position == skip_spaces(old(self).bytes(), old(self).position as int),
            reports(r, lex(old(self).bytes(), old(self).position as int)),
    {
        let r = self.lex_here();
        self.skip_whitespace();
        match r {
            Ok(Some(p)) => Ok(Some(p.0)),
            Ok(None) => Ok(None),
            Err(e) => Err(e),
        }
    }

    /// Returns the next token and moves past it.
    pub fn next_token(&mut self) -> (r: Result<Option<Token>, String>)
        ensures
            final(self).input == old(self).input,
            reports(r, lex(old(self).bytes(), old(self).position as int)),
            final(self).position == position_after(
                lex(old(self).bytes(), old(self).position as int),
                skip_spaces(old(self).bytes(), old(self).position as int),
            ),
    {
        let r = self.lex_here();
        self.skip_whitespace();
        match r {
            Ok(Some(p)) => {
                self.position = p.1;
                Ok(Some(p.0))
            },
            Ok(None) => Ok(None),
            Err(e) => Err(e),
        }
    }
}

proof fn lemma_digits_end_bounds(b: Seq<u8>, p: int)
    requires
        0 <= p <= b.len(),
    ensures
        p <= digits_end(b, p) <= b.len(),
    decreases b.len() - p,
{
    if p < b.len() && is_digit(b[p]) {
        lemma_digits_end_bounds(b, p + 1);
    }
}

/// Every position from `p` up to the end of the run of digits holds a digit.
proof fn lemma_digits_run(b: Seq<u8>, p: int, i: int)
    requires
        0 <= p <= i < digits_end(b, p),
        digits_end(b, p) <= b.len(),
    ensures
        is_digit(b[i]),
    decreases i - p,
{
    if i > p {
        lemma_digits_run(b, p + 1, i);
    }
}

} // verus!
