use ssql::parser::token::{DataType, Keyword, Punctuation, Token, Value};
use ssql::parser::tokenizer::Tokenizer;

#[test]
fn when_next_token_is_string_value_type_return_value_token_type() {
    let mut tokeinzer = Tokenizer::new("\"StringValue\",  ".to_string());

    let next_token = tokeinzer.next_token();

    assert_eq!(tokeinzer.position, "\"StringValue\"".len());
    assert_eq!(
        next_token,
        Ok(Some(Token::Value(Value::String("StringValue".to_string()))))
    );
}

#[test]
fn when_next_token_is_number_value_type_return_value_token_type() {
    let mut tokeinzer = Tokenizer::new("123631 ,".to_string());

    let next_token = tokeinzer.next_token();

    assert_eq!(next_token, Ok(Some(Token::Value(Value::Integer(123631)))));
    assert_eq!(tokeinzer.position, "123631".len());
}

#[test]
fn when_next_token_is_left_paren_value_type_return_punctuation_left_paren_token_type() {
    let mut tokeinzer = Tokenizer::new("(collumn_name ".to_string());

    let next_token = tokeinzer.next_token();

    assert_eq!(
        next_token,
        Ok(Some(Token::Punctuation(Punctuation::LeftParen)))
    );
    assert_eq!(tokeinzer.position, "(".len());
}

#[test]
fn when_next_token_is_right_paren_value_type_return_punctuation_right_paren_token_type() {
    let mut tokeinzer = Tokenizer::new("); ".to_string());

    let next_token = tokeinzer.next_token();

    assert_eq!(
        next_token,
        Ok(Some(Token::Punctuation(Punctuation::RightParen)))
    );
    assert_eq!(tokeinzer.position, ")".len());
}

#[test]
fn when_next_token_value_is_comma_return_comma_token_type() {
    let mut tokeinzer = Tokenizer::new(",collumn1    ".to_string());

    let next_token = tokeinzer.next_token();

    assert_eq!(next_token, Ok(Some(Token::Punctuation(Punctuation::Comma))));
    assert_eq!(tokeinzer.position, ",".len());
}

#[test]
fn when_next_token_is_semicollon_value_type_return_punctuation_semicollon_token_type() {
    let mut tokeinzer = Tokenizer::new(";    ".to_string());

    let next_token = tokeinzer.next_token();

    assert_eq!(
        next_token,
        Ok(Some(Token::Punctuation(Punctuation::SemiColon)))
    );
    assert_eq!(tokeinzer.position, ";".len());
}

#[test]
fn when_next_token_value_is_create_return_keyowrd_create_token_type() {
    let mut tokeinzer = Tokenizer::new("CREATE ".to_string());

    let next_token = tokeinzer.next_token();

    assert_eq!(next_token, Ok(Some(Token::Keyword(Keyword::Create))));
    assert_eq!(tokeinzer.position, "CREATE".len());
}

#[test]
fn when_next_token_value_is_table_return_keyowrd_table_token_type() {
    let mut tokeinzer = Tokenizer::new("TABLE ".to_string());

    let next_token = tokeinzer.next_token();

    assert_eq!(next_token, Ok(Some(Token::Keyword(Keyword::Table))));
    assert_eq!(tokeinzer.position, "TABLE".len());
}

#[test]
fn when_next_token_value_is_insert_return_keyword_insert_token_type() {
    let mut tokeinzer = Tokenizer::new("INSERT ".to_string());

    let next_token = tokeinzer.next_token();

    assert_eq!(next_token, Ok(Some(Token::Keyword(Keyword::Insert))));
    assert_eq!(tokeinzer.position, "INSERT".len());
}

#[test]
fn when_next_token_value_is_into_return_keyword_into_token_type() {
    let mut tokeinzer = Tokenizer::new("INTO ".to_string());

    let next_token = tokeinzer.next_token();

    assert_eq!(next_token, Ok(Some(Token::Keyword(Keyword::Into))));
    assert_eq!(tokeinzer.position, "INTO".len());
}

#[test]
fn when_next_token_value_is_values_return_keyword_values_token_type() {
    let mut tokeinzer = Tokenizer::new("VALUES (".to_string());

    let next_token = tokeinzer.next_token();

    assert_eq!(next_token, Ok(Some(Token::Keyword(Keyword::Values))));
    assert_eq!(tokeinzer.position, "VALUES".len());
}

#[test]
fn when_next_token_value_is_primary_return_keyword_primary_token_type() {
    let mut tokeinzer = Tokenizer::new("PRIMARY ".to_string());

    let next_token = tokeinzer.next_token();

    assert_eq!(next_token, Ok(Some(Token::Keyword(Keyword::Primary))));
    assert_eq!(tokeinzer.position, "PRIMARY".len());
}

#[test]
fn when_next_token_value_is_key_return_keyword_key_token_type() {
    let mut tokeinzer = Tokenizer::new("KEY ".to_string());

    let next_token = tokeinzer.next_token();

    assert_eq!(next_token, Ok(Some(Token::Keyword(Keyword::Key))));
    assert_eq!(tokeinzer.position, "KEY".len());
}

#[test]
fn when_next_token_value_is_int_return_data_type_int_token_type() {
    let mut tokeinzer = Tokenizer::new("INT,".to_string());

    let next_token = tokeinzer.next_token();

    assert_eq!(next_token, Ok(Some(Token::DataType(DataType::Integer32))));
    assert_eq!(tokeinzer.position, "INT".len());
}

#[test]
fn when_next_token_value_is_varchar_return_keyword_varchar_token_type() {
    let mut tokeinzer = Tokenizer::new("VARCHAR ".to_string());

    let next_token = tokeinzer.next_token();

    assert_eq!(next_token, Ok(Some(Token::DataType(DataType::Varchar256))));
    assert_eq!(tokeinzer.position, "VARCHAR".len());
}

#[test]
fn when_next_token_value_is_indentifer_return_indentifier_token_type() {
    let mut tokeinzer = Tokenizer::new("indentifer_1 ".to_string());
    let next_token = tokeinzer.next_token();

    assert_eq!(
        next_token,
        Ok(Some(Token::Indentifer("indentifer_1".to_string())))
    );
    assert_eq!(tokeinzer.position, "indentifer_1".len());
}

#[test]
fn when_next_token_value_is_wildcard_return_wildcard_token_type() {
    let mut tokeinzer = Tokenizer::new("* ".to_string());

    let next_token = tokeinzer.next_token();

    assert_eq!(next_token, Ok(Some(Token::Wildcard)));
    assert_eq!(tokeinzer.position, "*".len());
}

#[test]
fn when_create_command_is_inputed_return_correct_tokens() {
    let mut tokeinzer = Tokenizer::new(
        "CREATE TABLE table_name (collumn1 INT, collumn2 VARCHAR, PRIMARY KEY (collumn1));"
            .to_string(),
    );
    let mut result = Vec::new();

    while let Ok(Some(token)) = tokeinzer.next_token() {
        result.push(token)
    }

    assert_eq!(
        result,
        [
            Token::Keyword(Keyword::Create),
            Token::Keyword(Keyword::Table),
            Token::Indentifer("table_name".to_string()),
            Token::Punctuation(Punctuation::LeftParen),
            Token::Indentifer("collumn1".to_string()),
            Token::DataType(DataType::Integer32),
            Token::Punctuation(Punctuation::Comma),
            Token::Indentifer("collumn2".to_string()),
            Token::DataType(DataType::Varchar256),
            Token::Punctuation(Punctuation::Comma),
            Token::Keyword(Keyword::Primary),
            Token::Keyword(Keyword::Key),
            Token::Punctuation(Punctuation::LeftParen),
            Token::Indentifer("collumn1".to_string()),
            Token::Punctuation(Punctuation::RightParen),
            Token::Punctuation(Punctuation::RightParen),
            Token::Punctuation(Punctuation::SemiColon),
        ]
    )
}

#[test]
fn when_insert_command_is_inputed_return_correct_tokens() {
    let mut tokenizer =
        Tokenizer::new("INSERT INTO table_name (123, \"stringValue\");".to_string());
    let mut result = Vec::new();

    while let Ok(Some(token)) = tokenizer.next_token() {
        result.push(token)
    }

    assert_eq!(
        result,
        [
            Token::Keyword(Keyword::Insert),
            Token::Keyword(Keyword::Into),
            Token::Indentifer("table_name".to_string()),
            Token::Punctuation(Punctuation::LeftParen),
            Token::Value(Value::Integer(123)),
            Token::Punctuation(Punctuation::Comma),
            Token::Value(Value::String("stringValue".to_string())),
            Token::Punctuation(Punctuation::RightParen),
            Token::Punctuation(Punctuation::SemiColon),
        ]
    )
}

#[test]
fn when_select_command_is_inputed_return_correct_tokens() {
    let mut tokenizer = Tokenizer::new("SELECT * FROM Customers;".to_string());
    let mut result = Vec::new();

    while let Ok(Some(token)) = tokenizer.next_token() {
        result.push(token)
    }

    assert_eq!(
        result,
        [
            Token::Keyword(Keyword::Select),
            Token::Wildcard,
            Token::Keyword(Keyword::From),
            Token::Indentifer("Customers".to_string()),
            Token::Punctuation(Punctuation::SemiColon)
        ]
    )
}
