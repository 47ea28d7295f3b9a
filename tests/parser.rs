use ssql::parser::ast::{self, Columns, SqlStatement};
use ssql::parser::parse;

#[test]
fn when_create_command_is_inputed_return_correct_ast() {
    let command =
        "CREATE TABLE table_name (collumn1 INT, collumn2 VARCHAR, PRIMARY KEY (collumn1));"
            .to_string();

    let result = parse(command);

    assert_eq!(
        result,
        Ok(SqlStatement::CreateTable {
            table_name: "table_name".to_string(),
            primary_key: "collumn1".to_string(),
            columns: vec![
                ast::ColumnDefinition {
                    name: "collumn1".to_string(),
                    data_type: ast::DataType::Int32,
                },
                ast::ColumnDefinition {
                    name: "collumn2".to_string(),
                    data_type: ast::DataType::VarChar256,
                }
            ]
        })
    );
}

#[test]
fn when_insert_command_is_inputed_return_correct_ast() {
    let command =
        "INSERT INTO table_name (collumn1, collumn2) VALUES (12, \"value2\");".to_string();

    let result = parse(command);

    assert_eq!(
        result,
        Ok(ast::SqlStatement::InsertInto {
            table_name: "table_name".to_string(),
            column_names: vec!["collumn1".to_string(), "collumn2".to_string()],
            values: vec![
                ast::Value::Int32(12),
                ast::Value::VarChar256("value2".to_string()),
            ]
        })
    );
}

#[test]
fn when_select_command_is_inputed_return_correct_ast() {
    let command = "SELECT collumn1, collumn2 FROM table_name;".to_string();

    let result = parse(command);

    assert_eq!(
        result,
        Ok(ast::SqlStatement::Select {
            columns: Columns::Specific(
                ["collumn1".to_string(), "collumn2".to_string()].to_vec()
            ),
            table: "table_name".to_string()
        })
    )
}

#[test]
fn when_select_command_with_wildcard_is_inputed_return_correct_ast() {
    let command = "SELECT * FROM table_name;".to_string();

    let result = parse(command);

    assert_eq!(
        result,
        Ok(ast::SqlStatement::Select {
            columns: Columns::All,
            table: "table_name".to_string()
        })
    )
}
