//! Checks on table definitions before a table is created.
use vstd::prelude::*;
use crate::parser::ast::ColumnDefinition;

verus! {

/// A definition is acceptable: a table name, a primary key and at least one column.
pub open spec fn definition_ok(
    table_name: Seq<char>,
    primary_key: Seq<char>,
    columns: Seq<ColumnDefinition>,
) -> bool {
    &&& table_name.len() > 0
    &&& primary_key.len() > 0
    &&& columns.len() > 0
}

/// Validates the definition of a new table.
pub fn create_table(table_name: String, primary_key: String, columns: Vec<ColumnDefinition>) -> (r:
    Result<(), String>)
    ensures
        r is Ok <==> definition_ok(table_name@, primary_key@, columns@),
{
    if table_name.as_str().is_empty() {
        return Err("Table name cannot be empty".to_string());
    }
    if primary_key.as_str().is_empty() {
        return Err("Primary key cannot be empty".to_string());
    }
    if columns.len() == 0 {
        return Err("At least one column must be provided".to_string());
    }
    Ok(())
}

} // verus!
