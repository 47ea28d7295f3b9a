//! Statements that the parser produces.
use vstd::prelude::*;
use vstd::string::StringSliceAdditionalSpecFns;
use crate::order::compare_bytes;
use crate::parser::token;
use crate::parser::tokenizer::data_type_bytes;

verus! {

#[derive(Debug, PartialEq, Eq)]
pub enum SqlStatement {
    CreateTable { table_name: String, primary_key: String, columns: Vec<ColumnDefinition> },
    InsertInto { table_name: String, column_names: Vec<String>, values: Vec<Value> },
    Select { columns: Columns, table: String },
}

#[derive(Debug, PartialEq, Eq)]
pub struct ColumnDefinition {
    pub name: String,
    pub data_type: DataType,
}

#[derive(Clone, Copy, Debug, PartialEq, Eq, Structural)]
pub enum DataType {
    VarChar256,
    Int32,
}

/// The column type that a type token names.
pub open spec fn column_type(t: token::DataType) -> DataType {
    match t {
        token::DataType::Integer32 => DataType::Int32,
        token::DataType::Varchar256 => DataType::VarChar256,
    }
}

impl DataType {
    /// The type's name as the command language spells it.
    pub fn name(&self) -> (r: &'static str)
        ensures
            *self == column_type(token::DataType::Integer32) ==> r@ == token::data_type_text(
                token::DataType::Integer32,
            ),
            *self == column_type(token::DataType::Varchar256) ==> r@ == token::data_type_text(
                token::DataType::Varchar256,
            ),
    {
        match self {
            DataType::Int32 => token::DataType::Integer32.value(),
            DataType::VarChar256 => token::DataType::Varchar256.value(),
        }
    }

    /// The type that `name` spells; fails on any other name.
    pub fn from_name(name: &str) -> (r: Result<DataType, String>)
        ensures
            r matches Ok(t) ==> exists|d: token::DataType|
                data_type_bytes(d) == name.spec_bytes() && t == column_type(d),
            r is Err ==> forall|d: token::DataType| data_type_bytes(d) != name.spec_bytes(),
    {
        let b = name.as_bytes();
        if compare_bytes(b, &[73u8, 78, 84]) == 0 {
            assert(data_type_bytes(token::DataType::Integer32) == b@);
            Ok(DataType::Int32)
        } else if compare_bytes(b, &[86u8, 65, 82, 67, 72, 65, 82]) == 0 {
            assert(data_type_bytes(token::DataType::Varchar256) == b@);
            Ok(DataType::VarChar256)
        } else {
            assert forall|d: token::DataType| data_type_bytes(d) != name.spec_bytes() by {
                match d {
                    token::DataType::Integer32 => {},
                    token::DataType::Varchar256 => {},
                }
            }
            Err("Unknown data type".to_string())
        }
    }
}

#[derive(Debug, PartialEq, Eq)]
pub enum Value {
    VarChar256(String),
    Int32(i32),
}

#[derive(Debug, PartialEq, Eq)]
pub enum Columns {
    All,
    Specific(Vec<String>),
}

} // verus!
