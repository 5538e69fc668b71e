use vstd::prelude::*;
use crate::ast::{build, diff, DiffError};
use crate::formatters::{render, Output};
use crate::value::{Val, Value};

pub mod value;
pub mod ast;
pub mod text;
pub mod formatters;
pub mod laws;

verus! {

/// The output formats a diff can be rendered in.
#[derive(Clone, Copy, Debug, PartialEq, Eq, Structural)]
pub enum Format {
    Json,
    Pretty,
    Plain,
}

/// Compares two documents and renders the result in `format`.
pub fn gen_diff(format: Format, file_data1: &Value, file_data2: &Value) -> (r: Result<Output, DiffError>)
    ensures
        match (file_data1@, file_data2@) {
            (Val::Object(x), Val::Object(y)) => r is Ok && match format {
                Format::Json => r->Ok_0 is Structured && r->Ok_0->Structured_0@ == Val::Array(
                    formatters::json::encode_nodes(diff(x, y)),
                ),
                Format::Pretty => r->Ok_0 is Text && r->Ok_0->Text_0@ == formatters::pretty::pretty_text(
                    diff(x, y),
                ),
                Format::Plain => r->Ok_0 is Text && r->Ok_0->Text_0@ == formatters::plain::plain_text(
                    diff(x, y),
                    Seq::empty(),
                ),
            },
            _ => r is Err && r->Err_0 == DiffError::InvalidInput,
        },
{
    match build(file_data1, file_data2) {
        Ok(ast) => Ok(render(format, ast)),
        Err(e) => Err(e),
    }
}

} // verus!
