use vstd::prelude::*;
use crate::Format;
use crate::ast::{Node, nodes_view};
use crate::value::{Val, Value};

pub mod json;
pub mod plain;
pub mod pretty;

verus! {

/// A rendered diff: the structured form is a value tree that the caller
/// serialises; the two human-readable forms are text.
#[derive(Debug)]
pub enum Output {
    Structured(Value),
    Text(String),
}

/// Renders a tree in the chosen format.
pub fn render(format: Format, ast: Vec<Node>) -> (r: Output)
    ensures
        match format {
            Format::Json => r is Structured && r->Structured_0@ == Val::Array(
                json::encode_nodes(nodes_view(ast@)),
            ),
            Format::Pretty => r is Text && r->Text_0@ == pretty::pretty_text(nodes_view(ast@)),
            Format::Plain => r is Text && r->Text_0@ == plain::plain_text(
                nodes_view(ast@),
                Seq::empty(),
            ),
        },
{
    match format {
        Format::Json => Output::Structured(json::render(ast)),
        Format::Pretty => Output::Text(pretty::render(ast)),
        Format::Plain => Output::Text(plain::render(ast)),
    }
}

} // verus!
