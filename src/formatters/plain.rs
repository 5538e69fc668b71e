use vstd::prelude::*;
use vstd::string::StringExecFns;
use crate::ast::{DiffNode, Node, NodeType, node_view, nodes_view, opt_view, lemma_nodes_view};
use crate::text::{join, join_lines, strings_view, value_text, write_value};
use crate::value::{Val, Value};

verus! {

broadcast use {vstd::seq::group_seq_axioms, vstd::std_specs::vec::group_vec_axioms};

/// How a value shows in a sentence: objects as a placeholder, the rest as text.
pub open spec fn plain_value(o: Option<Val>) -> Seq<char> {
    match o {
        None => Seq::empty(),
        Some(v) => if v is Object {
            "complex value"@
        } else {
            value_text(v)
        },
    }
}

/// The sentences for one node whose parent path is `path`.
pub open spec fn node_lines(n: DiffNode, path: Seq<char>) -> Seq<Seq<char>>
    decreases n, 0int,
{
    let p = path + n.name;
    match n.kind {
        NodeType::Unchanged => Seq::empty(),
        NodeType::Object => nodes_lines(n.children, p + seq!['.']),
        NodeType::Changed => seq![
            "Property '"@ + p + "' was changed. From '"@ + plain_value(n.old_value) + "' to '"@
                + plain_value(n.new_value) + "'"@,
        ],
        NodeType::Added => seq![
            "Property '"@ + p + "' was added with value: '"@ + plain_value(n.new_value) + "'"@,
        ],
        NodeType::Removed => seq!["Property '"@ + p + "' was removed"@],
    }
}

/// The sentences for a sequence of nodes, in order.
pub open spec fn nodes_lines(ns: Seq<DiffNode>, path: Seq<char>) -> Seq<Seq<char>>
    decreases ns, 1int,
{
    if ns.len() == 0 {
        Seq::empty()
    } else {
        nodes_lines(ns.drop_last(), path) + node_lines(ns.last(), path)
    }
}

/// The flat rendering of a tree whose keys sit under `path`.
pub open spec fn plain_text(ns: Seq<DiffNode>, path: Seq<char>) -> Seq<char> {
    join_lines(nodes_lines(ns, path))
}

/// The text of an optional value inside a sentence.
pub fn stringify(value: Option<Value>) -> (r: String)
    ensures
        r@ == plain_value(opt_view(value)),
{
    value_of(&value)
}

fn value_of(value: &Option<Value>) -> (r: String)
    ensures
        r@ == plain_value(opt_view(*value)),
{
    let mut s = String::new();
    match value {
        None => {},
        Some(v) => match v {
            Value::Object(_) => s.append("complex value"),
            _ => write_value(&mut s, v),
        },
    }
    s
}

fn collect(ast: &Vec<Node>, path: &String, lines: &mut Vec<String>)
    ensures
        strings_view(final(lines)@) == strings_view(old(lines)@) + nodes_lines(nodes_view(ast@), path@),
    decreases ast,
{
    proof {
        lemma_nodes_view(ast@);
    }
    let ghost start = strings_view(lines@);
    let mut i: usize = 0;
    while i < ast.len()
        invariant
            0 <= i <= ast.len(),
            nodes_view(ast@).len() == ast.len(),
            forall|j: int| 0 <= j < ast.len() ==> #[trigger] nodes_view(ast@)[j] == ast[j]@,
            strings_view(lines@) == start + nodes_lines(nodes_view(ast@).take(i as int), path@),
        decreases ast.len() - i,
    {
        let node = &ast[i];
        let ghost before = strings_view(lines@);
        let mut current = path.clone();
        current.append(node.name.as_str());
        match node.kind {
            NodeType::Unchanged => {},
            NodeType::Object => {
                let mut next = current.clone();
                next.append(".");
                proof {
                    reveal_strlit(".");
                    assert(next@ =~= path@ + node.name@ + seq!['.']);
                    assert(decreases_to!(*ast => ast[i as int]));
                }
                collect(&node.children, &next, lines);
            },
            NodeType::Changed => {
                let mut line = String::new();
                line.append("Property '");
                line.append(current.as_str());
                line.append("' was changed. From '");
                let old_text = value_of(&node.old_value);
                line.append(old_text.as_str());
                line.append("' to '");
                let new_text = value_of(&node.new_value);
                line.append(new_text.as_str());
                line.append("'");
                lines.push(line);
            },
            NodeType::Added => {
                let mut line = String::new();
                line.append("Property '");
                line.append(current.as_str());
                line.append("' was added with value: '");
                let new_text = value_of(&node.new_value);
                line.append(new_text.as_str());
                line.append("'");
                lines.push(line);
            },
            NodeType::Removed => {
                let mut line = String::new();
                line.append("Property '");
                line.append(current.as_str());
                line.append("' was removed");
                lines.push(line);
            },
        }
        proof {
            let t = nodes_view(ast@).take(i + 1);
            assert(t.drop_last() =~= nodes_view(ast@).take(i as int));
            assert(t.last() == node_view(*node));
            assert(strings_view(lines@) =~= before + node_lines(node_view(*node), path@));
        }
        i = i + 1;
    }
    assert(nodes_view(ast@).take(ast.len() as int) =~= nodes_view(ast@));
}

/// The sentences of a tree whose keys sit under `path`, one per line.
pub fn build(ast: Vec<Node>, path: &str) -> (r: String)
    ensures
        r@ == plain_text(nodes_view(ast@), path@),
{
    let mut lines: Vec<String> = Vec::new();
    let mut prefix = String::new();
    prefix.append(path);
    collect(&ast, &prefix, &mut lines);
    assert(strings_view(lines@) =~= nodes_lines(nodes_view(ast@), path@));
    join(&lines)
}

/// The flat rendering: one sentence per added, removed or changed key.
pub fn render(ast: Vec<Node>) -> (r: String)
    ensures
        r@ == plain_text(nodes_view(ast@), Seq::empty()),
{
    proof {
        reveal_strlit("");
        assert(""@ =~= Seq::<char>::empty());
    }
    build(ast, "")
}

} // verus!
