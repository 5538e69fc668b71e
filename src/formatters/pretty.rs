use vstd::prelude::*;
use vstd::string::StringExecFns;
use crate::ast::{DiffNode, Node, NodeType, node_view, nodes_view, opt_view, lemma_nodes_view};
use crate::text::{join, join_lines, strings_view, value_text, write_value};
use crate::value::{Val, Value, entries_view, lemma_entries_view};

verus! {

broadcast use {vstd::seq::group_seq_axioms, vstd::std_specs::vec::group_vec_axioms};

pub open spec fn spaces(n: nat) -> Seq<char> {
    Seq::new(n, |i: int| ' ')
}

/// The entries of an object value, one per line, each indented by `indent`.
pub open spec fn entry_lines(es: Seq<(Seq<char>, Val)>, indent: Seq<char>) -> Seq<char>
    decreases es.len(),
{
    if es.len() == 0 {
        Seq::empty()
    } else {
        entry_lines(es.drop_last(), indent) + seq!['\n'] + indent + es.last().0 + ": "@
            + value_text(es.last().1)
    }
}

/// How a value shows at nesting depth `depth`: an object as an indented
/// block, anything else as its text.
pub open spec fn pretty_value(o: Option<Val>, depth: nat) -> Seq<char> {
    match o {
        None => Seq::empty(),
        Some(v) => match v {
            Val::Object(es) => seq!['{'] + entry_lines(es, spaces(4 * depth + 4)) + seq!['\n']
                + spaces(4 * depth) + seq!['}'],
            _ => value_text(v),
        },
    }
}

/// The lines of one node at depth `depth` (at least 1).
pub open spec fn node_text(n: DiffNode, depth: nat) -> Seq<char>
    decreases n, 0int,
{
    let indent = spaces(4 * depth);
    let short = spaces((4 * depth - 2) as nat);
    match n.kind {
        NodeType::Object => indent + n.name + ": {\n"@ + join_lines(node_texts(n.children, depth + 1))
            + seq!['\n'] + indent + seq!['}'],
        NodeType::Unchanged => indent + n.name + ": "@ + pretty_value(n.old_value, depth),
        NodeType::Changed => short + "+ "@ + n.name + ": "@ + pretty_value(n.new_value, depth)
            + seq!['\n'] + short + "- "@ + n.name + ": "@ + pretty_value(n.old_value, depth),
        NodeType::Added => short + "+ "@ + n.name + ": "@ + pretty_value(n.new_value, depth),
        NodeType::Removed => short + "- "@ + n.name + ": "@ + pretty_value(n.old_value, depth),
    }
}

/// The text of each node of `ns`, in order.
pub open spec fn node_texts(ns: Seq<DiffNode>, depth: nat) -> Seq<Seq<char>>
    decreases ns, 1int,
{
    if ns.len() == 0 {
        Seq::empty()
    } else {
        node_texts(ns.drop_last(), depth).push(node_text(ns.last(), depth))
    }
}

/// The indented rendering of a whole tree.
pub open spec fn pretty_text(ns: Seq<DiffNode>) -> Seq<char> {
    "{\n"@ + join_lines(node_texts(ns, 1)) + "\n}"@
}

proof fn lemma_spaces_add(a: nat, b: nat)
    ensures
        spaces(a) + spaces(b) == spaces(a + b),
{
    assert(spaces(a) + spaces(b) =~= spaces(a + b));
}

fn stringify(item: &Option<Value>, indent: &String, depth: Ghost<nat>) -> (r: String)
    requires
        indent@ == spaces(4 * depth@),
    ensures
        r@ == pretty_value(opt_view(*item), depth@),
{
    let mut s = String::new();
    match item {
        None => {},
        Some(v) => match v {
            Value::Object(es) => {
                proof {
                    lemma_entries_view(es@);
                    reveal_strlit("    ");
                    reveal_strlit("{");
                    lemma_spaces_add(4 * depth@, 4);
                }
                let mut value_indent = indent.clone();
                value_indent.append("    ");
                assert(value_indent@ =~= spaces(4 * depth@ + 4));
                s.append("{");
                let mut i: usize = 0;
                while i < es.len()
                    invariant
                        0 <= i <= es.len(),
                        value_indent@ == spaces(4 * depth@ + 4),
                        entries_view(es@).len() == es.len(),
                        forall|j: int|
                            0 <= j < es.len() ==> #[trigger] entries_view(es@)[j] == (
                                es[j].0@,
                                es[j].1@,
                            ),
                        s@ == seq!['{'] + entry_lines(
                            entries_view(es@).take(i as int),
                            value_indent@,
                        ),
                    decreases es.len() - i,
                {
                    proof {
                        reveal_strlit("\n");
                    }
                    let ghost before = s@;
                    s.append("\n");
                    s.append(value_indent.as_str());
                    s.append(es[i].0.as_str());
                    s.append(": ");
                    write_value(&mut s, &es[i].1);
                    proof {
                        let t = entries_view(es@).take(i + 1);
                        assert(t.drop_last() =~= entries_view(es@).take(i as int));
                        assert(s@ =~= seq!['{'] + entry_lines(t, value_indent@));
                    }
                    i = i + 1;
                }
                proof {
                    reveal_strlit("\n");
                    reveal_strlit("}");
                    assert(entries_view(es@).take(es.len() as int) =~= entries_view(es@));
                }
                s.append("\n");
                s.append(indent.as_str());
                s.append("}");
            },
            _ => write_value(&mut s, v),
        },
    }
    s
}

fn build(ast: &Vec<Node>, indent: &String, short: &String, depth: Ghost<nat>) -> (r: String)
    requires
        depth@ >= 1,
        indent@ == spaces(4 * depth@),
        short@ == spaces((4 * depth@ - 2) as nat),
    ensures
        r@ == join_lines(node_texts(nodes_view(ast@), depth@)),
    decreases ast,
{
    proof {
        lemma_nodes_view(ast@);
    }
    let mut texts: Vec<String> = Vec::new();
    let mut i: usize = 0;
    while i < ast.len()
        invariant
            0 <= i <= ast.len(),
            depth@ >= 1,
            indent@ == spaces(4 * depth@),
            short@ == spaces((4 * depth@ - 2) as nat),
            nodes_view(ast@).len() == ast.len(),
            forall|j: int| 0 <= j < ast.len() ==> #[trigger] nodes_view(ast@)[j] == ast[j]@,
            strings_view(texts@) == node_texts(nodes_view(ast@).take(i as int), depth@),
        decreases ast.len() - i,
    {
        proof {
            reveal_strlit("\n");
            reveal_strlit("}");
        }
        let node = &ast[i];
        let name = node.name.as_str();
        let mut line = String::new();
        match node.kind {
            NodeType::Object => {
                let mut next_indent = indent.clone();
                next_indent.append("    ");
                let mut next_short = short.clone();
                next_short.append("    ");
                proof {
                    reveal_strlit("    ");
                    assert(next_indent@ =~= spaces(4 * (depth@ + 1)));
                    assert(next_short@ =~= spaces((4 * (depth@ + 1) - 2) as nat));
                    assert(decreases_to!(*ast => ast[i as int]));
                }
                let children = build(&node.children, &next_indent, &next_short, Ghost(depth@ + 1));
                line.append(indent.as_str());
                line.append(name);
                line.append(": {\n");
                line.append(children.as_str());
                line.append("\n");
                line.append(indent.as_str());
                line.append("}");
            },
            NodeType::Unchanged => {
                let old_text = stringify(&node.old_value, indent, depth);
                line.append(indent.as_str());
                line.append(name);
                line.append(": ");
                line.append(old_text.as_str());
            },
            NodeType::Changed => {
                let new_text = stringify(&node.new_value, indent, depth);
                let old_text = stringify(&node.old_value, indent, depth);
                line.append(short.as_str());
                line.append("+ ");
                line.append(name);
                line.append(": ");
                line.append(new_text.as_str());
                line.append("\n");
                line.append(short.as_str());
                line.append("- ");
                line.append(name);
                line.append(": ");
                line.append(old_text.as_str());
            },
            NodeType::Added => {
                let new_text = stringify(&node.new_value, indent, depth);
                line.append(short.as_str());
                line.append("+ ");
                line.append(name);
                line.append(": ");
                line.append(new_text.as_str());
            },
            NodeType::Removed => {
                let old_text = stringify(&node.old_value, indent, depth);
                line.append(short.as_str());
                line.append("- ");
                line.append(name);
                line.append(": ");
                line.append(old_text.as_str());
            },
        }
        assert(line@ =~= node_text(node_view(*node), depth@));
        let ghost prev = texts@;
        texts.push(line);
        proof {
            let t = nodes_view(ast@).take(i + 1);
            assert(t.drop_last() =~= nodes_view(ast@).take(i as int));
            assert(strings_view(texts@) =~= strings_view(prev).push(line@));
        }
        i = i + 1;
    }
    assert(nodes_view(ast@).take(ast.len() as int) =~= nodes_view(ast@));
    join(&texts)
}

/// The indented rendering of a tree, wrapped in an outer `{ ... }` block.
pub fn render(ast: Vec<Node>) -> (r: String)
    ensures
        r@ == pretty_text(nodes_view(ast@)),
{
    proof {
        reveal_strlit("    ");
        reveal_strlit("  ");
        assert("    "@ =~= spaces(4));
        assert("  "@ =~= spaces(2));
    }
    let mut indent = String::new();
    indent.append("    ");
    let mut short = String::new();
    short.append("  ");
    let data = build(&ast, &indent, &short, Ghost(1));
    let mut out = String::new();
    out.append("{\n");
    out.append(data.as_str());
    out.append("\n}");
    out
}

} // verus!
