use vstd::prelude::*;
use vstd::string::StringExecFns;
use crate::ast::{DiffNode, Node, NodeType, node_view, nodes_view, lemma_nodes_view, has_key, lookup, lemma_lookup_found};
use crate::value::{Val, Value, copy_value, items_view};

verus! {

broadcast use {vstd::seq::group_seq_axioms, vstd::std_specs::vec::group_vec_axioms};

/// The field value naming a node kind.
pub open spec fn kind_name(k: NodeType) -> Seq<char> {
    match k {
        NodeType::Object => "Object"@,
        NodeType::Added => "Added"@,
        NodeType::Removed => "Removed"@,
        NodeType::Changed => "Changed"@,
        NodeType::Unchanged => "Unchanged"@,
    }
}

/// The field value of an optional node value: the value itself, or `null`.
pub open spec fn or_null(o: Option<Val>) -> Val {
    match o {
        Some(v) => v,
        None => Val::Null,
    }
}

/// The structured form of one node: an object with the fields `name`, `kind`,
/// `oldValue`, `newValue` (each `null` when the node has no such value) and
/// `children`.
pub open spec fn encode_node(n: DiffNode) -> Val
    decreases n, 0int,
{
    Val::Object(
        seq![
            ("name"@, Val::Str(n.name)),
            ("kind"@, Val::Str(kind_name(n.kind))),
            ("oldValue"@, or_null(n.old_value)),
            ("newValue"@, or_null(n.new_value)),
            ("children"@, Val::Array(encode_nodes(n.children))),
        ],
    )
}

pub open spec fn encode_nodes(ns: Seq<DiffNode>) -> Seq<Val>
    decreases ns, 1int,
{
    if ns.len() == 0 {
        Seq::empty()
    } else {
        encode_nodes(ns.drop_last()).push(encode_node(ns.last()))
    }
}

/// The node kind a `kind` field names, if any.
pub open spec fn kind_from(s: Seq<char>) -> Option<NodeType> {
    if s == "Object"@ {
        Some(NodeType::Object)
    } else if s == "Added"@ {
        Some(NodeType::Added)
    } else if s == "Removed"@ {
        Some(NodeType::Removed)
    } else if s == "Changed"@ {
        Some(NodeType::Changed)
    } else if s == "Unchanged"@ {
        Some(NodeType::Unchanged)
    } else {
        None
    }
}

/// Whether a node of this kind carries an old value.
pub open spec fn has_old(k: NodeType) -> bool {
    k == NodeType::Removed || k == NodeType::Changed
}

/// Whether a node of this kind carries a new value.
pub open spec fn has_new(k: NodeType) -> bool {
    k == NodeType::Added || k == NodeType::Changed
}

/// Reads a node back from its structured form.
pub open spec fn decode_node(v: Val) -> Option<DiffNode>
    decreases v, 0int,
{
    match v {
        Val::Object(es) => {
            let name = lookup(es, "name"@);
            let kind = lookup(es, "kind"@);
            let ch = lookup(es, "children"@);
            if has_key(es, "name"@) && name is Str && has_key(es, "kind"@) && kind is Str
                && kind_from(kind->Str_0) is Some && has_key(es, "oldValue"@) && has_key(
                es,
                "newValue"@,
            ) && has_key(es, "children"@) && ch is Array {
                proof {
                    lemma_lookup_found(es, "children"@);
                    let i = choose|i: int|
                        0 <= i < es.len() && es[i].0 == "children"@ && es[i].1 == lookup(
                            es,
                            "children"@,
                        );
                    assert(decreases_to!(v => v->Object_0));
                    assert(decreases_to!(es => es[i]));
                    assert(decreases_to!(es[i] => es[i].1));
                    assert(decreases_to!(es[i].1 => es[i].1->Array_0));
                }
                match decode_nodes(ch->Array_0) {
                    Some(cs) => Some(
                        DiffNode {
                            name: name->Str_0,
                            kind: kind_from(kind->Str_0)->0,
                            old_value: if has_old(kind_from(kind->Str_0)->0) {
                                Some(lookup(es, "oldValue"@))
                            } else {
                                None
                            },
                            new_value: if has_new(kind_from(kind->Str_0)->0) {
                                Some(lookup(es, "newValue"@))
                            } else {
                                None
                            },
                            children: cs,
                        },
                    ),
                    None => None,
                }
            } else {
                None
            }
        },
        _ => None,
    }
}

/// Reads a sequence of nodes back; fails if any element fails.
pub open spec fn decode_nodes(vs: Seq<Val>) -> Option<Seq<DiffNode>>
    decreases vs, 1int,
{
    if vs.len() == 0 {
        Some(Seq::empty())
    } else {
        match decode_nodes(vs.drop_last()) {
            Some(p) => match decode_node(vs.last()) {
                Some(n) => Some(p.push(n)),
                None => None,
            },
            None => None,
        }
    }
}

fn text_value(s: &str) -> (r: Value)
    ensures
        r@ == Val::Str(s@),
{
    let mut t = String::new();
    t.append(s);
    Value::Str(t)
}

fn kind_value(k: NodeType) -> (r: Value)
    ensures
        r@ == Val::Str(kind_name(k)),
{
    match k {
        NodeType::Object => text_value("Object"),
        NodeType::Added => text_value("Added"),
        NodeType::Removed => text_value("Removed"),
        NodeType::Changed => text_value("Changed"),
        NodeType::Unchanged => text_value("Unchanged"),
    }
}

fn key(s: &str) -> (r: String)
    ensures
        r@ == s@,
{
    let mut t = String::new();
    t.append(s);
    t
}

fn encode(ast: &Vec<Node>) -> (r: Vec<Value>)
    ensures
        items_view(r@) == encode_nodes(nodes_view(ast@)),
    decreases ast,
{
    proof {
        lemma_nodes_view(ast@);
    }
    let mut out: Vec<Value> = Vec::new();
    let mut i: usize = 0;
    while i < ast.len()
        invariant
            0 <= i <= ast.len(),
            nodes_view(ast@).len() == ast.len(),
            forall|j: int| 0 <= j < ast.len() ==> #[trigger] nodes_view(ast@)[j] == ast[j]@,
            items_view(out@) == encode_nodes(nodes_view(ast@).take(i as int)),
        decreases ast.len() - i,
    {
        let node = &ast[i];
        let mut fields: Vec<(String, Value)> = Vec::new();
        fields.push((key("name"), text_value(node.name.as_str())));
        fields.push((key("kind"), kind_value(node.kind)));
        let old_field = match &node.old_value {
            Some(v) => copy_value(v),
            None => Value::Null,
        };
        fields.push((key("oldValue"), old_field));
        let new_field = match &node.new_value {
            Some(v) => copy_value(v),
            None => Value::Null,
        };
        fields.push((key("newValue"), new_field));
        proof {
            assert(decreases_to!(*ast => ast[i as int]));
        }
        let children = encode(&node.children);
        fields.push((key("children"), Value::Array(children)));
        let item = Value::Object(fields);
        proof {
            crate::value::lemma_entries_view(fields@);
            let n = node_view(*node);
            assert(crate::value::entries_view(fields@) =~= seq![
                ("name"@, Val::Str(n.name)),
                ("kind"@, Val::Str(kind_name(n.kind))),
                ("oldValue"@, or_null(n.old_value)),
                ("newValue"@, or_null(n.new_value)),
                ("children"@, Val::Array(encode_nodes(n.children))),
            ]);
            assert(item@ == encode_node(n));
        }
        let ghost prev = out@;
        out.push(item);
        proof {
            let t = nodes_view(ast@).take(i + 1);
            assert(t.drop_last() =~= nodes_view(ast@).take(i as int));
            assert(out@.drop_last() =~= prev);
        }
        i = i + 1;
    }
    assert(nodes_view(ast@).take(ast.len() as int) =~= nodes_view(ast@));
    out
}

/// The structured form of a tree: an array with one object per top-level node.
pub fn render(ast: Vec<Node>) -> (r: Value)
    ensures
        r@ == Val::Array(encode_nodes(nodes_view(ast@))),
{
    Value::Array(encode(&ast))
}

} // verus!
