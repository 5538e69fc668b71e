use vstd::prelude::*;
use crate::ast::{
    DiffNode,
    NodeType,
    diff,
    entry_keys,
    has_key,
    lemma_has_key,
    lemma_union_keys,
    lookup,
    merged_keys,
    node_for,
    nodes_for,
};
use crate::formatters::json::{decode_node, decode_nodes, encode_node, encode_nodes, kind_from, kind_name, or_null};
use crate::formatters::plain::{node_lines, nodes_lines, plain_text};
use crate::value::{Val, lemma_same_value_sym, same_value};

verus! {

broadcast use vstd::seq::group_seq_axioms;

pub proof fn lemma_nodes_for(ks: Seq<Seq<char>>, a: Seq<(Seq<char>, Val)>, b: Seq<(Seq<char>, Val)>)
    ensures
        nodes_for(ks, a, b).len() == ks.len(),
        forall|i: int|
            0 <= i < ks.len() ==> #[trigger] nodes_for(ks, a, b)[i] == node_for(ks[i], a, b),
    decreases ks.len(),
{
    if ks.len() > 0 {
        lemma_nodes_for(ks.drop_last(), a, b);
    }
}

/// The keys of the object pair: a key is in `merged_keys(a, b)` exactly when
/// one of the two objects has it.
pub proof fn lemma_merged_keys(a: Seq<(Seq<char>, Val)>, b: Seq<(Seq<char>, Val)>)
    ensures
        forall|k: Seq<char>| #[trigger]
            merged_keys(a, b).contains(k) <==> (has_key(a, k) || has_key(b, k)),
        forall|i: int, j: int|
            0 <= i < j < merged_keys(a, b).len() ==> merged_keys(a, b)[i] != merged_keys(a, b)[j],
{
    let all = entry_keys(a) + entry_keys(b);
    lemma_union_keys(all);
    assert forall|k: Seq<char>| #[trigger]
        merged_keys(a, b).contains(k) <==> (has_key(a, k) || has_key(b, k)) by {
        lemma_has_key(a, k);
        lemma_has_key(b, k);
        if all.contains(k) {
            let j = choose|j: int| 0 <= j < all.len() && all[j] == k;
            if j < entry_keys(a).len() {
                assert(entry_keys(a)[j] == k);
            } else {
                assert(entry_keys(b)[j - entry_keys(a).len()] == k);
            }
        }
        if entry_keys(a).contains(k) {
            let j = choose|j: int| 0 <= j < entry_keys(a).len() && entry_keys(a)[j] == k;
            assert(all[j] == k);
        }
        if entry_keys(b).contains(k) {
            let j = choose|j: int| 0 <= j < entry_keys(b).len() && entry_keys(b)[j] == k;
            assert(all[entry_keys(a).len() + j] == k);
        }
    }
}

/// Every key of either object names exactly one node of the diff, and no other
/// name occurs.
pub proof fn law_keys_once(a: Seq<(Seq<char>, Val)>, b: Seq<(Seq<char>, Val)>)
    ensures
        forall|k: Seq<char>|
            (exists|i: int| 0 <= i < diff(a, b).len() && #[trigger] diff(a, b)[i].name == k) <==> (
            has_key(a, k) || has_key(b, k)),
        forall|i: int, j: int|
            0 <= i < j < diff(a, b).len() ==> diff(a, b)[i].name != diff(a, b)[j].name,
{
    let ks = merged_keys(a, b);
    lemma_nodes_for(ks, a, b);
    lemma_merged_keys(a, b);
    assert forall|k: Seq<char>|
        (exists|i: int| 0 <= i < diff(a, b).len() && #[trigger] diff(a, b)[i].name == k) <==> (
        has_key(a, k) || has_key(b, k)) by {
        if has_key(a, k) || has_key(b, k) {
            assert(ks.contains(k));
            let i = choose|i: int| 0 <= i < ks.len() && ks[i] == k;
            assert(diff(a, b)[i].name == k);
        }
        if exists|i: int| 0 <= i < diff(a, b).len() && #[trigger] diff(a, b)[i].name == k {
            let i = choose|i: int| 0 <= i < diff(a, b).len() && #[trigger] diff(a, b)[i].name == k;
            assert(ks[i] == k);
            assert(ks.contains(k));
        }
    }
    assert forall|i: int, j: int|
        0 <= i < j < diff(a, b).len() implies diff(a, b)[i].name != diff(a, b)[j].name by {
        assert(diff(a, b)[i].name == ks[i]);
        assert(diff(a, b)[j].name == ks[j]);
    }
}

/// No node of the sequence, at any depth, is added, removed or changed.
pub open spec fn all_unchanged(ns: Seq<DiffNode>) -> bool
    decreases ns, 1int,
{
    ns.len() == 0 || (all_unchanged(ns.drop_last()) && node_unchanged(ns.last()))
}

pub open spec fn node_unchanged(n: DiffNode) -> bool
    decreases n, 0int,
{
    n.kind == NodeType::Unchanged || (n.kind == NodeType::Object && all_unchanged(n.children))
}

proof fn lemma_self_nodes(ks: Seq<Seq<char>>, a: Seq<(Seq<char>, Val)>)
    requires
        forall|i: int| 0 <= i < ks.len() ==> has_key(a, #[trigger] ks[i]),
    ensures
        all_unchanged(nodes_for(ks, a, a)),
    decreases a, ks.len(),
{
    if ks.len() > 0 {
        lemma_self_nodes(ks.drop_last(), a);
        let k = ks.last();
        assert(has_key(a, ks[ks.len() - 1]));
        if lookup(a, k) is Object {
            let ea = lookup(a, k)->Object_0;
            crate::ast::lemma_lookup_found(a, k);
            let i = choose|i: int| 0 <= i < a.len() && a[i].0 == k && a[i].1 == lookup(a, k);
            assert(decreases_to!(a => a[i]));
            assert(decreases_to!(a[i] => a[i].1));
            assert(decreases_to!(a[i].1 => a[i].1->Object_0));
            lemma_merged_keys(ea, ea);
            let mk = merged_keys(ea, ea);
            assert forall|j: int| 0 <= j < mk.len() implies has_key(ea, #[trigger] mk[j]) by {
                assert(mk.contains(mk[j]));
            }
            lemma_self_nodes(mk, ea);
            assert(node_for(k, a, a).children == nodes_for(mk, ea, ea));
        }
        crate::value::lemma_same_value_refl(lookup(a, k));
        assert(node_unchanged(node_for(k, a, a)));
        let s = nodes_for(ks, a, a);
        assert(s.drop_last() =~= nodes_for(ks.drop_last(), a, a));
        assert(s.last() == node_for(k, a, a));
    }
}

/// Comparing an object with itself reports every key, at every depth, as
/// unchanged or as a nested object.
pub proof fn law_self_diff(a: Seq<(Seq<char>, Val)>)
    ensures
        all_unchanged(diff(a, a)),
{
    lemma_merged_keys(a, a);
    let mk = merged_keys(a, a);
    assert forall|j: int| 0 <= j < mk.len() implies has_key(a, #[trigger] mk[j]) by {
        assert(mk.contains(mk[j]));
    }
    lemma_self_nodes(mk, a);
}

/// A node carries exactly the values its kind calls for: an old value for
/// removed and changed keys, a new value for added and changed keys, and
/// children only when it is a nested object whose children are well formed.
pub open spec fn node_wf(n: DiffNode) -> bool
    decreases n, 0int,
{
    &&& (n.old_value is Some <==> (n.kind == NodeType::Removed || n.kind == NodeType::Changed))
    &&& (n.new_value is Some <==> (n.kind == NodeType::Added || n.kind == NodeType::Changed))
    &&& (n.kind != NodeType::Object ==> n.children.len() == 0)
    &&& nodes_wf(n.children)
}

pub open spec fn nodes_wf(ns: Seq<DiffNode>) -> bool
    decreases ns, 1int,
{
    ns.len() == 0 || (nodes_wf(ns.drop_last()) && node_wf(ns.last()))
}

proof fn lemma_nodes_for_wf(ks: Seq<Seq<char>>, a: Seq<(Seq<char>, Val)>, b: Seq<(Seq<char>, Val)>)
    ensures
        nodes_wf(nodes_for(ks, a, b)),
    decreases a, ks.len(),
{
    if ks.len() > 0 {
        lemma_nodes_for_wf(ks.drop_last(), a, b);
        let k = ks.last();
        let n = node_for(k, a, b);
        if has_key(a, k) && has_key(b, k) && lookup(a, k) is Object && lookup(b, k) is Object {
            let ea = lookup(a, k)->Object_0;
            let eb = lookup(b, k)->Object_0;
            crate::ast::lemma_lookup_found(a, k);
            let i = choose|i: int| 0 <= i < a.len() && a[i].0 == k && a[i].1 == lookup(a, k);
            assert(decreases_to!(a => a[i]));
            assert(decreases_to!(a[i] => a[i].1));
            assert(decreases_to!(a[i].1 => a[i].1->Object_0));
            lemma_nodes_for_wf(merged_keys(ea, eb), ea, eb);
            assert(n.children == nodes_for(merged_keys(ea, eb), ea, eb));
        } else {
            assert(n.children.len() == 0);
        }
        assert(node_wf(n));
        let s = nodes_for(ks, a, b);
        assert(s.drop_last() =~= nodes_for(ks.drop_last(), a, b));
    }
}

/// Every node the builder produces, at every depth, is well formed.
pub proof fn law_diff_wf(a: Seq<(Seq<char>, Val)>, b: Seq<(Seq<char>, Val)>)
    ensures
        nodes_wf(diff(a, b)),
{
    lemma_nodes_for_wf(merged_keys(a, b), a, b);
}

/// The kind seen from the other side: added and removed trade places.
pub open spec fn mirror_kind(k: NodeType) -> NodeType {
    match k {
        NodeType::Added => NodeType::Removed,
        NodeType::Removed => NodeType::Added,
        _ => k,
    }
}

/// Swapping the two objects keeps the set of keys, swaps added and removed,
/// swaps old and new values, and keeps unchanged and nested nodes; a nested
/// node's children are the diff of the swapped nested pair.
pub proof fn law_symmetry(a: Seq<(Seq<char>, Val)>, b: Seq<(Seq<char>, Val)>)
    ensures
        forall|k: Seq<char>| merged_keys(a, b).contains(k) <==> merged_keys(b, a).contains(k),
        forall|i: int|
            0 <= i < diff(a, b).len() ==> #[trigger] diff(a, b)[i] == node_for(
                merged_keys(a, b)[i],
                a,
                b,
            ),
        forall|k: Seq<char>|
            #![trigger node_for(k, a, b)]
            (has_key(a, k) || has_key(b, k)) ==> {
                let n = node_for(k, a, b);
                let m = node_for(k, b, a);
                &&& m.name == n.name
                &&& m.kind == mirror_kind(n.kind)
                &&& m.old_value == n.new_value
                &&& m.new_value == n.old_value
                &&& n.kind == NodeType::Object ==> n.children == diff(
                    lookup(a, k)->Object_0,
                    lookup(b, k)->Object_0,
                ) && m.children == diff(lookup(b, k)->Object_0, lookup(a, k)->Object_0)
            },
{
    lemma_merged_keys(a, b);
    lemma_merged_keys(b, a);
    lemma_nodes_for(merged_keys(a, b), a, b);
    assert forall|k: Seq<char>|
        same_value(lookup(a, k), lookup(b, k)) <==> same_value(lookup(b, k), lookup(a, k)) by {
        if same_value(lookup(a, k), lookup(b, k)) {
            lemma_same_value_sym(lookup(a, k), lookup(b, k));
        }
        if same_value(lookup(b, k), lookup(a, k)) {
            lemma_same_value_sym(lookup(b, k), lookup(a, k));
        }
    }
}


proof fn lemma_field_names()
    ensures
        "name"@ != "kind"@,
        "name"@ != "oldValue"@,
        "name"@ != "newValue"@,
        "name"@ != "children"@,
        "kind"@ != "oldValue"@,
        "kind"@ != "newValue"@,
        "kind"@ != "children"@,
        "oldValue"@ != "newValue"@,
        "oldValue"@ != "children"@,
        "newValue"@ != "children"@,
        forall|k: NodeType| kind_from(#[trigger] kind_name(k)) == Some(k),
{
    reveal_strlit("name");
    reveal_strlit("kind");
    reveal_strlit("oldValue");
    reveal_strlit("newValue");
    reveal_strlit("children");
    reveal_strlit("Object");
    reveal_strlit("Added");
    reveal_strlit("Removed");
    reveal_strlit("Changed");
    reveal_strlit("Unchanged");
    assert("name"@.len() == 4);
    assert("kind"@.len() == 4);
    assert("oldValue"@.len() == 8);
    assert("newValue"@.len() == 8);
    assert("children"@.len() == 8);
    assert("Object"@.len() == 6);
    assert("Added"@.len() == 5);
    assert("Removed"@.len() == 7);
    assert("Changed"@.len() == 7);
    assert("Unchanged"@.len() == 9);
    assert("name"@[0] != "kind"@[0]);
    assert("oldValue"@[0] != "newValue"@[0]);
    assert("Removed"@[0] != "Changed"@[0]);
    assert forall|k: NodeType| kind_from(#[trigger] kind_name(k)) == Some(k) by {
        match k {
            NodeType::Object => {},
            NodeType::Added => {},
            NodeType::Removed => {},
            NodeType::Changed => {},
            NodeType::Unchanged => {},
        }
    }
}

proof fn lemma_found_at(es: Seq<(Seq<char>, Val)>, k: Seq<char>, i: int)
    requires
        0 <= i < es.len(),
        es[i].0 == k,
        forall|j: int| 0 <= j < i ==> es[j].0 != k,
    ensures
        has_key(es, k),
        lookup(es, k) == es[i].1,
{
    crate::ast::lemma_lookup_first(es, k, i);
}

proof fn lemma_round_trip_node(n: DiffNode)
    requires
        node_wf(n),
    ensures
        decode_node(encode_node(n)) == Some(n),
    decreases n, 0int,
{
    lemma_round_trip_nodes(n.children);
    lemma_field_names();
    let es = seq![
        ("name"@, Val::Str(n.name)),
        ("kind"@, Val::Str(kind_name(n.kind))),
        ("oldValue"@, or_null(n.old_value)),
        ("newValue"@, or_null(n.new_value)),
        ("children"@, Val::Array(encode_nodes(n.children))),
    ];
    assert(encode_node(n) == Val::Object(es));
    lemma_found_at(es, "name"@, 0);
    lemma_found_at(es, "kind"@, 1);
    lemma_found_at(es, "oldValue"@, 2);
    lemma_found_at(es, "newValue"@, 3);
    lemma_found_at(es, "children"@, 4);
    assert(kind_from(kind_name(n.kind)) == Some(n.kind));
}

proof fn lemma_round_trip_nodes(ns: Seq<DiffNode>)
    requires
        nodes_wf(ns),
    ensures
        decode_nodes(encode_nodes(ns)) == Some(ns),
    decreases ns, 1int,
{
    if ns.len() > 0 {
        lemma_round_trip_nodes(ns.drop_last());
        lemma_round_trip_node(ns.last());
        let e = encode_nodes(ns);
        assert(e.drop_last() =~= encode_nodes(ns.drop_last()));
        assert(ns.drop_last().push(ns.last()) =~= ns);
    }
}

/// Reading the structured form of a well-formed tree back gives the same
/// tree: every node's name, kind, old and new value and children, at every
/// depth. (A missing value is written as `null`; the kind tells which values
/// a node has, so a `null` value of a removed key is read back as a value.)
pub proof fn law_structured_round_trip(ns: Seq<DiffNode>)
    requires
        nodes_wf(ns),
    ensures
        decode_nodes(encode_nodes(ns)) == Some(ns),
{
    lemma_round_trip_nodes(ns);
}

/// The structured form of any tree the builder produces reads back to that
/// tree.
pub proof fn law_diff_round_trip(a: Seq<(Seq<char>, Val)>, b: Seq<(Seq<char>, Val)>)
    ensures
        decode_nodes(encode_nodes(diff(a, b))) == Some(diff(a, b)),
{
    law_diff_wf(a, b);
    lemma_round_trip_nodes(diff(a, b));
}

/// The flat renderer writes no line for an unchanged node, one line for an
/// added, removed or changed node, and reads the children of no node but a
/// nested object.
pub proof fn law_plain_lines(n: DiffNode, path: Seq<char>)
    ensures
        n.kind == NodeType::Unchanged ==> node_lines(n, path).len() == 0,
        n.kind != NodeType::Unchanged && n.kind != NodeType::Object ==> node_lines(n, path).len()
            == 1,
        n.kind != NodeType::Object ==> node_lines(n, path) == node_lines(
            DiffNode {
                name: n.name,
                kind: n.kind,
                old_value: n.old_value,
                new_value: n.new_value,
                children: Seq::empty(),
            },
            path,
        ),
{
}


/// The tree with every unchanged node removed and the children of every node
/// but a nested object dropped, at every depth.
pub open spec fn prune(ns: Seq<DiffNode>) -> Seq<DiffNode>
    decreases ns, 1int,
{
    if ns.len() == 0 {
        Seq::empty()
    } else if ns.last().kind == NodeType::Unchanged {
        prune(ns.drop_last())
    } else {
        prune(ns.drop_last()).push(prune_node(ns.last()))
    }
}

pub open spec fn prune_node(n: DiffNode) -> DiffNode
    decreases n, 0int,
{
    DiffNode {
        name: n.name,
        kind: n.kind,
        old_value: n.old_value,
        new_value: n.new_value,
        children: if n.kind == NodeType::Object {
            prune(n.children)
        } else {
            Seq::empty()
        },
    }
}

proof fn lemma_prune_node(n: DiffNode, path: Seq<char>)
    ensures
        node_lines(prune_node(n), path) == node_lines(n, path),
    decreases n, 0int,
{
    if n.kind == NodeType::Object {
        lemma_prune_nodes(n.children, path + n.name + seq!['.']);
    }
}

proof fn lemma_prune_nodes(ns: Seq<DiffNode>, path: Seq<char>)
    ensures
        nodes_lines(prune(ns), path) == nodes_lines(ns, path),
    decreases ns, 1int,
{
    if ns.len() > 0 {
        let d = ns.drop_last();
        let n = ns.last();
        lemma_prune_nodes(d, path);
        lemma_prune_node(n, path);
        if n.kind == NodeType::Unchanged {
            assert(node_lines(n, path) =~= Seq::<Seq<char>>::empty());
            assert(nodes_lines(ns, path) =~= nodes_lines(d, path));
        } else {
            let p = prune(d).push(prune_node(n));
            assert(p.drop_last() =~= prune(d));
            assert(p.last() == prune_node(n));
        }
    }
}

/// The flat rendering of a tree equals that of the tree with every unchanged
/// node removed and every child of a node other than a nested object dropped,
/// at every depth: unchanged nodes yield nothing, and only nested objects are
/// descended into.
pub proof fn law_plain_prune(ns: Seq<DiffNode>, path: Seq<char>)
    ensures
        plain_text(prune(ns), path) == plain_text(ns, path),
{
    lemma_prune_nodes(ns, path);
}


/// `n` and `m` report the same key from opposite sides, at every depth: added
/// and removed swapped, old and new values swapped, and children paired by
/// name the same way.
pub open spec fn mirrored(n: DiffNode, m: DiffNode) -> bool
    decreases n, 0int,
{
    &&& m.name == n.name
    &&& m.kind == mirror_kind(n.kind)
    &&& m.old_value == n.new_value
    &&& m.new_value == n.old_value
    &&& mirrored_seqs(n.children, m.children)
}

pub open spec fn mirrored_seqs(ns: Seq<DiffNode>, ms: Seq<DiffNode>) -> bool
    decreases ns, 1int,
{
    &&& ns.len() == ms.len()
    &&& forall|i: int|
        0 <= i < ns.len() ==> exists|j: int|
            0 <= j < ms.len() && ms[j].name == ns[i].name && mirrored(#[trigger] ns[i], ms[j])
}

proof fn lemma_merged_len(a: Seq<(Seq<char>, Val)>, b: Seq<(Seq<char>, Val)>)
    ensures
        merged_keys(a, b).len() == merged_keys(b, a).len(),
{
    lemma_merged_keys(a, b);
    lemma_merged_keys(b, a);
    let x = merged_keys(a, b);
    let y = merged_keys(b, a);
    assert(x.no_duplicates()) by {
        assert forall|i: int, j: int| 0 <= i < x.len() && 0 <= j < x.len() && i != j implies x[i] != x[j] by {
            if i < j {
                assert(x[i] != x[j]);
            } else {
                assert(x[j] != x[i]);
            }
        }
    }
    assert(y.no_duplicates()) by {
        assert forall|i: int, j: int| 0 <= i < y.len() && 0 <= j < y.len() && i != j implies y[i] != y[j] by {
            if i < j {
                assert(y[i] != y[j]);
            } else {
                assert(y[j] != y[i]);
            }
        }
    }
    x.unique_seq_to_set();
    y.unique_seq_to_set();
    assert(x.to_set() =~= y.to_set()) by {
        assert forall|k: Seq<char>| x.contains(k) <==> y.contains(k) by {
            assert(x.contains(k) <==> (has_key(a, k) || has_key(b, k)));
            assert(y.contains(k) <==> (has_key(b, k) || has_key(a, k)));
        }
    }
}

proof fn lemma_mirror_diff(a: Seq<(Seq<char>, Val)>, b: Seq<(Seq<char>, Val)>)
    ensures
        mirrored_seqs(diff(a, b), diff(b, a)),
    decreases a,
{
    law_symmetry(a, b);
    lemma_merged_len(a, b);
    let x = merged_keys(a, b);
    let y = merged_keys(b, a);
    lemma_nodes_for(x, a, b);
    lemma_nodes_for(y, b, a);
    lemma_merged_keys(a, b);
    lemma_merged_keys(b, a);
    assert forall|i: int| 0 <= i < diff(a, b).len() implies exists|j: int|
        0 <= j < diff(b, a).len() && diff(b, a)[j].name == diff(a, b)[i].name && mirrored(
            #[trigger] diff(a, b)[i],
            diff(b, a)[j],
        ) by {
        let k = x[i];
        assert(x.contains(k));
        assert(has_key(a, k) || has_key(b, k));
        assert(y.contains(k));
        let j = choose|j: int| 0 <= j < y.len() && y[j] == k;
        let n = node_for(k, a, b);
        let m = node_for(k, b, a);
        assert(diff(a, b)[i] == n);
        assert(diff(b, a)[j] == m);
        if n.kind == NodeType::Object {
            let ea = lookup(a, k)->Object_0;
            let eb = lookup(b, k)->Object_0;
            crate::ast::lemma_lookup_found(a, k);
            let w = choose|w: int| 0 <= w < a.len() && a[w].0 == k && a[w].1 == lookup(a, k);
            assert(decreases_to!(a => a[w]));
            assert(decreases_to!(a[w] => a[w].1));
            assert(decreases_to!(a[w].1 => a[w].1->Object_0));
            lemma_mirror_diff(ea, eb);
        } else {
            assert(n.children.len() == 0);
            assert(m.children.len() == 0);
        }
        assert(mirrored(n, m));
    }
}

/// Swapping the two objects mirrors the whole tree: both trees have the same
/// number of nodes at each level, and each node of one is paired, by name, with
/// a node of the other that reports the key from the other side (added and
/// removed swapped, old and new values swapped, unchanged and nested nodes
/// kept), with their children paired the same way at every depth.
pub proof fn law_symmetry_deep(a: Seq<(Seq<char>, Val)>, b: Seq<(Seq<char>, Val)>)
    ensures
        mirrored_seqs(diff(a, b), diff(b, a)),
{
    lemma_mirror_diff(a, b);
}

} // verus!
