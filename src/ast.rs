use vstd::prelude::*;
use crate::text::strings_view;
use crate::value::{
    Val,
    Value,
    value_view,
    entries_view,
    lemma_entries_view,
    copy_value,
};

verus! {

broadcast use {vstd::seq::group_seq_axioms, vstd::std_specs::vec::group_vec_axioms};

/// How a key compares between the two documents.
#[derive(Clone, Copy, Debug, PartialEq, Eq, Structural)]
pub enum NodeType {
    Object,
    Added,
    Removed,
    Changed,
    Unchanged,
}

/// The only error the builder raises: a document that is not an object.
#[derive(Clone, Copy, Debug, PartialEq, Eq, Structural)]
pub enum DiffError {
    InvalidInput,
}

/// One key of the comparison tree.
#[derive(Debug)]
pub struct Node {
    pub name: String,
    pub kind: NodeType,
    pub old_value: Option<Value>,
    pub new_value: Option<Value>,
    pub children: Vec<Node>,
}

/// The mathematical model of a `Node`.
pub struct DiffNode {
    pub name: Seq<char>,
    pub kind: NodeType,
    pub old_value: Option<Val>,
    pub new_value: Option<Val>,
    pub children: Seq<DiffNode>,
}

pub open spec fn opt_view(o: Option<Value>) -> Option<Val> {
    match o {
        Some(v) => Some(value_view(v)),
        None => None,
    }
}

pub open spec fn node_view(n: Node) -> DiffNode
    decreases n, 0int,
{
    DiffNode {
        name: n.name@,
        kind: n.kind,
        old_value: opt_view(n.old_value),
        new_value: opt_view(n.new_value),
        children: nodes_view(n.children@),
    }
}

pub open spec fn nodes_view(ns: Seq<Node>) -> Seq<DiffNode>
    decreases ns, 1int,
{
    if ns.len() == 0 {
        Seq::empty()
    } else {
        nodes_view(ns.drop_last()).push(node_view(ns.last()))
    }
}

impl View for Node {
    type V = DiffNode;

    open spec fn view(&self) -> DiffNode {
        node_view(*self)
    }
}

/// The keys of an object, in document order.
pub open spec fn entry_keys(es: Seq<(Seq<char>, Val)>) -> Seq<Seq<char>> {
    es.map_values(|e: (Seq<char>, Val)| e.0)
}

pub open spec fn has_key(es: Seq<(Seq<char>, Val)>, k: Seq<char>) -> bool {
    exists|i: int| 0 <= i < es.len() && es[i].0 == k
}

/// The value of the first entry with key `k`.
pub open spec fn lookup(es: Seq<(Seq<char>, Val)>, k: Seq<char>) -> Val
    decreases es.len(),
{
    if es.len() == 0 {
        Val::Null
    } else if es[0].0 == k {
        es[0].1
    } else {
        lookup(es.drop_first(), k)
    }
}

/// `ks` with every repeated key dropped, first occurrences kept in order.
pub open spec fn union_keys(ks: Seq<Seq<char>>) -> Seq<Seq<char>>
    decreases ks.len(),
{
    if ks.len() == 0 {
        Seq::empty()
    } else {
        let u = union_keys(ks.drop_last());
        if u.contains(ks.last()) {
            u
        } else {
            u.push(ks.last())
        }
    }
}

/// The keys of `a`, then the keys of `b` that `a` lacks, each once.
pub open spec fn merged_keys(a: Seq<(Seq<char>, Val)>, b: Seq<(Seq<char>, Val)>) -> Seq<Seq<char>> {
    union_keys(entry_keys(a) + entry_keys(b))
}

pub proof fn lemma_lookup_found(es: Seq<(Seq<char>, Val)>, k: Seq<char>)
    requires
        has_key(es, k),
    ensures
        exists|i: int| 0 <= i < es.len() && es[i].0 == k && es[i].1 == lookup(es, k),
    decreases es.len(),
{
    if es[0].0 != k {
        let j = choose|j: int| 0 <= j < es.len() && es[j].0 == k;
        assert(es.drop_first()[j - 1].0 == k);
        lemma_lookup_found(es.drop_first(), k);
        let i = choose|i: int|
            0 <= i < es.len() - 1 && es.drop_first()[i].0 == k && es.drop_first()[i].1 == lookup(
                es.drop_first(),
                k,
            );
        assert(es[i + 1].0 == k);
    }
}

/// The comparison node for key `k` of the object pair `a`, `b`.
pub open spec fn node_for(k: Seq<char>, a: Seq<(Seq<char>, Val)>, b: Seq<(Seq<char>, Val)>) -> DiffNode
    decreases a, 0int,
{
    if !has_key(b, k) {
        DiffNode {
            name: k,
            kind: NodeType::Removed,
            old_value: Some(lookup(a, k)),
            new_value: None,
            children: Seq::empty(),
        }
    } else if !has_key(a, k) {
        DiffNode {
            name: k,
            kind: NodeType::Added,
            old_value: None,
            new_value: Some(lookup(b, k)),
            children: Seq::empty(),
        }
    } else if lookup(a, k) is Object && lookup(b, k) is Object {
        let ea = lookup(a, k)->Object_0;
        let eb = lookup(b, k)->Object_0;
        proof {
            lemma_lookup_found(a, k);
            let i = choose|i: int| 0 <= i < a.len() && a[i].0 == k && a[i].1 == lookup(a, k);
            assert(decreases_to!(a => a[i]));
            assert(decreases_to!(a[i] => a[i].1));
            assert(decreases_to!(a[i].1 => a[i].1->Object_0));
        }
        DiffNode {
            name: k,
            kind: NodeType::Object,
            old_value: None,
            new_value: None,
            children: nodes_for(merged_keys(ea, eb), ea, eb),
        }
    } else if crate::value::same_value(lookup(a, k), lookup(b, k)) {
        DiffNode {
            name: k,
            kind: NodeType::Unchanged,
            old_value: None,
            new_value: None,
            children: Seq::empty(),
        }
    } else {
        DiffNode {
            name: k,
            kind: NodeType::Changed,
            old_value: Some(lookup(a, k)),
            new_value: Some(lookup(b, k)),
            children: Seq::empty(),
        }
    }
}

/// The comparison nodes for the keys `ks`, in that order.
pub open spec fn nodes_for(ks: Seq<Seq<char>>, a: Seq<(Seq<char>, Val)>, b: Seq<(Seq<char>, Val)>) -> Seq<DiffNode>
    decreases a, ks.len() + 1,
{
    if ks.len() == 0 {
        Seq::empty()
    } else {
        nodes_for(ks.drop_last(), a, b).push(node_for(ks.last(), a, b))
    }
}

/// The comparison tree of two objects.
pub open spec fn diff(a: Seq<(Seq<char>, Val)>, b: Seq<(Seq<char>, Val)>) -> Seq<DiffNode> {
    nodes_for(merged_keys(a, b), a, b)
}



pub proof fn lemma_lookup_first(es: Seq<(Seq<char>, Val)>, k: Seq<char>, i: int)
    requires
        0 <= i < es.len(),
        es[i].0 == k,
        forall|j: int| 0 <= j < i ==> es[j].0 != k,
    ensures
        lookup(es, k) == es[i].1,
    decreases i,
{
    if i > 0 {
        lemma_lookup_first(es.drop_first(), k, i - 1);
    }
}

pub proof fn lemma_union_keys(ks: Seq<Seq<char>>)
    ensures
        forall|k: Seq<char>| union_keys(ks).contains(k) <==> ks.contains(k),
        forall|i: int, j: int|
            0 <= i < j < union_keys(ks).len() ==> union_keys(ks)[i] != union_keys(ks)[j],
    decreases ks.len(),
{
    if ks.len() > 0 {
        let d = ks.drop_last();
        let u = union_keys(d);
        lemma_union_keys(d);
        assert forall|k: Seq<char>| ks.contains(k) implies union_keys(ks).contains(k) by {
            let i = choose|i: int| 0 <= i < ks.len() && ks[i] == k;
            if i < ks.len() - 1 {
                assert(d[i] == k);
                assert(d.contains(k));
                let j = choose|j: int| 0 <= j < u.len() && u[j] == k;
                assert(union_keys(ks)[j] == k);
            } else if !u.contains(k) {
                assert(union_keys(ks)[u.len() as int] == k);
            } else {
                let j = choose|j: int| 0 <= j < u.len() && u[j] == k;
                assert(union_keys(ks)[j] == k);
            }
        }
        assert forall|k: Seq<char>| union_keys(ks).contains(k) implies ks.contains(k) by {
            if u.contains(k) {
                assert(d.contains(k));
                let i = choose|i: int| 0 <= i < d.len() && d[i] == k;
                assert(ks[i] == k);
            } else {
                assert(ks[ks.len() - 1] == k);
            }
        }
    }
}

pub proof fn lemma_has_key(es: Seq<(Seq<char>, Val)>, k: Seq<char>)
    ensures
        has_key(es, k) <==> entry_keys(es).contains(k),
{
    if has_key(es, k) {
        let i = choose|i: int| 0 <= i < es.len() && es[i].0 == k;
        assert(entry_keys(es)[i] == k);
    }
}

/// The index of the first entry with key `k`, if any.
pub(crate) fn find_key(es: &Vec<(String, Value)>, k: &String) -> (r: Option<usize>)
    ensures
        match r {
            None => !has_key(entries_view(es@), k@),
            Some(i) => i < es.len() && es[i as int].0@ == k@ && es[i as int].1@ == lookup(
                entries_view(es@),
                k@,
            ) && forall|j: int| 0 <= j < i ==> es[j].0@ != k@,
        },
{
    proof {
        lemma_entries_view(es@);
    }
    let mut i: usize = 0;
    while i < es.len()
        invariant
            0 <= i <= es.len(),
            forall|j: int| 0 <= j < i ==> es[j].0@ != k@,
            entries_view(es@).len() == es.len(),
            forall|j: int|
                0 <= j < es.len() ==> #[trigger] entries_view(es@)[j] == (es[j].0@, es[j].1@),
        decreases es.len() - i,
    {
        if es[i].0 == *k {
            proof {
                lemma_lookup_first(entries_view(es@), k@, i as int);
            }
            return Some(i);
        }
        i = i + 1;
    }
    proof {
        if has_key(entries_view(es@), k@) {
            let j = choose|j: int| 0 <= j < es.len() && entries_view(es@)[j].0 == k@;
            assert(es[j].0@ == k@);
        }
    }
    None
}

fn contains_string(ks: &Vec<String>, k: &String) -> (r: bool)
    ensures
        r == strings_view(ks@).contains(k@),
{
    let mut i: usize = 0;
    while i < ks.len()
        invariant
            0 <= i <= ks.len(),
            forall|j: int| 0 <= j < i ==> ks[j]@ != k@,
        decreases ks.len() - i,
    {
        if ks[i] == *k {
            assert(strings_view(ks@)[i as int] == k@);
            return true;
        }
        i = i + 1;
    }
    proof {
        if strings_view(ks@).contains(k@) {
            let j = choose|j: int| 0 <= j < ks.len() && strings_view(ks@)[j] == k@;
            assert(ks[j]@ == k@);
        }
    }
    false
}

/// The keys of `a` in order, then the keys of `b` not yet listed, each once.
fn get_keys(a: &Vec<(String, Value)>, b: &Vec<(String, Value)>) -> (r: Vec<String>)
    ensures
        strings_view(r@) == merged_keys(entries_view(a@), entries_view(b@)),
{
    let ghost all = entry_keys(entries_view(a@)) + entry_keys(entries_view(b@));
    proof {
        lemma_entries_view(a@);
        lemma_entries_view(b@);
    }
    let mut keys: Vec<String> = Vec::new();
    let mut i: usize = 0;
    while i < a.len()
        invariant
            0 <= i <= a.len(),
            all == entry_keys(entries_view(a@)) + entry_keys(entries_view(b@)),
            entries_view(a@).len() == a.len(),
            forall|j: int|
                0 <= j < a.len() ==> #[trigger] entries_view(a@)[j] == (a[j].0@, a[j].1@),
            strings_view(keys@) == union_keys(all.take(i as int)),
        decreases a.len() - i,
    {
        let ghost prev = keys@;
        if !contains_string(&keys, &a[i].0) {
            keys.push(a[i].0.clone());
            assert(strings_view(keys@) =~= strings_view(prev).push(a[i as int].0@));
        }
        assert(all.take(i + 1).drop_last() =~= all.take(i as int));
        assert(all[i as int] == a[i as int].0@);
        i = i + 1;
    }
    let mut i: usize = 0;
    while i < b.len()
        invariant
            0 <= i <= b.len(),
            all == entry_keys(entries_view(a@)) + entry_keys(entries_view(b@)),
            all.len() == a.len() + b.len(),
            entries_view(b@).len() == b.len(),
            forall|j: int|
                0 <= j < b.len() ==> #[trigger] entries_view(b@)[j] == (b[j].0@, b[j].1@),
            strings_view(keys@) == union_keys(all.take(a.len() + i)),
        decreases b.len() - i,
    {
        let ghost prev = keys@;
        if !contains_string(&keys, &b[i].0) {
            keys.push(b[i].0.clone());
            assert(strings_view(keys@) =~= strings_view(prev).push(b[i as int].0@));
        }
        assert(all.take(a.len() + i + 1).drop_last() =~= all.take(a.len() + i));
        assert(all[a.len() + i] == b[i as int].0@);
        i = i + 1;
    }
    assert(all.take(a.len() + b.len()) =~= all);
    keys
}


impl Node {
    fn make(
        name: String,
        kind: NodeType,
        old_value: Option<Value>,
        new_value: Option<Value>,
        children: Vec<Node>,
    ) -> (r: Node)
        ensures
            r.name == name,
            r.kind == kind,
            r.old_value == old_value,
            r.new_value == new_value,
            r.children == children,
    {
        Node { name, kind, old_value, new_value, children }
    }
}

/// The comparison nodes of two objects given by their entries.
pub fn build_entries(a: &Vec<(String, Value)>, b: &Vec<(String, Value)>) -> (r: Vec<Node>)
    ensures
        nodes_view(r@) == diff(entries_view(a@), entries_view(b@)),
    decreases a,
{
    let ghost x = entries_view(a@);
    let ghost y = entries_view(b@);
    let keys = get_keys(a, b);
    proof {
        lemma_union_keys(entry_keys(x) + entry_keys(y));
    }
    let mut out: Vec<Node> = Vec::new();
    let mut i: usize = 0;
    while i < keys.len()
        invariant
            0 <= i <= keys.len(),
            x == entries_view(a@),
            y == entries_view(b@),
            strings_view(keys@) == merged_keys(x, y),
            forall|k: Seq<char>|
                merged_keys(x, y).contains(k) <==> (entry_keys(x) + entry_keys(y)).contains(k),
            nodes_view(out@) == nodes_for(merged_keys(x, y).take(i as int), x, y),
        decreases keys.len() - i,
    {
        let k = &keys[i];
        let ghost ks = merged_keys(x, y);
        proof {
            assert(ks[i as int] == k@);
            assert(ks.contains(k@));
            let all = entry_keys(x) + entry_keys(y);
            assert(all.contains(k@));
            let j = choose|j: int| 0 <= j < all.len() && all[j] == k@;
            if j < entry_keys(x).len() {
                assert(entry_keys(x)[j] == k@);
                assert(entry_keys(x).contains(k@));
            } else {
                assert(entry_keys(y)[j - entry_keys(x).len()] == k@);
                assert(entry_keys(y).contains(k@));
            }
            lemma_has_key(x, k@);
            lemma_has_key(y, k@);
            lemma_entries_view(a@);
            lemma_entries_view(b@);
        }
        let fa = find_key(a, k);
        let fb = find_key(b, k);
        let node = match fb {
            None => {
                let ia = fa.unwrap();
                let n = Node::make(k.clone(), NodeType::Removed, Some(copy_value(&a[ia].1)), None, Vec::new());
                assert(node_view(n) == node_for(k@, x, y));
                n
            },
            Some(ib) => match fa {
                None => {
                    let n = Node::make(k.clone(), NodeType::Added, None, Some(copy_value(&b[ib].1)), Vec::new());
                    assert(node_view(n) == node_for(k@, x, y));
                    n
                },
                Some(ia) => {
                    let va = &a[ia].1;
                    let vb = &b[ib].1;
                    assert(x[ia as int].0 == k@);
                    assert(y[ib as int].0 == k@);
                    assert(has_key(x, k@) && has_key(y, k@));
                    assert(lookup(x, k@) == va@);
                    assert(lookup(y, k@) == vb@);
                    match (va, vb) {
                        (Value::Object(ea), Value::Object(eb)) => {
                            proof {
                                assert(decreases_to!(*a => a[ia as int]));
                                assert(decreases_to!(a[ia as int] => a[ia as int].1));
                                assert(decreases_to!(a[ia as int].1 => a[ia as int].1->Object_0));
                            }
                            let children = build_entries(ea, eb);
                            let n = Node::make(k.clone(), NodeType::Object, None, None, children);
                            assert(lookup(x, k@) == Val::Object(entries_view(ea@)));
                            assert(lookup(y, k@) == Val::Object(entries_view(eb@)));
                            assert(node_view(n) == node_for(k@, x, y));
                            n
                        },
                        _ => {
                            assert(!(lookup(x, k@) is Object && lookup(y, k@) is Object));
                            if crate::value::values_equal(va, vb) {
                                let n = Node::make(k.clone(), NodeType::Unchanged, None, None, Vec::new());
                                assert(node_view(n) == node_for(k@, x, y));
                                n
                            } else {
                                let n = Node::make(
                                    k.clone(),
                                    NodeType::Changed,
                                    Some(copy_value(va)),
                                    Some(copy_value(vb)),
                                    Vec::new(),
                                );
                                assert(node_view(n) == node_for(k@, x, y));
                                n
                            }
                        },
                    }
                },
            },
        };
        assert(node_view(node) == node_for(k@, x, y));
        let ghost prev = out@;
        out.push(node);
        proof {
            assert(out@.drop_last() =~= prev);
            assert(ks.take(i + 1).drop_last() =~= ks.take(i as int));
        }
        i = i + 1;
    }
    proof {
        assert(merged_keys(x, y).take(keys.len() as int) =~= merged_keys(x, y));
    }
    out
}

/// The comparison tree of two documents; both must be objects.
pub fn build(file_content1: &Value, file_content2: &Value) -> (r: Result<Vec<Node>, DiffError>)
    ensures
        match (file_content1@, file_content2@) {
            (Val::Object(x), Val::Object(y)) => r is Ok && nodes_view(r->Ok_0@) == diff(x, y),
            _ => r == Err::<Vec<Node>, DiffError>(DiffError::InvalidInput),
        },
{
    match (file_content1, file_content2) {
        (Value::Object(a), Value::Object(b)) => Ok(build_entries(a, b)),
        _ => Err(DiffError::InvalidInput),
    }
}


pub proof fn lemma_nodes_view(ns: Seq<Node>)
    ensures
        nodes_view(ns).len() == ns.len(),
        forall|i: int| 0 <= i < ns.len() ==> #[trigger] nodes_view(ns)[i] == ns[i]@,
    decreases ns.len(),
{
    if ns.len() > 0 {
        lemma_nodes_view(ns.drop_last());
    }
}

} // verus!
