use vstd::prelude::*;
use crate::ast::{find_key, has_key, lemma_lookup_first, lookup};

verus! {

broadcast use {vstd::seq::group_seq_axioms, vstd::std_specs::vec::group_vec_axioms};

/// A parsed document value: the generic tree that JSON and YAML decode into.
///
/// A number is held as its textual form. An object is a sequence of entries in
/// document order; where a key repeats, its first entry counts.
#[derive(Debug)]
pub enum Value {
    Null,
    Bool(bool),
    Number(String),
    Str(String),
    Array(Vec<Value>),
    Object(Vec<(String, Value)>),
}

/// The mathematical model of a `Value`: strings become character sequences,
/// vectors become sequences. Two values are deep-equal exactly when their
/// models are equal.
pub enum Val {
    Null,
    Bool(bool),
    Number(Seq<char>),
    Str(Seq<char>),
    Array(Seq<Val>),
    Object(Seq<(Seq<char>, Val)>),
}

pub open spec fn value_view(v: Value) -> Val
    decreases v, 0int,
{
    match v {
        Value::Null => Val::Null,
        Value::Bool(b) => Val::Bool(b),
        Value::Number(s) => Val::Number(s@),
        Value::Str(s) => Val::Str(s@),
        Value::Array(xs) => Val::Array(items_view(xs@)),
        Value::Object(es) => Val::Object(entries_view(es@)),
    }
}

pub open spec fn items_view(xs: Seq<Value>) -> Seq<Val>
    decreases xs, 1int,
{
    if xs.len() == 0 {
        Seq::empty()
    } else {
        items_view(xs.drop_last()).push(value_view(xs.last()))
    }
}

pub open spec fn entries_view(es: Seq<(String, Value)>) -> Seq<(Seq<char>, Val)>
    decreases es, 1int,
{
    if es.len() == 0 {
        Seq::empty()
    } else {
        entries_view(es.drop_last()).push((es.last().0@, value_view(es.last().1)))
    }
}

impl View for Value {
    type V = Val;

    open spec fn view(&self) -> Val {
        value_view(*self)
    }
}


pub proof fn lemma_items_view(xs: Seq<Value>)
    ensures
        items_view(xs).len() == xs.len(),
        forall|i: int| 0 <= i < xs.len() ==> #[trigger] items_view(xs)[i] == xs[i]@,
    decreases xs.len(),
{
    if xs.len() > 0 {
        lemma_items_view(xs.drop_last());
    }
}

pub proof fn lemma_entries_view(es: Seq<(String, Value)>)
    ensures
        entries_view(es).len() == es.len(),
        forall|i: int|
            0 <= i < es.len() ==> #[trigger] entries_view(es)[i] == (es[i].0@, es[i].1@),
    decreases es.len(),
{
    if es.len() > 0 {
        lemma_entries_view(es.drop_last());
    }
}

/// Deep equality of two values; objects compare as mappings.
pub fn values_equal(a: &Value, b: &Value) -> (r: bool)
    ensures
        r == same_value(a@, b@),
    decreases a,
{
    match a {
        Value::Array(xs) => match b {
            Value::Array(ys) => {
                proof {
                    lemma_items_view(xs@);
                    lemma_items_view(ys@);
                }
                if xs.len() != ys.len() {
                    return false;
                }
                let mut i: usize = 0;
                while i < xs.len()
                    invariant
                        xs.len() == ys.len(),
                        0 <= i <= xs.len(),
                        *a == Value::Array(*xs),
                        *b == Value::Array(*ys),
                        items_view(xs@).len() == xs.len(),
                        items_view(ys@).len() == ys.len(),
                        forall|j: int| 0 <= j < xs.len() ==> #[trigger] items_view(xs@)[j] == xs[j]@,
                        forall|j: int| 0 <= j < ys.len() ==> #[trigger] items_view(ys@)[j] == ys[j]@,
                        forall|j: int| 0 <= j < i ==> same_value(#[trigger] items_view(xs@)[j], items_view(ys@)[j]),
                    decreases xs.len() - i,
                {
                    proof {
                        assert(decreases_to!(*a => a->Array_0));
                        assert(decreases_to!(*xs => xs[i as int]));
                    }
                    if !values_equal(&xs[i], &ys[i]) {
                        assert(!same_value(items_view(xs@)[i as int], items_view(ys@)[i as int]));
                        return false;
                    }
                    i = i + 1;
                }
                true
            },
            _ => false,
        },
        Value::Object(xs) => match b {
            Value::Object(ys) => {
                let ghost xv = entries_view(xs@);
                let ghost yv = entries_view(ys@);
                proof {
                    lemma_entries_view(xs@);
                    lemma_entries_view(ys@);
                }
                let mut i: usize = 0;
                while i < xs.len()
                    invariant
                        0 <= i <= xs.len(),
                        *a == Value::Object(*xs),
                        *b == Value::Object(*ys),
                        xv == entries_view(xs@),
                        yv == entries_view(ys@),
                        xv.len() == xs.len(),
                        forall|j: int| 0 <= j < xs.len() ==> #[trigger] xv[j] == (xs[j].0@, xs[j].1@),
                        yv.len() == ys.len(),
                        forall|m: int| 0 <= m < ys.len() ==> #[trigger] yv[m] == (ys[m].0@, ys[m].1@),
                        forall|j: int| 0 <= j < i ==> has_key(yv, #[trigger] xv[j].0),
                        forall|j: int|
                            0 <= j < i && first_of(xv, j) ==> same_value(#[trigger] xv[j].1, lookup(yv, xv[j].0)),
                    decreases xs.len() - i,
                {
                    let k = &xs[i].0;
                    let first = find_key(xs, k);
                    proof {
                        assert(xv[i as int].0 == k@);
                        assert(has_key(xv, k@));
                    }
                    match find_key(ys, k) {
                        None => {
                            assert(!same_keys(xv, yv));
                            return false;
                        },
                        Some(j) => {
                            assert(yv[j as int].0 == k@);
                            let is_first = match first {
                                Some(f) => f == i,
                                None => false,
                            };
                            proof {
                                if !is_first {
                                    let f = first->0;
                                    assert(xv[f as int].0 == k@);
                                    assert(f < i);
                                    assert(!first_of(xv, i as int));
                                }
                            }
                            if is_first {
                                proof {
                                    assert(decreases_to!(*a => a->Object_0));
                                    assert(decreases_to!(*xs => xs[i as int]));
                                }
                                if !values_equal(&xs[i].1, &ys[j].1) {
                                    assert(!same_value(xv[i as int].1, lookup(yv, xv[i as int].0)));
                                    return false;
                                }
                            }
                        },
                    }
                    i = i + 1;
                }
                let mut j: usize = 0;
                while j < ys.len()
                    invariant
                        0 <= j <= ys.len(),
                        *a == Value::Object(*xs),
                        *b == Value::Object(*ys),
                        xv == entries_view(xs@),
                        yv == entries_view(ys@),
                        xv.len() == xs.len(),
                        forall|m: int| 0 <= m < xs.len() ==> #[trigger] xv[m] == (xs[m].0@, xs[m].1@),
                        forall|m: int|
                            0 <= m < xs.len() && first_of(xv, m) ==> same_value(#[trigger] xv[m].1, lookup(yv, xv[m].0)),
                        yv.len() == ys.len(),
                        forall|m: int| 0 <= m < ys.len() ==> #[trigger] yv[m] == (ys[m].0@, ys[m].1@),
                        forall|m: int| 0 <= m < j ==> has_key(xv, #[trigger] yv[m].0),
                    decreases ys.len() - j,
                {
                    match find_key(xs, &ys[j].0) {
                        None => {
                            assert(has_key(yv, yv[j as int].0));
                            assert(!same_keys(xv, yv));
                            return false;
                        },
                        Some(m) => {
                            assert(xv[m as int].0 == yv[j as int].0);
                        },
                    }
                    j = j + 1;
                }
                proof {
                    assert forall|k: Seq<char>| has_key(xv, k) <==> has_key(yv, k) by {
                        if has_key(xv, k) {
                            let m = choose|m: int| 0 <= m < xv.len() && xv[m].0 == k;
                            assert(has_key(yv, xv[m].0));
                        }
                        if has_key(yv, k) {
                            let m = choose|m: int| 0 <= m < yv.len() && yv[m].0 == k;
                            assert(has_key(xv, yv[m].0));
                        }
                    }
                }
                true
            },
            _ => false,
        },
        Value::Null => match b {
            Value::Null => true,
            _ => false,
        },
        Value::Bool(x) => match b {
            Value::Bool(y) => *x == *y,
            _ => false,
        },
        Value::Number(x) => match b {
            Value::Number(y) => *x == *y,
            _ => false,
        },
        Value::Str(x) => match b {
            Value::Str(y) => *x == *y,
            _ => false,
        },
    }
}

/// The first entry with key `k`.
pub proof fn lemma_first_index(es: Seq<(Seq<char>, Val)>, k: Seq<char>) -> (i: int)
    requires
        has_key(es, k),
    ensures
        0 <= i < es.len(),
        es[i].0 == k,
        first_of(es, i),
        lookup(es, k) == es[i].1,
    decreases es.len(),
{
    if es[0].0 == k {
        lemma_lookup_first(es, k, 0);
        0
    } else {
        let w = choose|w: int| 0 <= w < es.len() && es[w].0 == k;
        assert(es.drop_first()[w - 1].0 == k);
        let j = lemma_first_index(es.drop_first(), k);
        assert forall|m: int| 0 <= m < j + 1 implies #[trigger] es[m].0 != es[j + 1].0 by {
            if m > 0 {
                assert(es.drop_first()[m - 1] == es[m]);
            }
        }
        lemma_lookup_first(es, k, j + 1);
        j + 1
    }
}

/// Every value equals itself.
pub proof fn lemma_same_value_refl(v: Val)
    ensures
        same_value(v, v),
    decreases v,
{
    match v {
        Val::Array(xs) => {
            assert forall|i: int| 0 <= i < xs.len() implies same_value(#[trigger] xs[i], xs[i]) by {
                assert(decreases_to!(v => xs[i]));
                lemma_same_value_refl(xs[i]);
            }
        },
        Val::Object(xs) => {
            assert forall|i: int| 0 <= i < xs.len() && first_of(xs, i) implies same_value(
                #[trigger] xs[i].1,
                lookup(xs, xs[i].0),
            ) by {
                lemma_lookup_first(xs, xs[i].0, i);
                assert(decreases_to!(v => xs[i].1));
                lemma_same_value_refl(xs[i].1);
            }
        },
        _ => {},
    }
}

/// Equality of values is symmetric.
pub proof fn lemma_same_value_sym(a: Val, b: Val)
    requires
        same_value(a, b),
    ensures
        same_value(b, a),
    decreases a,
{
    match a {
        Val::Array(xs) => {
            let ys = b->Array_0;
            assert forall|i: int| 0 <= i < ys.len() implies same_value(#[trigger] ys[i], xs[i]) by {
                assert(same_value(xs[i], ys[i]));
                assert(decreases_to!(a => xs[i]));
                lemma_same_value_sym(xs[i], ys[i]);
            }
        },
        Val::Object(xs) => {
            let ys = b->Object_0;
            assert forall|j: int| 0 <= j < ys.len() && first_of(ys, j) implies same_value(
                #[trigger] ys[j].1,
                lookup(xs, ys[j].0),
            ) by {
                let k = ys[j].0;
                assert(has_key(ys, k));
                assert(has_key(xs, k));
                let i = lemma_first_index(xs, k);
                assert(same_value(xs[i].1, lookup(ys, xs[i].0)));
                lemma_lookup_first(ys, k, j);
                assert(decreases_to!(a => xs[i].1));
                lemma_same_value_sym(xs[i].1, ys[j].1);
            }
            assert forall|k: Seq<char>| has_key(ys, k) <==> has_key(xs, k) by {
                assert(has_key(xs, k) <==> has_key(ys, k));
            }
        },
        _ => {},
    }
}

/// A deep copy of a value.
pub fn copy_value(v: &Value) -> (r: Value)
    ensures
        r@ == v@,
    decreases v,
{
    match v {
        Value::Null => Value::Null,
        Value::Bool(b) => Value::Bool(*b),
        Value::Number(s) => Value::Number(s.clone()),
        Value::Str(s) => Value::Str(s.clone()),
        Value::Array(xs) => {
            let mut out: Vec<Value> = Vec::new();
            let mut i: usize = 0;
            while i < xs.len()
                invariant
                    0 <= i <= xs.len(),
                    items_view(out@) == items_view(xs@.take(i as int)),
                    *v == Value::Array(*xs),
                decreases xs.len() - i,
            {
                proof {
                    assert(decreases_to!(*v => v->Array_0));
                    assert(decreases_to!(*xs => xs[i as int]));
                }
                let c = copy_value(&xs[i]);
                let ghost prev = out@;
                out.push(c);
                i = i + 1;
                assert(xs@.take(i as int).drop_last() =~= xs@.take(i - 1));
                assert(out@.drop_last() =~= prev);
            }
            assert(xs@.take(xs.len() as int) =~= xs@);
            Value::Array(out)
        },
        Value::Object(es) => {
            let mut out: Vec<(String, Value)> = Vec::new();
            let mut i: usize = 0;
            while i < es.len()
                invariant
                    0 <= i <= es.len(),
                    entries_view(out@) == entries_view(es@.take(i as int)),
                    *v == Value::Object(*es),
                decreases es.len() - i,
            {
                proof {
                    assert(decreases_to!(*v => v->Object_0));
                    assert(decreases_to!(*es => es[i as int]));
                }
                let k = es[i].0.clone();
                let c = copy_value(&es[i].1);
                let ghost prev = out@;
                out.push((k, c));
                i = i + 1;
                assert(out@.drop_last() =~= prev);
                assert(es@.take(i as int).drop_last() =~= es@.take(i - 1));
            }
            assert(es@.take(es.len() as int) =~= es@);
            Value::Object(out)
        },
    }
}


/// Whether entry `i` is the first one with its key.
pub open spec fn first_of(es: Seq<(Seq<char>, Val)>, i: int) -> bool {
    forall|j: int| 0 <= j < i ==> es[j].0 != es[i].0
}

/// Deep structural equality of two values. Arrays compare element by element;
/// objects compare as mappings: the same keys, and equal values per key,
/// whatever the order of their entries.
pub open spec fn same_value(a: Val, b: Val) -> bool
    decreases a,
{
    match a {
        Val::Array(xs) => b is Array && xs.len() == b->Array_0.len() && forall|i: int|
            0 <= i < xs.len() ==> same_value(#[trigger] xs[i], b->Array_0[i]),
        Val::Object(xs) => b is Object && same_keys(xs, b->Object_0) && forall|i: int|
            0 <= i < xs.len() && first_of(xs, i) ==> same_value(
                #[trigger] xs[i].1,
                lookup(b->Object_0, xs[i].0),
            ),
        _ => a == b,
    }
}

pub open spec fn same_keys(xs: Seq<(Seq<char>, Val)>, ys: Seq<(Seq<char>, Val)>) -> bool {
    forall|k: Seq<char>| has_key(xs, k) <==> has_key(ys, k)
}

} // verus!
