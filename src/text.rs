use vstd::prelude::*;
use vstd::string::StringExecFns;
use crate::value::{Val, Value, items_view, entries_view, lemma_items_view, lemma_entries_view};

verus! {

broadcast use {vstd::seq::group_seq_axioms, vstd::std_specs::vec::group_vec_axioms};

/// The plain textual form of a value: scalars bare and unquoted, arrays as
/// `[x, y]`, objects as `{k: v, ...}`.
pub open spec fn value_text(v: Val) -> Seq<char>
    decreases v, 0int,
{
    match v {
        Val::Null => seq!['n', 'u', 'l', 'l'],
        Val::Bool(b) => if b {
            seq!['t', 'r', 'u', 'e']
        } else {
            seq!['f', 'a', 'l', 's', 'e']
        },
        Val::Number(s) => s,
        Val::Str(s) => s,
        Val::Array(xs) => seq!['['] + items_text(xs) + seq![']'],
        Val::Object(es) => seq!['{'] + fields_text(es) + seq!['}'],
    }
}

/// The texts of `xs` separated by `, `.
pub open spec fn items_text(xs: Seq<Val>) -> Seq<char>
    decreases xs, 1int,
{
    if xs.len() == 0 {
        Seq::empty()
    } else if xs.len() == 1 {
        value_text(xs[0])
    } else {
        items_text(xs.drop_last()) + seq![',', ' '] + value_text(xs.last())
    }
}

/// The entries of `es` as `key: text`, separated by `, `.
pub open spec fn fields_text(es: Seq<(Seq<char>, Val)>) -> Seq<char>
    decreases es, 1int,
{
    if es.len() == 0 {
        Seq::empty()
    } else if es.len() == 1 {
        es[0].0 + seq![':', ' '] + value_text(es[0].1)
    } else {
        fields_text(es.drop_last()) + seq![',', ' '] + es.last().0 + seq![':', ' '] + value_text(
            es.last().1,
        )
    }
}

/// Appends the textual form of `v` to `out`.
pub fn write_value(out: &mut String, v: &Value)
    ensures
        final(out)@ == old(out)@ + value_text(v@),
    decreases v,
{
    proof {
        reveal_strlit("null");
        reveal_strlit("true");
        reveal_strlit("false");
        reveal_strlit("[");
        reveal_strlit("]");
        reveal_strlit("{");
        reveal_strlit("}");
        reveal_strlit(", ");
        reveal_strlit(": ");
    }
    match v {
        Value::Null => out.append("null"),
        Value::Bool(b) => if *b {
            out.append("true")
        } else {
            out.append("false")
        },
        Value::Number(s) => out.append(s.as_str()),
        Value::Str(s) => out.append(s.as_str()),
        Value::Array(xs) => {
            proof {
                lemma_items_view(xs@);
            }
            let ghost start = out@;
            out.append("[");
            let mut i: usize = 0;
            while i < xs.len()
                invariant
                    0 <= i <= xs.len(),
                    *v == Value::Array(*xs),
                    items_view(xs@).len() == xs.len(),
                    forall|j: int| 0 <= j < xs.len() ==> #[trigger] items_view(xs@)[j] == xs[j]@,
                    out@ == start + seq!['['] + items_text(items_view(xs@).take(i as int)),
                decreases xs.len() - i,
            {
                proof {
                    reveal_strlit(", ");
                }
                let ghost before = out@;
                if i > 0 {
                    out.append(", ");
                }
                let ghost mid = out@;
                proof {
                    assert(decreases_to!(*v => v->Array_0));
                    assert(decreases_to!(*xs => xs[i as int]));
                }
                write_value(out, &xs[i]);
                proof {
                    let t = items_view(xs@).take(i + 1);
                    assert(t.drop_last() =~= items_view(xs@).take(i as int));
                    assert(t.last() == xs[i as int]@);
                    if i == 0 {
                        assert(t =~= seq![xs[0]@]);
                    } else {
                        assert(mid =~= before + seq![',', ' ']);
                    }
                    assert(out@ =~= start + seq!['['] + items_text(t));
                }
                i = i + 1;
            }
            out.append("]");
            proof {
                assert(items_view(xs@).take(xs.len() as int) =~= items_view(xs@));
                assert(out@ =~= start + value_text(v@));
            }
        },
        Value::Object(es) => {
            proof {
                lemma_entries_view(es@);
            }
            let ghost start = out@;
            out.append("{");
            let mut i: usize = 0;
            while i < es.len()
                invariant
                    0 <= i <= es.len(),
                    *v == Value::Object(*es),
                    entries_view(es@).len() == es.len(),
                    forall|j: int|
                        0 <= j < es.len() ==> #[trigger] entries_view(es@)[j] == (es[j].0@, es[j].1@),
                    out@ == start + seq!['{'] + fields_text(entries_view(es@).take(i as int)),
                decreases es.len() - i,
            {
                proof {
                    reveal_strlit(", ");
                    reveal_strlit(": ");
                }
                let ghost before = out@;
                if i > 0 {
                    out.append(", ");
                }
                let ghost mid = out@;
                out.append(es[i].0.as_str());
                out.append(": ");
                let ghost mid2 = out@;
                proof {
                    assert(decreases_to!(*v => v->Object_0));
                    assert(decreases_to!(*es => es[i as int]));
                }
                write_value(out, &es[i].1);
                proof {
                    let t = entries_view(es@).take(i + 1);
                    assert(t.drop_last() =~= entries_view(es@).take(i as int));
                    assert(t.last() == (es[i as int].0@, es[i as int].1@));
                    assert(mid2 =~= mid + es[i as int].0@ + seq![':', ' ']);
                    if i == 0 {
                        assert(t =~= seq![(es[0].0@, es[0].1@)]);
                        assert(mid =~= before);
                    } else {
                        assert(mid =~= before + seq![',', ' ']);
                    }
                    assert(out@ =~= start + seq!['{'] + fields_text(t));
                }
                i = i + 1;
            }
            out.append("}");
            proof {
                assert(entries_view(es@).take(es.len() as int) =~= entries_view(es@));
                assert(out@ =~= start + value_text(v@));
            }
        },
    }
}


/// The lines `ls` joined with newlines, without a trailing one.
pub open spec fn join_lines(ls: Seq<Seq<char>>) -> Seq<char>
    decreases ls.len(),
{
    if ls.len() == 0 {
        Seq::empty()
    } else if ls.len() == 1 {
        ls[0]
    } else {
        join_lines(ls.drop_last()) + seq!['\n'] + ls.last()
    }
}

pub open spec fn strings_view(v: Seq<String>) -> Seq<Seq<char>> {
    v.map_values(|s: String| s@)
}

/// The lines of `ls` joined with newlines.
pub fn join(ls: &Vec<String>) -> (r: String)
    ensures
        r@ == join_lines(strings_view(ls@)),
{
    let mut out = String::new();
    let mut i: usize = 0;
    while i < ls.len()
        invariant
            0 <= i <= ls.len(),
            out@ == join_lines(strings_view(ls@).take(i as int)),
        decreases ls.len() - i,
    {
        proof {
            reveal_strlit("\n");
        }
        let ghost before = out@;
        if i > 0 {
            out.append("\n");
        }
        out.append(ls[i].as_str());
        proof {
            let t = strings_view(ls@).take(i + 1);
            assert(t.drop_last() =~= strings_view(ls@).take(i as int));
            if i == 0 {
                assert(out@ =~= t[0]);
            } else {
                assert(out@ =~= before + seq!['\n'] + t.last());
            }
        }
        i = i + 1;
    }
    assert(strings_view(ls@).take(ls.len() as int) =~= strings_view(ls@));
    out
}

} // verus!
