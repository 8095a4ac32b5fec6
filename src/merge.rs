use vstd::prelude::*;

use crate::value::{lemma_view_fields, lemma_view_list, view_fields, view_list, view_value, JValue, Value};

verus! {

broadcast use {vstd::seq::group_seq_axioms, vstd::std_specs::vec::axiom_vec_index_decreases};

/// Position of the first entry named `k`, or -1 where there is none.
pub open spec fn key_index(o: Seq<(Seq<char>, JValue)>, k: Seq<char>) -> int
    decreases o.len(),
{
    if o.len() == 0 {
        -1
    } else {
        let i = key_index(o.drop_last(), k);
        if i >= 0 {
            i
        } else if o.last().0 == k {
            o.len() - 1
        } else {
            -1
        }
    }
}

/// Merges the entries of a fragment object, in order, into an object.
pub open spec fn merge_fields(
    o: Seq<(Seq<char>, JValue)>,
    fo: Seq<(Seq<char>, JValue)>,
) -> Seq<(Seq<char>, JValue)>
    decreases fo,
{
    if fo.len() == 0 {
        o
    } else {
        let acc = merge_fields(o, fo.drop_last());
        let (k, v) = fo.last();
        let i = key_index(acc, k);
        if i >= 0 {
            acc.update(i, (acc[i].0, merge(acc[i].1, v)))
        } else {
            acc.push((k, v))
        }
    }
}

/// Merges two lists of equal length element by element.
pub open spec fn merge_list(a: Seq<JValue>, b: Seq<JValue>) -> Seq<JValue>
    decreases b,
{
    if b.len() == 0 || a.len() != b.len() {
        Seq::empty()
    } else {
        merge_list(a.drop_last(), b.drop_last()).push(merge(a.last(), b.last()))
    }
}

/// Deep merge of a fragment into a target: null takes the fragment, objects
/// merge by key, lists of equal length merge by index, and anything else
/// keeps the target.
pub open spec fn merge(t: JValue, f: JValue) -> JValue
    decreases f,
{
    match t {
        JValue::Null => f,
        JValue::Object(o) => match f {
            JValue::Object(fo) => JValue::Object(merge_fields(o, fo)),
            _ => t,
        },
        JValue::List(a) => match f {
            JValue::List(b) => if a.len() == b.len() {
                JValue::List(merge_list(a, b))
            } else {
                t
            },
            _ => t,
        },
        _ => t,
    }
}

pub proof fn lemma_key_index(o: Seq<(Seq<char>, JValue)>, k: Seq<char>)
    ensures
        -1 <= key_index(o, k) < o.len(),
        key_index(o, k) >= 0 ==> o[key_index(o, k)].0 == k,
        forall|j: int|
            0 <= j < o.len() && (key_index(o, k) < 0 || j < key_index(o, k)) ==> o[j].0 != k,
    decreases o.len(),
{
    if o.len() > 0 {
        lemma_key_index(o.drop_last(), k);
        assert(forall|j: int| 0 <= j < o.len() - 1 ==> o.drop_last()[j] == o[j]);
    }
}

pub proof fn lemma_merge_list(a: Seq<JValue>, b: Seq<JValue>)
    requires
        a.len() == b.len(),
    ensures
        merge_list(a, b).len() == b.len(),
        forall|i: int| 0 <= i < b.len() ==> #[trigger] merge_list(a, b)[i] == merge(a[i], b[i]),
    decreases b.len(),
{
    if b.len() > 0 {
        lemma_merge_list(a.drop_last(), b.drop_last());
    }
}

/// Finds the first entry of `o` named `k`.
pub(crate) fn find_key(o: &Vec<(String, Value)>, k: &String) -> (r: Option<usize>)
    ensures
        match r {
            Some(i) => key_index(view_fields(o@), k@) == i,
            None => key_index(view_fields(o@), k@) == -1,
        },
{
    proof {
        lemma_view_fields(o@);
        lemma_key_index(view_fields(o@), k@);
    }
    let mut i: usize = 0;
    while i < o.len()
        invariant
            i <= o.len(),
            forall|j: int| 0 <= j < i ==> o@[j].0@ != k@,
            view_fields(o@).len() == o.len(),
            forall|j: int| 0 <= j < o.len() ==> #[trigger] view_fields(o@)[j] == (o@[j].0@, view_value(o@[j].1)),
        decreases o.len() - i,
    {
        if o[i].0 == *k {
            proof {
                lemma_key_index(view_fields(o@), k@);
                assert(view_fields(o@)[i as int].0 == k@);
                assert(forall|j: int| 0 <= j < i ==> view_fields(o@)[j].0 != k@);
            }
            return Some(i);
        }
        i = i + 1;
    }
    None
}

/// Merges `fragment` into `target` in place (see `merge`).
pub fn merge_data(target: &mut Value, fragment: Value)
    ensures
        final(target)@ == merge(old(target)@, fragment@),
{
    let mut t = Value::Null;
    std::mem::swap(&mut t, target);
    *target = merge_values(t, fragment);
}

/// Returns `t` with `f` merged into it (see `merge`).
pub fn merge_values(t: Value, f: Value) -> (r: Value)
    ensures
        r@ == merge(t@, f@),
    decreases f,
{
    match t {
        Value::Null => f,
        Value::Object(o) => match f {
            Value::Object(fo) => Value::Object(merge_objects(o, fo)),
            _ => Value::Object(o),
        },
        Value::List(a) => match f {
            Value::List(b) => if a.len() == b.len() {
                proof {
                    lemma_view_list(a@);
                    lemma_view_list(b@);
                }
                Value::List(merge_lists(a, b))
            } else {
                proof {
                    lemma_view_list(a@);
                    lemma_view_list(b@);
                }
                Value::List(a)
            },
            _ => Value::List(a),
        },
        Value::Boolean(b) => Value::Boolean(b),
        Value::Number(n) => Value::Number(n),
        Value::String(s) => Value::String(s),
        Value::Enum(s) => Value::Enum(s),
    }
}

#[verifier::loop_isolation(false)]
fn merge_objects(o: Vec<(String, Value)>, fo: Vec<(String, Value)>) -> (r: Vec<(String, Value)>)
    ensures
        view_fields(r@) == merge_fields(view_fields(o@), view_fields(fo@)),
    decreases fo,
{
    let ghost ov = view_fields(o@);
    let ghost fv = view_fields(fo@);
    let ghost fo0 = fo@;
    let ghost fo_vec = fo;
    proof {
        lemma_view_fields(fo@);
        assert(fv.take(0) =~= Seq::empty());
    }
    let total = fo.len();
    let mut acc = o;
    let mut rest = fo;
    let mut j: usize = 0;
    while rest.len() > 0
        invariant
            j + rest.len() == fo0.len(),
            fo0.len() == total,
            fo_vec@ == fo0,
            rest@ == fo0.skip(j as int),
            fv == view_fields(fo0),
            fv.len() == fo0.len(),
            forall|i: int| 0 <= i < fo0.len() ==> #[trigger] fv[i] == (fo0[i].0@, view_value(fo0[i].1)),
            view_fields(acc@) == merge_fields(ov, fv.take(j as int)),
        decreases rest.len(),
    {
        let (k, v) = rest.remove(0);
        proof {
            assert(fo0[j as int] == (k, v));
            assert(decreases_to!(fo_vec => fo_vec[j as int]));
            assert(decreases_to!(fo_vec[j as int] => fo_vec[j as int].1));
            assert(decreases_to!(fo_vec => v));
            lemma_key_index(view_fields(acc@), k@);
            assert(fv.take(j + 1).drop_last() =~= fv.take(j as int));
            lemma_view_fields(acc@);
        }
        match find_key(&acc, &k) {
            Some(i) => {
                let (ki, vi) = acc.remove(i);
                let merged = merge_values(vi, v);
                acc.insert(i, (ki, merged));
                proof {
                    lemma_view_fields(acc@);
                    let prev = merge_fields(ov, fv.take(j as int));
                    assert(view_fields(acc@) =~= prev.update(i as int, (prev[i as int].0, merge(prev[i as int].1, v@))));
                }
            },
            None => {
                let ghost before = acc@;
                acc.push((k, v));
                proof {
                    assert(acc@.drop_last() =~= before);
                }
            },
        }
        j = j + 1;
    }
    proof {
        assert(fv.take(j as int) =~= fv);
    }
    acc
}

#[verifier::loop_isolation(false)]
fn merge_lists(a: Vec<Value>, b: Vec<Value>) -> (r: Vec<Value>)
    requires
        a.len() == b.len(),
    ensures
        view_list(r@) == merge_list(view_list(a@), view_list(b@)),
    decreases b,
{
    let ghost av = view_list(a@);
    let ghost bv = view_list(b@);
    let ghost a0 = a@;
    let ghost b0 = b@;
    let ghost b_vec = b;
    proof {
        lemma_view_list(a@);
        lemma_view_list(b@);
        lemma_merge_list(av, bv);
    }
    let mut acc: Vec<Value> = Vec::new();
    let mut ra = a;
    let mut rb = b;
    let mut j: usize = 0;
    while rb.len() > 0
        invariant
            j + rb.len() == b0.len(),
            b0.len() <= usize::MAX,
            b_vec@ == b0,
            a0.len() == b0.len(),
            ra@ == a0.skip(j as int),
            rb@ == b0.skip(j as int),
            av == view_list(a0),
            bv == view_list(b0),
            av.len() == a0.len(),
            bv.len() == b0.len(),
            forall|i: int| 0 <= i < a0.len() ==> #[trigger] av[i] == view_value(a0[i]),
            forall|i: int| 0 <= i < b0.len() ==> #[trigger] bv[i] == view_value(b0[i]),
            merge_list(av, bv).len() == bv.len(),
            forall|i: int| 0 <= i < bv.len() ==> #[trigger] merge_list(av, bv)[i] == merge(av[i], bv[i]),
            acc.len() == j,
            forall|i: int| 0 <= i < j ==> #[trigger] view_value(acc@[i]) == merge(av[i], bv[i]),
        decreases rb.len(),
    {
        let x = ra.remove(0);
        let y = rb.remove(0);
        proof {
            assert(b0[j as int] == y);
            assert(decreases_to!(b_vec => b_vec[j as int]));
            assert(decreases_to!(b_vec => y));
        }
        let m = merge_values(x, y);
        acc.push(m);
        j = j + 1;
    }
    proof {
        lemma_view_list(acc@);
        assert(view_list(acc@) =~= merge_list(av, bv));
    }
    acc
}

} // verus!
