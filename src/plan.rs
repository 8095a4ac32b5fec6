use vstd::prelude::*;

use crate::merge::{find_key, key_index, lemma_key_index, merge};
use crate::text::strip_prefix;
use crate::value::{lemma_view_fields, lemma_view_list, view_fields, view_list, view_value, JValue, Value};

verus! {

broadcast use vstd::seq::group_seq_axioms;

/// One step of a flatten path: the field to descend into, and whether to
/// descend into each element of the list held there.
pub struct PathSegment {
    pub name: String,
    pub is_list: bool,
}

pub type Fields = Seq<(Seq<char>, JValue)>;

/// Splits an object's entries into those whose key does not begin with `p`
/// and those that do, the latter with `p` stripped from the key.
pub open spec fn extract(o: Fields, p: Seq<char>) -> (Fields, Fields)
    decreases o.len(),
{
    if o.len() == 0 {
        (Seq::empty(), Seq::empty())
    } else {
        let (rem, ext) = extract(o.drop_last(), p);
        let (k, v) = o.last();
        if p.is_prefix_of(k) {
            (rem, ext.push((k.skip(p.len() as int), v)))
        } else {
            (rem.push((k, v)), ext)
        }
    }
}

/// Key extraction on each object of a list reached at the last step.
pub open spec fn collect_sites(arr: Seq<JValue>, p: Seq<char>) -> (Seq<JValue>, Seq<JValue>)
    decreases arr.len(),
{
    if arr.len() == 0 {
        (Seq::empty(), Seq::empty())
    } else {
        let (na, reps) = collect_sites(arr.drop_last(), p);
        match arr.last() {
            JValue::Object(o) => (
                na.push(JValue::Object(extract(o, p).0)),
                reps.push(JValue::Object(extract(o, p).1)),
            ),
            _ => (na.push(arr.last()), reps),
        }
    }
}

/// `collect` on each element of a list, from step `d` of the path.
pub open spec fn collect_list(arr: Seq<JValue>, path: Seq<PathSegment>, d: int, p: Seq<char>) -> (
    Seq<JValue>,
    Seq<JValue>,
)
    decreases path.len() - d, arr.len() + 1,
{
    if arr.len() == 0 || d < 0 || d > path.len() {
        (arr, Seq::empty())
    } else {
        let (na, reps) = collect_list(arr.drop_last(), path, d, p);
        let (nl, r) = collect(arr.last(), path, d, p);
        (na.push(nl), reps + r)
    }
}

/// Walks `v` along `path` from step `d`, removes from each object reached at
/// the last step the keys that begin with `p`, and returns the new value with
/// the representations built from those keys, in document order.
pub open spec fn collect(v: JValue, path: Seq<PathSegment>, d: int, p: Seq<char>) -> (
    JValue,
    Seq<JValue>,
)
    decreases path.len() - d, 0int,
{
    if d < 0 || d >= path.len() {
        (v, Seq::empty())
    } else {
        match v {
            JValue::Object(o) => {
                let seg = path[d];
                let i = key_index(o, seg.name@);
                if i < 0 {
                    (v, Seq::empty())
                } else {
                    let child = o[i].1;
                    let last = d == path.len() - 1;
                    if last && !seg.is_list {
                        match child {
                            JValue::Object(ko) => (
                                JValue::Object(o.update(i, (o[i].0, JValue::Object(extract(ko, p).0)))),
                                seq![JValue::Object(extract(ko, p).1)],
                            ),
                            _ => (v, Seq::empty()),
                        }
                    } else if last {
                        match child {
                            JValue::List(arr) => (
                                JValue::Object(o.update(i, (o[i].0, JValue::List(collect_sites(arr, p).0)))),
                                collect_sites(arr, p).1,
                            ),
                            _ => (v, Seq::empty()),
                        }
                    } else if !seg.is_list {
                        (
                            JValue::Object(o.update(i, (o[i].0, collect(child, path, d + 1, p).0))),
                            collect(child, path, d + 1, p).1,
                        )
                    } else {
                        match child {
                            JValue::List(arr) => (
                                JValue::Object(o.update(i, (o[i].0, JValue::List(collect_list(arr, path, d + 1, p).0)))),
                                collect_list(arr, path, d + 1, p).1,
                            ),
                            _ => (v, Seq::empty()),
                        }
                    }
                }
            },
            _ => (v, Seq::empty()),
        }
    }
}

proof fn lemma_view_fields_push(s: Seq<(String, Value)>, x: (String, Value))
    ensures
        view_fields(s.push(x)) == view_fields(s).push((x.0@, view_value(x.1))),
{
    assert(s.push(x).drop_last() =~= s);
}

proof fn lemma_view_list_push(s: Seq<Value>, x: Value)
    ensures
        view_list(s.push(x)) == view_list(s).push(view_value(x)),
{
    assert(s.push(x).drop_last() =~= s);
}

/// Removes from `o` the entries whose key begins with `prefix`; returns the
/// entries left and the removed ones with `prefix` stripped from their keys.
pub fn extract_keys(o: Vec<(String, Value)>, prefix: &String) -> (r: (
    Vec<(String, Value)>,
    Vec<(String, Value)>,
))
    ensures
        (view_fields(r.0@), view_fields(r.1@)) == extract(view_fields(o@), prefix@),
{
    let ghost o0 = o@;
    let ghost ov = view_fields(o@);
    proof {
        lemma_view_fields(o@);
        assert(ov.take(0) =~= Seq::<(Seq<char>, JValue)>::empty());
    }
    let total = o.len();
    let mut rest = o;
    let mut rem: Vec<(String, Value)> = Vec::new();
    let mut ext: Vec<(String, Value)> = Vec::new();
    let mut j: usize = 0;
    while rest.len() > 0
        invariant
            rest@ == o0.skip(j as int),
            j + rest.len() == o0.len(),
            o0.len() == total,
            ov == view_fields(o0),
            ov.len() == o0.len(),
            forall|i: int| 0 <= i < o0.len() ==> #[trigger] ov[i] == (o0[i].0@, view_value(o0[i].1)),
            (view_fields(rem@), view_fields(ext@)) == extract(ov.take(j as int), prefix@),
        decreases rest.len(),
    {
        let (k, v) = rest.remove(0);
        proof {
            assert(o0[j as int] == (k, v));
            assert(ov.take(j + 1).drop_last() =~= ov.take(j as int));
            lemma_view_fields_push(rem@, (k, v));
        }
        match strip_prefix(k.as_str(), prefix.as_str()) {
            Some(name) => {
                proof {
                    lemma_view_fields_push(ext@, (name, v));
                }
                ext.push((name, v));
            },
            None => {
                rem.push((k, v));
            },
        }
        j = j + 1;
    }
    proof {
        assert(ov.take(j as int) =~= ov);
    }
    (rem, ext)
}

proof fn lemma_view_fields_update(s: Seq<(String, Value)>, i: int, x: (String, Value))
    requires
        0 <= i < s.len(),
    ensures
        view_fields(s.update(i, x)) == view_fields(s).update(i, (x.0@, view_value(x.1))),
{
    lemma_view_fields(s);
    lemma_view_fields(s.update(i, x));
    assert(view_fields(s.update(i, x)) =~= view_fields(s).update(i, (x.0@, view_value(x.1))));
}

/// Key extraction on each object of `arr`; the representations are appended
/// to `reps`.
fn collect_sites_exec(arr: Vec<Value>, prefix: &String, reps: &mut Vec<Value>) -> (r: Vec<Value>)
    ensures
        view_list(r@) == collect_sites(view_list(arr@), prefix@).0,
        view_list(final(reps)@) == view_list(old(reps)@) + collect_sites(view_list(arr@), prefix@).1,
{
    let ghost a0 = arr@;
    let ghost av = view_list(arr@);
    let ghost r0 = view_list(reps@);
    proof {
        lemma_view_list(arr@);
        assert(av.take(0) =~= Seq::<JValue>::empty());
        assert(r0 + Seq::<JValue>::empty() =~= r0);
    }
    let total = arr.len();
    let mut rest = arr;
    let mut out: Vec<Value> = Vec::new();
    let mut j: usize = 0;
    while rest.len() > 0
        invariant
            rest@ == a0.skip(j as int),
            j + rest.len() == a0.len(),
            a0.len() == total,
            av == view_list(a0),
            av.len() == a0.len(),
            forall|i: int| 0 <= i < a0.len() ==> #[trigger] av[i] == view_value(a0[i]),
            view_list(out@) == collect_sites(av.take(j as int), prefix@).0,
            view_list(reps@) == r0 + collect_sites(av.take(j as int), prefix@).1,
        decreases rest.len(),
    {
        let e = rest.remove(0);
        proof {
            assert(a0[j as int] == e);
            assert(av.take(j + 1).drop_last() =~= av.take(j as int));
        }
        match e {
            Value::Object(o) => {
                let (rem, ext) = extract_keys(o, prefix);
                proof {
                    lemma_view_list_push(reps@, Value::Object(ext));
                    lemma_view_list_push(out@, Value::Object(rem));
                    assert(r0 + collect_sites(av.take(j + 1), prefix@).1 =~= (r0 + collect_sites(av.take(j as int), prefix@).1).push(view_value(Value::Object(ext))));
                }
                reps.push(Value::Object(ext));
                out.push(Value::Object(rem));
            },
            other => {
                proof {
                    lemma_view_list_push(out@, other);
                }
                out.push(other);
            },
        }
        j = j + 1;
    }
    proof {
        assert(av.take(j as int) =~= av);
    }
    out
}

/// `collect_at` on each element of `arr`, from step `d` of `path`.
#[verifier::loop_isolation(false)]
fn collect_list_exec(
    arr: Vec<Value>,
    path: &Vec<PathSegment>,
    d: usize,
    prefix: &String,
    reps: &mut Vec<Value>,
) -> (r: Vec<Value>)
    requires
        d <= path.len(),
    ensures
        view_list(r@) == collect_list(view_list(arr@), path@, d as int, prefix@).0,
        view_list(final(reps)@) == view_list(old(reps)@) + collect_list(view_list(arr@), path@, d as int, prefix@).1,
    decreases path.len() - d, arr.len() + 1,
{
    let ghost a0 = arr@;
    let ghost av = view_list(arr@);
    let ghost r0 = view_list(reps@);
    proof {
        lemma_view_list(arr@);
        assert(av.take(0) =~= Seq::<JValue>::empty());
        assert(r0 + Seq::<JValue>::empty() =~= r0);
    }
    let total = arr.len();
    let mut rest = arr;
    let mut out: Vec<Value> = Vec::new();
    let mut j: usize = 0;
    while rest.len() > 0
        invariant
            rest@ == a0.skip(j as int),
            j + rest.len() == a0.len(),
            a0.len() == total,
            av == view_list(a0),
            av.len() == a0.len(),
            forall|i: int| 0 <= i < a0.len() ==> #[trigger] av[i] == view_value(a0[i]),
            view_list(out@) == collect_list(av.take(j as int), path@, d as int, prefix@).0,
            view_list(reps@) == r0 + collect_list(av.take(j as int), path@, d as int, prefix@).1,
        decreases rest.len(),
    {
        let mut e = rest.remove(0);
        let ghost reps_before = view_list(reps@);
        proof {
            assert(a0[j as int] == e);
            assert(av.take(j + 1).drop_last() =~= av.take(j as int));
        }
        collect_at(&mut e, path, d, prefix, reps);
        proof {
            lemma_view_list_push(out@, e);
            assert(view_list(reps@) =~= r0 + collect_list(av.take(j + 1), path@, d as int, prefix@).1);
        }
        out.push(e);
        j = j + 1;
    }
    proof {
        assert(av.take(j as int) =~= av);
    }
    out
}

/// Walks `v` along `path` from step `d` (see `collect`), removing the keys
/// that begin with `prefix` from the objects reached at the last step; the
/// representations built from them are appended to `reps`.
pub fn collect_at(v: &mut Value, path: &Vec<PathSegment>, d: usize, prefix: &String, reps: &mut Vec<Value>)
    requires
        d <= path.len(),
    ensures
        final(v)@ == collect(old(v)@, path@, d as int, prefix@).0,
        view_list(final(reps)@) == view_list(old(reps)@) + collect(old(v)@, path@, d as int, prefix@).1,
    decreases path.len() - d, 0int,
{
    proof {
        assert(view_list(reps@) + Seq::<JValue>::empty() =~= view_list(reps@));
    }
    if d >= path.len() {
        return;
    }
    let ghost r0 = view_list(reps@);
    let mut t = Value::Null;
    std::mem::swap(&mut t, v);
    match t {
        Value::Object(mut o) => {
            let seg = &path[d];
            match find_key(&o, &seg.name) {
                None => {
                    *v = Value::Object(o);
                },
                Some(i) => {
                    let ghost o0 = o@;
                    proof {
                        lemma_view_fields(o@);
                        lemma_key_index(view_fields(o@), seg.name@);
                    }
                    let (k, mut child) = o.remove(i);
                    proof {
                        assert(o0[i as int] == (k, child));
                    }
                    let last = d + 1 == path.len();
                    if last && !seg.is_list {
                        child = match child {
                            Value::Object(ko) => {
                                let (rem, ext) = extract_keys(ko, prefix);
                                proof {
                                    lemma_view_list_push(reps@, Value::Object(ext));
                                }
                                reps.push(Value::Object(ext));
                                Value::Object(rem)
                            },
                            other => other,
                        };
                    } else if last {
                        child = match child {
                            Value::List(arr) => Value::List(collect_sites_exec(arr, prefix, reps)),
                            other => other,
                        };
                    } else if !seg.is_list {
                        collect_at(&mut child, path, d + 1, prefix, reps);
                    } else {
                        child = match child {
                            Value::List(arr) => Value::List(collect_list_exec(arr, path, d + 1, prefix, reps)),
                            other => other,
                        };
                    }
                    o.insert(i, (k, child));
                    proof {
                        assert(o@ =~= o0.update(i as int, (k, child)));
                        assert(o0.update(i as int, o0[i as int]) =~= o0);
                        assert(view_fields(o0)[i as int] == (k@, view_value(o0[i as int].1)));
                        lemma_view_fields_update(o0, i as int, (k, child));
                    }
                    *v = Value::Object(o);
                },
            }
        },
        other => {
            *v = other;
        },
    }
}

/// Merges the entities at the front of `ents` into the objects of a list
/// reached at the last step, one each, while entities remain; elements that
/// are no objects take none.
pub open spec fn apply_sites(arr: Seq<JValue>, ents: Seq<JValue>) -> (Seq<JValue>, Seq<JValue>)
    decreases arr.len(),
{
    if arr.len() == 0 {
        (arr, ents)
    } else {
        let (na, rest) = apply_sites(arr.drop_last(), ents);
        if rest.len() > 0 && arr.last() is Object {
            (na.push(merge(arr.last(), rest[0])), rest.drop_first())
        } else {
            (na.push(arr.last()), rest)
        }
    }
}

/// `apply` on each element of a list, from step `d` of the path.
pub open spec fn apply_list(arr: Seq<JValue>, path: Seq<PathSegment>, d: int, ents: Seq<JValue>) -> (
    Seq<JValue>,
    Seq<JValue>,
)
    decreases path.len() - d, arr.len() + 1,
{
    if arr.len() == 0 || d < 0 || d > path.len() {
        (arr, ents)
    } else {
        let (na, rest) = apply_list(arr.drop_last(), path, d, ents);
        let (nl, rest2) = apply(arr.last(), path, d, rest);
        (na.push(nl), rest2)
    }
}

/// Walks `v` along `path` from step `d` as `collect` does, and merges into
/// each object reached at the last step the next entity of `ents`; returns
/// the new value and the entities not used.
pub open spec fn apply(v: JValue, path: Seq<PathSegment>, d: int, ents: Seq<JValue>) -> (
    JValue,
    Seq<JValue>,
)
    decreases path.len() - d, 0int,
{
    if d < 0 || d >= path.len() {
        (v, ents)
    } else {
        match v {
            JValue::Object(o) => {
                let seg = path[d];
                let i = key_index(o, seg.name@);
                if i < 0 {
                    (v, ents)
                } else {
                    let child = o[i].1;
                    let last = d == path.len() - 1;
                    if last && !seg.is_list {
                        if ents.len() > 0 && child is Object {
                            (
                                JValue::Object(o.update(i, (o[i].0, merge(child, ents[0])))),
                                ents.drop_first(),
                            )
                        } else {
                            (v, ents)
                        }
                    } else if last {
                        match child {
                            JValue::List(arr) => (
                                JValue::Object(o.update(i, (o[i].0, JValue::List(apply_sites(arr, ents).0)))),
                                apply_sites(arr, ents).1,
                            ),
                            _ => (v, ents),
                        }
                    } else if !seg.is_list {
                        (
                            JValue::Object(o.update(i, (o[i].0, apply(child, path, d + 1, ents).0))),
                            apply(child, path, d + 1, ents).1,
                        )
                    } else {
                        match child {
                            JValue::List(arr) => (
                                JValue::Object(o.update(i, (o[i].0, JValue::List(apply_list(arr, path, d + 1, ents).0)))),
                                apply_list(arr, path, d + 1, ents).1,
                            ),
                            _ => (v, ents),
                        }
                    }
                }
            },
            _ => (v, ents),
        }
    }
}

proof fn lemma_view_list_remove_first(s: Seq<Value>)
    requires
        s.len() > 0,
    ensures
        view_list(s.drop_first()) == view_list(s).drop_first(),
        view_list(s)[0] == view_value(s[0]),
{
    lemma_view_list(s);
    lemma_view_list(s.drop_first());
    assert(view_list(s.drop_first()) =~= view_list(s).drop_first());
}

/// Takes the next entity of `ents`, if any.
fn next_entity(ents: &mut Vec<Value>) -> (r: Option<Value>)
    ensures
        view_list(old(ents)@).len() > 0 ==> r.is_some() && r->Some_0@ == view_list(old(ents)@)[0]
            && view_list(final(ents)@) == view_list(old(ents)@).drop_first(),
        view_list(old(ents)@).len() == 0 ==> r.is_none() && final(ents)@ == old(ents)@,
{
    proof {
        lemma_view_list(ents@);
    }
    if ents.len() == 0 {
        None
    } else {
        proof {
            lemma_view_list_remove_first(ents@);
            assert(ents@.drop_first() =~= ents@.remove(0));
        }
        Some(ents.remove(0))
    }
}

/// Merges the next entities of `ents` into the objects among `arr`.
fn apply_sites_exec(arr: Vec<Value>, ents: &mut Vec<Value>) -> (r: Vec<Value>)
    ensures
        view_list(r@) == apply_sites(view_list(arr@), view_list(old(ents)@)).0,
        view_list(final(ents)@) == apply_sites(view_list(arr@), view_list(old(ents)@)).1,
{
    let ghost a0 = arr@;
    let ghost av = view_list(arr@);
    let ghost e0 = view_list(ents@);
    proof {
        lemma_view_list(arr@);
        assert(av.take(0) =~= Seq::<JValue>::empty());
    }
    let total = arr.len();
    let mut rest = arr;
    let mut out: Vec<Value> = Vec::new();
    let mut j: usize = 0;
    while rest.len() > 0
        invariant
            rest@ == a0.skip(j as int),
            j + rest.len() == a0.len(),
            a0.len() == total,
            av == view_list(a0),
            av.len() == a0.len(),
            forall|i: int| 0 <= i < a0.len() ==> #[trigger] av[i] == view_value(a0[i]),
            view_list(out@) == apply_sites(av.take(j as int), e0).0,
            view_list(ents@) == apply_sites(av.take(j as int), e0).1,
        decreases rest.len(),
    {
        let e = rest.remove(0);
        proof {
            assert(a0[j as int] == e);
            assert(av.take(j + 1).drop_last() =~= av.take(j as int));
        }
        let m = match e {
            Value::Object(o) => match next_entity(ents) {
                Some(x) => crate::merge::merge_values(Value::Object(o), x),
                None => Value::Object(o),
            },
            other => other,
        };
        proof {
            lemma_view_list_push(out@, m);
        }
        out.push(m);
        j = j + 1;
    }
    proof {
        assert(av.take(j as int) =~= av);
    }
    out
}

/// `apply_at` on each element of `arr`, from step `d` of `path`.
#[verifier::loop_isolation(false)]
fn apply_list_exec(arr: Vec<Value>, path: &Vec<PathSegment>, d: usize, ents: &mut Vec<Value>) -> (r: Vec<Value>)
    requires
        d <= path.len(),
    ensures
        view_list(r@) == apply_list(view_list(arr@), path@, d as int, view_list(old(ents)@)).0,
        view_list(final(ents)@) == apply_list(view_list(arr@), path@, d as int, view_list(old(ents)@)).1,
    decreases path.len() - d, arr.len() + 1,
{
    let ghost a0 = arr@;
    let ghost av = view_list(arr@);
    let ghost e0 = view_list(ents@);
    proof {
        lemma_view_list(arr@);
        assert(av.take(0) =~= Seq::<JValue>::empty());
    }
    let total = arr.len();
    let mut rest = arr;
    let mut out: Vec<Value> = Vec::new();
    let mut j: usize = 0;
    while rest.len() > 0
        invariant
            rest@ == a0.skip(j as int),
            j + rest.len() == a0.len(),
            a0.len() == total,
            av == view_list(a0),
            av.len() == a0.len(),
            forall|i: int| 0 <= i < a0.len() ==> #[trigger] av[i] == view_value(a0[i]),
            view_list(out@) == apply_list(av.take(j as int), path@, d as int, e0).0,
            view_list(ents@) == apply_list(av.take(j as int), path@, d as int, e0).1,
        decreases rest.len(),
    {
        let mut e = rest.remove(0);
        proof {
            assert(a0[j as int] == e);
            assert(av.take(j + 1).drop_last() =~= av.take(j as int));
        }
        apply_at(&mut e, path, d, ents);
        proof {
            lemma_view_list_push(out@, e);
        }
        out.push(e);
        j = j + 1;
    }
    proof {
        assert(av.take(j as int) =~= av);
    }
    out
}

/// Walks `v` along `path` from step `d` (see `apply`), merging the next
/// entity of `ents` into each object reached at the last step; the entities
/// used are removed from the front of `ents`.
pub fn apply_at(v: &mut Value, path: &Vec<PathSegment>, d: usize, ents: &mut Vec<Value>)
    requires
        d <= path.len(),
    ensures
        final(v)@ == apply(old(v)@, path@, d as int, view_list(old(ents)@)).0,
        view_list(final(ents)@) == apply(old(v)@, path@, d as int, view_list(old(ents)@)).1,
    decreases path.len() - d, 0int,
{
    if d >= path.len() {
        return;
    }
    let mut t = Value::Null;
    std::mem::swap(&mut t, v);
    match t {
        Value::Object(mut o) => {
            let seg = &path[d];
            match find_key(&o, &seg.name) {
                None => {
                    *v = Value::Object(o);
                },
                Some(i) => {
                    let ghost o0 = o@;
                    proof {
                        lemma_view_fields(o@);
                        lemma_key_index(view_fields(o@), seg.name@);
                    }
                    let (k, mut child) = o.remove(i);
                    proof {
                        assert(o0[i as int] == (k, child));
                    }
                    let last = d + 1 == path.len();
                    if last && !seg.is_list {
                        child = match child {
                            Value::Object(co) => match next_entity(ents) {
                                Some(x) => crate::merge::merge_values(Value::Object(co), x),
                                None => Value::Object(co),
                            },
                            other => other,
                        };
                    } else if last {
                        child = match child {
                            Value::List(arr) => Value::List(apply_sites_exec(arr, ents)),
                            other => other,
                        };
                    } else if !seg.is_list {
                        apply_at(&mut child, path, d + 1, ents);
                    } else {
                        child = match child {
                            Value::List(arr) => Value::List(apply_list_exec(arr, path, d + 1, ents)),
                            other => other,
                        };
                    }
                    o.insert(i, (k, child));
                    proof {
                        assert(o@ =~= o0.update(i as int, (k, child)));
                        assert(o0.update(i as int, o0[i as int]) =~= o0);
                        assert(view_fields(o0)[i as int] == (k@, view_value(o0[i as int].1)));
                        lemma_view_fields_update(o0, i as int, (k, child));
                    }
                    *v = Value::Object(o);
                },
            }
        },
        other => {
            *v = other;
        },
    }
}

} // verus!
