use vstd::prelude::*;

use crate::merge::{key_index, lemma_key_index, lemma_merge_list, merge, merge_fields, merge_list};
use crate::executor::synthetic_prefix;
use crate::plan::{apply, apply_list, apply_sites, collect, collect_list, collect_sites, extract, PathSegment};
use crate::validation::{
    check, check_fields, declares, error_text, first_unknown, lemma_check_fields_prefix, lookup,
    required_text, unknown_text, Schema, Type, TypeKind,
};
use crate::value::JValue;

verus! {

broadcast use vstd::seq::group_seq_axioms;

/// `r` keeps what `t` held: each non-null scalar of `t` stands unchanged at
/// the same place in `r`, each object entry keeps its key and position, and
/// each list keeps its length.
pub open spec fn keeps(t: JValue, r: JValue) -> bool
    decreases t, 0int,
{
    match t {
        JValue::Null => true,
        JValue::Object(o) => r is Object && o.len() <= r->Object_0.len() && fields_keep(o, r->Object_0),
        JValue::List(a) => r is List && r->List_0.len() == a.len() && items_keep(a, r->List_0),
        _ => r == t,
    }
}

/// `keeps` entry by entry over the entries of `o`.
pub open spec fn fields_keep(o: Seq<(Seq<char>, JValue)>, r: Seq<(Seq<char>, JValue)>) -> bool
    decreases o, 1int,
{
    if o.len() == 0 {
        true
    } else {
        fields_keep(o.drop_last(), r) && o.len() <= r.len() && field_kept(o[o.len() - 1], r[o.len() - 1])
    }
}

/// An entry keeps its key and `keeps` its value.
pub open spec fn field_kept(e: (Seq<char>, JValue), r: (Seq<char>, JValue)) -> bool
    decreases e, 0int,
{
    r.0 == e.0 && keeps(e.1, r.1)
}

/// `keeps` element by element over the elements of `a`.
pub open spec fn items_keep(a: Seq<JValue>, r: Seq<JValue>) -> bool
    decreases a, 1int,
{
    if a.len() == 0 {
        true
    } else {
        items_keep(a.drop_last(), r) && a.len() <= r.len() && keeps(a.last(), r[a.len() - 1])
    }
}

proof fn lemma_fields_keep(o: Seq<(Seq<char>, JValue)>, r: Seq<(Seq<char>, JValue)>)
    requires
        o.len() <= r.len(),
    ensures
        fields_keep(o, r) <==> forall|i: int|
            0 <= i < o.len() ==> #[trigger] field_kept(o[i], r[i]),
    decreases o.len(),
{
    if o.len() > 0 {
        let n = o.len() as int;
        let o2 = o.drop_last();
        lemma_fields_keep(o2, r);
        assert(forall|i: int| 0 <= i < n - 1 ==> o2[i] == o[i]);
        if fields_keep(o, r) {
            assert forall|i: int| 0 <= i < n implies #[trigger] field_kept(o[i], r[i]) by {
                if i < n - 1 {
                    assert(field_kept(o2[i], r[i]));
                }
            }
        }
        if forall|i: int| 0 <= i < n ==> #[trigger] field_kept(o[i], r[i]) {
            assert forall|i: int| 0 <= i < n - 1 implies #[trigger] field_kept(o2[i], r[i]) by {
                assert(field_kept(o[i], r[i]));
            }
            assert(field_kept(o[n - 1], r[n - 1]));
        }
    }
}

proof fn lemma_items_keep(a: Seq<JValue>, r: Seq<JValue>)
    requires
        a.len() <= r.len(),
    ensures
        items_keep(a, r) <==> forall|i: int| 0 <= i < a.len() ==> #[trigger] keeps(a[i], r[i]),
    decreases a.len(),
{
    if a.len() > 0 {
        let n = a.len() as int;
        let a2 = a.drop_last();
        lemma_items_keep(a2, r);
        if items_keep(a, r) {
            assert forall|i: int| 0 <= i < n implies #[trigger] keeps(a[i], r[i]) by {
                if i < n - 1 {
                    assert(a2[i] == a[i]);
                    assert(keeps(a2[i], r[i]));
                }
            }
        }
        if forall|i: int| 0 <= i < n ==> #[trigger] keeps(a[i], r[i]) {
            assert forall|i: int| 0 <= i < n - 1 implies #[trigger] keeps(a2[i], r[i]) by {
                assert(a2[i] == a[i]);
                assert(keeps(a[i], r[i]));
            }
            assert(keeps(a[n - 1], r[n - 1]));
        }
    }
}

proof fn lemma_keeps_refl(t: JValue)
    ensures
        keeps(t, t),
    decreases t,
{
    match t {
        JValue::Object(o) => {
            assert forall|i: int| 0 <= i < o.len() implies #[trigger] field_kept(o[i], o[i]) by {
                lemma_keeps_refl(o[i].1);
            }
            lemma_fields_keep(o, o);
        },
        JValue::List(a) => {
            assert forall|i: int| 0 <= i < a.len() implies #[trigger] keeps(a[i], a[i]) by {
                lemma_keeps_refl(a[i]);
            }
            lemma_items_keep(a, a);
        },
        _ => {},
    }
}

proof fn lemma_keeps_trans(a: JValue, b: JValue, c: JValue)
    requires
        keeps(a, b),
        keeps(b, c),
    ensures
        keeps(a, c),
    decreases a,
{
    match a {
        JValue::Object(o) => {
            let ob = b->Object_0;
            let oc = c->Object_0;
            lemma_fields_keep(o, ob);
            lemma_fields_keep(ob, oc);
            lemma_fields_keep(o, oc);
            assert forall|i: int| 0 <= i < o.len() implies #[trigger] field_kept(o[i], oc[i]) by {
                assert(field_kept(o[i], ob[i]));
                assert(field_kept(ob[i], oc[i]));
                lemma_keeps_trans(o[i].1, ob[i].1, oc[i].1);
            }
        },
        JValue::List(l) => {
            let lb = b->List_0;
            let lc = c->List_0;
            lemma_items_keep(l, lb);
            lemma_items_keep(lb, lc);
            lemma_items_keep(l, lc);
            assert forall|i: int| 0 <= i < l.len() implies #[trigger] keeps(l[i], lc[i]) by {
                assert(keeps(l[i], lb[i]));
                assert(keeps(lb[i], lc[i]));
                lemma_keeps_trans(l[i], lb[i], lc[i]);
            }
        },
        _ => {},
    }
}

proof fn lemma_merge_fields_keep(o: Seq<(Seq<char>, JValue)>, fo: Seq<(Seq<char>, JValue)>)
    ensures
        o.len() <= merge_fields(o, fo).len(),
        fields_keep(o, merge_fields(o, fo)),
    decreases fo,
{
    if fo.len() == 0 {
        lemma_keeps_refl(JValue::Object(o));
    } else {
        lemma_merge_fields_keep(o, fo.drop_last());
        let acc = merge_fields(o, fo.drop_last());
        lemma_fields_keep(o, acc);
        let (k, v) = fo.last();
        let i = key_index(acc, k);
        lemma_key_index(acc, k);
        let r = merge_fields(o, fo);
        if i >= 0 {
            merge_keeps_scalars(acc[i].1, v);
            assert forall|j: int| 0 <= j < o.len() implies #[trigger] field_kept(o[j], r[j]) by {
                assert(field_kept(o[j], acc[j]));
                if j == i {
                    lemma_keeps_trans(o[j].1, acc[j].1, r[j].1);
                }
            }
        } else {
            assert forall|j: int| 0 <= j < o.len() implies #[trigger] field_kept(o[j], r[j]) by {
                assert(field_kept(o[j], acc[j]));
            }
        }
        lemma_fields_keep(o, r);
    }
}

/// Merging never changes what the target already held: every non-null
/// scalar of the target stands unchanged at the same place afterwards, and
/// object entries and list lengths are kept.
pub proof fn merge_keeps_scalars(t: JValue, f: JValue)
    ensures
        keeps(t, merge(t, f)),
    decreases f,
{
    match t {
        JValue::Null => {},
        JValue::Object(o) => match f {
            JValue::Object(fo) => {
                lemma_merge_fields_keep(o, fo);
            },
            _ => lemma_keeps_refl(t),
        },
        JValue::List(a) => match f {
            JValue::List(b) => if a.len() == b.len() {
                lemma_merge_list(a, b);
                assert forall|i: int| 0 <= i < a.len() implies #[trigger] keeps(a[i], merge_list(a, b)[i]) by {
                    merge_keeps_scalars(a[i], b[i]);
                }
                lemma_items_keep(a, merge_list(a, b));
            } else {
                lemma_keeps_refl(t);
            },
            _ => lemma_keeps_refl(t),
        },
        _ => {},
    }
}

/// An entry whose key does not begin with `p`.
pub open spec fn unprefixed(e: (Seq<char>, JValue), p: Seq<char>) -> bool {
    !p.is_prefix_of(e.0)
}

/// A value that is no object, or an object none of whose keys begins with `p`.
pub open spec fn clean_value(v: JValue, p: Seq<char>) -> bool {
    match v {
        JValue::Object(o) => forall|j: int| 0 <= j < o.len() ==> #[trigger] unprefixed(o[j], p),
        _ => true,
    }
}

/// Every value that a walk along `path` from step `d` reaches at the last
/// step (as `collect` walks) holds no key that begins with `p`.
pub open spec fn swept(v: JValue, path: Seq<PathSegment>, d: int, p: Seq<char>) -> bool
    decreases path.len() - d, 0int,
{
    if d < 0 || d >= path.len() {
        true
    } else {
        match v {
            JValue::Object(o) => {
                let seg = path[d];
                let i = key_index(o, seg.name@);
                if i < 0 {
                    true
                } else {
                    let child = o[i].1;
                    let last = d == path.len() - 1;
                    if last && !seg.is_list {
                        clean_value(child, p)
                    } else if last {
                        match child {
                            JValue::List(arr) => forall|j: int| 0 <= j < arr.len() ==> #[trigger] clean_value(arr[j], p),
                            _ => true,
                        }
                    } else if !seg.is_list {
                        swept(child, path, d + 1, p)
                    } else {
                        match child {
                            JValue::List(arr) => swept_list(arr, path, d + 1, p),
                            _ => true,
                        }
                    }
                }
            },
            _ => true,
        }
    }
}

/// `swept` on each element of a list.
pub open spec fn swept_list(arr: Seq<JValue>, path: Seq<PathSegment>, d: int, p: Seq<char>) -> bool
    decreases path.len() - d, arr.len() + 1,
{
    if arr.len() == 0 || d < 0 || d > path.len() {
        true
    } else {
        swept_list(arr.drop_last(), path, d, p) && swept(arr.last(), path, d, p)
    }
}

proof fn lemma_extract_clean(o: Seq<(Seq<char>, JValue)>, p: Seq<char>)
    ensures
        forall|j: int| 0 <= j < extract(o, p).0.len() ==> #[trigger] unprefixed(extract(o, p).0[j], p),
    decreases o.len(),
{
    if o.len() > 0 {
        lemma_extract_clean(o.drop_last(), p);
        let prev = extract(o.drop_last(), p).0;
        let r = extract(o, p).0;
        assert forall|j: int| 0 <= j < r.len() implies #[trigger] unprefixed(r[j], p) by {
            if j < prev.len() {
                assert(r[j] == prev[j]);
                assert(unprefixed(prev[j], p));
            }
        }
    }
}

proof fn lemma_key_index_update(o: Seq<(Seq<char>, JValue)>, i: int, x: JValue, k: Seq<char>)
    requires
        0 <= i < o.len(),
    ensures
        key_index(o.update(i, (o[i].0, x)), k) == key_index(o, k),
{
    let o2 = o.update(i, (o[i].0, x));
    lemma_key_index(o, k);
    lemma_key_index(o2, k);
    assert(forall|j: int| 0 <= j < o.len() ==> #[trigger] o2[j].0 == o[j].0);
    let a = key_index(o, k);
    let b = key_index(o2, k);
    if a >= 0 {
        assert(o2[a].0 == k);
    }
    if b >= 0 {
        assert(o[b].0 == k);
    }
}

proof fn lemma_collect_sites_clean(arr: Seq<JValue>, p: Seq<char>)
    ensures
        collect_sites(arr, p).0.len() == arr.len(),
        forall|j: int| 0 <= j < arr.len() ==> #[trigger] clean_value(collect_sites(arr, p).0[j], p),
    decreases arr.len(),
{
    if arr.len() > 0 {
        lemma_collect_sites_clean(arr.drop_last(), p);
        let r = collect_sites(arr, p).0;
        let prev = collect_sites(arr.drop_last(), p).0;
        match arr.last() {
            JValue::Object(o) => {
                lemma_extract_clean(o, p);
            },
            _ => {},
        }
        assert forall|j: int| 0 <= j < arr.len() implies #[trigger] clean_value(r[j], p) by {
            if j < arr.len() - 1 {
                assert(r[j] == prev[j]);
            }
        }
    }
}

proof fn lemma_collect_list_swept(arr: Seq<JValue>, path: Seq<PathSegment>, d: int, p: Seq<char>)
    requires
        0 <= d <= path.len(),
    ensures
        collect_list(arr, path, d, p).0.len() == arr.len(),
        swept_list(collect_list(arr, path, d, p).0, path, d, p),
    decreases path.len() - d, arr.len() + 1,
{
    if arr.len() > 0 {
        lemma_collect_list_swept(arr.drop_last(), path, d, p);
        lemma_collect_swept(arr.last(), path, d, p);
        let r = collect_list(arr, path, d, p).0;
        assert(r.drop_last() =~= collect_list(arr.drop_last(), path, d, p).0);
    }
}

proof fn lemma_collect_swept(v: JValue, path: Seq<PathSegment>, d: int, p: Seq<char>)
    requires
        0 <= d,
    ensures
        swept(collect(v, path, d, p).0, path, d, p),
    decreases path.len() - d, 0int,
{
    if d < path.len() {
        match v {
            JValue::Object(o) => {
                let seg = path[d];
                let i = key_index(o, seg.name@);
                lemma_key_index(o, seg.name@);
                if i >= 0 {
                    let child = o[i].1;
                    let last = d == path.len() - 1;
                    let nc = match collect(v, path, d, p).0 {
                        JValue::Object(no) => no[i].1,
                        _ => child,
                    };
                    lemma_key_index_update(o, i, nc, seg.name@);
                    if last && !seg.is_list {
                        match child {
                            JValue::Object(ko) => lemma_extract_clean(ko, p),
                            _ => {},
                        }
                    } else if last {
                        match child {
                            JValue::List(arr) => lemma_collect_sites_clean(arr, p),
                            _ => {},
                        }
                    } else if !seg.is_list {
                        lemma_collect_swept(child, path, d + 1, p);
                    } else {
                        match child {
                            JValue::List(arr) => lemma_collect_list_swept(arr, path, d + 1, p),
                            _ => {},
                        }
                    }
                    assert(o.update(i, o[i]) =~= o);
                }
            },
            _ => {},
        }
    }
}

/// Collecting the representations of a flatten leaves, at every place that
/// the flatten visits, no key that begins with its synthetic prefix
/// `__key<prefix>_`.
pub proof fn collect_removes_synthetic_keys(v: JValue, path: Seq<PathSegment>, prefix: u32)
    ensures
        swept(collect(v, path, 0, synthetic_prefix(prefix as nat)).0, path, 0, synthetic_prefix(prefix as nat)),
{
    lemma_collect_swept(v, path, 0, synthetic_prefix(prefix as nat));
}

/// How many objects a walk along `path` from step `d` reaches at the last
/// step: the object under the last field, or each object of the list there.
pub open spec fn sites(v: JValue, path: Seq<PathSegment>, d: int) -> nat
    decreases path.len() - d, 0int,
{
    if d < 0 || d >= path.len() {
        0
    } else {
        match v {
            JValue::Object(o) => {
                let seg = path[d];
                let i = key_index(o, seg.name@);
                if i < 0 {
                    0
                } else {
                    let child = o[i].1;
                    let last = d == path.len() - 1;
                    if last && !seg.is_list {
                        if child is Object {
                            1
                        } else {
                            0
                        }
                    } else if last {
                        match child {
                            JValue::List(arr) => count_objects(arr),
                            _ => 0,
                        }
                    } else if !seg.is_list {
                        sites(child, path, d + 1)
                    } else {
                        match child {
                            JValue::List(arr) => sites_list(arr, path, d + 1),
                            _ => 0,
                        }
                    }
                }
            },
            _ => 0,
        }
    }
}

/// `sites` summed over the elements of a list.
pub open spec fn sites_list(arr: Seq<JValue>, path: Seq<PathSegment>, d: int) -> nat
    decreases path.len() - d, arr.len() + 1,
{
    if arr.len() == 0 || d < 0 || d > path.len() {
        0
    } else {
        sites_list(arr.drop_last(), path, d) + sites(arr.last(), path, d)
    }
}

/// How many elements of `arr` are objects.
pub open spec fn count_objects(arr: Seq<JValue>) -> nat
    decreases arr.len(),
{
    if arr.len() == 0 {
        0
    } else {
        count_objects(arr.drop_last()) + if arr.last() is Object {
            1nat
        } else {
            0nat
        }
    }
}

proof fn lemma_apply_sites_uses(arr: Seq<JValue>, ents: Seq<JValue>)
    requires
        count_objects(arr) <= ents.len(),
    ensures
        apply_sites(arr, ents).1 == ents.skip(count_objects(arr) as int),
    decreases arr.len(),
{
    if arr.len() == 0 {
        assert(ents.skip(0) =~= ents);
    } else {
        let c = count_objects(arr.drop_last());
        lemma_apply_sites_uses(arr.drop_last(), ents);
        if arr.last() is Object {
            assert(ents.skip(c as int).drop_first() =~= ents.skip(c as int + 1));
        }
    }
}

proof fn lemma_apply_list_uses(arr: Seq<JValue>, path: Seq<PathSegment>, d: int, ents: Seq<JValue>)
    requires
        0 <= d <= path.len(),
        sites_list(arr, path, d) <= ents.len(),
    ensures
        apply_list(arr, path, d, ents).1 == ents.skip(sites_list(arr, path, d) as int),
    decreases path.len() - d, arr.len() + 1,
{
    if arr.len() == 0 {
        assert(ents.skip(0) =~= ents);
    } else {
        let s1 = sites_list(arr.drop_last(), path, d);
        lemma_apply_list_uses(arr.drop_last(), path, d, ents);
        lemma_apply_uses(arr.last(), path, d, ents.skip(s1 as int));
        assert(ents.skip(s1 as int).skip(sites(arr.last(), path, d) as int) =~= ents.skip(sites_list(arr, path, d) as int));
    }
}

proof fn lemma_apply_uses(v: JValue, path: Seq<PathSegment>, d: int, ents: Seq<JValue>)
    requires
        0 <= d,
        sites(v, path, d) <= ents.len(),
    ensures
        apply(v, path, d, ents).1 == ents.skip(sites(v, path, d) as int),
    decreases path.len() - d, 0int,
{
    assert(ents.skip(0) =~= ents);
    if d < path.len() {
        match v {
            JValue::Object(o) => {
                let seg = path[d];
                let i = key_index(o, seg.name@);
                if i >= 0 {
                    let child = o[i].1;
                    let last = d == path.len() - 1;
                    if last && !seg.is_list {
                        assert(ents.drop_first() =~= ents.skip(1));
                        assert(ents.skip(0) =~= ents);
                    } else if last {
                        match child {
                            JValue::List(arr) => lemma_apply_sites_uses(arr, ents),
                            _ => {},
                        }
                    } else if !seg.is_list {
                        lemma_apply_uses(child, path, d + 1, ents);
                    } else {
                        match child {
                            JValue::List(arr) => lemma_apply_list_uses(arr, path, d + 1, ents),
                            _ => {},
                        }
                    }
                }
            },
            _ => {},
        }
    }
}

proof fn lemma_collect_sites_count(arr: Seq<JValue>, p: Seq<char>)
    ensures
        collect_sites(arr, p).0.len() == arr.len(),
        count_objects(collect_sites(arr, p).0) == collect_sites(arr, p).1.len(),
    decreases arr.len(),
{
    if arr.len() > 0 {
        lemma_collect_sites_count(arr.drop_last(), p);
        let r = collect_sites(arr, p).0;
        assert(r.drop_last() =~= collect_sites(arr.drop_last(), p).0);
    }
}

proof fn lemma_collect_list_count(arr: Seq<JValue>, path: Seq<PathSegment>, d: int, p: Seq<char>)
    requires
        0 <= d <= path.len(),
    ensures
        collect_list(arr, path, d, p).0.len() == arr.len(),
        sites_list(collect_list(arr, path, d, p).0, path, d) == collect_list(arr, path, d, p).1.len(),
    decreases path.len() - d, arr.len() + 1,
{
    if arr.len() > 0 {
        lemma_collect_list_count(arr.drop_last(), path, d, p);
        lemma_collect_count(arr.last(), path, d, p);
        let r = collect_list(arr, path, d, p).0;
        assert(r.drop_last() =~= collect_list(arr.drop_last(), path, d, p).0);
    }
}

proof fn lemma_collect_count(v: JValue, path: Seq<PathSegment>, d: int, p: Seq<char>)
    requires
        0 <= d,
    ensures
        sites(collect(v, path, d, p).0, path, d) == collect(v, path, d, p).1.len(),
    decreases path.len() - d, 0int,
{
    if d < path.len() {
        match v {
            JValue::Object(o) => {
                let seg = path[d];
                let i = key_index(o, seg.name@);
                lemma_key_index(o, seg.name@);
                if i >= 0 {
                    let child = o[i].1;
                    let last = d == path.len() - 1;
                    let nc = match collect(v, path, d, p).0 {
                        JValue::Object(no) => no[i].1,
                        _ => child,
                    };
                    lemma_key_index_update(o, i, nc, seg.name@);
                    if last && !seg.is_list {
                    } else if last {
                        match child {
                            JValue::List(arr) => lemma_collect_sites_count(arr, p),
                            _ => {},
                        }
                    } else if !seg.is_list {
                        lemma_collect_count(child, path, d + 1, p);
                    } else {
                        match child {
                            JValue::List(arr) => lemma_collect_list_count(arr, path, d + 1, p),
                            _ => {},
                        }
                    }
                    assert(o.update(i, o[i]) =~= o);
                }
            },
            _ => {},
        }
    }
}

/// Integrating entities into the data left by collecting the
/// representations uses exactly one entity per representation: as many
/// objects are merged into as representations were collected, and the
/// entities past them are left unused.
pub proof fn representations_match_sites(v: JValue, path: Seq<PathSegment>, prefix: u32, ents: Seq<JValue>)
    requires
        collect(v, path, 0, synthetic_prefix(prefix as nat)).1.len() <= ents.len(),
    ensures
        ({
            let (data, reps) = collect(v, path, 0, synthetic_prefix(prefix as nat));
            &&& sites(data, path, 0) == reps.len()
            &&& apply(data, path, 0, ents).1 == ents.skip(reps.len() as int)
        }),
{
    let p = synthetic_prefix(prefix as nat);
    lemma_collect_count(v, path, 0, p);
    lemma_apply_uses(collect(v, path, 0, p).0, path, 0, ents);
}

/// A value whose objects have unique keys, at every depth.
pub open spec fn wf(v: JValue) -> bool
    decreases v, 0int,
{
    match v {
        JValue::Object(o) => wf_fields(o),
        JValue::List(a) => wf_items(a),
        _ => true,
    }
}

pub open spec fn wf_fields(o: Seq<(Seq<char>, JValue)>) -> bool
    decreases o, 1int,
{
    if o.len() == 0 {
        true
    } else {
        wf_fields(o.drop_last()) && fresh_at(o, o.len() - 1)
    }
}

/// Entry `j` of `o` has a key that no earlier entry has, and a value that
/// satisfies `wf`.
pub open spec fn fresh_at(o: Seq<(Seq<char>, JValue)>, j: int) -> bool
    decreases o, 0int,
{
    0 <= j < o.len() && key_index(o.take(j), o[j].0) < 0 && wf(o[j].1)
}

pub open spec fn wf_items(a: Seq<JValue>) -> bool
    decreases a, 1int,
{
    if a.len() == 0 {
        true
    } else {
        wf_items(a.drop_last()) && wf(a[a.len() - 1])
    }
}

proof fn lemma_wf_fields(o: Seq<(Seq<char>, JValue)>)
    requires
        wf_fields(o),
    ensures
        forall|j: int| 0 <= j < o.len() ==> #[trigger] fresh_at(o, j),
    decreases o.len(),
{
    if o.len() > 0 {
        let o2 = o.drop_last();
        lemma_wf_fields(o2);
        assert forall|j: int| 0 <= j < o.len() implies #[trigger] fresh_at(o, j) by {
            if j < o.len() - 1 {
                assert(fresh_at(o2, j));
                assert(o2.take(j) =~= o.take(j));
                assert(o2[j] == o[j]);
            }
        }
    }
}

proof fn lemma_wf_items(a: Seq<JValue>)
    requires
        wf_items(a),
    ensures
        forall|j: int| 0 <= j < a.len() ==> #[trigger] wf(a[j]),
    decreases a.len(),
{
    if a.len() > 0 {
        let a2 = a.drop_last();
        lemma_wf_items(a2);
        assert forall|j: int| 0 <= j < a.len() implies #[trigger] wf(a[j]) by {
            if j < a.len() - 1 {
                assert(a2[j] == a[j]);
            }
        }
    }
}

/// The first entry named `k` in a well-formed object is the one at `j`.
proof fn lemma_fresh_index(o: Seq<(Seq<char>, JValue)>, j: int)
    requires
        fresh_at(o, j),
    ensures
        key_index(o, o[j].0) == j,
{
    let k = o[j].0;
    lemma_key_index(o.take(j), k);
    lemma_key_index(o, k);
    assert(forall|i: int| 0 <= i < j ==> o.take(j)[i] == o[i]);
    let x = key_index(o, k);
    if x >= 0 && x < j {
        assert(o.take(j)[x].0 == k);
    }
}

proof fn lemma_key_index_push(acc: Seq<(Seq<char>, JValue)>, e: (Seq<char>, JValue), k: Seq<char>)
    ensures
        key_index(acc, k) >= 0 ==> key_index(acc.push(e), k) == key_index(acc, k),
        key_index(acc, k) < 0 && e.0 == k ==> key_index(acc.push(e), k) == acc.len(),
{
    assert(acc.push(e).drop_last() =~= acc);
}

proof fn lemma_self_fields(fo: Seq<(Seq<char>, JValue)>, m: int)
    requires
        wf_fields(fo),
        0 <= m <= fo.len(),
    ensures
        merge_fields(fo, fo.take(m)) == fo,
    decreases fo, m,
{
    lemma_wf_fields(fo);
    if m == 0 {
        assert(fo.take(0) =~= Seq::<(Seq<char>, JValue)>::empty());
    } else {
        lemma_self_fields(fo, m - 1);
        assert(fo.take(m).drop_last() =~= fo.take(m - 1));
        assert(fresh_at(fo, m - 1));
        lemma_fresh_index(fo, m - 1);
        assert(decreases_to!(fo => fo[m - 1]));
        merge_self(fo[m - 1].1);
        assert(fo.update(m - 1, (fo[m - 1].0, merge(fo[m - 1].1, fo[m - 1].1))) =~= fo);
    }
}

/// A well-formed value merged into itself stays as it is.
proof fn merge_self(f: JValue)
    requires
        wf(f),
    ensures
        merge(f, f) == f,
    decreases f, 0int,
{
    match f {
        JValue::Object(fo) => {
            lemma_self_fields(fo, fo.len() as int);
            assert(fo.take(fo.len() as int) =~= fo);
        },
        JValue::List(b) => {
            lemma_wf_items(b);
            lemma_merge_list(b, b);
            assert forall|i: int| 0 <= i < b.len() implies merge_list(b, b)[i] == b[i] by {
                merge_self(b[i]);
            }
            assert(merge_list(b, b) =~= b);
        },
        _ => {},
    }
}

/// After the first `m` entries of `fo` are merged into `o`, each of them is
/// absorbed: merging it again changes nothing.
pub open spec fn absorbed(r: Seq<(Seq<char>, JValue)>, fo: Seq<(Seq<char>, JValue)>, j: int) -> bool {
    let i = key_index(r, fo[j].0);
    i >= 0 && merge(r[i].1, fo[j].1) == r[i].1
}

proof fn lemma_first_pass(o: Seq<(Seq<char>, JValue)>, fo: Seq<(Seq<char>, JValue)>, m: int)
    requires
        wf_fields(fo),
        0 <= m <= fo.len(),
    ensures
        forall|j: int| 0 <= j < m ==> #[trigger] absorbed(merge_fields(o, fo.take(m)), fo, j),
    decreases fo, m,
{
    lemma_wf_fields(fo);
    if m > 0 {
        lemma_first_pass(o, fo, m - 1);
        assert(fo.take(m).drop_last() =~= fo.take(m - 1));
        let acc = merge_fields(o, fo.take(m - 1));
        let r = merge_fields(o, fo.take(m));
        let (k, v) = fo[m - 1];
        assert(fo.take(m).last() == fo[m - 1]);
        let im = key_index(acc, k);
        lemma_key_index(acc, k);
        assert(fresh_at(fo, m - 1));
        lemma_key_index(fo.take(m - 1), k);
        assert(decreases_to!(fo => fo[m - 1]));
        assert forall|j: int| 0 <= j < m implies #[trigger] absorbed(r, fo, j) by {
            if j < m - 1 {
                assert(absorbed(acc, fo, j));
                assert(fo.take(m - 1)[j] == fo[j]);
                assert(fo[j].0 != k);
                let ij = key_index(acc, fo[j].0);
                lemma_key_index(acc, fo[j].0);
                if im >= 0 {
                    lemma_key_index_update(acc, im, merge(acc[im].1, v), fo[j].0);
                    assert(ij != im);
                } else {
                    lemma_key_index_push(acc, (k, v), fo[j].0);
                }
            } else {
                if im >= 0 {
                    lemma_key_index_update(acc, im, merge(acc[im].1, v), k);
                    merge_idempotent(acc[im].1, v);
                } else {
                    lemma_key_index_push(acc, (k, v), k);
                    merge_self(v);
                }
            }
        }
    }
}

proof fn lemma_second_pass(r: Seq<(Seq<char>, JValue)>, fo: Seq<(Seq<char>, JValue)>, m: int)
    requires
        0 <= m <= fo.len(),
        forall|j: int| 0 <= j < fo.len() ==> #[trigger] absorbed(r, fo, j),
    ensures
        merge_fields(r, fo.take(m)) == r,
    decreases m,
{
    if m == 0 {
        assert(fo.take(0) =~= Seq::<(Seq<char>, JValue)>::empty());
    } else {
        lemma_second_pass(r, fo, m - 1);
        assert(fo.take(m).drop_last() =~= fo.take(m - 1));
        assert(fo.take(m).last() == fo[m - 1]);
        assert(absorbed(r, fo, m - 1));
        let i = key_index(r, fo[m - 1].0);
        lemma_key_index(r, fo[m - 1].0);
        assert(r.update(i, (r[i].0, r[i].1)) =~= r);
    }
}

/// Merging the same well-formed fragment twice gives what merging it once
/// gives.
pub proof fn merge_idempotent(t: JValue, f: JValue)
    requires
        wf(f),
    ensures
        merge(merge(t, f), f) == merge(t, f),
    decreases f, 1int,
{
    match t {
        JValue::Null => merge_self(f),
        JValue::Object(o) => match f {
            JValue::Object(fo) => {
                lemma_first_pass(o, fo, fo.len() as int);
                assert(fo.take(fo.len() as int) =~= fo);
                lemma_second_pass(merge_fields(o, fo), fo, fo.len() as int);
            },
            _ => {},
        },
        JValue::List(a) => match f {
            JValue::List(b) => if a.len() == b.len() {
                lemma_wf_items(b);
                lemma_merge_list(a, b);
                let r = merge_list(a, b);
                lemma_merge_list(r, b);
                assert forall|i: int| 0 <= i < b.len() implies merge_list(r, b)[i] == r[i] by {
                    merge_idempotent(a[i], b[i]);
                }
                assert(merge_list(r, b) =~= r);
            },
            _ => {},
        },
        _ => {},
    }
}

/// The value of the first entry named `k`, if any.
pub open spec fn value_at(o: Seq<(Seq<char>, JValue)>, k: Seq<char>) -> Option<JValue> {
    let i = key_index(o, k);
    if i >= 0 && i < o.len() {
        Some(o[i].1)
    } else {
        None
    }
}

/// The entry named `k` of an object value, if any.
pub open spec fn entry(v: JValue, k: Seq<char>) -> Option<JValue> {
    match v {
        JValue::Object(o) => value_at(o, k),
        _ => None,
    }
}

pub open spec fn or_null(x: Option<JValue>) -> JValue {
    match x {
        Some(v) => v,
        None => JValue::Null,
    }
}

proof fn lemma_key_index_push_other(acc: Seq<(Seq<char>, JValue)>, e: (Seq<char>, JValue), k: Seq<char>)
    requires
        e.0 != k,
    ensures
        key_index(acc.push(e), k) == key_index(acc, k),
{
    assert(acc.push(e).drop_last() =~= acc);
}

/// What `merge_fields` does, key by key, for a fragment with unique keys.
proof fn lemma_merge_fields_entries(o: Seq<(Seq<char>, JValue)>, fo: Seq<(Seq<char>, JValue)>, m: int, k: Seq<char>)
    requires
        wf_fields(fo),
        0 <= m <= fo.len(),
    ensures
        value_at(merge_fields(o, fo.take(m)), k) == match value_at(fo.take(m), k) {
            Some(v) => Some(merge(or_null(value_at(o, k)), v)),
            None => value_at(o, k),
        },
    decreases m,
{
    lemma_wf_fields(fo);
    if m == 0 {
        assert(fo.take(0) =~= Seq::<(Seq<char>, JValue)>::empty());
    } else {
        lemma_merge_fields_entries(o, fo, m - 1, k);
        let prev = fo.take(m - 1);
        assert(fo.take(m).drop_last() =~= prev);
        assert(fo.take(m) =~= prev.push(fo[m - 1]));
        let acc = merge_fields(o, prev);
        let (km, vm) = fo[m - 1];
        assert(fo.take(m).last() == fo[m - 1]);
        assert(fresh_at(fo, m - 1));
        lemma_key_index(merge_fields(o, fo.take(m)), k);
        lemma_key_index(prev, k);
        lemma_key_index(fo.take(m), k);
        let im = key_index(acc, km);
        lemma_key_index(acc, km);
        lemma_key_index(acc, k);
        lemma_key_index(o, k);
        if k == km {
            lemma_key_index_push(prev, fo[m - 1], k);
            lemma_key_index(prev.push(fo[m - 1]), k);
            if im >= 0 {
                lemma_key_index_update(acc, im, merge(acc[im].1, vm), k);
            } else {
                lemma_key_index_push(acc, (km, vm), k);
            }
        } else {
            lemma_key_index_push_other(prev, fo[m - 1], k);
            let ik = key_index(acc, k);
            if im >= 0 {
                lemma_key_index_update(acc, im, merge(acc[im].1, vm), k);
                if ik >= 0 {
                    assert(ik != im);
                }
            } else {
                lemma_key_index_push_other(acc, (km, vm), k);
            }
        }
    }
}

proof fn lemma_entries(o: Seq<(Seq<char>, JValue)>, fo: Seq<(Seq<char>, JValue)>, k: Seq<char>)
    requires
        wf_fields(fo),
    ensures
        value_at(merge_fields(o, fo), k) == match value_at(fo, k) {
            Some(v) => Some(merge(or_null(value_at(o, k)), v)),
            None => value_at(o, k),
        },
{
    assert(fo.take(fo.len() as int) =~= fo);
    lemma_merge_fields_entries(o, fo, fo.len() as int, k);
}

/// Two values that are equal up to the order of object entries: objects
/// hold the same keys, with `same` values under each.
pub open spec fn same(a: JValue, b: JValue) -> bool
    decreases a, 2int,
{
    match a {
        JValue::Object(o) => b is Object && same_fields(o, b->Object_0) && covers(o, b->Object_0),
        JValue::List(x) => b is List && b->List_0.len() == x.len() && same_items(x, b->List_0),
        _ => a == b,
    }
}

/// Every key of `ob` is a key of `o`.
pub open spec fn covers(o: Seq<(Seq<char>, JValue)>, ob: Seq<(Seq<char>, JValue)>) -> bool {
    forall|k: Seq<char>| #[trigger] key_index(ob, k) >= 0 ==> key_index(o, k) >= 0
}

pub open spec fn same_fields(o: Seq<(Seq<char>, JValue)>, ob: Seq<(Seq<char>, JValue)>) -> bool
    decreases o, 1int,
{
    if o.len() == 0 {
        true
    } else {
        same_fields(o.drop_last(), ob) && entry_same(o, o.len() - 1, ob)
    }
}

/// Entry `j` of `o`, where it is the first of its key, has a `same` value
/// under that key in `ob`.
pub open spec fn entry_same(o: Seq<(Seq<char>, JValue)>, j: int, ob: Seq<(Seq<char>, JValue)>) -> bool
    decreases o, 0int,
{
    0 <= j < o.len() && (key_index(o, o[j].0) != j || (value_at(ob, o[j].0) is Some && same(
        o[j].1,
        value_at(ob, o[j].0)->Some_0,
    )))
}

pub open spec fn same_items(x: Seq<JValue>, y: Seq<JValue>) -> bool
    decreases x, 1int,
{
    if x.len() == 0 {
        true
    } else {
        same_items(x.drop_last(), y) && x.len() <= y.len() && same(x[x.len() - 1], y[x.len() - 1])
    }
}

/// Two fragments whose leaf paths are disjoint: two objects where, under
/// each key that both hold, the values are again disjoint; or two lists of
/// equal length whose elements are disjoint pairwise.
pub open spec fn disjoint(a: JValue, b: JValue) -> bool
    decreases a, 2int,
{
    match a {
        JValue::Object(oa) => match b {
            JValue::Object(ob) => disjoint_fields(oa, ob),
            _ => false,
        },
        JValue::List(la) => match b {
            JValue::List(lb) => la.len() == lb.len() && disjoint_items(la, lb),
            _ => false,
        },
        _ => false,
    }
}

pub open spec fn disjoint_items(x: Seq<JValue>, y: Seq<JValue>) -> bool
    decreases x, 1int,
{
    if x.len() == 0 {
        true
    } else {
        disjoint_items(x.drop_last(), y) && x.len() <= y.len() && disjoint(x[x.len() - 1], y[x.len() - 1])
    }
}

proof fn lemma_disjoint_items(x: Seq<JValue>, y: Seq<JValue>)
    requires
        disjoint_items(x, y),
    ensures
        forall|i: int| 0 <= i < x.len() ==> #[trigger] disjoint(x[i], y[i]),
    decreases x.len(),
{
    if x.len() > 0 {
        let x2 = x.drop_last();
        lemma_disjoint_items(x2, y);
        assert forall|i: int| 0 <= i < x.len() implies #[trigger] disjoint(x[i], y[i]) by {
            if i < x.len() - 1 {
                assert(x2[i] == x[i]);
                assert(disjoint(x2[i], y[i]));
            }
        }
    }
}

pub open spec fn disjoint_fields(oa: Seq<(Seq<char>, JValue)>, ob: Seq<(Seq<char>, JValue)>) -> bool
    decreases oa, 1int,
{
    if oa.len() == 0 {
        true
    } else {
        disjoint_fields(oa.drop_last(), ob) && entry_disjoint(oa, oa.len() - 1, ob)
    }
}

pub open spec fn entry_disjoint(oa: Seq<(Seq<char>, JValue)>, j: int, ob: Seq<(Seq<char>, JValue)>) -> bool
    decreases oa, 0int,
{
    0 <= j < oa.len() && (value_at(ob, oa[j].0) is None || disjoint(oa[j].1, value_at(ob, oa[j].0)->Some_0))
}

proof fn lemma_same_fields(o: Seq<(Seq<char>, JValue)>, ob: Seq<(Seq<char>, JValue)>)
    requires
        forall|k: Seq<char>|
            #[trigger] key_index(o, k) >= 0 ==> value_at(ob, k) is Some && same(
                value_at(o, k)->Some_0,
                value_at(ob, k)->Some_0,
            ),
    ensures
        same_fields(o, ob),
    decreases o.len(),
{
    if o.len() > 0 {
        let n = o.len() as int;
        let o2 = o.drop_last();
        assert(o.drop_last() == o2);
        assert forall|k: Seq<char>| #[trigger] key_index(o2, k) >= 0 implies value_at(ob, k) is Some && same(
            value_at(o2, k)->Some_0,
            value_at(ob, k)->Some_0,
        ) by {
            lemma_key_index(o2, k);
            assert(key_index(o, k) == key_index(o2, k));
            assert(o2[key_index(o2, k)] == o[key_index(o2, k)]);
        }
        lemma_same_fields(o2, ob);
        let k = o[n - 1].0;
        lemma_key_index(o, k);
        if key_index(o, k) == n - 1 {
            assert(key_index(o, k) >= 0);
            assert(value_at(o, k) == Some(o[n - 1].1));
        }
        assert(entry_same(o, n - 1, ob));
    }
}

proof fn lemma_same_items(x: Seq<JValue>, y: Seq<JValue>)
    requires
        x.len() <= y.len(),
        forall|i: int| 0 <= i < x.len() ==> #[trigger] same(x[i], y[i]),
    ensures
        same_items(x, y),
    decreases x.len(),
{
    if x.len() > 0 {
        let x2 = x.drop_last();
        assert forall|i: int| 0 <= i < x2.len() implies #[trigger] same(x2[i], y[i]) by {
            assert(x2[i] == x[i]);
        }
        lemma_same_items(x2, y);
        assert(same(x[x.len() - 1], y[x.len() - 1]));
    }
}

proof fn lemma_disjoint_fields(oa: Seq<(Seq<char>, JValue)>, ob: Seq<(Seq<char>, JValue)>)
    requires
        disjoint_fields(oa, ob),
    ensures
        forall|j: int| 0 <= j < oa.len() ==> #[trigger] entry_disjoint(oa, j, ob),
    decreases oa.len(),
{
    if oa.len() > 0 {
        let o2 = oa.drop_last();
        lemma_disjoint_fields(o2, ob);
        assert forall|j: int| 0 <= j < oa.len() implies #[trigger] entry_disjoint(oa, j, ob) by {
            if j < oa.len() - 1 {
                assert(entry_disjoint(o2, j, ob));
                assert(o2[j] == oa[j]);
            }
        }
    }
}

/// Every value is `same` as itself.
pub proof fn same_refl(v: JValue)
    ensures
        same(v, v),
    decreases v,
{
    match v {
        JValue::Object(o) => {
            assert forall|k: Seq<char>| #[trigger] key_index(o, k) >= 0 implies value_at(o, k) is Some && same(
                value_at(o, k)->Some_0,
                value_at(o, k)->Some_0,
            ) by {
                lemma_key_index(o, k);
                let i = key_index(o, k);
                assert(decreases_to!(o => o[i]));
                same_refl(o[i].1);
            }
            lemma_same_fields(o, o);
        },
        JValue::List(x) => {
            assert forall|i: int| 0 <= i < x.len() implies #[trigger] same(x[i], x[i]) by {
                same_refl(x[i]);
            }
            lemma_same_items(x, x);
        },
        _ => {},
    }
}

proof fn merge_commutes_on_disjoint_lists(t: JValue, f1: JValue, f2: JValue)
    requires
        f1 is List,
        wf(f1),
        wf(f2),
        disjoint(f1, f2),
    ensures
        same(merge(merge(t, f1), f2), merge(merge(t, f2), f1)),
    decreases f1, 0int,
{
    let l1 = f1->List_0;
    let l2 = f2->List_0;
    let n = l1.len();
    lemma_disjoint_items(l1, l2);
    lemma_wf_items(l1);
    lemma_wf_items(l2);
    match t {
        JValue::Null => {
            let r12 = merge_list(l1, l2);
            let r21 = merge_list(l2, l1);
            lemma_merge_list(l1, l2);
            lemma_merge_list(l2, l1);
            assert forall|i: int| 0 <= i < n implies #[trigger] same(r12[i], r21[i]) by {
                assert(decreases_to!(f1 => l1));
                assert(decreases_to!(l1 => l1[i]));
                merge_commutes_on_disjoint_paths(JValue::Null, l1[i], l2[i]);
            }
            lemma_same_items(r12, r21);
        },
        JValue::List(a) => {
            if a.len() == n {
                let r1 = merge_list(a, l1);
                let r2 = merge_list(a, l2);
                lemma_merge_list(a, l1);
                lemma_merge_list(a, l2);
                let r12 = merge_list(r1, l2);
                let r21 = merge_list(r2, l1);
                lemma_merge_list(r1, l2);
                lemma_merge_list(r2, l1);
                assert forall|i: int| 0 <= i < n implies #[trigger] same(r12[i], r21[i]) by {
                    assert(decreases_to!(f1 => l1));
                    assert(decreases_to!(l1 => l1[i]));
                    merge_commutes_on_disjoint_paths(a[i], l1[i], l2[i]);
                }
                lemma_same_items(r12, r21);
            } else {
                same_refl(t);
            }
        },
        _ => {
            same_refl(t);
        },
    }
}

/// Merging two fragments whose leaf paths are disjoint gives the same value,
/// up to the order of object entries, in either order.
pub proof fn merge_commutes_on_disjoint_paths(t: JValue, f1: JValue, f2: JValue)
    requires
        wf(f1),
        wf(f2),
        disjoint(f1, f2),
    ensures
        same(merge(merge(t, f1), f2), merge(merge(t, f2), f1)),
    decreases f1, 1int,
{
    if f1 is List {
        merge_commutes_on_disjoint_lists(t, f1, f2);
    } else {
        merge_commutes_on_disjoint_objects(t, f1, f2);
    }
}

proof fn merge_commutes_on_disjoint_objects(t: JValue, f1: JValue, f2: JValue)
    requires
        f1 is Object,
        wf(f1),
        wf(f2),
        disjoint(f1, f2),
    ensures
        same(merge(merge(t, f1), f2), merge(merge(t, f2), f1)),
    decreases f1, 0int,
{
    let fo1 = f1->Object_0;
    let fo2 = f2->Object_0;
    lemma_disjoint_fields(fo1, fo2);
    lemma_wf_fields(fo1);
    lemma_wf_fields(fo2);
    match t {
        JValue::Object(o) => {
            let r1 = merge_fields(o, fo1);
            let r2 = merge_fields(o, fo2);
            let r12 = merge_fields(r1, fo2);
            let r21 = merge_fields(r2, fo1);
            assert forall|k: Seq<char>| #[trigger] key_index(r12, k) >= 0 implies value_at(r21, k) is Some && same(
                value_at(r12, k)->Some_0,
                value_at(r21, k)->Some_0,
            ) by {
                lemma_key_index(r12, k);
                lemma_entries(o, fo1, k);
                lemma_entries(o, fo2, k);
                lemma_entries(r1, fo2, k);
                lemma_entries(r2, fo1, k);
                lemma_key_index(fo1, k);
                lemma_key_index(fo2, k);
                let i1 = key_index(fo1, k);
                let x = or_null(value_at(o, k));
                if value_at(fo1, k) is Some && value_at(fo2, k) is Some {
                    assert(entry_disjoint(fo1, i1, fo2));
                    assert(fresh_at(fo1, i1));
                    assert(fresh_at(fo2, key_index(fo2, k)));
                    assert(decreases_to!(fo1 => fo1[i1]));
                    merge_commutes_on_disjoint_paths(x, fo1[i1].1, value_at(fo2, k)->Some_0);
                } else {
                    same_refl(value_at(r12, k)->Some_0);
                }
            }
            lemma_same_fields(r12, r21);
            assert forall|k: Seq<char>| #[trigger] key_index(r21, k) >= 0 implies key_index(r12, k) >= 0 by {
                lemma_key_index(r12, k);
                lemma_key_index(r21, k);
                lemma_entries(o, fo1, k);
                lemma_entries(o, fo2, k);
                lemma_entries(r1, fo2, k);
                lemma_entries(r2, fo1, k);
            }
        },
        JValue::Null => {
            let r12 = merge_fields(fo1, fo2);
            let r21 = merge_fields(fo2, fo1);
            assert forall|k: Seq<char>| #[trigger] key_index(r12, k) >= 0 implies value_at(r21, k) is Some && same(
                value_at(r12, k)->Some_0,
                value_at(r21, k)->Some_0,
            ) by {
                lemma_key_index(r12, k);
                lemma_entries(fo1, fo2, k);
                lemma_entries(fo2, fo1, k);
                lemma_key_index(fo1, k);
                lemma_key_index(fo2, k);
                let i1 = key_index(fo1, k);
                if value_at(fo1, k) is Some && value_at(fo2, k) is Some {
                    assert(entry_disjoint(fo1, i1, fo2));
                    assert(fresh_at(fo1, i1));
                    assert(fresh_at(fo2, key_index(fo2, k)));
                    assert(decreases_to!(fo1 => fo1[i1]));
                    merge_commutes_on_disjoint_paths(JValue::Null, fo1[i1].1, value_at(fo2, k)->Some_0);
                } else {
                    same_refl(value_at(r12, k)->Some_0);
                }
            }
            lemma_same_fields(r12, r21);
            assert forall|k: Seq<char>| #[trigger] key_index(r21, k) >= 0 implies key_index(r12, k) >= 0 by {
                lemma_key_index(r12, k);
                lemma_key_index(r21, k);
                lemma_entries(fo1, fo2, k);
                lemma_entries(fo2, fo1, k);
            }
        },
        _ => {
            same_refl(t);
        },
    }
}

/// Every value of `s` is `clean_value`.
pub open spec fn all_clean(s: Seq<JValue>, p: Seq<char>) -> bool {
    forall|j: int| 0 <= j < s.len() ==> #[trigger] clean_value(s[j], p)
}

proof fn lemma_merge_fields_unprefixed(o: Seq<(Seq<char>, JValue)>, fo: Seq<(Seq<char>, JValue)>, p: Seq<char>)
    requires
        forall|j: int| 0 <= j < o.len() ==> #[trigger] unprefixed(o[j], p),
        forall|j: int| 0 <= j < fo.len() ==> #[trigger] unprefixed(fo[j], p),
    ensures
        forall|j: int| 0 <= j < merge_fields(o, fo).len() ==> #[trigger] unprefixed(merge_fields(o, fo)[j], p),
    decreases fo.len(),
{
    if fo.len() > 0 {
        let f2 = fo.drop_last();
        assert forall|j: int| 0 <= j < f2.len() implies #[trigger] unprefixed(f2[j], p) by {
            assert(f2[j] == fo[j]);
        }
        lemma_merge_fields_unprefixed(o, f2, p);
        let acc = merge_fields(o, f2);
        let r = merge_fields(o, fo);
        let (k, v) = fo.last();
        assert(unprefixed(fo[fo.len() - 1], p));
        let i = key_index(acc, k);
        lemma_key_index(acc, k);
        assert forall|j: int| 0 <= j < r.len() implies #[trigger] unprefixed(r[j], p) by {
            if j < acc.len() {
                assert(unprefixed(acc[j], p));
                assert(r[j].0 == acc[j].0);
            }
        }
    }
}

proof fn lemma_merge_clean(t: JValue, e: JValue, p: Seq<char>)
    requires
        clean_value(t, p),
        clean_value(e, p),
    ensures
        clean_value(merge(t, e), p),
{
    match t {
        JValue::Object(o) => match e {
            JValue::Object(eo) => {
                lemma_merge_fields_unprefixed(o, eo, p);
                assert(merge(t, e) == JValue::Object(merge_fields(o, eo)));
            },
            _ => {},
        },
        _ => {},
    }
}

proof fn lemma_apply_sites_clean(arr: Seq<JValue>, ents: Seq<JValue>, p: Seq<char>)
    requires
        all_clean(arr, p),
        all_clean(ents, p),
    ensures
        apply_sites(arr, ents).0.len() == arr.len(),
        all_clean(apply_sites(arr, ents).0, p),
        all_clean(apply_sites(arr, ents).1, p),
    decreases arr.len(),
{
    if arr.len() > 0 {
        let a2 = arr.drop_last();
        assert forall|j: int| 0 <= j < a2.len() implies #[trigger] clean_value(a2[j], p) by {
            assert(a2[j] == arr[j]);
        }
        lemma_apply_sites_clean(a2, ents, p);
        let (na, rest) = apply_sites(a2, ents);
        assert(clean_value(arr[arr.len() - 1], p));
        if rest.len() > 0 {
            assert(clean_value(rest[0], p));
            lemma_merge_clean(arr.last(), rest[0], p);
            assert forall|j: int| 0 <= j < rest.drop_first().len() implies #[trigger] clean_value(rest.drop_first()[j], p) by {
                assert(rest.drop_first()[j] == rest[j + 1]);
            }
        }
        let r = apply_sites(arr, ents).0;
        assert forall|j: int| 0 <= j < r.len() implies #[trigger] clean_value(r[j], p) by {
            if j < na.len() {
                assert(r[j] == na[j]);
            }
        }
    }
}

proof fn lemma_apply_list_swept(arr: Seq<JValue>, path: Seq<PathSegment>, d: int, ents: Seq<JValue>, p: Seq<char>)
    requires
        0 <= d <= path.len(),
        swept_list(arr, path, d, p),
        all_clean(ents, p),
    ensures
        apply_list(arr, path, d, ents).0.len() == arr.len(),
        swept_list(apply_list(arr, path, d, ents).0, path, d, p),
        all_clean(apply_list(arr, path, d, ents).1, p),
    decreases path.len() - d, arr.len() + 1,
{
    if arr.len() > 0 {
        lemma_apply_list_swept(arr.drop_last(), path, d, ents, p);
        let rest = apply_list(arr.drop_last(), path, d, ents).1;
        lemma_apply_swept(arr.last(), path, d, rest, p);
        let r = apply_list(arr, path, d, ents).0;
        assert(r.drop_last() =~= apply_list(arr.drop_last(), path, d, ents).0);
    }
}

proof fn lemma_apply_swept(v: JValue, path: Seq<PathSegment>, d: int, ents: Seq<JValue>, p: Seq<char>)
    requires
        0 <= d,
        swept(v, path, d, p),
        all_clean(ents, p),
    ensures
        swept(apply(v, path, d, ents).0, path, d, p),
        all_clean(apply(v, path, d, ents).1, p),
    decreases path.len() - d, 0int,
{
    if d < path.len() {
        match v {
            JValue::Object(o) => {
                let seg = path[d];
                let i = key_index(o, seg.name@);
                lemma_key_index(o, seg.name@);
                if i >= 0 {
                    let child = o[i].1;
                    let last = d == path.len() - 1;
                    let nc = match apply(v, path, d, ents).0 {
                        JValue::Object(no) => no[i].1,
                        _ => child,
                    };
                    lemma_key_index_update(o, i, nc, seg.name@);
                    if last && !seg.is_list {
                        if ents.len() > 0 {
                            assert(clean_value(ents[0], p));
                            lemma_merge_clean(child, ents[0], p);
                            assert forall|j: int| 0 <= j < ents.drop_first().len() implies #[trigger] clean_value(ents.drop_first()[j], p) by {
                                assert(ents.drop_first()[j] == ents[j + 1]);
                            }
                        }
                    } else if last {
                        match child {
                            JValue::List(arr) => lemma_apply_sites_clean(arr, ents, p),
                            _ => {},
                        }
                    } else if !seg.is_list {
                        lemma_apply_swept(child, path, d + 1, ents, p);
                    } else {
                        match child {
                            JValue::List(arr) => lemma_apply_list_swept(arr, path, d + 1, ents, p),
                            _ => {},
                        }
                    }
                    assert(o.update(i, o[i]) =~= o);
                }
            },
            _ => {},
        }
    }
}

/// A complete flatten (collecting the representations, then merging in the
/// entities returned for them) leaves, at every place that it visits, no key
/// that begins with its synthetic prefix, as long as the entities themselves
/// hold no such key at their top level.
pub proof fn flatten_leaves_no_synthetic_keys(v: JValue, path: Seq<PathSegment>, prefix: u32, ents: Seq<JValue>)
    requires
        all_clean(ents, synthetic_prefix(prefix as nat)),
    ensures
        swept(
            apply(collect(v, path, 0, synthetic_prefix(prefix as nat)).0, path, 0, ents).0,
            path,
            0,
            synthetic_prefix(prefix as nat),
        ),
{
    let p = synthetic_prefix(prefix as nat);
    lemma_collect_swept(v, path, 0, p);
    lemma_apply_swept(collect(v, path, 0, p).0, path, 0, ents, p);
}

proof fn lemma_wf_fields_from(o: Seq<(Seq<char>, JValue)>)
    requires
        forall|j: int| 0 <= j < o.len() ==> #[trigger] fresh_at(o, j),
    ensures
        wf_fields(o),
    decreases o.len(),
{
    if o.len() > 0 {
        let o2 = o.drop_last();
        assert forall|j: int| 0 <= j < o2.len() implies #[trigger] fresh_at(o2, j) by {
            assert(fresh_at(o, j));
            assert(o2.take(j) =~= o.take(j));
            assert(o2[j] == o[j]);
        }
        lemma_wf_fields_from(o2);
        assert(fresh_at(o, o.len() - 1));
    }
}

proof fn lemma_wf_items_from(a: Seq<JValue>)
    requires
        forall|j: int| 0 <= j < a.len() ==> #[trigger] wf(a[j]),
    ensures
        wf_items(a),
    decreases a.len(),
{
    if a.len() > 0 {
        let a2 = a.drop_last();
        assert forall|j: int| 0 <= j < a2.len() implies #[trigger] wf(a2[j]) by {
            assert(a2[j] == a[j]);
        }
        lemma_wf_items_from(a2);
        assert(wf(a[a.len() - 1]));
    }
}

proof fn lemma_merge_fields_wf(o: Seq<(Seq<char>, JValue)>, fo: Seq<(Seq<char>, JValue)>)
    requires
        wf_fields(o),
        wf_fields(fo),
    ensures
        wf_fields(merge_fields(o, fo)),
    decreases fo,
{
    if fo.len() > 0 {
        let f2 = fo.drop_last();
        lemma_wf_fields(fo);
        assert forall|j: int| 0 <= j < f2.len() implies #[trigger] fresh_at(f2, j) by {
            assert(fresh_at(fo, j));
            assert(f2.take(j) =~= fo.take(j));
            assert(f2[j] == fo[j]);
        }
        lemma_wf_fields_from(f2);
        lemma_merge_fields_wf(o, f2);
        let acc = merge_fields(o, f2);
        lemma_wf_fields(acc);
        let r = merge_fields(o, fo);
        let (k, v) = fo.last();
        assert(fresh_at(fo, fo.len() - 1));
        assert(decreases_to!(fo => fo[fo.len() - 1]));
        let i = key_index(acc, k);
        lemma_key_index(acc, k);
        if i >= 0 {
            assert(fresh_at(acc, i));
            merge_preserves_wf(acc[i].1, v);
            let x = merge(acc[i].1, v);
            assert forall|j: int| 0 <= j < r.len() implies #[trigger] fresh_at(r, j) by {
                assert(fresh_at(acc, j));
                if i < j {
                    assert(r.take(j) =~= acc.take(j).update(i, (acc.take(j)[i].0, x)));
                    lemma_key_index_update(acc.take(j), i, x, r[j].0);
                } else {
                    assert(r.take(j) =~= acc.take(j));
                }
            }
        } else {
            assert forall|j: int| 0 <= j < r.len() implies #[trigger] fresh_at(r, j) by {
                if j < acc.len() {
                    assert(fresh_at(acc, j));
                    assert(r.take(j) =~= acc.take(j));
                } else {
                    assert(r.take(j) =~= acc);
                }
            }
        }
        lemma_wf_fields_from(r);
    }
}

/// Merging a well-formed fragment into a well-formed target gives a
/// well-formed value: objects keep unique keys at every depth.
pub proof fn merge_preserves_wf(t: JValue, f: JValue)
    requires
        wf(t),
        wf(f),
    ensures
        wf(merge(t, f)),
    decreases f, 1int,
{
    match t {
        JValue::Object(o) => match f {
            JValue::Object(fo) => lemma_merge_fields_wf(o, fo),
            _ => {},
        },
        JValue::List(a) => match f {
            JValue::List(b) => if a.len() == b.len() {
                lemma_wf_items(a);
                lemma_wf_items(b);
                lemma_merge_list(a, b);
                assert forall|i: int| 0 <= i < b.len() implies #[trigger] wf(merge_list(a, b)[i]) by {
                    merge_preserves_wf(a[i], b[i]);
                }
                lemma_wf_items_from(merge_list(a, b));
            },
            _ => {},
        },
        _ => {},
    }
}

/// An input object value that lacks a non-null field without a default, all
/// fields declared before it being valid, is rejected with a message that
/// names that field.
pub proof fn missing_required_field_is_named(
    schema: Schema,
    ty: Type,
    obj: Seq<(Seq<char>, JValue)>,
    path: Seq<char>,
    j: int,
)
    requires
        ty.base is Named,
        lookup(schema.types@, ty.base->Named_0@) is Some,
        lookup(schema.types@, ty.base->Named_0@)->Some_0.kind == TypeKind::InputObject,
        0 <= j < lookup(schema.types@, ty.base->Named_0@)->Some_0.input_fields@.len(),
        ({
            let t = lookup(schema.types@, ty.base->Named_0@)->Some_0;
            let f = t.input_fields@[j];
            &&& !f.ty.nullable
            &&& !f.has_default
            &&& key_index(obj, f.name@) < 0
            &&& check_fields(schema, t.name@, t.input_fields@.take(j), obj, path) is None
        }),
    ensures
        ({
            let t = lookup(schema.types@, ty.base->Named_0@)->Some_0;
            check(schema, ty, JValue::Object(obj), path) == Some(
                error_text(path, required_text(t.input_fields@[j].name@, t.name@)),
            )
        }),
{
    let t = lookup(schema.types@, ty.base->Named_0@)->Some_0;
    let fs = t.input_fields@;
    assert(fs.take(j + 1).drop_last() =~= fs.take(j));
    assert(fs.take(j + 1).last() == fs[j]);
    lemma_check_fields_prefix(schema, t.name@, fs, obj, j + 1, path);
}

proof fn lemma_first_unknown_none(obj: Seq<(Seq<char>, JValue)>, fields: Seq<crate::validation::InputField>)
    requires
        forall|i: int| 0 <= i < obj.len() ==> #[trigger] declares(fields, obj[i].0),
    ensures
        first_unknown(obj, fields).is_none(),
    decreases obj.len(),
{
    if obj.len() > 0 {
        let o2 = obj.drop_last();
        assert forall|i: int| 0 <= i < o2.len() implies #[trigger] declares(fields, o2[i].0) by {
            assert(o2[i] == obj[i]);
        }
        lemma_first_unknown_none(o2, fields);
        assert(declares(fields, obj[obj.len() - 1].0));
    }
}

proof fn lemma_first_unknown_one(obj: Seq<(Seq<char>, JValue)>, fields: Seq<crate::validation::InputField>, u: int)
    requires
        0 <= u < obj.len(),
        !declares(fields, obj[u].0),
        forall|i: int| 0 <= i < obj.len() && i != u ==> #[trigger] declares(fields, obj[i].0),
    ensures
        first_unknown(obj, fields) == Some(obj[u].0),
    decreases obj.len(),
{
    let o2 = obj.drop_last();
    if u < obj.len() - 1 {
        assert forall|i: int| 0 <= i < o2.len() && i != u implies #[trigger] declares(fields, o2[i].0) by {
            assert(o2[i] == obj[i]);
        }
        assert(o2[u] == obj[u]);
        lemma_first_unknown_one(o2, fields, u);
    } else {
        assert forall|i: int| 0 <= i < o2.len() implies #[trigger] declares(fields, o2[i].0) by {
            assert(o2[i] == obj[i]);
        }
        lemma_first_unknown_none(o2, fields);
    }
}

/// An input object value whose declared fields all pass, and which holds
/// exactly one key that the type does not declare, is rejected with a
/// message that names that key.
pub proof fn unknown_field_is_named(
    schema: Schema,
    ty: Type,
    obj: Seq<(Seq<char>, JValue)>,
    path: Seq<char>,
    u: int,
)
    requires
        ty.base is Named,
        lookup(schema.types@, ty.base->Named_0@) is Some,
        lookup(schema.types@, ty.base->Named_0@)->Some_0.kind == TypeKind::InputObject,
        ({
            let t = lookup(schema.types@, ty.base->Named_0@)->Some_0;
            &&& check_fields(schema, t.name@, t.input_fields@, obj, path) is None
            &&& 0 <= u < obj.len()
            &&& !declares(t.input_fields@, obj[u].0)
            &&& forall|i: int| 0 <= i < obj.len() && i != u ==> #[trigger] declares(t.input_fields@, obj[i].0)
        }),
    ensures
        ({
            let t = lookup(schema.types@, ty.base->Named_0@)->Some_0;
            check(schema, ty, JValue::Object(obj), path) == Some(error_text(path, unknown_text(obj[u].0, t.name@)))
        }),
{
    let t = lookup(schema.types@, ty.base->Named_0@)->Some_0;
    lemma_first_unknown_one(obj, t.input_fields@, u);
}

} // verus!
