use vstd::prelude::*;
use vstd::string::StringExecFns;

use crate::merge::{find_key, key_index, lemma_key_index, merge, merge_data};
use crate::plan::{apply, apply_at, collect, collect_at, PathSegment};
use crate::response::{merge_errors, messages, no_locations_from, Response, ServerError};
use crate::text::{decimal, decimal_string};
use crate::value::{lemma_view_fields, view_fields, view_list, view_value, JValue, Value};

verus! {

/// The beginning of the synthetic keys that carry the representations of the
/// flatten with prefix `n`: `__key<n>_`.
pub open spec fn synthetic_prefix(n: nat) -> Seq<char> {
    seq!['_', '_', 'k', 'e', 'y'] + decimal(n) + seq!['_']
}

/// Builds `__key<prefix>_`.
pub fn key_prefix(prefix: u32) -> (r: String)
    ensures
        r@ == synthetic_prefix(prefix as nat),
{
    proof {
        reveal_strlit("__key");
        reveal_strlit("_");
    }
    let mut s = String::from_str("__key");
    let digits = decimal_string(prefix as u64);
    s.append(digits.as_str());
    s.append("_");
    s
}

/// Collects the representations of a flatten along `path` from `data`,
/// removing the synthetic keys `__key<prefix>_...` that carried them.
pub fn collect_representations(data: &mut Value, path: &Vec<PathSegment>, prefix: u32) -> (r: Vec<Value>)
    ensures
        final(data)@ == collect(old(data)@, path@, 0, synthetic_prefix(prefix as nat)).0,
        view_list(r@) == collect(old(data)@, path@, 0, synthetic_prefix(prefix as nat)).1,
{
    let p = key_prefix(prefix);
    let mut reps: Vec<Value> = Vec::new();
    proof {
        assert(view_list(reps@) =~= Seq::<JValue>::empty());
        assert(Seq::<JValue>::empty() + collect(data@, path@, 0, p@).1 =~= collect(data@, path@, 0, p@).1);
    }
    collect_at(data, path, 0, &p, &mut reps);
    reps
}

/// Merges `entities`, in order, into the values reached along `path`.
pub fn apply_entities(data: &mut Value, path: &Vec<PathSegment>, entities: Vec<Value>)
    ensures
        final(data)@ == apply(old(data)@, path@, 0, view_list(entities@)).0,
{
    let mut ents = entities;
    apply_at(data, path, 0, &mut ents);
}

/// The variables of a flatten's query: `{ representations: [...] }`.
pub fn representation_variables(reps: Vec<Value>) -> (r: Value)
    ensures
        r@ == JValue::Object(seq![(seq!['r', 'e', 'p', 'r', 'e', 's', 'e', 'n', 't', 'a', 't', 'i', 'o', 'n', 's'], JValue::List(view_list(reps@)))]),
{
    proof {
        reveal_strlit("representations");
    }
    let ghost rv = view_list(reps@);
    let name = String::from_str("representations");
    proof {
        assert(name@ =~= seq!['r', 'e', 'p', 'r', 'e', 's', 'e', 'n', 't', 'a', 't', 'i', 'o', 'n', 's']);
    }
    let mut fields: Vec<(String, Value)> = Vec::new();
    fields.push((name, Value::List(reps)));
    proof {
        lemma_view_fields(fields@);
        assert(view_fields(fields@) =~= seq![(seq!['r', 'e', 'p', 'r', 'e', 's', 'e', 'n', 't', 'a', 't', 'i', 'o', 'n', 's'], JValue::List(rv))]);
    }
    Value::Object(fields)
}

/// The list under `_entities` in a flatten's result data, if there is one.
pub open spec fn entities_of(d: JValue) -> Option<Seq<JValue>> {
    match d {
        JValue::Object(o) => {
            let i = key_index(o, seq!['_', 'e', 'n', 't', 'i', 't', 'i', 'e', 's']);
            if i >= 0 {
                match o[i].1 {
                    JValue::List(l) => Some(l),
                    _ => None,
                }
            } else {
                None
            }
        },
        _ => None,
    }
}

/// Takes the list under `_entities` out of a flatten's result data.
pub fn take_entities(data: Value) -> (r: Option<Vec<Value>>)
    ensures
        match entities_of(data@) {
            Some(l) => r.is_some() && view_list(r->Some_0@) == l,
            None => r.is_none(),
        },
{
    proof {
        reveal_strlit("_entities");
    }
    match data {
        Value::Object(mut o) => {
            let name = String::from_str("_entities");
            proof {
                assert(name@ =~= seq!['_', 'e', 'n', 't', 'i', 't', 'i', 'e', 's']);
                lemma_view_fields(o@);
                lemma_key_index(view_fields(o@), name@);
            }
            match find_key(&o, &name) {
                Some(i) => {
                    let ghost o0 = o@;
                    let (_, v) = o.remove(i);
                    proof {
                        assert(o0[i as int].1 == v);
                        assert(view_fields(o0)[i as int].1 == view_value(v));
                        assert(key_index(view_fields(o0), seq!['_', 'e', 'n', 't', 'i', 't', 'i', 'e', 's']) == i);
                    }
                    match v {
                        Value::List(l) => Some(l),
                        _ => None,
                    }
                },
                None => None,
            }
        },
        _ => None,
    }
}

/// The response after a fetch's result: data merged when the subgraph
/// reported no error; else its errors appended without locations; or, on a
/// transport failure, one error with the failure's message.
pub open spec fn fetch_outcome(
    old_resp: Response,
    new_resp: Response,
    result: Result<Response, String>,
) -> bool {
    match result {
        Ok(r) => if r.errors@.len() == 0 {
            new_resp.data@ == merge(old_resp.data@, r.data@) && new_resp.errors@ == old_resp.errors@
        } else {
            errors_appended(old_resp, new_resp, messages(r.errors@))
        },
        Err(m) => errors_appended(old_resp, new_resp, seq![m@]),
    }
}

/// `new_resp` is `old_resp` with errors of messages `ms` and no locations appended.
pub open spec fn errors_appended(old_resp: Response, new_resp: Response, ms: Seq<Seq<char>>) -> bool {
    &&& new_resp.data@ == old_resp.data@
    &&& new_resp.errors@.len() == old_resp.errors@.len() + ms.len()
    &&& new_resp.errors@.take(old_resp.errors@.len() as int) == old_resp.errors@
    &&& messages(new_resp.errors@) == messages(old_resp.errors@) + ms
    &&& no_locations_from(new_resp.errors@, old_resp.errors@.len() as int)
}

fn push_transport_error(errors: &mut Vec<ServerError>, message: String)
    ensures
        final(errors)@.len() == old(errors)@.len() + 1,
        final(errors)@.take(old(errors)@.len() as int) == old(errors)@,
        messages(final(errors)@) == messages(old(errors)@) + seq![message@],
        no_locations_from(final(errors)@, old(errors)@.len() as int),
{
    let ghost before = errors@;
    let ghost m = message@;
    errors.push(ServerError::new(message));
    proof {
        assert(errors@.take(before.len() as int) =~= before);
        assert(messages(errors@) =~= messages(before) + seq![m]);
    }
}

/// Integrates the result of a fetch into the response.
pub fn integrate_fetch(resp: &mut Response, result: Result<Response, String>)
    ensures
        fetch_outcome(*old(resp), *final(resp), result),
{
    match result {
        Ok(r) => {
            if r.errors.len() == 0 {
                merge_data(&mut resp.data, r.data);
            } else {
                merge_errors(&mut resp.errors, r.errors);
            }
        },
        Err(m) => {
            push_transport_error(&mut resp.errors, m);
        },
    }
}

/// The response after a flatten's result: like a fetch, except that the
/// entities under `_entities` are merged along `path`, and nothing is merged
/// when there is no such list.
pub open spec fn flatten_outcome(
    old_resp: Response,
    new_resp: Response,
    path: Seq<PathSegment>,
    result: Result<Response, String>,
) -> bool {
    match result {
        Ok(r) => if r.errors@.len() == 0 {
            new_resp.errors@ == old_resp.errors@ && new_resp.data@ == match entities_of(r.data@) {
                Some(l) => apply(old_resp.data@, path, 0, l).0,
                None => old_resp.data@,
            }
        } else {
            errors_appended(old_resp, new_resp, messages(r.errors@))
        },
        Err(m) => errors_appended(old_resp, new_resp, seq![m@]),
    }
}

/// Integrates the result of a flatten's query into the response.
pub fn integrate_flatten(resp: &mut Response, path: &Vec<PathSegment>, result: Result<Response, String>)
    ensures
        flatten_outcome(*old(resp), *final(resp), path@, result),
{
    match result {
        Ok(r) => {
            if r.errors.len() == 0 {
                match take_entities(r.data) {
                    Some(ents) => apply_entities(&mut resp.data, path, ents),
                    None => {},
                }
            } else {
                merge_errors(&mut resp.errors, r.errors);
            }
        },
        Err(m) => {
            push_transport_error(&mut resp.errors, m);
        },
    }
}

/// Merges the value resolved for an introspection node into the response.
pub fn integrate_introspection(resp: &mut Response, value: Value)
    ensures
        final(resp).data@ == merge(old(resp).data@, value@),
        final(resp).errors@ == old(resp).errors@,
{
    merge_data(&mut resp.data, value);
}

} // verus!
