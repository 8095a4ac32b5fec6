use graphgate_core::executor::{
    apply_entities, collect_representations, integrate_fetch, integrate_flatten,
    integrate_introspection, key_prefix, representation_variables, take_entities,
};
use graphgate_core::merge::{merge_data, merge_values};
use graphgate_core::plan::PathSegment;
use graphgate_core::response::{merge_errors, Pos, Response, ServerError};
use graphgate_core::text::strip_prefix;
use graphgate_core::value::{Number, Value};

fn s(x: &str) -> String {
    x.to_string()
}

fn num(n: i64) -> Value {
    Value::Number(Number::Int(n))
}

fn string(x: &str) -> Value {
    Value::String(s(x))
}

fn obj(entries: Vec<(&str, Value)>) -> Value {
    Value::Object(entries.into_iter().map(|(k, v)| (s(k), v)).collect())
}

fn seg(name: &str, is_list: bool) -> PathSegment {
    PathSegment { name: s(name), is_list }
}

fn ok(data: Value) -> Result<Response, String> {
    Ok(Response { data, errors: Vec::new() })
}

#[test]
fn empty_parallel_gives_empty_response() {
    let resp = Response::new();
    assert_eq!(resp.data, Value::Null);
    assert!(resp.errors.is_empty());
}

#[test]
fn single_fetch_merges_data() {
    let mut resp = Response::new();
    integrate_fetch(&mut resp, ok(obj(vec![("x", num(1))])));
    assert_eq!(resp.data, obj(vec![("x", num(1))]));
    assert!(resp.errors.is_empty());
}

#[test]
fn sequence_with_dependent_flatten() {
    let mut resp = Response::new();
    integrate_fetch(
        &mut resp,
        ok(obj(vec![("u", obj(vec![("__key0_id", string("7")), ("name", string("n"))]))])),
    );
    let path = vec![seg("u", false)];
    let reps = collect_representations(&mut resp.data, &path, 0);
    assert_eq!(reps, vec![obj(vec![("id", string("7"))])]);
    let vars = representation_variables(reps);
    assert_eq!(
        vars,
        obj(vec![("representations", Value::List(vec![obj(vec![("id", string("7"))])]))])
    );
    let result = ok(obj(vec![("_entities", Value::List(vec![obj(vec![("age", num(42))])]))]));
    integrate_flatten(&mut resp, &path, result);
    assert_eq!(resp.data, obj(vec![("u", obj(vec![("name", string("n")), ("age", num(42))]))]));
    assert!(resp.errors.is_empty());
}

#[test]
fn flatten_over_a_list() {
    let mut resp = Response::new();
    resp.data = obj(vec![(
        "items",
        Value::List(vec![obj(vec![("__key0_id", string("1"))]), obj(vec![("__key0_id", string("2"))])]),
    )]);
    let path = vec![seg("items", true)];
    let reps = collect_representations(&mut resp.data, &path, 0);
    assert_eq!(reps, vec![obj(vec![("id", string("1"))]), obj(vec![("id", string("2"))])]);
    let result = ok(obj(vec![(
        "_entities",
        Value::List(vec![obj(vec![("v", string("a"))]), obj(vec![("v", string("b"))])]),
    )]));
    integrate_flatten(&mut resp, &path, result);
    assert_eq!(
        resp.data,
        obj(vec![(
            "items",
            Value::List(vec![obj(vec![("v", string("a"))]), obj(vec![("v", string("b"))])])
        )])
    );
}

#[test]
fn subgraph_error_is_recorded_without_data() {
    let mut resp = Response::new();
    let err = ServerError { message: s("bad"), locations: vec![Pos { line: 1, column: 2 }] };
    integrate_fetch(&mut resp, Ok(Response { data: obj(vec![("x", num(1))]), errors: vec![err] }));
    assert_eq!(resp.data, Value::Null);
    assert_eq!(resp.errors, vec![ServerError { message: s("bad"), locations: Vec::new() }]);
}

#[test]
fn transport_failure_in_parallel_in_either_order() {
    let mut first = Response::new();
    integrate_fetch(&mut first, ok(obj(vec![("a", num(1))])));
    integrate_fetch(&mut first, Err(s("connection refused")));
    let mut second = Response::new();
    integrate_fetch(&mut second, Err(s("connection refused")));
    integrate_fetch(&mut second, ok(obj(vec![("a", num(1))])));
    assert_eq!(first, second);
    assert_eq!(first.data, obj(vec![("a", num(1))]));
    assert_eq!(first.errors, vec![ServerError { message: s("connection refused"), locations: Vec::new() }]);
}

#[test]
fn flatten_transport_failure_keeps_data() {
    let mut resp = Response::new();
    resp.data = obj(vec![("u", obj(vec![("name", string("n"))]))]);
    let path = vec![seg("u", false)];
    integrate_flatten(&mut resp, &path, Err(s("timeout")));
    assert_eq!(resp.data, obj(vec![("u", obj(vec![("name", string("n"))]))]));
    assert_eq!(resp.errors.len(), 1);
    assert_eq!(resp.errors[0].message, "timeout");
}

#[test]
fn flatten_without_entities_merges_nothing() {
    let mut resp = Response::new();
    resp.data = obj(vec![("u", obj(vec![("name", string("n"))]))]);
    let path = vec![seg("u", false)];
    integrate_flatten(&mut resp, &path, ok(obj(vec![("_entities", num(3))])));
    assert_eq!(resp.data, obj(vec![("u", obj(vec![("name", string("n"))]))]));
    assert!(take_entities(obj(vec![("other", Value::List(Vec::new()))])).is_none());
    assert_eq!(take_entities(obj(vec![("_entities", Value::List(vec![num(5)]))])), Some(vec![num(5)]));
}

#[test]
fn merge_table() {
    // null takes the fragment
    assert_eq!(merge_values(Value::Null, num(3)), num(3));
    // scalar target is kept
    assert_eq!(merge_values(num(1), num(2)), num(1));
    assert_eq!(merge_values(string("a"), obj(vec![("x", num(1))])), string("a"));
    // objects merge by key, new keys are appended
    assert_eq!(
        merge_values(obj(vec![("a", Value::Null), ("b", num(1))]), obj(vec![("a", num(5)), ("c", num(2))])),
        obj(vec![("a", num(5)), ("b", num(1)), ("c", num(2))])
    );
    // lists of equal length merge pairwise
    assert_eq!(
        merge_values(Value::List(vec![Value::Null, num(1)]), Value::List(vec![num(7), num(8)])),
        Value::List(vec![num(7), num(1)])
    );
    // lists of different length keep the target
    assert_eq!(
        merge_values(Value::List(vec![Value::Null]), Value::List(vec![num(7), num(8)])),
        Value::List(vec![Value::Null])
    );
}

#[test]
fn merge_is_idempotent_on_a_sample() {
    let t = obj(vec![("a", Value::Null), ("b", Value::List(vec![obj(vec![("c", num(1))])]))]);
    let f = || obj(vec![("a", num(2)), ("b", Value::List(vec![obj(vec![("d", num(3))])])), ("e", Value::Boolean(true))]);
    let mut t1 = merge_values(t, f());
    let snapshot = format!("{:?}", t1);
    merge_data(&mut t1, f());
    assert_eq!(format!("{:?}", t1), snapshot);
    let mut fresh = Value::Null;
    merge_data(&mut fresh, f());
    merge_data(&mut fresh, f());
    assert_eq!(fresh, f());
}

#[test]
fn merge_disjoint_fragments_in_either_order() {
    let base = || obj(vec![("u", obj(vec![("id", num(1))]))]);
    let f1 = || obj(vec![("u", obj(vec![("name", string("n"))]))]);
    let f2 = || obj(vec![("v", num(2))]);
    let a = merge_values(merge_values(base(), f1()), f2());
    let b = merge_values(merge_values(base(), f2()), f1());
    assert_eq!(a, obj(vec![("u", obj(vec![("id", num(1)), ("name", string("n"))])), ("v", num(2))]));
    assert_eq!(b, obj(vec![("u", obj(vec![("id", num(1)), ("name", string("n"))])), ("v", num(2))]));
}

#[test]
fn no_synthetic_keys_remain_after_flatten() {
    let mut data = obj(vec![(
        "items",
        Value::List(vec![
            obj(vec![("__key3_id", num(1)), ("__key3_sku", string("x")), ("keep", num(0)), ("__key4_id", num(9))]),
            obj(vec![("__key3_id", num(2))]),
        ]),
    )]);
    let path = vec![seg("items", true)];
    let reps = collect_representations(&mut data, &path, 3);
    assert_eq!(reps.len(), 2);
    assert_eq!(reps[0], obj(vec![("id", num(1)), ("sku", string("x"))]));
    let text = format!("{:?}", data);
    assert!(!text.contains("__key3_"));
    assert!(text.contains("__key4_id"));
}

#[test]
fn representation_count_matches_sites() {
    let mut data = obj(vec![(
        "a",
        Value::List(vec![
            obj(vec![("b", obj(vec![("__key0_id", num(1))]))]),
            obj(vec![("b", obj(vec![("__key0_id", num(2))]))]),
            obj(vec![("b", obj(vec![("__key0_id", num(3))]))]),
        ]),
    )]);
    let path = vec![seg("a", true), seg("b", false)];
    let reps = collect_representations(&mut data, &path, 0);
    assert_eq!(reps.len(), 3);
    let ents = vec![obj(vec![("n", num(10))]), obj(vec![("n", num(20))]), obj(vec![("n", num(30))])];
    apply_entities(&mut data, &path, ents);
    assert_eq!(
        data,
        obj(vec![(
            "a",
            Value::List(vec![
                obj(vec![("b", obj(vec![("n", num(10))]))]),
                obj(vec![("b", obj(vec![("n", num(20))]))]),
                obj(vec![("b", obj(vec![("n", num(30))]))]),
            ])
        )])
    );
}

#[test]
fn fewer_entities_leave_sites_untouched() {
    let mut data = obj(vec![("l", Value::List(vec![obj(vec![("x", num(1))]), obj(vec![("x", num(2))])]))]);
    let path = vec![seg("l", true)];
    apply_entities(&mut data, &path, vec![obj(vec![("y", num(5))])]);
    assert_eq!(
        data,
        obj(vec![("l", Value::List(vec![obj(vec![("x", num(1)), ("y", num(5))]), obj(vec![("x", num(2))])]))])
    );
}

#[test]
fn key_prefix_is_decimal() {
    assert_eq!(key_prefix(0), "__key0_");
    assert_eq!(key_prefix(42), "__key42_");
    assert_eq!(key_prefix(4294967295), "__key4294967295_");
}

#[test]
fn errors_lose_locations() {
    let mut target = vec![ServerError { message: s("first"), locations: vec![Pos { line: 3, column: 4 }] }];
    merge_errors(
        &mut target,
        vec![
            ServerError { message: s("a"), locations: vec![Pos { line: 1, column: 1 }] },
            ServerError { message: s("b"), locations: Vec::new() },
        ],
    );
    assert_eq!(target.len(), 3);
    assert_eq!(target[0].locations.len(), 1);
    assert_eq!(target[1], ServerError { message: s("a"), locations: Vec::new() });
    assert_eq!(target[2].message, "b");
}

#[test]
fn introspection_merges_into_data() {
    let mut resp = Response::new();
    integrate_fetch(&mut resp, ok(obj(vec![("x", num(1))])));
    integrate_introspection(&mut resp, obj(vec![("__schema", obj(vec![("types", Value::List(Vec::new()))]))]));
    assert_eq!(
        resp.data,
        obj(vec![("x", num(1)), ("__schema", obj(vec![("types", Value::List(Vec::new()))]))])
    );
}

fn sorted(v: Value) -> Value {
    match v {
        Value::Object(entries) => {
            let mut entries: Vec<(String, Value)> = entries.into_iter().map(|(k, v)| (k, sorted(v))).collect();
            entries.sort_by(|a, b| a.0.cmp(&b.0));
            Value::Object(entries)
        }
        Value::List(items) => Value::List(items.into_iter().map(sorted).collect()),
        other => other,
    }
}

#[test]
fn merge_nested_disjoint_paths_in_either_order() {
    let base = || obj(vec![("u", obj(vec![("id", num(1))])), ("w", Value::Null)]);
    let f1 = || obj(vec![("u", obj(vec![("name", string("n"))])), ("w", num(5))]);
    let f2 = || obj(vec![("u", obj(vec![("age", num(42))])), ("z", Value::Boolean(false))]);
    let a = merge_values(merge_values(base(), f1()), f2());
    let b = merge_values(merge_values(base(), f2()), f1());
    assert_eq!(sorted(a), sorted(b));
    let mut c = base();
    merge_data(&mut c, f1());
    merge_data(&mut c, f2());
    assert_eq!(
        c,
        obj(vec![
            ("u", obj(vec![("id", num(1)), ("name", string("n")), ("age", num(42))])),
            ("w", num(5)),
            ("z", Value::Boolean(false)),
        ])
    );
}

#[test]
fn merge_keeps_existing_scalars_deep() {
    let t = obj(vec![("a", obj(vec![("b", num(1)), ("c", Value::Null)])), ("l", Value::List(vec![string("x")]))]);
    let f = obj(vec![("a", obj(vec![("b", num(2)), ("c", num(3))])), ("l", Value::List(vec![string("y")]))]);
    assert_eq!(
        merge_values(t, f),
        obj(vec![("a", obj(vec![("b", num(1)), ("c", num(3))])), ("l", Value::List(vec![string("x")]))])
    );
}

#[test]
fn null_list_element_takes_no_entity() {
    let mut data = obj(vec![("l", Value::List(vec![Value::Null, obj(vec![("__key0_id", num(1))])]))]);
    let path = vec![seg("l", true)];
    let reps = collect_representations(&mut data, &path, 0);
    assert_eq!(reps, vec![obj(vec![("id", num(1))])]);
    apply_entities(&mut data, &path, vec![obj(vec![("v", string("a"))])]);
    assert_eq!(data, obj(vec![("l", Value::List(vec![Value::Null, obj(vec![("v", string("a"))])]))]));
}

#[test]
fn null_field_takes_no_entity() {
    let mut data = obj(vec![("", Value::Null)]);
    let path = vec![seg("", false)];
    let reps = collect_representations(&mut data, &path, 0);
    assert!(reps.is_empty());
    apply_entities(&mut data, &path, vec![obj(vec![("v", num(1))])]);
    assert_eq!(data, obj(vec![("", Value::Null)]));
}

#[test]
fn merge_disjoint_list_fragments_in_either_order() {
    let base = || obj(vec![("items", Value::List(vec![obj(vec![("id", num(1))]), obj(vec![("id", num(2))])]))]);
    let f1 = || obj(vec![("items", Value::List(vec![obj(vec![("a", num(10))]), obj(vec![("a", num(20))])]))]);
    let f2 = || obj(vec![("items", Value::List(vec![obj(vec![("b", num(30))]), obj(vec![("b", num(40))])]))]);
    let x = merge_values(merge_values(base(), f1()), f2());
    let y = merge_values(merge_values(base(), f2()), f1());
    assert_eq!(sorted(x), sorted(y));
}

#[test]
fn strip_prefix_on_chars() {
    assert_eq!(strip_prefix("__key0_id", "__key0_"), Some(s("id")));
    assert_eq!(strip_prefix("__key0_", "__key0_"), Some(s("")));
    assert_eq!(strip_prefix("__key1_id", "__key0_"), None);
    assert_eq!(strip_prefix("__k", "__key0_"), None);
    assert_eq!(strip_prefix("ünï", "ü"), Some(s("nï")));
    assert_eq!(strip_prefix("abc", ""), Some(s("abc")));
}
