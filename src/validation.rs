use vstd::prelude::*;
use vstd::string::StringExecFns;

use crate::path::{path_text, PathNode};
use crate::value::{lemma_view_fields, lemma_view_list, view_fields, view_list, view_value, JValue, Number, Value};

verus! {

broadcast use vstd::seq::group_seq_axioms;

/// Where a query element stands: in an operation (named or not) or in a
/// fragment.
#[derive(Debug, Copy, Clone, PartialEq, Eq, Hash)]
pub enum Scope<'a> {
    Operation(Option<&'a str>),
    Fragment(&'a str),
}

/// A value written in a query: a variable, a constant, or a list or object
/// whose members may be variables.
pub enum QueryValue {
    Variable(String),
    Const(Value),
    List(Vec<QueryValue>),
    Object(Vec<(String, QueryValue)>),
}

/// The names of the variables that `v` refers to, in document order.
pub open spec fn variables_of(v: QueryValue) -> Seq<Seq<char>>
    decreases v, 0int,
{
    match v {
        QueryValue::Variable(n) => seq![n@],
        QueryValue::Const(_) => Seq::empty(),
        QueryValue::List(items) => variables_of_items(items@),
        QueryValue::Object(fields) => variables_of_fields(fields@),
    }
}

pub open spec fn variables_of_items(items: Seq<QueryValue>) -> Seq<Seq<char>>
    decreases items, 1int,
{
    if items.len() == 0 {
        Seq::empty()
    } else {
        variables_of_items(items.drop_last()) + variables_of(items[items.len() - 1])
    }
}

pub open spec fn variables_of_fields(fields: Seq<(String, QueryValue)>) -> Seq<Seq<char>>
    decreases fields, 1int,
{
    if fields.len() == 0 {
        Seq::empty()
    } else {
        variables_of_fields(fields.drop_last()) + variables_of(fields[fields.len() - 1].1)
    }
}

pub open spec fn names_view(names: Seq<String>) -> Seq<Seq<char>> {
    Seq::new(names.len(), |i: int| names[i]@)
}

#[verifier::loop_isolation(false)]
fn push_variables(v: &QueryValue, vars: &mut Vec<String>)
    ensures
        names_view(final(vars)@) == names_view(old(vars)@) + variables_of(*v),
    decreases *v, 0nat,
{
    match v {
        QueryValue::Variable(n) => {
            let ghost before = vars@;
            vars.push(n.clone());
            proof {
                assert(names_view(vars@) =~= names_view(before) + seq![n@]);
            }
        },
        QueryValue::Const(_) => {
            proof {
                assert(names_view(vars@) + Seq::<Seq<char>>::empty() =~= names_view(vars@));
            }
        },
        QueryValue::List(items) => {
            let ghost start = names_view(vars@);
            proof {
                assert(items@.take(0) =~= Seq::<QueryValue>::empty());
                assert(start + Seq::<Seq<char>>::empty() =~= start);
            }
            let mut i: usize = 0;
            while i < items.len()
                invariant
                    i <= items@.len(),
                    names_view(vars@) == start + variables_of_items(items@.take(i as int)),
                decreases items@.len() - i,
            {
                proof {
                    assert(items@.take(i + 1).drop_last() =~= items@.take(i as int));
                    assert(decreases_to!(*items => items[i as int]));
                }
                push_variables(&items[i], vars);
                i = i + 1;
                proof {
                    assert(start + variables_of_items(items@.take(i as int)) =~= start + variables_of_items(items@.take(i - 1)) + variables_of(items@[i - 1]));
                }
            }
            proof {
                assert(items@.take(i as int) =~= items@);
            }
        },
        QueryValue::Object(fields) => {
            let ghost start = names_view(vars@);
            proof {
                assert(fields@.take(0) =~= Seq::<(String, QueryValue)>::empty());
                assert(start + Seq::<Seq<char>>::empty() =~= start);
            }
            let mut i: usize = 0;
            while i < fields.len()
                invariant
                    i <= fields@.len(),
                    names_view(vars@) == start + variables_of_fields(fields@.take(i as int)),
                decreases fields@.len() - i,
            {
                proof {
                    assert(fields@.take(i + 1).drop_last() =~= fields@.take(i as int));
                    assert(decreases_to!(*fields => fields[i as int]));
                    assert(decreases_to!(fields[i as int] => fields[i as int].1));
                }
                push_variables(&fields[i].1, vars);
                i = i + 1;
                proof {
                    assert(start + variables_of_fields(fields@.take(i as int)) =~= start + variables_of_fields(fields@.take(i - 1)) + variables_of(fields@[i - 1].1));
                }
            }
            proof {
                assert(fields@.take(i as int) =~= fields@);
            }
        },
    }
}

/// The names of the variables that `value` refers to, in document order.
pub fn referenced_variables(value: &QueryValue) -> (r: Vec<String>)
    ensures
        names_view(r@) == variables_of(*value),
{
    let mut vars: Vec<String> = Vec::new();
    proof {
        assert(names_view(vars@) =~= Seq::<Seq<char>>::empty());
        assert(Seq::<Seq<char>>::empty() + variables_of(*value) =~= variables_of(*value));
    }
    push_variables(value, &mut vars);
    vars
}

/// A type reference without its nullability: a named type or a list.
pub enum BaseType {
    Named(String),
    List(Box<Type>),
}

/// A type reference of an operation's variable or of an input field.
pub struct Type {
    pub base: BaseType,
    pub nullable: bool,
}

/// The kinds of named types of a schema.
#[derive(Debug, Copy, Clone, PartialEq, Eq, Structural)]
pub enum TypeKind {
    Scalar,
    Object,
    Interface,
    Union,
    Enum,
    InputObject,
}

/// A field of an input object type.
pub struct InputField {
    pub name: String,
    pub ty: Type,
    pub has_default: bool,
}

/// A named type of the schema, with what validation reads of it.
pub struct MetaType {
    pub name: String,
    pub kind: TypeKind,
    pub enum_values: Vec<String>,
    pub input_fields: Vec<InputField>,
}

/// The named types of a composed schema.
pub struct Schema {
    pub types: Vec<MetaType>,
}

/// The first type of `types` named `n`.
pub open spec fn lookup(types: Seq<MetaType>, n: Seq<char>) -> Option<MetaType>
    decreases types.len(),
{
    if types.len() == 0 {
        None
    } else {
        match lookup(types.drop_last(), n) {
            Some(t) => Some(t),
            None => if types.last().name@ == n {
                Some(types.last())
            } else {
                None
            },
        }
    }
}

/// How many list wrappers a type reference has.
pub open spec fn type_depth(ty: Type) -> nat
    decreases ty,
{
    match ty.base {
        BaseType::Named(_) => 0,
        BaseType::List(e) => 1 + type_depth(*e),
    }
}

pub open spec fn quote(s: Seq<char>) -> Seq<char> {
    seq!['"'] + s + seq!['"']
}

/// The text of a type reference: `T`, `[T]`, followed by `!` when non-null.
pub open spec fn type_text(ty: Type) -> Seq<char>
    decreases ty,
{
    let base = match ty.base {
        BaseType::Named(n) => n@,
        BaseType::List(e) => seq!['['] + type_text(*e) + seq![']'],
    };
    if ty.nullable {
        base
    } else {
        base + seq!['!']
    }
}

/// A validation message: the quoted path, a comma, and what is wrong.
pub open spec fn error_text(path: Seq<char>, body: Seq<char>) -> Seq<char> {
    quote(path) + seq![',', ' '] + body
}

pub open spec fn expected_text(t: Seq<char>) -> Seq<char> {
    "expected type "@ + quote(t)
}

pub open spec fn enum_text(t: Seq<char>, v: Seq<char>) -> Seq<char> {
    "enumeration type "@ + quote(t) + " does not contain the value "@ + quote(v)
}

pub open spec fn required_text(f: Seq<char>, t: Seq<char>) -> Seq<char> {
    "field "@ + quote(f) + " of type "@ + quote(t) + " is required but not provided"@
}

pub open spec fn unknown_text(f: Seq<char>, t: Seq<char>) -> Seq<char> {
    "unknown field "@ + quote(f) + " of type "@ + quote(t)
}

/// Whether a scalar type named `t` accepts `v`.
pub open spec fn scalar_accepts(t: Seq<char>, v: JValue) -> bool {
    if t == "Int"@ {
        v is Number && v->Number_0.is_integer()
    } else if t == "Float"@ {
        v is Number
    } else if t == "String"@ {
        v is String
    } else if t == "Boolean"@ {
        v is Boolean
    } else if t == "ID"@ {
        v is String || (v is Number && v->Number_0.is_integer())
    } else {
        false
    }
}

pub open spec fn has_name(names: Seq<String>, v: Seq<char>) -> bool {
    exists|i: int| 0 <= i < names.len() && names[i]@ == v
}

pub open spec fn declares(fields: Seq<InputField>, k: Seq<char>) -> bool {
    exists|i: int| 0 <= i < fields.len() && fields[i].name@ == k
}

/// The first key of `obj` that no field of `fields` declares.
pub open spec fn first_unknown(obj: Seq<(Seq<char>, JValue)>, fields: Seq<InputField>) -> Option<Seq<char>>
    decreases obj.len(),
{
    if obj.len() == 0 {
        None
    } else {
        match first_unknown(obj.drop_last(), fields) {
            Some(k) => Some(k),
            None => if declares(fields, obj.last().0) {
                None
            } else {
                Some(obj.last().0)
            },
        }
    }
}

/// The first failure among the elements of a list value.
pub open spec fn check_items(schema: Schema, elem: Type, items: Seq<JValue>, path: Seq<char>) -> Option<Seq<char>>
    decreases items, 0int,
{
    if items.len() == 0 {
        None
    } else {
        match check_items(schema, elem, items.drop_last(), path) {
            Some(m) => Some(m),
            None => check(
                schema,
                elem,
                items.last(),
                path + seq!['.'] + crate::text::decimal((items.len() - 1) as nat),
            ),
        }
    }
}

/// The first failure among the declared fields of an input object type.
pub open spec fn check_fields(
    schema: Schema,
    tname: Seq<char>,
    fields: Seq<InputField>,
    obj: Seq<(Seq<char>, JValue)>,
    path: Seq<char>,
) -> Option<Seq<char>>
    decreases obj, fields.len(),
{
    if fields.len() == 0 {
        None
    } else {
        match check_fields(schema, tname, fields.drop_last(), obj, path) {
            Some(m) => Some(m),
            None => {
                let f = fields.last();
                let i = crate::merge::key_index(obj, f.name@);
                if i >= 0 {
                    if 0 <= i < obj.len() {
                        check(schema, f.ty, obj[i].1, path + seq!['.'] + f.name@)
                    } else {
                        None
                    }
                } else if !f.ty.nullable && !f.has_default {
                    Some(error_text(path, required_text(f.name@, tname)))
                } else {
                    None
                }
            },
        }
    }
}

/// `None` when `v` is a valid value of type `ty` in `schema`; otherwise the
/// message of the first failure, for a value at path `path`.
pub open spec fn check(schema: Schema, ty: Type, v: JValue, path: Seq<char>) -> Option<Seq<char>>
    decreases v, type_depth(ty),
{
    if !ty.nullable && v is Null {
        Some(error_text(path, expected_text(type_text(ty))))
    } else {
        match ty.base {
            BaseType::List(elem) => match v {
                JValue::List(items) => check_items(schema, *elem, items, path),
                JValue::Null => None,
                _ => check(schema, *elem, v, path),
            },
            BaseType::Named(n) => if v is Null {
                None
            } else {
                match lookup(schema.types@, n@) {
                    None => None,
                    Some(t) => match t.kind {
                        TypeKind::Scalar => if scalar_accepts(t.name@, v) {
                            None
                        } else {
                            Some(error_text(path, expected_text(n@)))
                        },
                        TypeKind::Enum => match v {
                            JValue::Enum(e) => if has_name(t.enum_values@, e) {
                                None
                            } else {
                                Some(error_text(path, enum_text(t.name@, e)))
                            },
                            _ => Some(error_text(path, expected_text(n@))),
                        },
                        TypeKind::InputObject => match v {
                            JValue::Object(obj) => match check_fields(schema, t.name@, t.input_fields@, obj, path) {
                                Some(m) => Some(m),
                                None => match first_unknown(obj, t.input_fields@) {
                                    Some(k) => Some(error_text(path, unknown_text(k, t.name@))),
                                    None => None,
                                },
                            },
                            _ => Some(error_text(path, expected_text(n@))),
                        },
                        _ => None,
                    },
                }
            },
        }
    }
}

/// Finds the first type of the schema named `n`.
fn lookup_type<'s>(schema: &'s Schema, n: &String) -> (r: Option<&'s MetaType>)
    ensures
        match r {
            Some(t) => lookup(schema.types@, n@) == Some(*t),
            None => lookup(schema.types@, n@).is_none(),
        },
{
    let mut i: usize = 0;
    while i < schema.types.len()
        invariant
            i <= schema.types@.len(),
            lookup(schema.types@.take(i as int), n@).is_none(),
        decreases schema.types@.len() - i,
    {
        proof {
            assert(schema.types@.take(i + 1).drop_last() =~= schema.types@.take(i as int));
        }
        if schema.types[i].name == *n {
            proof {
                lemma_lookup_prefix(schema.types@, i + 1, n@);
            }
            return Some(&schema.types[i]);
        }
        i = i + 1;
    }
    proof {
        assert(schema.types@.take(i as int) =~= schema.types@);
    }
    None
}

proof fn lemma_lookup_prefix(types: Seq<MetaType>, j: int, n: Seq<char>)
    requires
        0 <= j <= types.len(),
        lookup(types.take(j), n).is_some(),
    ensures
        lookup(types, n) == lookup(types.take(j), n),
    decreases types.len(),
{
    if j < types.len() {
        assert(types.drop_last().take(j) =~= types.take(j));
        lemma_lookup_prefix(types.drop_last(), j, n);
    } else {
        assert(types.take(j) =~= types);
    }
}

/// Wraps `s` in double quotes.
fn quoted(s: &str) -> (r: String)
    ensures
        r@ == quote(s@),
{
    proof {
        reveal_strlit("\"");
    }
    let mut r = String::from_str("\"");
    r.append(s);
    r.append("\"");
    r
}

/// The text of a type reference (see `type_text`).
pub fn type_string(ty: &Type) -> (r: String)
    ensures
        r@ == type_text(*ty),
    decreases *ty,
{
    proof {
        reveal_strlit("[");
        reveal_strlit("]");
        reveal_strlit("!");
    }
    let mut s = match &ty.base {
        BaseType::Named(n) => n.clone(),
        BaseType::List(e) => {
            let mut s = String::from_str("[");
            let inner = type_string(e);
            s.append(inner.as_str());
            s.append("]");
            s
        },
    };
    if !ty.nullable {
        s.append("!");
    }
    s
}

/// A validation message for the value at `path_node`.
pub fn valid_error(path_node: &PathNode, msg: String) -> (r: String)
    ensures
        r@ == error_text(path_text(*path_node), msg@),
{
    proof {
        reveal_strlit(", ");
    }
    let path = path_node.to_path_string();
    let mut r = quoted(path.as_str());
    r.append(", ");
    r.append(msg.as_str());
    r
}

fn expected_message(t: &str) -> (r: String)
    ensures
        r@ == expected_text(t@),
{
    let mut r = String::from_str("expected type ");
    let q = quoted(t);
    r.append(q.as_str());
    r
}

fn enum_message(t: &str, v: &str) -> (r: String)
    ensures
        r@ == enum_text(t@, v@),
{
    let mut r = String::from_str("enumeration type ");
    let qt = quoted(t);
    r.append(qt.as_str());
    r.append(" does not contain the value ");
    let qv = quoted(v);
    r.append(qv.as_str());
    r
}

fn required_message(f: &str, t: &str) -> (r: String)
    ensures
        r@ == required_text(f@, t@),
{
    let mut r = String::from_str("field ");
    let qf = quoted(f);
    r.append(qf.as_str());
    r.append(" of type ");
    let qt = quoted(t);
    r.append(qt.as_str());
    r.append(" is required but not provided");
    r
}

fn unknown_message(f: &str, t: &str) -> (r: String)
    ensures
        r@ == unknown_text(f@, t@),
{
    let mut r = String::from_str("unknown field ");
    let qf = quoted(f);
    r.append(qf.as_str());
    r.append(" of type ");
    let qt = quoted(t);
    r.append(qt.as_str());
    r
}

fn is_integer(n: Number) -> (r: bool)
    ensures
        r == n.is_integer(),
{
    match n {
        Number::Int(_) | Number::UInt(_) => true,
        Number::FloatBits(_) => false,
    }
}

/// Whether the scalar type named `tname` accepts `value`.
pub fn is_valid_scalar_value(tname: &String, value: &Value) -> (r: bool)
    ensures
        r == scalar_accepts(tname@, value@),
{
    if *tname == String::from_str("Int") {
        match value {
            Value::Number(n) => is_integer(*n),
            _ => false,
        }
    } else if *tname == String::from_str("Float") {
        match value {
            Value::Number(_) => true,
            _ => false,
        }
    } else if *tname == String::from_str("String") {
        match value {
            Value::String(_) => true,
            _ => false,
        }
    } else if *tname == String::from_str("Boolean") {
        match value {
            Value::Boolean(_) => true,
            _ => false,
        }
    } else if *tname == String::from_str("ID") {
        match value {
            Value::String(_) => true,
            Value::Number(n) => is_integer(*n),
            _ => false,
        }
    } else {
        false
    }
}

fn contains_name(names: &Vec<String>, v: &String) -> (r: bool)
    ensures
        r == has_name(names@, v@),
{
    let mut i: usize = 0;
    while i < names.len()
        invariant
            i <= names@.len(),
            forall|j: int| 0 <= j < i ==> names@[j]@ != v@,
        decreases names@.len() - i,
    {
        if names[i] == *v {
            return true;
        }
        i = i + 1;
    }
    false
}

fn declares_exec(fields: &Vec<InputField>, k: &String) -> (r: bool)
    ensures
        r == declares(fields@, k@),
{
    let mut i: usize = 0;
    while i < fields.len()
        invariant
            i <= fields@.len(),
            forall|j: int| 0 <= j < i ==> fields@[j].name@ != k@,
        decreases fields@.len() - i,
    {
        if fields[i].name == *k {
            return true;
        }
        i = i + 1;
    }
    false
}

fn first_unknown_exec<'a>(obj: &'a Vec<(String, Value)>, fields: &Vec<InputField>) -> (r: Option<&'a String>)
    ensures
        match r {
            Some(k) => first_unknown(view_fields(obj@), fields@) == Some(k@),
            None => first_unknown(view_fields(obj@), fields@).is_none(),
        },
{
    let ghost ov = view_fields(obj@);
    proof {
        lemma_view_fields(obj@);
    }
    let mut i: usize = 0;
    while i < obj.len()
        invariant
            i <= obj@.len(),
            ov == view_fields(obj@),
            ov.len() == obj@.len(),
            forall|j: int| 0 <= j < obj@.len() ==> #[trigger] ov[j] == (obj@[j].0@, view_value(obj@[j].1)),
            first_unknown(ov.take(i as int), fields@).is_none(),
        decreases obj@.len() - i,
    {
        proof {
            assert(ov.take(i + 1).drop_last() =~= ov.take(i as int));
        }
        if !declares_exec(fields, &obj[i].0) {
            proof {
                lemma_first_unknown_prefix(ov, i + 1, fields@);
            }
            return Some(&obj[i].0);
        }
        i = i + 1;
    }
    proof {
        assert(ov.take(i as int) =~= ov);
    }
    None
}

proof fn lemma_first_unknown_prefix(obj: Seq<(Seq<char>, JValue)>, j: int, fields: Seq<InputField>)
    requires
        0 <= j <= obj.len(),
        first_unknown(obj.take(j), fields).is_some(),
    ensures
        first_unknown(obj, fields) == first_unknown(obj.take(j), fields),
    decreases obj.len(),
{
    if j < obj.len() {
        assert(obj.drop_last().take(j) =~= obj.take(j));
        lemma_first_unknown_prefix(obj.drop_last(), j, fields);
    } else {
        assert(obj.take(j) =~= obj);
    }
}

pub open spec fn result_is(r: Option<String>, m: Option<Seq<char>>) -> bool {
    match r {
        Some(x) => m == Some(x@),
        None => m.is_none(),
    }
}

/// The first failure among the elements of `items`.
#[verifier::loop_isolation(false)]
fn check_items_exec(schema: &Schema, elem: &Type, items: &Vec<Value>, path_node: PathNode) -> (r: Option<String>)
    ensures
        result_is(r, check_items(*schema, *elem, view_list(items@), path_text(path_node))),
    decreases *items, 0nat,
{
    let ghost iv = view_list(items@);
    proof {
        lemma_view_list(items@);
    }
    let mut i: usize = 0;
    while i < items.len()
        invariant
            i <= items@.len(),
            check_items(*schema, *elem, iv.take(i as int), path_text(path_node)).is_none(),
        decreases items@.len() - i,
    {
        proof {
            assert(iv.take(i + 1).drop_last() =~= iv.take(i as int));
            assert(decreases_to!(*items => items[i as int]));
        }
        let child = path_node.index(i);
        match is_valid_input_value(schema, elem, &items[i], child) {
            Some(m) => {
                proof {
                    lemma_check_items_prefix(*schema, *elem, iv, i + 1, path_text(path_node));
                }
                return Some(m);
            },
            None => {},
        }
        i = i + 1;
    }
    proof {
        assert(iv.take(i as int) =~= iv);
    }
    None
}

proof fn lemma_check_items_prefix(schema: Schema, elem: Type, items: Seq<JValue>, j: int, path: Seq<char>)
    requires
        0 <= j <= items.len(),
        check_items(schema, elem, items.take(j), path).is_some(),
    ensures
        check_items(schema, elem, items, path) == check_items(schema, elem, items.take(j), path),
    decreases items.len(),
{
    if j < items.len() {
        assert(items.drop_last().take(j) =~= items.take(j));
        lemma_check_items_prefix(schema, elem, items.drop_last(), j, path);
    } else {
        assert(items.take(j) =~= items);
    }
}

pub proof fn lemma_check_fields_prefix(
    schema: Schema,
    tname: Seq<char>,
    fields: Seq<InputField>,
    obj: Seq<(Seq<char>, JValue)>,
    j: int,
    path: Seq<char>,
)
    requires
        0 <= j <= fields.len(),
        check_fields(schema, tname, fields.take(j), obj, path).is_some(),
    ensures
        check_fields(schema, tname, fields, obj, path) == check_fields(schema, tname, fields.take(j), obj, path),
    decreases fields.len(),
{
    if j < fields.len() {
        assert(fields.drop_last().take(j) =~= fields.take(j));
        lemma_check_fields_prefix(schema, tname, fields.drop_last(), obj, j, path);
    } else {
        assert(fields.take(j) =~= fields);
    }
}

/// The first failure among the declared fields of the input object type `t`.
#[verifier::loop_isolation(false)]
fn check_fields_exec(schema: &Schema, t: &MetaType, obj: &Vec<(String, Value)>, path_node: PathNode) -> (r: Option<String>)
    ensures
        result_is(r, check_fields(*schema, t.name@, t.input_fields@, view_fields(obj@), path_text(path_node))),
    decreases *obj, t.input_fields@.len(),
{
    let ghost ov = view_fields(obj@);
    let ghost fs = t.input_fields@;
    proof {
        lemma_view_fields(obj@);
    }
    let mut i: usize = 0;
    while i < t.input_fields.len()
        invariant
            i <= fs.len(),
            check_fields(*schema, t.name@, fs.take(i as int), ov, path_text(path_node)).is_none(),
        decreases fs.len() - i,
    {
        proof {
            assert(fs.take(i + 1).drop_last() =~= fs.take(i as int));
        }
        let f = &t.input_fields[i];
        match crate::merge::find_key(obj, &f.name) {
            Some(k) => {
                proof {
                    crate::merge::lemma_key_index(ov, f.name@);
                    assert(decreases_to!(*obj => obj[k as int]));
                    assert(decreases_to!(obj[k as int] => obj[k as int].1));
                }
                let child = path_node.name(f.name.as_str());
                match is_valid_input_value(schema, &f.ty, &obj[k].1, child) {
                    Some(m) => {
                        proof {
                            lemma_check_fields_prefix(*schema, t.name@, fs, ov, i + 1, path_text(path_node));
                        }
                        return Some(m);
                    },
                    None => {},
                }
            },
            None => {
                if !f.ty.nullable && !f.has_default {
                    let body = required_message(f.name.as_str(), t.name.as_str());
                    let m = valid_error(&path_node, body);
                    proof {
                        lemma_check_fields_prefix(*schema, t.name@, fs, ov, i + 1, path_text(path_node));
                    }
                    return Some(m);
                }
            },
        }
        i = i + 1;
    }
    proof {
        assert(fs.take(i as int) =~= fs);
    }
    None
}

/// Checks `value` against the type `ty` of `schema`: `None` when it is valid,
/// otherwise the message of the first failure, prefixed by the path of the
/// value at fault.
pub fn is_valid_input_value(schema: &Schema, ty: &Type, value: &Value, path_node: PathNode) -> (r: Option<String>)
    ensures
        result_is(r, check(*schema, *ty, value@, path_text(path_node))),
    decreases *value, type_depth(*ty),
{
    let is_null = match value {
        Value::Null => true,
        _ => false,
    };
    if !ty.nullable && is_null {
        let t = type_string(ty);
        let body = expected_message(t.as_str());
        return Some(valid_error(&path_node, body));
    }
    match &ty.base {
        BaseType::List(elem) => match value {
            Value::List(items) => check_items_exec(schema, elem, items, path_node),
            Value::Null => None,
            _ => is_valid_input_value(schema, elem, value, path_node),
        },
        BaseType::Named(tname) => {
            if is_null {
                return None;
            }
            match lookup_type(schema, tname) {
                None => None,
                Some(t) => match t.kind {
                    TypeKind::Scalar => {
                        if is_valid_scalar_value(&t.name, value) {
                            None
                        } else {
                            let body = expected_message(tname.as_str());
                            Some(valid_error(&path_node, body))
                        }
                    },
                    TypeKind::Enum => match value {
                        Value::Enum(e) => {
                            if contains_name(&t.enum_values, e) {
                                None
                            } else {
                                let body = enum_message(t.name.as_str(), e.as_str());
                                Some(valid_error(&path_node, body))
                            }
                        },
                        _ => {
                            let body = expected_message(tname.as_str());
                            Some(valid_error(&path_node, body))
                        },
                    },
                    TypeKind::InputObject => match value {
                        Value::Object(obj) => {
                            match check_fields_exec(schema, t, obj, path_node) {
                                Some(m) => Some(m),
                                None => match first_unknown_exec(obj, &t.input_fields) {
                                    Some(k) => {
                                        let body = unknown_message(k.as_str(), t.name.as_str());
                                        Some(valid_error(&path_node, body))
                                    },
                                    None => None,
                                },
                            }
                        },
                        _ => {
                            let body = expected_message(tname.as_str());
                            Some(valid_error(&path_node, body))
                        },
                    },
                    _ => None,
                },
            }
        },
    }
}

} // verus!
