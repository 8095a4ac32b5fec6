use vstd::prelude::*;

verus! {

/// A JSON number: a signed integer, an unsigned integer too large for `i64`,
/// or a floating-point number held as its IEEE-754 bit pattern.
#[derive(Clone, Copy, Debug, PartialEq, Eq, Structural)]
pub enum Number {
    Int(i64),
    UInt(u64),
    FloatBits(u64),
}

impl Number {
    pub open spec fn is_integer(self) -> bool {
        self is Int || self is UInt
    }
}

/// A response or input value: null, boolean, number, string, enum token,
/// list, or object whose entries keep their insertion order.
#[derive(Debug, PartialEq)]
pub enum Value {
    Null,
    Boolean(bool),
    Number(Number),
    String(String),
    Enum(String),
    List(Vec<Value>),
    Object(Vec<(String, Value)>),
}

/// The mathematical model of a `Value`.
pub enum JValue {
    Null,
    Boolean(bool),
    Number(Number),
    String(Seq<char>),
    Enum(Seq<char>),
    List(Seq<JValue>),
    Object(Seq<(Seq<char>, JValue)>),
}

pub open spec fn view_list(s: Seq<Value>) -> Seq<JValue>
    decreases s,
{
    if s.len() == 0 {
        Seq::empty()
    } else {
        view_list(s.drop_last()).push(view_value(s.last()))
    }
}

pub open spec fn view_fields(s: Seq<(String, Value)>) -> Seq<(Seq<char>, JValue)>
    decreases s,
{
    if s.len() == 0 {
        Seq::empty()
    } else {
        view_fields(s.drop_last()).push((s.last().0@, view_value(s.last().1)))
    }
}

pub open spec fn view_value(v: Value) -> JValue
    decreases v,
{
    match v {
        Value::Null => JValue::Null,
        Value::Boolean(b) => JValue::Boolean(b),
        Value::Number(n) => JValue::Number(n),
        Value::String(s) => JValue::String(s@),
        Value::Enum(s) => JValue::Enum(s@),
        Value::List(l) => JValue::List(view_list(l@)),
        Value::Object(o) => JValue::Object(view_fields(o@)),
    }
}

impl View for Value {
    type V = JValue;

    open spec fn view(&self) -> JValue {
        view_value(*self)
    }
}

pub proof fn lemma_view_list(s: Seq<Value>)
    ensures
        view_list(s).len() == s.len(),
        forall|i: int| 0 <= i < s.len() ==> #[trigger] view_list(s)[i] == view_value(s[i]),
    decreases s.len(),
{
    if s.len() > 0 {
        lemma_view_list(s.drop_last());
    }
}

pub proof fn lemma_view_fields(s: Seq<(String, Value)>)
    ensures
        view_fields(s).len() == s.len(),
        forall|i: int|
            0 <= i < s.len() ==> #[trigger] view_fields(s)[i] == (s[i].0@, view_value(s[i].1)),
    decreases s.len(),
{
    if s.len() > 0 {
        lemma_view_fields(s.drop_last());
    }
}

} // verus!
