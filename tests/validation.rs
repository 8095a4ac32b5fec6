use graphgate_core::path::PathNode;
use graphgate_core::validation::{
    referenced_variables, QueryValue,
    is_valid_input_value, is_valid_scalar_value, type_string, valid_error, BaseType, InputField,
    MetaType, Schema, Type, TypeKind,
};
use graphgate_core::value::{Number, Value};

fn s(x: &str) -> String {
    x.to_string()
}

fn named(n: &str, nullable: bool) -> Type {
    Type { base: BaseType::Named(s(n)), nullable }
}

fn list(t: Type, nullable: bool) -> Type {
    Type { base: BaseType::List(Box::new(t)), nullable }
}

fn scalar(n: &str) -> MetaType {
    MetaType { name: s(n), kind: TypeKind::Scalar, enum_values: Vec::new(), input_fields: Vec::new() }
}

fn schema() -> Schema {
    Schema {
        types: vec![
            scalar("Int"),
            scalar("Float"),
            scalar("String"),
            scalar("Boolean"),
            scalar("ID"),
            MetaType {
                name: s("Color"),
                kind: TypeKind::Enum,
                enum_values: vec![s("RED"), s("GREEN")],
                input_fields: Vec::new(),
            },
            MetaType {
                name: s("Point"),
                kind: TypeKind::InputObject,
                enum_values: Vec::new(),
                input_fields: vec![
                    InputField { name: s("x"), ty: named("Int", false), has_default: false },
                    InputField { name: s("y"), ty: named("Int", false), has_default: true },
                    InputField { name: s("label"), ty: named("String", true), has_default: false },
                ],
            },
        ],
    }
}

fn obj(entries: Vec<(&str, Value)>) -> Value {
    Value::Object(entries.into_iter().map(|(k, v)| (s(k), v)).collect())
}

fn num(n: i64) -> Value {
    Value::Number(Number::Int(n))
}

#[test]
fn non_null_int_with_null() {
    let root = PathNode::new("$var");
    let r = is_valid_input_value(&schema(), &named("Int", false), &Value::Null, root);
    assert_eq!(r, Some(s("\"$var\", expected type \"Int!\"")));
}

#[test]
fn list_of_string_coerces_single_value() {
    let root = PathNode::new("$var");
    let r = is_valid_input_value(&schema(), &list(named("String", true), true), &Value::String(s("hi")), root);
    assert_eq!(r, None);
}

#[test]
fn missing_required_field_is_named() {
    let root = PathNode::new("$p");
    let r = is_valid_input_value(&schema(), &named("Point", true), &obj(vec![("label", Value::String(s("a")))]), root);
    assert_eq!(r, Some(s("\"$p\", field \"x\" of type \"Point\" is required but not provided")));
}

#[test]
fn unknown_field_is_named() {
    let root = PathNode::new("$p");
    let r = is_valid_input_value(&schema(), &named("Point", true), &obj(vec![("x", num(1)), ("z", num(2))]), root);
    assert_eq!(r, Some(s("\"$p\", unknown field \"z\" of type \"Point\"")));
}

#[test]
fn defaulted_and_nullable_fields_may_be_missing() {
    let root = PathNode::new("$p");
    assert_eq!(is_valid_input_value(&schema(), &named("Point", true), &obj(vec![("x", num(1))]), root), None);
}

#[test]
fn nested_field_error_has_dotted_path() {
    let root = PathNode::new("$p");
    let r = is_valid_input_value(&schema(), &named("Point", true), &obj(vec![("x", Value::Boolean(true))]), root);
    assert_eq!(r, Some(s("\"$p.x\", expected type \"Int\"")));
}

#[test]
fn list_element_error_has_index() {
    let root = PathNode::new("$l");
    let v = Value::List(vec![num(1), Value::String(s("no")), num(3)]);
    let r = is_valid_input_value(&schema(), &list(named("Int", false), false), &v, root);
    assert_eq!(r, Some(s("\"$l.1\", expected type \"Int\"")));
}

#[test]
fn enum_values_are_checked() {
    let root = PathNode::new("$c");
    let ty = named("Color", true);
    assert_eq!(is_valid_input_value(&schema(), &ty, &Value::Enum(s("RED")), root), None);
    assert_eq!(
        is_valid_input_value(&schema(), &ty, &Value::Enum(s("BLUE")), root),
        Some(s("\"$c\", enumeration type \"Color\" does not contain the value \"BLUE\""))
    );
    assert_eq!(
        is_valid_input_value(&schema(), &ty, &Value::String(s("RED")), root),
        Some(s("\"$c\", expected type \"Color\""))
    );
}

#[test]
fn unknown_and_output_types_are_accepted() {
    let root = PathNode::new("$v");
    assert_eq!(is_valid_input_value(&schema(), &named("Nowhere", true), &num(1), root), None);
}

#[test]
fn scalars() {
    assert!(is_valid_scalar_value(&s("Int"), &num(1)));
    assert!(is_valid_scalar_value(&s("Int"), &Value::Number(Number::UInt(u64::MAX))));
    assert!(!is_valid_scalar_value(&s("Int"), &Value::Number(Number::FloatBits(1.5f64.to_bits()))));
    assert!(is_valid_scalar_value(&s("Float"), &Value::Number(Number::FloatBits(1.5f64.to_bits()))));
    assert!(is_valid_scalar_value(&s("Float"), &num(2)));
    assert!(is_valid_scalar_value(&s("String"), &Value::String(s("a"))));
    assert!(!is_valid_scalar_value(&s("String"), &num(2)));
    assert!(is_valid_scalar_value(&s("Boolean"), &Value::Boolean(false)));
    assert!(is_valid_scalar_value(&s("ID"), &Value::String(s("a"))));
    assert!(is_valid_scalar_value(&s("ID"), &num(7)));
    assert!(!is_valid_scalar_value(&s("ID"), &Value::Boolean(true)));
    assert!(!is_valid_scalar_value(&s("Date"), &Value::String(s("a"))));
}

#[test]
fn paths_and_types_render() {
    let root = PathNode::new("$a");
    let b = root.name("b");
    let c = b.index(12);
    assert_eq!(c.to_path_string(), "$a.b.12");
    assert_eq!(valid_error(&c, s("oops")), "\"$a.b.12\", oops");
    assert_eq!(type_string(&list(named("Int", false), true)), "[Int!]");
    assert_eq!(type_string(&list(list(named("ID", true), false), false)), "[[ID]!]!");
}

#[test]
fn referenced_variables_in_document_order() {
    let v = QueryValue::Object(vec![
        (s("a"), QueryValue::Variable(s("x"))),
        (
            s("b"),
            QueryValue::List(vec![
                QueryValue::Const(num(1)),
                QueryValue::Variable(s("y")),
                QueryValue::Object(vec![(s("c"), QueryValue::Variable(s("x")))]),
            ]),
        ),
    ]);
    assert_eq!(referenced_variables(&v), vec![s("x"), s("y"), s("x")]);
    assert!(referenced_variables(&QueryValue::Const(Value::Null)).is_empty());
}
