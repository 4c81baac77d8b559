use tree_transform::node::{EnumJsTypes, EnumKeyTypes, Node};
use tree_transform::value::{Scalar, Value};
use tree_transform::{
    get_tree_modified, get_value_returned_from_callback, EngineError, IdentityCallback, RejectAll,
    ScaleNumbers,
};

fn num(n: i64) -> Value {
    Value::Scalar(Scalar::Int(n))
}

fn text(s: &str) -> Value {
    Value::Scalar(Scalar::Text(s.to_string()))
}

fn obj(entries: Vec<(&str, Value)>) -> Value {
    Value::Object(entries.into_iter().map(|(k, v)| (k.to_string(), v)).collect())
}

/// `{"a": [1, 2, {"b": 3}]}` with integer leaves multiplied by ten.
fn sample(scale: i64) -> Value {
    obj(vec![(
        "a",
        Value::Array(vec![
            num(1 * scale),
            num(2 * scale),
            obj(vec![("b", num(3 * scale))]),
        ]),
    )])
}

#[test]
fn scenario_multiply_leaves_by_ten() {
    let out = get_tree_modified(sample(1), &ScaleNumbers { factor: 10 });
    assert_eq!(out, Ok(sample(10)));
}

#[test]
fn empty_sequence_callback_never_invoked() {
    // RejectAll fails on every leaf, so success shows no leaf was visited.
    let out = get_tree_modified(Value::Array(Vec::new()), &RejectAll);
    assert_eq!(out, Ok(Value::Array(Vec::new())));
}

#[test]
fn bare_scalar_root_is_transformed() {
    let out = get_tree_modified(num(7), &ScaleNumbers { factor: 10 });
    assert_eq!(out, Ok(num(70)));
}

#[test]
fn bare_scalar_root_reaches_callback() {
    let out = get_tree_modified(text("leaf"), &RejectAll);
    assert_eq!(out, Err(EngineError::CallbackFailed));
}

#[test]
fn identity_returns_equal_tree() {
    let out = get_tree_modified(sample(1), &IdentityCallback);
    assert_eq!(out, Ok(sample(1)));
}

#[test]
fn leafless_tree_unchanged_under_failing_callback() {
    let input = Value::Array(vec![Value::Array(Vec::new()), obj(Vec::new())]);
    let expected = Value::Array(vec![Value::Array(Vec::new()), obj(Vec::new())]);
    let out = get_tree_modified(input, &RejectAll);
    assert_eq!(out, Ok(expected));
}

#[test]
fn callback_failure_propagates() {
    let out = get_tree_modified(sample(1), &RejectAll);
    assert_eq!(out, Err(EngineError::CallbackFailed));
}

#[test]
fn overflow_in_callback_fails() {
    let input = Value::Array(vec![num(1), num(i64::MAX)]);
    let out = get_tree_modified(input, &ScaleNumbers { factor: 10 });
    assert_eq!(out, Err(EngineError::CallbackFailed));
}

#[test]
fn deep_nesting_ten_thousand_levels() {
    let mut v = num(1);
    for _ in 0..10000 {
        v = Value::Array(vec![v]);
    }
    let out = get_tree_modified(v, &ScaleNumbers { factor: 10 }).unwrap();
    let mut depth = 0u32;
    let mut cur = &out;
    loop {
        match cur {
            Value::Array(children) => {
                assert_eq!(children.len(), 1);
                cur = &children[0];
                depth += 1;
            }
            Value::Scalar(s) => {
                assert_eq!(*s, Scalar::Int(10));
                break;
            }
            Value::Object(_) => panic!("unexpected map level"),
        }
    }
    assert_eq!(depth, 10000);
}

#[test]
fn sequence_order_is_preserved() {
    let input = Value::Array(vec![num(1), num(2), num(3), num(4)]);
    let out = get_tree_modified(input, &ScaleNumbers { factor: 10 });
    let expected = Value::Array(vec![num(10), num(20), num(30), num(40)]);
    assert_eq!(out, Ok(expected));
}

#[test]
fn map_keys_are_preserved() {
    let input = obj(vec![("x", num(1)), ("y", num(2))]);
    let out = get_tree_modified(input, &ScaleNumbers { factor: 10 });
    assert_eq!(out, Ok(obj(vec![("x", num(10)), ("y", num(20))])));
}

#[test]
fn callback_helper_maps_failure() {
    let r = get_value_returned_from_callback(&Scalar::Int(1), &RejectAll);
    assert_eq!(r, Err(EngineError::CallbackFailed));
    let ok = get_value_returned_from_callback(&Scalar::Int(2), &ScaleNumbers { factor: 10 });
    assert_eq!(ok, Ok(Scalar::Int(20)));
}

#[test]
fn classify_text_is_not_iterable() {
    let t = Node::get_enum_type_iterable_or_not_iterable(&text("abc"));
    assert_eq!(t, EnumJsTypes::TypeNotIterableOrIsString);
    let a = Node::get_enum_type_iterable_or_not_iterable(&Value::Array(Vec::new()));
    assert_eq!(a, EnumJsTypes::TypeArray);
    let o = Node::get_enum_type_iterable_or_not_iterable(&obj(Vec::new()));
    assert_eq!(o, EnumJsTypes::TypeObject);
}

#[test]
fn get_value_on_unset_node_is_shape_mismatch() {
    let n = Node::new();
    assert_eq!(n.get_value(), Err(EngineError::ShapeMismatch));
}

#[test]
fn set_value_at_missing_index_fails() {
    let mut n = Node::new();
    n.setup(Value::Array(vec![num(1)]), 0, None);
    let r = n.set_value_at_key(&EnumKeyTypes::TypeInt(5), num(9));
    assert_eq!(r, Err(EngineError::MissingIndex));
}

#[test]
fn set_value_with_wrong_key_kind_fails() {
    let mut n = Node::new();
    n.setup(Value::Array(vec![num(1)]), 0, None);
    let r = n.set_value_at_key(&EnumKeyTypes::TypeString("a".to_string()), num(9));
    assert_eq!(r, Err(EngineError::ShapeMismatch));
    let mut leaf = Node::new();
    leaf.setup(num(1), 0, None);
    let r2 = leaf.set_value_at_key(&EnumKeyTypes::TypeInt(0), num(9));
    assert_eq!(r2, Err(EngineError::ShapeMismatch));
}

#[test]
fn set_value_at_string_key_updates_entry() {
    let mut n = Node::new();
    n.setup(obj(vec![("a", num(1)), ("b", num(2))]), 0, None);
    let r = n.set_value_at_key(&EnumKeyTypes::TypeString("b".to_string()), num(9));
    assert_eq!(r, Ok(()));
    assert_eq!(n.get_value(), Ok(obj(vec![("a", num(1)), ("b", num(9))])));
}

#[test]
fn children_keep_container_shape() {
    let mut n = Node::new();
    n.setup(Value::Array(vec![num(1), num(2)]), 3, None);
    let children = n.get_vec_of_node_children();
    assert_eq!(children.len(), 2);
    assert!(children.iter().all(|c| c.field_usize_layer == 4));
    assert!(n.logic_has_children());
}

#[test]
fn children_of_unset_or_scalar_node_are_empty() {
    let mut unset = Node::new();
    let none = unset.get_vec_of_node_children();
    assert!(none.is_empty());
    assert_eq!(unset.get_value(), Err(EngineError::ShapeMismatch));
    let mut leaf = Node::new();
    leaf.setup(num(5), 2, None);
    let children = leaf.get_vec_of_node_children();
    assert!(children.is_empty());
    assert_eq!(leaf.get_value(), Ok(num(5)));
}
