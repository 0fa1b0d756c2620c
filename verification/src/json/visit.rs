//! A visitor over JSON span trees.

use vstd::prelude::*;

verus! {

use crate::json::types::{Array, Bool, JsonKey, JsonValue, KeyValue, Null, Number, Object, String};

/// A visitor for JSON values.
///
/// Every hook defaults to doing nothing. The traversal itself is driven
/// by [`walk_value`], which calls `visit_value` for every node, the
/// matching per-kind hook, and `visit_key_value` and `visit_key` for
/// object members, recursing into containers; overriding a leaf hook
/// alone is enough to act on every leaf of a tree.
pub trait JsonVisit {
    /// Visit a key value pair in a JSON object.
    fn visit_key_value(&mut self, node: &KeyValue) {
    }

    /// Visit a key in a JSON object.
    fn visit_key(&mut self, node: &JsonKey) {
    }

    /// Visit a JSON value of any kind.
    fn visit_value(&mut self, node: &JsonValue) {
    }

    /// Visit an array value.
    fn visit_array(&mut self, node: &Array) {
    }

    /// Visit an object value.
    fn visit_object(&mut self, node: &Object) {
    }

    /// Visit a null value.
    fn visit_null(&mut self, node: &Null) {
    }

    /// Visit a boolean value.
    fn visit_bool(&mut self, node: &Bool) {
    }

    /// Visit a number value.
    fn visit_number(&mut self, node: &Number) {
    }

    /// Visit a string value.
    fn visit_string(&mut self, node: &String) {
    }
}

/// Walks a value tree, calling the visitor's hooks on every node, in
/// document order, containers before their children.
pub fn walk_value<V: JsonVisit>(visitor: &mut V, node: &JsonValue)
    decreases *node,
{
    visitor.visit_value(node);
    match node {
        JsonValue::Null(x) => visitor.visit_null(x),
        JsonValue::Bool(x) => visitor.visit_bool(x),
        JsonValue::Number(x) => visitor.visit_number(x),
        JsonValue::String(x) => visitor.visit_string(x),
        JsonValue::Array(x) => {
            visitor.visit_array(x);
            let mut i: usize = 0;
            while i < x.elems.len()
                invariant
                    *node == JsonValue::Array(*x),
                    0 <= i <= x.elems@.len(),
                decreases x.elems@.len() - i,
            {
                proof {
                    assert(*node == JsonValue::Array(*x));
                    crate::json::types::lemma_value_elem_decreases(*node);
                }
                walk_value(visitor, &x.elems[i]);
                i = i + 1;
            }
        },
        JsonValue::Object(x) => {
            visitor.visit_object(x);
            let mut i: usize = 0;
            while i < x.elems.len()
                invariant
                    *node == JsonValue::Object(*x),
                    0 <= i <= x.elems@.len(),
                decreases x.elems@.len() - i,
            {
                proof {
                    assert(*node == JsonValue::Object(*x));
                    crate::json::types::lemma_value_elem_decreases(*node);
                }
                let kv = &x.elems[i];
                visitor.visit_key_value(kv);
                visitor.visit_key(&kv.key);
                walk_value(visitor, &kv.value);
                i = i + 1;
            }
        },
    }
}

} // verus!