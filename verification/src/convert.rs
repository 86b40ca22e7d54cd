//! Values made from plain Rust values.

use crate::types::{OrderedMap, Value};
use vstd::prelude::*;
use vstd::std_specs::convert::FromSpecImpl;

verus! {

impl From<()> for Value {
    fn from(v: ()) -> (out: Self) {
        Value::Unit
    }
}

impl FromSpecImpl<()> for Value {
    open spec fn obeys_from_spec() -> bool {
        true
    }

    open spec fn from_spec(v: ()) -> Self {
        Value::Unit
    }
}

impl From<i64> for Value {
    fn from(v: i64) -> (out: Self) {
        Value::Int(v)
    }
}

impl FromSpecImpl<i64> for Value {
    open spec fn obeys_from_spec() -> bool {
        true
    }

    open spec fn from_spec(v: i64) -> Self {
        Value::Int(v)
    }
}

impl From<bool> for Value {
    fn from(v: bool) -> (out: Self) {
        Value::Bool(v)
    }
}

impl FromSpecImpl<bool> for Value {
    open spec fn obeys_from_spec() -> bool {
        true
    }

    open spec fn from_spec(v: bool) -> Self {
        Value::Bool(v)
    }
}

impl From<String> for Value {
    fn from(v: String) -> (out: Self) {
        Value::String(v)
    }
}

impl FromSpecImpl<String> for Value {
    open spec fn obeys_from_spec() -> bool {
        true
    }

    open spec fn from_spec(v: String) -> Self {
        Value::String(v)
    }
}

impl From<Vec<Value>> for Value {
    fn from(v: Vec<Value>) -> (out: Self) {
        Value::Values(v)
    }
}

impl FromSpecImpl<Vec<Value>> for Value {
    open spec fn obeys_from_spec() -> bool {
        true
    }

    open spec fn from_spec(v: Vec<Value>) -> Self {
        Value::Values(v)
    }
}

impl From<OrderedMap> for Value {
    fn from(v: OrderedMap) -> (out: Self) {
        Value::Struct(v)
    }
}

impl FromSpecImpl<OrderedMap> for Value {
    open spec fn obeys_from_spec() -> bool {
        true
    }

    open spec fn from_spec(v: OrderedMap) -> Self {
        Value::Struct(v)
    }
}

} // verus!
