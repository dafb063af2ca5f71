//! The declarative configuration data model: a tree of nulls, booleans,
//! unsigned numbers, strings, arrays and keyed objects, as produced by the
//! configuration loader. The action table and the bindings are read from
//! values of this shape.

use vstd::prelude::*;

verus! {

/// One declarative configuration value. Object entries keep the order in
/// which they were written. Numbers that are not unsigned integers carry no
/// information the tables can use and are represented as `Null`.
pub enum ConfigValue {
    Null,
    Bool(bool),
    UInt(u64),
    Str(String),
    Array(Vec<ConfigValue>),
    Object(Vec<(String, ConfigValue)>),
}

} // verus!
