use vstd::prelude::*;

verus! {

/// A parsed document value: a tree of nulls, booleans, numbers, strings,
/// sequences and string-keyed mappings, with entries kept in the order the
/// document gave them. Numbers are carried as their canonical decimal text,
/// so the renderer never touches their encoding.
#[derive(Debug)]
pub enum Json {
    Null,
    Bool(bool),
    Num(Vec<char>),
    Str(Vec<char>),
    Arr(Vec<Json>),
    Obj(Vec<(Vec<char>, Json)>),
}

} // verus!
