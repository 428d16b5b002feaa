//! The JSON values that inference reads.
use crate::number::JsonNumber;
use vstd::prelude::*;

verus! {

broadcast use {vstd::seq::axiom_seq_index_decreases, vstd::std_specs::vec::axiom_vec_decreases_to_view};

/// A JSON document: null, a boolean, a number, a string, an array, or an object
/// given as its entries in order.
#[derive(Debug, PartialEq)]
pub enum JsonValue {
    Null,
    Bool(bool),
    Number(JsonNumber),
    String(String),
    Array(Vec<JsonValue>),
    Object(Vec<(String, JsonValue)>),
}

/// A measure of a value that every part of it is strictly below.
pub open spec fn size(v: JsonValue) -> nat
    decreases v, 1nat,
{
    match v {
        JsonValue::Array(vs) => 1 + sizes(vs@),
        JsonValue::Object(es) => 1 + entry_sizes(es@),
        _ => 1,
    }
}

pub open spec fn sizes(vs: Seq<JsonValue>) -> nat
    decreases vs, 0nat,
{
    if vs.len() == 0 {
        0
    } else {
        1 + size(vs[0]) + sizes(vs.drop_first())
    }
}

pub open spec fn entry_sizes(es: Seq<(String, JsonValue)>) -> nat
    decreases es, 0nat,
{
    if es.len() == 0 {
        0
    } else {
        1 + size(es[0].1) + entry_sizes(es.drop_first())
    }
}

} // verus!

verus! {

/// The value of the first entry whose key is `k`.
pub open spec fn find(es: Seq<(String, JsonValue)>, k: Seq<char>) -> Option<JsonValue>
    decreases es.len(),
{
    if es.len() == 0 {
        None
    } else if es[0].0@ == k {
        Some(es[0].1)
    } else {
        find(es.drop_first(), k)
    }
}

/// The key `k` stands in the object and is not set aside.
pub open spec fn present(es: Seq<(String, JsonValue)>, skip: Set<Seq<char>>, k: Seq<char>) -> bool {
    !skip.contains(k) && find(es, k) is Some
}

/// How many entries have a key outside `skip`.
pub open spec fn unskipped(es: Seq<(String, JsonValue)>, skip: Set<Seq<char>>) -> nat
    decreases es.len(),
{
    if es.len() == 0 {
        0
    } else {
        (if skip.contains(es[0].0@) { 0nat } else { 1nat }) + unskipped(es.drop_first(), skip)
    }
}

pub proof fn lemma_unskipped_insert(es: Seq<(String, JsonValue)>, skip: Set<Seq<char>>, k: Seq<char>)
    ensures
        unskipped(es, skip.insert(k)) <= unskipped(es, skip),
        present(es, skip, k) ==> unskipped(es, skip.insert(k)) < unskipped(es, skip),
    decreases es.len(),
{
    if es.len() > 0 {
        lemma_unskipped_insert(es.drop_first(), skip, k);
    }
}

} // verus!
