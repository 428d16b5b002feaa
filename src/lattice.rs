//! The inference lattice as a mathematical value, and the join that folds one
//! JSON example into it.
use crate::hints::HintsModel;
use crate::json::{entry_sizes, find, size, sizes, unskipped, JsonValue, lemma_unskipped_insert};
use crate::number::{spec_type_of, InferredNumber, NumType};
use crate::schema::{with_nullable, SchemaModel, Type};
use crate::text::{decimal, is_rfc3339};
use vstd::prelude::*;

verus! {

broadcast use {vstd::seq::axiom_seq_index_decreases, vstd::std_specs::vec::axiom_vec_decreases_to_view};

/// What has been inferred at one position. Mappings are lists of entries in
/// order, each key standing for the first entry that carries it.
pub enum Inference {
    Unknown,
    Any,
    Boolean,
    Number(InferredNumber),
    String,
    Timestamp,
    Enum(Set<Seq<char>>),
    Array(Box<Inference>),
    Properties { required: Seq<(Seq<char>, Inference)>, optional: Seq<(Seq<char>, Inference)> },
    Values(Box<Inference>),
    Discriminator { tag: Seq<char>, mapping: Seq<(Seq<char>, Inference)> },
    Nullable(Box<Inference>),
}

/// The index of the first entry whose key is `k`, or -1.
pub open spec fn index_of<V>(al: Seq<(Seq<char>, V)>, k: Seq<char>) -> int
    decreases al.len(),
{
    if al.len() == 0 {
        -1
    } else if al[0].0 == k {
        0
    } else {
        let r = index_of(al.drop_first(), k);
        if r < 0 {
            -1
        } else {
            r + 1
        }
    }
}

/// The entries of `al` whose key stands in the object (`keep`), or those whose
/// key does not (`!keep`), in order.
pub open spec fn split_present(
    al: Seq<(Seq<char>, Inference)>,
    es: Seq<(String, JsonValue)>,
    skip: Set<Seq<char>>,
    keep: bool,
) -> Seq<(Seq<char>, Inference)>
    decreases al.len(),
{
    if al.len() == 0 {
        Seq::empty()
    } else {
        let rest = split_present(al.drop_last(), es, skip, keep);
        let k = al.last().0;
        if (!skip.contains(k) && find(es, k) is Some) == keep {
            rest.push(al.last())
        } else {
            rest
        }
    }
}

/// The key `d`, if there is one, with the string that the object holds under
/// it, when `d` is not set aside.
pub open spec fn tag_of(es: Seq<(String, JsonValue)>, skip: Set<Seq<char>>, d: Option<Seq<char>>) -> Option<
    (Seq<char>, Seq<char>),
> {
    match d {
        Some(d) => if !skip.contains(d) && find(es, d) is Some && find(es, d).unwrap() is String {
            Some((d, find(es, d).unwrap()->String_0@))
        } else {
            None
        },
        None => None,
    }
}

/// Folds the JSON value `v` into `s`, with the hints `h` of the position.
pub open spec fn fold(s: Inference, v: JsonValue, h: HintsModel) -> Inference
    decreases size(v), 0nat, 5nat, s,
{
    if v is Null {
        Inference::Nullable(Box::new(s))
    } else {
        match s {
            Inference::Nullable(inner) => Inference::Nullable(Box::new(fold(*inner, v, h))),
            _ => fold_base(s, v, h),
        }
    }
}

/// The join for a position that is not nullable and a value that is not null.
pub open spec fn fold_base(s: Inference, v: JsonValue, h: HintsModel) -> Inference
    decreases size(v), 0nat, 4nat, s,
{
    match v {
        JsonValue::Object(es) => fold_entries(s, es@, Set::empty(), h),
        JsonValue::Array(vs) => match s {
            Inference::Unknown => Inference::Array(Box::new(fold_items(Inference::Unknown, vs@, 0, h))),
            Inference::Array(c) => Inference::Array(Box::new(fold_items(*c, vs@, 0, h))),
            _ => Inference::Any,
        },
        _ => match s {
            Inference::Unknown => match v {
                JsonValue::Bool(_) => Inference::Boolean,
                JsonValue::Number(n) => Inference::Number(InferredNumber::empty().observe(n)),
                JsonValue::String(t) => fold_text(s, t@, is_rfc3339(t@), h),
                _ => Inference::Any,
            },
            Inference::Boolean => if v is Bool {
                Inference::Boolean
            } else {
                Inference::Any
            },
            Inference::Number(n) => match v {
                JsonValue::Number(x) => Inference::Number(n.observe(x)),
                _ => Inference::Any,
            },
            _ => match v {
                JsonValue::String(t) => fold_text(s, t@, is_rfc3339(t@), h),
                _ => Inference::Any,
            },
            _ => Inference::Any,
        },
    }
}

/// Folds the string `t` into `s`, given whether `t` is an RFC 3339 timestamp.
pub open spec fn fold_text(s: Inference, t: Seq<char>, is_timestamp: bool, h: HintsModel) -> Inference
    decreases s,
{
    match s {
        Inference::Nullable(inner) => Inference::Nullable(Box::new(fold_text(*inner, t, is_timestamp, h))),
        Inference::Unknown => if h.enum_active() {
            Inference::Enum(set![t])
        } else if is_timestamp {
            Inference::Timestamp
        } else {
            Inference::String
        },
        Inference::Timestamp => if is_timestamp {
            Inference::Timestamp
        } else {
            Inference::String
        },
        Inference::String => Inference::String,
        Inference::Enum(vs) => Inference::Enum(vs.insert(t)),
        _ => Inference::Any,
    }
}

/// Folds the elements of an array, the one at index `start + i` with the hints
/// of that index.
pub open spec fn fold_items(c: Inference, items: Seq<JsonValue>, start: nat, h: HintsModel) -> Inference
    decreases sizes(items), 0nat, 6nat, c,
{
    if items.len() == 0 {
        c
    } else {
        fold_items(fold(c, items[0], h.sub(decimal(start))), items.drop_first(), start + 1, h)
    }
}

/// Folds the object made of the entries of `es` whose key is not in `skip`.
pub open spec fn fold_entries(
    s: Inference,
    es: Seq<(String, JsonValue)>,
    skip: Set<Seq<char>>,
    h: HintsModel,
) -> Inference
    decreases entry_sizes(es), unskipped(es, skip), 3nat, s,
{
    match s {
        Inference::Nullable(inner) => Inference::Nullable(Box::new(fold_entries(*inner, es, skip, h))),
        _ => fold_object(s, es, skip, h),
    }
}

pub open spec fn fold_object(
    s: Inference,
    es: Seq<(String, JsonValue)>,
    skip: Set<Seq<char>>,
    h: HintsModel,
) -> Inference
    decreases entry_sizes(es), unskipped(es, skip), 2nat, s,
{
    match s {
        Inference::Unknown => if h.values_active() {
            Inference::Values(Box::new(fold_values(Inference::Unknown, es, skip, h)))
        } else {
            match tag_of(es, skip, h.discriminator_key()) {
                Some((d, t)) => {
                    proof {
                        lemma_unskipped_insert(es, skip, d);
                    }
                    let f = fold_fields(Seq::empty(), Seq::empty(), es, skip.insert(d), h, true);
                    Inference::Discriminator {
                        tag: d,
                        mapping: seq![(t, Inference::Properties { required: f.0, optional: f.1 })],
                    }
                },
                None => {
                    let f = fold_fields(Seq::empty(), Seq::empty(), es, skip, h, true);
                    Inference::Properties { required: f.0, optional: f.1 }
                },
            }
        },
        Inference::Properties { required, optional } => {
            let kept = split_present(required, es, skip, true);
            let moved = split_present(required, es, skip, false);
            let f = fold_fields(kept, optional + moved, es, skip, h, false);
            Inference::Properties { required: f.0, optional: f.1 }
        },
        Inference::Values(c) => Inference::Values(Box::new(fold_values(*c, es, skip, h))),
        Inference::Discriminator { tag, mapping } => match tag_of(es, skip, Some(tag)) {
            Some((_, t)) => {
                proof {
                    lemma_unskipped_insert(es, skip, tag);
                }
                let i = index_of(mapping, t);
                let prior = if i >= 0 {
                    mapping[i].1
                } else {
                    Inference::Unknown
                };
                let branch = fold_entries(prior, es, skip.insert(tag), h);
                Inference::Discriminator {
                    tag,
                    mapping: if i >= 0 {
                        mapping.update(i, (t, branch))
                    } else {
                        mapping.push((t, branch))
                    },
                }
            },
            None => Inference::Any,
        },
        _ => Inference::Any,
    }
}

/// Folds every value of the object into the one child `c`, each with the hints
/// of its key.
pub open spec fn fold_values(
    c: Inference,
    es: Seq<(String, JsonValue)>,
    skip: Set<Seq<char>>,
    h: HintsModel,
) -> Inference
    decreases entry_sizes(es), unskipped(es, skip), 1nat, c,
{
    if es.len() == 0 {
        c
    } else {
        let k = es[0].0@;
        let c2 = if skip.contains(k) {
            c
        } else {
            fold(c, es[0].1, h.sub(k))
        };
        fold_values(c2, es.drop_first(), skip, h)
    }
}

/// Folds each entry of the object into the field of its key: into `req` if the
/// key is there, else into `opt` if it is there, else into a new field from
/// `Unknown`, added to `req` when `to_required` holds and to `opt` otherwise.
pub open spec fn fold_fields(
    req: Seq<(Seq<char>, Inference)>,
    opt: Seq<(Seq<char>, Inference)>,
    es: Seq<(String, JsonValue)>,
    skip: Set<Seq<char>>,
    h: HintsModel,
    to_required: bool,
) -> (Seq<(Seq<char>, Inference)>, Seq<(Seq<char>, Inference)>)
    decreases entry_sizes(es), unskipped(es, skip), 1nat, Inference::Unknown,
{
    if es.len() == 0 {
        (req, opt)
    } else {
        let k = es[0].0@;
        let v = es[0].1;
        let i = index_of(req, k);
        let j = index_of(opt, k);
        let next = if skip.contains(k) {
            (req, opt)
        } else if i >= 0 {
            (req.update(i, (k, fold(req[i].1, v, h.sub(k)))), opt)
        } else if j >= 0 {
            (req, opt.update(j, (k, fold(opt[j].1, v, h.sub(k)))))
        } else if to_required {
            (req.push((k, fold(Inference::Unknown, v, h.sub(k)))), opt)
        } else {
            (req, opt.push((k, fold(Inference::Unknown, v, h.sub(k)))))
        };
        fold_fields(next.0, next.1, es.drop_first(), skip, h, to_required)
    }
}

/// The schema that an inference stands for, numbers preferring `nt`.
pub open spec fn project(s: Inference, nt: NumType) -> SchemaModel
    decreases s, 1nat,
{
    match s {
        Inference::Unknown | Inference::Any => SchemaModel::Empty,
        Inference::Boolean => SchemaModel::Type { nullable: false, type_: Type::Boolean },
        Inference::Number(n) => SchemaModel::Type { nullable: false, type_: spec_type_of(n.narrowest(nt)) },
        Inference::String => SchemaModel::Type { nullable: false, type_: Type::String },
        Inference::Timestamp => SchemaModel::Type { nullable: false, type_: Type::Timestamp },
        Inference::Enum(vs) => SchemaModel::Enum { nullable: false, enum_: vs },
        Inference::Array(c) => SchemaModel::Elements { nullable: false, elements: Box::new(project(*c, nt)) },
        Inference::Properties { required, optional } => SchemaModel::Properties {
            nullable: false,
            properties: project_entries(required, nt),
            optional_properties: project_entries(optional, nt),
            properties_is_present: required.len() > 0,
            additional_properties: false,
        },
        Inference::Values(c) => SchemaModel::Values { nullable: false, values: Box::new(project(*c, nt)) },
        Inference::Discriminator { tag, mapping } => SchemaModel::Discriminator {
            nullable: false,
            discriminator: tag,
            mapping: project_entries(mapping, nt),
        },
        Inference::Nullable(c) => with_nullable(project(*c, nt)),
    }
}

/// Each entry's key with the schema of its inference.
pub open spec fn project_entries(al: Seq<(Seq<char>, Inference)>, nt: NumType) -> Seq<(Seq<char>, SchemaModel)>
    decreases al, 0nat,
{
    if al.len() == 0 {
        Seq::empty()
    } else {
        seq![(al[0].0, project(al[0].1, nt))] + project_entries(al.drop_first(), nt)
    }
}

pub broadcast proof fn lemma_project_entries(al: Seq<(Seq<char>, Inference)>, nt: NumType)
    ensures
        (#[trigger] project_entries(al, nt)).len() == al.len(),
        forall|i: int| 0 <= i < al.len() ==> #[trigger] project_entries(al, nt)[i] == (al[i].0, project(al[i].1, nt)),
    decreases al.len(),
{
    if al.len() > 0 {
        lemma_project_entries(al.drop_first(), nt);
    }
}

pub proof fn lemma_index_of_first<V>(al: Seq<(Seq<char>, V)>, k: Seq<char>, i: int)
    requires
        0 <= i < al.len(),
        al[i].0 == k,
        forall|j: int| 0 <= j < i ==> al[j].0 != k,
    ensures
        index_of(al, k) == i,
    decreases al.len(),
{
    if i > 0 {
        lemma_index_of_first(al.drop_first(), k, i - 1);
    }
}

pub proof fn lemma_index_of_none<V>(al: Seq<(Seq<char>, V)>, k: Seq<char>)
    requires
        forall|j: int| 0 <= j < al.len() ==> al[j].0 != k,
    ensures
        index_of(al, k) == -1,
    decreases al.len(),
{
    if al.len() > 0 {
        lemma_index_of_none(al.drop_first(), k);
    }
}

pub proof fn lemma_index_of_key<V>(al: Seq<(Seq<char>, V)>, k: Seq<char>)
    ensures
        -1 <= index_of(al, k) < al.len(),
        index_of(al, k) >= 0 ==> al[index_of(al, k)].0 == k,
    decreases al.len(),
{
    if al.len() > 0 {
        lemma_index_of_key(al.drop_first(), k);
    }
}

} // verus!
