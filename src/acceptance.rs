//! What a schema accepts, what an inference admits, and how the two agree.
use crate::json::{find, present, JsonValue};
use crate::hints::HintsModel;
use crate::json::{entry_sizes, lemma_unskipped_insert, size, sizes, unskipped};
use crate::lattice::{
    fold, fold_base, fold_entries, fold_fields, fold_items, fold_object, fold_values, lemma_index_of_first,
    split_present,
};
use crate::text::decimal;
use crate::lattice::{
    index_of, lemma_index_of_key, lemma_project_entries, project, project_entries, tag_of, Inference,
};
use crate::number::{spec_range, NumType};
use crate::schema::{with_nullable, SchemaModel, Type};
use crate::text::is_rfc3339;
use vstd::prelude::*;

verus! {

broadcast use {vstd::seq::axiom_seq_index_decreases, vstd::std_specs::vec::axiom_vec_decreases_to_view};

/// The least and greatest value of an integer type of the type form.
pub open spec fn int_bounds(t: Type) -> Option<(int, int)> {
    match t {
        Type::Int8 => Some(spec_range(NumType::Int8)),
        Type::Uint8 => Some(spec_range(NumType::Uint8)),
        Type::Int16 => Some(spec_range(NumType::Int16)),
        Type::Uint16 => Some(spec_range(NumType::Uint16)),
        Type::Int32 => Some(spec_range(NumType::Int32)),
        Type::Uint32 => Some(spec_range(NumType::Uint32)),
        _ => None,
    }
}

/// Whether a value is of the primitive type `t`.
pub open spec fn type_accepts(t: Type, v: JsonValue) -> bool {
    match v {
        JsonValue::Bool(_) => t == Type::Boolean,
        JsonValue::String(s) => t == Type::String || (t == Type::Timestamp && is_rfc3339(s@)),
        JsonValue::Number(x) => t == Type::Float32 || t == Type::Float64 || match int_bounds(t) {
            Some((lo, hi)) => x.integral && lo <= x.whole <= hi,
            None => false,
        },
        _ => false,
    }
}

pub open spec fn is_nullable(s: SchemaModel) -> bool {
    match s {
        SchemaModel::Empty => false,
        SchemaModel::Type { nullable, .. } => nullable,
        SchemaModel::Enum { nullable, .. } => nullable,
        SchemaModel::Elements { nullable, .. } => nullable,
        SchemaModel::Properties { nullable, .. } => nullable,
        SchemaModel::Values { nullable, .. } => nullable,
        SchemaModel::Discriminator { nullable, .. } => nullable,
    }
}

/// Whether the schema accepts the value, by the rules of RFC 8927 for schemas
/// without definitions. Only the first entry of an object with a given key
/// counts as its value.
pub open spec fn accepts(s: SchemaModel, v: JsonValue) -> bool
    decreases s, 1nat,
{
    if v is Null && is_nullable(s) {
        true
    } else {
        match s {
            SchemaModel::Empty => true,
            SchemaModel::Type { type_, .. } => type_accepts(type_, v),
            SchemaModel::Enum { enum_, .. } => v is String && enum_.contains(v->String_0@),
            SchemaModel::Elements { elements, .. } => match v {
                JsonValue::Array(vs) => forall|i: int| 0 <= i < vs@.len() ==> accepts(*elements, #[trigger] vs@[i]),
                _ => false,
            },
            _ => match v {
                JsonValue::Object(es) => accepts_object(s, es@, Set::empty()),
                _ => false,
            },
        }
    }
}

/// Whether the schema accepts the object made of the entries of `es` whose key
/// is not in `skip`. The branch of a discriminator sees the object without the
/// tag's entry.
pub open spec fn accepts_object(s: SchemaModel, es: Seq<(String, JsonValue)>, skip: Set<Seq<char>>) -> bool
    decreases s, 0nat,
{
    match s {
        SchemaModel::Empty => true,
        SchemaModel::Properties { properties, optional_properties, additional_properties, .. } => {
            &&& forall|i: int|
                0 <= i < properties.len() ==> present(es, skip, #[trigger] properties[i].0) && accepts(
                    properties[i].1,
                    find(es, properties[i].0)->Some_0,
                )
            &&& forall|i: int|
                0 <= i < optional_properties.len() ==> present(es, skip, #[trigger] optional_properties[i].0)
                    ==> accepts(optional_properties[i].1, find(es, optional_properties[i].0)->Some_0)
            &&& !additional_properties ==> forall|j: int|
                0 <= j < es.len() ==> skip.contains(#[trigger] es[j].0@) || index_of(properties, es[j].0@) >= 0
                    || index_of(optional_properties, es[j].0@) >= 0
        },
        SchemaModel::Values { values, .. } => forall|j: int|
            0 <= j < es.len() ==> !skip.contains(#[trigger] es[j].0@) ==> accepts(*values, es[j].1),
        SchemaModel::Discriminator { discriminator, mapping, .. } => match tag_of(es, skip, Some(discriminator)) {
            Some((_, t)) => index_of(mapping, t) >= 0 && {
                proof {
                    lemma_index_of_key(mapping, t);
                }
                accepts_object(
                mapping[index_of(mapping, t)].1,
                es,
                skip.insert(discriminator),
            )
            },
            None => false,
        },
        _ => false,
    }
}

/// Whether the inference has room for the value: every example folded into it
/// is admitted, and the schema it stands for accepts whatever it admits.
pub open spec fn admits(s: Inference, v: JsonValue) -> bool
    decreases s, 1nat,
{
    match s {
        Inference::Any => true,
        Inference::Nullable(inner) => v is Null || admits(*inner, v),
        Inference::Boolean => v is Bool,
        Inference::Number(n) => match v {
            JsonValue::Number(x) => n.min <= x.whole <= n.max && (n.integral ==> x.integral),
            _ => false,
        },
        Inference::String => v is String,
        Inference::Timestamp => match v {
            JsonValue::String(t) => is_rfc3339(t@),
            _ => false,
        },
        Inference::Enum(vs) => match v {
            JsonValue::String(t) => vs.contains(t@),
            _ => false,
        },
        Inference::Array(c) => match v {
            JsonValue::Array(vs) => forall|i: int| 0 <= i < vs@.len() ==> admits(*c, #[trigger] vs@[i]),
            _ => false,
        },
        Inference::Properties { .. } | Inference::Values(_) | Inference::Discriminator { .. } => match v {
            JsonValue::Object(es) => admits_object(s, es@, Set::empty()),
            _ => false,
        },
        Inference::Unknown => false,
    }
}

/// Whether the inference has room for the object made of the entries of `es`
/// whose key is not in `skip`.
pub open spec fn admits_object(s: Inference, es: Seq<(String, JsonValue)>, skip: Set<Seq<char>>) -> bool
    decreases s, 0nat,
{
    match s {
        Inference::Any => true,
        Inference::Nullable(inner) => admits_object(*inner, es, skip),
        Inference::Properties { required, optional } => {
            &&& forall|i: int|
                0 <= i < required.len() ==> present(es, skip, #[trigger] required[i].0) && admits(
                    required[i].1,
                    find(es, required[i].0)->Some_0,
                )
            &&& forall|i: int|
                0 <= i < optional.len() ==> present(es, skip, #[trigger] optional[i].0) ==> admits(
                    optional[i].1,
                    find(es, optional[i].0)->Some_0,
                )
            &&& forall|j: int|
                0 <= j < es.len() ==> skip.contains(#[trigger] es[j].0@) || index_of(required, es[j].0@) >= 0
                    || index_of(optional, es[j].0@) >= 0
        },
        Inference::Values(c) => forall|j: int|
            0 <= j < es.len() ==> !skip.contains(#[trigger] es[j].0@) ==> admits(*c, es[j].1),
        Inference::Discriminator { tag, mapping } => match tag_of(es, skip, Some(tag)) {
            Some((_, t)) => index_of(mapping, t) >= 0 && {
                proof {
                    lemma_index_of_key(mapping, t);
                }
                admits_object(
                mapping[index_of(mapping, t)].1,
                es,
                skip.insert(tag),
            )
            },
            None => false,
        },
        _ => false,
    }
}

proof fn lemma_with_nullable_accepts(s: SchemaModel, v: JsonValue)
    ensures
        v is Null ==> accepts(with_nullable(s), v),
        accepts(s, v) ==> accepts(with_nullable(s), v),
{
    if let JsonValue::Object(es) = v {
        lemma_with_nullable_accepts_object(s, es@, Set::empty());
    }
}

proof fn lemma_with_nullable_accepts_object(s: SchemaModel, es: Seq<(String, JsonValue)>, skip: Set<Seq<char>>)
    ensures
        accepts_object(s, es, skip) ==> accepts_object(with_nullable(s), es, skip),
{
}

proof fn lemma_index_of_project(al: Seq<(Seq<char>, Inference)>, nt: NumType, k: Seq<char>)
    ensures
        index_of(project_entries(al, nt), k) == index_of(al, k),
    decreases al.len(),
{
    lemma_project_entries(al, nt);
    if al.len() > 0 {
        lemma_index_of_project(al.drop_first(), nt, k);
        lemma_project_entries(al.drop_first(), nt);
        assert(project_entries(al, nt).drop_first() =~= project_entries(al.drop_first(), nt));
    }
}

/// What an inference admits, the schema it stands for accepts.
pub proof fn lemma_admits_accepts(s: Inference, v: JsonValue, nt: NumType)
    requires
        admits(s, v),
    ensures
        accepts(project(s, nt), v),
    decreases s, 1nat,
{
    match s {
        Inference::Nullable(inner) => {
            if !(v is Null) {
                lemma_admits_accepts(*inner, v, nt);
            }
            lemma_with_nullable_accepts(project(*inner, nt), v);
        },
        Inference::Array(c) => {
            if let JsonValue::Array(vs) = v {
                assert forall|i: int| 0 <= i < vs@.len() implies accepts(project(*c, nt), #[trigger] vs@[i]) by {
                    lemma_admits_accepts(*c, vs@[i], nt);
                }
            }
        },
        Inference::Properties { .. } | Inference::Values(_) | Inference::Discriminator { .. } => {
            if let JsonValue::Object(es) = v {
                lemma_admits_accepts_object(s, es@, Set::empty(), nt);
            }
        },
        _ => {},
    }
}

pub proof fn lemma_admits_accepts_object(
    s: Inference,
    es: Seq<(String, JsonValue)>,
    skip: Set<Seq<char>>,
    nt: NumType,
)
    requires
        admits_object(s, es, skip),
    ensures
        accepts_object(project(s, nt), es, skip),
    decreases s, 0nat,
{
    match s {
        Inference::Nullable(inner) => {
            lemma_admits_accepts_object(*inner, es, skip, nt);
            lemma_with_nullable_accepts_object(project(*inner, nt), es, skip);
        },
        Inference::Properties { required, optional } => {
            lemma_project_entries(required, nt);
            lemma_project_entries(optional, nt);
            let ps = project_entries(required, nt);
            let os = project_entries(optional, nt);
            assert forall|i: int| 0 <= i < ps.len() implies present(es, skip, #[trigger] ps[i].0) && accepts(
                ps[i].1,
                find(es, ps[i].0)->Some_0,
            ) by {
                lemma_admits_accepts(required[i].1, find(es, required[i].0)->Some_0, nt);
            }
            assert forall|i: int| 0 <= i < os.len() && present(es, skip, #[trigger] os[i].0) implies accepts(
                os[i].1,
                find(es, os[i].0)->Some_0,
            ) by {
                lemma_admits_accepts(optional[i].1, find(es, optional[i].0)->Some_0, nt);
            }
            assert forall|j: int| 0 <= j < es.len() implies skip.contains(#[trigger] es[j].0@) || index_of(ps, es[j].0@)
                >= 0 || index_of(os, es[j].0@) >= 0 by {
                lemma_index_of_project(required, nt, es[j].0@);
                lemma_index_of_project(optional, nt, es[j].0@);
            }
        },
        Inference::Values(c) => {
            assert forall|j: int| 0 <= j < es.len() && !skip.contains(#[trigger] es[j].0@) implies accepts(
                project(*c, nt),
                es[j].1,
            ) by {
                lemma_admits_accepts(*c, es[j].1, nt);
            }
        },
        Inference::Discriminator { tag, mapping } => {
            let t = tag_of(es, skip, Some(tag))->Some_0.1;
            lemma_index_of_project(mapping, nt, t);
            lemma_index_of_key(mapping, t);
            lemma_project_entries(mapping, nt);
            lemma_admits_accepts_object(mapping[index_of(mapping, t)].1, es, skip.insert(tag), nt);
        },
        _ => {},
    }
}

/// No key stands twice.
pub open spec fn distinct_keys<V>(al: Seq<(Seq<char>, V)>) -> bool {
    forall|i: int, j: int| 0 <= i < j < al.len() ==> al[i].0 != al[j].0
}

/// The keys of every mapping are distinct, and the required and optional keys of
/// a record do not overlap.
pub open spec fn wf(s: Inference) -> bool
    decreases s,
{
    match s {
        Inference::Array(c) => wf(*c),
        Inference::Values(c) => wf(*c),
        Inference::Nullable(c) => wf(*c),
        Inference::Properties { required, optional } => {
            &&& distinct_keys(required + optional)
            &&& forall|i: int| 0 <= i < required.len() ==> wf(#[trigger] required[i].1)
            &&& forall|i: int| 0 <= i < optional.len() ==> wf(#[trigger] optional[i].1)
        },
        Inference::Discriminator { mapping, .. } => {
            &&& distinct_keys(mapping)
            &&& forall|i: int| 0 <= i < mapping.len() ==> wf(#[trigger] mapping[i].1)
        },
        _ => true,
    }
}

pub open spec fn fields_wf(req: Seq<(Seq<char>, Inference)>, opt: Seq<(Seq<char>, Inference)>) -> bool {
    &&& distinct_keys(req + opt)
    &&& forall|i: int| 0 <= i < req.len() ==> wf(#[trigger] req[i].1)
    &&& forall|i: int| 0 <= i < opt.len() ==> wf(#[trigger] opt[i].1)
}

pub proof fn lemma_index_of_absent<V>(al: Seq<(Seq<char>, V)>, k: Seq<char>)
    ensures
        index_of(al, k) < 0 <==> forall|i: int| 0 <= i < al.len() ==> #[trigger] al[i].0 != k,
    decreases al.len(),
{
    lemma_index_of_key(al, k);
    if al.len() > 0 {
        lemma_index_of_absent(al.drop_first(), k);
        if index_of(al, k) < 0 {
            assert forall|i: int| 0 <= i < al.len() implies #[trigger] al[i].0 != k by {
                if i > 0 {
                    assert(al.drop_first()[i - 1] == al[i]);
                }
            }
        }
    }
}

pub proof fn lemma_index_of_distinct<V>(al: Seq<(Seq<char>, V)>, i: int)
    requires
        distinct_keys(al),
        0 <= i < al.len(),
    ensures
        index_of(al, al[i].0) == i,
{
    lemma_index_of_first(al, al[i].0, i);
}

/// Two lists whose first keys agree position by position find a key of the
/// shorter at the same place.
pub proof fn lemma_index_of_prefix<V, W>(a: Seq<(Seq<char>, V)>, b: Seq<(Seq<char>, W)>, k: Seq<char>)
    requires
        b.len() >= a.len(),
        forall|i: int| 0 <= i < a.len() ==> #[trigger] b[i].0 == a[i].0,
    ensures
        index_of(a, k) >= 0 ==> index_of(b, k) == index_of(a, k),
        b.len() == a.len() ==> index_of(b, k) == index_of(a, k),
    decreases a.len(),
{
    if a.len() > 0 {
        assert(b.len() > 0);
        lemma_index_of_prefix(a.drop_first(), b.drop_first(), k);
    } else if b.len() == 0 {
    }
}

/// The value of the first entry with key `k` is the value of some entry with that key.
pub proof fn lemma_find_witness(es: Seq<(String, JsonValue)>, k: Seq<char>) -> (j: int)
    requires
        find(es, k) is Some,
    ensures
        0 <= j < es.len(),
        es[j].0@ == k,
        es[j].1 == find(es, k)->Some_0,
    decreases es.len(),
{
    if es[0].0@ == k {
        0
    } else {
        let j = lemma_find_witness(es.drop_first(), k);
        j + 1
    }
}

proof fn lemma_split(al: Seq<(Seq<char>, Inference)>, es: Seq<(String, JsonValue)>, skip: Set<Seq<char>>, keep: bool)
    requires
        distinct_keys(al),
    ensures
        distinct_keys(split_present(al, es, skip, keep)),
        forall|i: int|
            0 <= i < split_present(al, es, skip, keep).len() ==> {
                let e = #[trigger] split_present(al, es, skip, keep)[i];
                &&& index_of(al, e.0) >= 0
                &&& al[index_of(al, e.0)] == e
                &&& present(es, skip, e.0) == keep
            },
        forall|j: int|
            0 <= j < al.len() && present(es, skip, #[trigger] al[j].0) == keep ==> index_of(
                split_present(al, es, skip, keep),
                al[j].0,
            ) >= 0,
    decreases al.len(),
{
    let sp = split_present(al, es, skip, keep);
    if al.len() > 0 {
        let prev = al.drop_last();
        let last = al.last();
        assert(distinct_keys(prev)) by {
            assert forall|i: int, j: int| 0 <= i < j < prev.len() implies prev[i].0 != prev[j].0 by {
                assert(prev[i] == al[i] && prev[j] == al[j]);
            }
        }
        lemma_split(prev, es, skip, keep);
        let sp0 = split_present(prev, es, skip, keep);
        lemma_index_of_distinct(al, al.len() - 1);
        assert forall|k: Seq<char>| index_of(prev, k) >= 0 implies index_of(al, k) == index_of(prev, k) by {
            lemma_index_of_prefix(prev, al, k);
        }
        assert forall|i: int| 0 <= i < prev.len() implies #[trigger] prev[i].0 != last.0 by {
            assert(prev[i] == al[i]);
        }
        lemma_index_of_absent(prev, last.0);
        if present(es, skip, last.0) == keep {
            assert(sp == sp0.push(last));
            assert forall|i: int| 0 <= i < sp0.len() implies #[trigger] sp0[i].0 != last.0 by {
                lemma_index_of_key(prev, sp0[i].0);
            }
            lemma_index_of_absent(sp0, last.0);
            assert(distinct_keys(sp)) by {
                assert forall|i: int, j: int| 0 <= i < j < sp.len() implies sp[i].0 != sp[j].0 by {
                    if j < sp0.len() {
                        assert(sp[i] == sp0[i] && sp[j] == sp0[j]);
                    } else {
                        assert(sp[i] == sp0[i]);
                    }
                }
            }
            assert forall|k: Seq<char>| index_of(sp0, k) >= 0 implies index_of(sp, k) == index_of(sp0, k) by {
                lemma_index_of_prefix(sp0, sp, k);
            }
            lemma_index_of_first(sp, last.0, sp0.len() as int);
            assert forall|j: int|
                0 <= j < al.len() && present(es, skip, #[trigger] al[j].0) == keep implies index_of(
                    sp,
                    al[j].0,
                ) >= 0 by {
                if j < prev.len() {
                    assert(prev[j] == al[j]);
                }
            }
            assert forall|i: int| 0 <= i < sp.len() implies {
                let e = #[trigger] sp[i];
                &&& index_of(al, e.0) >= 0
                &&& al[index_of(al, e.0)] == e
                &&& present(es, skip, e.0) == keep
            } by {
                if i < sp0.len() {
                    assert(sp[i] == sp0[i]);
                    lemma_index_of_key(prev, sp0[i].0);
                    assert(al[index_of(prev, sp0[i].0)] == prev[index_of(prev, sp0[i].0)]);
                }
            }
        } else {
            assert(sp == sp0);
            assert forall|j: int|
                0 <= j < al.len() && present(es, skip, #[trigger] al[j].0) == keep implies index_of(
                    sp,
                    al[j].0,
                ) >= 0 by {
                if j < prev.len() {
                    assert(prev[j] == al[j]);
                }
            }
            assert forall|i: int| 0 <= i < sp.len() implies {
                let e = #[trigger] sp[i];
                &&& index_of(al, e.0) >= 0
                &&& al[index_of(al, e.0)] == e
                &&& present(es, skip, e.0) == keep
            } by {
                lemma_index_of_key(prev, sp0[i].0);
                assert(al[index_of(prev, sp0[i].0)] == prev[index_of(prev, sp0[i].0)]);
            }
        }
    }
}

/// The field of key `k`, looked up in `r0` and then in `r1`, admits `v`.
pub open spec fn field_admits(
    r0: Seq<(Seq<char>, Inference)>,
    r1: Seq<(Seq<char>, Inference)>,
    k: Seq<char>,
    v: JsonValue,
) -> bool {
    if index_of(r0, k) >= 0 {
        admits(r0[index_of(r0, k)].1, v)
    } else {
        index_of(r1, k) >= 0 && admits(r1[index_of(r1, k)].1, v)
    }
}

proof fn lemma_distinct_split(a: Seq<(Seq<char>, Inference)>, b: Seq<(Seq<char>, Inference)>)
    requires
        distinct_keys(a + b),
    ensures
        distinct_keys(a),
        distinct_keys(b),
        forall|i: int, j: int| 0 <= i < a.len() && 0 <= j < b.len() ==> #[trigger] a[i].0 != #[trigger] b[j].0,
{
    assert forall|i: int, j: int| 0 <= i < j < a.len() implies a[i].0 != a[j].0 by {
        assert((a + b)[i] == a[i] && (a + b)[j] == a[j]);
    }
    assert forall|i: int, j: int| 0 <= i < j < b.len() implies b[i].0 != b[j].0 by {
        assert((a + b)[a.len() + i] == b[i] && (a + b)[a.len() + j] == b[j]);
    }
    assert forall|i: int, j: int| 0 <= i < a.len() && 0 <= j < b.len() implies #[trigger] a[i].0 != #[trigger] b[j].0 by {
        assert((a + b)[i] == a[i] && (a + b)[a.len() + j] == b[j]);
    }
}

proof fn lemma_fields_admit(
    f0: Seq<(Seq<char>, Inference)>,
    f1: Seq<(Seq<char>, Inference)>,
    es: Seq<(String, JsonValue)>,
    skip: Set<Seq<char>>,
)
    requires
        distinct_keys(f0 + f1),
        forall|i: int| 0 <= i < f0.len() ==> present(es, skip, #[trigger] f0[i].0),
        forall|j: int|
            0 <= j < es.len() && !skip.contains(#[trigger] es[j].0@) ==> field_admits(f0, f1, es[j].0@, es[j].1),
    ensures
        admits_object(Inference::Properties { required: f0, optional: f1 }, es, skip),
{
    lemma_distinct_split(f0, f1);
    assert forall|i: int| 0 <= i < f0.len() implies present(es, skip, #[trigger] f0[i].0) && admits(
        f0[i].1,
        find(es, f0[i].0)->Some_0,
    ) by {
        let j = lemma_find_witness(es, f0[i].0);
        lemma_index_of_distinct(f0, i);
    }
    assert forall|i: int| 0 <= i < f1.len() && present(es, skip, #[trigger] f1[i].0) implies admits(
        f1[i].1,
        find(es, f1[i].0)->Some_0,
    ) by {
        let j = lemma_find_witness(es, f1[i].0);
        lemma_index_of_distinct(f1, i);
        lemma_index_of_absent(f0, f1[i].0);
    }
}

/// Folding keeps an inference well formed; the result admits the value folded
/// in and every value the inference admitted before.
pub proof fn lemma_fold(s: Inference, v: JsonValue, h: HintsModel)
    requires
        wf(s),
    ensures
        wf(fold(s, v, h)),
        admits(fold(s, v, h), v),
        forall|y: JsonValue| admits(s, y) ==> #[trigger] admits(fold(s, v, h), y),
    decreases size(v), 0nat, 6nat, s,
{
    if !(v is Null) {
        match s {
            Inference::Nullable(inner) => {
                lemma_fold(*inner, v, h);
                assert forall|y: JsonValue| admits(s, y) implies #[trigger] admits(fold(s, v, h), y) by {
                    if !(y is Null) {
                        assert(admits(*inner, y));
                        assert(admits(fold(*inner, v, h), y));
                    }
                }
            },
            _ => lemma_fold_base(s, v, h),
        }
    }
}

proof fn lemma_fold_base(s: Inference, v: JsonValue, h: HintsModel)
    requires
        wf(s),
        !(s is Nullable),
        !(v is Null),
    ensures
        wf(fold_base(s, v, h)),
        admits(fold_base(s, v, h), v),
        forall|y: JsonValue| admits(s, y) ==> #[trigger] admits(fold_base(s, v, h), y),
    decreases size(v), 0nat, 5nat, s,
{
    let r = fold_base(s, v, h);
    match v {
        JsonValue::Object(es) => {
            lemma_fold_entries(s, es@, Set::empty(), h);
            assert(r == fold_entries(s, es@, Set::empty(), h));
            assert(r == fold_object(s, es@, Set::empty(), h));
            assert forall|y: JsonValue| admits(s, y) implies #[trigger] admits(r, y) by {
                match y {
                    JsonValue::Object(ys) => {
                        if s is Properties || s is Values || s is Discriminator {
                            assert(admits_object(s, ys@, Set::empty()));
                            assert(admits_object(r, ys@, Set::empty()));
                        }
                    },
                    _ => {},
                }
            }
        },
        JsonValue::Array(vs) => {
            match s {
                Inference::Unknown => {
                    lemma_fold_items(Inference::Unknown, vs@, 0, h);
                },
                Inference::Array(c) => {
                    lemma_fold_items(*c, vs@, 0, h);
                    let c2 = fold_items(*c, vs@, 0, h);
                    assert forall|y: JsonValue| admits(s, y) implies #[trigger] admits(r, y) by {
                        if let JsonValue::Array(ys) = y {
                            assert forall|i: int| 0 <= i < ys@.len() implies admits(c2, #[trigger] ys@[i]) by {
                                assert(admits(*c, ys@[i]));
                            }
                        }
                    }
                },
                _ => {},
            }
        },
        _ => {
            match s {
                Inference::Enum(vs) => {
                    assert forall|y: JsonValue| admits(s, y) implies #[trigger] admits(r, y) by {
                        if let JsonValue::String(t) = y {
                            if let JsonValue::String(x) = v {
                                assert(vs.insert(x@).contains(t@));
                            }
                        }
                    }
                    if let JsonValue::String(x) = v {
                        assert(vs.insert(x@).contains(x@));
                    }
                },
                Inference::Unknown => {
                    if let JsonValue::String(x) = v {
                        assert(set![x@].contains(x@));
                    }
                },
                _ => {},
            }
        },
    }
}

proof fn lemma_fold_items(c: Inference, items: Seq<JsonValue>, start: nat, h: HintsModel)
    requires
        wf(c),
    ensures
        wf(fold_items(c, items, start, h)),
        forall|i: int| 0 <= i < items.len() ==> admits(fold_items(c, items, start, h), #[trigger] items[i]),
        forall|y: JsonValue| admits(c, y) ==> #[trigger] admits(fold_items(c, items, start, h), y),
    decreases sizes(items), 0nat, 7nat, c,
{
    if items.len() > 0 {
        let hs = h.sub(decimal(start));
        let c1 = fold(c, items[0], hs);
        lemma_fold(c, items[0], hs);
        lemma_fold_items(c1, items.drop_first(), start + 1, h);
        let r = fold_items(c, items, start, h);
        assert forall|i: int| 0 <= i < items.len() implies admits(r, #[trigger] items[i]) by {
            if i > 0 {
                assert(items.drop_first()[i - 1] == items[i]);
            }
        }
    }
}

proof fn lemma_fold_entries(s: Inference, es: Seq<(String, JsonValue)>, skip: Set<Seq<char>>, h: HintsModel)
    requires
        wf(s),
    ensures
        wf(fold_entries(s, es, skip, h)),
        admits_object(fold_entries(s, es, skip, h), es, skip),
        forall|es2: Seq<(String, JsonValue)>, skip2: Set<Seq<char>>|
            admits_object(s, es2, skip2) ==> #[trigger] admits_object(fold_entries(s, es, skip, h), es2, skip2),
        !(s is Nullable) ==> {
            let r = fold_entries(s, es, skip, h);
            r is Properties || r is Values || r is Discriminator || r is Any
        },
    decreases entry_sizes(es), unskipped(es, skip), 4nat, s,
{
    match s {
        Inference::Nullable(inner) => {
            lemma_fold_entries(*inner, es, skip, h);
            assert forall|es2: Seq<(String, JsonValue)>, skip2: Set<Seq<char>>|
                admits_object(s, es2, skip2) implies #[trigger] admits_object(
                fold_entries(s, es, skip, h),
                es2,
                skip2,
            ) by {
                assert(admits_object(*inner, es2, skip2));
                assert(admits_object(fold_entries(*inner, es, skip, h), es2, skip2));
            }
        },
        _ => lemma_fold_object(s, es, skip, h),
    }
}

proof fn lemma_fold_values(c: Inference, es: Seq<(String, JsonValue)>, skip: Set<Seq<char>>, h: HintsModel)
    requires
        wf(c),
    ensures
        wf(fold_values(c, es, skip, h)),
        forall|j: int|
            0 <= j < es.len() && !skip.contains(#[trigger] es[j].0@) ==> admits(fold_values(c, es, skip, h), es[j].1),
        forall|y: JsonValue| admits(c, y) ==> #[trigger] admits(fold_values(c, es, skip, h), y),
    decreases entry_sizes(es), unskipped(es, skip), 1nat, c,
{
    if es.len() > 0 {
        let k = es[0].0@;
        let c2 = if skip.contains(k) {
            c
        } else {
            fold(c, es[0].1, h.sub(k))
        };
        if !skip.contains(k) {
            lemma_fold(c, es[0].1, h.sub(k));
        }
        lemma_fold_values(c2, es.drop_first(), skip, h);
        let r = fold_values(c, es, skip, h);
        assert forall|j: int| 0 <= j < es.len() && !skip.contains(#[trigger] es[j].0@) implies admits(r, es[j].1) by {
            if j > 0 {
                assert(es.drop_first()[j - 1] == es[j]);
            }
        }
    }
}

proof fn lemma_index_of_append<V>(a: Seq<(Seq<char>, V)>, b: Seq<(Seq<char>, V)>, k: Seq<char>)
    ensures
        index_of(a, k) >= 0 ==> index_of(a + b, k) == index_of(a, k),
        index_of(b, k) >= 0 ==> index_of(a + b, k) >= 0,
{
    assert forall|i: int| 0 <= i < a.len() implies #[trigger] (a + b)[i].0 == a[i].0 by {}
    lemma_index_of_prefix(a, a + b, k);
    if index_of(b, k) >= 0 {
        lemma_index_of_key(b, k);
        lemma_index_of_absent(a + b, k);
        assert((a + b)[a.len() + index_of(b, k)] == b[index_of(b, k)]);
    }
}

proof fn lemma_fold_fields(
    req: Seq<(Seq<char>, Inference)>,
    opt: Seq<(Seq<char>, Inference)>,
    es: Seq<(String, JsonValue)>,
    skip: Set<Seq<char>>,
    h: HintsModel,
    to_required: bool,
)
    requires
        fields_wf(req, opt),
    ensures
        ({
            let f = fold_fields(req, opt, es, skip, h, to_required);
            &&& fields_wf(f.0, f.1)
            &&& f.0.len() >= req.len()
            &&& f.1.len() >= opt.len()
            &&& !to_required ==> f.0.len() == req.len()
            &&& to_required ==> f.1.len() == opt.len()
            &&& forall|i: int| 0 <= i < req.len() ==> #[trigger] f.0[i].0 == req[i].0
            &&& forall|i: int| 0 <= i < opt.len() ==> #[trigger] f.1[i].0 == opt[i].0
            &&& forall|i: int, y: JsonValue|
                0 <= i < req.len() && admits(req[i].1, y) ==> #[trigger] admits(f.0[i].1, y)
            &&& forall|i: int, y: JsonValue|
                0 <= i < opt.len() && admits(opt[i].1, y) ==> #[trigger] admits(f.1[i].1, y)
            &&& forall|i: int|
                req.len() <= i < f.0.len() ==> present(es, skip, #[trigger] f.0[i].0) && index_of(req, f.0[i].0)
                    < 0 && index_of(opt, f.0[i].0) < 0
            &&& forall|i: int|
                opt.len() <= i < f.1.len() ==> present(es, skip, #[trigger] f.1[i].0) && index_of(req, f.1[i].0)
                    < 0 && index_of(opt, f.1[i].0) < 0
            &&& forall|j: int|
                0 <= j < es.len() && !skip.contains(#[trigger] es[j].0@) ==> field_admits(
                    f.0,
                    f.1,
                    es[j].0@,
                    es[j].1,
                )
        }),
    decreases entry_sizes(es), unskipped(es, skip), 1nat, Inference::Unknown,
{
    if es.len() > 0 {
        let k = es[0].0@;
        let v = es[0].1;
        let hk = h.sub(k);
        let i = index_of(req, k);
        let j = index_of(opt, k);
        lemma_index_of_key(req, k);
        lemma_index_of_key(opt, k);
        lemma_index_of_absent(req, k);
        lemma_index_of_absent(opt, k);
        lemma_distinct_split(req, opt);
        let next = if skip.contains(k) {
            (req, opt)
        } else if i >= 0 {
            (req.update(i, (k, fold(req[i].1, v, hk))), opt)
        } else if j >= 0 {
            (req, opt.update(j, (k, fold(opt[j].1, v, hk))))
        } else if to_required {
            (req.push((k, fold(Inference::Unknown, v, hk))), opt)
        } else {
            (req, opt.push((k, fold(Inference::Unknown, v, hk))))
        };
        if !skip.contains(k) {
            if i >= 0 {
                lemma_fold(req[i].1, v, hk);
            } else if j >= 0 {
                lemma_fold(opt[j].1, v, hk);
            } else {
                lemma_fold(Inference::Unknown, v, hk);
            }
        }
        let n0 = next.0;
        let n1 = next.1;
        // The step keeps every old key in place and only adds a key absent before.
        assert(n0.len() >= req.len() && n1.len() >= opt.len());
        assert(forall|m: int| 0 <= m < req.len() ==> #[trigger] n0[m].0 == req[m].0);
        assert(forall|m: int| 0 <= m < opt.len() ==> #[trigger] n1[m].0 == opt[m].0);
        assert(fields_wf(n0, n1)) by {
            assert forall|a: int, b: int| 0 <= a < b < (n0 + n1).len() implies (n0 + n1)[a].0 != (n0 + n1)[b].0 by {
                let ka = (n0 + n1)[a].0;
                let kb = (n0 + n1)[b].0;
                if a < n0.len() && a < req.len() {
                    assert(ka == (req + opt)[a].0);
                }
                if a >= n0.len() && a - n0.len() < opt.len() {
                    assert(ka == (req + opt)[req.len() + (a - n0.len())].0);
                }
                if b < n0.len() && b < req.len() {
                    assert(kb == (req + opt)[b].0);
                }
                if b >= n0.len() && b - n0.len() < opt.len() {
                    assert(kb == (req + opt)[req.len() + (b - n0.len())].0);
                }
            }
            assert forall|m: int| 0 <= m < n0.len() implies wf(#[trigger] n0[m].1) by {}
            assert forall|m: int| 0 <= m < n1.len() implies wf(#[trigger] n1[m].1) by {}
        }
        lemma_fold_fields(n0, n1, es.drop_first(), skip, h, to_required);
        let f = fold_fields(req, opt, es, skip, h, to_required);
        assert(f == fold_fields(n0, n1, es.drop_first(), skip, h, to_required));
        let f0 = f.0;
        let f1 = f.1;
        assert forall|m: int, y: JsonValue| 0 <= m < req.len() && admits(req[m].1, y) implies #[trigger] admits(
            f0[m].1,
            y,
        ) by {
            assert(admits(n0[m].1, y));
        }
        assert forall|m: int, y: JsonValue| 0 <= m < opt.len() && admits(opt[m].1, y) implies #[trigger] admits(
            f1[m].1,
            y,
        ) by {
            assert(admits(n1[m].1, y));
        }
        assert forall|m: int| req.len() <= m < f0.len() implies present(es, skip, #[trigger] f0[m].0) && index_of(
            req,
            f0[m].0,
        ) < 0 && index_of(opt, f0[m].0) < 0 by {
            let km = f0[m].0;
            lemma_index_of_prefix(req, n0, km);
            lemma_index_of_prefix(opt, n1, km);
            if m >= n0.len() {
                assert(present(es.drop_first(), skip, km));
            }
        }
        assert forall|m: int| opt.len() <= m < f1.len() implies present(es, skip, #[trigger] f1[m].0) && index_of(
            req,
            f1[m].0,
        ) < 0 && index_of(opt, f1[m].0) < 0 by {
            let km = f1[m].0;
            lemma_index_of_prefix(req, n0, km);
            lemma_index_of_prefix(opt, n1, km);
            if m >= n1.len() {
                assert(present(es.drop_first(), skip, km));
            }
        }
        assert forall|jj: int| 0 <= jj < es.len() && !skip.contains(#[trigger] es[jj].0@) implies field_admits(
            f0,
            f1,
            es[jj].0@,
            es[jj].1,
        ) by {
            if jj > 0 {
                assert(es.drop_first()[jj - 1] == es[jj]);
            } else {
                lemma_index_of_prefix(n0, f0, k);
                lemma_index_of_prefix(n1, f1, k);
                lemma_index_of_prefix(req, n0, k);
                lemma_index_of_prefix(opt, n1, k);
                if i >= 0 {
                    assert(admits(n0[i].1, v));
                } else if j >= 0 {
                    assert(admits(n1[j].1, v));
                    assert forall|m: int| 0 <= m < f0.len() implies #[trigger] f0[m].0 != k by {
                        if m < n0.len() {
                            assert(f0[m].0 == n0[m].0);
                        }
                    }
                    lemma_index_of_absent(f0, k);
                } else if to_required {
                    lemma_index_of_first(n0, k, req.len() as int);
                    assert(admits(n0[req.len() as int].1, v));
                } else {
                    lemma_index_of_first(n1, k, opt.len() as int);
                    assert(admits(n1[opt.len() as int].1, v));
                    assert forall|m: int| 0 <= m < f0.len() implies #[trigger] f0[m].0 != k by {
                        if m < n0.len() {
                            assert(f0[m].0 == n0[m].0);
                        }
                    }
                    lemma_index_of_absent(f0, k);
                }
            }
        }
    }
}

proof fn lemma_fold_object_unknown(es: Seq<(String, JsonValue)>, skip: Set<Seq<char>>, h: HintsModel)
    ensures
        wf(fold_object(Inference::Unknown, es, skip, h)),
        admits_object(fold_object(Inference::Unknown, es, skip, h), es, skip),
        ({
            let r = fold_object(Inference::Unknown, es, skip, h);
            r is Properties || r is Values || r is Discriminator
        }),
    decreases entry_sizes(es), unskipped(es, skip), 2nat, Inference::Any,
{
    let r = fold_object(Inference::Unknown, es, skip, h);
    let empty = Seq::<(Seq<char>, Inference)>::empty();
    if h.values_active() {
        lemma_fold_values(Inference::Unknown, es, skip, h);
        let c = fold_values(Inference::Unknown, es, skip, h);
        assert(r == Inference::Values(Box::new(c)));
    } else {
        match tag_of(es, skip, h.discriminator_key()) {
            Some((d, t)) => {
                lemma_unskipped_insert(es, skip, d);
                let sk = skip.insert(d);
                assert(empty + empty =~= empty);
                lemma_fold_fields(empty, empty, es, sk, h, true);
                let f = fold_fields(empty, empty, es, sk, h, true);
                lemma_fields_admit(f.0, f.1, es, sk);
                let p = Inference::Properties { required: f.0, optional: f.1 };
                assert(wf(p));
                let mapping = seq![(t, p)];
                assert(r == Inference::Discriminator { tag: d, mapping });
                assert(distinct_keys(mapping));
                assert(mapping[0].1 == p);
                assert(index_of(mapping, t) == 0);
                assert(tag_of(es, skip, Some(d)) == Some((d, t)));
                assert(admits_object(mapping[0].1, es, sk));
            },
            None => {
                assert(empty + empty =~= empty);
                lemma_fold_fields(empty, empty, es, skip, h, true);
                let f = fold_fields(empty, empty, es, skip, h, true);
                lemma_fields_admit(f.0, f.1, es, skip);
                assert(r == Inference::Properties { required: f.0, optional: f.1 });
            },
        }
    }
}

proof fn lemma_fold_object(s: Inference, es: Seq<(String, JsonValue)>, skip: Set<Seq<char>>, h: HintsModel)
    requires
        wf(s),
        !(s is Nullable),
    ensures
        wf(fold_object(s, es, skip, h)),
        admits_object(fold_object(s, es, skip, h), es, skip),
        forall|es2: Seq<(String, JsonValue)>, skip2: Set<Seq<char>>|
            admits_object(s, es2, skip2) ==> #[trigger] admits_object(fold_object(s, es, skip, h), es2, skip2),
        ({
            let r = fold_object(s, es, skip, h);
            r is Properties || r is Values || r is Discriminator || r is Any
        }),
    decreases entry_sizes(es), unskipped(es, skip), 3nat, s,
{
    let r = fold_object(s, es, skip, h);
    let empty = Seq::<(Seq<char>, Inference)>::empty();
    match s {
        Inference::Unknown => {
            lemma_fold_object_unknown(es, skip, h);
            assert forall|es2: Seq<(String, JsonValue)>, skip2: Set<Seq<char>>|
                admits_object(s, es2, skip2) implies #[trigger] admits_object(r, es2, skip2) by {
                assert(!admits_object(Inference::Unknown, es2, skip2));
            }
        },
        Inference::Properties { required, optional } => {
            let kept = split_present(required, es, skip, true);
            let moved = split_present(required, es, skip, false);
            let om = optional + moved;
            lemma_distinct_split(required, optional);
            lemma_split(required, es, skip, true);
            lemma_split(required, es, skip, false);
            assert(fields_wf(kept, om)) by {
                assert forall|a: int, b: int| 0 <= a < b < (kept + om).len() implies (kept + om)[a].0 != (kept
                    + om)[b].0 by {
                    let ea = (kept + om)[a];
                    let eb = (kept + om)[b];
                    if a < kept.len() {
                        assert(ea == kept[a]);
                    } else if a - kept.len() < optional.len() {
                        assert(ea == optional[a - kept.len()]);
                    } else {
                        assert(ea == moved[a - kept.len() - optional.len()]);
                    }
                    if b < kept.len() {
                        assert(eb == kept[b]);
                    } else if b - kept.len() < optional.len() {
                        assert(eb == optional[b - kept.len()]);
                    } else {
                        assert(eb == moved[b - kept.len() - optional.len()]);
                    }
                    if a < kept.len() && b >= kept.len() && b - kept.len() < optional.len() {
                        lemma_index_of_key(required, ea.0);
                    }
                    if a >= kept.len() && a - kept.len() < optional.len() && b - kept.len() >= optional.len() {
                        lemma_index_of_key(required, eb.0);
                    }
                }
                assert forall|m: int| 0 <= m < kept.len() implies wf(#[trigger] kept[m].1) by {
                    lemma_index_of_key(required, kept[m].0);
                }
                assert forall|m: int| 0 <= m < om.len() implies wf(#[trigger] om[m].1) by {
                    if m >= optional.len() {
                        assert(om[m] == moved[m - optional.len()]);
                        lemma_index_of_key(required, moved[m - optional.len()].0);
                    } else {
                        assert(om[m] == optional[m]);
                    }
                }
            }
            lemma_fold_fields(kept, om, es, skip, h, false);
            let f = fold_fields(kept, om, es, skip, h, false);
            assert forall|m: int| 0 <= m < f.0.len() implies present(es, skip, #[trigger] f.0[m].0) by {
                assert(f.0[m].0 == kept[m].0);
            }
            lemma_fields_admit(f.0, f.1, es, skip);
            assert forall|es2: Seq<(String, JsonValue)>, skip2: Set<Seq<char>>|
                admits_object(s, es2, skip2) implies #[trigger] admits_object(r, es2, skip2) by {
                assert forall|m: int| 0 <= m < f.0.len() implies present(es2, skip2, #[trigger] f.0[m].0) && admits(
                    f.0[m].1,
                    find(es2, f.0[m].0)->Some_0,
                ) by {
                    let key = kept[m].0;
                    lemma_index_of_key(required, key);
                    let pp = index_of(required, key);
                    assert(required[pp] == kept[m]);
                    assert(present(es2, skip2, required[pp].0));
                }
                assert forall|m: int| 0 <= m < f.1.len() && present(es2, skip2, #[trigger] f.1[m].0) implies admits(
                    f.1[m].1,
                    find(es2, f.1[m].0)->Some_0,
                ) by {
                    let key = f.1[m].0;
                    if m < optional.len() {
                        assert(om[m] == optional[m]);
                        assert(present(es2, skip2, optional[m].0));
                    } else if m < om.len() {
                        assert(om[m] == moved[m - optional.len()]);
                        lemma_index_of_key(required, key);
                        let pp = index_of(required, key);
                        assert(required[pp] == moved[m - optional.len()]);
                        assert(present(es2, skip2, required[pp].0));
                    } else {
                        let jw = lemma_find_witness(es2, key);
                        assert(!skip2.contains(es2[jw].0@));
                        lemma_index_of_key(required, key);
                        lemma_index_of_key(optional, key);
                        if index_of(required, key) >= 0 {
                            let pp = index_of(required, key);
                            if present(es, skip, key) {
                                assert(index_of(kept, required[pp].0) >= 0);
                            } else {
                                assert(index_of(moved, required[pp].0) >= 0);
                                lemma_index_of_append(optional, moved, key);
                            }
                        } else {
                            lemma_index_of_append(optional, moved, key);
                        }
                    }
                }
                assert forall|jj: int| 0 <= jj < es2.len() implies skip2.contains(#[trigger] es2[jj].0@) || index_of(
                    f.0,
                    es2[jj].0@,
                ) >= 0 || index_of(f.1, es2[jj].0@) >= 0 by {
                    let key = es2[jj].0@;
                    lemma_index_of_prefix(kept, f.0, key);
                    lemma_index_of_prefix(om, f.1, key);
                    lemma_index_of_append(optional, moved, key);
                    if !skip2.contains(key) && index_of(required, key) >= 0 {
                        lemma_index_of_key(required, key);
                        let pp = index_of(required, key);
                        if present(es, skip, key) {
                            assert(index_of(kept, required[pp].0) >= 0);
                        } else {
                            assert(index_of(moved, required[pp].0) >= 0);
                        }
                    }
                }
            }
        },
        Inference::Values(c) => {
            lemma_fold_values(*c, es, skip, h);
            let c2 = fold_values(*c, es, skip, h);
            assert(r == Inference::Values(Box::new(c2)));
            assert forall|es2: Seq<(String, JsonValue)>, skip2: Set<Seq<char>>|
                admits_object(s, es2, skip2) implies #[trigger] admits_object(r, es2, skip2) by {
                assert forall|jj: int| 0 <= jj < es2.len() && !skip2.contains(#[trigger] es2[jj].0@) implies admits(
                    c2,
                    es2[jj].1,
                ) by {
                    assert(admits(*c, es2[jj].1));
                }
            }
        },
        Inference::Discriminator { tag, mapping } => {
            match tag_of(es, skip, Some(tag)) {
                Some((_, t)) => {
                    lemma_unskipped_insert(es, skip, tag);
                    let sk = skip.insert(tag);
                    let i = index_of(mapping, t);
                    lemma_index_of_key(mapping, t);
                    lemma_index_of_absent(mapping, t);
                    let prior = if i >= 0 {
                        mapping[i].1
                    } else {
                        Inference::Unknown
                    };
                    lemma_fold_entries(prior, es, sk, h);
                    let branch = fold_entries(prior, es, sk, h);
                    let nm = if i >= 0 {
                        mapping.update(i, (t, branch))
                    } else {
                        mapping.push((t, branch))
                    };
                    assert(r == Inference::Discriminator { tag, mapping: nm });
                    assert(forall|m: int| 0 <= m < mapping.len() ==> #[trigger] nm[m].0 == mapping[m].0);
                    assert(distinct_keys(nm)) by {
                        assert forall|a: int, b: int| 0 <= a < b < nm.len() implies nm[a].0 != nm[b].0 by {
                            if b < mapping.len() {
                                assert(nm[a].0 == mapping[a].0 && nm[b].0 == mapping[b].0);
                            }
                        }
                    }
                    assert forall|m: int| 0 <= m < nm.len() implies wf(#[trigger] nm[m].1) by {}
                    if i >= 0 {
                        lemma_index_of_prefix(mapping, nm, t);
                    } else {
                        lemma_index_of_first(nm, t, mapping.len() as int);
                    }
                    assert forall|es2: Seq<(String, JsonValue)>, skip2: Set<Seq<char>>|
                        admits_object(s, es2, skip2) implies #[trigger] admits_object(r, es2, skip2) by {
                        let t2 = tag_of(es2, skip2, Some(tag))->Some_0.1;
                        lemma_index_of_prefix(mapping, nm, t2);
                        lemma_index_of_key(mapping, t2);
                        let pp = index_of(mapping, t2);
                        if pp == i {
                            assert(admits_object(prior, es2, skip2.insert(tag)));
                            assert(admits_object(branch, es2, skip2.insert(tag)));
                            assert(nm[pp].1 == branch);
                        } else {
                            assert(nm[pp] == mapping[pp]);
                        }
                    }
                },
                None => {},
            }
        },
        _ => {
            assert(r == Inference::Any);
        },
    }
}

/// Every object in the value has distinct keys.
pub open spec fn json_wf(v: JsonValue) -> bool
    decreases v,
{
    match v {
        JsonValue::Array(vs) => forall|i: int| 0 <= i < vs@.len() ==> json_wf(#[trigger] vs@[i]),
        JsonValue::Object(es) => {
            &&& forall|i: int, j: int| 0 <= i < j < es@.len() ==> es@[i].0@ != es@[j].0@
            &&& forall|i: int| 0 <= i < es@.len() ==> json_wf(#[trigger] es@[i].1)
        },
        _ => true,
    }
}

pub open spec fn entries_wf(es: Seq<(String, JsonValue)>) -> bool {
    &&& forall|i: int, j: int| 0 <= i < j < es.len() ==> es[i].0@ != es[j].0@
    &&& forall|i: int| 0 <= i < es.len() ==> json_wf(#[trigger] es[i].1)
}

proof fn lemma_find_distinct(es: Seq<(String, JsonValue)>, j: int)
    requires
        0 <= j < es.len(),
        forall|a: int, b: int| 0 <= a < b < es.len() ==> es[a].0@ != es[b].0@,
    ensures
        find(es, es[j].0@) == Some(es[j].1),
    decreases es.len(),
{
    if j > 0 {
        assert(es[0].0@ != es[j].0@);
        lemma_find_distinct(es.drop_first(), j - 1);
    }
}

proof fn lemma_split_all(al: Seq<(Seq<char>, Inference)>, es: Seq<(String, JsonValue)>, skip: Set<Seq<char>>)
    requires
        forall|i: int| 0 <= i < al.len() ==> present(es, skip, #[trigger] al[i].0),
    ensures
        split_present(al, es, skip, true) == al,
        split_present(al, es, skip, false) == Seq::<(Seq<char>, Inference)>::empty(),
    decreases al.len(),
{
    if al.len() > 0 {
        let prev = al.drop_last();
        assert forall|i: int| 0 <= i < prev.len() implies present(es, skip, #[trigger] prev[i].0) by {
            assert(prev[i] == al[i]);
        }
        lemma_split_all(prev, es, skip);
        assert(present(es, skip, al[al.len() - 1].0));
        assert(prev.push(al.last()) =~= al);
    }
}

/// Folding a value that a well-formed inference already admits leaves its schema
/// as it was, when the value's objects have distinct keys.
pub proof fn lemma_absorb(s: Inference, v: JsonValue, h: HintsModel, nt: NumType)
    requires
        wf(s),
        admits(s, v),
        json_wf(v),
    ensures
        project(fold(s, v, h), nt) == project(s, nt),
    decreases size(v), 0nat, 6nat, s,
{
    if v is Null {
        if let Inference::Nullable(inner) = s {
            let p = project(*inner, nt);
            assert(with_nullable(with_nullable(p)) == with_nullable(p));
        }
    } else {
        match s {
            Inference::Nullable(inner) => {
                lemma_absorb(*inner, v, h, nt);
            },
            _ => lemma_absorb_base(s, v, h, nt),
        }
    }
}

proof fn lemma_absorb_base(s: Inference, v: JsonValue, h: HintsModel, nt: NumType)
    requires
        wf(s),
        admits(s, v),
        json_wf(v),
        !(s is Nullable),
        !(v is Null),
    ensures
        project(fold_base(s, v, h), nt) == project(s, nt),
    decreases size(v), 0nat, 5nat, s,
{
    match v {
        JsonValue::Object(es) => {
            if !(s is Any) {
                lemma_absorb_entries(s, es@, Set::empty(), h, nt);
            }
        },
        JsonValue::Array(vs) => {
            if let Inference::Array(c) = s {
                assert forall|i: int| 0 <= i < vs@.len() implies admits(*c, #[trigger] vs@[i]) && json_wf(vs@[i]) by {}
                lemma_absorb_items(*c, vs@, 0, h, nt);
            }
        },
        _ => {
            if let Inference::Enum(vs) = s {
                if let JsonValue::String(t) = v {
                    assert(vs.insert(t@) =~= vs);
                }
            }
        },
    }
}

proof fn lemma_absorb_items(c: Inference, items: Seq<JsonValue>, start: nat, h: HintsModel, nt: NumType)
    requires
        wf(c),
        forall|i: int| 0 <= i < items.len() ==> admits(c, #[trigger] items[i]) && json_wf(items[i]),
    ensures
        project(fold_items(c, items, start, h), nt) == project(c, nt),
    decreases sizes(items), 0nat, 7nat, c,
{
    if items.len() > 0 {
        let hs = h.sub(decimal(start));
        let c1 = fold(c, items[0], hs);
        lemma_fold(c, items[0], hs);
        lemma_absorb(c, items[0], hs, nt);
        let rest = items.drop_first();
        assert forall|i: int| 0 <= i < rest.len() implies admits(c1, #[trigger] rest[i]) && json_wf(rest[i]) by {
            assert(rest[i] == items[i + 1]);
            assert(admits(c, items[i + 1]));
        }
        lemma_absorb_items(c1, rest, start + 1, h, nt);
    }
}

proof fn lemma_absorb_entries(
    s: Inference,
    es: Seq<(String, JsonValue)>,
    skip: Set<Seq<char>>,
    h: HintsModel,
    nt: NumType,
)
    requires
        wf(s),
        admits_object(s, es, skip),
        entries_wf(es),
    ensures
        project(fold_entries(s, es, skip, h), nt) == project(s, nt),
    decreases entry_sizes(es), unskipped(es, skip), 4nat, s,
{
    match s {
        Inference::Nullable(inner) => lemma_absorb_entries(*inner, es, skip, h, nt),
        _ => lemma_absorb_object(s, es, skip, h, nt),
    }
}

proof fn lemma_absorb_object(
    s: Inference,
    es: Seq<(String, JsonValue)>,
    skip: Set<Seq<char>>,
    h: HintsModel,
    nt: NumType,
)
    requires
        wf(s),
        admits_object(s, es, skip),
        entries_wf(es),
        !(s is Nullable),
    ensures
        project(fold_object(s, es, skip, h), nt) == project(s, nt),
    decreases entry_sizes(es), unskipped(es, skip), 3nat, s,
{
    match s {
        Inference::Properties { required, optional } => {
            lemma_split_all(required, es, skip);
            assert(optional + Seq::<(Seq<char>, Inference)>::empty() =~= optional);
            lemma_distinct_split(required, optional);
            assert forall|j: int| 0 <= j < es.len() && !skip.contains(#[trigger] es[j].0@) implies field_admits(
                required,
                optional,
                es[j].0@,
                es[j].1,
            ) by {
                let k = es[j].0@;
                lemma_find_distinct(es, j);
                lemma_index_of_key(required, k);
                lemma_index_of_key(optional, k);
                if index_of(required, k) < 0 {
                    assert(present(es, skip, optional[index_of(optional, k)].0));
                }
            }
            lemma_absorb_fields(required, optional, es, skip, h, nt);
            let f = fold_fields(required, optional, es, skip, h, false);
            lemma_project_entries(required, nt);
            lemma_project_entries(optional, nt);
            lemma_project_entries(f.0, nt);
            lemma_project_entries(f.1, nt);
            assert(project_entries(f.0, nt) =~= project_entries(required, nt));
            assert(project_entries(f.1, nt) =~= project_entries(optional, nt));
        },
        Inference::Values(c) => {
            lemma_absorb_values(*c, es, skip, h, nt);
        },
        Inference::Discriminator { tag, mapping } => {
            let t = tag_of(es, skip, Some(tag))->Some_0.1;
            lemma_unskipped_insert(es, skip, tag);
            lemma_index_of_key(mapping, t);
            let i = index_of(mapping, t);
            let sk = skip.insert(tag);
            assert(wf(mapping[i].1));
            lemma_absorb_entries(mapping[i].1, es, sk, h, nt);
            let branch = fold_entries(mapping[i].1, es, sk, h);
            let nm = mapping.update(i, (t, branch));
            lemma_project_entries(mapping, nt);
            lemma_project_entries(nm, nt);
            assert(project_entries(nm, nt) =~= project_entries(mapping, nt));
        },
        _ => {},
    }
}

proof fn lemma_absorb_values(
    c: Inference,
    es: Seq<(String, JsonValue)>,
    skip: Set<Seq<char>>,
    h: HintsModel,
    nt: NumType,
)
    requires
        wf(c),
        forall|j: int| 0 <= j < es.len() && !skip.contains(#[trigger] es[j].0@) ==> admits(c, es[j].1),
        forall|j: int| 0 <= j < es.len() ==> json_wf(#[trigger] es[j].1),
    ensures
        project(fold_values(c, es, skip, h), nt) == project(c, nt),
    decreases entry_sizes(es), unskipped(es, skip), 1nat, c,
{
    if es.len() > 0 {
        let k = es[0].0@;
        let rest = es.drop_first();
        let c2 = if skip.contains(k) {
            c
        } else {
            fold(c, es[0].1, h.sub(k))
        };
        if !skip.contains(k) {
            lemma_fold(c, es[0].1, h.sub(k));
            lemma_absorb(c, es[0].1, h.sub(k), nt);
        }
        assert forall|j: int| 0 <= j < rest.len() && !skip.contains(#[trigger] rest[j].0@) implies admits(
            c2,
            rest[j].1,
        ) by {
            assert(rest[j] == es[j + 1]);
            assert(admits(c, es[j + 1].1));
        }
        assert forall|j: int| 0 <= j < rest.len() implies json_wf(#[trigger] rest[j].1) by {
            assert(rest[j] == es[j + 1]);
        }
        lemma_absorb_values(c2, rest, skip, h, nt);
    }
}

/// Same keys in the same places, each with a child of the same schema.
pub open spec fn same_projection(a: Seq<(Seq<char>, Inference)>, b: Seq<(Seq<char>, Inference)>, nt: NumType) -> bool {
    &&& a.len() == b.len()
    &&& forall|i: int| 0 <= i < b.len() ==> #[trigger] a[i].0 == b[i].0 && project(a[i].1, nt) == project(b[i].1, nt)
}

proof fn lemma_same_projection_trans(
    a: Seq<(Seq<char>, Inference)>,
    b: Seq<(Seq<char>, Inference)>,
    c: Seq<(Seq<char>, Inference)>,
    nt: NumType,
)
    requires
        same_projection(a, b, nt),
        same_projection(b, c, nt),
    ensures
        same_projection(a, c, nt),
{
    assert forall|i: int| 0 <= i < c.len() implies #[trigger] a[i].0 == c[i].0 && project(a[i].1, nt) == project(c[i].1, nt) by {
        assert(a[i].0 == b[i].0);
        assert(b[i].0 == c[i].0);
    }
}

proof fn lemma_absorb_fields(
    req: Seq<(Seq<char>, Inference)>,
    opt: Seq<(Seq<char>, Inference)>,
    es: Seq<(String, JsonValue)>,
    skip: Set<Seq<char>>,
    h: HintsModel,
    nt: NumType,
)
    requires
        fields_wf(req, opt),
        entries_wf(es),
        forall|j: int|
            0 <= j < es.len() && !skip.contains(#[trigger] es[j].0@) ==> field_admits(req, opt, es[j].0@, es[j].1),
    ensures
        same_projection(fold_fields(req, opt, es, skip, h, false).0, req, nt),
        same_projection(fold_fields(req, opt, es, skip, h, false).1, opt, nt),
        fields_wf(fold_fields(req, opt, es, skip, h, false).0, fold_fields(req, opt, es, skip, h, false).1),
    decreases entry_sizes(es), unskipped(es, skip), 1nat, Inference::Unknown,
{
    let f = fold_fields(req, opt, es, skip, h, false);
    if es.len() > 0 {
        let k = es[0].0@;
        let v = es[0].1;
        let hk = h.sub(k);
        let i = index_of(req, k);
        let j = index_of(opt, k);
        lemma_index_of_key(req, k);
        lemma_index_of_key(opt, k);
        lemma_distinct_split(req, opt);
        let rest = es.drop_first();
        let next = if skip.contains(k) {
            (req, opt)
        } else if i >= 0 {
            (req.update(i, (k, fold(req[i].1, v, hk))), opt)
        } else {
            (req, opt.update(j, (k, fold(opt[j].1, v, hk))))
        };
        if !skip.contains(k) {
            assert(field_admits(req, opt, es[0].0@, es[0].1));
            if i >= 0 {
                lemma_fold(req[i].1, v, hk);
                lemma_absorb(req[i].1, v, hk, nt);
            } else {
                lemma_fold(opt[j].1, v, hk);
                lemma_absorb(opt[j].1, v, hk, nt);
            }
        }
        let n0 = next.0;
        let n1 = next.1;
        assert(forall|m: int| 0 <= m < req.len() ==> #[trigger] n0[m].0 == req[m].0);
        assert(forall|m: int| 0 <= m < opt.len() ==> #[trigger] n1[m].0 == opt[m].0);
        assert(fields_wf(n0, n1)) by {
            assert forall|a: int, b: int| 0 <= a < b < (n0 + n1).len() implies (n0 + n1)[a].0 != (n0 + n1)[b].0 by {
                if a < req.len() {
                    assert((n0 + n1)[a].0 == (req + opt)[a].0);
                } else {
                    assert((n0 + n1)[a].0 == (req + opt)[a].0);
                }
                assert((n0 + n1)[b].0 == (req + opt)[b].0);
            }
            assert forall|m: int| 0 <= m < n0.len() implies wf(#[trigger] n0[m].1) by {}
            assert forall|m: int| 0 <= m < n1.len() implies wf(#[trigger] n1[m].1) by {}
        }
        assert forall|jj: int| 0 <= jj < rest.len() && !skip.contains(#[trigger] rest[jj].0@) implies field_admits(
            n0,
            n1,
            rest[jj].0@,
            rest[jj].1,
        ) by {
            assert(rest[jj] == es[jj + 1]);
            assert(es[0].0@ != es[jj + 1].0@);
            let kk = rest[jj].0@;
            assert(field_admits(req, opt, es[jj + 1].0@, es[jj + 1].1));
            lemma_index_of_prefix(req, n0, kk);
            lemma_index_of_prefix(opt, n1, kk);
            lemma_index_of_key(req, kk);
            lemma_index_of_key(opt, kk);
        }
        assert(entries_wf(rest)) by {
            assert forall|a: int, b: int| 0 <= a < b < rest.len() implies rest[a].0@ != rest[b].0@ by {
                assert(rest[a] == es[a + 1] && rest[b] == es[b + 1]);
            }
            assert forall|m: int| 0 <= m < rest.len() implies json_wf(#[trigger] rest[m].1) by {
                assert(rest[m] == es[m + 1]);
            }
        }
        lemma_absorb_fields(n0, n1, rest, skip, h, nt);
        assert(f == fold_fields(n0, n1, rest, skip, h, false));
        assert(fields_wf(f.0, f.1));
        assert(n0.len() == req.len() && n1.len() == opt.len());
        assert(same_projection(n0, req, nt));
        assert(same_projection(n1, opt, nt));
        lemma_same_projection_trans(f.0, n0, req, nt);
        lemma_same_projection_trans(f.1, n1, opt, nt);
    }
}

} // verus!
