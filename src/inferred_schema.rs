//! The inference lattice: what has been inferred so far at each position of the
//! examples, updated one example at a time.
use crate::acceptance::{lemma_fold, wf};
use crate::hints::Hints;
use crate::json::{entry_sizes, find, size, sizes, unskipped, JsonValue, lemma_unskipped_insert};
use crate::lattice::{
    fold, fold_base, fold_entries, fold_text, fold_fields, fold_items, fold_object, fold_values, index_of,
    project, project_entries, lemma_project_entries, split_present, tag_of, Inference,
    lemma_index_of_first, lemma_index_of_none, lemma_index_of_key,
};
use crate::schema::{lemma_schema_entries_view, schema_entries_view, Schema, Type};
use crate::number::{InferredNumber, NumType};
use crate::text::{index_key, parses_as_rfc3339};
use vstd::prelude::*;

verus! {

broadcast use {vstd::seq::axiom_seq_index_decreases, vstd::std_specs::vec::axiom_vec_decreases_to_view};

/// The set of texts that a list of strings holds.
pub open spec fn strings_view(vs: Seq<String>) -> Set<Seq<char>> {
    Set::new(|x: Seq<char>| exists|i: int| 0 <= i < vs.len() && vs[i]@ == x)
}

/// What has been inferred at one position of the examples.
#[derive(Debug)]
pub enum InferredSchema {
    Unknown,
    Any,
    Boolean,
    Number(InferredNumber),
    String,
    Timestamp,
    Enum(Vec<String>),
    Array(Box<InferredSchema>),
    Properties {
        required: Vec<(String, InferredSchema)>,
        optional: Vec<(String, InferredSchema)>,
    },
    Values(Box<InferredSchema>),
    Discriminator { discriminator: String, mapping: Vec<(String, InferredSchema)> },
    Nullable(Box<InferredSchema>),
}

/// The entries of a mapping, each as its key's text and its child's view.
pub open spec fn entries_view(es: Seq<(String, InferredSchema)>) -> Seq<(Seq<char>, Inference)>
    decreases es, 0nat,
{
    if es.len() == 0 {
        Seq::empty()
    } else {
        seq![(es[0].0@, es[0].1.view())] + entries_view(es.drop_first())
    }
}

impl InferredSchema {
    pub open spec fn view(&self) -> Inference
        decreases self, 1nat,
    {
        match self {
            InferredSchema::Unknown => Inference::Unknown,
            InferredSchema::Any => Inference::Any,
            InferredSchema::Boolean => Inference::Boolean,
            InferredSchema::Number(n) => Inference::Number(*n),
            InferredSchema::String => Inference::String,
            InferredSchema::Timestamp => Inference::Timestamp,
            InferredSchema::Enum(vs) => Inference::Enum(strings_view(vs@)),
            InferredSchema::Array(c) => Inference::Array(Box::new((**c).view())),
            InferredSchema::Properties { required, optional } => Inference::Properties {
                required: entries_view(required@),
                optional: entries_view(optional@),
            },
            InferredSchema::Values(c) => Inference::Values(Box::new((**c).view())),
            InferredSchema::Discriminator { discriminator, mapping } => Inference::Discriminator {
                tag: discriminator@,
                mapping: entries_view(mapping@),
            },
            InferredSchema::Nullable(c) => Inference::Nullable(Box::new((**c).view())),
        }
    }
}

pub broadcast proof fn lemma_entries_view(es: Seq<(String, InferredSchema)>)
    ensures
        (#[trigger] entries_view(es)).len() == es.len(),
        forall|i: int| 0 <= i < es.len() ==> #[trigger] entries_view(es)[i] == (es[i].0@, es[i].1@),
    decreases es.len(),
{
    if es.len() > 0 {
        lemma_entries_view(es.drop_first());
    }
}

pub proof fn lemma_strings_view_push(vs: Seq<String>, x: String)
    ensures
        strings_view(vs.push(x)) == strings_view(vs).insert(x@),
{
    let a = strings_view(vs.push(x));
    let b = strings_view(vs).insert(x@);
    assert forall|y: Seq<char>| a.contains(y) <==> b.contains(y) by {
        if a.contains(y) {
            let i = choose|i: int| 0 <= i < vs.push(x).len() && vs.push(x)[i]@ == y;
            if i < vs.len() {
                assert(vs[i]@ == y);
            }
        }
        if b.contains(y) && y != x@ {
            let i = choose|i: int| 0 <= i < vs.len() && vs[i]@ == y;
            assert(vs.push(x)[i]@ == y);
        }
        if y == x@ {
            assert(vs.push(x)[vs.len() as int]@ == y);
        }
    }
    assert(a =~= b);
}

pub proof fn lemma_sizes(items: Seq<JsonValue>, i: int)
    requires
        0 <= i < items.len(),
    ensures
        size(items[i]) < sizes(items),
    decreases items.len(),
{
    if i > 0 {
        lemma_sizes(items.drop_first(), i - 1);
    }
}

pub proof fn lemma_entry_sizes(es: Seq<(String, JsonValue)>, i: int)
    requires
        0 <= i < es.len(),
    ensures
        size(es[i].1) < entry_sizes(es),
    decreases es.len(),
{
    if i > 0 {
        lemma_entry_sizes(es.drop_first(), i - 1);
    }
}



/// Whether `k` is one of the strings of `vs`.
fn holds(vs: &Vec<String>, k: &String) -> (r: bool)
    ensures
        r == strings_view(vs@).contains(k@),
{
    let mut i: usize = 0;
    while i < vs.len()
        invariant
            i <= vs@.len(),
            forall|j: int| 0 <= j < i ==> vs@[j]@ != k@,
        decreases vs.len() - i,
    {
        if vs[i] == *k {
            return true;
        }
        i = i + 1;
    }
    false
}

/// The first entry of the mapping whose key is `k`.
fn position(al: &Vec<(String, InferredSchema)>, k: &String) -> (r: Option<usize>)
    ensures
        match r {
            Some(i) => i < al@.len() && index_of(entries_view(al@), k@) == i,
            None => index_of(entries_view(al@), k@) == -1,
        },
{
    let mut i: usize = 0;
    while i < al.len()
        invariant
            i <= al@.len(),
            forall|j: int| 0 <= j < i ==> al@[j].0@ != k@,
        decreases al.len() - i,
    {
        if al[i].0 == *k {
            proof {
                lemma_entries_view(al@);
                lemma_index_of_first(entries_view(al@), k@, i as int);
            }
            return Some(i);
        }
        i = i + 1;
    }
    proof {
        lemma_entries_view(al@);
        lemma_index_of_none(entries_view(al@), k@);
    }
    None
}

/// The value of the first entry of the object whose key is `k`.
fn find_entry<'b>(es: &'b Vec<(String, JsonValue)>, k: &String) -> (r: Option<&'b JsonValue>)
    ensures
        r matches Some(v) ==> find(es@, k@) == Some(*v),
        r is None ==> find(es@, k@) is None,
{
    let mut i: usize = 0;
    proof {
        assert(es@.subrange(0, es@.len() as int) == es@);
    }
    while i < es.len()
        invariant
            i <= es@.len(),
            find(es@, k@) == find(es@.subrange(i as int, es@.len() as int), k@),
        decreases es.len() - i,
    {
        proof {
            assert(es@.subrange(i as int, es@.len() as int).drop_first() =~= es@.subrange(
                i + 1,
                es@.len() as int,
            ));
        }
        if es[i].0 == *k {
            return Some(&es[i].1);
        }
        i = i + 1;
    }
    None
}

pub open spec fn text_of(d: Option<&str>) -> Option<Seq<char>> {
    match d {
        Some(s) => Some(s@),
        None => None,
    }
}

/// The key `d` with the string the object holds under it, as [`tag_of`] says.
fn tag_lookup(es: &Vec<(String, JsonValue)>, skip: &Vec<String>, d: Option<&str>) -> (r: Option<
    (String, String),
>)
    ensures
        match r {
            Some((a, b)) => tag_of(es@, strings_view(skip@), text_of(d)) == Some((a@, b@)),
            None => tag_of(es@, strings_view(skip@), text_of(d)) is None,
        },
{
    match d {
        None => None,
        Some(d) => {
            let d_s = d.to_owned();
            if holds(skip, &d_s) {
                return None;
            }
            match find_entry(es, &d_s) {
                Some(JsonValue::String(t)) => Some((d_s, t.clone())),
                _ => None,
            }
        },
    }
}


proof fn lemma_ev_push(es: Seq<(String, InferredSchema)>, e: (String, InferredSchema))
    ensures
        entries_view(es.push(e)) == entries_view(es).push((e.0@, e.1@)),
{
    lemma_entries_view(es);
    lemma_entries_view(es.push(e));
    assert(entries_view(es.push(e)) =~= entries_view(es).push((e.0@, e.1@)));
}

proof fn lemma_ev_drop_first(es: Seq<(String, InferredSchema)>)
    requires
        es.len() > 0,
    ensures
        entries_view(es.drop_first()) == entries_view(es).drop_first(),
        entries_view(es)[0] == (es[0].0@, es[0].1@),
{
    lemma_entries_view(es);
    lemma_entries_view(es.drop_first());
    assert(entries_view(es.drop_first()) =~= entries_view(es).drop_first());
}

proof fn lemma_ev_replace(es: Seq<(String, InferredSchema)>, j: int, e: (String, InferredSchema))
    requires
        0 <= j < es.len(),
    ensures
        entries_view(es.remove(j).insert(j, e)) == entries_view(es).update(j, (e.0@, e.1@)),
{
    assert(es.remove(j).insert(j, e) =~= es.update(j, e));
    lemma_entries_view(es);
    lemma_entries_view(es.update(j, e));
    assert(entries_view(es.update(j, e)) =~= entries_view(es).update(j, (e.0@, e.1@)));
}

proof fn lemma_ev_append(a: Seq<(String, InferredSchema)>, b: Seq<(String, InferredSchema)>)
    ensures
        entries_view(a + b) == entries_view(a) + entries_view(b),
{
    lemma_entries_view(a);
    lemma_entries_view(b);
    lemma_entries_view(a + b);
    assert(entries_view(a + b) =~= entries_view(a) + entries_view(b));
}

/// The strings of `skip` and one more.
fn with_key(skip: &Vec<String>, d: String) -> (r: Vec<String>)
    ensures
        strings_view(r@) == strings_view(skip@).insert(d@),
{
    let mut out: Vec<String> = Vec::new();
    let mut i: usize = 0;
    while i < skip.len()
        invariant
            i <= skip@.len(),
            out@.len() == i,
            forall|j: int| 0 <= j < i ==> out@[j]@ == skip@[j]@,
        decreases skip.len() - i,
    {
        out.push(skip[i].clone());
        i = i + 1;
    }
    proof {
        assert(strings_view(out@) =~= strings_view(skip@)) by {
            assert forall|x: Seq<char>| strings_view(skip@).contains(x) implies strings_view(out@).contains(x) by {
                let j = choose|j: int| 0 <= j < skip@.len() && skip@[j]@ == x;
                assert(out@[j]@ == x);
            }
        }
        lemma_strings_view_push(out@, d);
    }
    out.push(d);
    out
}

/// The entries of `required` whose key stands in the object, and the others.
fn split_required(
    required: Vec<(String, InferredSchema)>,
    es: &Vec<(String, JsonValue)>,
    skip: &Vec<String>,
) -> (r: (Vec<(String, InferredSchema)>, Vec<(String, InferredSchema)>))
    ensures
        entries_view(r.0@) == split_present(entries_view(required@), es@, strings_view(skip@), true),
        entries_view(r.1@) == split_present(entries_view(required@), es@, strings_view(skip@), false),
{
    let ghost orig = entries_view(required@);
    let ghost n = required@.len() as int;
    let ghost sk = strings_view(skip@);
    let mut rest = required;
    let mut kept: Vec<(String, InferredSchema)> = Vec::new();
    let mut moved: Vec<(String, InferredSchema)> = Vec::new();
    proof {
        lemma_entries_view(required@);
        assert(orig.subrange(n - rest@.len(), n) =~= orig);
        assert(orig.subrange(0, 0) =~= Seq::<(Seq<char>, Inference)>::empty());
        assert(entries_view(kept@) =~= Seq::<(Seq<char>, Inference)>::empty());
        assert(entries_view(moved@) =~= Seq::<(Seq<char>, Inference)>::empty());
    }
    while rest.len() > 0
        invariant
            n == orig.len(),
            sk == strings_view(skip@),
            rest@.len() <= n,
            entries_view(rest@) == orig.subrange(n - rest@.len(), n),
            entries_view(kept@) == split_present(orig.subrange(0, n - rest@.len()), es@, sk, true),
            entries_view(moved@) == split_present(orig.subrange(0, n - rest@.len()), es@, sk, false),
        decreases rest.len(),
    {
        let ghost i = n - rest@.len();
        let ghost before = rest@;
        proof {
            lemma_ev_drop_first(before);
            assert(orig.subrange(0, i + 1).drop_last() =~= orig.subrange(0, i));
            assert(orig.subrange(i, n)[0] == orig[i]);
            assert(orig.subrange(i, n).drop_first() =~= orig.subrange(i + 1, n));
        }
        let e = rest.remove(0);
        proof {
            assert(rest@ =~= before.drop_first());
        }
        let keep = !holds(skip, &e.0) && find_entry(es, &e.0).is_some();
        if keep {
            proof {
                lemma_ev_push(kept@, e);
            }
            kept.push(e);
        } else {
            proof {
                lemma_ev_push(moved@, e);
            }
            moved.push(e);
        }
    }
    proof {
        assert(orig.subrange(0, n) =~= orig);
    }
    (kept, moved)
}

impl InferredSchema {
    /// Folds one example into the inference, with the hints of its position.
    pub fn infer(self, value: JsonValue, hints: &Hints) -> (r: Self)
        ensures
            r@ == fold(self@, value, hints@),
            wf(self@) ==> wf(r@),
    {
        proof {
            if wf(self@) {
                lemma_fold(self@, value, hints@);
            }
        }
        self.infer_ref(&value, hints)
    }

    fn infer_ref(self, v: &JsonValue, hints: &Hints) -> (r: Self)
        ensures
            r@ == fold(self@, *v, hints@),
        decreases size(*v), 0nat, 5nat, self,
    {
        if let JsonValue::Null = v {
            return InferredSchema::Nullable(Box::new(self));
        }
        match self {
            InferredSchema::Nullable(inner) => InferredSchema::Nullable(
                Box::new((*inner).infer_ref(v, hints)),
            ),
            other => other.infer_base(v, hints),
        }
    }

    fn infer_base(self, v: &JsonValue, hints: &Hints) -> (r: Self)
        ensures
            r@ == fold_base(self@, *v, hints@),
        decreases size(*v), 0nat, 4nat, self,
    {
        match v {
            JsonValue::Object(es) => {
                let skip: Vec<String> = Vec::new();
                proof {
                    assert(strings_view(skip@) =~= Set::empty());
                }
                self.infer_entries(es, &skip, hints)
            },
            JsonValue::Array(vs) => match self {
                InferredSchema::Unknown => InferredSchema::Array(
                    Box::new(InferredSchema::infer_items(InferredSchema::Unknown, vs, hints)),
                ),
                InferredSchema::Array(c) => InferredSchema::Array(
                    Box::new(InferredSchema::infer_items(*c, vs, hints)),
                ),
                _ => InferredSchema::Any,
            },
            JsonValue::String(t) => {
                let is_timestamp = match &self {
                    InferredSchema::Unknown | InferredSchema::Timestamp | InferredSchema::Nullable(_) => {
                        parses_as_rfc3339(t.as_str())
                    },
                    _ => false,
                };
                self.infer_text(t, is_timestamp, hints)
            },
            _ => match self {
                InferredSchema::Unknown => match v {
                    JsonValue::Bool(_) => InferredSchema::Boolean,
                    JsonValue::Number(n) => InferredSchema::Number(InferredNumber::new().infer(*n)),
                    _ => InferredSchema::Any,
                },
                InferredSchema::Boolean => match v {
                    JsonValue::Bool(_) => InferredSchema::Boolean,
                    _ => InferredSchema::Any,
                },
                InferredSchema::Number(n) => match v {
                    JsonValue::Number(x) => InferredSchema::Number(n.infer(*x)),
                    _ => InferredSchema::Any,
                },
                _ => InferredSchema::Any,
            },
        }
    }

    /// Folds the string `t` into the inference, given whether `t` is an RFC 3339
    /// timestamp.
    pub fn infer_text(self, t: &String, is_timestamp: bool, hints: &Hints) -> (r: Self)
        ensures
            r@ == fold_text(self@, t@, is_timestamp, hints@),
        decreases self,
    {
        match self {
            InferredSchema::Nullable(inner) => InferredSchema::Nullable(
                Box::new((*inner).infer_text(t, is_timestamp, hints)),
            ),
            InferredSchema::Unknown => {
                if hints.is_enum_active() {
                    let mut vs: Vec<String> = Vec::new();
                    proof {
                        assert(strings_view(vs@) =~= Set::empty());
                        lemma_strings_view_push(vs@, *t);
                        assert(Set::<Seq<char>>::empty().insert(t@) =~= set![t@]);
                    }
                    vs.push(t.clone());
                    InferredSchema::Enum(vs)
                } else if is_timestamp {
                    InferredSchema::Timestamp
                } else {
                    InferredSchema::String
                }
            },
            InferredSchema::Timestamp => {
                if is_timestamp {
                    InferredSchema::Timestamp
                } else {
                    InferredSchema::String
                }
            },
            InferredSchema::String => InferredSchema::String,
            InferredSchema::Enum(vs) => {
                let mut vs = vs;
                if holds(&vs, t) {
                    proof {
                        assert(strings_view(vs@).insert(t@) =~= strings_view(vs@));
                    }
                } else {
                    proof {
                        lemma_strings_view_push(vs@, *t);
                    }
                    vs.push(t.clone());
                }
                InferredSchema::Enum(vs)
            },
            _ => InferredSchema::Any,
        }
    }

    fn infer_items(c: InferredSchema, vs: &Vec<JsonValue>, hints: &Hints) -> (r: InferredSchema)
        ensures
            r@ == fold_items(c@, vs@, 0, hints@),
        decreases sizes(vs@), 0nat, 6nat, c,
    {
        let ghost goal = fold_items(c@, vs@, 0, hints@);
        let mut acc = c;
        let mut i: usize = 0;
        proof {
            assert(vs@.subrange(0, vs@.len() as int) =~= vs@);
        }
        while i < vs.len()
            invariant
                i <= vs@.len(),
                fold_items(acc@, vs@.subrange(i as int, vs@.len() as int), i as nat, hints@) == goal,
            decreases vs.len() - i,
        {
            proof {
                lemma_sizes(vs@, i as int);
                assert(vs@.subrange(i as int, vs@.len() as int).drop_first() =~= vs@.subrange(
                    i + 1,
                    vs@.len() as int,
                ));
            }
            let key = index_key(i);
            let sub = hints.sub_hints(key.as_str());
            acc = acc.infer_ref(&vs[i], &sub);
            i = i + 1;
        }
        acc
    }

    fn infer_entries(self, es: &Vec<(String, JsonValue)>, skip: &Vec<String>, hints: &Hints) -> (r:
        Self)
        ensures
            r@ == fold_entries(self@, es@, strings_view(skip@), hints@),
        decreases entry_sizes(es@), unskipped(es@, strings_view(skip@)), 3nat, self,
    {
        match self {
            InferredSchema::Nullable(inner) => InferredSchema::Nullable(
                Box::new((*inner).infer_entries(es, skip, hints)),
            ),
            other => other.infer_object(es, skip, hints),
        }
    }

    fn infer_object(self, es: &Vec<(String, JsonValue)>, skip: &Vec<String>, hints: &Hints) -> (r:
        Self)
        ensures
            r@ == fold_object(self@, es@, strings_view(skip@), hints@),
        decreases entry_sizes(es@), unskipped(es@, strings_view(skip@)), 2nat, self,
    {
        let ghost sk = strings_view(skip@);
        match self {
            InferredSchema::Unknown => {
                if hints.is_values_active() {
                    return InferredSchema::Values(
                        Box::new(InferredSchema::infer_values(InferredSchema::Unknown, es, skip, hints)),
                    );
                }
                match tag_lookup(es, skip, hints.peek_active_discriminator()) {
                    Some((d, t)) => {
                        let skip2 = with_key(skip, d.clone());
                        proof {
                            lemma_unskipped_insert(es@, sk, d@);
                            assert(entries_view(Seq::<(String, InferredSchema)>::empty()) =~= Seq::empty());
                        }
                        let (req, opt) = InferredSchema::infer_fields(
                            Vec::new(),
                            Vec::new(),
                            es,
                            &skip2,
                            hints,
                            true,
                        );
                        let mut mapping: Vec<(String, InferredSchema)> = Vec::new();
                        let branch = InferredSchema::Properties { required: req, optional: opt };
                        proof {
                            lemma_ev_push(mapping@, (t, branch));
                            assert(entries_view(mapping@) =~= Seq::empty());
                        }
                        mapping.push((t, branch));
                        InferredSchema::Discriminator { discriminator: d, mapping }
                    },
                    None => {
                        proof {
                            assert(entries_view(Seq::<(String, InferredSchema)>::empty()) =~= Seq::empty());
                        }
                        let (req, opt) = InferredSchema::infer_fields(
                            Vec::new(),
                            Vec::new(),
                            es,
                            skip,
                            hints,
                            true,
                        );
                        InferredSchema::Properties { required: req, optional: opt }
                    },
                }
            },
            InferredSchema::Properties { required, optional } => {
                let (kept, mut moved) = split_required(required, es, skip);
                let mut optional = optional;
                proof {
                    lemma_ev_append(optional@, moved@);
                }
                optional.append(&mut moved);
                let (req, opt) = InferredSchema::infer_fields(kept, optional, es, skip, hints, false);
                InferredSchema::Properties { required: req, optional: opt }
            },
            InferredSchema::Values(c) => InferredSchema::Values(
                Box::new(InferredSchema::infer_values(*c, es, skip, hints)),
            ),
            InferredSchema::Discriminator { discriminator, mapping } => {
                match tag_lookup(es, skip, Some(discriminator.as_str())) {
                    Some((_, t)) => {
                        let skip2 = with_key(skip, discriminator.clone());
                        proof {
                            lemma_unskipped_insert(es@, sk, discriminator@);
                            lemma_entries_view(mapping@);
                        }
                        let mut mapping = mapping;
                        match position(&mapping, &t) {
                            Some(i) => {
                                proof {
                                    lemma_index_of_key(entries_view(mapping@), t@);
                                }
                                let ghost before = mapping@;
                                let (k, prior) = mapping.remove(i);
                                let branch = prior.infer_entries(es, &skip2, hints);
                                proof {
                                    lemma_ev_replace(before, i as int, (k, branch));
                                }
                                mapping.insert(i, (k, branch));
                            },
                            None => {
                                let branch = InferredSchema::Unknown.infer_entries(es, &skip2, hints);
                                proof {
                                    lemma_ev_push(mapping@, (t, branch));
                                }
                                mapping.push((t, branch));
                            },
                        }
                        InferredSchema::Discriminator { discriminator, mapping }
                    },
                    None => InferredSchema::Any,
                }
            },
            _ => InferredSchema::Any,
        }
    }

    fn infer_values(
        c: InferredSchema,
        es: &Vec<(String, JsonValue)>,
        skip: &Vec<String>,
        hints: &Hints,
    ) -> (r: InferredSchema)
        ensures
            r@ == fold_values(c@, es@, strings_view(skip@), hints@),
        decreases entry_sizes(es@), unskipped(es@, strings_view(skip@)), 1nat, c,
    {
        let ghost sk = strings_view(skip@);
        let ghost goal = fold_values(c@, es@, sk, hints@);
        let mut acc = c;
        let mut i: usize = 0;
        proof {
            assert(es@.subrange(0, es@.len() as int) =~= es@);
        }
        while i < es.len()
            invariant
                i <= es@.len(),
                sk == strings_view(skip@),
                fold_values(acc@, es@.subrange(i as int, es@.len() as int), sk, hints@) == goal,
            decreases es.len() - i,
        {
            proof {
                lemma_entry_sizes(es@, i as int);
                assert(es@.subrange(i as int, es@.len() as int).drop_first() =~= es@.subrange(
                    i + 1,
                    es@.len() as int,
                ));
            }
            let e = &es[i];
            if !holds(skip, &e.0) {
                let sub = hints.sub_hints(e.0.as_str());
                acc = acc.infer_ref(&e.1, &sub);
            }
            i = i + 1;
        }
        acc
    }

    fn infer_fields(
        req: Vec<(String, InferredSchema)>,
        opt: Vec<(String, InferredSchema)>,
        es: &Vec<(String, JsonValue)>,
        skip: &Vec<String>,
        hints: &Hints,
        to_required: bool,
    ) -> (r: (Vec<(String, InferredSchema)>, Vec<(String, InferredSchema)>))
        ensures
            (entries_view(r.0@), entries_view(r.1@)) == fold_fields(
                entries_view(req@),
                entries_view(opt@),
                es@,
                strings_view(skip@),
                hints@,
                to_required,
            ),
        decreases entry_sizes(es@), unskipped(es@, strings_view(skip@)), 1nat, InferredSchema::Unknown,
    {
        let ghost sk = strings_view(skip@);
        let ghost goal = fold_fields(entries_view(req@), entries_view(opt@), es@, sk, hints@, to_required);
        let mut req = req;
        let mut opt = opt;
        let mut i: usize = 0;
        proof {
            assert(es@.subrange(0, es@.len() as int) =~= es@);
        }
        while i < es.len()
            invariant
                i <= es@.len(),
                sk == strings_view(skip@),
                fold_fields(
                    entries_view(req@),
                    entries_view(opt@),
                    es@.subrange(i as int, es@.len() as int),
                    sk,
                    hints@,
                    to_required,
                ) == goal,
            decreases es.len() - i,
        {
            proof {
                lemma_entry_sizes(es@, i as int);
                assert(es@.subrange(i as int, es@.len() as int).drop_first() =~= es@.subrange(
                    i + 1,
                    es@.len() as int,
                ));
                lemma_entries_view(req@);
                lemma_entries_view(opt@);
                lemma_index_of_key(entries_view(req@), es@[i as int].0@);
                lemma_index_of_key(entries_view(opt@), es@[i as int].0@);
            }
            let e = &es[i];
            if !holds(skip, &e.0) {
                let sub = hints.sub_hints(e.0.as_str());
                match position(&req, &e.0) {
                    Some(j) => {
                        let ghost before = req@;
                        let (k, child) = req.remove(j);
                        let child = child.infer_ref(&e.1, &sub);
                        proof {
                            lemma_ev_replace(before, j as int, (k, child));
                        }
                        req.insert(j, (k, child));
                    },
                    None => match position(&opt, &e.0) {
                        Some(j) => {
                            let ghost before = opt@;
                            let (k, child) = opt.remove(j);
                            let child = child.infer_ref(&e.1, &sub);
                            proof {
                                lemma_ev_replace(before, j as int, (k, child));
                            }
                            opt.insert(j, (k, child));
                        },
                        None => {
                            let child = InferredSchema::Unknown.infer_ref(&e.1, &sub);
                            let key = e.0.clone();
                            if to_required {
                                proof {
                                    lemma_ev_push(req@, (key, child));
                                }
                                req.push((key, child));
                            } else {
                                proof {
                                    lemma_ev_push(opt@, (key, child));
                                }
                                opt.push((key, child));
                            }
                        },
                    },
                }
            }
            i = i + 1;
        }
        (req, opt)
    }
}

impl InferredSchema {
    /// The schema that the inference stands for.
    pub fn into_schema(self, hints: &Hints) -> (r: Schema)
        ensures
            r@ == project(self@, hints@.default_num_type),
    {
        self.project_with(hints.default_num_type())
    }

    fn project_with(self, nt: &NumType) -> (r: Schema)
        ensures
            r@ == project(self@, *nt),
        decreases self, 1nat,
    {
        match self {
            InferredSchema::Unknown | InferredSchema::Any => Schema::Empty,
            InferredSchema::Boolean => Schema::Type { nullable: false, type_: Type::Boolean },
            InferredSchema::Number(n) => Schema::Type { nullable: false, type_: n.into_type(nt) },
            InferredSchema::String => Schema::Type { nullable: false, type_: Type::String },
            InferredSchema::Timestamp => Schema::Type { nullable: false, type_: Type::Timestamp },
            InferredSchema::Enum(vs) => Schema::Enum { nullable: false, enum_: vs },
            InferredSchema::Array(c) => Schema::Elements {
                nullable: false,
                elements: Box::new((*c).project_with(nt)),
            },
            InferredSchema::Properties { required, optional } => {
                let properties_is_present = required.len() > 0;
                let properties = project_all(required, nt);
                let optional_properties = project_all(optional, nt);
                Schema::Properties {
                    nullable: false,
                    properties,
                    optional_properties,
                    properties_is_present,
                    additional_properties: false,
                }
            },
            InferredSchema::Values(c) => Schema::Values {
                nullable: false,
                values: Box::new((*c).project_with(nt)),
            },
            InferredSchema::Discriminator { discriminator, mapping } => Schema::Discriminator {
                nullable: false,
                discriminator,
                mapping: project_all(mapping, nt),
            },
            InferredSchema::Nullable(c) => (*c).project_with(nt).into_nullable(),
        }
    }
}

/// Each entry's key with the schema of its inference.
fn project_all(es: Vec<(String, InferredSchema)>, nt: &NumType) -> (r: Vec<(String, Schema)>)
    ensures
        schema_entries_view(r@) == project_entries(entries_view(es@), *nt),
    decreases es, 0nat,
{
    let ghost orig = es@;
    let ghost n = es@.len() as int;
    let mut rest = es;
    let mut out: Vec<(String, Schema)> = Vec::new();
    proof {
        assert(orig.subrange(0, n) =~= orig);
    }
    while rest.len() > 0
        invariant
            n == orig.len(),
            orig == es@,
            rest@.len() <= n,
            rest@ == orig.subrange(n - rest@.len(), n),
            out@.len() == n - rest@.len(),
            forall|j: int| 0 <= j < out@.len() ==> #[trigger] out@[j].0@ == orig[j].0@ && out@[j].1@ == project(orig[j].1@, *nt),
        decreases rest.len(),
    {
        let ghost i = n - rest@.len();
        let ghost before = rest@;
        proof {
            assert(before[0] == orig[i]);
        }
        let (k, c) = rest.remove(0);
        proof {
            assert(rest@ =~= orig.subrange(i + 1, n));
            assert(c == es@[i].1);
        }
        let sc = c.project_with(nt);
        out.push((k, sc));
    }
    proof {
        lemma_schema_entries_view(out@);
        lemma_entries_view(orig);
        lemma_project_entries(entries_view(orig), *nt);
        assert(schema_entries_view(out@) =~= project_entries(entries_view(orig), *nt));
    }
    out
}

} // verus!
