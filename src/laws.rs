//! What holds of inference over whole sequences of examples.
use crate::acceptance::{accepts, admits, json_wf, lemma_absorb, lemma_admits_accepts, lemma_fold, wf};
use crate::hints::HintsModel;
use crate::json::JsonValue;
use crate::lattice::{fold, fold_base, project, Inference};
use crate::number::NumType;
use crate::schema::{with_nullable, SchemaModel};
use vstd::prelude::*;

verus! {

/// The inference after folding the examples `xs` into `s`, in order.
pub open spec fn fold_all(s: Inference, xs: Seq<JsonValue>, h: HintsModel) -> Inference
    decreases xs.len(),
{
    if xs.len() == 0 {
        s
    } else {
        fold(fold_all(s, xs.drop_last(), h), xs.last(), h)
    }
}

/// `n` nulls.
pub open spec fn nulls(n: nat) -> Seq<JsonValue> {
    Seq::new(n, |i: int| JsonValue::Null)
}

/// Setting the nullable flag twice is setting it once.
pub proof fn lemma_with_nullable_twice(s: SchemaModel)
    ensures
        with_nullable(with_nullable(s)) == with_nullable(s),
{
}

/// Folding null once or any greater number of times gives the same schema.
pub proof fn law_null_idempotent(s: Inference, n: nat, h: HintsModel, nt: NumType)
    requires
        n >= 1,
    ensures
        project(fold_all(s, nulls(n), h), nt) == project(fold(s, JsonValue::Null, h), nt),
    decreases n,
{
    assert(nulls(n).drop_last() =~= nulls((n - 1) as nat));
    if n > 1 {
        law_null_idempotent(s, (n - 1) as nat, h, nt);
        lemma_with_nullable_twice(project(fold_all(s, nulls((n - 1) as nat), h), nt));
    } else {
        assert(nulls(0) =~= Seq::<JsonValue>::empty());
    }
}

/// The texts of the strings among `xs`.
pub open spec fn texts(xs: Seq<JsonValue>) -> Set<Seq<char>> {
    Set::new(|t: Seq<char>| exists|i: int| 0 <= i < xs.len() && xs[i] is String && xs[i]->String_0@ == t)
}

proof fn lemma_enum_fold(xs: Seq<JsonValue>, h: HintsModel)
    requires
        h.enum_active(),
        xs.len() >= 1,
        forall|i: int| 0 <= i < xs.len() ==> #[trigger] xs[i] is String,
    ensures
        fold_all(Inference::Unknown, xs, h) == Inference::Enum(texts(xs)),
    decreases xs.len(),
{
    let last = xs.last();
    let prev = xs.drop_last();
    assert(xs[xs.len() - 1] == last);
    assert(last is String);
    if xs.len() == 1 {
        assert(prev =~= Seq::<JsonValue>::empty());
        assert(fold_all(Inference::Unknown, prev, h) == Inference::Unknown);
        assert(fold(Inference::Unknown, last, h) == fold_base(Inference::Unknown, last, h));
        assert(texts(xs) =~= set![last->String_0@]) by {
            assert(xs[0] == last);
        }
    } else {
        lemma_enum_fold(prev, h);
        let s = fold_all(Inference::Unknown, prev, h);
        assert(fold(s, last, h) == fold_base(s, last, h));
        assert(texts(xs) =~= texts(prev).insert(last->String_0@)) by {
            assert forall|t: Seq<char>| texts(xs).contains(t) implies texts(prev).insert(
                last->String_0@,
            ).contains(t) by {
                let i = choose|i: int| 0 <= i < xs.len() && xs[i] is String && xs[i]->String_0@ == t;
                if i < prev.len() {
                    assert(prev[i] == xs[i]);
                }
            }
            assert forall|t: Seq<char>| texts(prev).contains(t) implies texts(xs).contains(t) by {
                let i = choose|i: int| 0 <= i < prev.len() && prev[i] is String && prev[i]->String_0@ == t;
                assert(xs[i] == prev[i]);
            }
        }
    }
}

/// At a position where an enum is hinted, folding one or more strings gives the
/// enum of exactly the strings seen.
pub proof fn law_enum_growth(xs: Seq<JsonValue>, h: HintsModel, nt: NumType)
    requires
        h.enum_active(),
        xs.len() >= 1,
        forall|i: int| 0 <= i < xs.len() ==> #[trigger] xs[i] is String,
    ensures
        project(fold_all(Inference::Unknown, xs, h), nt) == (SchemaModel::Enum {
            nullable: false,
            enum_: texts(xs),
        }),
{
    lemma_enum_fold(xs, h);
}

/// After any sequence of examples the inference is well formed and admits every
/// one of them.
pub proof fn lemma_fold_all_admits(xs: Seq<JsonValue>, h: HintsModel)
    ensures
        wf(fold_all(Inference::Unknown, xs, h)),
        forall|i: int| 0 <= i < xs.len() ==> admits(fold_all(Inference::Unknown, xs, h), #[trigger] xs[i]),
    decreases xs.len(),
{
    if xs.len() > 0 {
        let prev = xs.drop_last();
        lemma_fold_all_admits(prev, h);
        let s = fold_all(Inference::Unknown, prev, h);
        lemma_fold(s, xs.last(), h);
        assert forall|i: int| 0 <= i < xs.len() implies admits(fold_all(Inference::Unknown, xs, h), #[trigger] xs[i]) by {
            if i < prev.len() {
                assert(prev[i] == xs[i]);
                assert(admits(s, xs[i]));
            }
        }
    }
}

/// The schema inferred from a sequence of examples accepts every one of them.
pub proof fn law_acceptance(xs: Seq<JsonValue>, h: HintsModel)
    ensures
        forall|i: int|
            0 <= i < xs.len() ==> accepts(
                project(fold_all(Inference::Unknown, xs, h), h.default_num_type),
                #[trigger] xs[i],
            ),
{
    lemma_fold_all_admits(xs, h);
    assert forall|i: int| 0 <= i < xs.len() implies accepts(
        project(fold_all(Inference::Unknown, xs, h), h.default_num_type),
        #[trigger] xs[i],
    ) by {
        lemma_admits_accepts(fold_all(Inference::Unknown, xs, h), xs[i], h.default_num_type);
    }
}

/// Folding one more example never drops a value that the inference admitted:
/// the inference still admits it, and the schema after the fold accepts it.
pub proof fn law_monotone(xs: Seq<JsonValue>, x: JsonValue, y: JsonValue, h: HintsModel)
    requires
        admits(fold_all(Inference::Unknown, xs, h), y),
    ensures
        admits(fold_all(Inference::Unknown, xs.push(x), h), y),
        accepts(project(fold_all(Inference::Unknown, xs.push(x), h), h.default_num_type), y),
{
    lemma_fold_all_admits(xs, h);
    assert(xs.push(x).drop_last() =~= xs);
    lemma_fold(fold_all(Inference::Unknown, xs, h), x, h);
    lemma_admits_accepts(fold_all(Inference::Unknown, xs.push(x), h), y, h.default_num_type);
}

/// The examples folded so far stay accepted after one more example is folded.
pub proof fn law_examples_stay_accepted(xs: Seq<JsonValue>, x: JsonValue, h: HintsModel, i: int)
    requires
        0 <= i < xs.len(),
    ensures
        accepts(project(fold_all(Inference::Unknown, xs.push(x), h), h.default_num_type), xs[i]),
{
    lemma_fold_all_admits(xs, h);
    law_monotone(xs, x, xs[i], h);
}

/// Folding an example a second time, right after folding it into an empty
/// inference, leaves the schema as it was. Objects are taken to have distinct
/// keys.
pub proof fn law_repeat_example(x: JsonValue, h: HintsModel, nt: NumType)
    requires
        json_wf(x),
    ensures
        project(fold(fold(Inference::Unknown, x, h), x, h), nt) == project(fold(Inference::Unknown, x, h), nt),
{
    lemma_fold(Inference::Unknown, x, h);
    lemma_absorb(fold(Inference::Unknown, x, h), x, h, nt);
}

} // verus!
