//! Infers JSON Type Definition (RFC 8927) schemas from example JSON values.
//!
//! Examples are folded one at a time into an inference lattice; the lattice is
//! then projected to the narrowest schema that accepts every example. Hints
//! steer chosen positions toward the enum, values and discriminator forms, and
//! numbers toward a preferred type.
use vstd::prelude::*;

pub mod acceptance;
pub mod hints;
pub mod inferred_schema;
pub mod json;
pub mod lattice;
pub mod laws;
pub mod number;
pub mod pointer;
pub mod schema;
pub mod text;

pub use crate::hints::{HintSet, Hints};
pub use crate::inferred_schema::InferredSchema;
pub use crate::json::JsonValue;
pub use crate::number::{InferredNumber, JsonNumber, NumType};
pub use crate::pointer::parse_json_pointer;
pub use crate::schema::{Schema, Type};

use crate::hints::HintsModel;
use crate::lattice::{fold, project, Inference};

verus! {

/// Keeps the inference drawn from a sequence of examples, and turns it into a
/// schema that accepts all of them.
pub struct Inferrer<'a> {
    inference: InferredSchema,
    hints: Hints<'a>,
}

impl<'a> Inferrer<'a> {
    pub closed spec fn inference(&self) -> Inference {
        self.inference@
    }

    pub closed spec fn hints(&self) -> HintsModel {
        self.hints@
    }

    /// An inferrer that has seen no example yet.
    pub fn new(hints: Hints<'a>) -> (r: Self)
        ensures
            r.inference() == Inference::Unknown,
            r.hints() == hints@,
    {
        Inferrer { inference: InferredSchema::Unknown, hints }
    }

    /// Folds one more example into the inference.
    pub fn infer(self, value: JsonValue) -> (r: Self)
        ensures
            r.inference() == fold(self.inference(), value, self.hints()),
            r.hints() == self.hints(),
    {
        let Inferrer { inference, hints } = self;
        let inference = inference.infer(value, &hints);
        Inferrer { inference, hints }
    }

    /// The schema of everything seen so far.
    pub fn into_schema(self) -> (r: Schema)
        ensures
            r@ == project(self.inference(), self.hints().default_num_type),
    {
        self.inference.into_schema(&self.hints)
    }
}

} // verus!
