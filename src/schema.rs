//! The JSON Type Definition schemas that inference produces.
use crate::inferred_schema::strings_view;
use vstd::prelude::*;

verus! {

/// The primitive types of the type form.
#[derive(Clone, Copy, Debug, PartialEq, Eq, Structural)]
pub enum Type {
    Boolean,
    Int8,
    Uint8,
    Int16,
    Uint16,
    Int32,
    Uint32,
    Float32,
    Float64,
    String,
    Timestamp,
}

/// A JSON Type Definition schema as a mathematical value. Mappings are lists
/// of entries in order.
pub enum SchemaModel {
    Empty,
    Type { nullable: bool, type_: Type },
    Enum { nullable: bool, enum_: Set<Seq<char>> },
    Elements { nullable: bool, elements: Box<SchemaModel> },
    Properties {
        nullable: bool,
        properties: Seq<(Seq<char>, SchemaModel)>,
        optional_properties: Seq<(Seq<char>, SchemaModel)>,
        properties_is_present: bool,
        additional_properties: bool,
    },
    Values { nullable: bool, values: Box<SchemaModel> },
    Discriminator { nullable: bool, discriminator: Seq<char>, mapping: Seq<(Seq<char>, SchemaModel)> },
}

/// A JSON Type Definition schema in one of the forms that inference produces:
/// empty, type, enum, elements, properties, values or discriminator.
#[derive(Debug, PartialEq)]
pub enum Schema {
    Empty,
    Type { nullable: bool, type_: Type },
    Enum { nullable: bool, enum_: Vec<String> },
    Elements { nullable: bool, elements: Box<Schema> },
    Properties {
        nullable: bool,
        properties: Vec<(String, Schema)>,
        optional_properties: Vec<(String, Schema)>,
        properties_is_present: bool,
        additional_properties: bool,
    },
    Values { nullable: bool, values: Box<Schema> },
    Discriminator { nullable: bool, discriminator: String, mapping: Vec<(String, Schema)> },
}

pub open spec fn schema_entries_view(es: Seq<(String, Schema)>) -> Seq<(Seq<char>, SchemaModel)>
    decreases es, 0nat,
{
    if es.len() == 0 {
        Seq::empty()
    } else {
        seq![(es[0].0@, es[0].1.view())] + schema_entries_view(es.drop_first())
    }
}

impl Schema {
    pub open spec fn view(&self) -> SchemaModel
        decreases self, 1nat,
    {
        match self {
            Schema::Empty => SchemaModel::Empty,
            Schema::Type { nullable, type_ } => SchemaModel::Type { nullable: *nullable, type_: *type_ },
            Schema::Enum { nullable, enum_ } => SchemaModel::Enum {
                nullable: *nullable,
                enum_: strings_view(enum_@),
            },
            Schema::Elements { nullable, elements } => SchemaModel::Elements {
                nullable: *nullable,
                elements: Box::new((**elements).view()),
            },
            Schema::Properties {
                nullable,
                properties,
                optional_properties,
                properties_is_present,
                additional_properties,
            } => SchemaModel::Properties {
                nullable: *nullable,
                properties: schema_entries_view(properties@),
                optional_properties: schema_entries_view(optional_properties@),
                properties_is_present: *properties_is_present,
                additional_properties: *additional_properties,
            },
            Schema::Values { nullable, values } => SchemaModel::Values {
                nullable: *nullable,
                values: Box::new((**values).view()),
            },
            Schema::Discriminator { nullable, discriminator, mapping } => SchemaModel::Discriminator {
                nullable: *nullable,
                discriminator: discriminator@,
                mapping: schema_entries_view(mapping@),
            },
        }
    }

    /// The same schema with its `nullable` flag set; the empty form, which
    /// already accepts null, stays as it is.
    pub fn into_nullable(self) -> (r: Schema)
        ensures
            r@ == with_nullable(self@),
    {
        match self {
            Schema::Empty => Schema::Empty,
            Schema::Type { type_, .. } => Schema::Type { nullable: true, type_ },
            Schema::Enum { enum_, .. } => Schema::Enum { nullable: true, enum_ },
            Schema::Elements { elements, .. } => Schema::Elements { nullable: true, elements },
            Schema::Properties {
                properties,
                optional_properties,
                properties_is_present,
                additional_properties,
                ..
            } => Schema::Properties {
                nullable: true,
                properties,
                optional_properties,
                properties_is_present,
                additional_properties,
            },
            Schema::Values { values, .. } => Schema::Values { nullable: true, values },
            Schema::Discriminator { discriminator, mapping, .. } => Schema::Discriminator {
                nullable: true,
                discriminator,
                mapping,
            },
        }
    }
}

pub open spec fn with_nullable(s: SchemaModel) -> SchemaModel {
    match s {
        SchemaModel::Empty => SchemaModel::Empty,
        SchemaModel::Type { type_, .. } => SchemaModel::Type { nullable: true, type_ },
        SchemaModel::Enum { enum_, .. } => SchemaModel::Enum { nullable: true, enum_ },
        SchemaModel::Elements { elements, .. } => SchemaModel::Elements { nullable: true, elements },
        SchemaModel::Properties {
            properties,
            optional_properties,
            properties_is_present,
            additional_properties,
            ..
        } => SchemaModel::Properties {
            nullable: true,
            properties,
            optional_properties,
            properties_is_present,
            additional_properties,
        },
        SchemaModel::Values { values, .. } => SchemaModel::Values { nullable: true, values },
        SchemaModel::Discriminator { discriminator, mapping, .. } => SchemaModel::Discriminator {
            nullable: true,
            discriminator,
            mapping,
        },
    }
}

pub broadcast proof fn lemma_schema_entries_view(es: Seq<(String, Schema)>)
    ensures
        (#[trigger] schema_entries_view(es)).len() == es.len(),
        forall|i: int| 0 <= i < es.len() ==> #[trigger] schema_entries_view(es)[i] == (es[i].0@, es[i].1@),
    decreases es.len(),
{
    if es.len() > 0 {
        lemma_schema_entries_view(es.drop_first());
    }
}

} // verus!
