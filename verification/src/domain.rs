//! What is known of a record between reading it and writing its
//! data-transfer object.

use crate::text::{is_space, is_word};
use vstd::prelude::*;

verus! {

/// The model of a [`JavaObject`]: one field of a record.
pub struct FieldSpec {
    /// The token that names the field's type, as it stood in the source.
    pub field_type: Seq<char>,
    /// The field's own name.
    pub identifier: Seq<char>,
}

impl FieldSpec {
    /// Whether the two could have been read from a line: the type is a word,
    /// and the identifier holds no whitespace. (It is empty where the line
    /// has a lone comma in its place.)
    pub open spec fn is_sound(self) -> bool {
        &&& is_word(self.field_type)
        &&& forall|i: int| 0 <= i < self.identifier.len() ==> !is_space(self.identifier[i])
    }
}

/// The model of a [`JavaDomain`]: a record's name and its fields, in the
/// order of their declaration.
pub struct StructuralModel {
    pub name: Seq<char>,
    pub fields: Seq<FieldSpec>,
}

/// A record: its name and its fields, in the order of their declaration.
#[derive(Debug)]
pub struct JavaDomain {
    pub name: String,
    pub objects: Vec<JavaObject>,
}

/// One field of a record.
#[derive(Debug)]
pub struct JavaObject {
    pub class: String,
    pub variable_name: String,
}

impl View for JavaObject {
    type V = FieldSpec;

    open spec fn view(&self) -> FieldSpec {
        FieldSpec { field_type: self.class@, identifier: self.variable_name@ }
    }
}

/// The models of `objects`, in their order.
pub open spec fn field_specs(objects: Seq<JavaObject>) -> Seq<FieldSpec> {
    Seq::new(objects.len(), |i: int| objects[i]@)
}

impl View for JavaDomain {
    type V = StructuralModel;

    open spec fn view(&self) -> StructuralModel {
        StructuralModel { name: self.name@, fields: field_specs(self.objects@) }
    }
}

} // verus!
