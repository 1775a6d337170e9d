//! Writes the declaration of a record's data-transfer object.

use crate::domain::{field_specs, FieldSpec, JavaDomain, StructuralModel};
use vstd::prelude::*;

verus! {

/// The name of the data-transfer object of the record `name`.
pub open spec fn dto_name(name: Seq<char>) -> Seq<char> {
    "Rest"@ + name + "Dto"@
}

/// The name of the file that declares it.
pub open spec fn file_name(name: Seq<char>) -> Seq<char> {
    dto_name(name) + ".java"@
}

/// The path of that file in `directory`.
pub open spec fn file_path(directory: Seq<char>, name: Seq<char>) -> Seq<char> {
    directory + "/"@ + file_name(name)
}

/// What stands before the name of the data-transfer object. The schema's
/// name in the first line is the same for every record.
pub open spec fn preamble() -> Seq<char> {
    "@Schema(name = \"StationDto\")"@ + "\n@Builder"@ + "\n@Jacksonized"@ + "\npublic record "@
}

/// The lines before the fields.
pub open spec fn opening(name: Seq<char>) -> Seq<char> {
    preamble() + dto_name(name) + "("@
}

/// The line of one field. It starts on a new line and ends in a comma, also
/// where the field is the last.
pub open spec fn field_line(field: FieldSpec) -> Seq<char> {
    "\n\t\t"@ + field.field_type + " "@ + field.identifier + ","@
}

/// The lines of `fields`, in their order.
pub open spec fn field_lines(fields: Seq<FieldSpec>) -> Seq<char>
    decreases fields.len(),
{
    if fields.len() == 0 {
        Seq::empty()
    } else {
        field_lines(fields.drop_last()) + field_line(fields.last())
    }
}

/// The lines after the fields.
pub open spec fn closing() -> Seq<char> {
    "\n) {"@ + "\n}"@
}

/// The declaration of the data-transfer object of `model`.
pub open spec fn declaration(model: StructuralModel) -> Seq<char> {
    opening(model.name) + field_lines(model.fields) + closing()
}

/// A file to be written: where, and what.
#[derive(Debug)]
pub struct DtoFile {
    /// The directory that holds the file.
    pub directory: String,
    /// The file's path, which starts with the directory.
    pub path: String,
    /// The file's text.
    pub content: String,
}

/// The declaration of the data-transfer object of `java_domain`, for a file
/// in the directory `path`.
pub fn generate_dto(java_domain: &JavaDomain, path: &str) -> (file: DtoFile)
    ensures
        file.directory@ == path@,
        file.path@ == file_path(path@, java_domain@.name),
        file.content@ == declaration(java_domain@),
{
    let name = java_domain.name.as_str();
    let mut target = path.to_owned();
    target.append("/");
    target.append("Rest");
    target.append(name);
    target.append("Dto");
    target.append(".java");
    assert(target@ =~= file_path(path@, java_domain@.name));

    let mut data = "@Schema(name = \"StationDto\")".to_owned();
    data.append("\n@Builder");
    data.append("\n@Jacksonized");
    data.append("\npublic record ");
    data.append("Rest");
    data.append(name);
    data.append("Dto");
    data.append("(");
    assert(data@ =~= opening(java_domain@.name));

    let ghost fields = field_specs(java_domain.objects@);
    let mut i: usize = 0;
    assert(fields.take(0) =~= Seq::<FieldSpec>::empty());
    while i < java_domain.objects.len()
        invariant
            i <= java_domain.objects.len(),
            fields == field_specs(java_domain.objects@),
            data@ == opening(java_domain@.name) + field_lines(fields.take(i as int)),
        decreases java_domain.objects.len() - i,
    {
        let object = &java_domain.objects[i];
        proof {
            let done = fields.take(i + 1);
            assert(done.drop_last() =~= fields.take(i as int));
            assert(done.last() == object@);
        }
        data.append("\n\t\t");
        data.append(object.class.as_str());
        data.append(" ");
        data.append(object.variable_name.as_str());
        data.append(",");
        assert(data@ =~= opening(java_domain@.name) + field_lines(fields.take(i + 1)));
        i += 1;
    }
    assert(fields.take(i as int) =~= fields);
    data.append("\n) {");
    data.append("\n}");
    assert(data@ =~= declaration(java_domain@));

    DtoFile { directory: path.to_owned(), path: target, content: data }
}

/// The file that declares the data-transfer object of `domain`. Its
/// directory has the record's name.
pub fn run(domain: JavaDomain) -> (file: DtoFile)
    ensures
        file.directory@ == domain@.name,
        file.path@ == file_path(domain@.name, domain@.name),
        file.content@ == declaration(domain@),
{
    generate_dto(&domain, domain.name.as_str())
}

/// The lines of two rows of fields are the lines of the first row, then
/// those of the second.
pub proof fn lemma_field_lines_concat(first: Seq<FieldSpec>, second: Seq<FieldSpec>)
    ensures
        field_lines(first + second) == field_lines(first) + field_lines(second),
    decreases second.len(),
{
    if second.len() == 0 {
        assert(first + second =~= first);
    } else {
        lemma_field_lines_concat(first, second.drop_last());
        assert((first + second).drop_last() =~= first + second.drop_last());
        assert((first + second).last() == second.last());
    }
}

/// The line of a field stands after the lines of the fields before it and
/// before the lines of the fields after it.
pub proof fn lemma_field_line_in_order(fields: Seq<FieldSpec>, at: int)
    requires
        0 <= at < fields.len(),
    ensures
        field_lines(fields) == field_lines(fields.take(at)) + field_line(fields[at]) + field_lines(
            fields.skip(at + 1),
        ),
{
    let one = seq![fields[at]];
    assert(fields =~= fields.take(at) + one + fields.skip(at + 1));
    lemma_field_lines_concat(fields.take(at) + one, fields.skip(at + 1));
    lemma_field_lines_concat(fields.take(at), one);
    assert(one.drop_last() =~= Seq::<FieldSpec>::empty());
    assert(field_lines(one.drop_last()) =~= Seq::<char>::empty());
    assert(field_lines(one) =~= field_line(fields[at]));
}

} // verus!
