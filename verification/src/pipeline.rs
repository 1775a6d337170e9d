//! What holds of a text that is read and then written out again.

use crate::generator::{
    closing, declaration, dto_name, field_line, field_lines, file_path,
    lemma_field_line_in_order, opening, preamble,
};
use crate::invariants::{
    is_first_opening, lemma_block_closed_at_once, lemma_fields_are_in_line_order,
    lemma_name_is_read_from_its_line,
};
use crate::scan::{closes, declared_field, declared_fields, declares, extract, record_name};
use crate::text::lines;
use crate::well_formed::{lemma_well_formed_record, well_formed};
use vstd::prelude::*;

verus! {

/// The fields of a record are declared in the order of their lines: field
/// `at` is the one of line `at` after the first opening parenthesis, and
/// its line stands after the lines of the fields before it and before the
/// lines of the fields after it.
pub proof fn lemma_declaration_keeps_field_order(content: Seq<char>, first: int, at: int)
    requires
        is_first_opening(lines(content), first),
        extract(content) is Ok,
        0 <= at < extract(content)->Ok_0.fields.len(),
    ensures
        ({
            let model = extract(content)->Ok_0;
            let field = declared_field(lines(content)[first + 1 + at]);
            &&& first + 1 + at < lines(content).len()
            &&& model.fields[at] == field
            &&& declaration(model) == opening(model.name) + field_lines(model.fields.take(at))
                + field_line(field) + field_lines(model.fields.skip(at + 1)) + closing()
        }),
{
    lemma_fields_are_in_line_order(lines(content), first);
    let model = extract(content)->Ok_0;
    lemma_field_line_in_order(model.fields, at);
    assert(declaration(model) =~= opening(model.name) + field_lines(model.fields.take(at))
        + field_line(model.fields[at]) + field_lines(model.fields.skip(at + 1)) + closing());
}

/// The name that the line with the word `record` shows is the name of the
/// directory, and between `Rest` and `Dto` it is the name of the file and of
/// what the file declares. The line counts where no line before it holds a
/// closing parenthesis.
pub proof fn lemma_declaration_carries_name(content: Seq<char>, at: int)
    requires
        0 <= at < lines(content).len(),
        declares(lines(content)[at]),
        forall|j: int| 0 <= j < at ==> !closes(#[trigger] lines(content)[j]),
        extract(content) is Ok,
    ensures
        record_name(lines(content)[at]) is Some,
        ({
            let model = extract(content)->Ok_0;
            let name = record_name(lines(content)[at])->0;
            &&& model.name == name
            &&& declaration(model) == preamble() + ("Rest"@ + name + "Dto"@) + "("@ + field_lines(
                model.fields,
            ) + closing()
            &&& file_path(model.name, model.name) == name + "/"@ + ("Rest"@ + name + "Dto"@)
                + ".java"@
        }),
{
    lemma_name_is_read_from_its_line(lines(content), at);
    let model = extract(content)->Ok_0;
    assert(declaration(model) =~= preamble() + dto_name(model.name) + "("@ + field_lines(
        model.fields,
    ) + closing());
    assert(file_path(model.name, model.name) =~= model.name + "/"@ + dto_name(model.name)
        + ".java"@);
}

/// A record whose parentheses close on the line after the one that opens
/// them has no field, and what is declared for it has no parameter: the
/// closing lines follow the opening lines at once. Where no record is read, a
/// line up to the closing one was refused, and not for its field.
pub proof fn lemma_empty_block_gives_bare_declaration(content: Seq<char>, first: int)
    requires
        is_first_opening(lines(content), first),
        first + 1 < lines(content).len(),
        closes(lines(content)[first + 1]),
    ensures
        match extract(content) {
            Ok(model) => model.fields.len() == 0 && declaration(model) == opening(model.name)
                + closing(),
            Err(failure) => failure.line <= first + 2 && !(failure.kind is MalformedField),
        },
{
    lemma_block_closed_at_once(lines(content), first);
    if extract(content) is Ok {
        let model = extract(content)->Ok_0;
        assert(declaration(model) =~= opening(model.name) + closing());
    }
}

/// A record in the usual form is declared with the name that its heading
/// shows and with the fields of its lines, in their order.
pub proof fn lemma_well_formed_record_is_declared(content: Seq<char>, heading: int, count: int)
    requires
        well_formed(lines(content), heading, count),
    ensures
        extract(content) is Ok,
        declaration(extract(content)->Ok_0) == opening(record_name(lines(content)[heading])->0)
            + field_lines(declared_fields(lines(content), heading + 1, count)) + closing(),
{
    lemma_well_formed_record(lines(content), heading, count);
}

} // verus!
