//! A record in its usual form: plain lines, the heading, one line for each
//! field, and the line that closes. Such a record is read as it stands.

use crate::domain::{FieldSpec, StructuralModel};
use crate::invariants::{lemma_lone_token_is_refused, lemma_named_line_declares};
use crate::parser::{FieldError, ParseErrorKind};
use crate::scan::{
    closes, declared_field, declared_fields, declares, extract_lines, lemma_ended_scan_stays,
    opens, progress, record_name, start, step, Failure, Progress, ScanState,
};
use crate::text::tokens;
use vstd::prelude::*;

verus! {

/// Whether a scan passes over `line` where it stands before the
/// parentheses.
pub open spec fn is_plain(line: Seq<char>) -> bool {
    !declares(line) && !opens(line) && !closes(line)
}

/// Whether `line` shows a record's name and opens its fields.
pub open spec fn is_heading(line: Seq<char>) -> bool {
    record_name(line) is Some && opens(line) && !closes(line)
}

/// Whether `line` declares a field and nothing else.
pub open spec fn is_field_line(line: Seq<char>) -> bool {
    tokens(line).len() >= 2 && !declares(line) && !closes(line)
}

/// Whether `line` ends the fields and nothing else.
pub open spec fn is_closing(line: Seq<char>) -> bool {
    closes(line) && !declares(line)
}

/// Whether `lines` start a record in the usual form: plain lines, the
/// heading as line `heading`, then `count` lines of one field each.
pub open spec fn starts_record(lines: Seq<Seq<char>>, heading: int, count: int) -> bool {
    &&& 0 <= heading
    &&& 0 <= count
    &&& heading + count < lines.len()
    &&& forall|j: int| 0 <= j < heading ==> is_plain(#[trigger] lines[j])
    &&& is_heading(lines[heading])
    &&& forall|j: int| heading < j <= heading + count ==> is_field_line(#[trigger] lines[j])
}

/// Whether `lines` hold one record in the usual form: the start of a record
/// with `count` fields, then the line that closes. What follows is free.
pub open spec fn well_formed(lines: Seq<Seq<char>>, heading: int, count: int) -> bool {
    &&& starts_record(lines, heading, count)
    &&& heading + count + 1 < lines.len()
    &&& is_closing(lines[heading + count + 1])
}

/// A scan passes over plain lines.
proof fn lemma_plain_lines_pass(lines: Seq<Seq<char>>, count: nat)
    requires
        count <= lines.len(),
        forall|j: int| 0 <= j < count ==> is_plain(#[trigger] lines[j]),
    ensures
        progress(lines, count) == Progress::Scanning(start()),
    decreases count,
{
    if count > 0 {
        lemma_plain_lines_pass(lines, (count - 1) as nat);
        assert(is_plain(lines[count - 1]));
    }
}

/// After the heading a scan gathers the fields line by line: past the
/// start of a record it knows the name and the fields so far, and goes on.
pub proof fn lemma_fields_gather(lines: Seq<Seq<char>>, heading: int, count: int)
    requires
        starts_record(lines, heading, count),
    ensures
        progress(lines, (heading + 1 + count) as nat) == Progress::Scanning(
            ScanState {
                name: record_name(lines[heading]),
                fields: declared_fields(lines, heading + 1, count),
                in_block: true,
            },
        ),
    decreases count,
{
    let read = count;
    if read == 0 {
        lemma_plain_lines_pass(lines, heading as nat);
        lemma_named_line_declares(lines[heading]);
        assert(declared_fields(lines, heading + 1, 0) =~= Seq::<FieldSpec>::empty());
    } else {
        lemma_fields_gather(lines, heading, read - 1);
        assert(is_field_line(lines[heading + read]));
        assert(declared_fields(lines, heading + 1, read) =~= declared_fields(
            lines,
            heading + 1,
            read - 1,
        ).push(declared_field(lines[heading + read])));
    }
}

/// A record in the usual form is read as it stands: its name is the one
/// that the heading shows, and its fields are those of the lines between
/// the heading and the line that closes, in their order.
pub proof fn lemma_well_formed_record(lines: Seq<Seq<char>>, heading: int, count: int)
    requires
        well_formed(lines, heading, count),
    ensures
        extract_lines(lines) == Ok::<StructuralModel, Failure>(
            StructuralModel {
                name: record_name(lines[heading])->0,
                fields: declared_fields(lines, heading + 1, count),
            },
        ),
{
    lemma_fields_gather(lines, heading, count);
    let read = (heading + count + 1) as nat;
    assert(progress(lines, read + 1) == step(
        progress(lines, read)->Scanning_0,
        lines[read as int],
        read + 1,
    ));
    lemma_ended_scan_stays(lines, read + 1, lines.len());
}

/// After the start of a record a line of one token is refused for its
/// missing identifier, and no record is read, unless the line holds a
/// closing parenthesis or the word `record`.
pub proof fn lemma_lone_token_after_fields_is_refused(
    lines: Seq<Seq<char>>,
    heading: int,
    count: int,
)
    requires
        starts_record(lines, heading, count),
        heading + count + 1 < lines.len(),
        tokens(lines[heading + count + 1]).len() == 1,
        !closes(lines[heading + count + 1]),
        !declares(lines[heading + count + 1]),
    ensures
        extract_lines(lines) == Err::<StructuralModel, Failure>(
            Failure {
                line: (heading + count + 2) as nat,
                kind: ParseErrorKind::MalformedField(FieldError::MissingIdentifier),
            },
        ),
{
    lemma_fields_gather(lines, heading, count);
    lemma_lone_token_is_refused(lines, (heading + count + 1) as nat);
}

} // verus!
