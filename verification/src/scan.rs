//! The model of reading a record: what each line does to a scan, and what a
//! text gives in the end.

use crate::domain::{FieldSpec, StructuralModel};
use crate::parser::{FieldError, ParseErrorKind};
use crate::text::{lines, occurs, strip_suffix, tokens, trim_matches};
use vstd::prelude::*;

verus! {

/// The word that announces a record.
pub open spec fn keyword() -> Seq<char> {
    "record"@
}

/// The name that `line` declares: the token after the first token that
/// reads `record`, without the parentheses at its start and at its end.
/// `None` where no token reads `record`, or nothing follows the first that
/// does.
pub open spec fn record_name(line: Seq<char>) -> Option<Seq<char>> {
    let words = tokens(line);
    match words.index_of_first(keyword()) {
        Some(at) => if at + 1 < words.len() {
            Some(trim_matches(words[at + 1], '('))
        } else {
            None
        },
        None => None,
    }
}

/// The field that a line of two tokens or more declares: its first token is
/// the type, its second the identifier, without one comma at its end.
/// Further tokens count for nothing.
pub open spec fn declared_field(line: Seq<char>) -> FieldSpec {
    FieldSpec { field_type: tokens(line)[0], identifier: strip_suffix(tokens(line)[1], ',') }
}

/// The field that `line` declares, or the token that it lacks.
pub open spec fn field_of(line: Seq<char>) -> Result<FieldSpec, FieldError> {
    let words = tokens(line);
    if words.len() == 0 {
        Err(FieldError::MissingType)
    } else if words.len() == 1 {
        Err(FieldError::MissingIdentifier)
    } else {
        Ok(declared_field(line))
    }
}

/// Whether `line` holds the word that announces a record, be it as a part of
/// a longer word.
pub open spec fn declares(line: Seq<char>) -> bool {
    occurs(line, keyword())
}

/// Whether `line` holds an opening parenthesis.
pub open spec fn opens(line: Seq<char>) -> bool {
    line.contains('(')
}

/// Whether `line` holds a closing parenthesis.
pub open spec fn closes(line: Seq<char>) -> bool {
    line.contains(')')
}

/// What a scan has gathered from the lines it has read.
pub struct ScanState {
    /// The record's name, once a line has declared it.
    pub name: Option<Seq<char>>,
    /// The fields read so far, in their order.
    pub fields: Seq<FieldSpec>,
    /// Whether an earlier line held an opening parenthesis.
    pub in_block: bool,
}

/// The model of a [`ParseError`](crate::parser::ParseError): which line was
/// refused, and why.
pub struct Failure {
    /// The number of the line, the first line being line 1.
    pub line: nat,
    pub kind: ParseErrorKind,
}

/// Where a scan stands after some lines.
pub enum Progress {
    /// The next line is to be read.
    Scanning(ScanState),
    /// A line held a closing parenthesis: no further line is read.
    Finished(ScanState),
    /// A line was refused: no further line is read.
    Failed(Failure),
}

/// The state before the first line.
pub open spec fn start() -> ScanState {
    ScanState { name: None, fields: Seq::empty(), in_block: false }
}

/// What line `number` does to a scan. In this order:
/// - a line that holds the word `record` declares the name; it is refused
///   where a name was declared before, or where it shows no name;
/// - a line that holds `)` ends the scan;
/// - after a line that held `(`, a line declares a field, and is refused
///   where it shows none;
/// - a line that holds `(` opens the fields for the lines after it.
pub open spec fn step(state: ScanState, line: Seq<char>, number: nat) -> Progress {
    if declares(line) && state.name is Some {
        Progress::Failed(Failure { line: number, kind: ParseErrorKind::DuplicateName })
    } else if declares(line) && record_name(line) is None {
        Progress::Failed(Failure { line: number, kind: ParseErrorKind::NameNotFound })
    } else {
        let name = if declares(line) {
            record_name(line)
        } else {
            state.name
        };
        if closes(line) {
            Progress::Finished(ScanState { name, fields: state.fields, in_block: state.in_block })
        } else if state.in_block {
            match field_of(line) {
                Ok(field) => Progress::Scanning(
                    ScanState { name, fields: state.fields.push(field), in_block: true },
                ),
                Err(missing) => Progress::Failed(
                    Failure { line: number, kind: ParseErrorKind::MalformedField(missing) },
                ),
            }
        } else {
            Progress::Scanning(ScanState { name, fields: state.fields, in_block: opens(line) })
        }
    }
}

/// Where a scan of `lines` stands after its first `count` lines.
pub open spec fn progress(lines: Seq<Seq<char>>, count: nat) -> Progress
    decreases count,
{
    if count == 0 {
        Progress::Scanning(start())
    } else {
        match progress(lines, (count - 1) as nat) {
            Progress::Scanning(state) => step(state, lines[count - 1], count),
            ended => ended,
        }
    }
}

/// The record that a scan has gathered: a record without a declared name has
/// the empty name.
pub open spec fn model_of(state: ScanState) -> StructuralModel {
    StructuralModel {
        name: match state.name {
            Some(name) => name,
            None => Seq::empty(),
        },
        fields: state.fields,
    }
}

/// The record in a text of the given lines.
pub open spec fn extract_lines(lines: Seq<Seq<char>>) -> Result<StructuralModel, Failure> {
    match progress(lines, lines.len()) {
        Progress::Scanning(state) => Ok(model_of(state)),
        Progress::Finished(state) => Ok(model_of(state)),
        Progress::Failed(failure) => Err(failure),
    }
}

/// The record in `content`.
pub open spec fn extract(content: Seq<char>) -> Result<StructuralModel, Failure> {
    extract_lines(lines(content))
}

/// The fields that the `count` lines from line `first` on declare, in the
/// order of the lines.
pub open spec fn declared_fields(lines: Seq<Seq<char>>, first: int, count: int) -> Seq<
    FieldSpec,
> {
    Seq::new(count as nat, |j: int| declared_field(lines[first + j]))
}

/// A scan that has ended stays where it ended.
pub proof fn lemma_ended_scan_stays(lines: Seq<Seq<char>>, ended: nat, later: nat)
    requires
        ended <= later,
        !(progress(lines, ended) is Scanning),
    ensures
        progress(lines, later) == progress(lines, ended),
    decreases later,
{
    if ended < later {
        lemma_ended_scan_stays(lines, ended, (later - 1) as nat);
    }
}

} // verus!
