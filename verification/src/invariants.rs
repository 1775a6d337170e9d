//! What holds of every scan, whatever the lines: where the name and the
//! fields of a record come from, and which lines are refused.

use crate::domain::{FieldSpec, StructuralModel};
use crate::parser::{FieldError, ParseErrorKind};
use crate::scan::{
    closes, declared_field, declared_fields, declares, extract, extract_lines, keyword,
    lemma_ended_scan_stays, opens, progress, record_name, start, step, Failure, Progress,
};
use crate::text::{is_word, lemma_tokens_are_words, lemma_tokens_occur, lines, occurs, tokens};
use vstd::prelude::*;

verus! {

/// A line that shows a name holds the word that announces it.
pub proof fn lemma_named_line_declares(line: Seq<char>)
    requires
        record_name(line) is Some,
    ensures
        declares(line),
{
    let words = tokens(line);
    words.index_of_first_ensures(keyword());
    lemma_tokens_occur(line);
    let at = words.index_of_first(keyword())->0;
    assert(occurs(line, words[at]));
}

/// A scan that still runs after `count` lines has run all along, and what
/// it holds is told by those lines alone:
/// - none of them held a closing parenthesis;
/// - the fields are open exactly if one of them held an opening parenthesis,
///   and there is no field before they are;
/// - a name is known exactly if one of them held the word `record`, and no
///   two of them did.
pub proof fn lemma_scanning_so_far(lines: Seq<Seq<char>>, count: nat)
    requires
        count <= lines.len(),
        progress(lines, count) is Scanning,
    ensures
        forall|j: nat| j <= count ==> #[trigger] progress(lines, j) is Scanning,
        forall|j: int| 0 <= j < count ==> !closes(#[trigger] lines[j]),
        progress(lines, count)->Scanning_0.in_block <==> exists|j: int|
            0 <= j < count && opens(#[trigger] lines[j]),
        !progress(lines, count)->Scanning_0.in_block ==> progress(
            lines,
            count,
        )->Scanning_0.fields.len() == 0,
        progress(lines, count)->Scanning_0.name is Some <==> exists|j: int|
            0 <= j < count && declares(#[trigger] lines[j]),
        forall|i: int, j: int|
            0 <= i < count && 0 <= j < count && declares(#[trigger] lines[i]) && declares(
                #[trigger] lines[j],
            ) ==> i == j,
    decreases count,
{
    if count > 0 {
        let before = (count - 1) as nat;
        let line = lines[count - 1];
        lemma_scanning_so_far(lines, before);
        let earlier = progress(lines, before)->Scanning_0;
        let later = progress(lines, count)->Scanning_0;
        assert(progress(lines, count) == step(earlier, line, count));
        assert forall|j: nat| j <= count implies #[trigger] progress(lines, j) is Scanning by {
            if j < count {
                assert(j <= before);
            }
        }
        if later.in_block {
            if earlier.in_block {
                let j = choose|j: int| 0 <= j < before && opens(#[trigger] lines[j]);
                assert(0 <= j < count && opens(lines[j]));
            } else {
                assert(opens(lines[count - 1]));
            }
        }
        if later.name is Some {
            if earlier.name is Some {
                let j = choose|j: int| 0 <= j < before && declares(#[trigger] lines[j]);
                assert(0 <= j < count && declares(lines[j]));
            } else {
                assert(declares(lines[count - 1]));
            }
        }
    }
}

/// Whether line `at` is the first of `lines` with an opening parenthesis.
pub open spec fn is_first_opening(lines: Seq<Seq<char>>, at: int) -> bool {
    &&& 0 <= at < lines.len()
    &&& opens(lines[at])
    &&& forall|j: int| 0 <= j < at ==> !opens(#[trigger] lines[j])
}

/// Whether `fields` are those that the lines after line `opening` declare,
/// one of each line and in the order of the lines.
pub open spec fn follow(lines: Seq<Seq<char>>, opening: int, fields: Seq<FieldSpec>) -> bool {
    &&& opening + 1 + fields.len() <= lines.len()
    &&& fields == declared_fields(lines, opening + 1, fields.len() as int)
}

/// What holds of a scan after `count` lines, of which line `opening` is the
/// first with an opening parenthesis:
/// - while it runs, it has one field of each line after that line;
/// - once a line has closed it, it has one field of each line between the
///   two;
/// - a line is refused for its field only after that line, and only where
///   it holds no closing parenthesis.
pub open spec fn in_line_order(
    lines: Seq<Seq<char>>,
    opening: int,
    count: nat,
    progress: Progress,
) -> bool {
    match progress {
        Progress::Scanning(state) => {
            &&& follow(lines, opening, state.fields)
            &&& state.fields.len() == if count > opening {
                count - opening - 1
            } else {
                0
            }
        },
        Progress::Finished(state) => {
            &&& follow(lines, opening, state.fields)
            &&& state.fields.len() <= if count > opening + 1 {
                count - opening - 2
            } else {
                0
            }
        },
        Progress::Failed(failure) => {
            &&& 1 <= failure.line <= count
            &&& failure.kind is MalformedField ==> failure.line > opening + 1 && !closes(
                lines[failure.line - 1],
            )
        },
    }
}

/// A scan gathers the fields in the order of their lines, from the line
/// after the first opening parenthesis on.
pub proof fn lemma_fields_so_far(lines: Seq<Seq<char>>, opening: int, count: nat)
    requires
        is_first_opening(lines, opening),
        count <= lines.len(),
    ensures
        in_line_order(lines, opening, count, progress(lines, count)),
    decreases count,
{
    if count == 0 {
        assert(start().fields =~= declared_fields(lines, opening + 1, 0));
    } else {
        let before = (count - 1) as nat;
        let line = lines[count - 1];
        lemma_fields_so_far(lines, opening, before);
        match progress(lines, before) {
            Progress::Scanning(state) => {
                lemma_scanning_so_far(lines, before);
                assert(progress(lines, count) == step(state, line, count));
                if state.in_block {
                    let j = choose|j: int| 0 <= j < before && opens(#[trigger] lines[j]);
                    assert(opening <= j);
                } else {
                    assert(opening >= before);
                }
                if state.in_block && tokens(line).len() >= 2 {
                    assert(declared_fields(lines, opening + 1, count - opening - 1)
                        =~= declared_fields(lines, opening + 1, before - opening - 1).push(
                        declared_field(line),
                    ));
                }
            },
            _ => {},
        }
    }
}

/// The fields of a record that was read are those that the lines after the
/// first opening parenthesis declare, one of each line and in the order of
/// the lines.
pub proof fn lemma_fields_are_in_line_order(lines: Seq<Seq<char>>, opening: int)
    requires
        is_first_opening(lines, opening),
    ensures
        extract_lines(lines) matches Ok(model) ==> follow(lines, opening, model.fields),
{
    lemma_fields_so_far(lines, opening, lines.len());
}

/// Where the line after the first opening parenthesis holds a closing one,
/// the record has no field; or a line up to that line was refused, and
/// then not for its field.
pub proof fn lemma_block_closed_at_once(lines: Seq<Seq<char>>, opening: int)
    requires
        is_first_opening(lines, opening),
        opening + 1 < lines.len(),
        closes(lines[opening + 1]),
    ensures
        match extract_lines(lines) {
            Ok(model) => model.fields.len() == 0,
            Err(failure) => failure.line <= opening + 2 && !(failure.kind is MalformedField),
        },
{
    let read = (opening + 2) as nat;
    lemma_fields_so_far(lines, opening, read);
    if progress(lines, read) is Scanning {
        lemma_scanning_so_far(lines, read);
    }
    lemma_ended_scan_stays(lines, read, lines.len());
}

/// Without an opening parenthesis there is no field, and no line is refused
/// for its field.
pub proof fn lemma_no_opening_no_field(lines: Seq<Seq<char>>, count: nat)
    requires
        count <= lines.len(),
        forall|j: int| 0 <= j < count ==> !opens(#[trigger] lines[j]),
    ensures
        match progress(lines, count) {
            Progress::Scanning(state) => state.fields.len() == 0,
            Progress::Finished(state) => state.fields.len() == 0,
            Progress::Failed(failure) => !(failure.kind is MalformedField),
        },
    decreases count,
{
    if count > 0 {
        let before = (count - 1) as nat;
        lemma_no_opening_no_field(lines, before);
        if progress(lines, before) is Scanning {
            lemma_scanning_so_far(lines, before);
        }
    }
}

/// Whether a scan that has read line `at`, which holds the word `record`,
/// knows the name that this line shows.
pub open spec fn named_by(lines: Seq<Seq<char>>, at: int, count: nat, progress: Progress) -> bool {
    match progress {
        Progress::Scanning(state) => count > at ==> state.name is Some && state.name
            == record_name(lines[at]),
        Progress::Finished(state) => state.name is Some && state.name == record_name(lines[at]),
        Progress::Failed(_) => true,
    }
}

/// A scan keeps the name that it has read.
pub proof fn lemma_name_so_far(lines: Seq<Seq<char>>, at: int, count: nat)
    requires
        0 <= at < lines.len(),
        declares(lines[at]),
        forall|j: int| 0 <= j < at ==> !closes(#[trigger] lines[j]),
        count <= lines.len(),
    ensures
        named_by(lines, at, count, progress(lines, count)),
    decreases count,
{
    if count > 0 {
        let before = (count - 1) as nat;
        lemma_name_so_far(lines, at, before);
        match progress(lines, before) {
            Progress::Scanning(state) => {
                assert(progress(lines, count) == step(state, lines[count - 1], count));
                if before < at {
                    assert(!closes(lines[before as int]));
                }
            },
            _ => {},
        }
    }
}

/// The name of a record that was read is the name that the line with the
/// word `record` shows, where no line before it holds a closing
/// parenthesis.
pub proof fn lemma_name_is_read_from_its_line(lines: Seq<Seq<char>>, at: int)
    requires
        0 <= at < lines.len(),
        declares(lines[at]),
        forall|j: int| 0 <= j < at ==> !closes(#[trigger] lines[j]),
    ensures
        extract_lines(lines) matches Ok(model) ==> record_name(lines[at]) == Some(model.name),
{
    lemma_name_so_far(lines, at, lines.len());
}

/// A scan that stands between the parentheses refuses a line of one token
/// for its missing identifier, and no record is read, unless the line holds
/// a closing parenthesis or the word `record`.
pub proof fn lemma_lone_token_is_refused(lines: Seq<Seq<char>>, at: nat)
    requires
        at < lines.len(),
        progress(lines, at) is Scanning,
        progress(lines, at)->Scanning_0.in_block,
        tokens(lines[at as int]).len() == 1,
        !closes(lines[at as int]),
        !declares(lines[at as int]),
    ensures
        extract_lines(lines) == Err::<StructuralModel, Failure>(
            Failure {
                line: at + 1,
                kind: ParseErrorKind::MalformedField(FieldError::MissingIdentifier),
            },
        ),
{
    assert(progress(lines, at + 1) == step(
        progress(lines, at)->Scanning_0,
        lines[at as int],
        at + 1,
    ));
    lemma_ended_scan_stays(lines, at + 1, lines.len());
}

/// Whether the fields that a scan has gathered are sound.
pub open spec fn gathered_sound(progress: Progress) -> bool {
    match progress {
        Progress::Scanning(state) => forall|k: int|
            0 <= k < state.fields.len() ==> (#[trigger] state.fields[k]).is_sound(),
        Progress::Finished(state) => forall|k: int|
            0 <= k < state.fields.len() ==> (#[trigger] state.fields[k]).is_sound(),
        Progress::Failed(_) => true,
    }
}

/// A line of two tokens or more declares a sound field.
pub proof fn lemma_declared_field_is_sound(line: Seq<char>)
    requires
        tokens(line).len() >= 2,
    ensures
        declared_field(line).is_sound(),
{
    lemma_tokens_are_words(line);
    assert(is_word(tokens(line)[0]));
    assert(is_word(tokens(line)[1]));
}

/// What a scan gathers are sound fields.
pub proof fn lemma_gathered_fields_are_sound(lines: Seq<Seq<char>>, count: nat)
    requires
        count <= lines.len(),
    ensures
        gathered_sound(progress(lines, count)),
    decreases count,
{
    if count > 0 {
        lemma_gathered_fields_are_sound(lines, (count - 1) as nat);
        let line = lines[count - 1];
        match progress(lines, (count - 1) as nat) {
            Progress::Scanning(state) => {
                if tokens(line).len() >= 2 {
                    lemma_declared_field_is_sound(line);
                }
                assert(progress(lines, count) == step(state, line, count));
            },
            _ => {},
        }
    }
}

/// The fields of a record that was read are sound.
pub proof fn lemma_extracted_fields_are_sound(content: Seq<char>)
    ensures
        extract(content) matches Ok(model) ==> forall|k: int|
            0 <= k < model.fields.len() ==> (#[trigger] model.fields[k]).is_sound(),
{
    lemma_gathered_fields_are_sound(lines(content), lines(content).len());
    assert(gathered_sound(progress(lines(content), lines(content).len())));
}

} // verus!
