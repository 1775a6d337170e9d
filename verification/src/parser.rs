//! Reads a record's name and fields out of a source text.

use crate::domain::{field_specs, FieldSpec, JavaDomain, JavaObject, StructuralModel};
use crate::scan::{
    extract, field_of, keyword, lemma_ended_scan_stays, progress, record_name, step, Failure,
    Progress, ScanState,
};
use crate::text::{
    all_within, contains, contains_char, cut, line_spans, lines, span_equals, strip_suffix_span,
    to_chars, token_spans, tokens, trim_span,
};
use vstd::prelude::*;
use vstd::slice::slice_subrange;

verus! {

/// What the command line asks for.
pub struct Config {
    /// The file that holds the record.
    pub file_path: String,
    /// A second argument, kept for later use; nothing reads it yet.
    pub function: Option<String>,
}

/// The view of an optional string.
pub open spec fn text_of(s: Option<String>) -> Option<Seq<char>> {
    match s {
        Some(s) => Some(s@),
        None => None,
    }
}

impl Config {
    /// Reads the arguments of a command line, the program's own name first.
    ///
    /// The first argument after the program's name is the file to read. A
    /// second one is kept where the command line holds these two and no
    /// more.
    pub fn build(args: &[String]) -> (config: Result<Config, &str>)
        ensures
            match config {
                Ok(c) => {
                    &&& args@.len() >= 2
                    &&& c.file_path@ == args@[1]@
                    &&& text_of(c.function) == if args@.len() == 3 {
                        Some(args@[2]@)
                    } else {
                        None
                    }
                },
                Err(message) => args@.len() < 2 && message@ == "Not enough arguments"@,
            },
    {
        if args.len() < 2 {
            return Err("Not enough arguments");
        }
        let file_path = args[1].clone();
        let optional_function = if args.len() == 3 {
            Some(args[2].clone())
        } else {
            None
        };
        Ok(Config { file_path, function: optional_function })
    }
}

/// Which token a field's line lacks.
#[derive(Debug, Clone, Copy, PartialEq, Eq)]
pub enum FieldError {
    /// The line holds no token at all.
    MissingType,
    /// The line holds a type and nothing after it.
    MissingIdentifier,
}

impl FieldError {
    /// What [`FieldError::message`] says.
    pub open spec fn message_text(self) -> Seq<char> {
        match self {
            FieldError::MissingType => "Expected class name"@,
            FieldError::MissingIdentifier => "Expected variable name"@,
        }
    }

    /// The error in words.
    pub fn message(&self) -> (text: &'static str)
        ensures
            text@ == self.message_text(),
    {
        match self {
            FieldError::MissingType => "Expected class name",
            FieldError::MissingIdentifier => "Expected variable name",
        }
    }
}

/// Why a line was refused.
#[derive(Debug, Clone, Copy, PartialEq, Eq)]
pub enum ParseErrorKind {
    /// The line holds the word `record`, and no name can be read after it.
    NameNotFound,
    /// The line holds the word `record`, after an earlier line gave the name.
    DuplicateName,
    /// The line stands between the parentheses and holds fewer than two
    /// tokens.
    MalformedField(FieldError),
}

impl ParseErrorKind {
    /// What [`ParseErrorKind::message`] says.
    pub open spec fn message_text(self) -> Seq<char> {
        match self {
            ParseErrorKind::NameNotFound => "Could not parse name"@,
            ParseErrorKind::DuplicateName => "Found a second record"@,
            ParseErrorKind::MalformedField(missing) => missing.message_text(),
        }
    }

    /// The error in words.
    pub fn message(&self) -> (text: &'static str)
        ensures
            text@ == self.message_text(),
    {
        match self {
            ParseErrorKind::NameNotFound => "Could not parse name",
            ParseErrorKind::DuplicateName => "Found a second record",
            ParseErrorKind::MalformedField(missing) => missing.message(),
        }
    }
}

/// Why a text gives no record: the line that was refused, and why.
#[derive(Debug, Clone, Copy, PartialEq, Eq)]
pub struct ParseError {
    /// The number of the line, the first line being line 1.
    pub line: usize,
    pub kind: ParseErrorKind,
}

impl View for ParseError {
    type V = Failure;

    open spec fn view(&self) -> Failure {
        Failure { line: self.line as nat, kind: self.kind }
    }
}

/// The model of what [`parse_object`] returns.
pub open spec fn field_result(r: Result<JavaObject, FieldError>) -> Result<FieldSpec, FieldError> {
    match r {
        Ok(object) => Ok(object@),
        Err(e) => Err(e),
    }
}

/// The model of what [`parse_content`] returns.
pub open spec fn parse_result(r: Result<JavaDomain, ParseError>) -> Result<
    StructuralModel,
    Failure,
> {
    match r {
        Ok(domain) => Ok(domain@),
        Err(e) => Err(e@),
    }
}

/// The name in `line`, whose characters are `chars`.
fn name_in(line: &str, chars: &[char]) -> (name: Option<String>)
    requires
        chars@ == line@,
    ensures
        text_of(name) == record_name(line@),
{
    let spans = token_spans(chars);
    let record = to_chars("record");
    let ghost words = tokens(line@);
    proof {
        words.index_of_first_ensures(keyword());
    }
    let mut i: usize = 0;
    while i < spans.len()
        invariant
            i <= spans.len(),
            chars@ == line@,
            record@ == keyword(),
            words == tokens(line@),
            all_within(chars@, spans@),
            cut(chars@, spans@) == words,
            forall|k: int| 0 <= k < i ==> words[k] != keyword(),
        decreases spans.len() - i,
    {
        assert(words[i as int] == spans[i as int].of(chars@));
        if span_equals(chars, spans[i], record.as_slice()) {
            proof {
                words.index_of_first_ensures(keyword());
                assert(words.index_of_first(keyword()) == Some(i as int));
            }
            if i + 1 < spans.len() {
                assert(words[i + 1] == spans[i + 1].of(chars@));
                let name = trim_span(chars, spans[i + 1], '(');
                return Some(line.substring_char(name.start, name.end).to_owned());
            } else {
                return None;
            }
        }
        i += 1;
    }
    proof {
        words.index_of_first_ensures(keyword());
    }
    None
}

/// The field in `line`, whose characters are `chars`.
fn object_in(line: &str, chars: &[char]) -> (object: Result<JavaObject, FieldError>)
    requires
        chars@ == line@,
    ensures
        field_result(object) == field_of(line@),
{
    let spans = token_spans(chars);
    if spans.len() == 0 {
        return Err(FieldError::MissingType);
    }
    if spans.len() == 1 {
        return Err(FieldError::MissingIdentifier);
    }
    assert(tokens(line@)[0] == spans[0].of(chars@));
    assert(tokens(line@)[1] == spans[1].of(chars@));
    let class = spans[0];
    let variable_name = strip_suffix_span(chars, spans[1], ',');
    Ok(
        JavaObject {
            class: line.substring_char(class.start, class.end).to_owned(),
            variable_name: line.substring_char(variable_name.start, variable_name.end).to_owned(),
        },
    )
}

/// Reads the name of the record that `line` declares.
pub fn parse_name(line: &str) -> (name: Option<String>)
    ensures
        text_of(name) == record_name(line@),
{
    let chars = to_chars(line);
    name_in(line, chars.as_slice())
}

/// Reads the field that `line` declares.
pub fn parse_object(line: &str) -> (object: Result<JavaObject, FieldError>)
    ensures
        field_result(object) == field_of(line@),
{
    let chars = to_chars(line);
    object_in(line, chars.as_slice())
}

/// Reads the record in `content`.
///
/// The lines are read in order, up to the first that holds a closing
/// parenthesis. A text without the word `record` gives a record with the
/// empty name, and a text without parentheses one without fields. The first
/// line that is refused ends the reading, and the error tells its number.
pub fn parse_content(content: String) -> (domain: Result<JavaDomain, ParseError>)
    ensures
        parse_result(domain) == extract(content@),
{
    let text = content.as_str();
    let chars = to_chars(text);
    let spans = line_spans(chars.as_slice());
    let record = to_chars("record");
    let mut name: Option<String> = None;
    let mut objects: Vec<JavaObject> = Vec::new();
    let mut parentheses = false;
    let ghost all = lines(content@);
    let mut i: usize = 0;
    assert(field_specs(objects@) =~= Seq::<FieldSpec>::empty());
    while i < spans.len()
        invariant
            i <= spans.len(),
            text@ == content@,
            chars@ == content@,
            record@ == keyword(),
            all == lines(content@),
            all_within(chars@, spans@),
            cut(chars@, spans@) == all,
            progress(all, i as nat) == Progress::Scanning(
                ScanState {
                    name: text_of(name),
                    fields: field_specs(objects@),
                    in_block: parentheses,
                },
            ),
        decreases spans.len() - i,
    {
        let span = spans[i];
        assert(all[i as int] == span.of(chars@));
        let line = text.substring_char(span.start, span.end);
        let line_chars = slice_subrange(chars.as_slice(), span.start, span.end);
        let ghost before = ScanState {
            name: text_of(name),
            fields: field_specs(objects@),
            in_block: parentheses,
        };
        assert(progress(all, (i + 1) as nat) == step(before, line@, (i + 1) as nat));
        if contains(line_chars, record.as_slice()) {
            if name.is_some() {
                proof {
                    lemma_ended_scan_stays(all, (i + 1) as nat, all.len());
                }
                return Err(ParseError { line: i + 1, kind: ParseErrorKind::DuplicateName });
            }
            match name_in(line, line_chars) {
                Some(found) => {
                    name = Some(found);
                },
                None => {
                    proof {
                        lemma_ended_scan_stays(all, (i + 1) as nat, all.len());
                    }
                    return Err(ParseError { line: i + 1, kind: ParseErrorKind::NameNotFound });
                },
            }
        }
        if contains_char(line_chars, ')') {
            proof {
                lemma_ended_scan_stays(all, (i + 1) as nat, all.len());
            }
            return Ok(JavaDomain { name: name_or_empty(name), objects });
        }
        if parentheses {
            match object_in(line, line_chars) {
                Ok(object) => {
                    assert(field_specs(objects@.push(object)) =~= field_specs(objects@).push(
                        object@,
                    ));
                    objects.push(object);
                },
                Err(missing) => {
                    proof {
                        lemma_ended_scan_stays(all, (i + 1) as nat, all.len());
                    }
                    return Err(
                        ParseError { line: i + 1, kind: ParseErrorKind::MalformedField(missing) },
                    );
                },
            }
        } else if contains_char(line_chars, '(') {
            parentheses = true;
        }
        i += 1;
    }
    Ok(JavaDomain { name: name_or_empty(name), objects })
}

/// The name that was read, or the empty name.
fn name_or_empty(name: Option<String>) -> (text: String)
    ensures
        text@ == match text_of(name) {
            Some(name) => name,
            None => Seq::empty(),
        },
{
    match name {
        Some(name) => name,
        None => String::new(),
    }
}

/// Two calls of [`parse_content`] on one text agree: both give the same
/// record, or both fail for the same reason.
pub proof fn lemma_parsing_is_repeatable(
    content: Seq<char>,
    first: Result<JavaDomain, ParseError>,
    second: Result<JavaDomain, ParseError>,
)
    requires
        parse_result(first) == extract(content),
        parse_result(second) == extract(content),
    ensures
        parse_result(first) == parse_result(second),
{
}

} // verus!
