use dto_generator::parser::{
    parse_content, parse_name, parse_object, Config, FieldError, ParseError, ParseErrorKind,
};

fn refused(content: &str) -> ParseError {
    parse_content(content.to_string()).unwrap_err()
}

#[test]
fn parse_domain_correctly() {
    let data = "\
public record Station(
        UUID id,
        Long marketId
) {
}";
    let result = parse_content(data.to_string());
    assert!(result.is_ok());
    let domain = result.unwrap();
    assert_eq!(domain.name, "Station");
    assert_eq!(domain.objects.len(), 2);
    assert_eq!(domain.objects[0].class, "UUID");
    assert_eq!(domain.objects[0].variable_name, "id");
    assert_eq!(domain.objects[1].class, "Long");
    assert_eq!(domain.objects[1].variable_name, "marketId");
}

#[test]
fn parses_name_correctly() {
    let line = "public record Station(";

    let result = parse_name(line).unwrap();

    assert_eq!("Station", &result);
}

#[test]
fn parses_object_correctly() {
    let line = "List<> someList,";

    let result = parse_object(line).unwrap();

    assert_eq!("List<>", &result.class);
    assert_eq!("someList", &result.variable_name);
}

#[test]
fn name_is_the_token_after_the_first_keyword() {
    assert_eq!(parse_name("record record X"), Some("record".to_string()));
    assert_eq!(parse_name("a record B record C"), Some("B".to_string()));
    assert_eq!(parse_name("\trecord\u{3000}Wide("), Some("Wide".to_string()));
}

#[test]
fn name_loses_parentheses_at_both_ends_only() {
    assert_eq!(parse_name("record ((A(B(("), Some("A(B".to_string()));
    assert_eq!(parse_name("record ("), Some(String::new()));
    assert_eq!(parse_name("record )A("), Some(")A".to_string()));
}

#[test]
fn name_needs_the_keyword_as_a_token_and_a_token_after_it() {
    assert_eq!(parse_name(""), None);
    assert_eq!(parse_name("record"), None);
    assert_eq!(parse_name("public record   "), None);
    assert_eq!(parse_name("recorder Station("), None);
    assert_eq!(parse_name("public Record Station("), None);
}

#[test]
fn object_loses_one_comma_at_the_end_of_the_identifier() {
    let object = parse_object("int a,,").unwrap();
    assert_eq!(object.class, "int");
    assert_eq!(object.variable_name, "a,");

    let object = parse_object("int ,a").unwrap();
    assert_eq!(object.variable_name, ",a");

    let object = parse_object("int ,").unwrap();
    assert_eq!(object.variable_name, "");

    let object = parse_object("int, a").unwrap();
    assert_eq!(object.class, "int,");
    assert_eq!(object.variable_name, "a");
}

#[test]
fn object_reads_two_tokens_and_no_more() {
    let object = parse_object("   Map<String,Long>\t\tcounts,   // per market").unwrap();
    assert_eq!(object.class, "Map<String,Long>");
    assert_eq!(object.variable_name, "counts");
}

#[test]
fn object_without_tokens_lacks_its_type() {
    assert_eq!(parse_object("").unwrap_err(), FieldError::MissingType);
    assert_eq!(parse_object(" \t \r").unwrap_err(), FieldError::MissingType);
}

#[test]
fn object_with_one_token_lacks_its_identifier() {
    assert_eq!(parse_object("UUID").unwrap_err(), FieldError::MissingIdentifier);
    assert_eq!(parse_object("  UUID  ").unwrap_err(), FieldError::MissingIdentifier);
}

#[test]
fn tokens_are_split_at_unicode_whitespace() {
    let object = parse_object("\u{2003}Long\u{a0}marketId\u{85}").unwrap();
    assert_eq!(object.class, "Long");
    assert_eq!(object.variable_name, "marketId");

    // U+200B is no whitespace.
    let object = parse_object("Lo\u{200b}ng id").unwrap();
    assert_eq!(object.class, "Lo\u{200b}ng");
}

#[test]
fn content_keeps_the_order_of_the_fields() {
    let domain = parse_content(
        "record Point(\nint z,\nint y,\nint x,\nint z\n)".to_string(),
    )
    .unwrap();
    let fields: Vec<(&str, &str)> = domain
        .objects
        .iter()
        .map(|o| (o.class.as_str(), o.variable_name.as_str()))
        .collect();
    assert_eq!(fields, vec![("int", "z"), ("int", "y"), ("int", "x"), ("int", "z")]);
}

#[test]
fn content_parsed_twice_gives_the_same_record() {
    let data = "public record Station(\n  UUID id,\n  Long marketId\n) {\n}";
    let first = parse_content(data.to_string()).unwrap();
    let second = parse_content(data.to_string()).unwrap();
    assert_eq!(first.name, second.name);
    assert_eq!(first.objects.len(), second.objects.len());
    for (a, b) in first.objects.iter().zip(second.objects.iter()) {
        assert_eq!(a.class, b.class);
        assert_eq!(a.variable_name, b.variable_name);
    }

    let broken = "record A(\nalone\n)";
    assert_eq!(refused(broken), refused(broken));
}

#[test]
fn content_with_an_empty_block_has_no_fields() {
    let domain = parse_content("public record Empty(\n) {\n}".to_string()).unwrap();
    assert_eq!(domain.name, "Empty");
    assert!(domain.objects.is_empty());
}

#[test]
fn content_with_a_one_token_field_is_refused() {
    assert_eq!(
        refused("public record Station(\n  UUID id,\n  Long\n) {\n}"),
        ParseError {
            line: 3,
            kind: ParseErrorKind::MalformedField(FieldError::MissingIdentifier)
        }
    );
}

#[test]
fn content_with_a_blank_line_in_the_block_is_refused() {
    assert_eq!(
        refused("record Station(\n\n  UUID id\n)"),
        ParseError { line: 2, kind: ParseErrorKind::MalformedField(FieldError::MissingType) }
    );
}

#[test]
fn content_with_the_keyword_and_no_name_is_refused() {
    assert_eq!(
        refused("public record"),
        ParseError { line: 1, kind: ParseErrorKind::NameNotFound }
    );
    // The keyword is found as a part of a word, the name only after a whole word.
    assert_eq!(
        refused("package x;\n\nclass Recorder { recorder x; }"),
        ParseError { line: 3, kind: ParseErrorKind::NameNotFound }
    );
}

#[test]
fn content_with_a_second_record_line_is_refused() {
    assert_eq!(
        refused("record A(\nint record b,\n)"),
        ParseError { line: 2, kind: ParseErrorKind::DuplicateName }
    );
    // A field whose name holds the keyword counts as a second record.
    assert_eq!(
        refused("record A(\nint x,\nLong recordId\n)"),
        ParseError { line: 3, kind: ParseErrorKind::DuplicateName }
    );
    assert_eq!(
        refused("record A\nrecord"),
        ParseError { line: 2, kind: ParseErrorKind::DuplicateName }
    );
}

#[test]
fn content_stops_at_the_first_closing_parenthesis() {
    // The line that closes is read for a name, never for a field.
    let domain = parse_content("record A(int x)".to_string()).unwrap();
    assert_eq!(domain.name, "A(int");
    assert!(domain.objects.is_empty());

    // Nothing after it is read: neither the second record nor the broken field.
    let domain = parse_content("record A(\nint x\n)\nrecord B(\nbroken\n)".to_string()).unwrap();
    assert_eq!(domain.name, "A");
    assert_eq!(domain.objects.len(), 1);

    // A closing parenthesis before anything else ends the scan at once.
    let domain = parse_content(")\nrecord A(\nint x\n)".to_string()).unwrap();
    assert_eq!(domain.name, "");
    assert!(domain.objects.is_empty());
}

#[test]
fn content_without_a_record_has_the_empty_name() {
    let domain = parse_content(String::new()).unwrap();
    assert_eq!(domain.name, "");
    assert!(domain.objects.is_empty());

    let domain = parse_content("class Station {\n}\n".to_string()).unwrap();
    assert_eq!(domain.name, "");
    assert!(domain.objects.is_empty());
}

#[test]
fn content_reads_fields_only_after_the_line_that_opens() {
    // The opening line itself is no field, whatever follows the parenthesis.
    let domain = parse_content("record A\n(\nint x,\nint y\n".to_string()).unwrap();
    assert_eq!(domain.name, "A");
    assert_eq!(domain.objects.len(), 2);

    // Before any parenthesis a line of one token is passed over.
    let domain = parse_content("package\nrecord A(\n)".to_string()).unwrap();
    assert_eq!(domain.name, "A");
}

#[test]
fn content_takes_carriage_returns_as_whitespace() {
    let domain = parse_content("record A(\r\n  int x,\r\n  int y\r\n)\r\n".to_string()).unwrap();
    assert_eq!(domain.name, "A");
    assert_eq!(domain.objects.len(), 2);
    assert_eq!(domain.objects[0].variable_name, "x");
    assert_eq!(domain.objects[1].variable_name, "y");
}

#[test]
fn content_with_a_last_line_without_line_feed_is_read() {
    let domain = parse_content("record A(\nint x".to_string()).unwrap();
    assert_eq!(domain.objects.len(), 1);
    // A line feed at the very end opens no further, empty line.
    let domain = parse_content("record A(\nint x\n".to_string()).unwrap();
    assert_eq!(domain.objects.len(), 1);
    // Two of them do.
    assert_eq!(
        refused("record A(\nint x\n\n"),
        ParseError { line: 3, kind: ParseErrorKind::MalformedField(FieldError::MissingType) }
    );
}

#[test]
fn config_needs_a_file() {
    let args = vec!["program".to_string()];
    assert_eq!(Config::build(&args).err(), Some("Not enough arguments"));
    assert_eq!(Config::build(&[]).err(), Some("Not enough arguments"));
}

#[test]
fn config_keeps_the_file_and_a_lone_second_argument() {
    let args = vec!["program".to_string(), "Station.java".to_string()];
    let config = Config::build(&args).unwrap();
    assert_eq!(config.file_path, "Station.java");
    assert_eq!(config.function, None);

    let args = vec!["program".to_string(), "Station.java".to_string(), "dto".to_string()];
    let config = Config::build(&args).unwrap();
    assert_eq!(config.file_path, "Station.java");
    assert_eq!(config.function, Some("dto".to_string()));

    let args = vec![
        "program".to_string(),
        "Station.java".to_string(),
        "dto".to_string(),
        "more".to_string(),
    ];
    let config = Config::build(&args).unwrap();
    assert_eq!(config.file_path, "Station.java");
    assert_eq!(config.function, None);
}

#[test]
fn errors_say_what_is_missing() {
    assert_eq!(FieldError::MissingType.message(), "Expected class name");
    assert_eq!(FieldError::MissingIdentifier.message(), "Expected variable name");
    assert_eq!(ParseErrorKind::NameNotFound.message(), "Could not parse name");
    assert_eq!(ParseErrorKind::DuplicateName.message(), "Found a second record");
    assert_eq!(
        ParseErrorKind::MalformedField(FieldError::MissingType).message(),
        "Expected class name"
    );
    assert_eq!(
        ParseErrorKind::MalformedField(FieldError::MissingIdentifier).message(),
        "Expected variable name"
    );
}

#[test]
fn first_refused_line_is_reported() {
    // Line 2 is refused for its field before line 3 is looked at.
    assert_eq!(
        refused("record A(\nalone\nrecord B(\n)"),
        ParseError {
            line: 2,
            kind: ParseErrorKind::MalformedField(FieldError::MissingIdentifier)
        }
    );
    // On one line the record comes before the field.
    assert_eq!(
        refused("record A(\nrecord\n)"),
        ParseError { line: 2, kind: ParseErrorKind::DuplicateName }
    );
}

#[test]
fn lone_closing_parenthesis_is_no_field() {
    let domain = parse_content("record A(\n)".to_string()).unwrap();
    assert_eq!(domain.name, "A");
    assert!(domain.objects.is_empty());
}

#[test]
fn record_written_out_plainly_reads_back() {
    let fields = [("UUID", "id"), ("List<Long>", "marketIds"), ("Map<String,Long>", "counts")];
    let mut source = String::from("record Station( \n");
    for (class, variable_name) in fields {
        source.push_str(class);
        source.push(' ');
        source.push_str(variable_name);
        source.push_str(", \n");
    }
    source.push_str(")\n");

    let domain = parse_content(source).unwrap();
    assert_eq!(domain.name, "Station");
    assert_eq!(domain.objects.len(), fields.len());
    for (object, (class, variable_name)) in domain.objects.iter().zip(fields) {
        assert_eq!(object.class, class);
        assert_eq!(object.variable_name, variable_name);
    }
}

#[test]
fn keyword_in_a_comment_is_taken_for_a_record() {
    let domain = parse_content("// a record of stations\nclass Station {}".to_string()).unwrap();
    assert_eq!(domain.name, "of");

    assert_eq!(
        refused("// a record of stations\npublic record Station(\n)"),
        ParseError { line: 2, kind: ParseErrorKind::DuplicateName }
    );
}
