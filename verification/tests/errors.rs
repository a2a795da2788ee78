use ircparser::parse;
use ircparser::Line;
use ircparser::ParseError;

#[test]
fn test_empty_input_is_rejected() {
    let e = parse("").unwrap_err();
    assert_eq!(e.details, "line length cannot be 0");
}

#[test]
fn test_trailing_newline_is_rejected() {
    // A final newline leaves an empty last segment, which fails like any
    // other empty line; callers must pre-trim.
    let e = parse("PING x\n").unwrap_err();
    assert_eq!(e.details, "line length cannot be 0");
}

#[test]
fn test_blank_line_in_batch_is_rejected() {
    let e = parse("PING x\n\nPING y").unwrap_err();
    assert_eq!(e.details, "line length cannot be 0");
}

#[test]
fn test_tags_without_space_are_rejected() {
    let e = parse("@id=123").unwrap_err();
    assert_eq!(e.details, "tags segment has no terminating space");
}

#[test]
fn test_tag_entry_without_equals_is_rejected() {
    let e = parse("@id PRIVMSG #a :hi").unwrap_err();
    assert_eq!(e.details, "malformed tag entry");
}

#[test]
fn test_tag_entry_with_empty_key_is_rejected() {
    let e = parse("@=v PRIVMSG #a :hi").unwrap_err();
    assert_eq!(e.details, "malformed tag entry");
}

#[test]
fn test_source_without_space_is_rejected() {
    let e = parse(":nick!user@host").unwrap_err();
    assert_eq!(e.details, "source segment has no terminating space");
}

#[test]
fn test_command_without_space_is_rejected() {
    let e = parse("PING").unwrap_err();
    assert_eq!(e.details, "command has no terminating space");
}

#[test]
fn test_first_bad_line_fails_the_batch() {
    let e = parse("PING x\n@id=123\nPING y").unwrap_err();
    assert_eq!(e.details, "tags segment has no terminating space");
}

#[test]
fn test_parse_error_new() {
    let e = ParseError::new("err");
    assert_eq!(e.details, "err".to_string());
}

#[test]
fn test_line_new() {
    let tags = vec![("id".to_string(), "123".to_string())];
    let source = Some(":nick!user@host.tmi.twitch.tv".to_string());
    let command = "PRIVMSG";
    let params = vec!["#rickastley".to_string()];

    let line = Line::new(tags, source, command, params);

    assert_eq!(line.tag("id").unwrap().as_str(), "123");
    assert_eq!(line.source.unwrap(), ":nick!user@host.tmi.twitch.tv");
    assert_eq!(line.command, "PRIVMSG");
    assert_eq!(line.params[0], "#rickastley");
}
