use ircparser::parse;

#[test]
fn test_single_partial() {
    let msg = "PRIVMSG #rickastley :Never gonna give you up!";
    match parse(msg) {
        Ok(mut x) => {
            let line = x.pop_front().unwrap();

            assert!(line.tags.is_empty());
            assert_eq!(line.source, None);
            assert_eq!(line.command, "PRIVMSG");
            assert_eq!(line.params, vec!["#rickastley", "Never gonna give you up!"]);
        }
        Err(e) => {
            println!("A parsing error occured: {}", e.details);
            panic!("expected a successful parse");
        }
    }
}

#[test]
fn test_single_full() {
    let msg = "@id=123;name=rick :nick!user@host.tmi.twitch.tv PRIVMSG #rickastley :Never gonna give you up!";
    match parse(msg) {
        Ok(mut x) => {
            let line = x.pop_front().unwrap();

            assert_eq!(line.tags.len(), 2);
            assert_eq!(line.tag("id").unwrap().as_str(), "123");
            assert_eq!(line.tag("name").unwrap().as_str(), "rick");
            assert_eq!(
                line.source,
                Some(String::from(":nick!user@host.tmi.twitch.tv"))
            );
            assert_eq!(line.command, "PRIVMSG");
            assert_eq!(line.params, vec!["#rickastley", "Never gonna give you up!"]);
        }
        Err(e) => {
            println!("A parsing error occured: {}", e.details);
            panic!("expected a successful parse");
        }
    };
}

#[test]
fn test_readme_example() {
    let msg = "@id=123;name=rick :nick!user@host.tmi.twitch.tv PRIVMSG #rickastley :Never gonna give you up!";
    match parse(msg) {
        Ok(mut x) => {
            let line = x.pop_front().unwrap();

            assert_eq!(line.tag("id").unwrap().as_str(), "123");
            if line.source.is_some() {
                assert_eq!(line.source.unwrap(), ":nick!user@host.tmi.twitch.tv");
            }
            assert_eq!(line.command, "PRIVMSG");
            assert_eq!(line.params[0], "#rickastley");
            assert_eq!(line.params[1], "Never gonna give you up!");
        }
        Err(e) => {
            println!("A parsing error occured: {}", e.details);
            panic!("expected a successful parse");
        }
    };
}

#[test]
fn test_multiline() {
    let msg = "@id=123 PRIVMSG #rickastley :Never gonna give you up!\n@id=456 PRIVMSG #rickastley :Never gonna let you down!";
    match parse(msg) {
        Ok(mut x) => {
            assert_eq!(x.len(), 2);

            let l1 = x.pop_front().unwrap();
            let l2 = x.pop_front().unwrap();

            assert_eq!(l1.tag("id").unwrap().as_str(), "123");
            assert_eq!(l2.tag("id").unwrap().as_str(), "456");
            assert_eq!(l1.command, l2.command);
            assert_eq!(l1.params[1], "Never gonna give you up!");
            assert_eq!(l2.params[1], "Never gonna let you down!");
        }
        Err(e) => {
            println!("A parsing error occured: {}", e.details);
            panic!("expected a successful parse");
        }
    }
}

#[test]
fn test_multiline_tags_in_order() {
    let msg = "@id=123 PRIVMSG #a :hi\n@id=456 PRIVMSG #a :bye";
    let mut x = parse(msg).unwrap();
    assert_eq!(x.len(), 2);
    let l1 = x.pop_front().unwrap();
    let l2 = x.pop_front().unwrap();
    assert_eq!(l1.tag("id").unwrap().as_str(), "123");
    assert_eq!(l2.tag("id").unwrap().as_str(), "456");
    assert_eq!(l1.params, vec!["#a", "hi"]);
    assert_eq!(l2.params, vec!["#a", "bye"]);
}

#[test]
fn test_ping_no_trailing() {
    let mut x = parse("PING tmi.twitch.tv").unwrap();
    let line = x.pop_front().unwrap();
    assert!(line.tags.is_empty());
    assert_eq!(line.source, None);
    assert_eq!(line.command, "PING");
    assert_eq!(line.params, vec!["tmi.twitch.tv"]);
}

#[test]
fn test_duplicate_tag_keys_keep_last() {
    let mut x = parse("@k=1;k=2 PRIVMSG #a :hi").unwrap();
    let line = x.pop_front().unwrap();
    assert_eq!(line.tags.len(), 1);
    assert_eq!(line.tag("k").unwrap().as_str(), "2");
}

#[test]
fn test_tag_value_containing_equals() {
    let mut x = parse("@k=a=b PRIVMSG #a :hi").unwrap();
    let line = x.pop_front().unwrap();
    assert_eq!(line.tag("k").unwrap().as_str(), "a=b");
}

#[test]
fn test_tag_value_empty() {
    let mut x = parse("@k= PRIVMSG #a :hi").unwrap();
    let line = x.pop_front().unwrap();
    assert_eq!(line.tag("k").unwrap().as_str(), "");
}

#[test]
fn test_tag_lookup_missing_key() {
    let mut x = parse("@k=1 PRIVMSG #a :hi").unwrap();
    let line = x.pop_front().unwrap();
    assert!(line.tag("nope").is_none());
}

#[test]
fn test_source_kept_verbatim() {
    let mut x = parse(":server.example.com PONG a :b c").unwrap();
    let line = x.pop_front().unwrap();
    assert_eq!(line.source, Some(String::from(":server.example.com")));
    assert_eq!(line.command, "PONG");
    assert_eq!(line.params, vec!["a", "b c"]);
}

#[test]
fn test_trailing_keeps_spaces_and_colons() {
    let mut x = parse("CMD x :a b:c d").unwrap();
    let line = x.pop_front().unwrap();
    assert_eq!(line.params, vec!["x", "a b:c d"]);
}

#[test]
fn test_consecutive_spaces_give_empty_params() {
    let mut x = parse("CMD a  b").unwrap();
    let line = x.pop_front().unwrap();
    assert_eq!(line.params, vec!["a", "", "b"]);
}

#[test]
fn test_empty_middle_with_trailing() {
    let mut x = parse("CMD  :hi").unwrap();
    let line = x.pop_front().unwrap();
    assert_eq!(line.command, "CMD");
    assert_eq!(line.params, vec!["hi"]);
}

#[test]
fn test_colon_at_cursor_is_not_trailing() {
    // The trailing colon is searched strictly after the parameter cursor,
    // so a colon standing exactly at it begins an ordinary parameter.
    let mut x = parse("CMD :hi").unwrap();
    let line = x.pop_front().unwrap();
    assert_eq!(line.params, vec![":hi"]);
}

#[test]
fn test_no_params_at_all() {
    let mut x = parse("CMD ").unwrap();
    let line = x.pop_front().unwrap();
    assert_eq!(line.command, "CMD");
    assert!(line.params.is_empty());
}

#[test]
fn test_carriage_returns_are_stripped() {
    let mut x = parse("PRIVMSG #a :hi\r\nPING x\r").unwrap();
    assert_eq!(x.len(), 2);
    let l1 = x.pop_front().unwrap();
    let l2 = x.pop_front().unwrap();
    assert_eq!(l1.params, vec!["#a", "hi"]);
    assert_eq!(l2.command, "PING");
    assert_eq!(l2.params, vec!["x"]);
}
