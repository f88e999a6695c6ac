use twitch_logger::irc::{Message, Prefix, TagText, TagValue};

fn raw(s: &str) -> TagValue {
    TagValue(TagText::Raw(s.to_string()))
}

fn written(m: &Message) -> String {
    let mut out = String::new();
    m.write(&mut out);
    out
}

#[test]
fn unescape_plain_value_is_unchanged() {
    assert_eq!(raw("hello world").unescape(), "hello world");
    assert_eq!(raw("").unescape(), "");
}

#[test]
fn unescape_decodes_escape_codes() {
    assert_eq!(raw("a\\:b\\sc\\nd").unescape(), "a;b c\nd");
    assert_eq!(raw("x\\ry").unescape(), "x\ry");
    assert_eq!(raw("\\q").unescape(), "q");
}

#[test]
fn unescape_double_backslash_leaves_next_segment_literal() {
    assert_eq!(raw("a\\\\b").unescape(), "a\\b");
    assert_eq!(raw("a\\\\sb").unescape(), "a\\sb");
    assert_eq!(raw("a\\").unescape(), "a\\");
}

#[test]
fn unescape_keeps_literal_values() {
    let v = TagValue(TagText::Literal("a\\sb".to_string()));
    assert_eq!(v.unescape(), "a\\sb");
}

#[test]
fn prefix_with_user_and_host() {
    let p = Prefix::parse("nick!user@host");
    assert_eq!(p.nick, "nick");
    assert_eq!(p.user.as_deref(), Some("user"));
    assert_eq!(p.host.as_deref(), Some("host"));
}

#[test]
fn prefix_with_host_only() {
    let p = Prefix::parse("nick@host");
    assert_eq!(p.nick, "nick");
    assert_eq!(p.user, None);
    assert_eq!(p.host.as_deref(), Some("host"));
}

#[test]
fn prefix_with_nick_only() {
    let p = Prefix::parse("nick");
    assert_eq!(p.nick, "nick");
    assert_eq!(p.user, None);
    assert_eq!(p.host, None);
}

#[test]
fn prefix_is_read_from_the_right() {
    let p = Prefix::parse("a!b!c@d@e");
    assert_eq!(p.nick, "a!b");
    assert_eq!(p.user.as_deref(), Some("c@d"));
    assert_eq!(p.host.as_deref(), Some("e"));
}

#[test]
fn parse_full_line() {
    let m = Message::parse("@a=1;b;c=x\\sy :nick!u@h PRIVMSG #chan :hello there");
    assert_eq!(m.tags.len(), 3);
    assert_eq!(m.tags[0].0, "a");
    assert_eq!(m.tags[0].1.unescape(), "1");
    assert_eq!(m.tags[1].0, "b");
    assert_eq!(m.tags[1].1.unescape(), "");
    assert_eq!(m.tags[2].1.unescape(), "x y");
    let p = m.prefix.as_ref().unwrap();
    assert_eq!(p.nick, "nick");
    assert_eq!(m.command, "PRIVMSG");
    assert_eq!(m.param_count(), 2);
    assert_eq!(m.param(0).unwrap(), "#chan");
    assert_eq!(m.param(1).unwrap(), "hello there");
    assert!(m.param(2).is_none());
}

#[test]
fn parse_without_tags_or_prefix() {
    let m = Message::parse("PING :tmi.twitch.tv");
    assert!(m.tags.is_empty());
    assert!(m.prefix.is_none());
    assert_eq!(m.command, "PING");
    assert_eq!(m.param(0).unwrap(), "tmi.twitch.tv");
}

#[test]
fn parse_missing_command_gives_empty_command() {
    let m = Message::parse("@a=b");
    assert_eq!(m.command, "");
    assert_eq!(m.param_count(), 0);
}

#[test]
fn write_reproduces_line() {
    let line = "@a=1;c=x\\sy :nick!u@h PRIVMSG #chan :hello there";
    assert_eq!(written(&Message::parse(line)), line);
}

#[test]
fn write_keeps_channel_parameter_bare() {
    let m = Message::parse(":nick!nick@nick.tmi.twitch.tv JOIN #chan");
    assert_eq!(written(&m), ":nick!nick@nick.tmi.twitch.tv JOIN #chan");
    let m = Message::parse("CMD a b c");
    assert_eq!(written(&m), "CMD a b :c");
}

#[test]
fn round_trip_keeps_message() {
    let line = "@id=1;x=a\\:b :n!u@h CMD first second :last words";
    let first = Message::parse(line);
    let again = Message::parse(&written(&first));
    assert_eq!(written(&again), written(&first));
    assert_eq!(again.tags.len(), first.tags.len());
    assert_eq!(again.param(2).unwrap(), "last words");
}

#[test]
fn write_literal_tag_value_as_stored() {
    let mut m = Message::parse("@id=x CMD");
    m.tags[0].1 = TagValue(TagText::Literal("a b".to_string()));
    assert_eq!(written(&m), "@id=a b CMD");
}
