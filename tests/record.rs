use twitch_logger::irc::Message;
use twitch_logger::normalize::compress;
use twitch_logger::number::parse_int;
use twitch_logger::record::{
    command_fields, parse_badges, project, to_json, type_field, BadgeValue, FieldValue, Record,
};

fn field<'a>(r: &'a Record, key: &str) -> Option<&'a FieldValue> {
    r.tags.iter().find(|t| t.0 == key).map(|t| &t.1)
}

#[test]
fn end_to_end_scenario() {
    let line = "@id=abc;tmi-sent-ts=1000;badges=subscriber/12 :nick!u@host.service.tld PRIVMSG #chan :hello";
    let mut m = Message::parse(line);
    compress(&mut m);
    let r = project(&m, "unused".to_string(), 5);
    assert_eq!(r.id, "abc");
    assert_eq!(r.timestamp, 1000);
    assert_eq!(r.channel.as_deref(), Some("chan"));
    assert_eq!(r.name.as_deref(), Some("nick"));
    assert_eq!(r.message.as_deref(), Some("hello"));
    assert_eq!(r.tags.len(), 1);
    match field(&r, "badges") {
        Some(FieldValue::Badges(b)) => {
            assert_eq!(b.len(), 1);
            assert_eq!(b[0].0, "subscriber");
            assert!(matches!(b[0].1, BadgeValue::Number(12)));
        }
        other => panic!("unexpected badges: {:?}", other),
    }
    assert_eq!(r.commands_count, None);
    assert_eq!(r.commands_only, None);
    assert_eq!(r.irc_nick.as_deref(), Some("nick"));
    assert_eq!(r.irc_cmd, "PRIVMSG");
    assert!(r.irc_extras.is_empty());
}

#[test]
fn duplicate_tags_last_wins() {
    let m = Message::parse("@a=1;a=2 PRIVMSG #c :x");
    let r = project(&m, "f".to_string(), 0);
    assert_eq!(r.tags.len(), 1);
    assert!(matches!(field(&r, "a"), Some(FieldValue::Number(2))));
}

#[test]
fn defaults_when_id_and_timestamp_missing() {
    let m = Message::parse(":n!n@h PRIVMSG #c :x");
    let r = project(&m, "fresh".to_string(), 77);
    assert_eq!(r.id, "fresh");
    assert_eq!(r.timestamp, 77);
    let r = to_json(&m);
    assert_eq!(r.id.len(), 36);
    assert_eq!(r.id.matches('-').count(), 4);
    let again = to_json(&m);
    assert_ne!(again.id, "");
}

#[test]
fn unreadable_timestamp_uses_now() {
    let m = Message::parse("@tmi-sent-ts=soon PRIVMSG #c :x");
    let r = project(&m, "f".to_string(), 42);
    assert_eq!(r.timestamp, 42);
}

#[test]
fn tag_typing() {
    assert!(matches!(type_field("flag", "1".to_string()), FieldValue::Flag(true)));
    assert!(matches!(type_field("bits", "100".to_string()), FieldValue::Number(100)));
    assert!(matches!(type_field("user-id", "123".to_string()), FieldValue::Text(ref s) if s == "123"));
    assert!(matches!(type_field("color", "#FF0000".to_string()), FieldValue::Text(ref s) if s == "#FF0000"));
    assert!(matches!(type_field("n", "-5".to_string()), FieldValue::Number(-5)));
}

#[test]
fn badges_are_nested() {
    let b = parse_badges("subscriber/12,premium/1,founder/x,bare");
    assert_eq!(b.len(), 4);
    assert!(matches!(b[0].1, BadgeValue::Number(12)));
    assert!(matches!(b[1].1, BadgeValue::Number(1)));
    assert!(matches!(b[2].1, BadgeValue::Text(ref s) if s == "x"));
    assert_eq!(b[3].0, "bare");
    assert!(matches!(b[3].1, BadgeValue::Text(ref s) if s.is_empty()));
}

#[test]
fn display_name_becomes_name_and_leaves_tags() {
    let m = Message::parse("@display-name=Nick;color=red :nick!n@h PRIVMSG #c :x");
    let r = project(&m, "f".to_string(), 0);
    assert_eq!(r.name.as_deref(), Some("Nick"));
    assert!(field(&r, "display-name").is_none());
    assert!(field(&r, "color").is_some());
}

#[test]
fn message_falls_back_to_system_msg_then_msg_id() {
    let m = Message::parse("@system-msg=hi\\sall;msg-id=sub USERNOTICE #c");
    let r = project(&m, "f".to_string(), 0);
    assert_eq!(r.message.as_deref(), Some("hi all"));
    let m = Message::parse("@msg-id=raid USERNOTICE #c");
    let r = project(&m, "f".to_string(), 0);
    assert_eq!(r.message.as_deref(), Some("raid"));
    let m = Message::parse("@system-msg=5 USERNOTICE #c");
    let r = project(&m, "f".to_string(), 0);
    assert_eq!(r.message.as_deref(), Some("5"));
    let m = Message::parse("USERNOTICE #c");
    let r = project(&m, "f".to_string(), 0);
    assert_eq!(r.message, None);
}

#[test]
fn extras_and_channel() {
    let m = Message::parse("CMD nochan second third fourth");
    let r = project(&m, "f".to_string(), 0);
    assert_eq!(r.channel, None);
    assert_eq!(r.irc_extras, vec!["third".to_string(), "fourth".to_string()]);
}

#[test]
fn chat_commands_are_counted() {
    let m = Message::parse("PRIVMSG #c :left~ right~");
    let r = project(&m, "f".to_string(), 0);
    assert_eq!(r.commands_count, Some(2));
    assert_eq!(r.commands_only, Some(true));
    let m = Message::parse("PRIVMSG #c :hi, left~");
    let r = project(&m, "f".to_string(), 0);
    assert_eq!(r.commands_count, Some(1));
    assert_eq!(r.commands_only, None);
    let m = Message::parse("NOTICE #c :left~ right~");
    let r = project(&m, "f".to_string(), 0);
    assert_eq!(r.commands_count, None);
}

#[test]
fn command_field_rules() {
    assert_eq!(command_fields(&vec![], true), (None, None));
    assert_eq!(command_fields(&vec![0, 0], true), (None, None));
    assert_eq!(command_fields(&vec![2, 3], true), (Some(5), Some(true)));
    assert_eq!(command_fields(&vec![2, 3], false), (Some(5), None));
    assert_eq!(command_fields(&vec![usize::MAX, 5], false), (Some(u32::MAX), None));
}

#[test]
fn integer_parsing() {
    assert_eq!(parse_int("0"), Some(0));
    assert_eq!(parse_int("+17"), Some(17));
    assert_eq!(parse_int("-9223372036854775808"), Some(i64::MIN));
    assert_eq!(parse_int("9223372036854775807"), Some(i64::MAX));
    assert_eq!(parse_int("9223372036854775808"), None);
    assert_eq!(parse_int(""), None);
    assert_eq!(parse_int("-"), None);
    assert_eq!(parse_int("1a"), None);
    assert_eq!(parse_int(" 1"), None);
}
