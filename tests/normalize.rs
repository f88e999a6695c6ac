use twitch_logger::ids::{compact_id, repair_id};
use twitch_logger::irc::{Message, TagText};
use twitch_logger::normalize::{compress, encode_ids, str_ends_with};

#[test]
fn compress_drops_empty_and_zero_tags() {
    let mut m = Message::parse("@a=;b=0;c=1;d=00 :n!n@x PRIVMSG #c :hi");
    compress(&mut m);
    let keys: Vec<&str> = m.tags.iter().map(|t| t.0.as_str()).collect();
    assert_eq!(keys, vec!["c", "d"]);
}

#[test]
fn compress_drops_display_name_equal_to_nick() {
    let mut m = Message::parse("@display-name=nick;x=2 :nick!nick@nick.tmi.twitch.tv PRIVMSG #c :hi");
    compress(&mut m);
    let keys: Vec<&str> = m.tags.iter().map(|t| t.0.as_str()).collect();
    assert_eq!(keys, vec!["x"]);
    let mut m = Message::parse("@display-name=Nick :nick!nick@h PRIVMSG #c :hi");
    compress(&mut m);
    assert_eq!(m.tags.len(), 1);
}

#[test]
fn compress_drops_low_value_tags() {
    let mut m = Message::parse("@client-nonce=abc;emotes=1:0-4;room-id=5;user-id=7 :n!n@h PRIVMSG #c :hi");
    compress(&mut m);
    let keys: Vec<&str> = m.tags.iter().map(|t| t.0.as_str()).collect();
    assert_eq!(keys, vec!["user-id"]);
}

#[test]
fn compress_clears_service_hosts_only() {
    let mut m = Message::parse(":nick!nick@nick.tmi.twitch.tv PRIVMSG #c :hi");
    compress(&mut m);
    let p = m.prefix.as_ref().unwrap();
    assert_eq!(p.nick, "nick");
    assert!(p.user.is_none());
    assert!(p.host.is_none());

    let mut m = Message::parse(":nick!u@host.service.tld PRIVMSG #c :hi");
    compress(&mut m);
    let p = m.prefix.as_ref().unwrap();
    assert_eq!(p.user.as_deref(), Some("u"));
    assert_eq!(p.host.as_deref(), Some("host.service.tld"));
}

#[test]
fn compress_keeps_command_and_params() {
    let mut m = Message::parse("@a=0 :n!n@h CMD x :y z");
    compress(&mut m);
    assert!(m.tags.is_empty());
    assert_eq!(m.command, "CMD");
    assert_eq!(m.param(1).unwrap(), "y z");
}

#[test]
fn ends_with_suffix() {
    assert!(str_ends_with("a.tmi.twitch.tv", ".tmi.twitch.tv"));
    assert!(!str_ends_with("tmi.twitch.tv", ".tmi.twitch.tv"));
    assert!(str_ends_with("abc", ""));
}

#[test]
fn encode_ids_stores_compact_literals() {
    let mut m = Message::parse(
        "@id=00010203-0405-0607-0809-0a0b0c0d0e0f;reply-parent-msg-id=short;user-id=00010203-0405-0607-0809-0a0b0c0d0e0f CMD",
    );
    encode_ids(&mut m);
    let mut out = String::new();
    m.write(&mut out);
    assert_eq!(
        out,
        "@id=AAECAwQFBgcICQoLDA0ODw;reply-parent-msg-id=short;user-id=00010203-0405-0607-0809-0a0b0c0d0e0f CMD"
    );
    assert!(matches!(m.tags[0].1 .0, TagText::Literal(_)));
    assert_eq!(repair_id(&m.tags[0].1.unescape()).unwrap(), "00010203-0405-0607-0809-0a0b0c0d0e0f");
}

#[test]
fn compact_id_needs_canonical_text() {
    assert_eq!(compact_id("00010203-0405-0607-0809-0a0b0c0d0e0f").as_deref(), Some("AAECAwQFBgcICQoLDA0ODw"));
    assert_eq!(compact_id("000102030405060708090a0b0c0d0e0f"), None);
    assert_eq!(compact_id("zz010203-0405-0607-0809-0a0b0c0d0e0f"), None);
    assert_eq!(compact_id("00010203-0405-0607-0809-0A0B0C0D0E0F"), None);
}
