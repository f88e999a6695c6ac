use twitch_logger::irc::Message;
use twitch_logger::record::project;
use twitch_logger::session::{is_ignored, line_action, should_log, Backoff, LineAction, Retry};
use twitch_logger::sink::{
    create_endpoint, delivery, index_mapping, normalize_channel, Delivery, MappingError, SinkError,
};

#[test]
fn backoff_sequence() {
    let mut b = Backoff::new();
    let waits: Vec<Retry> = (0..9).map(|_| b.on_failure()).collect();
    assert_eq!(
        waits,
        vec![
            Retry::After(0),
            Retry::After(1),
            Retry::After(2),
            Retry::After(4),
            Retry::After(8),
            Retry::After(16),
            Retry::After(32),
            Retry::GiveUp,
            Retry::GiveUp,
        ]
    );
    b.on_success();
    assert_eq!(b.on_failure(), Retry::After(0));
    assert_eq!(b.on_failure(), Retry::After(1));
}

#[test]
fn keepalive_is_answered() {
    match line_action(&Message::parse("PING :tmi.twitch.tv"), false) {
        LineAction::Reply(s, log) => {
            assert_eq!(s, "PONG :tmi.twitch.tv");
            assert!(!log);
        }
        other => panic!("unexpected action: {:?}", other),
    }
    match line_action(&Message::parse("PING"), true) {
        LineAction::Reply(s, log) => {
            assert_eq!(s, "PONG");
            assert!(log);
        }
        other => panic!("unexpected action: {:?}", other),
    }
}

#[test]
fn reconnect_and_filtering() {
    assert!(matches!(line_action(&Message::parse("RECONNECT"), true), LineAction::Reconnect));
    assert!(matches!(line_action(&Message::parse("JOIN #c"), false), LineAction::Skip));
    assert!(matches!(line_action(&Message::parse("JOIN #c"), true), LineAction::Log));
    assert!(matches!(line_action(&Message::parse(":n!n@h PART #c"), false), LineAction::Skip));
    assert!(matches!(line_action(&Message::parse(":n!n@h PART #c"), true), LineAction::Log));
    assert!(is_ignored("PART"));
    assert!(matches!(line_action(&Message::parse("PRIVMSG #c :x"), false), LineAction::Log));
    assert!(is_ignored("001"));
    assert!(is_ignored("CAP"));
    assert!(!is_ignored("PRIVMSG"));
    assert!(should_log("353", true));
    assert!(!should_log("353", false));
}

#[test]
fn channels_are_lowercased() {
    assert_eq!(normalize_channel("ForSen_123"), "forsen_123");
    assert_eq!(normalize_channel("ÄB"), "Äb");
}

#[test]
fn index_mapping_rules() {
    let channels = vec!["a".to_string(), "b".to_string()];
    let one = index_mapping(&channels, &vec!["logs-*".to_string()]).unwrap();
    assert_eq!(
        one,
        vec![("a".to_string(), "logs-a".to_string()), ("b".to_string(), "logs-b".to_string())]
    );
    let two = index_mapping(&channels, &vec!["x".to_string(), "y".to_string()]).unwrap();
    assert_eq!(two[1], ("b".to_string(), "y".to_string()));
    assert_eq!(
        index_mapping(&channels, &vec!["x".to_string(), "y".to_string(), "z".to_string()]),
        Err(MappingError::Count { channels: 2, indices: 3 })
    );
}

#[test]
fn endpoints_and_deliveries() {
    let mapping = vec![("chan".to_string(), "logs-chan".to_string())];
    let r = project(&Message::parse("@id=abc PRIVMSG #chan :x"), "f".to_string(), 0);
    assert_eq!(
        create_endpoint("http://es:9200", &mapping, &r).unwrap(),
        "http://es:9200/logs-chan/_create/abc"
    );
    let r = project(&Message::parse("@id=abc PRIVMSG #other :x"), "f".to_string(), 0);
    assert_eq!(create_endpoint("e", &mapping, &r), Err(SinkError::NoIndex));
    let r = project(&Message::parse("@id=abc PRIVMSG nochan :x"), "f".to_string(), 0);
    assert_eq!(create_endpoint("e", &mapping, &r), Err(SinkError::NoChannel));
    assert_eq!(delivery(201), Delivery::Stored);
    assert_eq!(delivery(409), Delivery::AlreadyStored);
    assert_eq!(delivery(500), Delivery::Failed);
    assert_eq!(delivery(199), Delivery::Failed);
}
