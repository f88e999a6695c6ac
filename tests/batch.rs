use twitch_logger::batch::{backfill, backfill_with, Backfill, SkipReason};
use twitch_logger::chunk::{bulk_unit, byte_size, chunk_file_name, chunk_units, Chunker};
use twitch_logger::ids::{id_from_bytes, repair_id, IdError};
use twitch_logger::irc::Message;

fn skipped(line: &str, dont_filter: bool) -> Option<SkipReason> {
    match backfill_with(Message::parse(line), dont_filter, "f".to_string(), 0) {
        Ok(Backfill::Skipped(r)) => Some(r),
        _ => None,
    }
}

#[test]
fn backfill_skips_what_it_cannot_index() {
    assert_eq!(skipped("@id=a", false), Some(SkipReason::NoCommand));
    assert_eq!(skipped("@id=a;tmi-sent-ts=1 JOIN #c", false), Some(SkipReason::Ignored));
    assert_eq!(skipped("@id=a;tmi-sent-ts=1 :n!n@h PART #c", false), Some(SkipReason::Ignored));
    assert_eq!(skipped("@id=a PRIVMSG #c :x", false), Some(SkipReason::NoTimestamp));
    assert_eq!(skipped("@tmi-sent-ts=1 PRIVMSG #c :x", false), Some(SkipReason::NoId));
    assert_eq!(skipped("@tmi-sent-ts=1 JOIN #c", true), Some(SkipReason::NoId));
}

#[test]
fn backfill_repairs_compact_ids() {
    let line = "@id=AAECAwQFBgcICQoLDA0ODw;tmi-sent-ts=5;reply-parent-msg-id=AAECAwQFBgcICQoLDA0ODw :n!n@h PRIVMSG #c :hi";
    match backfill(Message::parse(line), false) {
        Ok(Backfill::Ready(r)) => {
            assert_eq!(r.id, "00010203-0405-0607-0809-0a0b0c0d0e0f");
            assert_eq!(r.timestamp, 5);
            let reply = r.tags.iter().find(|t| t.0 == "reply-parent-msg-id").unwrap();
            assert!(matches!(&reply.1, twitch_logger::record::FieldValue::Text(s) if s == "00010203-0405-0607-0809-0a0b0c0d0e0f"));
        }
        other => panic!("unexpected outcome: {:?}", other),
    }
}

#[test]
fn backfill_keeps_canonical_ids() {
    let line = "@id=00010203-0405-0607-0809-0a0b0c0d0e0f;tmi-sent-ts=5 :n!n@h PRIVMSG #c :hi";
    match backfill_with(Message::parse(line), false, "f".to_string(), 0) {
        Ok(Backfill::Ready(r)) => assert_eq!(r.id, "00010203-0405-0607-0809-0a0b0c0d0e0f"),
        other => panic!("unexpected outcome: {:?}", other),
    }
}

#[test]
fn backfill_reports_bad_ids() {
    let line = "@id=abc;tmi-sent-ts=5 :n!n@h PRIVMSG #c :hi";
    assert!(matches!(
        backfill_with(Message::parse(line), false, "f".to_string(), 0),
        Err(IdError::Length)
    ));
    let line = "@id=a*b;tmi-sent-ts=5 :n!n@h PRIVMSG #c :hi";
    assert!(matches!(
        backfill_with(Message::parse(line), false, "f".to_string(), 0),
        Err(IdError::Encoding)
    ));
}

#[test]
fn id_repair() {
    assert_eq!(repair_id("AAECAwQFBgcICQoLDA0ODw").unwrap(), "00010203-0405-0607-0809-0a0b0c0d0e0f");
    assert_eq!(repair_id("--------------------------------abcd").unwrap().len(), 36);
    assert_eq!(repair_id("AQID"), Err(IdError::Length));
    assert_eq!(repair_id("!!"), Err(IdError::Encoding));
    assert_eq!(id_from_bytes(&[255u8; 16]).unwrap(), "ffffffff-ffff-ffff-ffff-ffffffffffff");
    assert_eq!(id_from_bytes(&[1u8, 2]), Err(IdError::Length));
}

#[test]
fn chunks_cut_before_reaching_budget() {
    let mut c = Chunker::new(Some(10));
    assert_eq!(c.push_unit("aaaa"), None);
    assert_eq!(c.push_unit("bbbb"), None);
    assert_eq!(c.push_unit("cc"), Some((0, "aaaabbbb".to_string())));
    assert_eq!(c.push_unit("dddddddddddd"), Some((1, "cc".to_string())));
    assert_eq!(c.finish(), Some((2, "dddddddddddd".to_string())));
    assert_eq!(c.finish(), None);
    assert_eq!(c.index(), 3);
}

#[test]
fn chunk_count_matches_running_sum() {
    let sizes = [3usize, 4, 2, 5, 1, 9];
    let budget = 8usize;
    let mut c = Chunker::new(Some(budget));
    let mut files = 0;
    for s in sizes {
        if c.push_unit(&"x".repeat(s)).is_some() {
            files += 1;
        }
    }
    if c.finish().is_some() {
        files += 1;
    }
    let mut expected = 0;
    let mut acc = 0;
    for s in sizes {
        if acc + s >= budget {
            expected += 1;
            acc = s;
        } else {
            acc += s;
        }
    }
    if acc > 0 {
        expected += 1;
    }
    assert_eq!(files, expected);
    assert_eq!(files, 4);
}

#[test]
fn unbounded_chunker_keeps_everything() {
    let mut c = Chunker::new(None);
    assert_eq!(c.push_unit("a"), None);
    assert_eq!(c.push_unit("b"), None);
    assert_eq!(c.finish(), Some((0, "ab".to_string())));
}

#[test]
fn chunk_sizes_are_bytes() {
    assert_eq!(byte_size("héllo€😀"), 1 + 2 + 3 + 4 + 3);
    let mut c = Chunker::new(Some(4));
    assert_eq!(c.push_unit("é"), None);
    assert_eq!(c.push_unit("é"), Some((0, "é".to_string())));
}

#[test]
fn bulk_units_and_file_names() {
    assert_eq!(bulk_unit("{\"create\":{}}", "{}"), "{\"create\":{}}\n{}\n");
    assert_eq!(chunk_file_name("backfill-%.ndjson", 0), "backfill-0.ndjson");
    assert_eq!(chunk_file_name("out-%-%", 1234), "out-1234-1234");
    assert_eq!(chunk_file_name("plain", 7), "plain");
}

#[test]
fn chunk_units_counts_files() {
    let units: Vec<String> = [3usize, 4, 2, 5, 1, 9].iter().map(|s| "x".repeat(*s)).collect();
    let chunks = chunk_units(&units, Some(8));
    assert_eq!(chunks.len(), 4);
    let indices: Vec<usize> = chunks.iter().map(|c| c.0).collect();
    assert_eq!(indices, vec![0, 1, 2, 3]);
    assert_eq!(chunks[0].1, "xxxxxxx");
    assert_eq!(chunks[3].1, "x".repeat(9));
    let all: String = chunks.into_iter().map(|c| c.1).collect();
    assert_eq!(all, units.concat());
    assert!(chunk_units(&Vec::new(), Some(8)).is_empty());
    assert_eq!(chunk_units(&units, None).len(), 1);
}
