//! The offline repackager's decisions for one archived line.
use crate::ids::{fresh_id, repair_id, repaired_id, IdError};
use crate::irc::{tag_views, Message, MessageView, TagText, TagValue, TagValueView};
use crate::normalize::{compress, compressed};
use crate::record::{now_millis, project, projection, Record, RecordView};
use crate::session::{ignored_command, is_ignored};
use crate::text::{chars_of, str_eq};
use vstd::prelude::*;

verus! {

/// Why an archived line is left out.
#[derive(Debug, PartialEq, Eq, Structural)]
pub enum SkipReason {
    /// The line has no command.
    NoCommand,
    /// Its command is one that is not logged.
    Ignored,
    /// It has no `tmi-sent-ts` tag.
    NoTimestamp,
    /// It has no `id` tag.
    NoId,
}

/// What becomes of one archived line.
#[derive(Debug)]
pub enum Backfill {
    Skipped(SkipReason),
    /// The record to index, its id in canonical form.
    Ready(Record),
}

pub enum BackfillView {
    Skipped(SkipReason),
    Ready(RecordView),
}

pub open spec fn backfill_view(r: Result<Backfill, IdError>) -> Result<BackfillView, IdError> {
    match r {
        Ok(Backfill::Skipped(s)) => Ok(BackfillView::Skipped(s)),
        Ok(Backfill::Ready(rec)) => Ok(BackfillView::Ready(rec@)),
        Err(e) => Err(e),
    }
}

pub open spec fn has_key(tags: Seq<(Seq<char>, TagValueView)>, k: Seq<char>) -> bool {
    exists|i: int| 0 <= i < tags.len() && #[trigger] tags[i].0 == k
}

/// The reply tags whose ids older logs hold in compact form.
pub open spec fn reply_id_key(k: Seq<char>) -> bool {
    k == "reply-parent-msg-id"@ || k == "reply-thread-parent-msg-id"@
}

/// A reply id tag whose text is not 36 characters long is brought to canonical form and
/// kept as a literal; every other tag stays as it is.
pub open spec fn repaired_tag(t: (Seq<char>, TagValueView)) -> Result<
    (Seq<char>, TagValueView),
    IdError,
> {
    if reply_id_key(t.0) && t.1.meaning().len() != 36 {
        match repaired_id(t.1.meaning()) {
            Ok(s) => Ok((t.0, TagValueView { literal: true, text: s })),
            Err(e) => Err(e),
        }
    } else {
        Ok(t)
    }
}

/// Every tag repaired, in order; the first failure is the result.
pub open spec fn repaired_tags(tags: Seq<(Seq<char>, TagValueView)>) -> Result<
    Seq<(Seq<char>, TagValueView)>,
    IdError,
>
    decreases tags.len(),
{
    if tags.len() == 0 {
        Ok(Seq::empty())
    } else {
        match repaired_tags(tags.drop_last()) {
            Err(e) => Err(e),
            Ok(prev) => match repaired_tag(tags.last()) {
                Err(e) => Err(e),
                Ok(t) => Ok(prev.push(t)),
            },
        }
    }
}

/// What becomes of the archived message `m`: lines without a command, with an ignored
/// command (unless `dont_filter`), or without a timestamp or an id tag are skipped; the
/// others are normalized, their reply ids repaired, projected, and given a canonical id.
pub open spec fn backfill_spec(m: MessageView, dont_filter: bool, fresh: Seq<char>, now: i64) -> Result<
    BackfillView,
    IdError,
> {
    if m.command.len() == 0 {
        Ok(BackfillView::Skipped(SkipReason::NoCommand))
    } else if !dont_filter && ignored_command(m.command) {
        Ok(BackfillView::Skipped(SkipReason::Ignored))
    } else if !has_key(m.tags, "tmi-sent-ts"@) {
        Ok(BackfillView::Skipped(SkipReason::NoTimestamp))
    } else if !has_key(m.tags, "id"@) {
        Ok(BackfillView::Skipped(SkipReason::NoId))
    } else {
        let c = compressed(m);
        match repaired_tags(c.tags) {
            Err(e) => Err(e),
            Ok(tags) => {
                let rec = projection(MessageView { tags, ..c }, fresh, now);
                match repaired_id(rec.id) {
                    Err(e) => Err(e),
                    Ok(id) => Ok(BackfillView::Ready(RecordView { id, ..rec })),
                }
            },
        }
    }
}

fn has_tag(m: &Message, key: &str) -> (r: bool)
    ensures
        r == has_key(m@.tags, key@),
{
    let mut i: usize = 0;
    while i < m.tags.len()
        invariant
            i <= m.tags.len(),
            forall|j: int| 0 <= j < i ==> m@.tags[j].0 != key@,
        decreases m.tags.len() - i,
    {
        if str_eq(m.tags[i].0.as_str(), key) {
            assert(m@.tags[i as int].0 == key@);
            return true;
        }
        i = i + 1;
    }
    false
}

fn repair_tag(key: String, value: TagValue) -> (r: Result<(String, TagValue), IdError>)
    ensures
        match r {
            Ok(t) => repaired_tag((key@, value@)) == Ok::<(Seq<char>, TagValueView), IdError>((t.0@, t.1@)),
            Err(e) => repaired_tag((key@, value@)) == Err::<(Seq<char>, TagValueView), IdError>(e),
        },
{
    let k = key.as_str();
    if str_eq(k, "reply-parent-msg-id") || str_eq(k, "reply-thread-parent-msg-id") {
        let text = value.unescape();
        let cs = chars_of(text.as_str());
        if cs.len() != 36 {
            return match repair_id(text.as_str()) {
                Ok(s) => Ok((key, TagValue(TagText::Literal(s)))),
                Err(e) => Err(e),
            };
        }
    }
    Ok((key, value))
}

/// Repairs the reply ids of `m` in place; see `repaired_tags`.
fn repair_reply_ids(m: &mut Message) -> (r: Result<(), IdError>)
    ensures
        r is Ok ==> repaired_tags(old(m)@.tags) == Ok::<Seq<(Seq<char>, TagValueView)>, IdError>(final(m)@.tags),
        r matches Err(e) ==> repaired_tags(old(m)@.tags) == Err::<Seq<(Seq<char>, TagValueView)>, IdError>(e),
        final(m)@.prefix == old(m)@.prefix,
        final(m)@.command == old(m)@.command,
        final(m)@.params == old(m)@.params,
{
    let ghost src = m@.tags;
    let mut old_tags: Vec<(String, TagValue)> = Vec::new();
    core::mem::swap(&mut m.tags, &mut old_tags);
    assert(tag_views(old_tags@) == src);
    assert(tag_views(m.tags@) =~= Seq::<(Seq<char>, TagValueView)>::empty());
    assert(src.subrange(0, 0) =~= Seq::<(Seq<char>, TagValueView)>::empty());
    for t in it: old_tags.into_iter()
        invariant
            src == tag_views(it.seq()),
            src == old(m)@.tags,
            repaired_tags(src.subrange(0, it.index() as int)) == Ok::<Seq<(Seq<char>, TagValueView)>, IdError>(tag_views(m.tags@)),
            m@.prefix == old(m)@.prefix,
            m@.command == old(m)@.command,
            m@.params == old(m)@.params,
    {
        let ghost i = it.index() as int;
        let ghost before = m.tags@;
        proof {
            let sub = src.subrange(0, i + 1);
            assert(sub.drop_last() =~= src.subrange(0, i));
            assert(sub.last() == (t.0@, t.1@));
        }
        let (key, value) = t;
        match repair_tag(key, value) {
            Ok(fixed) => {
                m.tags.push(fixed);
                assert(tag_views(m.tags@) =~= tag_views(before).push((m.tags@.last().0@, m.tags@.last().1@)));
            },
            Err(e) => {
                proof {
                    assert(repaired_tags(src.subrange(0, i + 1)) == Err::<
                        Seq<(Seq<char>, TagValueView)>,
                        IdError,
                    >(e));
                    lemma_repaired_tags_err(src, i + 1);
                }
                return Err(e);
            },
        }
    }
    assert(src.subrange(0, src.len() as int) =~= src);
    Ok(())
}

proof fn lemma_repaired_tags_err(tags: Seq<(Seq<char>, TagValueView)>, n: int)
    requires
        0 < n <= tags.len(),
        repaired_tags(tags.subrange(0, n)) is Err,
    ensures
        repaired_tags(tags) == repaired_tags(tags.subrange(0, n)),
    decreases tags.len() - n,
{
    if n < tags.len() {
        assert(tags.subrange(0, n + 1).drop_last() =~= tags.subrange(0, n));
        lemma_repaired_tags_err(tags, n + 1);
    } else {
        assert(tags.subrange(0, n) =~= tags);
    }
}

/// What becomes of the archived message `message`, with `fresh_id` and `now_ms` standing in
/// for a missing id or timestamp; see `backfill_spec`.
pub fn backfill_with(message: Message, dont_filter: bool, fresh_id: String, now_ms: i64) -> (r: Result<Backfill, IdError>)
    ensures
        backfill_view(r) == backfill_spec(message@, dont_filter, fresh_id@, now_ms),
{
    let mut message = message;
    let ghost m = message@;
    let cs = chars_of(message.command.as_str());
    if cs.len() == 0 {
        return Ok(Backfill::Skipped(SkipReason::NoCommand));
    }
    if !dont_filter && is_ignored(message.command.as_str()) {
        return Ok(Backfill::Skipped(SkipReason::Ignored));
    }
    if !has_tag(&message, "tmi-sent-ts") {
        return Ok(Backfill::Skipped(SkipReason::NoTimestamp));
    }
    if !has_tag(&message, "id") {
        return Ok(Backfill::Skipped(SkipReason::NoId));
    }
    compress(&mut message);
    let ghost c = message@;
    match repair_reply_ids(&mut message) {
        Err(e) => return Err(e),
        Ok(()) => {},
    }
    assert(message@ == MessageView { tags: message@.tags, ..c });
    let mut rec = project(&message, fresh_id, now_ms);
    match repair_id(rec.id.as_str()) {
        Err(e) => Err(e),
        Ok(id) => {
            rec.id = id;
            Ok(Backfill::Ready(rec))
        },
    }
}

/// What becomes of the archived message `message`; see `backfill_spec`. A fresh random id
/// and the time now stand in for what the message lacks.
pub fn backfill(message: Message, dont_filter: bool) -> (r: Result<Backfill, IdError>)
    ensures
        exists|fresh: Seq<char>, now: i64| backfill_view(r) == backfill_spec(message@, dont_filter, fresh, now),
{
    let ghost m = message@;
    let id = fresh_id();
    let now = now_millis();
    let ghost f = id@;
    let r = backfill_with(message, dont_filter, id, now);
    assert(backfill_view(r) == backfill_spec(m, dont_filter, f, now));
    r
}

} // verus!
