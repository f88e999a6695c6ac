//! The structured record that a message is projected to.
use crate::ids::{fresh_id, is_canonical_id};
use crate::irc::{Message, MessageView, TagValueView};
use crate::normalize::{ends_with, str_ends_with};
use crate::number::{parse_i64, parse_int};
use crate::text::{
    opt_text, chars_of, find_char, lemma_split_once_at, lemma_split_once_none, split_all, split_once,
    split_ranges, str_eq, string_of,
};
use vstd::prelude::*;

verus! {

/// The value of one badge: a number where it reads as one, else its text.
#[derive(Debug)]
pub enum BadgeValue {
    Number(i64),
    Text(String),
}

pub enum BadgeView {
    Number(i64),
    Text(Seq<char>),
}

impl View for BadgeValue {
    type V = BadgeView;

    open spec fn view(&self) -> BadgeView {
        match self {
            BadgeValue::Number(n) => BadgeView::Number(*n),
            BadgeValue::Text(s) => BadgeView::Text(s@),
        }
    }
}

/// The typed value of a tag in a record.
#[derive(Debug)]
pub enum FieldValue {
    Flag(bool),
    Number(i64),
    Text(String),
    /// Badge names with their values, in the order given; a later entry of a name stands
    /// over an earlier one.
    Badges(Vec<(String, BadgeValue)>),
}

pub enum FieldView {
    Flag(bool),
    Number(i64),
    Text(Seq<char>),
    Badges(Seq<(Seq<char>, BadgeView)>),
}

pub open spec fn badge_views(b: Seq<(String, BadgeValue)>) -> Seq<(Seq<char>, BadgeView)> {
    b.map_values(|e: (String, BadgeValue)| (e.0@, e.1@))
}

impl View for FieldValue {
    type V = FieldView;

    open spec fn view(&self) -> FieldView {
        match self {
            FieldValue::Flag(b) => FieldView::Flag(*b),
            FieldValue::Number(n) => FieldView::Number(*n),
            FieldValue::Text(s) => FieldView::Text(s@),
            FieldValue::Badges(b) => FieldView::Badges(badge_views(b@)),
        }
    }
}

/// The value of one badge entry's text.
pub open spec fn badge_value(v: Seq<char>) -> BadgeView {
    match parse_i64(v) {
        Some(n) => BadgeView::Number(n),
        None => BadgeView::Text(v),
    }
}

/// One `name/value` badge entry; without `/` the value is empty.
pub open spec fn badge_entry(b: Seq<char>) -> (Seq<char>, BadgeView) {
    match split_once(b, '/') {
        Some(p) => (p.0, badge_value(p.1)),
        None => (b, badge_value(Seq::empty())),
    }
}

/// The entries of a comma-separated badge list.
pub open spec fn badges_of(v: Seq<char>) -> Seq<(Seq<char>, BadgeView)> {
    split_all(v, ',').map_values(|b: Seq<char>| badge_entry(b))
}

/// The typed value of the tag `k` with text `v`: keys ending in `-id` keep their text;
/// otherwise `1` is true, an integer is a number, and anything else stays text.
pub open spec fn field_of(k: Seq<char>, v: Seq<char>) -> FieldView {
    if ends_with(k, "-id"@) {
        FieldView::Text(v)
    } else if v == "1"@ {
        FieldView::Flag(true)
    } else {
        match parse_i64(v) {
            Some(n) => FieldView::Number(n),
            None => FieldView::Text(v),
        }
    }
}

/// The map that a list of entries gives, where a later entry for a key replaces an earlier.
pub open spec fn map_of<V>(entries: Seq<(Seq<char>, V)>) -> Map<Seq<char>, V>
    decreases entries.len(),
{
    if entries.len() == 0 {
        Map::empty()
    } else {
        map_of(entries.drop_last()).insert(entries.last().0, entries.last().1)
    }
}

pub open spec fn keys_unique<V>(entries: Seq<(Seq<char>, V)>) -> bool {
    forall|i: int, j: int|
        0 <= i < entries.len() && 0 <= j < entries.len() && i != j ==> entries[i].0
            != entries[j].0
}

pub open spec fn field_views(t: Seq<(String, FieldValue)>) -> Seq<(Seq<char>, FieldView)> {
    t.map_values(|e: (String, FieldValue)| (e.0@, e.1@))
}

/// What a walk over the tags has gathered.
pub struct TagWalk {
    pub fields: Map<Seq<char>, FieldView>,
    pub id: Option<Seq<char>>,
    pub timestamp: Option<Seq<char>>,
    pub display_name: Option<Seq<char>>,
    /// The text of the `system-msg` tag, which is also typed into the map.
    pub system_msg: Option<Seq<char>>,
    /// The text of the `msg-id` tag, which is also typed into the map.
    pub msg_id: Option<Seq<char>>,
}

/// Routes one tag: badge lists become nested entries; `id`, `tmi-sent-ts` and
/// `display-name` go to fields of their own; every other tag is typed into the map, and
/// the texts of `system-msg` and `msg-id` are kept as well.
pub open spec fn walk_step(w: TagWalk, t: (Seq<char>, TagValueView)) -> TagWalk {
    let k = t.0;
    let v = t.1.meaning();
    if k == "badges"@ || k == "badge-info"@ {
        TagWalk { fields: w.fields.insert(k, FieldView::Badges(badges_of(v))), ..w }
    } else if k == "id"@ {
        TagWalk { id: Some(v), ..w }
    } else if k == "tmi-sent-ts"@ {
        TagWalk { timestamp: Some(v), ..w }
    } else if k == "display-name"@ {
        TagWalk { display_name: Some(v), ..w }
    } else {
        TagWalk {
            fields: w.fields.insert(k, field_of(k, v)),
            system_msg: if k == "system-msg"@ {
                Some(v)
            } else {
                w.system_msg
            },
            msg_id: if k == "msg-id"@ {
                Some(v)
            } else {
                w.msg_id
            },
            ..w
        }
    }
}

/// The walk over all tags, in order: for a repeated key the last occurrence wins.
pub open spec fn walk_tags(tags: Seq<(Seq<char>, TagValueView)>) -> TagWalk
    decreases tags.len(),
{
    if tags.len() == 0 {
        TagWalk {
            fields: Map::empty(),
            id: None,
            timestamp: None,
            display_name: None,
            system_msg: None,
            msg_id: None,
        }
    } else {
        walk_step(walk_tags(tags.drop_last()), tags.last())
    }
}

fn badge_value_of(cs: &Vec<char>, lo: usize, hi: usize) -> (r: BadgeValue)
    requires
        lo <= hi <= cs.len(),
    ensures
        r@ == badge_value(cs@.subrange(lo as int, hi as int)),
{
    let text = string_of(cs, lo, hi);
    match parse_int(text.as_str()) {
        Some(n) => BadgeValue::Number(n),
        None => BadgeValue::Text(text),
    }
}

/// The badge entries of the list `v`.
pub fn parse_badges(v: &str) -> (r: Vec<(String, BadgeValue)>)
    ensures
        badge_views(r@) == badges_of(v@),
{
    let cs = chars_of(v);
    let n = cs.len();
    let ranges = split_ranges(&cs, 0, n, ',');
    let ghost parts = split_all(cs@.subrange(0, n as int), ',');
    assert(cs@.subrange(0, n as int) =~= v@);
    let mut r: Vec<(String, BadgeValue)> = Vec::new();
    let mut k: usize = 0;
    while k < ranges.len()
        invariant
            k <= ranges.len() == parts.len(),
            n == cs.len(),
            forall|j: int|
                0 <= j < ranges.len() ==> (#[trigger] ranges@[j]).0 <= ranges@[j].1 <= n
                    && cs@.subrange(ranges@[j].0 as int, ranges@[j].1 as int) == parts[j],
            badge_views(r@) == parts.subrange(0, k as int).map_values(
                |b: Seq<char>| badge_entry(b),
            ),
        decreases ranges.len() - k,
    {
        let (a, b) = ranges[k];
        let j = find_char(&cs, a, b, '/');
        let name = string_of(&cs, a, j);
        let value = if j < b {
            badge_value_of(&cs, j + 1, b)
        } else {
            badge_value_of(&cs, b, b)
        };
        proof {
            let s = cs@.subrange(a as int, b as int);
            if j < b {
                lemma_split_once_at(s, '/', j - a);
                assert(s.subrange(0, j - a) =~= cs@.subrange(a as int, j as int));
                assert(s.subrange(j - a + 1, s.len() as int) =~= cs@.subrange(j + 1, b as int));
            } else {
                lemma_split_once_none(s, '/');
                assert(cs@.subrange(a as int, j as int) =~= s);
                assert(cs@.subrange(b as int, b as int) =~= Seq::<char>::empty());
            }
        }
        let ghost entry = (name@, value@);
        assert(badge_entry(parts[k as int]) == entry);
        let ghost before = r@;
        r.push((name, value));
        assert(badge_views(r@) =~= badge_views(before).push(entry));
        assert(parts.subrange(0, k + 1) =~= parts.subrange(0, k as int).push(parts[k as int]));
        assert(badge_views(r@) =~= parts.subrange(0, k + 1).map_values(
            |b: Seq<char>| badge_entry(b),
        ));
        k = k + 1;
    }
    assert(parts.subrange(0, k as int) =~= parts);
    r
}

/// The typed value of tag `key` with text `value`; see `field_of`.
pub fn type_field(key: &str, value: String) -> (r: FieldValue)
    ensures
        r@ == field_of(key@, value@),
{
    if str_ends_with(key, "-id") {
        FieldValue::Text(value)
    } else if str_eq(value.as_str(), "1") {
        FieldValue::Flag(true)
    } else {
        match parse_int(value.as_str()) {
            Some(n) => FieldValue::Number(n),
            None => FieldValue::Text(value),
        }
    }
}

proof fn lemma_map_of_update<V>(s: Seq<(Seq<char>, V)>, j: int, v: V)
    requires
        keys_unique(s),
        0 <= j < s.len(),
    ensures
        map_of(s.update(j, (s[j].0, v))) == map_of(s).insert(s[j].0, v),
    decreases s.len(),
{
    let t = s.update(j, (s[j].0, v));
    if j == s.len() - 1 {
        assert(t.drop_last() =~= s.drop_last());
        assert(map_of(t) =~= map_of(s).insert(s[j].0, v));
    } else {
        assert(t.drop_last() =~= s.drop_last().update(j, (s[j].0, v)));
        assert(keys_unique(s.drop_last()));
        lemma_map_of_update(s.drop_last(), j, v);
        assert(s.last().0 != s[j].0);
        assert(map_of(t) =~= map_of(s).insert(s[j].0, v));
    }
}

/// Sets `key` to `value`, in place where the key is there already, else at the end.
fn insert_field(fields: &mut Vec<(String, FieldValue)>, key: String, value: FieldValue)
    requires
        keys_unique(field_views(old(fields)@)),
    ensures
        keys_unique(field_views(final(fields)@)),
        map_of(field_views(final(fields)@)) == map_of(field_views(old(fields)@)).insert(
            key@,
            value@,
        ),
{
    let ghost s = field_views(fields@);
    let mut j: usize = 0;
    while j < fields.len()
        invariant
            s == field_views(fields@),
            fields@ == old(fields)@,
            keys_unique(s),
            j <= fields.len(),
            forall|i: int| 0 <= i < j ==> s[i].0 != key@,
        decreases fields.len() - j,
    {
        if str_eq(fields[j].0.as_str(), key.as_str()) {
            let ghost kv = key@;
            let ghost vv = value@;
            fields.set(j, (key, value));
            proof {
                assert(field_views(fields@) =~= s.update(j as int, (s[j as int].0, vv)));
                lemma_map_of_update(s, j as int, vv);
                assert forall|i: int| 0 <= i < s.len() implies field_views(fields@)[i].0 == s[i].0 by {}
                assert(keys_unique(field_views(fields@)));
            }
            return;
        }
        j = j + 1;
    }
    let ghost entry = (key@, value@);
    fields.push((key, value));
    assert(field_views(fields@) =~= s.push(entry));
    assert(field_views(fields@).drop_last() =~= s);
}

/// What the tags of a message have given, once walked.
struct WalkResult {
    fields: Vec<(String, FieldValue)>,
    id: Option<String>,
    timestamp: Option<String>,
    display_name: Option<String>,
    system_msg: Option<String>,
    msg_id: Option<String>,
}

spec fn walk_matches(w: WalkResult, t: TagWalk) -> bool {
    &&& keys_unique(field_views(w.fields@))
    &&& map_of(field_views(w.fields@)) == t.fields
    &&& opt_text(w.id) == t.id
    &&& opt_text(w.timestamp) == t.timestamp
    &&& opt_text(w.display_name) == t.display_name
    &&& opt_text(w.system_msg) == t.system_msg
    &&& opt_text(w.msg_id) == t.msg_id
}

fn walk(message: &Message) -> (r: WalkResult)
    ensures
        walk_matches(r, walk_tags(message@.tags)),
{
    let ghost tags = message@.tags;
    let mut w = WalkResult {
        fields: Vec::new(),
        id: None,
        timestamp: None,
        display_name: None,
        system_msg: None,
        msg_id: None,
    };
    assert(map_of(field_views(w.fields@)) =~= Map::<Seq<char>, FieldView>::empty());
    assert(tags.subrange(0, 0) =~= Seq::<(Seq<char>, TagValueView)>::empty());
    let mut k: usize = 0;
    while k < message.tags.len()
        invariant
            tags == message@.tags,
            tags.len() == message.tags.len(),
            k <= message.tags.len(),
            walk_matches(w, walk_tags(tags.subrange(0, k as int))),
        decreases message.tags.len() - k,
    {
        let (key, value) = &message.tags[k];
        let text = value.unescape();
        let ghost prev = walk_tags(tags.subrange(0, k as int));
        proof {
            let sub = tags.subrange(0, k + 1);
            assert(sub.drop_last() =~= tags.subrange(0, k as int));
            assert(sub.last() == (key@, value@));
        }
        let name = key.as_str();
        if str_eq(name, "badges") || str_eq(name, "badge-info") {
            let badges = parse_badges(text.as_str());
            insert_field(&mut w.fields, key.clone(), FieldValue::Badges(badges));
        } else if str_eq(name, "id") {
            w.id = Some(text);
        } else if str_eq(name, "tmi-sent-ts") {
            w.timestamp = Some(text);
        } else if str_eq(name, "display-name") {
            w.display_name = Some(text);
        } else {
            if str_eq(name, "system-msg") {
                w.system_msg = Some(text.clone());
            }
            if str_eq(name, "msg-id") {
                w.msg_id = Some(text.clone());
            }
            let field = type_field(name, text);
            insert_field(&mut w.fields, key.clone(), field);
        }
        k = k + 1;
    }
    assert(tags.subrange(0, k as int) =~= tags);
    w
}

/// One projected message.
#[derive(Debug)]
pub struct Record {
    pub id: String,
    /// Milliseconds since the epoch.
    pub timestamp: i64,
    pub channel: Option<String>,
    pub name: Option<String>,
    pub message: Option<String>,
    /// The remaining tags, typed; each key once.
    pub tags: Vec<(String, FieldValue)>,
    pub irc_nick: Option<String>,
    pub irc_cmd: String,
    pub irc_extras: Vec<String>,
    pub commands_only: Option<bool>,
    pub commands_count: Option<u32>,
}

pub struct RecordView {
    pub id: Seq<char>,
    pub timestamp: i64,
    pub channel: Option<Seq<char>>,
    pub name: Option<Seq<char>>,
    pub message: Option<Seq<char>>,
    pub tags: Map<Seq<char>, FieldView>,
    pub irc_nick: Option<Seq<char>>,
    pub irc_cmd: Seq<char>,
    pub irc_extras: Seq<Seq<char>>,
    pub commands_only: Option<bool>,
    pub commands_count: Option<u32>,
}

impl View for Record {
    type V = RecordView;

    open spec fn view(&self) -> RecordView {
        RecordView {
            id: self.id@,
            timestamp: self.timestamp,
            channel: opt_text(self.channel),
            name: opt_text(self.name),
            message: opt_text(self.message),
            tags: map_of(field_views(self.tags@)),
            irc_nick: opt_text(self.irc_nick),
            irc_cmd: self.irc_cmd@,
            irc_extras: self.irc_extras@.map_values(|s: String| s@),
            commands_only: self.commands_only,
            commands_count: self.commands_count,
        }
    }
}

impl Record {
    /// Each tag key stands once in `tags`.
    pub open spec fn wf(&self) -> bool {
        keys_unique(field_views(self.tags@))
    }
}

/// The sizes of the command groups that the chat-command parser finds in a text, and
/// whether the text holds nothing but commands.
pub uninterp spec fn statement_of(text: Seq<char>) -> (Seq<usize>, bool);

/// Relies on `neca_cmd::Statement::parse`: what it finds depends on the text alone.
#[verifier::external_body]
fn classify(text: &str) -> (r: (Vec<usize>, bool))
    ensures
        (r.0@, r.1) == statement_of(text@),
{
    let statement = neca_cmd::Statement::parse(text);
    (statement.parallel.iter().map(|group| group.len()).collect(), statement.pure)
}

/// Relies on chrono's `Utc::now` and `timestamp_millis`: the time now, in milliseconds since
/// the epoch. Nothing is promised of the value.
#[verifier::external_body]
pub(crate) fn now_millis() -> (r: i64) {
    chrono::Utc::now().timestamp_millis()
}

pub open spec fn total(sizes: Seq<usize>) -> int
    decreases sizes.len(),
{
    if sizes.len() == 0 {
        0
    } else {
        total(sizes.drop_last()) + sizes.last()
    }
}

/// The command count and purity fields for command groups of the given sizes: nothing when
/// there are no commands; else the count (at most `u32::MAX`), and `true` where the text
/// held nothing but commands.
pub open spec fn command_fields_spec(groups: Seq<usize>, pure: bool) -> (Option<u32>, Option<bool>) {
    let t = total(groups);
    if t == 0 {
        (None, None)
    } else {
        (
            Some(
                if t > u32::MAX {
                    u32::MAX
                } else {
                    t as u32
                },
            ),
            if pure {
                Some(true)
            } else {
                None
            },
        )
    }
}

const COUNT_CAP: u64 = 4294967296;

/// The command count and purity fields; see `command_fields_spec`.
pub fn command_fields(groups: &Vec<usize>, pure: bool) -> (r: (Option<u32>, Option<bool>))
    ensures
        r == command_fields_spec(groups@, pure),
{
    let mut acc: u64 = 0;
    let mut k: usize = 0;
    while k < groups.len()
        invariant
            k <= groups.len(),
            acc <= COUNT_CAP,
            total(groups@.subrange(0, k as int)) >= 0,
            acc == if total(groups@.subrange(0, k as int)) > COUNT_CAP {
                COUNT_CAP as int
            } else {
                total(groups@.subrange(0, k as int))
            },
        decreases groups.len() - k,
    {
        assert(groups@.subrange(0, k + 1).drop_last() =~= groups@.subrange(0, k as int));
        let g = groups[k] as u64;
        if g >= COUNT_CAP - acc {
            acc = COUNT_CAP;
        } else {
            acc = acc + g;
        }
        k = k + 1;
    }
    assert(groups@.subrange(0, k as int) =~= groups@);
    if acc == 0 {
        (None, None)
    } else {
        let count: u32 = if acc > 4294967295 {
            4294967295
        } else {
            acc as u32
        };
        (Some(count), if pure { Some(true) } else { None })
    }
}

/// The record of message `m`, where `fresh_id` stands in for a missing `id` tag and `now`
/// for a missing or unreadable timestamp.
pub open spec fn projection(m: MessageView, fresh_id: Seq<char>, now: i64) -> RecordView {
    let w = walk_tags(m.tags);
    let irc_nick = match m.prefix {
        Some(p) => Some(p.nick),
        None => None,
    };
    let channel = if m.params.len() > 0 && m.params[0].len() > 0 && m.params[0][0] == '#' {
        Some(m.params[0].drop_first())
    } else {
        None
    };
    let message = if m.params.len() > 1 {
        Some(m.params[1])
    } else {
        match w.system_msg {
            Some(s) => Some(s),
            None => w.msg_id,
        }
    };
    let commands = if m.command == "PRIVMSG"@ && message is Some {
        command_fields_spec(statement_of(message->0).0, statement_of(message->0).1)
    } else {
        (None, None)
    };
    RecordView {
        id: match w.id {
            Some(v) => v,
            None => fresh_id,
        },
        timestamp: match w.timestamp {
            Some(t) => match parse_i64(t) {
                Some(n) => n,
                None => now,
            },
            None => now,
        },
        channel,
        name: match w.display_name {
            Some(d) => Some(d),
            None => irc_nick,
        },
        message,
        tags: w.fields,
        irc_nick,
        irc_cmd: m.command,
        irc_extras: if m.params.len() > 2 {
            m.params.subrange(2, m.params.len() as int)
        } else {
            Seq::empty()
        },
        commands_only: commands.1,
        commands_count: commands.0,
    }
}

fn channel_of(message: &Message) -> (r: Option<String>)
    ensures
        opt_text(r) == projection(message@, Seq::empty(), 0).channel,
{
    match message.param(0) {
        Some(p) => {
            let cs = chars_of(p.as_str());
            if cs.len() > 0 && cs[0] == '#' {
                let c = string_of(&cs, 1, cs.len());
                assert(c@ =~= message@.params[0].drop_first());
                Some(c)
            } else {
                None
            }
        },
        None => None,
    }
}

fn extras_of(message: &Message) -> (r: Vec<String>)
    ensures
        r@.map_values(|s: String| s@) == projection(message@, Seq::empty(), 0).irc_extras,
{
    let ghost ps = message@.params;
    let n = message.param_count();
    let mut r: Vec<String> = Vec::new();
    if n <= 2 {
        assert(r@.map_values(|s: String| s@) =~= Seq::<Seq<char>>::empty());
        return r;
    }
    let mut k: usize = 2;
    assert(r@.map_values(|s: String| s@) =~= ps.subrange(2, 2));
    while k < n
        invariant
            n == ps.len(),
            ps == message@.params,
            2 <= k <= n,
            r@.map_values(|s: String| s@) == ps.subrange(2, k as int),
        decreases n - k,
    {
        let p = message.param(k);
        if let Some(s) = p {
            let ghost before = r@;
            let c = s.clone();
            r.push(c);
            assert(r@ == before.push(c));
            assert(r@.map_values(|s: String| s@) =~= before.map_values(|s: String| s@).push(c@));
            assert(ps.subrange(2, k + 1) =~= ps.subrange(2, k as int).push(ps[k as int]));
        }
        k = k + 1;
    }
    r
}

fn message_text(message: &Message, system_msg: Option<String>, msg_id: Option<String>) -> (r: Option<String>)
    requires
        opt_text(system_msg) == walk_tags(message@.tags).system_msg,
        opt_text(msg_id) == walk_tags(message@.tags).msg_id,
    ensures
        opt_text(r) == projection(message@, Seq::empty(), 0).message,
{
    match message.param(1) {
        Some(p) => Some(p.clone()),
        None => match system_msg {
            Some(s) => Some(s),
            None => msg_id,
        },
    }
}

/// The record of `message`, with `fresh_id` for a missing `id` tag and `now_ms` for a
/// missing or unreadable timestamp; see `projection`.
pub fn project(message: &Message, fresh_id: String, now_ms: i64) -> (r: Record)
    ensures
        r@ == projection(message@, fresh_id@, now_ms),
        r.wf(),
{
    let ghost expected = projection(message@, fresh_id@, now_ms);
    let w = walk(message);
    let timestamp = match &w.timestamp {
        Some(t) => match parse_int(t.as_str()) {
            Some(n) => n,
            None => now_ms,
        },
        None => now_ms,
    };
    let id = match w.id {
        Some(v) => v,
        None => fresh_id,
    };
    let irc_nick = match &message.prefix {
        Some(p) => Some(p.nick.clone()),
        None => None,
    };
    let name = match w.display_name {
        Some(d) => Some(d),
        None => match &message.prefix {
            Some(p) => Some(p.nick.clone()),
            None => None,
        },
    };
    let channel = channel_of(message);
    let text = message_text(message, w.system_msg, w.msg_id);
    let (commands_count, commands_only) = match &text {
        Some(t) => if str_eq(message.command.as_str(), "PRIVMSG") {
            let (groups, pure) = classify(t.as_str());
            command_fields(&groups, pure)
        } else {
            (None, None)
        },
        None => (None, None),
    };
    let irc_extras = extras_of(message);
    let r = Record {
        id,
        timestamp,
        channel,
        name,
        message: text,
        tags: w.fields,
        irc_nick,
        irc_cmd: message.command.clone(),
        irc_extras,
        commands_only,
        commands_count,
    };
    assert(r@.irc_extras == expected.irc_extras);
    assert(r@ =~= expected);
    r
}

/// The record of `message`. A missing `id` tag is replaced by a fresh random id, and a
/// missing or unreadable `tmi-sent-ts` tag by the time now; everything else is as
/// `projection` gives it.
pub fn to_json(message: &Message) -> (r: Record)
    ensures
        r@ == projection(message@, r@.id, r@.timestamp),
        r.wf(),
        walk_tags(message@.tags).id is None ==> is_canonical_id(r@.id) && r@.id.len() > 0,
{
    let id = fresh_id();
    let now = now_millis();
    let r = project(message, id, now);
    proof {
        if walk_tags(message@.tags).id is None {
            let b = choose|b: Seq<u8>| b.len() == 16 && #[trigger] crate::ids::hyphenated(b) == r@.id;
            assert(crate::ids::hyphenated(b).len() > 0);
        }
    }
    r
}

/// Whether `k` is routed to a field of its own rather than to the tag map.
pub open spec fn routed_key(k: Seq<char>) -> bool {
    k == "id"@ || k == "tmi-sent-ts"@ || k == "display-name"@
}

/// Of repeated tags the last wins: where the tag at `i` is the last with its key, the map
/// holds that tag's typed value.
pub proof fn lemma_last_tag_wins(tags: Seq<(Seq<char>, TagValueView)>, i: int)
    requires
        0 <= i < tags.len(),
        forall|j: int| i < j < tags.len() ==> tags[j].0 != tags[i].0,
        !routed_key(tags[i].0),
        tags[i].0 != "badges"@,
        tags[i].0 != "badge-info"@,
    ensures
        walk_tags(tags).fields.contains_key(tags[i].0),
        walk_tags(tags).fields[tags[i].0] == field_of(tags[i].0, tags[i].1.meaning()),
    decreases tags.len(),
{
    if i < tags.len() - 1 {
        let init = tags.drop_last();
        assert forall|j: int| i < j < init.len() implies init[j].0 != init[i].0 by {
            assert(init[j] == tags[j]);
        }
        lemma_last_tag_wins(init, i);
        assert(tags.last().0 != tags[i].0);
    }
}

} // verus!
