//! The normalizer: drops what a logged message does not need.
//!
//! It applies to every command, not only to chat messages: the rules below only remove
//! data that is redundant or carries no information, whatever the command.
use crate::irc::{
    prefix_view, tag_views, Message, MessageView, Prefix, PrefixView, TagText, TagValue,
    TagValueView,
};
use crate::ids::{base64_url_encoded, compact_id, hyphenated, id_key, is_canonical_id};
use crate::text::{chars_of, str_eq};
use vstd::prelude::*;

verus! {

/// The host suffix of the chat service's own users.
pub const SERVICE_HOST_SUFFIX: &'static str = ".tmi.twitch.tv";

pub open spec fn ends_with(s: Seq<char>, suffix: Seq<char>) -> bool {
    s.len() >= suffix.len() && s.subrange(s.len() - suffix.len(), s.len() as int) == suffix
}

/// Tags that are dropped whatever they hold: the client nonce, the emote positions (the
/// emote text is in the message itself) and the room id (the channel names the room).
pub open spec fn low_value_key(k: Seq<char>) -> bool {
    k == "client-nonce"@ || k == "emotes"@ || k == "room-id"@
}

/// The nick of a prefix; empty without one.
pub open spec fn prefix_nick(p: Option<PrefixView>) -> Seq<char> {
    match p {
        Some(p) => p.nick,
        None => Seq::empty(),
    }
}

/// Whether the normalizer keeps tag `t` of a message from `nick`.
pub open spec fn keeps_tag(t: (Seq<char>, TagValueView), nick: Seq<char>) -> bool {
    &&& !low_value_key(t.0)
    &&& !(t.0 == "display-name"@ && t.1.meaning() == nick)
    &&& t.1.meaning() != Seq::<char>::empty()
    &&& t.1.meaning() != "0"@
}

/// A prefix from the service's own hosts keeps only its nick.
pub open spec fn compressed_prefix(p: Option<PrefixView>) -> Option<PrefixView> {
    match p {
        Some(v) => match v.host {
            Some(h) => if ends_with(h, SERVICE_HOST_SUFFIX@) {
                Some(PrefixView { nick: v.nick, user: None, host: None })
            } else {
                p
            },
            None => p,
        },
        None => p,
    }
}

/// What the normalizer makes of `m`.
pub open spec fn compressed(m: MessageView) -> MessageView {
    MessageView {
        tags: m.tags.filter(|t: (Seq<char>, TagValueView)| keeps_tag(t, prefix_nick(m.prefix))),
        prefix: compressed_prefix(m.prefix),
        command: m.command,
        params: m.params,
    }
}

/// Whether `s` ends with `suffix`.
pub fn str_ends_with(s: &str, suffix: &str) -> (r: bool)
    ensures
        r == ends_with(s@, suffix@),
{
    let a = chars_of(s);
    let b = chars_of(suffix);
    if a.len() < b.len() {
        return false;
    }
    let off = a.len() - b.len();
    let mut i: usize = 0;
    while i < b.len()
        invariant
            a@ == s@,
            b@ == suffix@,
            off + b.len() == a.len(),
            i <= b.len(),
            forall|j: int| 0 <= j < i ==> a@[off + j] == b@[j],
        decreases b.len() - i,
    {
        if a[off + i] != b[i] {
            assert(s@.subrange(off as int, s@.len() as int)[i as int] != suffix@[i as int]);
            return false;
        }
        i = i + 1;
    }
    assert(s@.subrange(off as int, s@.len() as int) =~= suffix@);
    true
}

fn keep_tag(key: &String, value: &TagValue, nick: &str) -> (r: bool)
    ensures
        r == keeps_tag((key@, value@), nick@),
{
    let k = key.as_str();
    if str_eq(k, "client-nonce") || str_eq(k, "emotes") || str_eq(k, "room-id") {
        return false;
    }
    let meaning = value.unescape();
    if str_eq(k, "display-name") && str_eq(meaning.as_str(), nick) {
        return false;
    }
    proof {
        reveal_strlit("");
        assert(""@ =~= Seq::<char>::empty());
    }
    !(str_eq(meaning.as_str(), "") || str_eq(meaning.as_str(), "0"))
}

/// Normalizes `msg` in place: clears user and host of the service's own hosts, and drops
/// the tags that add nothing (see `keeps_tag`), keeping the order of the rest.
pub fn compress(msg: &mut Message)
    ensures
        final(msg)@ == compressed(old(msg)@),
{
    let ghost m = msg@;
    let nick = match &msg.prefix {
        Some(p) => p.nick.clone(),
        None => String::new(),
    };
    let strip = match &msg.prefix {
        Some(p) => match &p.host {
            Some(h) => str_ends_with(h.as_str(), SERVICE_HOST_SUFFIX),
            None => false,
        },
        None => false,
    };
    if strip {
        msg.prefix = Some(Prefix { nick: nick.clone(), user: None, host: None });
    }
    assert(prefix_view(msg.prefix) == compressed_prefix(m.prefix));
    let mut old_tags: Vec<(String, TagValue)> = Vec::new();
    core::mem::swap(&mut msg.tags, &mut old_tags);
    let ghost pred = |t: (Seq<char>, TagValueView)| keeps_tag(t, prefix_nick(m.prefix));
    let ghost src = tag_views(old_tags@);
    assert(src == m.tags);
    for t in it: old_tags.into_iter()
        invariant
            src == tag_views(it.seq()),
            pred == (|t: (Seq<char>, TagValueView)| keeps_tag(t, prefix_nick(m.prefix))),
            nick@ == prefix_nick(m.prefix),
            tag_views(msg.tags@) == src.subrange(0, it.index() as int).filter(pred),
            prefix_view(msg.prefix) == compressed_prefix(m.prefix),
            msg.command@ == m.command,
            msg@.params == m.params,
    {
        let ghost i = it.index() as int;
        let ghost before = msg.tags@;
        let keep = keep_tag(&t.0, &t.1, nick.as_str());
        proof {
            let sub = src.subrange(0, i + 1);
            assert(sub.drop_last() =~= src.subrange(0, i));
            assert(sub.last() == (t.0@, t.1@));
            assert(pred(sub.last()) == keep);
            reveal(Seq::filter);
            assert(sub.filter(pred) == if keep {
                src.subrange(0, i).filter(pred).push(sub.last())
            } else {
                src.subrange(0, i).filter(pred)
            });
        }
        if keep {
            msg.tags.push(t);
            assert(tag_views(msg.tags@) =~= tag_views(before).push(src[i]));
        }
    }
    assert(src.subrange(0, src.len() as int) =~= src);
    assert(msg@ =~= compressed(m));
}

/// After normalization no tag means the empty text or `0`, no display name repeats the
/// nick, and user and host are cleared exactly where the host is one of the service's own.
pub proof fn lemma_normalized(m: MessageView)
    ensures
        forall|i: int|
            0 <= i < compressed(m).tags.len() ==> {
                let t = #[trigger] compressed(m).tags[i];
                &&& t.1.meaning() != Seq::<char>::empty()
                &&& t.1.meaning() != "0"@
                &&& !(t.0 == "display-name"@ && t.1.meaning() == prefix_nick(compressed(m).prefix))
            },
        m.prefix is None ==> compressed(m).prefix is None,
        m.prefix matches Some(p) ==> (compressed(m).prefix matches Some(q) && q.nick == p.nick
            && if p.host matches Some(h) && ends_with(h, SERVICE_HOST_SUFFIX@) {
            q.user is None && q.host is None
        } else {
            q == p
        }),
{
    let pred = |t: (Seq<char>, TagValueView)| keeps_tag(t, prefix_nick(m.prefix));
    assert(prefix_nick(compressed(m).prefix) == prefix_nick(m.prefix));
    assert forall|i: int| 0 <= i < compressed(m).tags.len() implies keeps_tag(
        #[trigger] compressed(m).tags[i],
        prefix_nick(m.prefix),
    ) by {
        m.tags.lemma_filter_pred(pred, i);
    }
}

/// What the optional id encoding makes of tag `t`: an id tag whose text is the canonical
/// form of bytes `b` becomes the literal compact form of `b`; every other tag stays.
pub open spec fn id_encoded(t: (Seq<char>, TagValueView)) -> (Seq<char>, TagValueView) {
    if id_key(t.0) && is_canonical_id(t.1.meaning()) {
        let b = choose|b: Seq<u8>| b.len() == 16 && #[trigger] hyphenated(b) == t.1.meaning();
        (t.0, TagValueView { literal: true, text: base64_url_encoded(b) })
    } else {
        t
    }
}

fn encode_id_tag(key: String, value: TagValue) -> (r: (String, TagValue))
    ensures
        (r.0@, r.1@) == id_encoded((key@, value@)),
{
    let k = key.as_str();
    if str_eq(k, "id") || str_eq(k, "reply-parent-msg-id") || str_eq(k, "reply-thread-parent-msg-id") {
        let text = value.unescape();
        match compact_id(text.as_str()) {
            Some(e) => {
                proof {
                    let b = choose|b: Seq<u8>| b.len() == 16 && #[trigger] hyphenated(b) == text@;
                }
                return (key, TagValue(TagText::Literal(e)));
            },
            None => {},
        }
    }
    (key, value)
}

/// The optional normalization step of the offline path: ids in canonical form (in the `id`
/// tag and the two reply id tags) are stored in their compact form, as literal values that
/// are written unescaped. Everything else stays as it is.
pub fn encode_ids(msg: &mut Message)
    ensures
        final(msg)@.prefix == old(msg)@.prefix,
        final(msg)@.command == old(msg)@.command,
        final(msg)@.params == old(msg)@.params,
        final(msg)@.tags.len() == old(msg)@.tags.len(),
        final(msg)@.tags == old(msg)@.tags.map_values(
            |t: (Seq<char>, TagValueView)| id_encoded(t),
        ),
{
    let ghost src = msg@.tags;
    let mut old_tags: Vec<(String, TagValue)> = Vec::new();
    core::mem::swap(&mut msg.tags, &mut old_tags);
    assert(tag_views(old_tags@) == src);
    for t in it: old_tags.into_iter()
        invariant
            src == tag_views(it.seq()),
            src == old(msg)@.tags,
            tag_views(msg.tags@) == src.subrange(0, it.index() as int).map_values(
                |t: (Seq<char>, TagValueView)| id_encoded(t),
            ),
            msg@.prefix == old(msg)@.prefix,
            msg@.command == old(msg)@.command,
            msg@.params == old(msg)@.params,
    {
        let ghost i = it.index() as int;
        let ghost before = msg.tags@;
        assert(src[i] == (t.0@, t.1@));
        let (key, value) = t;
        let fixed = encode_id_tag(key, value);
        msg.tags.push(fixed);
        assert(tag_views(msg.tags@) =~= tag_views(before).push((msg.tags@.last().0@, msg.tags@.last().1@)));
        assert(src.subrange(0, i + 1) =~= src.subrange(0, i).push(src[i]));
        assert(tag_views(msg.tags@) =~= src.subrange(0, i + 1).map_values(
            |t: (Seq<char>, TagValueView)| id_encoded(t),
        ));
    }
    assert(src.subrange(0, src.len() as int) =~= src);
}

} // verus!
