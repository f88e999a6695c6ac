//! The line codec: tag values, prefixes and whole messages.
use crate::text::{
    chars_of, has_char, lemma_rsplit_once_at, lemma_rsplit_once_none, lemma_split_all_len,
    lemma_split_all_plain, opt_text, push_char, push_range, rfind_char, rsplit_once, split_all,
    split_ranges, string_of, split_once, find_char, lemma_split_once_at, lemma_split_once_none,
    lemma_split_once_len, push_str,
};
use crate::params::{param_items, ParamList};
use vstd::prelude::*;

verus! {

/// How a tag value is held.
#[derive(Debug)]
pub enum TagText {
    /// As it stood on the wire, still escaped.
    Raw(String),
    /// Already in final form; used as is.
    Literal(String),
}

/// The value of one tag.
#[derive(Debug)]
pub struct TagValue(pub TagText);

/// What a tag value holds: its text, and whether that text is already final.
pub struct TagValueView {
    pub literal: bool,
    pub text: Seq<char>,
}

impl View for TagValue {
    type V = TagValueView;

    open spec fn view(&self) -> TagValueView {
        match self.0 {
            TagText::Raw(s) => TagValueView { literal: false, text: s@ },
            TagText::Literal(s) => TagValueView { literal: true, text: s@ },
        }
    }
}

/// The character that the escape code `c` stands for.
pub open spec fn escape_code(c: char) -> char {
    if c == ':' {
        ';'
    } else if c == 's' {
        ' '
    } else if c == 'r' {
        '\r'
    } else if c == 'n' {
        '\n'
    } else {
        c
    }
}

/// Decodes the pieces that followed a backslash. A piece starts with an escape code, unless
/// `skip` holds; an empty piece stands for a backslash and leaves the next piece undecoded.
pub open spec fn decode_segments(segs: Seq<Seq<char>>, skip: bool) -> Seq<char>
    decreases segs.len(),
{
    if segs.len() == 0 {
        Seq::empty()
    } else if skip {
        segs[0] + decode_segments(segs.drop_first(), false)
    } else if segs[0].len() == 0 {
        seq!['\\'] + decode_segments(segs.drop_first(), true)
    } else {
        seq![escape_code(segs[0][0])] + segs[0].drop_first() + decode_segments(
            segs.drop_first(),
            false,
        )
    }
}

/// The text that the escaped wire text `raw` stands for.
pub open spec fn unescaped(raw: Seq<char>) -> Seq<char> {
    let segs = split_all(raw, '\\');
    segs[0] + decode_segments(segs.drop_first(), false)
}

impl TagValueView {
    /// The text that the value means: a literal as it is, a raw value unescaped.
    pub open spec fn meaning(self) -> Seq<char> {
        if self.literal {
            self.text
        } else {
            unescaped(self.text)
        }
    }
}

/// Text without a backslash is its own unescaped form.
pub proof fn lemma_unescape_plain(raw: Seq<char>)
    requires
        !has_char(raw, '\\'),
    ensures
        unescaped(raw) == raw,
{
    lemma_split_all_plain(raw, '\\');
    assert(split_all(raw, '\\').drop_first() =~= Seq::<Seq<char>>::empty());
    assert(unescaped(raw) =~= raw);
}

fn unescape_text(raw: &String) -> (r: String)
    ensures
        r@ == unescaped(raw@),
{
    let cs = chars_of(raw.as_str());
    let segs = split_ranges(&cs, 0, cs.len(), '\\');
    let ghost whole = cs@.subrange(0, cs@.len() as int);
    let ghost parts = split_all(whole, '\\');
    assert(whole =~= raw@);
    proof {
        lemma_split_all_len(whole, '\\');
    }
    let mut out = string_of(&cs, segs[0].0, segs[0].1);
    let mut skip = false;
    let mut k: usize = 1;
    while k < segs.len()
        invariant
            1 <= k <= segs.len(),
            segs.len() == parts.len(),
            parts == split_all(raw@, '\\'),
            forall|j: int|
                0 <= j < segs.len() ==> (#[trigger] segs@[j]).0 <= segs@[j].1 <= cs.len()
                    && cs@.subrange(segs@[j].0 as int, segs@[j].1 as int) == parts[j],
            out@ + decode_segments(parts.subrange(k as int, parts.len() as int), skip)
                == unescaped(raw@),
        decreases segs.len() - k,
    {
        let ghost rest = parts.subrange(k as int, parts.len() as int);
        assert(rest.drop_first() =~= parts.subrange(k + 1, parts.len() as int));
        assert(rest[0] == parts[k as int]);
        let (a, b) = segs[k];
        if skip {
            push_range(&mut out, &cs, a, b);
            skip = false;
        } else if a < b {
            let c = cs[a];
            let d = if c == ':' {
                ';'
            } else if c == 's' {
                ' '
            } else if c == 'r' {
                '\r'
            } else if c == 'n' {
                '\n'
            } else {
                c
            };
            push_char(&mut out, d);
            push_range(&mut out, &cs, a + 1, b);
            assert(cs@.subrange(a + 1, b as int) =~= parts[k as int].drop_first());
        } else {
            push_char(&mut out, '\\');
            skip = true;
        }
        k = k + 1;
    }
    assert(parts.subrange(k as int, parts.len() as int) =~= Seq::<Seq<char>>::empty());
    out
}

impl TagValue {
    /// The text this value means: a literal value as stored, a raw value with its escapes
    /// decoded.
    pub fn unescape(&self) -> (r: String)
        ensures
            r@ == self@.meaning(),
    {
        match &self.0 {
            TagText::Literal(s) => s.clone(),
            TagText::Raw(s) => unescape_text(s),
        }
    }
}


/// Where a message came from: `nick[!user][@host]`.
#[derive(Debug)]
pub struct Prefix {
    pub nick: String,
    pub user: Option<String>,
    pub host: Option<String>,
}

pub struct PrefixView {
    pub nick: Seq<char>,
    pub user: Option<Seq<char>>,
    pub host: Option<Seq<char>>,
}

impl View for Prefix {
    type V = PrefixView;

    open spec fn view(&self) -> PrefixView {
        PrefixView { nick: self.nick@, user: opt_text(self.user), host: opt_text(self.host) }
    }
}

/// The prefix that `raw` (without its leading colon) names: the host is what follows the
/// last `@`, the user what follows the last `!` before that, and the nick the rest.
pub open spec fn parse_prefix(raw: Seq<char>) -> PrefixView {
    let (rest, host) = match rsplit_once(raw, '@') {
        Some(p) => (p.0, Some(p.1)),
        None => (raw, None),
    };
    let (nick, user) = match rsplit_once(rest, '!') {
        Some(p) => (p.0, Some(p.1)),
        None => (rest, None),
    };
    PrefixView { nick, user, host }
}

/// Splits `cs[lo..hi]` at its last `c`: the end of what comes before, and the rest, if any.
fn pop_suffix(cs: &Vec<char>, lo: usize, hi: usize, c: char) -> (r: (usize, Option<String>))
    requires
        lo <= hi <= cs.len(),
    ensures
        lo <= r.0 <= hi,
        match rsplit_once(cs@.subrange(lo as int, hi as int), c) {
            Some(p) => p.0 == cs@.subrange(lo as int, r.0 as int) && opt_text(r.1) == Some(p.1),
            None => r.0 == hi && r.1 is None,
        },
{
    let i = rfind_char(cs, lo, hi, c);
    let ghost s = cs@.subrange(lo as int, hi as int);
    if i < hi {
        proof {
            lemma_rsplit_once_at(s, c, i - lo);
            assert(s.subrange(0, i - lo) =~= cs@.subrange(lo as int, i as int));
            assert(s.subrange(i - lo + 1, s.len() as int) =~= cs@.subrange(i + 1, hi as int));
        }
        (i, Some(string_of(cs, i + 1, hi)))
    } else {
        proof {
            lemma_rsplit_once_none(s, c);
        }
        (hi, None)
    }
}

fn prefix_of(cs: &Vec<char>, lo: usize, hi: usize) -> (r: Prefix)
    requires
        lo <= hi <= cs.len(),
    ensures
        r@ == parse_prefix(cs@.subrange(lo as int, hi as int)),
{
    let (mid, host) = pop_suffix(cs, lo, hi, '@');
    let (end, user) = pop_suffix(cs, lo, mid, '!');
    let nick = string_of(cs, lo, end);
    proof {
        let s = cs@.subrange(lo as int, hi as int);
        if rsplit_once(s, '@') is None {
            assert(cs@.subrange(lo as int, mid as int) =~= s);
        }
    }
    Prefix { nick, user, host }
}

impl Prefix {
    /// Reads `nick[!user][@host]`, from the right.
    pub fn parse(raw: &str) -> (r: Prefix)
        ensures
            r@ == parse_prefix(raw@),
    {
        let cs = chars_of(raw);
        assert(cs@.subrange(0, cs.len() as int) =~= raw@);
        prefix_of(&cs, 0, cs.len())
    }
}

/// One protocol line, taken apart.
#[derive(Debug)]
pub struct Message {
    pub tags: Vec<(String, TagValue)>,
    pub prefix: Option<Prefix>,
    pub command: String,
    pub params: ParamList,
}

pub struct MessageView {
    pub tags: Seq<(Seq<char>, TagValueView)>,
    pub prefix: Option<PrefixView>,
    pub command: Seq<char>,
    pub params: Seq<Seq<char>>,
}

pub open spec fn tag_views(tags: Seq<(String, TagValue)>) -> Seq<(Seq<char>, TagValueView)> {
    tags.map_values(|t: (String, TagValue)| (t.0@, t.1@))
}

pub open spec fn prefix_view(p: Option<Prefix>) -> Option<PrefixView> {
    match p {
        Some(p) => Some(p@),
        None => None,
    }
}

impl View for Message {
    type V = MessageView;

    open spec fn view(&self) -> MessageView {
        MessageView {
            tags: tag_views(self.tags@),
            prefix: prefix_view(self.prefix),
            command: self.command@,
            params: param_items(self.params),
        }
    }
}

/// The raw value of `text`, as read from the wire.
pub open spec fn raw(text: Seq<char>) -> TagValueView {
    TagValueView { literal: false, text }
}

/// The first word of `s` and what follows the space after it; without a space, the whole of
/// `s` and nothing.
pub open spec fn pop_word(s: Seq<char>) -> (Seq<char>, Seq<char>) {
    match split_once(s, ' ') {
        Some(p) => p,
        None => (s, Seq::empty()),
    }
}

/// One `key=value` entry of the tag blob; without `=` the value is empty.
pub open spec fn parse_tag(kv: Seq<char>) -> (Seq<char>, TagValueView) {
    match split_once(kv, '=') {
        Some(p) => (p.0, raw(p.1)),
        None => (kv, raw(Seq::empty())),
    }
}

/// The tags of a blob (without its `@`), in order.
pub open spec fn parse_tags(blob: Seq<char>) -> Seq<(Seq<char>, TagValueView)> {
    split_all(blob, ';').map_values(|kv: Seq<char>| parse_tag(kv))
}

/// The parameters that follow the command: words, until a word starts with `:`, which takes
/// the rest of the line.
pub open spec fn parse_params(s: Seq<char>) -> Seq<Seq<char>>
    decreases s.len(),
{
    if s.len() == 0 {
        Seq::empty()
    } else if s[0] == ':' {
        seq![s.drop_first()]
    } else {
        proof {
            lemma_split_once_len(s, ' ');
        }
        seq![pop_word(s).0] + parse_params(pop_word(s).1)
    }
}

/// The message that `line` holds.
pub open spec fn parse_message(line: Seq<char>) -> MessageView {
    let (first, rest1) = pop_word(line);
    let has_tags = first.len() > 0 && first[0] == '@';
    let tags = if has_tags {
        parse_tags(first.drop_first())
    } else {
        Seq::empty()
    };
    let (part, rest2) = if has_tags {
        pop_word(rest1)
    } else {
        (first, rest1)
    };
    let has_prefix = part.len() > 0 && part[0] == ':';
    let prefix = if has_prefix {
        Some(parse_prefix(part.drop_first()))
    } else {
        None
    };
    let (command, rest3) = if has_prefix {
        pop_word(rest2)
    } else {
        (part, rest2)
    };
    MessageView { tags, prefix, command, params: parse_params(rest3) }
}

/// Finds the first word of `cs[lo..hi]`: where it ends, and where the rest starts.
fn pop_word_at(cs: &Vec<char>, lo: usize, hi: usize) -> (r: (usize, usize))
    requires
        lo <= hi <= cs.len(),
    ensures
        lo <= r.0 <= r.1 <= hi,
        lo < hi ==> lo < r.1,
        pop_word(cs@.subrange(lo as int, hi as int)) == (
            cs@.subrange(lo as int, r.0 as int),
            cs@.subrange(r.1 as int, hi as int),
        ),
{
    let i = find_char(cs, lo, hi, ' ');
    let ghost s = cs@.subrange(lo as int, hi as int);
    if i < hi {
        proof {
            lemma_split_once_at(s, ' ', i - lo);
            assert(s.subrange(0, i - lo) =~= cs@.subrange(lo as int, i as int));
            assert(s.subrange(i - lo + 1, s.len() as int) =~= cs@.subrange(i + 1, hi as int));
        }
        (i, i + 1)
    } else {
        proof {
            lemma_split_once_none(s, ' ');
            assert(cs@.subrange(hi as int, hi as int) =~= Seq::<char>::empty());
        }
        (hi, hi)
    }
}

fn tags_of(cs: &Vec<char>, lo: usize, hi: usize) -> (r: Vec<(String, TagValue)>)
    requires
        lo <= hi <= cs.len(),
    ensures
        tag_views(r@) == parse_tags(cs@.subrange(lo as int, hi as int)),
{
    let ranges = split_ranges(cs, lo, hi, ';');
    let ghost parts = split_all(cs@.subrange(lo as int, hi as int), ';');
    let mut r: Vec<(String, TagValue)> = Vec::new();
    let mut k: usize = 0;
    while k < ranges.len()
        invariant
            k <= ranges.len() == parts.len(),
            forall|j: int|
                0 <= j < ranges.len() ==> lo <= (#[trigger] ranges@[j]).0 <= ranges@[j].1 <= hi
                    && cs@.subrange(ranges@[j].0 as int, ranges@[j].1 as int) == parts[j],
            tag_views(r@) == parts.subrange(0, k as int).map_values(
                |kv: Seq<char>| parse_tag(kv),
            ),
            lo <= hi <= cs.len(),
        decreases ranges.len() - k,
    {
        let (a, b) = ranges[k];
        let j = find_char(cs, a, b, '=');
        let key = string_of(cs, a, j);
        let value = if j < b {
            string_of(cs, j + 1, b)
        } else {
            String::new()
        };
        proof {
            let s = cs@.subrange(a as int, b as int);
            if j < b {
                lemma_split_once_at(s, '=', j - a);
                assert(s.subrange(0, j - a) =~= cs@.subrange(a as int, j as int));
                assert(s.subrange(j - a + 1, s.len() as int) =~= cs@.subrange(j + 1, b as int));
            } else {
                lemma_split_once_none(s, '=');
                assert(cs@.subrange(a as int, j as int) =~= s);
            }
        }
        let ghost entry = (key@, raw(value@));
        assert(parse_tag(parts[k as int]) == entry);
        let ghost before = r@;
        r.push((key, TagValue(TagText::Raw(value))));
        assert(tag_views(r@) =~= tag_views(before).push(entry));
        assert(parts.subrange(0, k + 1) =~= parts.subrange(0, k as int).push(parts[k as int]));
        assert(tag_views(r@) =~= parts.subrange(0, k + 1).map_values(
            |kv: Seq<char>| parse_tag(kv),
        ));
        k = k + 1;
    }
    assert(parts.subrange(0, k as int) =~= parts);
    r
}

fn params_of(cs: &Vec<char>, lo: usize, hi: usize) -> (r: ParamList)
    requires
        lo <= hi <= cs.len(),
    ensures
        param_items(r) == parse_params(cs@.subrange(lo as int, hi as int)),
{
    let mut r = ParamList::new();
    let mut pos = lo;
    while pos < hi
        invariant
            lo <= pos <= hi <= cs.len(),
            param_items(r) + parse_params(cs@.subrange(pos as int, hi as int)) == parse_params(
                cs@.subrange(lo as int, hi as int),
            ),
        decreases hi - pos,
    {
        let ghost s = cs@.subrange(pos as int, hi as int);
        if cs[pos] == ':' {
            let last = string_of(cs, pos + 1, hi);
            assert(s.drop_first() =~= cs@.subrange(pos + 1, hi as int));
            r.push(last);
            assert(param_items(r) =~= parse_params(cs@.subrange(lo as int, hi as int)));
            return r;
        }
        let (end, next) = pop_word_at(cs, pos, hi);
        let word = string_of(cs, pos, end);
        r.push(word);
        assert(param_items(r) + parse_params(cs@.subrange(next as int, hi as int)) =~= parse_params(
            cs@.subrange(lo as int, hi as int),
        ));
        pos = next;
    }
    assert(parse_params(cs@.subrange(pos as int, hi as int)) =~= Seq::<Seq<char>>::empty());
    assert(param_items(r) =~= parse_params(cs@.subrange(lo as int, hi as int)));
    r
}

impl Message {
    /// Takes one protocol line apart. A line without a command gets an empty one: the codec
    /// rejects nothing, and callers skip what they cannot use.
    pub fn parse(line: &str) -> (r: Message)
        ensures
            r@ == parse_message(line@),
    {
        let cs = chars_of(line);
        let n = cs.len();
        assert(cs@.subrange(0, n as int) =~= line@);
        let (first_end, next1) = pop_word_at(&cs, 0, n);
        let has_tags = first_end > 0 && cs[0] == '@';
        let tags = if has_tags {
            let t = tags_of(&cs, 1, first_end);
            assert(cs@.subrange(0, first_end as int).drop_first() =~= cs@.subrange(1, first_end as int));
            t
        } else {
            Vec::new()
        };
        let (part_lo, part_end, next2) = if has_tags {
            let (e, nx) = pop_word_at(&cs, next1, n);
            (next1, e, nx)
        } else {
            (0, first_end, next1)
        };
        let has_prefix = part_end > part_lo && cs[part_lo] == ':';
        let prefix = if has_prefix {
            let p = prefix_of(&cs, part_lo + 1, part_end);
            assert(cs@.subrange(part_lo as int, part_end as int).drop_first() =~= cs@.subrange(
                part_lo + 1,
                part_end as int,
            ));
            Some(p)
        } else {
            None
        };
        let (cmd_lo, cmd_end, next3) = if has_prefix {
            let (e, nx) = pop_word_at(&cs, next2, n);
            (next2, e, nx)
        } else {
            (part_lo, part_end, next2)
        };
        let command = string_of(&cs, cmd_lo, cmd_end);
        let params = params_of(&cs, next3, n);
        let r = Message { tags, prefix, command, params };
        assert(tag_views(r.tags@) =~= parse_message(line@).tags);
        r
    }

    /// The parameter at `i`, if there is one.
    pub fn param(&self, i: usize) -> (r: Option<&String>)
        ensures
            i < self@.params.len() ==> (r matches Some(s) && s@ == self@.params[i as int]),
            i >= self@.params.len() ==> r is None,
    {
        if i < self.params.len() {
            Some(self.params.get(i))
        } else {
            None
        }
    }

    /// The number of parameters.
    pub fn param_count(&self) -> (r: usize)
        ensures
            r == self@.params.len(),
    {
        self.params.len()
    }
}

/// One tag as written: `key=value`, the value in the form it is stored in.
pub open spec fn tag_text(t: (Seq<char>, TagValueView)) -> Seq<char> {
    t.0 + seq!['='] + t.1.text
}

/// The tags as written, separated by `;`.
pub open spec fn tags_text(tags: Seq<(Seq<char>, TagValueView)>) -> Seq<char>
    decreases tags.len(),
{
    if tags.len() == 0 {
        Seq::empty()
    } else if tags.len() == 1 {
        tag_text(tags[0])
    } else {
        tags_text(tags.drop_last()) + seq![';'] + tag_text(tags.last())
    }
}

/// The leading tag blob with its space; nothing without tags.
pub open spec fn tag_blob(tags: Seq<(Seq<char>, TagValueView)>) -> Seq<char> {
    if tags.len() == 0 {
        Seq::empty()
    } else {
        seq!['@'] + tags_text(tags) + seq![' ']
    }
}

/// The prefix as written, `:nick[!user][@host] `; nothing without a prefix.
pub open spec fn prefix_text(p: Option<PrefixView>) -> Seq<char> {
    match p {
        None => Seq::empty(),
        Some(p) => {
            let user = match p.user {
                Some(u) => seq!['!'] + u,
                None => Seq::empty(),
            };
            let host = match p.host {
                Some(h) => seq!['@'] + h,
                None => Seq::empty(),
            };
            seq![':'] + p.nick + user + host + seq![' ']
        },
    }
}

/// Each parameter after a space.
pub open spec fn words_text(params: Seq<Seq<char>>) -> Seq<char>
    decreases params.len(),
{
    if params.len() == 0 {
        Seq::empty()
    } else {
        words_text(params.drop_last()) + seq![' '] + params.last()
    }
}

/// The last parameter as written: after ` :`, or after a bare space where it names a
/// channel (starts with `#`).
pub open spec fn last_param_text(p: Seq<char>) -> Seq<char> {
    if p.len() > 0 && p[0] == '#' {
        seq![' '] + p
    } else {
        seq![' ', ':'] + p
    }
}

/// The parameters as written after the command.
pub open spec fn params_text(params: Seq<Seq<char>>) -> Seq<char> {
    if params.len() == 0 {
        Seq::empty()
    } else {
        words_text(params.drop_last()) + last_param_text(params.last())
    }
}

/// The wire text of a message.
pub open spec fn wire(m: MessageView) -> Seq<char> {
    tag_blob(m.tags) + prefix_text(m.prefix) + m.command + params_text(m.params)
}

fn write_tags(tags: &Vec<(String, TagValue)>, out: &mut String)
    ensures
        final(out)@ == old(out)@ + tag_blob(tag_views(tags@)),
{
    let ghost ts = tag_views(tags@);
    let n = tags.len();
    if n == 0 {
        assert(out@ =~= old(out)@ + tag_blob(ts));
        return;
    }
    push_char(out, '@');
    let mut k: usize = 0;
    while k < n
        invariant
            n == tags.len(),
            ts == tag_views(tags@),
            0 < n,
            k <= n,
            k == 0 ==> out@ == old(out)@ + seq!['@'],
            k > 0 ==> out@ == old(out)@ + seq!['@'] + tags_text(ts.subrange(0, k as int)),
        decreases n - k,
    {
        if k > 0 {
            push_char(out, ';');
        }
        let (key, value) = &tags[k];
        push_str(out, key.as_str());
        push_char(out, '=');
        let text = match &value.0 {
            TagText::Raw(t) => t,
            TagText::Literal(t) => t,
        };
        push_str(out, text.as_str());
        proof {
            let sub = ts.subrange(0, k + 1);
            assert(sub.drop_last() =~= ts.subrange(0, k as int));
            assert(sub.last() == ts[k as int]);
            assert(out@ =~= old(out)@ + seq!['@'] + tags_text(sub));
        }
        k = k + 1;
    }
    push_char(out, ' ');
    assert(ts.subrange(0, n as int) =~= ts);
    assert(out@ =~= old(out)@ + tag_blob(ts));
}

fn write_prefix(prefix: &Option<Prefix>, out: &mut String)
    ensures
        final(out)@ == old(out)@ + prefix_text(prefix_view(*prefix)),
{
    match prefix {
        Some(p) => {
            push_char(out, ':');
            push_str(out, p.nick.as_str());
            match &p.user {
                Some(u) => {
                    push_char(out, '!');
                    push_str(out, u.as_str());
                },
                None => {},
            }
            match &p.host {
                Some(h) => {
                    push_char(out, '@');
                    push_str(out, h.as_str());
                },
                None => {},
            }
            push_char(out, ' ');
        },
        None => {},
    }
    assert(out@ =~= old(out)@ + prefix_text(prefix_view(*prefix)));
}

fn write_params(params: &ParamList, out: &mut String)
    ensures
        final(out)@ == old(out)@ + params_text(param_items(*params)),
{
    let ghost ps = param_items(*params);
    let count = params.len();
    if count == 0 {
        assert(out@ =~= old(out)@ + params_text(ps));
        return;
    }
    let mut k: usize = 0;
    while k + 1 < count
        invariant
            count == ps.len(),
            ps == param_items(*params),
            k + 1 <= count,
            out@ == old(out)@ + words_text(ps.subrange(0, k as int)),
        decreases count - k,
    {
        push_char(out, ' ');
        let p = params.get(k);
        push_str(out, p.as_str());
        proof {
            let sub = ps.subrange(0, k + 1);
            assert(sub.drop_last() =~= ps.subrange(0, k as int));
        }
        k = k + 1;
    }
    let last = params.get(count - 1);
    let lc = chars_of(last.as_str());
    if lc.len() > 0 && lc[0] == '#' {
        push_char(out, ' ');
    } else {
        push_char(out, ' ');
        push_char(out, ':');
    }
    push_str(out, last.as_str());
    assert(ps.drop_last() =~= ps.subrange(0, k as int));
    assert(out@ =~= old(out)@ + params_text(ps));
}

impl Message {
    /// Appends the wire text of this message to `out`. Tag values are written in the form
    /// they are stored in, never escaped again.
    pub fn write(&self, out: &mut String)
        ensures
            final(out)@ == old(out)@ + wire(self@),
    {
        write_tags(&self.tags, out);
        write_prefix(&self.prefix, out);
        push_str(out, self.command.as_str());
        write_params(&self.params, out);
        assert(out@ =~= old(out)@ + wire(self@));
    }
}

} // verus!
