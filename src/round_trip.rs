//! Writing a well-formed message and reading it back gives the same message.
use crate::irc::{
    params_text, parse_message, parse_params, parse_prefix, parse_tag,
    parse_tags, pop_word, prefix_text, tag_blob, tag_text, tags_text, wire, words_text,
    MessageView, PrefixView, TagValueView,
};
use crate::text::{
    has_char, lemma_rsplit_once_at, lemma_rsplit_once_none, lemma_split_all_len,
    lemma_split_all_plain, lemma_split_once_at, lemma_split_once_len, lemma_split_once_none,
    rsplit_once, split_all, split_once,
};
use vstd::prelude::*;

verus! {

pub open spec fn free_of(s: Seq<char>, c: char) -> bool {
    !has_char(s, c)
}

/// A tag that reads back as written: a raw value, no space or `;` anywhere, no `=` in the
/// key.
pub open spec fn wf_tag(t: (Seq<char>, TagValueView)) -> bool {
    &&& !t.1.literal
    &&& free_of(t.0, ' ') && free_of(t.0, ';') && free_of(t.0, '=')
    &&& free_of(t.1.text, ' ') && free_of(t.1.text, ';')
}

/// A prefix that reads back as written: no spaces; the host, if any, holds no `@` (else
/// neither nick nor user does); the user, if any, holds no `!` (else the nick does not).
pub open spec fn wf_prefix(p: PrefixView) -> bool {
    &&& free_of(p.nick, ' ')
    &&& (p.user matches Some(u) ==> free_of(u, ' ') && free_of(u, '!'))
    &&& (p.user is None ==> free_of(p.nick, '!'))
    &&& (p.host matches Some(h) ==> free_of(h, ' ') && free_of(h, '@'))
    &&& (p.host is None ==> free_of(p.nick, '@') && (p.user matches Some(u) ==> free_of(u, '@')))
}

/// Parameters that read back as written: each but the last is a word that does not start
/// with `:`; the last has no space where it starts with `#`.
pub open spec fn wf_params(ps: Seq<Seq<char>>) -> bool {
    &&& forall|i: int|
        0 <= i < ps.len() - 1 ==> free_of(#[trigger] ps[i], ' ') && !(ps[i].len() > 0 && ps[i][0]
            == ':')
    &&& ps.len() > 0 && ps.last().len() > 0 && ps.last()[0] == '#' ==> free_of(ps.last(), ' ')
}

/// A message that reads back as written.
pub open spec fn wf_message(m: MessageView) -> bool {
    &&& forall|i: int| 0 <= i < m.tags.len() ==> wf_tag(#[trigger] m.tags[i])
    &&& (m.prefix matches Some(p) ==> wf_prefix(p))
    &&& m.command.len() > 0 && free_of(m.command, ' ')
    &&& (m.prefix is None ==> m.command[0] != ':')
    &&& (m.prefix is None && m.tags.len() == 0 ==> m.command[0] != '@')
    &&& wf_params(m.params)
}

proof fn lemma_free_concat(a: Seq<char>, b: Seq<char>, c: char)
    requires
        free_of(a, c),
        free_of(b, c),
    ensures
        free_of(a + b, c),
{
    if has_char(a + b, c) {
        let i = choose|i: int| 0 <= i < (a + b).len() && (a + b)[i] == c;
        if i < a.len() {
            assert(a[i] == c);
        } else {
            assert(b[i - a.len()] == c);
        }
    }
}

proof fn lemma_free_single(x: char, c: char)
    requires
        x != c,
    ensures
        free_of(seq![x], c),
{
}

proof fn lemma_pop_word_concat(a: Seq<char>, rest: Seq<char>)
    requires
        free_of(a, ' '),
    ensures
        pop_word(a + seq![' '] + rest) == (a, rest),
{
    let s = a + seq![' '] + rest;
    assert forall|j: int| 0 <= j < a.len() implies s[j] != ' ' by {
        assert(s[j] == a[j]);
    }
    lemma_split_once_at(s, ' ', a.len() as int);
    assert(s.subrange(0, a.len() as int) =~= a);
    assert(s.subrange(a.len() as int + 1, s.len() as int) =~= rest);
}

proof fn lemma_pop_word_plain(a: Seq<char>)
    requires
        free_of(a, ' '),
    ensures
        pop_word(a) == (a, Seq::<char>::empty()),
{
    lemma_split_once_none(a, ' ');
}

proof fn lemma_split_all_append(a: Seq<char>, b: Seq<char>, c: char)
    requires
        free_of(b, c),
    ensures
        split_all(a + seq![c] + b, c) == split_all(a, c).push(b),
    decreases b.len(),
{
    let s = a + seq![c] + b;
    if b.len() == 0 {
        assert(s.drop_last() =~= a);
        assert(b =~= Seq::<char>::empty());
    } else {
        assert(free_of(b.drop_last(), c)) by {
            if has_char(b.drop_last(), c) {
                let i = choose|i: int| 0 <= i < b.drop_last().len() && b.drop_last()[i] == c;
                assert(b[i] == c);
            }
        }
        lemma_split_all_append(a, b.drop_last(), c);
        assert(s.drop_last() =~= a + seq![c] + b.drop_last());
        assert(b[b.len() - 1] != c);
        assert(b.drop_last().push(b.last()) =~= b);
        assert(split_all(s, c) =~= split_all(a, c).push(b));
    }
}

proof fn lemma_tag_text_free(t: (Seq<char>, TagValueView), c: char)
    requires
        free_of(t.0, c),
        free_of(t.1.text, c),
        c != '=',
    ensures
        free_of(tag_text(t), c),
{
    lemma_free_single('=', c);
    lemma_free_concat(t.0, seq!['='], c);
    lemma_free_concat(t.0 + seq!['='], t.1.text, c);
}

proof fn lemma_parse_tag(t: (Seq<char>, TagValueView))
    requires
        wf_tag(t),
    ensures
        parse_tag(tag_text(t)) == t,
{
    let s = tag_text(t);
    assert forall|j: int| 0 <= j < t.0.len() implies s[j] != '=' by {
        assert(s[j] == t.0[j]);
    }
    lemma_split_once_at(s, '=', t.0.len() as int);
    assert(s.subrange(0, t.0.len() as int) =~= t.0);
    assert(s.subrange(t.0.len() as int + 1, s.len() as int) =~= t.1.text);
}

/// The text of tags with no spaces in them has no spaces, and splits back into them.
proof fn lemma_tags_text(ts: Seq<(Seq<char>, TagValueView)>)
    requires
        ts.len() > 0,
        forall|i: int| 0 <= i < ts.len() ==> wf_tag(#[trigger] ts[i]),
    ensures
        free_of(tags_text(ts), ' '),
        split_all(tags_text(ts), ';') == ts.map_values(|t: (Seq<char>, TagValueView)| tag_text(t)),
    decreases ts.len(),
{
    let last = ts.last();
    assert(wf_tag(ts[ts.len() - 1]));
    lemma_tag_text_free(last, ' ');
    lemma_tag_text_free(last, ';');
    if ts.len() == 1 {
        lemma_split_all_plain(tag_text(last), ';');
        assert(ts.map_values(|t: (Seq<char>, TagValueView)| tag_text(t)) =~= seq![tag_text(last)]);
    } else {
        let init = ts.drop_last();
        assert forall|i: int| 0 <= i < init.len() implies wf_tag(#[trigger] init[i]) by {
            assert(init[i] == ts[i]);
        }
        lemma_tags_text(init);
        lemma_split_all_append(tags_text(init), tag_text(last), ';');
        lemma_free_single(';', ' ');
        lemma_free_concat(tags_text(init), seq![';'], ' ');
        lemma_free_concat(tags_text(init) + seq![';'], tag_text(last), ' ');
        assert(ts.map_values(|t: (Seq<char>, TagValueView)| tag_text(t)) =~= init.map_values(
            |t: (Seq<char>, TagValueView)| tag_text(t),
        ).push(tag_text(last)));
    }
}

proof fn lemma_parse_tags(ts: Seq<(Seq<char>, TagValueView)>)
    requires
        ts.len() > 0,
        forall|i: int| 0 <= i < ts.len() ==> wf_tag(#[trigger] ts[i]),
    ensures
        parse_tags(tags_text(ts)) == ts,
        free_of(tags_text(ts), ' '),
{
    lemma_tags_text(ts);
    let parts = split_all(tags_text(ts), ';');
    assert forall|i: int| 0 <= i < ts.len() implies parse_tag(parts[i]) == ts[i] by {
        lemma_parse_tag(ts[i]);
    }
    assert(parse_tags(tags_text(ts)) =~= ts);
}

/// The prefix between its `:` and its space.
pub open spec fn prefix_body(p: PrefixView) -> Seq<char> {
    let user = match p.user {
        Some(u) => seq!['!'] + u,
        None => Seq::empty(),
    };
    let host = match p.host {
        Some(h) => seq!['@'] + h,
        None => Seq::empty(),
    };
    p.nick + user + host
}

proof fn lemma_parse_prefix(p: PrefixView)
    requires
        wf_prefix(p),
    ensures
        parse_prefix(prefix_body(p)) == p,
        free_of(prefix_body(p), ' '),
        prefix_text(Some(p)) == seq![':'] + prefix_body(p) + seq![' '],
{
    let user = match p.user {
        Some(u) => seq!['!'] + u,
        None => Seq::<char>::empty(),
    };
    let host = match p.host {
        Some(h) => seq!['@'] + h,
        None => Seq::<char>::empty(),
    };
    let rest = p.nick + user;
    let pt = rest + host;
    assert(prefix_body(p) == pt);
    assert(prefix_text(Some(p)) =~= seq![':'] + pt + seq![' ']);
    lemma_free_single('!', ' ');
    lemma_free_single('@', ' ');
    lemma_free_single('!', '@');
    lemma_free_single('@', '!');
    assert(free_of(Seq::<char>::empty(), ' '));
    assert(free_of(Seq::<char>::empty(), '@'));
    assert(free_of(Seq::<char>::empty(), '!'));
    match p.user {
        Some(u) => {
            lemma_free_concat(seq!['!'], u, ' ');
            if p.host is None {
                lemma_free_concat(seq!['!'], u, '@');
            }
        },
        None => {},
    }
    match p.host {
        Some(h) => {
            lemma_free_concat(seq!['@'], h, ' ');
        },
        None => {},
    }
    lemma_free_concat(p.nick, user, ' ');
    lemma_free_concat(rest, host, ' ');
    if p.host is None {
        lemma_free_concat(p.nick, user, '@');
    }
    match p.host {
        Some(h) => {
            let i = rest.len() as int;
            assert forall|j: int| i < j < pt.len() implies pt[j] != '@' by {
                assert(pt[j] == h[j - i - 1]);
            }
            lemma_rsplit_once_at(pt, '@', i);
            assert(pt.subrange(0, i) =~= rest);
            assert(pt.subrange(i + 1, pt.len() as int) =~= h);
        },
        None => {
            assert(pt =~= rest);
            lemma_rsplit_once_none(pt, '@');
        },
    }
    match p.user {
        Some(u) => {
            let i = p.nick.len() as int;
            assert forall|j: int| i < j < rest.len() implies rest[j] != '!' by {
                assert(rest[j] == u[j - i - 1]);
            }
            lemma_rsplit_once_at(rest, '!', i);
            assert(rest.subrange(0, i) =~= p.nick);
            assert(rest.subrange(i + 1, rest.len() as int) =~= u);
        },
        None => {
            assert(rest =~= p.nick);
            lemma_rsplit_once_none(rest, '!');
        },
    }
}

proof fn lemma_words_text_front(a: Seq<char>, mid: Seq<Seq<char>>)
    ensures
        words_text(seq![a] + mid) == seq![' '] + a + words_text(mid),
    decreases mid.len(),
{
    if mid.len() == 0 {
        assert(seq![a] + mid =~= seq![a]);
        assert(seq![a].drop_last() =~= Seq::<Seq<char>>::empty());
        assert(seq![a].last() == a);
        assert(words_text(mid) == Seq::<char>::empty());
        assert(words_text(seq![a].drop_last()) == Seq::<char>::empty());
        assert(words_text(seq![a]) == words_text(seq![a].drop_last()) + seq![' '] + a);
        assert(words_text(seq![a]) =~= seq![' '] + a + words_text(mid));
    } else {
        lemma_words_text_front(a, mid.drop_last());
        assert((seq![a] + mid).drop_last() =~= seq![a] + mid.drop_last());
        assert(words_text(seq![a] + mid) =~= seq![' '] + a + words_text(mid));
    }
}

proof fn lemma_params_text_front(a: Seq<char>, rest: Seq<Seq<char>>)
    requires
        rest.len() > 0,
    ensures
        params_text(seq![a] + rest) == seq![' '] + a + params_text(rest),
{
    let ps = seq![a] + rest;
    assert(ps.drop_last() =~= seq![a] + rest.drop_last());
    assert(ps.last() == rest.last());
    lemma_words_text_front(a, rest.drop_last());
    assert(params_text(ps) =~= seq![' '] + a + params_text(rest));
}

proof fn lemma_params_text_starts(ps: Seq<Seq<char>>)
    requires
        ps.len() > 0,
    ensures
        params_text(ps).len() > 0,
        params_text(ps)[0] == ' ',
{
    let mid = ps.drop_last();
    if mid.len() > 0 {
        lemma_words_text_front(mid[0], mid.drop_first());
        assert(seq![mid[0]] + mid.drop_first() =~= mid);
    }
}

proof fn lemma_parse_params(ps: Seq<Seq<char>>)
    requires
        ps.len() > 0,
        wf_params(ps),
    ensures
        parse_params(params_text(ps).drop_first()) == ps,
    decreases ps.len(),
{
    let a = ps[0];
    if ps.len() == 1 {
        assert(ps.drop_last() =~= Seq::<Seq<char>>::empty());
        let t = params_text(ps).drop_first();
        if a.len() > 0 && a[0] == '#' {
            assert(t =~= a);
            lemma_pop_word_plain(a);
            assert(parse_params(Seq::<char>::empty()) == Seq::<Seq<char>>::empty());
        } else {
            assert(t =~= seq![':'] + a);
            assert(t.drop_first() =~= a);
        }
        assert(parse_params(t) =~= ps);
    } else {
        let rest = ps.drop_first();
        assert(seq![a] + rest =~= ps);
        lemma_params_text_front(a, rest);
        lemma_params_text_starts(rest);
        assert forall|i: int| 0 <= i < rest.len() - 1 implies free_of(#[trigger] rest[i], ' ')
            && !(rest[i].len() > 0 && rest[i][0] == ':') by {
            assert(rest[i] == ps[i + 1]);
        }
        assert(rest.last() == ps.last());
        lemma_parse_params(rest);
        let tail = params_text(rest).drop_first();
        assert(params_text(rest) =~= seq![' '] + tail);
        let t = params_text(ps).drop_first();
        assert(t =~= a + seq![' '] + tail);
        assert(free_of(a, ' ') && !(a.len() > 0 && a[0] == ':'));
        lemma_pop_word_concat(a, tail);
        assert(t.len() > 0);
        assert(t[0] != ':') by {
            if a.len() > 0 {
                assert(t[0] == a[0]);
            } else {
                assert(t[0] == ' ');
            }
        }
        assert(parse_params(t) =~= seq![a] + rest);
    }
}

/// The command word and what follows it.
proof fn lemma_command(c: Seq<char>, ps: Seq<Seq<char>>)
    requires
        free_of(c, ' '),
        wf_params(ps),
    ensures
        parse_params(pop_word(c + params_text(ps)).1) == ps,
        pop_word(c + params_text(ps)).0 == c,
{
    if ps.len() == 0 {
        assert(c + params_text(ps) =~= c);
        lemma_pop_word_plain(c);
    } else {
        lemma_params_text_starts(ps);
        lemma_parse_params(ps);
        let t = params_text(ps);
        assert(t =~= seq![' '] + t.drop_first());
        assert(c + t =~= c + seq![' '] + t.drop_first());
        lemma_pop_word_concat(c, t.drop_first());
    }
}

/// Reading back the text that `write` gives for a well-formed message yields that message.
pub proof fn lemma_round_trip(m: MessageView)
    requires
        wf_message(m),
    ensures
        parse_message(wire(m)) == m,
{
    let b = tag_blob(m.tags);
    let p = prefix_text(m.prefix);
    let c = m.command;
    let t = params_text(m.params);
    let w = wire(m);
    assert(w == b + p + c + t);
    lemma_command(c, m.params);
    let after_tags = p + c + t;
    let (part, rest2) = match m.prefix {
        Some(pv) => {
            lemma_parse_prefix(pv);
            let body = prefix_body(pv);
            lemma_free_single(':', ' ');
            lemma_free_concat(seq![':'], body, ' ');
            assert(after_tags =~= (seq![':'] + body) + seq![' '] + (c + t));
            lemma_pop_word_concat(seq![':'] + body, c + t);
            assert((seq![':'] + body).drop_first() =~= body);
            (seq![':'] + body, c + t)
        },
        None => {
            assert(after_tags =~= c + t);
            pop_word(c + t)
        },
    };
    assert(pop_word(after_tags) == (part, rest2));
    if m.tags.len() > 0 {
        lemma_parse_tags(m.tags);
        let tt = tags_text(m.tags);
        lemma_free_single('@', ' ');
        lemma_free_concat(seq!['@'], tt, ' ');
        assert(w =~= (seq!['@'] + tt) + seq![' '] + after_tags);
        lemma_pop_word_concat(seq!['@'] + tt, after_tags);
        assert((seq!['@'] + tt).drop_first() =~= tt);
    } else {
        assert(w =~= after_tags);
    }
    let r = parse_message(w);
    assert(r.tags == m.tags);
    assert(r.prefix == m.prefix);
    assert(r.command == m.command);
    assert(r.params == m.params);
}

proof fn lemma_free_parts(a: Seq<char>, x: char, b: Seq<char>, c: char)
    requires
        free_of(a + seq![x] + b, c),
    ensures
        free_of(a, c),
        free_of(b, c),
{
    let s = a + seq![x] + b;
    if has_char(a, c) {
        let i = choose|i: int| 0 <= i < a.len() && a[i] == c;
        assert(s[i] == c);
    }
    if has_char(b, c) {
        let i = choose|i: int| 0 <= i < b.len() && b[i] == c;
        assert(s[a.len() + 1 + i] == c);
    }
}

proof fn lemma_free_drop_first(s: Seq<char>, c: char)
    requires
        free_of(s, c),
        s.len() > 0,
    ensures
        free_of(s.drop_first(), c),
{
    if has_char(s.drop_first(), c) {
        let i = choose|i: int| 0 <= i < s.drop_first().len() && s.drop_first()[i] == c;
        assert(s[i + 1] == c);
    }
}

proof fn lemma_split_once_shape(s: Seq<char>, c: char)
    ensures
        match split_once(s, c) {
            Some(p) => s == p.0 + seq![c] + p.1 && free_of(p.0, c),
            None => free_of(s, c),
        },
    decreases s.len(),
{
    if s.len() > 0 && s[0] != c {
        let t = s.drop_first();
        lemma_split_once_shape(t, c);
        match split_once(t, c) {
            Some(p) => {
                assert(s =~= seq![s[0]] + t);
                assert(s =~= (seq![s[0]] + p.0) + seq![c] + p.1);
                lemma_free_single(s[0], c);
                lemma_free_concat(seq![s[0]], p.0, c);
            },
            None => {
                if has_char(s, c) {
                    let i = choose|i: int| 0 <= i < s.len() && s[i] == c;
                    assert(t[i - 1] == c);
                }
            },
        }
    } else if s.len() > 0 {
        assert(s =~= Seq::<char>::empty() + seq![c] + s.drop_first());
    }
}

proof fn lemma_rsplit_once_shape(s: Seq<char>, c: char)
    ensures
        match rsplit_once(s, c) {
            Some(p) => s == p.0 + seq![c] + p.1 && free_of(p.1, c),
            None => free_of(s, c),
        },
    decreases s.len(),
{
    if s.len() > 0 && s.last() != c {
        let t = s.drop_last();
        lemma_rsplit_once_shape(t, c);
        match rsplit_once(t, c) {
            Some(p) => {
                assert(s =~= t.push(s.last()));
                assert(s =~= p.0 + seq![c] + p.1.push(s.last()));
                assert(p.1.push(s.last()) =~= p.1 + seq![s.last()]);
                lemma_free_single(s.last(), c);
                lemma_free_concat(p.1, seq![s.last()], c);
            },
            None => {
                if has_char(s, c) {
                    let i = choose|i: int| 0 <= i < s.len() && s[i] == c;
                    assert(t[i] == c);
                }
            },
        }
    } else if s.len() > 0 {
        assert(s =~= s.drop_last() + seq![c] + Seq::<char>::empty());
    }
}

/// The first word has no space, and the line is that word, or that word, a space and the
/// rest.
proof fn lemma_pop_word_shape(s: Seq<char>)
    ensures
        free_of(pop_word(s).0, ' '),
        s == pop_word(s).0 + seq![' '] + pop_word(s).1 || (s == pop_word(s).0 && pop_word(
            s,
        ).1.len() == 0),
{
    lemma_split_once_shape(s, ' ');
}

proof fn lemma_free_sub_word(s: Seq<char>, c: char)
    requires
        free_of(s, c),
    ensures
        free_of(pop_word(s).0, c),
        free_of(pop_word(s).1, c),
{
    lemma_pop_word_shape(s);
    if s == pop_word(s).0 + seq![' '] + pop_word(s).1 {
        lemma_free_parts(pop_word(s).0, ' ', pop_word(s).1, c);
    } else {
        assert(pop_word(s).1 =~= Seq::<char>::empty());
    }
}

proof fn lemma_split_all_pieces(s: Seq<char>, c: char, d: char)
    ensures
        forall|i: int| 0 <= i < split_all(s, c).len() ==> free_of(#[trigger] split_all(s, c)[i], c),
        free_of(s, d) ==> forall|i: int|
            0 <= i < split_all(s, c).len() ==> free_of(#[trigger] split_all(s, c)[i], d),
    decreases s.len(),
{
    if s.len() > 0 {
        let t = s.drop_last();
        lemma_split_all_pieces(t, c, d);
        lemma_split_all_len(t, c);
        let parts = split_all(t, c);
        let x = s.last();
        if free_of(s, d) {
            assert(free_of(t, d)) by {
                if has_char(t, d) {
                    let i = choose|i: int| 0 <= i < t.len() && t[i] == d;
                    assert(s[i] == d);
                }
            }
            assert(x != d) by {
                assert(s[s.len() - 1] == x);
            }
        }
        if x != c {
            lemma_free_single(x, c);
            lemma_free_concat(parts.last(), seq![x], c);
            assert(parts.last().push(x) =~= parts.last() + seq![x]);
            if free_of(s, d) {
                lemma_free_single(x, d);
                lemma_free_concat(parts.last(), seq![x], d);
            }
        }
    } else {
        assert(split_all(s, c) =~= seq![Seq::<char>::empty()]);
    }
}

proof fn lemma_parsed_tag(kv: Seq<char>)
    requires
        free_of(kv, ' '),
        free_of(kv, ';'),
    ensures
        wf_tag(parse_tag(kv)),
{
    lemma_split_once_shape(kv, '=');
    match split_once(kv, '=') {
        Some(p) => {
            lemma_free_parts(p.0, '=', p.1, ' ');
            lemma_free_parts(p.0, '=', p.1, ';');
        },
        None => {},
    }
}

proof fn lemma_parsed_tags(blob: Seq<char>)
    requires
        free_of(blob, ' '),
    ensures
        forall|i: int| 0 <= i < parse_tags(blob).len() ==> wf_tag(#[trigger] parse_tags(blob)[i]),
{
    lemma_split_all_pieces(blob, ';', ' ');
    let parts = split_all(blob, ';');
    assert forall|i: int| 0 <= i < parse_tags(blob).len() implies wf_tag(
        #[trigger] parse_tags(blob)[i],
    ) by {
        assert(free_of(parts[i], ';'));
        assert(free_of(parts[i], ' '));
        lemma_parsed_tag(parts[i]);
    }
}

proof fn lemma_parsed_prefix(s: Seq<char>)
    requires
        free_of(s, ' '),
    ensures
        wf_prefix(parse_prefix(s)),
{
    lemma_rsplit_once_shape(s, '@');
    let rest = match rsplit_once(s, '@') {
        Some(p) => {
            lemma_free_parts(p.0, '@', p.1, ' ');
            p.0
        },
        None => s,
    };
    lemma_rsplit_once_shape(rest, '!');
    match rsplit_once(rest, '!') {
        Some(p) => {
            lemma_free_parts(p.0, '!', p.1, ' ');
            if rsplit_once(s, '@') is None {
                lemma_free_parts(p.0, '!', p.1, '@');
            }
        },
        None => {},
    }
}

proof fn lemma_parsed_params(s: Seq<char>)
    ensures
        forall|i: int|
            0 <= i < parse_params(s).len() - 1 ==> free_of(#[trigger] parse_params(s)[i], ' ')
                && !(parse_params(s)[i].len() > 0 && parse_params(s)[i][0] == ':'),
    decreases s.len(),
{
    if s.len() > 0 && s[0] != ':' {
        lemma_split_once_len(s, ' ');
        lemma_pop_word_shape(s);
        let (w, r) = pop_word(s);
        lemma_parsed_params(r);
        let ps = parse_params(s);
        assert(ps == seq![w] + parse_params(r));
        if w.len() > 0 {
            assert(w[0] == s[0]);
        }
        assert forall|i: int| 0 <= i < ps.len() - 1 implies free_of(#[trigger] ps[i], ' ') && !(
        ps[i].len() > 0 && ps[i][0] == ':') by {
            if i > 0 {
                assert(ps[i] == parse_params(r)[i - 1]);
            }
        }
    }
}

/// A parsed line is well-formed where its command is not empty and its last parameter has
/// no space if it starts with `#`.
pub proof fn lemma_parsed_wf(line: Seq<char>)
    requires
        parse_message(line).command.len() > 0,
        ({
            let ps = parse_message(line).params;
            ps.len() > 0 && ps.last().len() > 0 && ps.last()[0] == '#' ==> free_of(ps.last(), ' ')
        }),
    ensures
        wf_message(parse_message(line)),
{
    let m = parse_message(line);
    let (first, rest1) = pop_word(line);
    lemma_pop_word_shape(line);
    let has_tags = first.len() > 0 && first[0] == '@';
    if has_tags {
        lemma_free_drop_first(first, ' ');
        lemma_parsed_tags(first.drop_first());
        lemma_split_all_len(first.drop_first(), ';');
    }
    let (part, rest2) = if has_tags {
        pop_word(rest1)
    } else {
        (first, rest1)
    };
    lemma_pop_word_shape(rest1);
    let has_prefix = part.len() > 0 && part[0] == ':';
    if has_prefix {
        lemma_free_drop_first(part, ' ');
        lemma_parsed_prefix(part.drop_first());
        lemma_pop_word_shape(rest2);
    }
    let (command, rest3) = if has_prefix {
        pop_word(rest2)
    } else {
        (part, rest2)
    };
    lemma_parsed_params(rest3);
    assert(m.command == command);
    assert(m.params == parse_params(rest3));
}

/// For every line with a command, whose last parameter has no space where it starts with
/// `#`, writing its message and reading it again gives the same message.
pub proof fn lemma_line_round_trip(line: Seq<char>)
    requires
        parse_message(line).command.len() > 0,
        ({
            let ps = parse_message(line).params;
            ps.len() > 0 && ps.last().len() > 0 && ps.last()[0] == '#' ==> free_of(ps.last(), ' ')
        }),
    ensures
        parse_message(wire(parse_message(line))) == parse_message(line),
{
    lemma_parsed_wf(line);
    lemma_round_trip(parse_message(line));
}

} // verus!