//! Channel names, the channel-to-index mapping and the requests of the index backend.
use crate::record::Record;
use crate::text::{chars_of, opt_text, push_char, push_str, replace_char, str_eq, substitute};
use vstd::prelude::*;

verus! {

pub open spec fn lower_char(c: char) -> char {
    if 'A' <= c <= 'Z' {
        ((c as u32) + 32) as char
    } else {
        c
    }
}

/// A channel name as it is joined: ASCII letters in lower case.
pub open spec fn channel_name(s: Seq<char>) -> Seq<char> {
    s.map_values(|c: char| lower_char(c))
}

/// `s` with its ASCII letters in lower case.
pub fn normalize_channel(s: &str) -> (r: String)
    ensures
        r@ == channel_name(s@),
{
    let cs = chars_of(s);
    let mut r = String::new();
    let mut i: usize = 0;
    while i < cs.len()
        invariant
            i <= cs.len(),
            r@ == channel_name(cs@.subrange(0, i as int)),
        decreases cs.len() - i,
    {
        let c = cs[i];
        let l = if 'A' <= c && c <= 'Z' {
            ((c as u8) + 32) as char
        } else {
            c
        };
        push_char(&mut r, l);
        assert(r@ =~= channel_name(cs@.subrange(0, i + 1)));
        i = i + 1;
    }
    assert(cs@.subrange(0, i as int) =~= s@);
    r
}

/// The channel and index lists do not match up.
#[derive(Debug, PartialEq, Eq, Structural)]
pub enum MappingError {
    /// One index, or one per channel, was expected.
    Count { channels: usize, indices: usize },
}

pub open spec fn pair_views(p: Seq<(String, String)>) -> Seq<(Seq<char>, Seq<char>)> {
    p.map_values(|e: (String, String)| (e.0@, e.1@))
}

/// Which index each channel's messages go to: with one index, every channel goes to it with
/// `*` replaced by the channel; otherwise the lists pair up one to one.
pub open spec fn mapping_spec(channels: Seq<Seq<char>>, indices: Seq<Seq<char>>) -> Result<
    Seq<(Seq<char>, Seq<char>)>,
    MappingError,
> {
    if indices.len() == 1 {
        Ok(channels.map_values(|c: Seq<char>| (c, substitute(indices[0], '*', c))))
    } else if indices.len() != channels.len() {
        Err(MappingError::Count { channels: channels.len() as usize, indices: indices.len() as usize })
    } else {
        Ok(channels.map(|i: int, c: Seq<char>| (c, indices[i])))
    }
}

pub open spec fn texts(v: Seq<String>) -> Seq<Seq<char>> {
    v.map_values(|s: String| s@)
}

/// The channel-to-index mapping; see `mapping_spec`.
pub fn index_mapping(channels: &Vec<String>, indices: &Vec<String>) -> (r: Result<
    Vec<(String, String)>,
    MappingError,
>)
    ensures
        match r {
            Ok(p) => mapping_spec(texts(channels@), texts(indices@)) == Ok::<
                Seq<(Seq<char>, Seq<char>)>,
                MappingError,
            >(pair_views(p@)),
            Err(e) => mapping_spec(texts(channels@), texts(indices@)) == Err::<
                Seq<(Seq<char>, Seq<char>)>,
                MappingError,
            >(e),
        },
{
    let ghost cv = texts(channels@);
    let ghost iv = texts(indices@);
    if indices.len() != 1 && indices.len() != channels.len() {
        return Err(MappingError::Count { channels: channels.len(), indices: indices.len() });
    }
    let mut r: Vec<(String, String)> = Vec::new();
    let mut k: usize = 0;
    while k < channels.len()
        invariant
            k <= channels.len(),
            cv == texts(channels@),
            iv == texts(indices@),
            indices.len() == 1 || indices.len() == channels.len(),
            indices.len() == 1 ==> pair_views(r@) == cv.subrange(0, k as int).map_values(
                |c: Seq<char>| (c, substitute(iv[0], '*', c)),
            ),
            indices.len() != 1 ==> pair_views(r@) == cv.subrange(0, k as int).map(
                |i: int, c: Seq<char>| (c, iv[i]),
            ),
        decreases channels.len() - k,
    {
        let channel = &channels[k];
        let index = if indices.len() == 1 {
            replace_char(indices[0].as_str(), '*', channel.as_str())
        } else {
            indices[k].clone()
        };
        let ghost before = r@;
        let ghost entry = (channel@, index@);
        r.push((channel.clone(), index));
        assert(pair_views(r@) =~= pair_views(before).push(entry));
        assert(cv.subrange(0, k + 1) =~= cv.subrange(0, k as int).push(cv[k as int]));
        if indices.len() == 1 {
            assert(pair_views(r@) =~= cv.subrange(0, k + 1).map_values(
                |c: Seq<char>| (c, substitute(iv[0], '*', c)),
            ));
        } else {
            assert(pair_views(r@) =~= cv.subrange(0, k + 1).map(|i: int, c: Seq<char>| (c, iv[i])));
        }
        k = k + 1;
    }
    assert(cv.subrange(0, k as int) =~= cv);
    Ok(r)
}

/// The value of the last pair whose key is `k`.
pub open spec fn lookup_last(pairs: Seq<(Seq<char>, Seq<char>)>, k: Seq<char>) -> Option<Seq<char>>
    decreases pairs.len(),
{
    if pairs.len() == 0 {
        None
    } else if pairs.last().0 == k {
        Some(pairs.last().1)
    } else {
        lookup_last(pairs.drop_last(), k)
    }
}

/// Why a record cannot go to the index backend.
#[derive(Debug, PartialEq, Eq, Structural)]
pub enum SinkError {
    /// The record has no channel.
    NoChannel,
    /// No index is mapped to the record's channel.
    NoIndex,
}

/// The path that creates `id` in `index`: `{address}/{index}/_create/{id}`.
pub open spec fn create_path(address: Seq<char>, index: Seq<char>, id: Seq<char>) -> Seq<char> {
    address + seq!['/'] + index + seq!['/', '_', 'c', 'r', 'e', 'a', 't', 'e', '/'] + id
}

pub open spec fn endpoint_spec(
    address: Seq<char>,
    mapping: Seq<(Seq<char>, Seq<char>)>,
    channel: Option<Seq<char>>,
    id: Seq<char>,
) -> Result<Seq<char>, SinkError> {
    match channel {
        None => Err(SinkError::NoChannel),
        Some(c) => match lookup_last(mapping, c) {
            None => Err(SinkError::NoIndex),
            Some(index) => Ok(create_path(address, index, id)),
        },
    }
}

/// Where the index backend takes `record`; see `endpoint_spec`.
pub fn create_endpoint(address: &str, mapping: &Vec<(String, String)>, record: &Record) -> (r: Result<String, SinkError>)
    ensures
        match r {
            Ok(s) => endpoint_spec(address@, pair_views(mapping@), opt_text(record.channel), record.id@) == Ok::<Seq<char>, SinkError>(s@),
            Err(e) => endpoint_spec(address@, pair_views(mapping@), opt_text(record.channel), record.id@) == Err::<Seq<char>, SinkError>(e),
        },
{
    let channel = match &record.channel {
        None => return Err(SinkError::NoChannel),
        Some(c) => c,
    };
    let ghost pv = pair_views(mapping@);
    let mut k = mapping.len();
    assert(pv.subrange(0, k as int) =~= pv);
    while k > 0
        invariant
            k <= mapping.len(),
            pv == pair_views(mapping@),
            opt_text(record.channel) == Some(channel@),
            lookup_last(pv, channel@) == lookup_last(pv.subrange(0, k as int), channel@),
        decreases k,
    {
        let ghost sub = pv.subrange(0, k as int);
        assert(sub.drop_last() =~= pv.subrange(0, k - 1));
        if str_eq(mapping[k - 1].0.as_str(), channel.as_str()) {
            let mut out = String::new();
            push_str(&mut out, address);
            push_char(&mut out, '/');
            push_str(&mut out, mapping[k - 1].1.as_str());
            push_str(&mut out, "/_create/");
            push_str(&mut out, record.id.as_str());
            proof {
                reveal_strlit("/_create/");
            }
            assert(out@ =~= create_path(address@, pv[k - 1].1, record.id@));
            assert(sub.last() == pv[k - 1]);
            assert(lookup_last(sub, channel@) == Some(pv[k - 1].1));
            return Ok(out);
        }
        k = k - 1;
    }
    Err(SinkError::NoIndex)
}

/// How the index backend answered one request.
#[derive(Debug, PartialEq, Eq, Structural)]
pub enum Delivery {
    /// A 2xx status: stored.
    Stored,
    /// 409: the document is there already, which counts as stored.
    AlreadyStored,
    /// Anything else: reported, and the message is dropped from this sink.
    Failed,
}

pub open spec fn delivery_of(status: u16) -> Delivery {
    if 200 <= status <= 299 {
        Delivery::Stored
    } else if status == 409 {
        Delivery::AlreadyStored
    } else {
        Delivery::Failed
    }
}

/// How to take the status of the backend's answer.
pub fn delivery(status: u16) -> (r: Delivery)
    ensures
        r == delivery_of(status),
{
    if 200 <= status && status <= 299 {
        Delivery::Stored
    } else if status == 409 {
        Delivery::AlreadyStored
    } else {
        Delivery::Failed
    }
}

} // verus!
