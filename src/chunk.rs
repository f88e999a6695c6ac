//! Size-bounded chunks of bulk output, and the names of the files they go to.
use crate::text::{chars_of, push_char, push_str, replace_char, substitute};
use vstd::prelude::*;
use vstd::string::StringExecFns;

verus! {

/// The number of bytes that UTF-8 takes for `c`.
pub open spec fn char_width(c: char) -> nat {
    if (c as u32) < 0x80 {
        1
    } else if (c as u32) < 0x800 {
        2
    } else if (c as u32) < 0x10000 {
        3
    } else {
        4
    }
}

/// The size of a text in bytes, as UTF-8.
pub open spec fn byte_len(s: Seq<char>) -> nat
    decreases s.len(),
{
    if s.len() == 0 {
        0
    } else {
        byte_len(s.drop_last()) + char_width(s.last())
    }
}

pub proof fn lemma_byte_len_concat(a: Seq<char>, b: Seq<char>)
    ensures
        byte_len(a + b) == byte_len(a) + byte_len(b),
    decreases b.len(),
{
    if b.len() == 0 {
        assert(a + b =~= a);
    } else {
        lemma_byte_len_concat(a, b.drop_last());
        assert((a + b).drop_last() =~= a + b.drop_last());
    }
}

pub proof fn lemma_byte_len_bounds(s: Seq<char>)
    ensures
        s.len() <= byte_len(s) <= 4 * s.len(),
    decreases s.len(),
{
    if s.len() > 0 {
        lemma_byte_len_bounds(s.drop_last());
    }
}

/// The size of `s` in bytes, as UTF-8.
pub fn byte_size(s: &str) -> (r: u128)
    ensures
        r == byte_len(s@),
        r <= 4 * (usize::MAX as nat),
{
    let cs = chars_of(s);
    let mut total: u128 = 0;
    let mut i: usize = 0;
    while i < cs.len()
        invariant
            i <= cs.len(),
            total == byte_len(cs@.subrange(0, i as int)),
            total <= 4 * i,
        decreases cs.len() - i,
    {
        assert(cs@.subrange(0, i + 1).drop_last() =~= cs@.subrange(0, i as int));
        let c = cs[i] as u32;
        let w: u128 = if c < 0x80 {
            1
        } else if c < 0x800 {
            2
        } else if c < 0x10000 {
            3
        } else {
            4
        };
        total = total + w;
        i = i + 1;
    }
    assert(cs@.subrange(0, i as int) =~= s@);
    total
}

/// Accumulates units of bulk output and hands them out in chunks: a chunk is cut before
/// the unit that would bring it to the byte budget or past it.
pub struct Chunker {
    buffer: String,
    used: u128,
    budget: usize,
    index: usize,
}

pub struct ChunkerView {
    /// What the current chunk holds so far.
    pub buffer: Seq<char>,
    pub budget: nat,
    /// The number of chunks handed out so far, which is also the index of the next.
    pub index: nat,
}

impl View for Chunker {
    type V = ChunkerView;

    closed spec fn view(&self) -> ChunkerView {
        ChunkerView { buffer: self.buffer@, budget: self.budget as nat, index: self.index as nat }
    }
}

impl Chunker {
    /// The byte count kept beside the buffer is the buffer's size.
    pub closed spec fn wf(&self) -> bool {
        &&& self.used == byte_len(self.buffer@)
        &&& self.used <= 4 * (usize::MAX as nat)
    }
}

/// Whether adding a unit of `size` bytes cuts the current chunk first.
pub open spec fn cuts(c: ChunkerView, size: nat) -> bool {
    byte_len(c.buffer) + size >= c.budget
}

/// The chunker after it takes `unit`.
pub open spec fn after_unit(c: ChunkerView, unit: Seq<char>) -> ChunkerView {
    if cuts(c, byte_len(unit)) {
        ChunkerView { buffer: unit, budget: c.budget, index: c.index + 1 }
    } else {
        ChunkerView { buffer: c.buffer + unit, budget: c.budget, index: c.index }
    }
}

/// The chunker after it takes each of `units` in turn.
pub open spec fn after_units(c: ChunkerView, units: Seq<Seq<char>>) -> ChunkerView
    decreases units.len(),
{
    if units.len() == 0 {
        c
    } else {
        after_unit(after_units(c, units.drop_last()), units.last())
    }
}

/// The chunks cut while units of the given sizes arrive, and the size of what is left: the
/// running sum restarts after each cut.
pub open spec fn cut_count(sizes: Seq<nat>, budget: nat) -> (nat, nat)
    decreases sizes.len(),
{
    if sizes.len() == 0 {
        (0, 0)
    } else {
        let (cut, acc) = cut_count(sizes.drop_last(), budget);
        if acc + sizes.last() >= budget {
            (cut + 1, sizes.last())
        } else {
            (cut, acc + sizes.last())
        }
    }
}

/// The number of files that units of the given sizes fill: one per cut, and one more for
/// what is left at the end, if anything is.
pub open spec fn file_count(sizes: Seq<nat>, budget: nat) -> nat {
    let (cut, acc) = cut_count(sizes, budget);
    cut + if acc > 0 {
        1nat
    } else {
        0nat
    }
}

/// The byte sizes of `units`.
pub open spec fn sizes_of(units: Seq<Seq<char>>) -> Seq<nat> {
    units.map_values(|u: Seq<char>| byte_len(u))
}

/// The chunker from empty, fed `units` in turn.
pub open spec fn fed(budget: nat, units: Seq<Seq<char>>) -> ChunkerView {
    after_units(ChunkerView { buffer: Seq::empty(), budget, index: 0 }, units)
}

/// The chunker's count of files matches `file_count`: starting empty and fed `units`, it
/// hands out one chunk per cut, and `finish` one more exactly where bytes are left.
pub proof fn lemma_file_count(budget: nat, units: Seq<Seq<char>>)
    ensures
        fed(budget, units).budget == budget,
        fed(budget, units).index == cut_count(sizes_of(units), budget).0,
        byte_len(fed(budget, units).buffer) == cut_count(sizes_of(units), budget).1,
        fed(budget, units).index + (if fed(budget, units).buffer.len() > 0 {
            1nat
        } else {
            0nat
        }) == file_count(sizes_of(units), budget),
    decreases units.len(),
{
    let sizes = sizes_of(units);
    let c = fed(budget, units);
    if units.len() > 0 {
        lemma_file_count(budget, units.drop_last());
        assert(sizes.drop_last() =~= sizes_of(units.drop_last()));
        let prev = fed(budget, units.drop_last());
        lemma_byte_len_concat(prev.buffer, units.last());
        assert(sizes.last() == byte_len(units.last()));
        assert(c == after_unit(prev, units.last()));
        let pc = cut_count(sizes.drop_last(), budget);
        assert(pc == cut_count(sizes_of(units.drop_last()), budget));
        assert(cut_count(sizes, budget) == if pc.1 + sizes.last() >= budget {
            (pc.0 + 1, sizes.last())
        } else {
            (pc.0, pc.1 + sizes.last())
        });
        assert(prev.index == pc.0);
        assert(byte_len(prev.buffer) == pc.1);
        assert(cuts(prev, byte_len(units.last())) == (pc.1 + sizes.last() >= budget));
        assert(c.index == cut_count(sizes, budget).0);
    } else {
        assert(sizes.len() == 0);
        assert(byte_len(c.buffer) == 0);
        assert(c.index == cut_count(sizes, budget).0);
    }
    lemma_byte_len_bounds(c.buffer);
}

impl Chunker {
    /// An empty chunker with the given byte budget; without one, chunks are unbounded.
    pub fn new(budget: Option<usize>) -> (r: Chunker)
        ensures
            r.wf(),
            r@.buffer == Seq::<char>::empty(),
            r@.index == 0,
            r@.budget == match budget {
                Some(b) => b as nat,
                None => usize::MAX as nat,
            },
    {
        let b = match budget {
            Some(b) => b,
            None => usize::MAX,
        };
        let r = Chunker { buffer: String::new(), used: 0, budget: b, index: 0 };
        assert(byte_len(r.buffer@) == 0);
        r
    }

    /// Adds `unit`. Where it cuts the current chunk first, that chunk is handed back with
    /// its index.
    pub fn push_unit(&mut self, unit: &str) -> (r: Option<(usize, String)>)
        requires
            old(self).wf(),
            old(self)@.index < usize::MAX,
        ensures
            final(self).wf(),
            final(self)@ == after_unit(old(self)@, unit@),
            cuts(old(self)@, byte_len(unit@)) ==> (r matches Some(p) && p.0 == old(self)@.index
                && p.1@ == old(self)@.buffer),
            !cuts(old(self)@, byte_len(unit@)) ==> r is None,
    {
        let size = byte_size(unit);
        proof {
            lemma_byte_len_concat(self.buffer@, unit@);
        }
        if self.used + size >= self.budget as u128 {
            let mut chunk = String::new();
            core::mem::swap(&mut chunk, &mut self.buffer);
            let at = self.index;
            self.index = self.index + 1;
            self.buffer.append(unit);
            self.used = size;
            assert(self.buffer@ =~= unit@);
            Some((at, chunk))
        } else {
            self.buffer.append(unit);
            self.used = self.used + size;
            None
        }
    }

    /// Hands out what is left, if anything, with its index.
    pub fn finish(&mut self) -> (r: Option<(usize, String)>)
        requires
            old(self).wf(),
            old(self)@.index < usize::MAX,
        ensures
            final(self).wf(),
            old(self)@.buffer.len() > 0 ==> (r matches Some(p) && p.0 == old(self)@.index
                && p.1@ == old(self)@.buffer),
            old(self)@.buffer.len() == 0 ==> r is None,
            final(self)@.buffer == Seq::<char>::empty(),
            final(self)@.budget == old(self)@.budget,
            final(self)@.index == old(self)@.index + if old(self)@.buffer.len() > 0 {
                1nat
            } else {
                0nat
            },
    {
        if !self.buffer.as_str().is_empty() {
            let mut chunk = String::new();
            core::mem::swap(&mut chunk, &mut self.buffer);
            let at = self.index;
            self.index = self.index + 1;
            self.used = 0;
            assert(byte_len(self.buffer@) == 0);
            Some((at, chunk))
        } else {
            assert(self.buffer@ =~= Seq::<char>::empty());
            None
        }
    }

    /// The number of chunks handed out so far.
    pub fn index(&self) -> (r: usize)
        ensures
            r == self@.index,
    {
        self.index
    }
}

/// The byte budget that `Chunker::new(budget)` works with.
pub open spec fn budget_of(budget: Option<usize>) -> nat {
    match budget {
        Some(b) => b as nat,
        None => usize::MAX as nat,
    }
}

pub open spec fn unit_views(units: Seq<String>) -> Seq<Seq<char>> {
    units.map_values(|u: String| u@)
}

/// The texts joined in order.
pub open spec fn concat(parts: Seq<Seq<char>>) -> Seq<char>
    decreases parts.len(),
{
    if parts.len() == 0 {
        Seq::empty()
    } else {
        concat(parts.drop_last()) + parts.last()
    }
}

pub open spec fn chunk_texts(r: Seq<(usize, String)>) -> Seq<Seq<char>> {
    r.map_values(|c: (usize, String)| c.1@)
}

/// A chunk stays under the budget, or holds exactly one of the units, or is empty (which
/// happens only when the very first unit reaches the budget on its own).
pub open spec fn chunk_ok(c: Seq<char>, units: Seq<Seq<char>>, budget: nat) -> bool {
    ||| c.len() == 0
    ||| byte_len(c) < budget
    ||| exists|i: int| 0 <= i < units.len() && units[i] == c
}

/// Cuts `units` into chunks under the byte budget, in order, each with its index. There are
/// `file_count` of them: one per cut, and one for what is left at the end, if anything is.
/// Joined in order, they are the units joined in order: no unit is split, moved, lost or
/// repeated.
pub fn chunk_units(units: &Vec<String>, budget: Option<usize>) -> (r: Vec<(usize, String)>)
    requires
        units.len() < usize::MAX,
    ensures
        r.len() == file_count(sizes_of(unit_views(units@)), budget_of(budget)),
        forall|j: int| 0 <= j < r.len() ==> (#[trigger] r@[j]).0 == j,
        concat(chunk_texts(r@)) == concat(unit_views(units@)),
        forall|j: int|
            0 <= j < r.len() ==> chunk_ok(
                #[trigger] chunk_texts(r@)[j],
                unit_views(units@),
                budget_of(budget),
            ),
{
    let ghost views = unit_views(units@);
    let ghost b = budget_of(budget);
    let mut chunker = Chunker::new(budget);
    let mut out: Vec<(usize, String)> = Vec::new();
    let mut k: usize = 0;
    assert(views.subrange(0, 0) =~= Seq::<Seq<char>>::empty());
    while k < units.len()
        invariant
            k <= units.len() < usize::MAX,
            views == unit_views(units@),
            chunker.wf(),
            chunker@ == fed(b, views.subrange(0, k as int)),
            chunker@.index <= k,
            out.len() == chunker@.index,
            chunker@.budget == b,
            forall|j: int| 0 <= j < out.len() ==> (#[trigger] out@[j]).0 == j,
            concat(chunk_texts(out@)) + chunker@.buffer == concat(views.subrange(0, k as int)),
            chunk_ok(chunker@.buffer, views, b),
            forall|j: int| 0 <= j < out.len() ==> chunk_ok(#[trigger] chunk_texts(out@)[j], views, b),
        decreases units.len() - k,
    {
        let ghost sub = views.subrange(0, k + 1);
        assert(sub.drop_last() =~= views.subrange(0, k as int));
        assert(sub.last() == units@[k as int]@);
        let ghost buf = chunker@.buffer;
        let ghost u = views[k as int];
        let ghost before = out@;
        let cut = chunker.push_unit(units[k].as_str());
        proof {
            lemma_byte_len_concat(buf, u);
        }
        if let Some(chunk) = cut {
            out.push(chunk);
            assert(chunk_texts(out@) =~= chunk_texts(before).push(buf));
            assert(chunk_texts(out@).drop_last() =~= chunk_texts(before));
            assert(concat(chunk_texts(out@)) == concat(chunk_texts(before)) + buf);
            assert(chunker@.buffer == u);
            assert(concat(sub) == concat(views.subrange(0, k as int)) + u);
            assert(concat(chunk_texts(out@)) + chunker@.buffer =~= concat(sub));
            assert(chunk_ok(chunker@.buffer, views, b));
            assert forall|j: int| 0 <= j < out.len() implies chunk_ok(
                #[trigger] chunk_texts(out@)[j],
                views,
                b,
            ) by {
                if j < before.len() {
                    assert(chunk_texts(out@)[j] == chunk_texts(before)[j]);
                }
            }
        } else {
            assert(concat(chunk_texts(out@)) + chunker@.buffer =~= concat(sub));
        }
        k = k + 1;
    }
    assert(views.subrange(0, k as int) =~= views);
    proof {
        lemma_file_count(b, views);
    }
    let ghost buf = chunker@.buffer;
    let ghost before = out@;
    let last = chunker.finish();
    if let Some(chunk) = last {
        out.push(chunk);
        assert(chunk_texts(out@) =~= chunk_texts(before).push(buf));
        assert(chunk_texts(out@).drop_last() =~= chunk_texts(before));
        assert(concat(chunk_texts(out@)) == concat(chunk_texts(before)) + buf);
        assert forall|j: int| 0 <= j < out.len() implies chunk_ok(
            #[trigger] chunk_texts(out@)[j],
            views,
            b,
        ) by {
            if j < before.len() {
                assert(chunk_texts(out@)[j] == chunk_texts(before)[j]);
            }
        }
    } else {
        assert(buf =~= Seq::<char>::empty());
        assert(concat(chunk_texts(out@)) + buf =~= concat(chunk_texts(out@)));
    }
    out
}

/// One unit of bulk output: the header line, then the record line.
pub fn bulk_unit(header: &str, body: &str) -> (r: String)
    ensures
        r@ == header@ + seq!['\n'] + body@ + seq!['\n'],
{
    let mut r = String::new();
    push_str(&mut r, header);
    push_char(&mut r, '\n');
    push_str(&mut r, body);
    push_char(&mut r, '\n');
    r
}

pub open spec fn digit_char(d: nat) -> char {
    seq!['0', '1', '2', '3', '4', '5', '6', '7', '8', '9'][d as int]
}

/// The decimal digits of `n`.
pub open spec fn decimal(n: nat) -> Seq<char>
    decreases n,
{
    if n < 10 {
        seq![digit_char(n)]
    } else {
        decimal(n / 10).push(digit_char(n % 10))
    }
}

fn push_decimal(out: &mut String, n: usize)
    ensures
        final(out)@ == old(out)@ + decimal(n as nat),
    decreases n,
{
    if n >= 10 {
        push_decimal(out, n / 10);
    }
    let d = n % 10;
    let c = if d == 0 {
        '0'
    } else if d == 1 {
        '1'
    } else if d == 2 {
        '2'
    } else if d == 3 {
        '3'
    } else if d == 4 {
        '4'
    } else if d == 5 {
        '5'
    } else if d == 6 {
        '6'
    } else if d == 7 {
        '7'
    } else if d == 8 {
        '8'
    } else {
        '9'
    };
    push_char(out, c);
    assert(out@ =~= old(out)@ + decimal(n as nat));
}

/// The name of chunk file `index`: `pattern` with each `%` replaced by the index in decimal.
pub fn chunk_file_name(pattern: &str, index: usize) -> (r: String)
    ensures
        r@ == substitute(pattern@, '%', decimal(index as nat)),
{
    let mut digits = String::new();
    push_decimal(&mut digits, index);
    assert(digits@ =~= decimal(index as nat));
    replace_char(pattern, '%', digits.as_str())
}

} // verus!
