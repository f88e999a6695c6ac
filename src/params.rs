//! The parameter list of a message, held in smallvec's inline-first vector.
use smallvec::SmallVec;
use vstd::prelude::*;

verus! {

/// A message's parameters. Most messages have at most two, which smallvec keeps inline.
#[verifier::external_body]
#[derive(Debug)]
pub struct ParamList {
    items: SmallVec<[String; 2]>,
}

/// The texts that a parameter list holds, in order.
pub uninterp spec fn param_items(v: ParamList) -> Seq<Seq<char>>;

impl ParamList {
    /// Relies on `SmallVec::new`: an empty vector.
    #[verifier::external_body]
    pub(crate) fn new() -> (r: ParamList)
        ensures
            param_items(r) == Seq::<Seq<char>>::empty(),
    {
        ParamList { items: SmallVec::new() }
    }

    /// Relies on `SmallVec::push`: appends one item at the end.
    #[verifier::external_body]
    pub(crate) fn push(&mut self, s: String)
        ensures
            param_items(*final(self)) == param_items(*old(self)).push(s@),
    {
        self.items.push(s)
    }

    /// Relies on `SmallVec::len`: the number of items.
    #[verifier::external_body]
    pub(crate) fn len(&self) -> (r: usize)
        ensures
            r == param_items(*self).len(),
    {
        self.items.len()
    }

    /// Relies on `SmallVec`'s indexing: the item at `i`.
    #[verifier::external_body]
    pub(crate) fn get(&self, i: usize) -> (r: &String)
        requires
            i < param_items(*self).len(),
        ensures
            r@ == param_items(*self)[i as int],
    {
        &self.items[i]
    }
}

} // verus!
