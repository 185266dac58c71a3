//! A forward cursor over a snapshot of a map's entries.
use vstd::prelude::*;

verus! {

/// Yields the entries that a map held when the cursor was made, in chain
/// order. Later changes to the map do not reach it.
pub struct Iter<K, V> {
    items: Vec<(K, V)>,
    at: usize,
}

impl<K, V> View for Iter<K, V> {
    type V = Seq<(K, V)>;

    /// The entries still to come.
    closed spec fn view(&self) -> Seq<(K, V)> {
        self.items@.subrange(self.at as int, self.items@.len() as int)
    }
}

impl<K: Copy, V: Copy> Iter<K, V> {
    pub closed spec fn wf(&self) -> bool {
        self.at <= self.items@.len()
    }

    /// A cursor at the first of `items`.
    pub fn from_entries(items: Vec<(K, V)>) -> (r: Self)
        ensures
            r.wf(),
            r@ == items@,
    {
        let r = Iter { items, at: 0 };
        assert(r@ =~= r.items@);
        r
    }

    /// The next entry, or `None` once all have been yielded.
    pub fn next(&mut self) -> (r: Option<(K, V)>)
        requires
            old(self).wf(),
        ensures
            final(self).wf(),
            old(self)@.len() == 0 ==> r is None && final(self)@ == old(self)@,
            old(self)@.len() > 0 ==> r == Some(old(self)@[0]) && final(self)@ == old(self)@.drop_first(),
    {
        if self.at < self.items.len() {
            let item = self.items[self.at];
            self.at = self.at + 1;
            assert(self@ =~= old(self)@.drop_first());
            Some(item)
        } else {
            None
        }
    }
}

} // verus!
