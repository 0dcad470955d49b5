use vstd::prelude::*;

use crate::attr::AttrType;
use crate::token::LRange;

verus! {

/// The ranges recorded under type `t`, in the order they were recorded.
pub open spec fn ranges_of(entries: Seq<(AttrType, LRange)>, t: AttrType) -> Seq<LRange>
    decreases entries.len(),
{
    if entries.len() == 0 {
        Seq::empty()
    } else {
        let prev = ranges_of(entries.drop_last(), t);
        if entries.last().0 == t {
            prev.push(entries.last().1)
        } else {
            prev
        }
    }
}

/// A set-valued index from attribute type to ranges, kept in insertion order.
pub struct TypeIdToMany {
    entries: Vec<(AttrType, LRange)>,
}

impl View for TypeIdToMany {
    type V = Seq<(AttrType, LRange)>;

    closed spec fn view(&self) -> Seq<(AttrType, LRange)> {
        self.entries@
    }
}

impl TypeIdToMany {
    pub fn new() -> (r: Self)
        ensures
            r@ == Seq::<(AttrType, LRange)>::empty(),
    {
        TypeIdToMany { entries: Vec::new() }
    }

    /// Whether `range` is recorded under `t`.
    pub fn contains(&self, t: AttrType, range: LRange) -> (r: bool)
        ensures
            r == self@.contains((t, range)),
    {
        let mut i: usize = 0;
        while i < self.entries.len()
            invariant
                0 <= i <= self.entries@.len(),
                forall|k: int| 0 <= k < i ==> self.entries@[k] != (t, range),
            decreases self.entries@.len() - i,
        {
            let e = self.entries[i];
            if e.0 == t && e.1.0 == range.0 && e.1.1 == range.1 {
                return true;
            }
            i += 1;
        }
        false
    }

    /// Records `range` under `t` unless that pair is already recorded.
    pub fn insert_distinct(&mut self, t: AttrType, range: LRange)
        ensures
            final(self)@ == if old(self)@.contains((t, range)) {
                old(self)@
            } else {
                old(self)@.push((t, range))
            },
    {
        if !self.contains(t, range) {
            self.entries.push((t, range));
        }
    }

    /// All ranges recorded under `t`, in insertion order.
    pub fn get(&self, t: AttrType) -> (r: Vec<LRange>)
        ensures
            r@ == ranges_of(self@, t),
    {
        let mut out: Vec<LRange> = Vec::new();
        let mut i: usize = 0;
        while i < self.entries.len()
            invariant
                0 <= i <= self.entries@.len(),
                out@ == ranges_of(self.entries@.subrange(0, i as int), t),
            decreases self.entries@.len() - i,
        {
            let e = self.entries[i];
            assert(self.entries@.subrange(0, i + 1).drop_last() == self.entries@.subrange(0, i as int));
            if e.0 == t {
                out.push(e.1);
            }
            i += 1;
        }
        assert(self.entries@.subrange(0, self.entries@.len() as int) == self.entries@);
        out
    }
}

} // verus!
