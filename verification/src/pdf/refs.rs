//! Object numbers of the PDF file.
//!
//! Every indirect object gets a positive number; the writer hands them out
//! one after another from 1, so that the cross-reference table has no gaps.
use vstd::prelude::*;

verus! {

/// Hands out object numbers 1, 2, 3, ... in order.
#[derive(Debug)]
pub struct RefAllocator {
    last: i32,
}

impl View for RefAllocator {
    /// The last number handed out (0 before the first).
    type V = int;

    closed spec fn view(&self) -> int {
        self.last as int
    }
}

impl RefAllocator {
    pub closed spec fn wf(&self) -> bool {
        self.last >= 0
    }

    /// An allocator that has handed out nothing yet.
    pub fn new() -> (a: RefAllocator)
        ensures
            a.wf(),
            a@ == 0,
    {
        RefAllocator { last: 0 }
    }

    /// Hands out the next number.
    pub fn next(&mut self) -> (id: i32)
        requires
            old(self).wf(),
            old(self)@ < i32::MAX,
        ensures
            final(self).wf(),
            id == old(self)@ + 1,
            id >= 1,
            final(self)@ == id,
    {
        self.last = self.last + 1;
        self.last
    }

    /// The last number handed out (0 before the first).
    pub fn issued(&self) -> (n: i32)
        requires
            self.wf(),
        ensures
            n == self@,
            n >= 0,
    {
        self.last
    }

    /// The number that [`RefAllocator::next`] would hand out, without
    /// handing it out.
    pub fn peek(&self) -> (id: i32)
        requires
            self.wf(),
            self@ < i32::MAX,
        ensures
            id == self@ + 1,
    {
        self.last + 1
    }

    /// Marks the `count` numbers from [`RefAllocator::peek`] on as handed
    /// out (they were given away by someone who only peeked).
    pub fn commit(&mut self, count: usize)
        requires
            old(self).wf(),
            old(self)@ + count <= i32::MAX,
        ensures
            final(self).wf(),
            final(self)@ == old(self)@ + count,
    {
        self.last = self.last + count as i32;
    }
}

impl Default for RefAllocator {
    fn default() -> (a: Self)
        ensures
            a.wf(),
            a@ == 0,
    {
        RefAllocator::new()
    }
}

/// Whether `s` holds no value twice.
pub open spec fn distinct(s: Seq<i32>) -> bool {
    forall|i: int, j: int| 0 <= i < j < s.len() ==> s[i] != s[j]
}

/// The position of `x` in `s`, if it occurs.
pub open spec fn position_of(s: Seq<i32>, x: i32) -> Option<int>
    decreases s.len(),
{
    if s.len() == 0 {
        None
    } else if s.last() == x {
        Some(s.len() - 1)
    } else {
        position_of(s.drop_last(), x)
    }
}

proof fn lemma_position_of(s: Seq<i32>, x: i32)
    requires
        distinct(s),
    ensures
        match position_of(s, x) {
            Some(k) => 0 <= k < s.len() && s[k] == x,
            None => forall|i: int| 0 <= i < s.len() ==> s[i] != x,
        },
        forall|k: int| 0 <= k < s.len() && s[k] == x ==> position_of(s, x) == Some(k),
    decreases s.len(),
{
    if s.len() > 0 {
        let t = s.drop_last();
        assert(distinct(t)) by {
            assert forall|i: int, j: int| 0 <= i < j < t.len() implies t[i] != t[j] by {
                assert(t[i] == s[i] && t[j] == s[j]);
            }
        }
        lemma_position_of(t, x);
        assert forall|i: int| 0 <= i < t.len() implies t[i] == s[i] by {}
    }
}

/// Gives new object numbers to the objects of a self-contained group of
/// objects (a converted SVG) as they are met: the first object met gets
/// `first`, the next new one `first + 1`, and so on; an object met again
/// keeps its number.
#[derive(Debug)]
pub struct RefRenumbering {
    first: i32,
    /// The old numbers in the order they were first met.
    seen: Vec<i32>,
}

impl RefRenumbering {
    /// The first new number.
    pub closed spec fn first(&self) -> int {
        self.first as int
    }

    /// The old numbers in the order they were met.
    pub closed spec fn seen(&self) -> Seq<i32> {
        self.seen@
    }

    pub closed spec fn wf(&self) -> bool {
        &&& self.first >= 1
        &&& distinct(self.seen@)
        &&& self.first + self.seen@.len() <= i32::MAX as int + 1
    }

    /// What well-formedness means for the numbers.
    pub proof fn lemma_wf(&self)
        requires
            self.wf(),
        ensures
            self.first() >= 1,
            distinct(self.seen()),
            self.first() + self.seen().len() <= i32::MAX as int + 1,
    {
    }

    /// The new number of `id`, if it has been met.
    pub open spec fn spec_get(&self, id: i32) -> Option<int> {
        match position_of(self.seen(), id) {
            Some(k) => Some(self.first() + k),
            None => None,
        }
    }

    /// A renumbering that starts at `first` (the allocator's
    /// [`RefAllocator::peek`]).
    pub fn starting_at(first: i32) -> (r: RefRenumbering)
        requires
            first >= 1,
        ensures
            r.wf(),
            r.first() == first,
            r.seen() == Seq::<i32>::empty(),
    {
        RefRenumbering { first, seen: Vec::new() }
    }

    /// The number of distinct objects met so far.
    pub fn len(&self) -> (n: usize)
        ensures
            n == self.seen().len(),
    {
        self.seen.len()
    }

    /// The new number of `id`, if it has been met.
    pub fn get(&self, id: i32) -> (r: Option<i32>)
        requires
            self.wf(),
        ensures
            match r {
                Some(v) => self.spec_get(id) == Some(v as int),
                None => self.spec_get(id) is None,
            },
    {
        proof {
            lemma_position_of(self.seen@, id);
        }
        let mut k: usize = 0;
        while k < self.seen.len()
            invariant
                self.wf(),
                k <= self.seen@.len(),
                forall|i: int| 0 <= i < k ==> self.seen@[i] != id,
            decreases self.seen@.len() - k,
        {
            if self.seen[k] == id {
                proof {
                    lemma_position_of(self.seen@, id);
                }
                return Some(self.first + k as i32);
            }
            k = k + 1;
        }
        None
    }

    /// The new number of `id`: the number it already has, or the next free
    /// one. `None` when `id` is new and the numbers have run out.
    pub fn map(&mut self, id: i32) -> (r: Option<i32>)
        requires
            old(self).wf(),
        ensures
            final(self).wf(),
            final(self).first() == old(self).first(),
            match old(self).spec_get(id) {
                Some(v) => r == Some(v as i32) && final(self).seen() == old(self).seen(),
                None => if old(self).first() + old(self).seen().len() <= i32::MAX {
                    &&& r == Some((old(self).first() + old(self).seen().len()) as i32)
                    &&& final(self).seen() == old(self).seen().push(id)
                } else {
                    r is None && final(self).seen() == old(self).seen()
                },
            },
            r matches Some(v) ==> final(self).spec_get(id) == Some(v as int),
    {
        proof {
            lemma_position_of(self.seen@, id);
        }
        match self.get(id) {
            Some(v) => Some(v),
            None => {
                let n = self.seen.len();
                if n as i64 + self.first as i64 > i32::MAX as i64 {
                    return None;
                }
                let v = self.first + n as i32;
                let ghost before = self.seen@;
                self.seen.push(id);
                proof {
                    assert(self.seen@.drop_last() =~= before);
                    assert(distinct(self.seen@));
                    lemma_position_of(self.seen@, id);
                }
                Some(v)
            },
        }
    }
}

} // verus!

verus! {

/// Every object met has a number of its own, and the numbers handed out are
/// exactly `first`, `first + 1`, ..., one per object, with no gap.
pub proof fn lemma_renumbering_is_consecutive(m: &RefRenumbering)
    requires
        m.wf(),
    ensures
        forall|k: int| 0 <= k < m.seen().len() ==> m.spec_get(#[trigger] m.seen()[k]) == Some(m.first() + k),
        forall|id: i32|
            #[trigger] m.spec_get(id) is Some ==> m.first() <= m.spec_get(id)->0 < m.first() + m.seen().len(),
{
    m.lemma_wf();
    assert forall|k: int| 0 <= k < m.seen().len() implies m.spec_get(#[trigger] m.seen()[k]) == Some(
        m.first() + k,
    ) by {
        lemma_position_of(m.seen(), m.seen()[k]);
    }
    assert forall|id: i32| #[trigger] m.spec_get(id) is Some implies m.first() <= m.spec_get(id)->0
        < m.first() + m.seen().len() by {
        lemma_position_of(m.seen(), id);
    }
}

} // verus!
