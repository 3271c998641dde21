//! The cross-reference table and trailer of a PDF written piece by piece.
//!
//! Objects are written to the sink as soon as they are ready, each as a
//! self-contained run of bytes; the table records where each one started
//! and, at the end, is written out sorted by object number, followed by the
//! trailer.
use vstd::prelude::*;
use crate::text::{decimal_digits, padded_decimal, push_decimal, push_padded_decimal};

verus! {

/// `(object number, byte offset)` entries sorted by object number; entries
/// with the same number keep their order (each step puts the next entry
/// after every entry whose number is not larger).
pub open spec fn spec_sort_by_id(s: Seq<(i32, usize)>) -> Seq<(i32, usize)>
    decreases s.len(),
{
    if s.len() == 0 {
        s
    } else {
        let sorted = spec_sort_by_id(s.drop_last());
        sorted.insert(insert_position(sorted, s.last().0), s.last())
    }
}

/// Where an entry with number `id` goes in `sorted`: after the last entry
/// whose number is at most `id`.
pub open spec fn insert_position(sorted: Seq<(i32, usize)>, id: i32) -> int
    decreases sorted.len(),
{
    if sorted.len() == 0 {
        0
    } else if sorted.last().0 <= id {
        sorted.len() as int
    } else {
        insert_position(sorted.drop_last(), id)
    }
}

/// Whether the entries are sorted by object number.
pub open spec fn sorted_by_id(s: Seq<(i32, usize)>) -> bool {
    forall|i: int, j: int| 0 <= i < j < s.len() ==> s[i].0 <= s[j].0
}

proof fn lemma_insert_position(sorted: Seq<(i32, usize)>, id: i32)
    ensures
        0 <= insert_position(sorted, id) <= sorted.len(),
        forall|k: int| insert_position(sorted, id) <= k < sorted.len() ==> sorted[k].0 > id,
        sorted_by_id(sorted) ==> forall|k: int| 0 <= k < insert_position(sorted, id) ==> sorted[k].0 <= id,
    decreases sorted.len(),
{
    if sorted.len() > 0 {
        let t = sorted.drop_last();
        let last = sorted.len() - 1;
        assert forall|k: int| 0 <= k < t.len() implies t[k] == sorted[k] by {}
        if sorted.last().0 > id {
            lemma_insert_position(t, id);
            if sorted_by_id(sorted) {
                assert(sorted_by_id(t));
            }
        } else if sorted_by_id(sorted) {
            assert forall|k: int| 0 <= k < insert_position(sorted, id) implies sorted[k].0 <= id by {
                if k < last {
                    assert(sorted[k].0 <= sorted[last].0);
                }
            }
        }
    }
}

/// The entries sorted by object number really are sorted, and are the same
/// entries.
pub proof fn lemma_sort_by_id(s: Seq<(i32, usize)>)
    ensures
        sorted_by_id(spec_sort_by_id(s)),
        spec_sort_by_id(s).to_multiset() == s.to_multiset(),
    decreases s.len(),
{
    broadcast use vstd::seq_lib::group_to_multiset_ensures;
    if s.len() > 0 {
        let t = s.drop_last();
        lemma_sort_by_id(t);
        let sorted = spec_sort_by_id(t);
        let e = s.last();
        let p = insert_position(sorted, e.0);
        lemma_insert_position(sorted, e.0);
        let r = sorted.insert(p, e);
        assert forall|i: int, j: int| 0 <= i < j < r.len() implies r[i].0 <= r[j].0 by {
            if j < p {
            } else if j == p {
            } else if i < p {
                assert(r[j] == sorted[j - 1]);
            } else if i == p {
                assert(r[j] == sorted[j - 1]);
            } else {
                assert(r[i] == sorted[i - 1] && r[j] == sorted[j - 1]);
            }
        }
        assert(s =~= t.push(e));
        assert(r.to_multiset() =~= sorted.to_multiset().insert(e)) by {
            vstd::seq_lib::to_multiset_insert(sorted, p, e);
        }
    }
}

/// The largest object number of the entries (0 for none).
pub open spec fn max_id(s: Seq<(i32, usize)>) -> int
    decreases s.len(),
{
    if s.len() == 0 {
        0
    } else {
        let m = max_id(s.drop_last());
        if s.last().0 > m {
            s.last().0 as int
        } else {
            m
        }
    }
}

/// The lines of the table for `entries`, one per object: the offset padded
/// to ten digits, then generation 0 and the in-use marker.
pub open spec fn xref_lines(entries: Seq<(i32, usize)>) -> Seq<char>
    decreases entries.len(),
{
    if entries.len() == 0 {
        Seq::empty()
    } else {
        xref_lines(entries.drop_last()) + padded_decimal(entries.last().1 as nat, 10) + " 00000 n \n"@
    }
}

/// The cross-reference table and trailer for objects that started at the
/// byte offsets `offsets`, with the catalog `catalog_id` and the table
/// itself at `xref_offset`: the table lists the free object 0 and then every
/// object in order of number, `/Size` is one more than the largest number.
pub open spec fn spec_xref_and_trailer(offsets: Seq<(i32, usize)>, catalog_id: i32, xref_offset: usize) -> Seq<
    char,
> {
    let size = (max_id(offsets) + 1) as nat;
    "xref\n0 "@ + decimal_digits(size) + "\n"@ + "0000000000 65535 f \n"@ + xref_lines(
        spec_sort_by_id(offsets),
    ) + "trailer\n<< /Size "@ + decimal_digits(size) + " /Root "@ + decimal_digits(catalog_id as nat)
        + " 0 R >>\n"@ + "startxref\n"@ + decimal_digits(xref_offset as nat) + "\n%%EOF"@
}

/// `entries` sorted by object number (stable).
pub fn sort_by_id(entries: &Vec<(i32, usize)>) -> (r: Vec<(i32, usize)>)
    ensures
        r@ == spec_sort_by_id(entries@),
{
    let mut out: Vec<(i32, usize)> = Vec::new();
    let mut i: usize = 0;
    while i < entries.len()
        invariant
            i <= entries@.len(),
            out@ == spec_sort_by_id(entries@.subrange(0, i as int)),
        decreases entries@.len() - i,
    {
        let e = entries[i];
        let mut p = out.len();
        assert(out@.subrange(0, p as int) =~= out@);
        while p > 0 && out[p - 1].0 > e.0
            invariant
                p <= out@.len(),
                insert_position(out@, e.0) == insert_position(out@.subrange(0, p as int), e.0),
            decreases p,
        {
            assert(out@.subrange(0, p as int).drop_last() =~= out@.subrange(0, p - 1));
            p = p - 1;
        }
        proof {
            assert(out@.subrange(0, out@.len() as int) =~= out@);
            if p > 0 {
                assert(out@.subrange(0, p as int).last() == out@[p - 1]);
            }
            let t = entries@.subrange(0, i + 1);
            assert(t.drop_last() =~= entries@.subrange(0, i as int));
            assert(t.last() == e);
        }
        out.insert(p, e);
        i = i + 1;
    }
    assert(entries@.subrange(0, i as int) =~= entries@);
    out
}

/// The largest object number of the entries (0 for none).
fn largest_id(entries: &Vec<(i32, usize)>) -> (m: i32)
    requires
        forall|k: int| 0 <= k < entries@.len() ==> entries@[k].0 > 0,
    ensures
        m == max_id(entries@),
        m >= 0,
{
    let mut m: i32 = 0;
    let mut i: usize = 0;
    while i < entries.len()
        invariant
            i <= entries@.len(),
            m >= 0,
            m == max_id(entries@.subrange(0, i as int)),
        decreases entries@.len() - i,
    {
        proof {
            let t = entries@.subrange(0, i + 1);
            assert(t.drop_last() =~= entries@.subrange(0, i as int));
        }
        if entries[i].0 > m {
            m = entries[i].0;
        }
        i = i + 1;
    }
    assert(entries@.subrange(0, i as int) =~= entries@);
    m
}

/// The cross-reference table and trailer, as text: see
/// [`spec_xref_and_trailer`]. Object numbers are positive, and the largest
/// leaves room for `/Size`.
pub fn xref_and_trailer(offsets: &Vec<(i32, usize)>, catalog_id: i32, xref_offset: usize) -> (r: String)
    requires
        forall|k: int| 0 <= k < offsets@.len() ==> 0 < #[trigger] offsets@[k].0 < i32::MAX,
        catalog_id > 0,
    ensures
        r@ == spec_xref_and_trailer(offsets@, catalog_id, xref_offset),
{
    let largest = largest_id(offsets);
    proof {
        if offsets@.len() > 0 {
            lemma_max_id_is_an_id(offsets@);
        }
    }
    let size = largest + 1;
    let sorted = sort_by_id(offsets);
    let mut buf = String::new();
    buf.append("xref\n0 ");
    push_decimal(&mut buf, size as u64);
    buf.append("\n");
    buf.append("0000000000 65535 f \n");
    let ghost head = buf@;
    let mut i: usize = 0;
    while i < sorted.len()
        invariant
            i <= sorted@.len(),
            buf@ == head + xref_lines(sorted@.subrange(0, i as int)),
        decreases sorted@.len() - i,
    {
        proof {
            let t = sorted@.subrange(0, i + 1);
            assert(t.drop_last() =~= sorted@.subrange(0, i as int));
        }
        push_padded_decimal(&mut buf, sorted[i].1 as u64, 10);
        buf.append(" 00000 n \n");
        i = i + 1;
        assert(buf@ =~= head + xref_lines(sorted@.subrange(0, i as int)));
    }
    assert(sorted@.subrange(0, i as int) =~= sorted@);
    buf.append("trailer\n<< /Size ");
    push_decimal(&mut buf, size as u64);
    buf.append(" /Root ");
    push_decimal(&mut buf, catalog_id as u64);
    buf.append(" 0 R >>\n");
    buf.append("startxref\n");
    push_decimal(&mut buf, xref_offset as u64);
    buf.append("\n%%EOF");
    assert(buf@ =~= spec_xref_and_trailer(offsets@, catalog_id, xref_offset));
    buf
}

proof fn lemma_max_id_is_an_id(s: Seq<(i32, usize)>)
    requires
        s.len() > 0,
        forall|k: int| 0 <= k < s.len() ==> 0 < #[trigger] s[k].0 < i32::MAX,
    ensures
        exists|k: int| 0 <= k < s.len() && max_id(s) == s[k].0,
    decreases s.len(),
{
    let t = s.drop_last();
    let last = s.len() - 1;
    assert(s[last] == s.last());
    if t.len() > 0 {
        assert forall|k: int| 0 <= k < t.len() implies 0 < #[trigger] t[k].0 < i32::MAX by {
            assert(t[k] == s[k]);
        }
        lemma_max_id_is_an_id(t);
        let k = choose|k: int| 0 <= k < t.len() && max_id(t) == t[k].0;
        assert(s[k] == t[k]);
        if s.last().0 > max_id(t) {
            assert(max_id(s) == s[last].0);
        } else {
            assert(max_id(s) == s[k].0);
        }
    } else {
        assert(s[0].0 > 0);
        assert(max_id(t) == 0);
        assert(max_id(s) == s[0].0);
    }
}

} // verus!

verus! {

/// Where each object written so far started, and how many bytes have been
/// written in all.
#[derive(Debug)]
pub struct ObjectOffsets {
    output_len: usize,
    offsets: Vec<(i32, usize)>,
}

impl ObjectOffsets {
    /// The `(object number, offset)` of each object, in the order written.
    pub closed spec fn entries(&self) -> Seq<(i32, usize)> {
        self.offsets@
    }

    /// The number of bytes written.
    pub closed spec fn written(&self) -> nat {
        self.output_len as nat
    }

    /// A table for a file whose first `header_len` bytes (the file header)
    /// have been written.
    pub fn new(header_len: usize) -> (t: ObjectOffsets)
        ensures
            t.entries() == Seq::<(i32, usize)>::empty(),
            t.written() == header_len,
    {
        ObjectOffsets { output_len: header_len, offsets: Vec::new() }
    }

    /// Records that object `id`, `len` bytes long, is written next.
    pub fn record(&mut self, id: i32, len: usize)
        requires
            old(self).written() + len <= usize::MAX,
        ensures
            final(self).entries() == old(self).entries().push((id, old(self).written() as usize)),
            final(self).written() == old(self).written() + len,
    {
        self.offsets.push((id, self.output_len));
        self.output_len = self.output_len + len;
    }

    /// The number of bytes written.
    pub fn written_len(&self) -> (n: usize)
        ensures
            n == self.written(),
    {
        self.output_len
    }

    /// The table and trailer that end the file, the table starting where
    /// the objects end.
    pub fn xref_and_trailer(&self, catalog_id: i32) -> (r: String)
        requires
            forall|k: int| 0 <= k < self.entries().len() ==> 0 < #[trigger] self.entries()[k].0 < i32::MAX,
            catalog_id > 0,
        ensures
            r@ == spec_xref_and_trailer(self.entries(), catalog_id, self.written() as usize),
    {
        xref_and_trailer(&self.offsets, catalog_id, self.output_len)
    }
}

} // verus!
