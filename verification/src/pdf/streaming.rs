//! Writing a PDF to a [`Sink`] piece by piece, as pages are finished.
//!
//! Every indirect object is handed to the sink as soon as it is ready, as a
//! self-contained run of bytes; the writer numbers the objects, remembers
//! where each one starts, and ends the file with the cross-reference table
//! and trailer. The objects' bytes themselves (content streams, page
//! dictionaries, embedded fonts) are serialised by the caller.
use vstd::prelude::*;
use crate::pdf::refs::RefAllocator;
use crate::pdf::xref::{spec_xref_and_trailer, ObjectOffsets};
use crate::sink::{concat, Sink};
use vstd::utf8::encode_utf8;

verus! {

/// The object numbers of one embedded font's objects.
#[derive(Clone, Copy, PartialEq, Eq, Structural, Debug)]
pub struct FontIds {
    pub font_file: i32,
    pub descriptor: i32,
    pub cid_font: i32,
    pub type0_font: i32,
    pub to_unicode: i32,
    pub cid_to_gid_map: i32,
}

/// The numbers the writer gives the fonts: six consecutive numbers each,
/// from 3 on (1 and 2 are the catalog and the page tree).
pub open spec fn spec_font_ids(k: int) -> FontIds {
    let base = 3 + 6 * k;
    FontIds {
        font_file: base as i32,
        descriptor: (base + 1) as i32,
        cid_font: (base + 2) as i32,
        type0_font: (base + 3) as i32,
        to_unicode: (base + 4) as i32,
        cid_to_gid_map: (base + 5) as i32,
    }
}

/// `%PDF-1.7`, then a comment of four bytes above 127 (which marks the file
/// as binary), then a blank line.
pub open spec fn pdf_header() -> Seq<u8> {
    seq![0x25u8, 0x50, 0x44, 0x46, 0x2d, 0x31, 0x2e, 0x37, 0x0a, 0x25, 0x80, 0x80, 0x80, 0x80, 0x0a, 0x0a]
}

fn pdf_header_bytes() -> (r: Vec<u8>)
    ensures
        r@ == pdf_header(),
{
    let mut v: Vec<u8> = Vec::new();
    v.push(0x25);
    v.push(0x50);
    v.push(0x44);
    v.push(0x46);
    v.push(0x2d);
    v.push(0x31);
    v.push(0x2e);
    v.push(0x37);
    v.push(0x0a);
    v.push(0x25);
    v.push(0x80);
    v.push(0x80);
    v.push(0x80);
    v.push(0x80);
    v.push(0x0a);
    v.push(0x0a);
    assert(v@ =~= pdf_header());
    v
}

/// A PDF being written to a sink: see the module documentation.
pub struct StreamingPdfWriter<S: Sink> {
    sink: S,
    table: ObjectOffsets,
    alloc: RefAllocator,
    catalog_id: i32,
    pages_tree_id: i32,
    font_ids: Vec<FontIds>,
    page_ids: Vec<i32>,
    /// The bytes of each object handed to the sink, in order.
    objects: Ghost<Seq<Seq<u8>>>,
    /// What the sink held before the file began.
    base: Ghost<Seq<u8>>,
}

/// The length of the first `k` objects together.
pub open spec fn prefix_len(objects: Seq<Seq<u8>>, k: int) -> int {
    concat(objects.take(k)).len() as int
}

impl<S: Sink> StreamingPdfWriter<S> {
    /// Everything handed to the sink: the header, then the objects.
    pub closed spec fn written(&self) -> Seq<u8> {
        pdf_header() + concat(self.objects@)
    }

    /// The bytes of each object handed to the sink, in order.
    pub closed spec fn objects(&self) -> Seq<Seq<u8>> {
        self.objects@
    }

    /// What the sink held before the file began.
    pub closed spec fn base(&self) -> Seq<u8> {
        self.base@
    }

    /// Whether the sink keeps an account of the bytes it accepts.
    pub closed spec fn sink_keeps_account(&self) -> bool {
        self.sink.keeps_account()
    }

    /// Everything the sink has accepted, where it keeps an account of it.
    pub closed spec fn sink_bytes(&self) -> Seq<u8> {
        self.sink.received()
    }

    /// The `(number, offset)` of each object, in the order written.
    pub closed spec fn entries(&self) -> Seq<(i32, usize)> {
        self.table.entries()
    }

    /// The last object number handed out.
    pub closed spec fn issued(&self) -> int {
        self.alloc@
    }

    pub closed spec fn spec_catalog_id(&self) -> i32 {
        self.catalog_id
    }

    pub closed spec fn spec_pages_tree_id(&self) -> i32 {
        self.pages_tree_id
    }

    pub closed spec fn spec_font_ids(&self) -> Seq<FontIds> {
        self.font_ids@
    }

    /// The numbers of the page objects, in page order.
    pub closed spec fn spec_page_ids(&self) -> Seq<i32> {
        self.page_ids@
    }

    pub closed spec fn wf(&self) -> bool {
        &&& self.sink.ready()
        &&& self.sink.keeps_account() ==> self.sink.received() == self.base@ + self.written()
        &&& self.alloc.wf()
        &&& self.table.entries().len() == self.objects@.len()
        &&& forall|k: int|
            0 <= k < self.objects@.len() ==> #[trigger] self.table.entries()[k].1 == pdf_header().len()
                + prefix_len(self.objects@, k)
        &&& forall|k: int|
            0 <= k < self.objects@.len() ==> 0 < #[trigger] self.table.entries()[k].0 < i32::MAX
        &&& self.table.written() == pdf_header().len() + concat(self.objects@).len()
        &&& self.catalog_id == 1
        &&& self.pages_tree_id == 2
        &&& forall|k: int| 0 <= k < self.page_ids@.len() ==> 0 < #[trigger] self.page_ids@[k] <= self.alloc@
    }

    /// Starts a PDF on `sink` with room for `font_count` fonts: writes the
    /// file header and gives numbers to the catalog (1), the page tree (2)
    /// and each font's six objects (3 on). Fails when the sink refuses the
    /// header.
    pub fn new(font_count: usize, sink: S) -> (r: Result<Self, S::Error>)
        requires
            sink.ready(),
            2 + 6 * font_count < i32::MAX,
        ensures
            r matches Ok(w) ==> {
                &&& w.wf()
                &&& w.sink_keeps_account() == sink.keeps_account()
                &&& w.base() == sink.received()
                &&& sink.keeps_account() ==> w.sink_bytes() == sink.received() + pdf_header()
                &&& w.objects() == Seq::<Seq<u8>>::empty()
                &&& w.written() == pdf_header()
                &&& w.spec_catalog_id() == 1
                &&& w.spec_pages_tree_id() == 2
                &&& w.spec_font_ids() == Seq::new(font_count as nat, |k: int| spec_font_ids(k))
                &&& w.spec_page_ids() == Seq::<i32>::empty()
                &&& w.issued() == 2 + 6 * font_count
            },
    {
        let ghost base = sink.received();
        let mut sink = sink;
        let header = pdf_header_bytes();
        match sink.write(header.as_slice()) {
            Ok(()) => {},
            Err(e) => {
                return Err(e);
            },
        }
        let mut alloc = RefAllocator::new();
        let catalog_id = alloc.next();
        let pages_tree_id = alloc.next();
        let mut font_ids: Vec<FontIds> = Vec::new();
        let mut k: usize = 0;
        while k < font_count
            invariant
                k <= font_count,
                2 + 6 * font_count < i32::MAX,
                alloc.wf(),
                alloc@ == 2 + 6 * k,
                font_ids@ == Seq::new(k as nat, |j: int| spec_font_ids(j)),
            decreases font_count - k,
        {
            let ids = FontIds {
                font_file: alloc.next(),
                descriptor: alloc.next(),
                cid_font: alloc.next(),
                type0_font: alloc.next(),
                to_unicode: alloc.next(),
                cid_to_gid_map: alloc.next(),
            };
            font_ids.push(ids);
            k = k + 1;
            assert(font_ids@ =~= Seq::new(k as nat, |j: int| spec_font_ids(j)));
        }
        let w = StreamingPdfWriter {
            sink,
            table: ObjectOffsets::new(16),
            alloc,
            catalog_id,
            pages_tree_id,
            font_ids,
            page_ids: Vec::new(),
            objects: Ghost(Seq::empty()),
            base: Ghost(base),
        };
        assert(concat(Seq::<Seq<u8>>::empty()) == Seq::<u8>::empty());
        assert(w.written() =~= pdf_header());
        Ok(w)
    }

    /// Gives numbers to the next page object and its content stream, in
    /// that order, and records the page as the last one.
    pub fn begin_page(&mut self) -> (r: (i32, i32))
        requires
            old(self).wf(),
            old(self).issued() + 2 <= i32::MAX,
        ensures
            final(self).wf(),
            r.0 == old(self).issued() + 1,
            r.1 == old(self).issued() + 2,
            final(self).issued() == old(self).issued() + 2,
            final(self).spec_page_ids() == old(self).spec_page_ids().push(r.0),
            final(self).objects() == old(self).objects(),
            final(self).entries() == old(self).entries(),
            final(self).spec_font_ids() == old(self).spec_font_ids(),
    {
        let page_id = self.alloc.next();
        let content_id = self.alloc.next();
        let ghost before = self.page_ids@;
        self.page_ids.push(page_id);
        assert forall|k: int| 0 <= k < self.page_ids@.len() implies 0 < #[trigger] self.page_ids@[k] <= self.alloc@ by {
            if k < before.len() {
                assert(self.page_ids@[k] == before[k]);
                assert(before[k] == old(self).page_ids@[k]);
                assert(0 < old(self).page_ids@[k] <= old(self).alloc@);
            } else {
                assert(self.page_ids@[k] == page_id);
                assert(page_id == old(self).alloc@ + 1);
                assert(self.alloc@ == content_id);
            }
        }
        (page_id, content_id)
    }

    /// Hands object `id`, serialised as `bytes`, to the sink and records
    /// where it starts. The object counts as written even when the sink
    /// fails; what the sink holds is then unknown, and the caller gives up
    /// on the file.
    pub fn write_object(&mut self, id: i32, bytes: &[u8]) -> (r: Result<(), S::Error>)
        requires
            old(self).wf(),
            0 < id < i32::MAX,
            old(self).written().len() + bytes@.len() <= usize::MAX,
        ensures
            r is Ok ==> final(self).wf(),
            r is Ok && old(self).sink_keeps_account() ==> final(self).sink_bytes() == old(self).sink_bytes()
                + bytes@,
            final(self).sink_keeps_account() == old(self).sink_keeps_account(),
            final(self).base() == old(self).base(),
            final(self).spec_catalog_id() == old(self).spec_catalog_id(),
            final(self).spec_pages_tree_id() == old(self).spec_pages_tree_id(),
            final(self).objects() == old(self).objects().push(bytes@),
            final(self).entries() == old(self).entries().push((id, old(self).written().len() as usize)),
            final(self).written() == old(self).written() + bytes@,
            final(self).issued() == old(self).issued(),
            final(self).spec_page_ids() == old(self).spec_page_ids(),
            final(self).spec_font_ids() == old(self).spec_font_ids(),
    {
        let ghost old_objects = self.objects@;
        let ghost old_entries = self.table.entries();
        proof {
            lemma_concat_push(old_objects, bytes@);
        }
        self.table.record(id, bytes.len());
        self.objects = Ghost(self.objects@.push(bytes@));
        proof {
            assert forall|k: int| 0 <= k < self.objects@.len() implies #[trigger] self.table.entries()[k].1
                == pdf_header().len() + prefix_len(self.objects@, k) by {
                if k < old_objects.len() {
                    assert(self.table.entries()[k] == old_entries[k]);
                    assert(old_entries[k].1 == pdf_header().len() + prefix_len(old_objects, k));
                    assert(self.objects@.take(k) =~= old_objects.take(k));
                } else {
                    assert(self.objects@.take(k) =~= old_objects);
                }
            }
            assert forall|k: int| 0 <= k < self.objects@.len() implies 0 < #[trigger] self.table.entries()[k].0
                < i32::MAX by {
                if k < old_objects.len() {
                    assert(self.table.entries()[k] == old_entries[k]);
                }
            }
        }
        let r = self.sink.write(bytes);
        proof {
            assert(self.written() =~= old(self).written() + bytes@);
            assert(self.base@ + old(self).written() + bytes@ =~= self.base@ + self.written());
        }
        r
    }

    /// The last object number handed out.
    pub fn last_issued(&self) -> (n: i32)
        requires
            self.wf(),
        ensures
            n == self.issued(),
    {
        self.alloc.issued()
    }

    /// The number of bytes handed to the sink.
    pub fn written_len(&self) -> (n: usize)
        requires
            self.wf(),
        ensures
            n == self.written().len(),
    {
        self.table.written_len()
    }

    /// The number of the document catalog.
    pub fn catalog_id(&self) -> (id: i32)
        ensures
            id == self.spec_catalog_id(),
    {
        self.catalog_id
    }

    /// The number of the page tree.
    pub fn pages_tree_id(&self) -> (id: i32)
        ensures
            id == self.spec_pages_tree_id(),
    {
        self.pages_tree_id
    }

    /// The numbers of the page objects, in page order.
    pub fn page_ids(&self) -> (ids: &Vec<i32>)
        ensures
            ids@ == self.spec_page_ids(),
    {
        &self.page_ids
    }

    /// The numbers of each font's objects.
    pub fn font_ids(&self) -> (ids: &Vec<FontIds>)
        ensures
            ids@ == self.spec_font_ids(),
    {
        &self.font_ids
    }

    /// Ends the file: hands the cross-reference table and trailer (for the
    /// objects written, with the catalog as root) to the sink and finishes
    /// it. What it returns is what the sink gives once it holds the file
    /// whole; an error of the sink is passed on.
    pub fn finish(self) -> (r: Result<S::Output, S::Error>)
        requires
            self.wf(),
        ensures
            r matches Ok(out) ==> exists|s: S|
                {
                    &&& s.keeps_account() ==> s.received() == self.base() + self.written() + encode_utf8(
                        spec_xref_and_trailer(self.entries(), self.spec_catalog_id(), self.written().len() as usize),
                    )
                    &&& #[trigger] s.finished_with(out)
                },
    {
        let text = self.table.xref_and_trailer(self.catalog_id);
        let mut sink = self.sink;
        match sink.write(text.as_str().as_bytes()) {
            Ok(()) => {},
            Err(e) => {
                return Err(e);
            },
        }
        sink.finish()
    }

    /// The table and trailer that [`StreamingPdfWriter::finish`] writes.
    pub fn trailer_text(&self) -> (r: String)
        requires
            self.wf(),
        ensures
            r@ == spec_xref_and_trailer(self.entries(), self.spec_catalog_id(), self.written().len() as usize),
    {
        self.table.xref_and_trailer(self.catalog_id)
    }
}

proof fn lemma_concat_push(parts: Seq<Seq<u8>>, p: Seq<u8>)
    ensures
        concat(parts.push(p)) == concat(parts) + p,
{
    assert(parts.push(p).drop_last() =~= parts);
}

proof fn lemma_concat_prefix(parts: Seq<Seq<u8>>, k: int)
    requires
        0 <= k < parts.len(),
    ensures
        concat(parts.take(k + 1)) == concat(parts.take(k)) + parts[k],
        concat(parts.take(k + 1)).len() <= concat(parts).len(),
        concat(parts) == concat(parts.take(k + 1)) + concat(parts).subrange(
            concat(parts.take(k + 1)).len() as int,
            concat(parts).len() as int,
        ),
    decreases parts.len(),
{
    assert(parts.take(k + 1).drop_last() =~= parts.take(k));
    if k + 1 == parts.len() {
        assert(parts.take(k + 1) =~= parts);
    } else {
        let t = parts.drop_last();
        lemma_concat_prefix(t, k);
        assert(t.take(k + 1) =~= parts.take(k + 1));
        assert(t.take(k) =~= parts.take(k));
        assert(concat(parts) == concat(t) + parts.last());
    }
}

/// Each recorded offset points at its object: the sink holds, after what
/// it held before the file began, the file's bytes, and these hold each
/// object's bytes right at the offset that the cross-reference table gives
/// for it.
pub proof fn lemma_offsets_point_at_objects<S: Sink>(w: &StreamingPdfWriter<S>)
    requires
        w.wf(),
    ensures
        w.sink_keeps_account() ==> w.sink_bytes() == w.base() + w.written(),
        w.entries().len() == w.objects().len(),
        forall|k: int|
            #![trigger w.entries()[k]]
            0 <= k < w.objects().len() && w.sink_keeps_account() ==> w.sink_bytes().subrange(
                w.base().len() + w.entries()[k].1,
                w.base().len() + w.entries()[k].1 + w.objects()[k].len(),
            ) == w.objects()[k],
        forall|k: int|
            #![trigger w.entries()[k]]
            0 <= k < w.objects().len() ==> w.entries()[k].1 + w.objects()[k].len() <= w.written().len()
                && w.written().subrange(
                w.entries()[k].1 as int,
                w.entries()[k].1 + w.objects()[k].len(),
            ) == w.objects()[k],
{
    let objects = w.objects();
    assert forall|k: int|
        #![trigger w.entries()[k]]
        0 <= k < objects.len() implies w.entries()[k].1 + objects[k].len() <= w.written().len()
            && w.written().subrange(w.entries()[k].1 as int, w.entries()[k].1 + objects[k].len()) == objects[k] by {
        lemma_concat_prefix(objects, k);
        let before = concat(objects.take(k));
        let upto = concat(objects.take(k + 1));
        let all = concat(objects);
        let start: int = (pdf_header().len() + before.len()) as int;
        assert(w.entries()[k].1 == start);
        assert(w.written() == pdf_header() + all);
        assert(all.subrange(before.len() as int, upto.len() as int) =~= objects[k]) by {
            assert(upto == before + objects[k]);
            assert(all == upto + all.subrange(upto.len() as int, all.len() as int));
        }
        assert(w.written().subrange(start, start + objects[k].len()) =~= all.subrange(
            before.len() as int,
            upto.len() as int,
        ));
        if w.sink_keeps_account() {
            let b = w.base().len() as int;
            assert(w.sink_bytes().subrange(b + start, b + start + objects[k].len()) =~= w.written().subrange(
                start,
                start + objects[k].len(),
            ));
        }
    }
}

} // verus!
