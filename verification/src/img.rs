//! Images as the box tree sees them: the attributes of an `<img>` element,
//! the intrinsic size of a decoded image, and the table of fetch/decode
//! results that the document's image URLs resolved to.
use vstd::prelude::*;
use crate::html::{attr_value, spec_node_attr, Dom, NodeData, NodeId, Node};
use crate::text::{parse_usize, spec_parse_usize};

verus! {

/// A decoded image: the handle under which its pixel data is kept and its
/// intrinsic size in pixels.
#[derive(Clone, Copy, PartialEq, Eq, Structural, Debug)]
pub struct PreparedImage {
    pub id: u64,
    pub width: u32,
    pub height: u32,
}

/// The attributes of an `<img>` element that layout uses.
pub struct ImgAttrs {
    pub src: String,
    /// `width` in pixels, when it is a decimal number that fits in `u32`.
    pub width: Option<u32>,
    /// `height` in pixels, when it is a decimal number that fits in `u32`.
    pub height: Option<u32>,
}

/// A dimension attribute read as an unsigned pixel count.
pub open spec fn spec_dimension(value: Option<String>) -> Option<u32> {
    match value {
        Some(v) => match spec_parse_usize(v@) {
            Some(n) => if n <= u32::MAX {
                Some(n as u32)
            } else {
                None
            },
            None => None,
        },
        None => None,
    }
}

/// Reads a dimension attribute value as a pixel count.
fn dimension(value: Option<&String>) -> (r: Option<u32>)
    ensures
        value is None ==> r is None,
        value is Some ==> r == spec_dimension(Some(*value->0)),
{
    match value {
        Some(v) => match parse_usize(v.as_str()) {
            Some(n) => if n <= 0xffff_ffffusize {
                Some(n as u32)
            } else {
                None
            },
            None => None,
        },
        None => None,
    }
}

/// The `src`, `width` and `height` attributes of node `node`, if it is an
/// element with a `src` attribute.
pub fn read_img_attrs(dom: &Dom, node: NodeId) -> (r: Option<ImgAttrs>)
    requires
        node < dom@.len(),
    ensures
        spec_node_attr(dom@, node as int, "src"@) is None ==> r is None,
        spec_node_attr(dom@, node as int, "src"@) matches Some(src) ==> (r matches Some(a) && a.src
            == src && a.width == spec_dimension(spec_node_attr(dom@, node as int, "width"@))
            && a.height == spec_dimension(spec_node_attr(dom@, node as int, "height"@))),
{
    match &dom.node(node).data {
        NodeData::Element { attrs, .. } => {
            match attr_value(attrs, "src") {
                Some(src) => {
                    let width = dimension(attr_value(attrs, "width"));
                    let height = dimension(attr_value(attrs, "height"));
                    Some(ImgAttrs { src: src.clone(), width, height })
                },
                None => None,
            }
        },
        _ => None,
    }
}

/// The outcome of fetching and decoding each image URL of a document:
/// `None` records a URL whose fetch or decode failed.
pub struct ImageAssetCache {
    entries: Vec<(String, Option<PreparedImage>)>,
}

/// The recorded outcome for `url` (the first entry for it), or `None` when
/// the URL was never recorded or failed.
pub open spec fn spec_lookup(entries: Seq<(Seq<char>, Option<PreparedImage>)>, url: Seq<char>) -> Option<PreparedImage>
    decreases entries.len(),
{
    if entries.len() == 0 {
        None
    } else if entries[0].0 == url {
        entries[0].1
    } else {
        spec_lookup(entries.drop_first(), url)
    }
}

impl View for ImageAssetCache {
    type V = Seq<(Seq<char>, Option<PreparedImage>)>;

    closed spec fn view(&self) -> Self::V {
        self.entries@.map_values(|e: (String, Option<PreparedImage>)| (e.0@, e.1))
    }
}

impl ImageAssetCache {
    /// A cache with no recorded URL.
    pub fn new() -> (c: ImageAssetCache)
        ensures
            c@ == Seq::<(Seq<char>, Option<PreparedImage>)>::empty(),
    {
        let c = ImageAssetCache { entries: Vec::new() };
        assert(c@ =~= Seq::<(Seq<char>, Option<PreparedImage>)>::empty());
        c
    }

    /// Records the outcome of fetching and decoding `url`.
    pub fn insert(&mut self, url: String, image: Option<PreparedImage>)
        ensures
            final(self)@ == old(self)@.push((url@, image)),
    {
        self.entries.push((url, image));
        assert(self@ =~= old(self)@.push((url@, image)));
    }

    /// The decoded image for `url`, or `None` when it could not be fetched or
    /// decoded.
    pub fn get_or_decode(&self, url: &str) -> (r: Option<PreparedImage>)
        ensures
            r == spec_lookup(self@, url@),
    {
        let n = self.entries.len();
        let mut i: usize = 0;
        assert(self@.subrange(0, n as int) =~= self@);
        while i < n
            invariant
                n == self.entries@.len(),
                n == self@.len(),
                i <= n,
                self@ == self.entries@.map_values(|e: (String, Option<PreparedImage>)| (e.0@, e.1)),
                spec_lookup(self@.subrange(i as int, n as int), url@) == spec_lookup(self@, url@),
            decreases n - i,
        {
            let ghost rest = self@.subrange(i as int, n as int);
            assert(rest.drop_first() =~= self@.subrange(i + 1, n as int));
            assert(rest[0] == self@[i as int]);
            if crate::text::str_equals(self.entries[i].0.as_str(), url) {
                return self.entries[i].1;
            }
            i = i + 1;
        }
        None
    }
}

} // verus!

verus! {

/// Whether an image with the handle `id` is among `images`.
pub open spec fn has_image(images: Seq<PreparedImage>, id: u64) -> bool {
    exists|k: int| 0 <= k < images.len() && images[k].id == id
}

/// Adds `image` to the images a document uses, unless the same decoded
/// image (the same handle) is already there: each image is embedded once,
/// however many boxes show it.
pub fn push_unique_image(out: &mut Vec<PreparedImage>, image: PreparedImage)
    ensures
        if has_image(old(out)@, image.id) {
            final(out)@ == old(out)@
        } else {
            final(out)@ == old(out)@.push(image)
        },
{
    let mut k: usize = 0;
    while k < out.len()
        invariant
            k <= out@.len(),
            forall|j: int| 0 <= j < k ==> out@[j].id != image.id,
        decreases out@.len() - k,
    {
        if out[k].id == image.id {
            return;
        }
        k = k + 1;
    }
    out.push(image);
}

/// After adding, the image is present, and no handle is listed twice if
/// none was before.
pub proof fn lemma_push_unique_keeps_handles_distinct(before: Seq<PreparedImage>, image: PreparedImage)
    requires
        forall|i: int, j: int| 0 <= i < j < before.len() ==> before[i].id != before[j].id,
    ensures
        ({
            let after = if has_image(before, image.id) {
                before
            } else {
                before.push(image)
            };
            &&& has_image(after, image.id)
            &&& forall|i: int, j: int| 0 <= i < j < after.len() ==> after[i].id != after[j].id
        }),
{
    if !has_image(before, image.id) {
        let after = before.push(image);
        assert(after[before.len() as int].id == image.id);
        assert forall|i: int, j: int| 0 <= i < j < after.len() implies after[i].id != after[j].id by {
            if j == before.len() {
                assert(after[i] == before[i]);
            } else {
                assert(after[i] == before[i] && after[j] == before[j]);
            }
        }
    }
}

} // verus!
