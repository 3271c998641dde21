//! SVG support that works on bytes alone: recognising SVG data, and finding
//! the object headers of a converted SVG's PDF objects.
use vstd::prelude::*;
use crate::text::{decimal_digits, push_decimal};
use crate::pdf::refs::{RefAllocator, RefRenumbering};

verus! {

/// The ASCII white-space bytes (`u8::is_ascii_whitespace`).
pub open spec fn spec_is_ascii_ws(b: u8) -> bool {
    b == 0x20 || b == 0x09 || b == 0x0a || b == 0x0c || b == 0x0d
}

/// ASCII lower case of a byte (`u8::to_ascii_lowercase`).
pub open spec fn spec_lower(b: u8) -> u8 {
    if 0x41 <= b <= 0x5a {
        (b + 0x20) as u8
    } else {
        b
    }
}

/// `bytes` with a leading UTF-8 byte order mark removed.
pub open spec fn strip_bom(bytes: Seq<u8>) -> Seq<u8> {
    if bytes.len() >= 3 && bytes[0] == 0xef && bytes[1] == 0xbb && bytes[2] == 0xbf {
        bytes.skip(3)
    } else {
        bytes
    }
}

/// The index of the first byte that is not ASCII white space.
pub open spec fn first_non_ws(bytes: Seq<u8>, from: int) -> Option<int>
    decreases bytes.len() - from,
{
    if from >= bytes.len() || from < 0 {
        None
    } else if !spec_is_ascii_ws(bytes[from]) {
        Some(from)
    } else {
        first_non_ws(bytes, from + 1)
    }
}

/// How far past the start of the markup `<svg` is looked for.
pub const SNIFF_WINDOW: usize = 4096;

/// Whether `<svg` occurs, in any letter case, among the first `window`
/// bytes of `rest`.
pub open spec fn has_svg_tag(rest: Seq<u8>, window: int) -> bool {
    exists|i: int|
        0 <= i && i + 4 <= window && i + 4 <= rest.len() && spec_lower(#[trigger] rest[i]) == 0x3c
            && spec_lower(rest[i + 1]) == 0x73 && spec_lower(rest[i + 2]) == 0x76 && spec_lower(rest[i + 3])
            == 0x67
}

/// What counts as SVG data: gzip data (svgz), or markup that, after an
/// optional byte order mark and white space, starts with `<` and has `<svg`
/// (in any case) within its first 4096 bytes.
pub open spec fn spec_looks_like_svg(bytes: Seq<u8>) -> bool {
    if bytes.len() >= 2 && bytes[0] == 0x1f && bytes[1] == 0x8b {
        true
    } else {
        let b = strip_bom(bytes);
        match first_non_ws(b, 0) {
            None => false,
            Some(i) => {
                let rest = b.skip(i);
                rest[0] == 0x3c && has_svg_tag(rest, SNIFF_WINDOW as int)
            },
        }
    }
}

fn lower(b: u8) -> (r: u8)
    ensures
        r == spec_lower(b),
{
    if 0x41 <= b && b <= 0x5a {
        b + 0x20
    } else {
        b
    }
}

/// Whether `bytes` look like SVG (or gzip-compressed svgz). Raster formats
/// have magic bytes and are recognised before this is asked; SVG has none,
/// so the test is that the data is markup and an `<svg` tag appears near its
/// start, which keeps other XML documents out.
pub fn looks_like_svg(bytes: &[u8]) -> (r: bool)
    ensures
        r == spec_looks_like_svg(bytes@),
{
    let n = bytes.len();
    if n >= 2 && bytes[0] == 0x1f && bytes[1] == 0x8b {
        return true;
    }
    let start: usize = if n >= 3 && bytes[0] == 0xef && bytes[1] == 0xbb && bytes[2] == 0xbf {
        3
    } else {
        0
    };
    let ghost b = strip_bom(bytes@);
    assert(b =~= bytes@.skip(start as int));
    let mut i = start;
    while i < n && (bytes[i] == 0x20 || bytes[i] == 0x09 || bytes[i] == 0x0a || bytes[i] == 0x0c || bytes[i]
        == 0x0d)
        invariant
            start <= i <= n,
            n == bytes@.len(),
            b == bytes@.skip(start as int),
            first_non_ws(b, (i - start) as int) == first_non_ws(b, 0),
        decreases n - i,
    {
        i = i + 1;
    }
    if i == n {
        return false;
    }
    let ghost k = (i - start) as int;
    assert(first_non_ws(b, k) == Some(k));
    let ghost rest = b.skip(k);
    assert(rest =~= bytes@.skip(i as int));
    assert(rest[0] == bytes@[i as int]);
    if bytes[i] != 0x3c {
        return false;
    }
    let avail = n - i;
    let window = if avail < SNIFF_WINDOW {
        avail
    } else {
        SNIFF_WINDOW
    };
    let mut j: usize = 0;
    while j + 4 <= window
        invariant
            i < n,
            j <= window,
            n == bytes@.len(),
            rest == bytes@.skip(i as int),
            rest.len() == n - i,
            !(n >= 2 && bytes@[0] == 0x1f && bytes@[1] == 0x8b),
            b == strip_bom(bytes@),
            first_non_ws(b, 0) == Some(k),
            rest == b.skip(k),
            rest[0] == 0x3c,
            window <= n - i,
            window <= SNIFF_WINDOW,
            forall|p: int|
                0 <= p < j && p + 4 <= window ==> !(spec_lower(#[trigger] rest[p]) == 0x3c && spec_lower(rest[p + 1])
                    == 0x73 && spec_lower(rest[p + 2]) == 0x76 && spec_lower(rest[p + 3]) == 0x67),
        decreases window - j,
    {
        let p = i + j;
        if lower(bytes[p]) == 0x3c && lower(bytes[p + 1]) == 0x73 && lower(bytes[p + 2]) == 0x76 && lower(
            bytes[p + 3],
        ) == 0x67 {
            assert(rest[j as int] == bytes@[p as int]);
            assert(rest[j + 1] == bytes@[p + 1]);
            assert(rest[j + 2] == bytes@[p + 2]);
            assert(rest[j + 3] == bytes@[p + 3]);
            assert(has_svg_tag(rest, SNIFF_WINDOW as int));
            return true;
        }
        assert(rest[j as int] == bytes@[p as int]);
        assert(rest[j + 1] == bytes@[p + 1]);
        assert(rest[j + 2] == bytes@[p + 2]);
        assert(rest[j + 3] == bytes@[p + 3]);
        j = j + 1;
    }
    false
}

} // verus!

verus! {

/// Why a converted SVG could not be placed into the document.
#[derive(Debug)]
pub struct SvgError {
    message: String,
}

impl SvgError {
    /// An error with the given explanation.
    pub fn new(message: String) -> (e: SvgError)
        ensures
            e.message() == message@,
    {
        SvgError { message }
    }

    /// The explanation.
    pub closed spec fn message(&self) -> Seq<char> {
        self.message@
    }

    /// The explanation, as text for the user.
    pub fn describe(&self) -> (s: String)
        ensures
            s@ == self.message(),
    {
        self.message.clone()
    }
}

/// The first index at or after `from` where `needle` occurs in `hay`
/// (never, for an empty needle).
pub open spec fn spec_find_from(hay: Seq<u8>, needle: Seq<u8>, from: int) -> Option<int>
    decreases hay.len() - from,
{
    if needle.len() == 0 || from < 0 || from + needle.len() > hay.len() {
        None
    } else if hay.subrange(from, from + needle.len()) == needle {
        Some(from)
    } else {
        spec_find_from(hay, needle, from + 1)
    }
}

proof fn lemma_find_from(hay: Seq<u8>, needle: Seq<u8>, from: int)
    ensures
        spec_find_from(hay, needle, from) matches Some(k) ==> from <= k && k + needle.len() <= hay.len()
            && hay.subrange(k, k + needle.len()) == needle,
    decreases hay.len() - from,
{
    if !(needle.len() == 0 || from < 0 || from + needle.len() > hay.len()) {
        if hay.subrange(from, from + needle.len()) != needle {
            lemma_find_from(hay, needle, from + 1);
        }
    }
}

/// The first index where `needle` occurs in `hay`.
pub open spec fn spec_find(hay: Seq<u8>, needle: Seq<u8>) -> Option<int> {
    spec_find_from(hay, needle, 0)
}

/// Whether `needle` occurs in `hay` at `at`.
fn matches_at(hay: &[u8], needle: &[u8], at: usize) -> (r: bool)
    requires
        at + needle@.len() <= hay@.len(),
    ensures
        r == (hay@.subrange(at as int, at + needle@.len()) == needle@),
{
    let mut k: usize = 0;
    let hl = hay.len();
    while k < needle.len()
        invariant
            hl == hay@.len(),
            at + needle@.len() <= hay@.len(),
            k <= needle@.len(),
            forall|i: int| 0 <= i < k ==> hay@[at + i] == needle@[i],
        decreases needle@.len() - k,
    {
        if hay[at + k] != needle[k] {
            assert(hay@.subrange(at as int, at + needle@.len())[k as int] != needle@[k as int]);
            return false;
        }
        k = k + 1;
    }
    assert(hay@.subrange(at as int, at + needle@.len()) =~= needle@);
    true
}

/// The first index at or after `from` where `needle` occurs in `hay`.
fn find_from(hay: &[u8], needle: &[u8], from: usize) -> (r: Option<usize>)
    ensures
        match r {
            Some(k) => spec_find_from(hay@, needle@, from as int) == Some(k as int),
            None => spec_find_from(hay@, needle@, from as int) is None,
        },
{
    let n = needle.len();
    let len = hay.len();
    if n == 0 || from > len || len - from < n {
        return None;
    }
    let mut k = from;
    while k <= len - n
        invariant
            n == needle@.len(),
            len == hay@.len(),
            n >= 1,
            n <= len,
            from <= k,
            k <= len - n + 1,
            spec_find_from(hay@, needle@, from as int) == spec_find_from(hay@, needle@, k as int),
        decreases len - k,
    {
        if matches_at(hay, needle, k) {
            return Some(k);
        }
        k = k + 1;
    }
    None
}

/// The first index where `needle` occurs in `haystack` (`None` for an empty
/// needle).
pub fn find(haystack: &[u8], needle: &[u8]) -> (r: Option<usize>)
    ensures
        match r {
            Some(k) => spec_find(haystack@, needle@) == Some(k as int),
            None => spec_find(haystack@, needle@) is None,
        },
{
    find_from(haystack, needle, 0)
}

/// The decimal digits of `n` as ASCII bytes.
pub open spec fn decimal_bytes(n: nat) -> Seq<u8>
    decreases n,
{
    if n < 10 {
        seq![(0x30 + n) as u8]
    } else {
        decimal_bytes(n / 10).push((0x30 + n % 10) as u8)
    }
}

/// Appends the decimal digits of `value` to `out`.
fn push_decimal_bytes(out: &mut Vec<u8>, value: u32)
    ensures
        final(out)@ == old(out)@ + decimal_bytes(value as nat),
    decreases value,
{
    if value >= 10 {
        push_decimal_bytes(out, value / 10);
    }
    out.push((0x30 + value % 10) as u8);
    assert(final(out)@ =~= old(out)@ + decimal_bytes(value as nat));
}

/// `"{id} 0 obj\n"`, how an object starts.
pub open spec fn object_header(id: i32) -> Seq<u8> {
    decimal_bytes(id as nat) + seq![0x20u8, 0x30, 0x20, 0x6f, 0x62, 0x6a, 0x0a]
}

/// `"\nendobj\n\n"`, how an object ends and the next one is set apart.
pub open spec fn endobj_bytes() -> Seq<u8> {
    seq![0x0au8, 0x65, 0x6e, 0x64, 0x6f, 0x62, 0x6a, 0x0a, 0x0a]
}

fn object_header_bytes(id: i32) -> (r: Vec<u8>)
    requires
        id > 0,
    ensures
        r@ == object_header(id),
{
    let mut out: Vec<u8> = Vec::new();
    push_decimal_bytes(&mut out, id as u32);
    out.push(0x20);
    out.push(0x30);
    out.push(0x20);
    out.push(0x6f);
    out.push(0x62);
    out.push(0x6a);
    out.push(0x0a);
    assert(out@ =~= object_header(id));
    out
}

/// `endobj_bytes()` followed by `object_header(id)`.
fn anchored_header_bytes(id: i32) -> (r: Vec<u8>)
    requires
        id > 0,
    ensures
        r@ == endobj_bytes() + object_header(id),
{
    let mut out: Vec<u8> = Vec::new();
    out.push(0x0a);
    out.push(0x65);
    out.push(0x6e);
    out.push(0x64);
    out.push(0x6f);
    out.push(0x62);
    out.push(0x6a);
    out.push(0x0a);
    out.push(0x0a);
    let header = object_header_bytes(id);
    let mut k: usize = 0;
    let ghost start = out@;
    while k < header.len()
        invariant
            k <= header@.len(),
            out@ == start + header@.subrange(0, k as int),
        decreases header@.len() - k,
    {
        out.push(header[k]);
        k = k + 1;
        assert(out@ =~= start + header@.subrange(0, k as int));
    }
    assert(header@.subrange(0, k as int) =~= header@);
    assert(start =~= endobj_bytes());
    out
}

/// Where the objects `refs[i..]` start in `bytes`, looking from `pos` on:
/// the first object of the group at the very start, each later one right
/// after the `endobj` that closes the one before it (so stream contents
/// that happen to look like a header are not taken for one).
pub open spec fn spec_object_offsets(bytes: Seq<u8>, refs: Seq<i32>, i: int, pos: int) -> Option<Seq<int>>
    decreases refs.len() - i,
{
    if i < 0 || i >= refs.len() {
        Some(Seq::empty())
    } else {
        let header = object_header(refs[i]);
        let start = if i == 0 {
            if header.len() <= bytes.len() && bytes.subrange(0, header.len() as int) == header {
                Some(0int)
            } else {
                None
            }
        } else {
            match spec_find_from(bytes, endobj_bytes() + header, pos) {
                Some(at) => Some(at + endobj_bytes().len()),
                None => None,
            }
        };
        match start {
            None => None,
            Some(s) => match spec_object_offsets(bytes, refs, i + 1, s + header.len()) {
                None => None,
                Some(rest) => Some(seq![s] + rest),
            },
        }
    }
}

/// `done` followed by the offsets of `rest`, if `rest` has them.
pub open spec fn prepend_offsets(done: Seq<int>, rest: Option<Seq<int>>) -> Option<Seq<int>> {
    match rest {
        None => None,
        Some(r) => Some(done + r),
    }
}

/// Where each object of `refs` starts in `bytes`, the bytes of a group of
/// objects written one after another in the order of `refs`. Fails when one
/// cannot be found: a guessed offset would break the whole file.
pub fn object_offsets(bytes: &[u8], refs: &Vec<i32>) -> (r: Result<Vec<(i32, usize)>, SvgError>)
    requires
        forall|k: int| 0 <= k < refs@.len() ==> refs@[k] > 0,
    ensures
        match r {
            Ok(v) => spec_object_offsets(bytes@, refs@, 0, 0) matches Some(offs) && v@.len() == refs@.len()
                && forall|k: int| 0 <= k < v@.len() ==> #[trigger] v@[k].0 == refs@[k] && v@[k].1 == offs[k],
            Err(_) => spec_object_offsets(bytes@, refs@, 0, 0) is None,
        },
{
    let mut out: Vec<(i32, usize)> = Vec::new();
    let mut pos: usize = 0;
    let mut i: usize = 0;
    let ghost mut done: Seq<int> = Seq::empty();
    let blen = bytes.len();
    while i < refs.len()
        invariant
            blen == bytes@.len(),
            forall|k: int| 0 <= k < refs@.len() ==> refs@[k] > 0,
            i <= refs@.len(),
            pos <= bytes@.len(),
            i == 0 ==> pos == 0,
            out@.len() == i,
            done.len() == i,
            forall|k: int| 0 <= k < i ==> #[trigger] out@[k].0 == refs@[k] && out@[k].1 == done[k],
            spec_object_offsets(bytes@, refs@, 0, 0) == prepend_offsets(
                done,
                spec_object_offsets(bytes@, refs@, i as int, pos as int),
            ),
        decreases refs@.len() - i,
    {
        let id = refs[i];
        let header = object_header_bytes(id);
        let start: usize;
        if i == 0 {
            if header.len() <= bytes.len() && matches_at(bytes, &header, 0) {
                start = 0;
            } else {
                return Err(SvgError::new(missing_object_message(id, i)));
            }
        } else {
            let anchored = anchored_header_bytes(id);
            match find_from(bytes, &anchored, pos) {
                Some(at) => {
                    proof {
                        lemma_find_from(bytes@, anchored@, pos as int);
                    }
                    start = at + 9;
                },
                None => {
                    return Err(SvgError::new(missing_object_message(id, i)));
                },
            }
        }
        let ghost before = out@;
        let ghost done_before = done;
        let ghost old_i = i as int;
        assert(forall|k: int| 0 <= k < old_i ==> before[k].0 == refs@[k] && before[k].1 == done_before[k]);
        proof {
            let tail = spec_object_offsets(bytes@, refs@, i + 1, start + header@.len());
            assert(spec_object_offsets(bytes@, refs@, i as int, pos as int) == match tail {
                None => None,
                Some(rest) => Some(seq![start as int] + rest),
            });
            match tail {
                None => {},
                Some(rest) => {
                    assert(done + (seq![start as int] + rest) =~= done.push(start as int) + rest);
                },
            }
            done = done.push(start as int);
        }
        out.push((id, start));
        pos = start + header.len();
        i = i + 1;
        assert forall|k: int| 0 <= k < i implies #[trigger] out@[k].0 == refs@[k] && out@[k].1 == done[k] by {
            if k < old_i {
                assert(out@[k] == before[k]);
                assert(before[k].0 == refs@[k] && before[k].1 == done_before[k]);
                assert(done[k] == done_before[k]);
            }
        }
    }
    assert(spec_object_offsets(bytes@, refs@, i as int, pos as int) == Some(Seq::<int>::empty()));
    assert(done + Seq::<int>::empty() =~= done);
    Ok(out)
}

/// The explanation for an object that could not be found.
fn missing_object_message(id: i32, index: usize) -> (r: String)
    requires
        index < usize::MAX,
    ensures
        r@ == "cannot find where object "@ + decimal_digits((id as u64) as nat) + " (number "@
            + decimal_digits((index + 1) as nat) + " of the group) starts"@,
{
    let mut s = String::new();
    s.append("cannot find where object ");
    push_decimal(&mut s, id as u64);
    s.append(" (number ");
    push_decimal(&mut s, index as u64 + 1);
    s.append(" of the group) starts");
    assert(s@ =~= "cannot find where object "@ + decimal_digits((id as u64) as nat) + " (number "@
        + decimal_digits((index + 1) as nat) + " of the group) starts"@);
    s
}

} // verus!

verus! {

/// Where a converted SVG's objects went in the document: the new number of
/// its form XObject, and each object's new number with its offset in the
/// renumbered bytes.
#[derive(Debug)]
pub struct RenumberedObjects {
    pub root: i32,
    pub offsets: Vec<(i32, usize)>,
}

/// Takes the objects of a converted SVG into the document once they have
/// been renumbered by `mapping` (which gave numbers from `alloc`'s next one
/// on): finds the new number of the form XObject `root`, checks that every
/// number handed out belongs to an object that is written (`refs`, the new
/// numbers of the objects in `bytes`), finds each object's offset, and only
/// then marks the numbers as used in `alloc`. On failure `alloc` is left as
/// it was, so no number is used by an object that is never written.
pub fn renumber_into_document(
    mapping: &RefRenumbering,
    root: i32,
    refs: &Vec<i32>,
    bytes: &[u8],
    alloc: &mut RefAllocator,
) -> (r: Result<RenumberedObjects, SvgError>)
    requires
        mapping.wf(),
        old(alloc).wf(),
        mapping.first() == old(alloc)@ + 1,
        forall|k: int| 0 <= k < refs@.len() ==> refs@[k] > 0,
    ensures
        final(alloc).wf(),
        match r {
            Ok(o) => {
                &&& mapping.spec_get(root) == Some(o.root as int)
                &&& refs@.len() == mapping.seen().len()
                &&& spec_object_offsets(bytes@, refs@, 0, 0) matches Some(offs)
                &&& o.offsets@.len() == refs@.len()
                &&& forall|k: int| 0 <= k < refs@.len() ==> #[trigger] o.offsets@[k].0 == refs@[k] && o.offsets@[k].1 == offs[k]
                &&& final(alloc)@ == old(alloc)@ + mapping.seen().len()
            },
            Err(_) => {
                &&& (mapping.spec_get(root) is None || refs@.len() != mapping.seen().len()
                    || spec_object_offsets(bytes@, refs@, 0, 0) is None)
                &&& final(alloc)@ == old(alloc)@
            },
        },
{
    let new_root = match mapping.get(root) {
        Some(v) => v,
        None => {
            let mut s = String::new();
            s.append("the form XObject was not renumbered");
            return Err(SvgError::new(s));
        },
    };
    if refs.len() != mapping.len() {
        let mut s = String::new();
        s.append("the group refers to objects it does not define (");
        push_decimal(&mut s, refs.len() as u64);
        s.append(" defined, ");
        push_decimal(&mut s, mapping.len() as u64);
        s.append(" referred to)");
        return Err(SvgError::new(s));
    }
    let offsets = match object_offsets(bytes, refs) {
        Ok(v) => v,
        Err(e) => {
            return Err(e);
        },
    };
    proof {
        mapping.lemma_wf();
    }
    alloc.commit(mapping.len());
    Ok(RenumberedObjects { root: new_root, offsets })
}

} // verus!

verus! {

proof fn lemma_offsets_from(bytes: Seq<u8>, refs: Seq<i32>, i: int, pos: int)
    requires
        0 <= i <= refs.len(),
        spec_object_offsets(bytes, refs, i, pos) is Some,
    ensures
        ({
            let offs = spec_object_offsets(bytes, refs, i, pos)->0;
            &&& offs.len() == refs.len() - i
            &&& forall|k: int|
                #![trigger offs[k]]
                0 <= k < offs.len() ==> offs[k] + object_header(refs[i + k]).len() <= bytes.len()
                    && bytes.subrange(offs[k], offs[k] + object_header(refs[i + k]).len())
                    == object_header(refs[i + k])
        }),
    decreases refs.len() - i,
{
    if i < refs.len() {
        let header = object_header(refs[i]);
        let start: int = if i == 0 {
            0
        } else {
            lemma_find_from(bytes, endobj_bytes() + header, pos);
            let at = spec_find_from(bytes, endobj_bytes() + header, pos)->0;
            assert(bytes.subrange(at + 9, at + 9 + header.len()) =~= (endobj_bytes() + header).subrange(
                9,
                9 + header.len() as int,
            ));
            assert((endobj_bytes() + header).subrange(9, 9 + header.len() as int) =~= header);
            at + 9
        };
        lemma_offsets_from(bytes, refs, i + 1, start + header.len());
        let offs = spec_object_offsets(bytes, refs, i, pos)->0;
        let rest = spec_object_offsets(bytes, refs, i + 1, start + header.len())->0;
        assert(offs =~= seq![start] + rest);
        assert forall|k: int|
            #![trigger offs[k]]
            0 <= k < offs.len() implies offs[k] + object_header(refs[i + k]).len() <= bytes.len()
                && bytes.subrange(offs[k], offs[k] + object_header(refs[i + k]).len())
                == object_header(refs[i + k]) by {
            if k > 0 {
                assert(offs[k] == rest[k - 1]);
                assert(i + 1 + (k - 1) == i + k);
            }
        }
    }
}

/// Every offset that [`object_offsets`] reports points at the header of its
/// object.
pub proof fn lemma_offsets_point_at_headers(bytes: Seq<u8>, refs: Seq<i32>)
    requires
        spec_object_offsets(bytes, refs, 0, 0) is Some,
    ensures
        ({
            let offs = spec_object_offsets(bytes, refs, 0, 0)->0;
            &&& offs.len() == refs.len()
            &&& forall|k: int|
                #![trigger offs[k]]
                0 <= k < refs.len() ==> offs[k] + object_header(refs[k]).len() <= bytes.len()
                    && bytes.subrange(offs[k], offs[k] + object_header(refs[k]).len())
                    == object_header(refs[k])
        }),
{
    lemma_offsets_from(bytes, refs, 0, 0);
    let offs = spec_object_offsets(bytes, refs, 0, 0)->0;
    assert forall|k: int|
        #![trigger offs[k]]
        0 <= k < refs.len() implies offs[k] + object_header(refs[k]).len() <= bytes.len()
            && bytes.subrange(offs[k], offs[k] + object_header(refs[k]).len())
            == object_header(refs[k]) by {
        assert(0 + k == k);
    }
}

} // verus!
