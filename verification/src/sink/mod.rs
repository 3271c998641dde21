//! Destinations for the PDF bytes.
//!
//! The renderer only knows that it writes bytes somewhere, possibly in
//! several pieces as pages are finished; what the destination is (memory, a
//! file, a multipart upload) is up to the [`Sink`].
use vstd::prelude::*;

verus! {

/// `std::io::Error`, the error of the sinks backed by memory, files or
/// standard output.
#[verifier::external_type_specification]
#[verifier::external_body]
pub struct ExIoError(std::io::Error);

/// A destination for bytes.
pub trait Sink: Sized {
    type Output;
    type Error;

    /// The sink can take more bytes (for a sink that hands its bytes to a
    /// callback: the callback accepts every input).
    spec fn ready(&self) -> bool;

    /// Whether the sink keeps an account of the bytes it accepts in
    /// [`Sink::received`]. A sink that keeps none promises nothing of
    /// `received`.
    open spec fn keeps_account(&self) -> bool {
        false
    }

    /// The bytes the sink has accepted so far, in order, where it keeps an
    /// account of them.
    open spec fn received(&self) -> Seq<u8> {
        Seq::empty()
    }

    /// Whether `out` is what finishing this sink may give. A sink that
    /// promises nothing of its output allows any.
    open spec fn finished_with(&self, out: Self::Output) -> bool {
        true
    }

    /// Appends `bytes` to what has been written.
    fn write(&mut self, bytes: &[u8]) -> (r: Result<(), Self::Error>)
        requires
            old(self).ready(),
        ensures
            final(self).ready(),
            final(self).keeps_account() == old(self).keeps_account(),
            r is Ok && old(self).keeps_account() ==> final(self).received() == old(self).received() + bytes@,
    ;

    /// Ends the output.
    fn finish(self) -> (r: Result<Self::Output, Self::Error>)
        requires
            self.ready(),
        ensures
            r matches Ok(out) ==> self.finished_with(out),
    ;
}

/// A sink that keeps the bytes in memory.
#[derive(Debug)]
pub struct MemorySink {
    buf: Vec<u8>,
}

impl View for MemorySink {
    type V = Seq<u8>;

    closed spec fn view(&self) -> Seq<u8> {
        self.buf@
    }
}

impl MemorySink {
    /// An empty sink.
    pub fn new() -> (s: Self)
        ensures
            s@ == Seq::<u8>::empty(),
    {
        MemorySink { buf: Vec::new() }
    }
}

impl Default for MemorySink {
    fn default() -> (s: Self)
        ensures
            s@ == Seq::<u8>::empty(),
    {
        MemorySink::new()
    }
}

impl Sink for MemorySink {
    type Output = Vec<u8>;
    type Error = std::io::Error;

    open spec fn ready(&self) -> bool {
        true
    }

    open spec fn keeps_account(&self) -> bool {
        true
    }

    open spec fn received(&self) -> Seq<u8> {
        self@
    }

    open spec fn finished_with(&self, out: Vec<u8>) -> bool {
        out@ == self@
    }

    fn write(&mut self, bytes: &[u8]) -> (r: Result<(), std::io::Error>)
        ensures
            r is Ok,
            final(self)@ == old(self)@ + bytes@,
    {
        let mut i: usize = 0;
        let n = bytes.len();
        let ghost start = self.buf@;
        while i < n
            invariant
                n == bytes@.len(),
                i <= n,
                self.buf@ == start + bytes@.subrange(0, i as int),
            decreases n - i,
        {
            self.buf.push(bytes[i]);
            i = i + 1;
            assert(self.buf@ =~= start + bytes@.subrange(0, i as int));
        }
        assert(bytes@.subrange(0, n as int) =~= bytes@);
        Ok(())
    }

    fn finish(self) -> (r: Result<Vec<u8>, std::io::Error>)
        ensures
            r matches Ok(v) && v@ == self@,
    {
        Ok(self.buf)
    }
}

/// `std::io::Stdout`, a handle to the process's standard output.
#[verifier::external_type_specification]
#[verifier::external_body]
pub struct ExStdout(std::io::Stdout);

/// `std::io::stdout`: a handle to standard output.
#[verifier::external_body]
fn stdout_handle() -> std::io::Stdout {
    std::io::stdout()
}

/// `Write::write_all` on standard output. Whether it succeeds depends on
/// where the output goes; nothing is promised of the result.
#[verifier::external_body]
fn stdout_write_all(out: &mut std::io::Stdout, bytes: &[u8]) -> Result<(), std::io::Error> {
    std::io::Write::write_all(out, bytes)
}

/// `Write::flush` on standard output. Whether it succeeds depends on where
/// the output goes; nothing is promised of the result.
#[verifier::external_body]
fn stdout_flush(out: &mut std::io::Stdout) -> Result<(), std::io::Error> {
    std::io::Write::flush(out)
}

/// A sink that writes to standard output (for `-o -`). Bytes already
/// written cannot be taken back: when a write fails midway, the caller
/// reports the failure.
pub struct StdoutSink {
    out: std::io::Stdout,
    /// The bytes that standard output accepted.
    accepted: Ghost<Seq<u8>>,
}

impl StdoutSink {
    /// A sink on the process's standard output.
    pub fn new() -> (s: Self)
        ensures
            s.received() == Seq::<u8>::empty(),
    {
        StdoutSink { out: stdout_handle(), accepted: Ghost(Seq::empty()) }
    }
}

impl Default for StdoutSink {
    fn default() -> (s: Self)
        ensures
            s.received() == Seq::<u8>::empty(),
    {
        StdoutSink::new()
    }
}

impl Sink for StdoutSink {
    type Output = ();
    type Error = std::io::Error;

    open spec fn ready(&self) -> bool {
        true
    }

    open spec fn keeps_account(&self) -> bool {
        true
    }

    /// The bytes that `write_all` reported as written.
    closed spec fn received(&self) -> Seq<u8> {
        self.accepted@
    }

    fn write(&mut self, bytes: &[u8]) -> (r: Result<(), std::io::Error>) {
        let r = stdout_write_all(&mut self.out, bytes);
        if r.is_ok() {
            self.accepted = Ghost(self.accepted@ + bytes@);
        }
        r
    }

    fn finish(self) -> (r: Result<(), std::io::Error>) {
        let mut out = self.out;
        stdout_flush(&mut out)
    }
}

/// Appends `bytes` to `buf`.
fn append_bytes(buf: &mut Vec<u8>, bytes: &[u8])
    ensures
        final(buf)@ == old(buf)@ + bytes@,
{
    let mut i: usize = 0;
    let n = bytes.len();
    let ghost start = buf@;
    while i < n
        invariant
            n == bytes@.len(),
            i <= n,
            buf@ == start + bytes@.subrange(0, i as int),
        decreases n - i,
    {
        buf.push(bytes[i]);
        i = i + 1;
        assert(buf@ =~= start + bytes@.subrange(0, i as int));
    }
    assert(bytes@.subrange(0, n as int) =~= bytes@);
}

/// The minimum size of every part but the last in a multipart upload.
pub const MULTIPART_MIN_PART_SIZE: usize = 5242880;

/// The concatenation of `parts`.
pub open spec fn concat(parts: Seq<Seq<u8>>) -> Seq<u8>
    decreases parts.len(),
{
    if parts.len() == 0 {
        Seq::empty()
    } else {
        concat(parts.drop_last()) + parts.last()
    }
}

/// The length of the parts a sink with this threshold hands over: the
/// threshold, or a single byte when it is 0.
pub open spec fn part_size(threshold: usize) -> int {
    if threshold == 0 {
        1
    } else {
        threshold as int
    }
}

/// A sink that hands its bytes to `on_part` in parts of `threshold` bytes
/// (for instance to upload them as the parts of a multipart upload, whose
/// parts but the last have a minimum size). What is left when the output
/// ends is handed over as a last, shorter part, unless it is empty.
///
/// `on_part` does the actual upload; this type only decides where parts
/// begin and end, in the order of the bytes, and collects what `on_part`
/// returns for each part. `on_part` must be callable with any part (its
/// `requires`, if it has one, holds of every part); what it answers is up to
/// it, and an error it gives is passed on.
#[verifier::reject_recursive_types(T)]
#[verifier::reject_recursive_types(E)]
pub struct BufferedSink<T, E, F: FnMut(Vec<u8>) -> Result<T, E>> {
    buf: Vec<u8>,
    threshold: usize,
    on_part: F,
    parts: Vec<T>,
    sent: Ghost<Seq<Seq<u8>>>,
}

/// `out` is what `on_part` may answer for a part holding `part`.
pub open spec fn answers<T, E, F: FnMut(Vec<u8>) -> Result<T, E>>(on_part: F, part: Seq<u8>, out: T) -> bool {
    exists|p: Vec<u8>| p@ == part && call_ensures(on_part, (p,), Ok::<T, E>(out))
}

/// Every answer `on_part` can give is `Ok`.
pub open spec fn accepts_all<T, E, F: FnMut(Vec<u8>) -> Result<T, E>>(on_part: F) -> bool {
    forall|p: Vec<u8>, r: Result<T, E>| #[trigger] call_ensures(on_part, (p,), r) ==> r is Ok
}

/// Every answer `on_part` can give is an error.
pub open spec fn refuses_all<T, E, F: FnMut(Vec<u8>) -> Result<T, E>>(on_part: F) -> bool {
    forall|p: Vec<u8>, r: Result<T, E>| #[trigger] call_ensures(on_part, (p,), r) ==> r is Err
}

/// `e` is an error that `on_part` may give for a part holding `part`.
pub open spec fn refuses<T, E, F: FnMut(Vec<u8>) -> Result<T, E>>(on_part: F, part: Seq<u8>, e: E) -> bool {
    exists|p: Vec<u8>| p@ == part && call_ensures(on_part, (p,), Err::<T, E>(e))
}

impl<T, E, F: FnMut(Vec<u8>) -> Result<T, E>> BufferedSink<T, E, F> {
    /// The callback that receives the parts.
    pub closed spec fn handler(&self) -> F {
        self.on_part
    }

    /// The parts handed to `on_part` so far, in order.
    pub closed spec fn sent(&self) -> Seq<Seq<u8>> {
        self.sent@
    }

    /// The bytes written but not yet handed over.
    pub closed spec fn buffered(&self) -> Seq<u8> {
        self.buf@
    }

    /// The threshold the sink was made with.
    pub closed spec fn threshold(&self) -> usize {
        self.threshold
    }

    /// What `on_part` returned for each part it accepted, in order.
    pub closed spec fn outputs(&self) -> Seq<T> {
        self.parts@
    }

    /// Every part handed over so far has the part size, and less than a
    /// part is left in the buffer: what holds after writes that all
    /// succeeded.
    pub open spec fn cut_evenly(&self) -> bool {
        &&& forall|i: int| 0 <= i < self.sent().len() ==> (#[trigger] self.sent()[i]).len() == part_size(self.threshold())
        &&& self.buffered().len() < part_size(self.threshold())
    }

    /// A sink that hands over a part whenever `threshold` bytes have
    /// accumulated. With a threshold of 0 every byte is handed over on its
    /// own as soon as it is written, which is wasteful: callers pass a
    /// positive threshold.
    pub fn new(threshold: usize, on_part: F) -> (s: Self)
        requires
            forall|p: Vec<u8>| call_requires(on_part, (p,)),
        ensures
            s.handler() == on_part,
            s.sent() == Seq::<Seq<u8>>::empty(),
            s.buffered() == Seq::<u8>::empty(),
            s.outputs() == Seq::<T>::empty(),
            s.threshold() == threshold,
            s.received() == Seq::<u8>::empty(),
            s.cut_evenly(),
            s.ready(),
    {
        let s = BufferedSink {
            buf: Vec::new(),
            threshold,
            on_part,
            parts: Vec::new(),
            sent: Ghost(Seq::empty()),
        };
        assert(concat(Seq::<Seq<u8>>::empty()) + Seq::<u8>::empty() =~= Seq::<u8>::empty());
        s
    }
}

proof fn lemma_concat_push(parts: Seq<Seq<u8>>, p: Seq<u8>)
    ensures
        concat(parts.push(p)) == concat(parts) + p,
{
    assert(parts.push(p).drop_last() =~= parts);
}

proof fn lemma_concat_even(parts: Seq<Seq<u8>>, size: int)
    requires
        forall|i: int| 0 <= i < parts.len() ==> (#[trigger] parts[i]).len() == size,
    ensures
        concat(parts).len() == parts.len() * size,
    decreases parts.len(),
{
    if parts.len() > 0 {
        let t = parts.drop_last();
        assert forall|i: int| 0 <= i < t.len() implies (#[trigger] t[i]).len() == size by {
            assert(t[i] == parts[i]);
        }
        lemma_concat_even(t, size);
        assert(parts.len() * size == t.len() * size + size) by (nonlinear_arith)
            requires
                parts.len() == t.len() + 1,
        ;
    }
}

/// Parts come out in the order of the bytes, whole: when every part has
/// the part size and less than a part is buffered (as after `new` and any
/// run of writes that all succeeded: `new` ensures `cut_evenly` and every
/// successful write keeps it), the parts handed over are the first
/// `received().len() / part_size` parts of the bytes written, one after the
/// other, and only the rest is buffered.
pub proof fn lemma_parts_follow_the_bytes<T, E, F: FnMut(Vec<u8>) -> Result<T, E>>(s: &BufferedSink<T, E, F>)
    requires
        s.cut_evenly(),
    ensures
        s.sent().len() == (s.received().len() as int) / part_size(s.threshold()),
        concat(s.sent()) == s.received().subrange(0, s.sent().len() * part_size(s.threshold())),
        s.buffered() == s.received().subrange(s.sent().len() * part_size(s.threshold()), s.received().len() as int),
{
    let size = part_size(s.threshold());
    lemma_concat_even(s.sent(), size);
    let n = s.sent().len();
    let all = s.received();
    assert(all == concat(s.sent()) + s.buffered());
    assert(all.len() == n * size + s.buffered().len());
    vstd::arithmetic::div_mod::lemma_fundamental_div_mod_converse(
        all.len() as int,
        size,
        n as int,
        s.buffered().len() as int,
    );
    assert(concat(s.sent()) =~= all.subrange(0, n * size));
    assert(s.buffered() =~= all.subrange(n * size, all.len() as int));
}

impl<T, E, F: FnMut(Vec<u8>) -> Result<T, E>> Sink for BufferedSink<T, E, F> {
    type Output = Vec<T>;
    type Error = E;

    /// `on_part` accepts every part.
    closed spec fn ready(&self) -> bool {
        forall|p: Vec<u8>| call_requires(self.on_part, (p,))
    }

    open spec fn keeps_account(&self) -> bool {
        true
    }

    /// The parts handed over, then the buffered bytes.
    open spec fn received(&self) -> Seq<u8> {
        concat(self.sent()) + self.buffered()
    }

    /// What `on_part` returned for every part, the buffered bytes included
    /// as a last part when there are any.
    open spec fn finished_with(&self, out: Vec<T>) -> bool {
        &&& out@.len() == self.outputs().len() + if self.buffered().len() == 0 {
            0int
        } else {
            1int
        }
        &&& out@.subrange(0, self.outputs().len() as int) == self.outputs()
        &&& self.buffered().len() > 0 ==> answers::<T, E, F>(self.handler(), self.buffered(), out@.last())
    }

    /// Buffers `bytes` and hands every complete part to `on_part`, oldest
    /// bytes first (a part of `threshold` bytes, or of one byte when the
    /// threshold is 0). An error of `on_part` is returned at once; the part
    /// it refused counts as handed over.
    fn write(&mut self, bytes: &[u8]) -> (r: Result<(), E>)
        ensures
            final(self).received() == old(self).received() + bytes@,
            final(self).threshold() == old(self).threshold(),
            final(self).handler() == old(self).handler(),
            final(self).sent().len() >= old(self).sent().len(),
            forall|i: int| 0 <= i < old(self).sent().len() ==> final(self).sent()[i] == old(self).sent()[i],
            forall|i: int|
                old(self).sent().len() <= i < final(self).sent().len() ==> (#[trigger] final(self).sent()[i]).len()
                    == part_size(old(self).threshold()),
            final(self).outputs().len() >= old(self).outputs().len(),
            forall|i: int| 0 <= i < old(self).outputs().len() ==> final(self).outputs()[i] == old(self).outputs()[i],
            forall|j: int|
                0 <= j < final(self).outputs().len() - old(self).outputs().len() ==> answers::<T, E, F>(
                    old(self).handler(),
                    final(self).sent()[old(self).sent().len() + j],
                    #[trigger] final(self).outputs()[old(self).outputs().len() + j],
                ),
            r is Ok ==> final(self).outputs().len() - old(self).outputs().len() == final(self).sent().len() - old(
                self,
            ).sent().len(),
            r is Ok ==> final(self).buffered().len() < part_size(old(self).threshold()),
            r is Ok && old(self).cut_evenly() ==> final(self).cut_evenly(),
            r is Err ==> final(self).outputs().len() - old(self).outputs().len() + 1 == final(self).sent().len()
                - old(self).sent().len(),
            r matches Err(e) ==> refuses::<T, E, F>(old(self).handler(), final(self).sent().last(), e),
            accepts_all::<T, E, F>(old(self).handler()) ==> r is Ok,
            refuses_all::<T, E, F>(old(self).handler()) && old(self).buffered().len() + bytes@.len() >= part_size(
                old(self).threshold(),
            ) ==> r is Err,
    {
        append_bytes(&mut self.buf, bytes);
        let ghost total = concat(old(self).sent()) + old(self).buffered() + bytes@;
        assert(concat(self.sent@) + self.buf@ =~= total);
        let size: usize = if self.threshold == 0 {
            1
        } else {
            self.threshold
        };
        while self.buf.len() >= size
            invariant
                size == part_size(self.threshold),
                forall|p: Vec<u8>| call_requires(self.on_part, (p,)),
                self.on_part == old(self).on_part,
                self.threshold == old(self).threshold,
                concat(self.sent@) + self.buf@ == total,
                total == concat(old(self).sent()) + old(self).buffered() + bytes@,
                self.sent@.len() >= old(self).sent@.len(),
                forall|i: int| 0 <= i < old(self).sent@.len() ==> self.sent@[i] == old(self).sent@[i],
                forall|i: int|
                    old(self).sent@.len() <= i < self.sent@.len() ==> (#[trigger] self.sent@[i]).len() == size,
                self.parts@.len() - old(self).parts@.len() == self.sent@.len() - old(self).sent@.len(),
                self.sent@.len() == old(self).sent@.len() ==> self.buf@.len() == old(self).buf@.len() + bytes@.len(),
                self.sent@.len() > old(self).sent@.len() ==> !refuses_all::<T, E, F>(old(self).on_part),
                forall|i: int| 0 <= i < old(self).parts@.len() ==> self.parts@[i] == old(self).parts@[i],
                forall|j: int|
                    0 <= j < self.parts@.len() - old(self).parts@.len() ==> answers::<T, E, F>(
                        old(self).on_part,
                        self.sent@[old(self).sent@.len() + j],
                        #[trigger] self.parts@[old(self).parts@.len() + j],
                    ),
            decreases self.buf@.len(),
        {
            let rest = self.buf.split_off(size);
            let mut part = rest;
            std::mem::swap(&mut part, &mut self.buf);
            proof {
                lemma_concat_push(self.sent@, part@);
            }
            self.sent = Ghost(self.sent@.push(part@));
            assert(concat(self.sent@) + self.buf@ =~= total);
            let ghost handed = part;
            let ghost parts_before = self.parts@;
            let result = (self.on_part)(part);
            match result {
                Ok(t) => {
                    self.parts.push(t);
                    proof {
                        assert(handed@ == self.sent@.last());
                        assert(answers::<T, E, F>(old(self).on_part, self.sent@.last(), t));
                        assert forall|j: int|
                            0 <= j < self.parts@.len() - old(self).parts@.len() implies answers::<T, E, F>(
                            old(self).on_part,
                            self.sent@[old(self).sent@.len() + j],
                            #[trigger] self.parts@[old(self).parts@.len() + j],
                        ) by {
                            if j < parts_before.len() - old(self).parts@.len() {
                                assert(self.parts@[old(self).parts@.len() + j] == parts_before[old(self).parts@.len() + j]);
                            } else {
                                assert(old(self).sent@.len() + j == self.sent@.len() - 1);
                            }
                        }
                    }
                },
                Err(e) => {
                    proof {
                        assert(handed@ == self.sent@.last());
                        assert(refuses::<T, E, F>(old(self).on_part, self.sent@.last(), e));
                    }
                    return Err(e);
                },
            }
        }
        proof {
            if old(self).cut_evenly() {
                assert forall|i: int| 0 <= i < self.sent@.len() implies (#[trigger] self.sent@[i]).len() == size by {
                    if i < old(self).sent@.len() {
                        assert(self.sent@[i] == old(self).sent@[i]);
                    }
                }
            }
        }
        Ok(())
    }

    /// Hands what is still buffered to `on_part` as the last part (nothing
    /// when the buffer is empty) and returns what `on_part` returned for
    /// every part. An error of `on_part` for the last part is returned.
    fn finish(self) -> (r: Result<Vec<T>, E>)
        ensures
            self.buffered().len() == 0 ==> (r matches Ok(v) && v@ == self.outputs()),
            r is Err ==> self.buffered().len() > 0,
            r matches Err(e) ==> refuses::<T, E, F>(self.handler(), self.buffered(), e),
            accepts_all::<T, E, F>(self.handler()) ==> r is Ok,
            refuses_all::<T, E, F>(self.handler()) && self.buffered().len() > 0 ==> r is Err,
    {
        let mut this = self;
        if this.buf.len() > 0 {
            let part = this.buf;
            let ghost handed = part;
            match (this.on_part)(part) {
                Ok(t) => {
                    this.parts.push(t);
                    assert(answers::<T, E, F>(self.on_part, self.buf@, t));
                },
                Err(e) => {
                    assert(refuses::<T, E, F>(self.on_part, self.buf@, e));
                    return Err(e);
                },
            }
            assert(this.parts@.subrange(0, self.outputs().len() as int) =~= self.outputs());
            return Ok(this.parts);
        }
        assert(this.parts@.subrange(0, self.outputs().len() as int) =~= self.outputs());
        Ok(this.parts)
    }
}

} // verus!
