use flate2::write::MultiGzDecoder;
use vstd::prelude::*;
use vstd::utf8::{decode_utf8, valid_utf8};

use crate::error::ReadError;

verus! {

/// The newline byte.
pub const NEWLINE: u8 = 10;

/// Lines, each followed by a newline, one after another.
pub open spec fn joined(lines: Seq<Seq<u8>>) -> Seq<u8>
    decreases lines.len(),
{
    if lines.len() == 0 {
        Seq::empty()
    } else {
        joined(lines.drop_last()) + lines.last() + seq![NEWLINE]
    }
}

pub open spec fn no_newline(b: Seq<u8>) -> bool {
    forall|i: int| 0 <= i < b.len() ==> b[i] != NEWLINE
}

pub open spec fn byte_lines(v: Seq<Vec<u8>>) -> Seq<Seq<u8>> {
    v.map_values(|l: Vec<u8>| l@)
}

/// Cuts a byte stream into lines at each newline, keeping the unfinished
/// last line until more bytes come.
pub struct LineSplitter {
    pending: Vec<u8>,
}

impl LineSplitter {
    /// The bytes after the last newline so far.
    pub closed spec fn pending(&self) -> Seq<u8> {
        self.pending@
    }

    pub fn new() -> (s: LineSplitter)
        ensures
            s.pending() == Seq::<u8>::empty(),
    {
        LineSplitter { pending: Vec::new() }
    }

    /// Takes more bytes of the stream and hands back the lines they finish,
    /// without their newlines.
    pub fn feed(&mut self, bytes: &[u8]) -> (lines: Vec<Vec<u8>>)
        requires
            no_newline(old(self).pending()),
        ensures
            no_newline(final(self).pending()),
            forall|i: int| 0 <= i < lines@.len() ==> no_newline(#[trigger] lines@[i]@),
            joined(byte_lines(lines@)) + final(self).pending() == old(self).pending() + bytes@,
    {
        let mut lines: Vec<Vec<u8>> = Vec::new();
        let mut i: usize = 0;
        while i < bytes.len()
            invariant
                i <= bytes@.len(),
                no_newline(self.pending@),
                forall|j: int| 0 <= j < lines@.len() ==> no_newline(#[trigger] lines@[j]@),
                joined(byte_lines(lines@)) + self.pending@ == old(self).pending@ + bytes@.subrange(
                    0,
                    i as int,
                ),
            decreases bytes@.len() - i,
        {
            let b = bytes[i];
            let ghost prev_lines = lines@;
            let ghost prev_pending = self.pending@;
            if b == NEWLINE {
                let line = self.pending.split_off(0);
                lines.push(line);
                assert(byte_lines(lines@).drop_last() =~= byte_lines(prev_lines));
                assert(joined(byte_lines(lines@)) == joined(byte_lines(prev_lines)) + prev_pending
                    + seq![NEWLINE]);
                assert(self.pending@ =~= Seq::<u8>::empty());
                assert(joined(byte_lines(lines@)) + self.pending@ =~= (joined(byte_lines(prev_lines))
                    + prev_pending).push(b));
            } else {
                self.pending.push(b);
                assert(lines@ == prev_lines);
                assert(joined(byte_lines(lines@)) + self.pending@ =~= (joined(byte_lines(prev_lines))
                    + prev_pending).push(b));
            }
            assert(bytes@.subrange(0, i + 1) =~= bytes@.subrange(0, i as int).push(b));
            i = i + 1;
            assert(joined(byte_lines(lines@)) + self.pending@ =~= old(self).pending@
                + bytes@.subrange(0, i as int));
        }
        assert(bytes@.subrange(0, i as int) =~= bytes@);
        lines
    }

    /// Ends the stream: hands back the unfinished last line, if it holds any
    /// byte.
    pub fn finish(&mut self) -> (last: Option<Vec<u8>>)
        ensures
            final(self).pending() == Seq::<u8>::empty(),
            match last {
                Some(l) => l@ == old(self).pending() && l@.len() > 0,
                None => old(self).pending().len() == 0,
            },
    {
        let line = self.pending.split_off(0);
        if line.len() > 0 {
            Some(line)
        } else {
            None
        }
    }
}

/// A multi-member gzip stream being decompressed into a growing buffer:
/// flate2's `MultiGzDecoder` over a `Vec<u8>`, which Verus cannot declare
/// since `MultiGzDecoder` is bounded by `std::io::Write`.
#[verifier::external_body]
pub struct GzInput {
    inner: MultiGzDecoder<Vec<u8>>,
}

/// The compressed chunks written into a gzip decoder so far.
pub uninterp spec fn gz_chunks(d: GzInput) -> Seq<Seq<u8>>;

/// The decompressed bytes that a gzip decoder holds in its buffer and that
/// have not been taken out yet.
pub uninterp spec fn gz_out_buffered(d: GzInput) -> Seq<u8>;

/// The decompressed bytes that a multi-member gzip decoder has produced
/// after these chunks are written in turn, counted over every buffer it
/// wrote into; `None` where it refuses one of them.
pub uninterp spec fn gz_decoded(chunks: Seq<Seq<u8>>) -> Option<Seq<u8>>;

/// All the decompressed bytes of these chunks once the decoder is
/// finished; `None` where it cannot finish (the input stops inside a
/// member).
pub uninterp spec fn gz_decoded_finished(chunks: Seq<Seq<u8>>) -> Option<Seq<u8>>;

/// Relies on flate2's `MultiGzDecoder::new` over an empty `Vec`: nothing is
/// produced before the first chunk.
#[verifier::external_body]
fn new_decoder() -> (d: GzInput)
    ensures
        gz_chunks(d) == Seq::<Seq<u8>>::empty(),
        gz_out_buffered(d) == Seq::<u8>::empty(),
        gz_decoded(gz_chunks(d)) == Some(Seq::<u8>::empty()),
{
    GzInput { inner: MultiGzDecoder::new(Vec::new()) }
}

/// Relies on flate2's `Write for MultiGzDecoder` (`write_all`):
/// decompresses the chunk, member after member, appending the output to the
/// buffer; `false` where the bytes are refused.
#[verifier::external_body]
fn decoder_write(d: &mut GzInput, chunk: &[u8]) -> (ok: bool)
    requires
        gz_decoded(gz_chunks(*old(d))) is Some,
    ensures
        gz_chunks(*final(d)) == gz_chunks(*old(d)).push(chunk@),
        ok == gz_decoded(gz_chunks(*final(d))) is Some,
        ok ==> {
            let before = gz_decoded(gz_chunks(*old(d))).unwrap();
            let after = gz_decoded(gz_chunks(*final(d))).unwrap();
            &&& before.is_prefix_of(after)
            &&& gz_out_buffered(*final(d)) == gz_out_buffered(*old(d)) + after.subrange(
                before.len() as int,
                after.len() as int,
            )
        },
{
    std::io::Write::write_all(&mut d.inner, chunk).is_ok()
}

/// Relies on flate2's `MultiGzDecoder::try_finish`: writes out the rest of
/// the decompressed data; `false` where the stream cannot be finished.
#[verifier::external_body]
fn decoder_finish(d: &mut GzInput) -> (ok: bool)
    requires
        gz_decoded(gz_chunks(*old(d))) is Some,
    ensures
        gz_chunks(*final(d)) == gz_chunks(*old(d)),
        ok == gz_decoded_finished(gz_chunks(*final(d))) is Some,
        ok ==> {
            let before = gz_decoded(gz_chunks(*old(d))).unwrap();
            let after = gz_decoded_finished(gz_chunks(*final(d))).unwrap();
            &&& before.is_prefix_of(after)
            &&& gz_out_buffered(*final(d)) == gz_out_buffered(*old(d)) + after.subrange(
                before.len() as int,
                after.len() as int,
            )
        },
{
    d.inner.try_finish().is_ok()
}

/// Relies on flate2's `MultiGzDecoder::get_mut`, whose buffer may be
/// replaced while the stream goes on: takes the decompressed bytes out.
#[verifier::external_body]
fn take_decoded(d: &mut GzInput) -> (b: Vec<u8>)
    ensures
        b@ == gz_out_buffered(*old(d)),
        gz_out_buffered(*final(d)) == Seq::<u8>::empty(),
        gz_chunks(*final(d)) == gz_chunks(*old(d)),
{
    std::mem::take(d.inner.get_mut())
}

/// Relies on `String::from_utf8`: text exactly where the bytes are UTF-8.
#[verifier::external_body]
fn utf8_text(b: Vec<u8>) -> (r: Option<String>)
    ensures
        r.is_some() == valid_utf8(b@),
        r matches Some(s) ==> s@ == decode_utf8(b@),
{
    String::from_utf8(b).ok()
}

/// `texts` are the UTF-8 readings of `lines`, one for one.
#[verifier::opaque]
pub open spec fn decodes_to(texts: Seq<String>, lines: Seq<Seq<u8>>) -> bool {
    &&& texts.len() == lines.len()
    &&& forall|i: int|
        0 <= i < lines.len() ==> valid_utf8(#[trigger] lines[i]) && texts[i]@ == decode_utf8(
            lines[i],
        )
}

/// Some line of `lines` is not UTF-8.
#[verifier::opaque]
pub open spec fn some_invalid(lines: Seq<Seq<u8>>) -> bool {
    exists|i: int| 0 <= i < lines.len() && !valid_utf8(#[trigger] lines[i])
}

/// Reads each line as UTF-8 text.
fn read_texts(lines: Vec<Vec<u8>>) -> (r: Result<Vec<String>, ReadError>)
    ensures
        match r {
            Ok(v) => decodes_to(v@, byte_lines(lines@)),
            Err(e) => e is InvalidUtf8 && some_invalid(byte_lines(lines@)),
        },
{
    reveal(decodes_to);
    let ghost all = byte_lines(lines@);
    let mut texts: Vec<String> = Vec::new();
    let mut i: usize = 0;
    while i < lines.len()
        invariant
            all == byte_lines(lines@),
            i <= lines@.len(),
            decodes_to(texts@, all.subrange(0, i as int)),
        decreases lines@.len() - i,
    {
        reveal(decodes_to);
        let ghost before = texts@;
        let line = lines[i].clone();
        assert(line@ =~= lines@[i as int]@);
        match utf8_text(line) {
            Some(t) => texts.push(t),
            None => {
                proof {
                    reveal(some_invalid);
                    assert(!valid_utf8(all[i as int]));
                }
                return Err(ReadError::InvalidUtf8);
            },
        }
        i = i + 1;
        assert(texts@ == before.push(texts@[i - 1]));
        assert forall|j: int| 0 <= j < i - 1 implies all.subrange(0, i as int)[j]
            == all.subrange(0, i - 1)[j] by {}
    }
    assert(all.subrange(0, i as int) =~= all);
    Ok(texts)
}

/// `emitted` lines, each followed by a newline, then the unfinished
/// `pending` line make up `decoded`.
pub open spec fn splits(emitted: Seq<Seq<u8>>, pending: Seq<u8>, decoded: Seq<u8>) -> bool {
    &&& no_newline(pending)
    &&& joined(emitted) + pending == decoded
    &&& forall|i: int| 0 <= i < emitted.len() ==> no_newline(#[trigger] emitted[i])
}

/// The lines of a gzip-compressed input (one or more members), fed to it
/// chunk by chunk: each finished line comes out as UTF-8 text without its
/// newline, and the unfinished last line comes out at the end.
pub struct LineSource {
    decoder: GzInput,
    splitter: LineSplitter,
    finished: bool,
    input: Ghost<Seq<Seq<u8>>>,
    decoded: Ghost<Seq<u8>>,
    emitted: Ghost<Seq<Seq<u8>>>,
}

impl LineSource {
    /// The compressed chunks fed so far.
    pub closed spec fn input(&self) -> Seq<Seq<u8>> {
        self.input@
    }

    /// The decompressed bytes so far.
    pub closed spec fn decoded(&self) -> Seq<u8> {
        self.decoded@
    }

    /// The lines cut so far, as bytes.
    pub closed spec fn emitted(&self) -> Seq<Seq<u8>> {
        self.emitted@
    }

    /// The bytes after the last newline so far.
    pub closed spec fn pending(&self) -> Seq<u8> {
        self.splitter.pending()
    }

    /// Whether the input has been ended.
    pub closed spec fn finished(&self) -> bool {
        self.finished
    }

    pub closed spec fn wf(&self) -> bool {
        &&& gz_chunks(self.decoder) == self.input@
        &&& !self.finished ==> {
            &&& gz_decoded(self.input@) == Some(self.decoded@)
            &&& gz_out_buffered(self.decoder) == Seq::<u8>::empty()
            &&& splits(self.emitted@, self.splitter.pending(), self.decoded@)
        }
    }

    pub fn new() -> (s: LineSource)
        ensures
            s.wf(),
            !s.finished(),
            s.input() == Seq::<Seq<u8>>::empty(),
            s.decoded() == Seq::<u8>::empty(),
            s.emitted() == Seq::<Seq<u8>>::empty(),
    {
        let s = LineSource {
            decoder: new_decoder(),
            splitter: LineSplitter::new(),
            finished: false,
            input: Ghost(Seq::empty()),
            decoded: Ghost(Seq::empty()),
            emitted: Ghost(Seq::empty()),
        };
        assert(joined(s.emitted@) + s.splitter.pending() =~= Seq::<u8>::empty());
        s
    }

    pub fn is_finished(&self) -> (r: bool)
        ensures
            r == self.finished(),
    {
        self.finished
    }

    /// Splits newly decompressed bytes, reading the lines they finish.
    fn take_lines(&mut self, fresh: Vec<u8>) -> (r: Result<Vec<String>, ReadError>)
        requires
            splits(old(self).emitted(), old(self).pending(), old(self).decoded()),
        ensures
            final(self).decoder == old(self).decoder,
            final(self).finished == old(self).finished,
            final(self).input == old(self).input,
            final(self).decoded() == old(self).decoded() + fresh@,
            splits(final(self).emitted(), final(self).pending(), final(self).decoded()),
            final(self).emitted() == old(self).emitted() + final(self).emitted().subrange(old(self).emitted().len() as int, final(self).emitted().len() as int),
            r matches Ok(v) ==> decodes_to(v@, final(self).emitted().subrange(old(self).emitted().len() as int, final(self).emitted().len() as int)),
            r matches Err(e) ==> e is InvalidUtf8,
            r is Err ==> some_invalid(final(self).emitted().subrange(old(self).emitted().len() as int, final(self).emitted().len() as int)),
    {
        let ghost old_pending = self.splitter.pending();
        let lines = self.splitter.feed(fresh.as_slice());
        let ghost new_lines = byte_lines(lines@);
        proof {
            lemma_joined_append(self.emitted@, new_lines);
            let e = self.emitted@ + new_lines;
            assert forall|i: int| 0 <= i < e.len() implies no_newline(#[trigger] e[i]) by {
                if i >= self.emitted@.len() {
                    assert(e[i] == new_lines[i - self.emitted@.len()]);
                }
            }
            let je = joined(self.emitted@);
            let jn = joined(new_lines);
            let p = self.splitter.pending();
            assert(jn + p == old_pending + fresh@);
            assert(je + old_pending == self.decoded@);
            assert((je + jn) + p =~= je + (jn + p));
            assert(je + (old_pending + fresh@) =~= (je + old_pending) + fresh@);
            assert(e.subrange(self.emitted@.len() as int, e.len() as int) =~= new_lines);
        }
        self.decoded = Ghost(self.decoded@ + fresh@);
        self.emitted = Ghost(self.emitted@ + new_lines);
        assert(self.emitted@.subrange(old(self).emitted@.len() as int, self.emitted@.len() as int)
            =~= new_lines);
        match read_texts(lines) {
            Ok(t) => {
                assert(decodes_to(t@, new_lines));
                Ok(t)
            },
            Err(e) => Err(e),
        }
    }

    /// Decompresses one more chunk of the input and reads the lines it
    /// finishes. Refused where the decoder refuses the input so far, or
    /// where a finished line is not UTF-8.
    pub fn push_compressed(&mut self, chunk: &[u8]) -> (r: Result<Vec<String>, ReadError>)
        requires
            old(self).wf(),
            !old(self).finished(),
        ensures
            final(self).input() == old(self).input().push(chunk@),
            !final(self).finished(),
            (r matches Err(e) && e is InvalidInput) <==> gz_decoded(final(self).input()) is None,
            !(r matches Err(e) && e is InvalidInput) ==> {
                &&& gz_decoded(final(self).input()) == Some(final(self).decoded())
                &&& splits(final(self).emitted(), final(self).pending(), final(self).decoded())
                &&& final(self).emitted() == old(self).emitted() + final(self).emitted().subrange(old(self).emitted().len() as int, final(self).emitted().len() as int)
            },
            match r {
                Ok(v) => final(self).wf() && decodes_to(v@, final(self).emitted().subrange(old(self).emitted().len() as int, final(self).emitted().len() as int)),
                Err(e) => e is InvalidInput || (e is InvalidUtf8 && some_invalid(final(self).emitted().subrange(old(self).emitted().len() as int, final(self).emitted().len() as int))),
            },
    {
        let ok = decoder_write(&mut self.decoder, chunk);
        self.input = Ghost(self.input@.push(chunk@));
        if !ok {
            return Err(ReadError::InvalidInput);
        }
        let fresh = take_decoded(&mut self.decoder);
        proof {
            assert(fresh@ =~= gz_decoded(self.input@).unwrap().subrange(
                old(self).decoded@.len() as int,
                gz_decoded(self.input@).unwrap().len() as int,
            ));
            let after = gz_decoded(self.input@).unwrap();
            assert(old(self).decoded@ =~= after.subrange(0, old(self).decoded@.len() as int));
            assert(old(self).decoded@ + fresh@ =~= after);
        }
        self.take_lines(fresh)
    }

    /// Ends the input: decompresses what remains and reads the last lines,
    /// the unfinished one included. Refused where the input stops inside a
    /// member, or where a line is not UTF-8. Afterwards every decompressed
    /// byte belongs to a line handed out, and every line ends where a
    /// newline stood, or at the end.
    pub fn finish(&mut self) -> (r: Result<Vec<String>, ReadError>)
        requires
            old(self).wf(),
            !old(self).finished(),
        ensures
            final(self).finished(),
            final(self).input() == old(self).input(),
            (r matches Err(e) && e is InvalidInput) <==> gz_decoded_finished(old(self).input()) is None,
            match r {
                Ok(v) => {
                    &&& final(self).decoded() == gz_decoded_finished(old(self).input()).unwrap()
                    &&& final(self).emitted() == old(self).emitted() + final(self).emitted().subrange(old(self).emitted().len() as int, final(self).emitted().len() as int)
                    &&& decodes_to(v@, final(self).emitted().subrange(old(self).emitted().len() as int, final(self).emitted().len() as int))
                    &&& forall|i: int|
                        0 <= i < final(self).emitted().len() ==> no_newline(
                            #[trigger] final(self).emitted()[i],
                        )
                    &&& joined(final(self).emitted()) == if final(self).decoded().len() == 0
                        || final(self).decoded().last() == NEWLINE {
                        final(self).decoded()
                    } else {
                        final(self).decoded().push(NEWLINE)
                    }
                },
                Err(e) => e is InvalidInput || (e is InvalidUtf8 && some_invalid(final(self).emitted().subrange(old(self).emitted().len() as int, final(self).emitted().len() as int))),
            },
    {
        self.finished = true;
        if !decoder_finish(&mut self.decoder) {
            return Err(ReadError::InvalidInput);
        }
        let fresh = take_decoded(&mut self.decoder);
        proof {
            let after = gz_decoded_finished(self.input@).unwrap();
            assert(old(self).decoded@ =~= after.subrange(0, old(self).decoded@.len() as int));
            assert(old(self).decoded@ + fresh@ =~= after);
        }
        let mut texts = match self.take_lines(fresh) {
            Ok(t) => t,
            Err(e) => return Err(e),
        };
        let ghost mid = self.emitted@;
        let ghost d = self.decoded@;
        proof {
            lemma_joined_ends_line(mid);
        }
        match self.splitter.finish() {
            None => {
                assert(joined(mid) =~= d);
            },
            Some(last) => {
                let ghost last_bytes = last@;
                let t = match utf8_text(last) {
                    Some(t) => t,
                    None => {
                        self.emitted = Ghost(mid.push(last_bytes));
                        proof {
                            reveal(some_invalid);
                            let lo = old(self).emitted@.len() as int;
                            let cut = self.emitted@.subrange(lo, self.emitted@.len() as int);
                            assert(cut[cut.len() - 1] == last_bytes);
                        }
                        return Err(ReadError::InvalidUtf8);
                    },
                };
                let ghost before = texts@;
                texts.push(t);
                proof {
                    reveal(decodes_to);
                    let e = mid.push(last_bytes);
                    assert(e.drop_last() =~= mid);
                    assert(joined(e) =~= d.push(NEWLINE));
                    assert(d.last() == last_bytes.last());
                    let lo = old(self).emitted@.len() as int;
                    assert(e.subrange(lo, e.len() as int) =~= mid.subrange(lo, mid.len() as int).push(
                        last_bytes,
                    ));
                    assert(e =~= old(self).emitted@ + e.subrange(lo, e.len() as int));
                    assert forall|i: int| 0 <= i < e.len() implies no_newline(#[trigger] e[i]) by {
                        if i < mid.len() {
                            assert(e[i] == mid[i]);
                        }
                    }
                    let sub = e.subrange(lo, e.len() as int);
                    assert forall|i: int| 0 <= i < sub.len() implies valid_utf8(#[trigger] sub[i])
                        && texts@[i]@ == decode_utf8(sub[i]) by {
                        if i < sub.len() - 1 {
                            assert(sub[i] == mid.subrange(lo, mid.len() as int)[i]);
                            assert(texts@[i] == before[i]);
                        }
                    }
                }
                self.emitted = Ghost(mid.push(last_bytes));
            },
        }
        Ok(texts)
    }
}

/// Lines joined with their newlines end in a newline, unless there are none.
proof fn lemma_joined_ends_line(e: Seq<Seq<u8>>)
    ensures
        joined(e).len() == 0 || joined(e).last() == NEWLINE,
{
    if e.len() > 0 {
        let j = joined(e);
        assert(j == joined(e.drop_last()) + e.last() + seq![NEWLINE]);
    }
}

proof fn lemma_joined_append(a: Seq<Seq<u8>>, b: Seq<Seq<u8>>)
    ensures
        joined(a + b) == joined(a) + joined(b),
    decreases b.len(),
{
    if b.len() == 0 {
        assert(a + b =~= a);
        assert(joined(a) + joined(b) =~= joined(a));
    } else {
        lemma_joined_append(a, b.drop_last());
        assert((a + b).drop_last() =~= a + b.drop_last());
        assert((a + b).last() == b.last());
        assert(joined(a + b) =~= joined(a) + joined(b));
    }
}

} // verus!
