use flate2::write::GzEncoder;

use vstd::prelude::*;

use crate::file_pool::key_names;
use crate::key::{LineData, MsgKey};
use crate::key_map::KeyMap;

verus! {

/// A shard's compressed output is handed on once this many bytes of it have
/// gathered.
pub const LOW_WATER_MARK: usize = 1024;

/// A gzip stream being written into a growing buffer: flate2's `GzEncoder`
/// over a `Vec<u8>`, which Verus cannot declare since `GzEncoder` is bounded
/// by `std::io::Write`.
#[verifier::external_body]
pub struct GzStream {
    inner: GzEncoder<Vec<u8>>,
}

/// The compressed bytes that a gzip encoder has written into its buffer and
/// that have not been taken out yet.
pub uninterp spec fn gz_buffered(e: GzStream) -> Seq<u8>;

/// The texts written into a gzip encoder so far, one per write.
pub uninterp spec fn gz_inputs(e: GzStream) -> Seq<Seq<char>>;

/// The compressed bytes that a gzip encoder (default level) has produced
/// after these writes, counted over every buffer it wrote into.
pub uninterp spec fn gz_stream(texts: Seq<Seq<char>>) -> Seq<u8>;

/// The whole gzip stream, trailer included, of these writes once finished.
pub uninterp spec fn gz_finished(texts: Seq<Seq<char>>) -> Seq<u8>;

/// Relies on flate2's `GzEncoder::new` (default level) over an empty `Vec`:
/// the header is held back until the first write, so nothing is produced.
#[verifier::external_body]
fn new_encoder() -> (e: GzStream)
    ensures
        gz_inputs(e) == Seq::<Seq<char>>::empty(),
        gz_buffered(e) == Seq::<u8>::empty(),
        gz_stream(gz_inputs(e)) == Seq::<u8>::empty(),
{
    GzStream { inner: GzEncoder::new(Vec::new(), flate2::Compression::default()) }
}

/// Relies on flate2's `Write for GzEncoder` (`write_all`) over a `Vec`,
/// which never refuses bytes: the stream goes on, and what it produces is
/// appended to the buffer.
#[verifier::external_body]
fn encoder_write(e: &mut GzStream, text: &str) -> (ok: bool)
    ensures
        ok,
        gz_inputs(*final(e)) == gz_inputs(*old(e)).push(text@),
        gz_stream(gz_inputs(*old(e))).is_prefix_of(gz_stream(gz_inputs(*final(e)))),
        gz_buffered(*final(e)) == gz_buffered(*old(e)) + gz_stream(gz_inputs(*final(e))).subrange(
            gz_stream(gz_inputs(*old(e))).len() as int,
            gz_stream(gz_inputs(*final(e))).len() as int,
        ),
{
    std::io::Write::write_all(&mut e.inner, text.as_bytes()).is_ok()
}

/// Relies on flate2's `GzEncoder::get_ref`: the buffer that the compressed
/// stream is written into.
#[verifier::external_body]
fn buffered_len(e: &GzStream) -> (n: usize)
    ensures
        n == gz_buffered(*e).len(),
{
    e.inner.get_ref().len()
}

/// Relies on flate2's `GzEncoder::get_mut`, whose buffer may be replaced
/// while the stream goes on: takes the buffered bytes out, leaving it empty.
#[verifier::external_body]
fn take_buffered(e: &mut GzStream) -> (b: Vec<u8>)
    ensures
        b@ == gz_buffered(*old(e)),
        gz_buffered(*final(e)) == Seq::<u8>::empty(),
        gz_inputs(*final(e)) == gz_inputs(*old(e)),
{
    std::mem::take(e.inner.get_mut())
}

/// Relies on flate2's `GzEncoder::finish` over a `Vec`, which cannot fail:
/// ends the stream with its trailer and hands back the buffer, holding the
/// bytes buffered before and then the rest of the finished stream.
#[verifier::external_body]
fn finish_encoder(e: GzStream) -> (r: Option<Vec<u8>>)
    ensures
        r is Some,
        r matches Some(b) ==> {
            &&& gz_stream(gz_inputs(e)).is_prefix_of(gz_finished(gz_inputs(e)))
            &&& b@ == gz_buffered(e) + gz_finished(gz_inputs(e)).subrange(
                gz_stream(gz_inputs(e)).len() as int,
                gz_finished(gz_inputs(e)).len() as int,
            )
        },
{
    e.inner.finish().ok()
}

/// The texts fed to each shard's encoder after one more line: the line's
/// text is written after what its own shard had.
pub open spec fn feed_step(
    fed: Map<Seq<char>, Seq<Seq<char>>>,
    key: Seq<char>,
    text: Seq<char>,
) -> Map<Seq<char>, Seq<Seq<char>>> {
    let before = if fed.contains_key(key) {
        fed[key]
    } else {
        Seq::<Seq<char>>::empty()
    };
    fed.insert(key, before.push(text))
}

/// The bytes that `m` holds for `k`, none where it has no entry.
pub open spec fn bytes_of(m: Map<Seq<char>, Seq<u8>>, k: Seq<char>) -> Seq<u8> {
    if m.contains_key(k) {
        m[k]
    } else {
        Seq::<u8>::empty()
    }
}

/// One gzip stream per shard key, fed with the texts of that shard's lines.
/// Keys are remembered in the order of their first line.
pub struct ShardEncoders {
    encoders: KeyMap<GzStream>,
    keys: Vec<MsgKey>,
    fed: Ghost<Map<Seq<char>, Seq<Seq<char>>>>,
    handed: Ghost<Map<Seq<char>, Seq<u8>>>,
}

impl ShardEncoders {
    /// The texts written so far to each shard's stream, one per line.
    pub closed spec fn fed(&self) -> Map<Seq<char>, Seq<Seq<char>>> {
        self.fed@
    }

    /// The compressed bytes of each shard's stream handed out so far.
    pub closed spec fn handed(&self) -> Map<Seq<char>, Seq<u8>> {
        self.handed@
    }

    /// The shard keys, in the order of their first line.
    pub closed spec fn keys(&self) -> Seq<Seq<char>> {
        key_names(self.keys@)
    }

    pub closed spec fn wf(&self) -> bool {
        &&& self.encoders.wf()
        &&& forall|k: Seq<char>| #[trigger]
            self.fed@.contains_key(k) <==> self.encoders@.contains_key(k)
        &&& forall|k: Seq<char>| #[trigger]
            self.fed@.contains_key(k) ==> {
                &&& gz_inputs(self.encoders@[k]) == self.fed@[k]
                &&& bytes_of(self.handed@, k) + gz_buffered(self.encoders@[k]) == gz_stream(
                    self.fed@[k],
                )
            }
        &&& forall|k: Seq<char>| #[trigger]
            self.handed@.contains_key(k) ==> self.fed@.contains_key(k)
        &&& forall|i: int|
            0 <= i < self.keys@.len() ==> self.fed@.contains_key(#[trigger] self.keys@[i]@)
        &&& forall|i: int, j: int|
            0 <= i < j < self.keys@.len() ==> self.keys@[i]@ != self.keys@[j]@
        &&& forall|k: Seq<char>| #[trigger]
            self.fed@.contains_key(k) ==> exists|i: int|
                0 <= i < self.keys@.len() && #[trigger] self.keys@[i]@ == k
    }

    pub fn new() -> (s: ShardEncoders)
        ensures
            s.wf(),
            s.fed() == Map::<Seq<char>, Seq<Seq<char>>>::empty(),
            s.handed() == Map::<Seq<char>, Seq<u8>>::empty(),
            s.keys() == Seq::<Seq<char>>::empty(),
    {
        let s = ShardEncoders {
            encoders: KeyMap::new(),
            keys: Vec::new(),
            fed: Ghost(Map::empty()),
            handed: Ghost(Map::empty()),
        };
        assert(s.keys() =~= Seq::<Seq<char>>::empty());
        s
    }

    /// Writes the line's text into its shard's stream, starting one for a
    /// new shard. Once at least `LOW_WATER_MARK` compressed bytes of the
    /// shard have gathered, hands them out: the next piece of its stream.
    pub fn push_line(&mut self, line: &LineData) -> (out: Option<Vec<u8>>)
        requires
            old(self).wf(),
        ensures
            final(self).wf(),
            final(self).fed() == feed_step(old(self).fed(), line.spec_key()@, line.text()),
            final(self).keys() == if old(self).fed().contains_key(line.spec_key()@) {
                old(self).keys()
            } else {
                old(self).keys().push(line.spec_key()@)
            },
            ({
                let k = line.spec_key()@;
                let s = gz_stream(final(self).fed()[k]);
                let h = bytes_of(old(self).handed(), k);
                &&& h.is_prefix_of(s)
                &&& out.is_some() == (s.len() - h.len() >= LOW_WATER_MARK)
                &&& match out {
                    Some(b) => h + b@ == s && final(self).handed() == old(self).handed().insert(k, s),
                    None => final(self).handed() == old(self).handed().insert(k, h),
                }
            }),
    {
        let key = line.key();
        let ghost k = key@;
        let ghost old_keys = self.keys@;
        let ghost h = bytes_of(self.handed@, k);
        let mut enc = match self.encoders.remove(key) {
            Some(e) => e,
            None => {
                let kc = key.clone();
                self.keys.push(kc);
                new_encoder()
            },
        };
        let ghost b0 = gz_buffered(enc);
        let ghost s0 = gz_stream(gz_inputs(enc));
        let _ = encoder_write(&mut enc, line.original_line_text());
        let ghost s1 = gz_stream(gz_inputs(enc));
        proof {
            assert(h + b0 == s0);
            assert(gz_buffered(enc) == b0 + s1.subrange(s0.len() as int, s1.len() as int));
            let d = s1.subrange(s0.len() as int, s1.len() as int);
            assert(s0.is_prefix_of(s1));
            assert(s0 =~= s1.subrange(0, s0.len() as int));
            assert(s0 + d =~= s1);
            assert(h + (b0 + d) =~= (h + b0) + d);
            assert(h + gz_buffered(enc) =~= s1);
        }
        let out = if buffered_len(&enc) >= LOW_WATER_MARK {
            Some(take_buffered(&mut enc))
        } else {
            None
        };
        let ghost new_h = match out {
            Some(_) => s1,
            None => h,
        };
        self.encoders.insert(key.clone(), enc);
        self.fed = Ghost(feed_step(self.fed@, k, line.text()));
        self.handed = Ghost(self.handed@.insert(k, new_h));
        proof {
            assert(h.is_prefix_of(s1)) by {
                assert(s1.subrange(0, h.len() as int) =~= h);
            }
            assert(new_h + gz_buffered(enc) =~= s1);
            let ks = self.keys@;
            if old(self).fed@.contains_key(k) {
                assert(ks == old_keys);
            } else {
                assert(ks == old_keys.push(ks[old_keys.len() as int]));
                assert forall|i: int, j: int| 0 <= i < j < ks.len() implies ks[i]@ != ks[j]@ by {
                    if j == old_keys.len() {
                        assert(old(self).fed@.contains_key(old_keys[i]@));
                    } else {
                        assert(ks[i] == old_keys[i]);
                        assert(ks[j] == old_keys[j]);
                    }
                }
                assert forall|i: int| 0 <= i < ks.len() implies self.fed@.contains_key(
                    #[trigger] ks[i]@,
                ) by {
                    if i < old_keys.len() {
                        assert(ks[i] == old_keys[i]);
                    }
                }
                assert(self.keys() =~= old(self).keys().push(k));
            }
            assert forall|name: Seq<char>| #[trigger]
                self.fed@.contains_key(name) implies exists|i: int|
                0 <= i < ks.len() && #[trigger] ks[i]@ == name by {
                if name == k && !old(self).fed@.contains_key(k) {
                    assert(ks[old_keys.len() as int]@ == name);
                } else {
                    let i = choose|i: int|
                        0 <= i < old_keys.len() && #[trigger] old_keys[i]@ == name;
                    assert(ks[i] == old_keys[i]);
                }
            }
            assert forall|name: Seq<char>| #[trigger]
                self.fed@.contains_key(name) implies gz_inputs(self.encoders@[name])
                == self.fed@[name] && bytes_of(self.handed@, name) + gz_buffered(
                self.encoders@[name],
            ) == gz_stream(self.fed@[name]) by {
                if name != k {
                    assert(old(self).fed@.contains_key(name));
                }
            }
        }
        out
    }

    /// The keys are the fed shards, each once.
    pub proof fn lemma_keys_are_fed(&self)
        requires
            self.wf(),
        ensures
            self.keys().to_set() == self.fed().dom(),
            self.keys().no_duplicates(),
    {
        assert forall|k: Seq<char>| self.fed().dom().contains(k) implies #[trigger] self.keys().to_set().contains(k) by {
            let i = choose|i: int| 0 <= i < self.keys@.len() && #[trigger] self.keys@[i]@ == k;
            assert(self.keys()[i] == k);
        }
        assert(self.keys().to_set() =~= self.fed().dom());
    }

    /// Ends every shard's stream, in the order of the shards' first lines,
    /// and hands back each key with the rest of its stream, trailer
    /// included. No shard is left afterwards.
    pub fn finish(&mut self) -> (v: Vec<(MsgKey, Vec<u8>)>)
        requires
            old(self).wf(),
        ensures
            final(self).wf(),
            chunk_keys(v@) == old(self).keys(),
            forall|i: int|
                0 <= i < v@.len() ==> bytes_of(old(self).handed(), #[trigger] v@[i].0@) + v@[i].1@
                    == gz_finished(old(self).fed()[v@[i].0@]),
            final(self).fed() == Map::<Seq<char>, Seq<Seq<char>>>::empty(),
            final(self).handed() == Map::<Seq<char>, Seq<u8>>::empty(),
            final(self).keys() == Seq::<Seq<char>>::empty(),
    {
        let ghost all = self.keys();
        let ghost fed0 = self.fed@;
        let ghost handed0 = self.handed@;
        let ghost encs0 = self.encoders@;
        let keys = self.keys.split_off(0);
        let mut out: Vec<(MsgKey, Vec<u8>)> = Vec::new();
        let mut i: usize = 0;
        while i < keys.len()
            invariant
                self.encoders.wf(),
                self.keys@.len() == 0,
                all == key_names(keys@),
                i <= keys@.len(),
                out@.len() == i,
                forall|a: int, b: int| 0 <= a < b < keys@.len() ==> keys@[a]@ != keys@[b]@,
                forall|j: int|
                    i <= j < keys@.len() ==> #[trigger] self.encoders@.contains_key(keys@[j]@)
                        && self.encoders@[keys@[j]@] == encs0[keys@[j]@],
                forall|j: int| 0 <= j < keys@.len() ==> fed0.contains_key(#[trigger] keys@[j]@),
                forall|k: Seq<char>| #[trigger]
                    fed0.contains_key(k) ==> {
                        &&& gz_inputs(encs0[k]) == fed0[k]
                        &&& bytes_of(handed0, k) + gz_buffered(encs0[k]) == gz_stream(fed0[k])
                    },
                chunk_keys(out@) == all.subrange(0, i as int),
                forall|j: int|
                    0 <= j < i ==> bytes_of(handed0, #[trigger] out@[j].0@) + out@[j].1@
                        == gz_finished(fed0[out@[j].0@]),
            decreases keys@.len() - i,
        {
            let ghost kn = keys@[i as int]@;
            let enc = self.encoders.remove(&keys[i]).unwrap();
            let bytes = finish_encoder(enc).unwrap();
            proof {
                let s = gz_stream(fed0[kn]);
                let f = gz_finished(fed0[kn]);
                let h = bytes_of(handed0, kn);
                assert(h + gz_buffered(enc) == s);
                assert(bytes@ == gz_buffered(enc) + f.subrange(s.len() as int, f.len() as int));
                assert(s.is_prefix_of(f));
                let d = f.subrange(s.len() as int, f.len() as int);
                assert(s =~= f.subrange(0, s.len() as int));
                assert(s + d =~= f);
                assert(h + (gz_buffered(enc) + d) =~= (h + gz_buffered(enc)) + d);
                assert(h + bytes@ =~= f);
            }
            let ghost prev = out@;
            let k = keys[i].clone();
            out.push((k, bytes));
            i = i + 1;
            assert(chunk_keys(out@) =~= all.subrange(0, i as int)) by {
                assert(out@ == prev.push((k, bytes)));
                assert forall|j: int| 0 <= j < i implies #[trigger] chunk_keys(out@)[j]
                    == all.subrange(0, i as int)[j] by {
                    if j < i - 1 {
                        assert(out@[j] == prev[j]);
                        assert(chunk_keys(prev)[j] == all.subrange(0, i - 1)[j]);
                    }
                }
            }
            assert forall|j: int| 0 <= j < i implies bytes_of(handed0, #[trigger] out@[j].0@)
                + out@[j].1@ == gz_finished(fed0[out@[j].0@]) by {
                if j < i - 1 {
                    assert(out@[j] == prev[j]);
                }
            }
        }
        assert(all.subrange(0, i as int) =~= all);
        self.encoders = KeyMap::new();
        self.fed = Ghost(Map::empty());
        self.handed = Ghost(Map::empty());
        assert(self.keys() =~= Seq::<Seq<char>>::empty());
        out
    }
}

/// The texts of the lines of shard `key`, in input order.
pub open spec fn shard_texts(lines: Seq<LineData>, key: Seq<char>) -> Seq<Seq<char>>
    decreases lines.len(),
{
    if lines.len() == 0 {
        Seq::empty()
    } else {
        let l = lines.last();
        let before = shard_texts(lines.drop_last(), key);
        if l.spec_key()@ == key {
            before.push(l.text())
        } else {
            before
        }
    }
}

/// Lines fed one after another, from no shard at all (as `push_line` feeds
/// them), leave a stream exactly for the keys of those lines, and each
/// stream fed with the texts of its own shard's lines and no other, in input
/// order.
pub proof fn lemma_streams_hold_their_shards(
    fed: Seq<Map<Seq<char>, Seq<Seq<char>>>>,
    lines: Seq<LineData>,
)
    requires
        fed.len() == lines.len() + 1,
        fed[0] == Map::<Seq<char>, Seq<Seq<char>>>::empty(),
        forall|i: int|
            0 <= i < lines.len() ==> #[trigger] fed[i + 1] == feed_step(
                fed[i],
                lines[i].spec_key()@,
                lines[i].text(),
            ),
    ensures
        forall|k: Seq<char>|
            fed.last().contains_key(k) <==> exists|i: int|
                0 <= i < lines.len() && #[trigger] lines[i].spec_key()@ == k,
        forall|k: Seq<char>| #[trigger]
            fed.last().contains_key(k) ==> fed.last()[k] == shard_texts(lines, k),
    decreases lines.len(),
{
    if lines.len() == 0 {
        assert forall|k: Seq<char>| fed.last().contains_key(k) <==> exists|i: int|
            0 <= i < lines.len() && #[trigger] lines[i].spec_key()@ == k by {}
    } else {
        let n = lines.len() - 1;
        let pf = fed.drop_last();
        let pl = lines.drop_last();
        assert forall|i: int| 0 <= i < pl.len() implies #[trigger] pf[i + 1] == feed_step(
            pf[i],
            pl[i].spec_key()@,
            pl[i].text(),
        ) by {
            assert(fed[i + 1] == feed_step(fed[i], lines[i].spec_key()@, lines[i].text()));
        }
        lemma_streams_hold_their_shards(pf, pl);
        assert(fed[n + 1] == feed_step(fed[n], lines[n].spec_key()@, lines[n].text()));
        let kn = lines[n].spec_key()@;
        assert(fed.last() == fed[n + 1]);
        assert(pf.last() == fed[n]);
        assert forall|i: int| 0 <= i < n implies pl[i] == lines[i] by {}
        assert forall|k: Seq<char>| fed.last().contains_key(k) <==> exists|i: int|
            0 <= i < lines.len() && #[trigger] lines[i].spec_key()@ == k by {
            if k == kn {
                assert(lines[n].spec_key()@ == k);
            }
            if fed.last().contains_key(k) && k != kn {
                assert(pf.last().contains_key(k));
                let i = choose|i: int| 0 <= i < pl.len() && #[trigger] pl[i].spec_key()@ == k;
                assert(lines[i].spec_key()@ == k);
            }
            if exists|i: int| 0 <= i < lines.len() && #[trigger] lines[i].spec_key()@ == k {
                let i = choose|i: int| 0 <= i < lines.len() && #[trigger] lines[i].spec_key()@ == k;
                if i < n {
                    assert(pl[i].spec_key()@ == k);
                }
            }
        }
        assert forall|k: Seq<char>| #[trigger]
            fed.last().contains_key(k) implies fed.last()[k] == shard_texts(lines, k) by {
            assert(shard_texts(lines, k) == if kn == k {
                shard_texts(pl, k).push(lines[n].text())
            } else {
                shard_texts(pl, k)
            });
            if k == kn {
                if !pf.last().contains_key(k) {
                    assert(shard_texts(pl, k) =~= Seq::<Seq<char>>::empty()) by {
                        lemma_no_line_no_text(pl, k);
                    }
                }
                assert(fed.last()[k] =~= shard_texts(lines, k));
            } else {
                assert(pf.last().contains_key(k));
                assert(shard_texts(lines, k) =~= shard_texts(pl, k));
                assert(fed.last()[k] == pf.last()[k]);
            }
        }
    }
}

proof fn lemma_no_line_no_text(lines: Seq<LineData>, key: Seq<char>)
    requires
        forall|i: int| 0 <= i < lines.len() ==> #[trigger] lines[i].spec_key()@ != key,
    ensures
        shard_texts(lines, key) == Seq::<Seq<char>>::empty(),
    decreases lines.len(),
{
    if lines.len() > 0 {
        let pl = lines.drop_last();
        assert forall|i: int| 0 <= i < pl.len() implies #[trigger] pl[i].spec_key()@ != key by {
            assert(pl[i] == lines[i]);
        }
        lemma_no_line_no_text(pl, key);
        assert(lines[lines.len() - 1].spec_key()@ != key);
        assert(shard_texts(lines, key) =~= Seq::<Seq<char>>::empty());
    }
}

/// The keys of a sequence of shard chunks.
pub open spec fn chunk_keys(v: Seq<(MsgKey, Vec<u8>)>) -> Seq<Seq<char>> {
    v.map_values(|c: (MsgKey, Vec<u8>)| c.0@)
}

} // verus!
