use vstd::prelude::*;

use crate::encoders::{
    bytes_of, chunk_keys, feed_step, gz_finished, gz_stream, ShardEncoders, LOW_WATER_MARK,
};
use crate::error::{Error, ErrorKind};
use crate::file_pool::{key_names, FilePool, TakePlan};
use crate::key::{LineData, MsgKey};

verus! {

/// An append that the caller must carry out: hold the shard's file as `plan`
/// says, write `bytes` at the plan's cursor, then report it done.
pub struct WriteJob {
    pub key: MsgKey,
    pub plan: TakePlan,
    pub bytes: Vec<u8>,
}

impl TakePlan {
    pub open spec fn cursor(&self) -> usize {
        match *self {
            TakePlan::Reuse { cursor } => cursor,
            TakePlan::Open { cursor, .. } => cursor,
        }
    }
}

/// How many bytes of shard `k` have been written.
pub open spec fn written_len(written: Map<Seq<char>, Seq<u8>>, k: Seq<char>) -> int {
    bytes_of(written, k).len() as int
}

/// The bytes of shard `k` after one more append.
pub open spec fn append_step(written: Map<Seq<char>, Seq<u8>>, k: Seq<char>, bytes: Seq<u8>) -> Map<
    Seq<char>,
    Seq<u8>,
> {
    written.insert(k, bytes_of(written, k) + bytes)
}

/// Each shard's file holds what its stream has handed out, but for the
/// append under way, if any.
spec fn agrees(
    written: Map<Seq<char>, Seq<u8>>,
    handed: Map<Seq<char>, Seq<u8>>,
    busy: Option<Seq<char>>,
    pending: Seq<u8>,
) -> bool {
    forall|k: Seq<char>|
        bytes_of(written, k) + (if busy == Some(k) {
            pending
        } else {
            Seq::<u8>::empty()
        }) == #[trigger] bytes_of(handed, k)
}

/// One worker's shards: a gzip stream per shard and a bounded pool of open
/// files. It decides what to write where; the caller performs the writes,
/// one at a time. Once its streams are ended, only their last bytes are
/// appended.
pub struct Worker {
    encoders: ShardEncoders,
    pool: FilePool,
    in_flight: Option<MsgKey>,
    in_flight_end: usize,
    in_flight_bytes: Ghost<Seq<u8>>,
    written: Ghost<Map<Seq<char>, Seq<u8>>>,
    ended: bool,
}

impl Worker {
    /// The texts written to each shard's stream, one per line.
    pub closed spec fn fed(&self) -> Map<Seq<char>, Seq<Seq<char>>> {
        self.encoders.fed()
    }

    /// The compressed bytes written to each shard's file, in file order.
    pub closed spec fn written(&self) -> Map<Seq<char>, Seq<u8>> {
        self.written@
    }

    /// The key whose append is under way, if any.
    pub closed spec fn busy(&self) -> Option<Seq<char>> {
        match self.in_flight {
            Some(k) => Some(k@),
            None => None,
        }
    }

    /// Whether the shards' streams have been ended.
    pub closed spec fn ended(&self) -> bool {
        self.ended
    }

    /// How many files are open: taken or idle in the pool.
    pub closed spec fn open_files(&self) -> nat {
        self.pool.taken().len() + self.pool.idle().len()
    }

    pub closed spec fn max_open_files(&self) -> usize {
        self.pool.max()
    }

    /// The bytes of the append under way.
    pub closed spec fn pending_bytes(&self) -> Seq<u8> {
        self.in_flight_bytes@
    }

    /// The idle files, open and held by the pool.
    pub closed spec fn idle_files(&self) -> Set<Seq<char>> {
        self.pool.idle().dom()
    }

    spec fn consistent(&self) -> bool {
        &&& self.encoders.wf()
        &&& self.pool.wf()
        &&& forall|k: Seq<char>| #[trigger]
            self.pool.idle().contains_key(k) ==> self.pool.idle()[k] == written_len(self.written@, k)
        &&& forall|k: Seq<char>| #[trigger]
            self.pool.inactive().contains_key(k) ==> self.pool.inactive()[k] == written_len(
                self.written@,
                k,
            )
        &&& forall|k: Seq<char>| #[trigger]
            self.pool.taken().contains_key(k) ==> self.pool.taken()[k] == written_len(
                self.written@,
                k,
            )
        &&& forall|k: Seq<char>| #[trigger]
            self.written@.contains_key(k) ==> self.pool.idle().contains_key(k)
                || self.pool.inactive().contains_key(k) || self.pool.taken().contains_key(k)
        &&& match self.in_flight {
            None => self.pool.taken().len() == 0,
            Some(k) => {
                &&& self.pool.taken().dom() == set![k@]
                &&& self.in_flight_end == self.pool.taken()[k@] + self.in_flight_bytes@.len()
            },
        }
    }

    pub closed spec fn wf(&self) -> bool {
        &&& self.consistent()
        &&& !self.ended ==> agrees(
            self.written@,
            self.encoders.handed(),
            self.busy(),
            self.in_flight_bytes@,
        )
    }

    /// A worker that holds at most `max_open_files` files open at once.
    pub fn new(max_open_files: usize) -> (w: Worker)
        requires
            max_open_files > 0,
        ensures
            w.wf(),
            w.max_open_files() == max_open_files,
            w.fed() == Map::<Seq<char>, Seq<Seq<char>>>::empty(),
            w.written() == Map::<Seq<char>, Seq<u8>>::empty(),
            w.busy().is_none(),
            !w.ended(),
    {
        Worker {
            encoders: ShardEncoders::new(),
            pool: FilePool::new(max_open_files),
            in_flight: None,
            in_flight_end: 0,
            in_flight_bytes: Ghost(Seq::empty()),
            written: Ghost(Map::empty()),
            ended: false,
        }
    }

    pub fn is_busy(&self) -> (r: bool)
        ensures
            r == self.busy().is_some(),
    {
        self.in_flight.is_some()
    }

    pub fn streams_ended(&self) -> (r: bool)
        ensures
            r == self.ended(),
    {
        self.ended
    }

    /// Takes the file of `key` for an append of `bytes` from where its last
    /// append ended.
    fn start_write(&mut self, key: MsgKey, bytes: Vec<u8>) -> (r: Result<WriteJob, Error>)
        requires
            old(self).consistent(),
            old(self).busy().is_none(),
            !old(self).ended() ==> agrees(
                old(self).written(),
                old(self).encoders.handed(),
                Some(key@),
                bytes@,
            ),
        ensures
            final(self).fed() == old(self).fed(),
            final(self).written() == old(self).written(),
            final(self).max_open_files() == old(self).max_open_files(),
            final(self).ended() == old(self).ended(),
            match r {
                Ok(job) => {
                    &&& final(self).wf()
                    &&& final(self).busy() == Some(key@)
                    &&& job.key@ == key@
                    &&& job.bytes@ == bytes@
                    &&& final(self).pending_bytes() == bytes@
                    &&& job.plan.cursor() == written_len(old(self).written(), key@)
                },
                Err(e) => e.spec_kind() == ErrorKind::ShardTooLarge,
            },
            r is Ok <==> written_len(old(self).written(), key@) + bytes@.len() <= usize::MAX,
    {
        proof {
            self.pool.lemma_taken_empty_len();
        }
        let plan = self.pool.take(&key);
        let cursor = match plan {
            TakePlan::Reuse { cursor } => cursor,
            TakePlan::Open { cursor, .. } => cursor,
        };
        let end = match cursor.checked_add(bytes.len()) {
            Some(e) => e,
            None => return Err(Error::new(ErrorKind::ShardTooLarge)),
        };
        proof {
            assert(self.pool.taken().dom() =~= set![key@]);
            assert forall|k: Seq<char>| #[trigger]
                self.written@.contains_key(k) implies self.pool.idle().contains_key(k)
                || self.pool.inactive().contains_key(k) || self.pool.taken().contains_key(k) by {
                assert(old(self).pool.idle().contains_key(k) || old(self).pool.inactive().contains_key(k)
                    || old(self).pool.taken().contains_key(k));
            }
        }
        self.in_flight = Some(key.clone());
        self.in_flight_end = end;
        self.in_flight_bytes = Ghost(bytes@);
        Ok(WriteJob { key, plan, bytes })
    }

    /// Plans the append of a shard's last bytes, once the streams are ended:
    /// the file is taken from the pool and written from where its last
    /// append ended.
    pub fn begin_append(&mut self, key: MsgKey, bytes: Vec<u8>) -> (r: Result<WriteJob, Error>)
        requires
            old(self).wf(),
            old(self).busy().is_none(),
            old(self).ended(),
        ensures
            final(self).fed() == old(self).fed(),
            final(self).written() == old(self).written(),
            final(self).max_open_files() == old(self).max_open_files(),
            final(self).ended(),
            match r {
                Ok(job) => {
                    &&& final(self).wf()
                    &&& final(self).busy() == Some(key@)
                    &&& job.key@ == key@
                    &&& job.bytes@ == bytes@
                    &&& final(self).pending_bytes() == bytes@
                    &&& job.plan.cursor() == written_len(old(self).written(), key@)
                },
                Err(e) => e.spec_kind() == ErrorKind::ShardTooLarge,
            },
            r is Ok <==> written_len(old(self).written(), key@) + bytes@.len() <= usize::MAX,
    {
        self.start_write(key, bytes)
    }

    /// Records that the append under way is done, its file's appends now
    /// ending at `cursor`; the file goes back to the pool. Refused where no
    /// append is under way or where it did not end where it should.
    pub fn complete(&mut self, cursor: usize) -> (r: Result<(), Error>)
        requires
            old(self).wf(),
        ensures
            final(self).wf(),
            final(self).fed() == old(self).fed(),
            final(self).max_open_files() == old(self).max_open_files(),
            final(self).ended() == old(self).ended(),
            r is Ok <==> (old(self).busy() matches Some(k) && cursor == written_len(
                old(self).written(),
                k,
            ) + old(self).pending_bytes().len()),
            match r {
                Ok(_) => {
                    &&& final(self).busy().is_none()
                    &&& final(self).written() == append_step(
                        old(self).written(),
                        old(self).busy().unwrap(),
                        old(self).pending_bytes(),
                    )
                },
                Err(e) => {
                    &&& e.spec_kind() == ErrorKind::InvariantViolation
                    &&& final(self).busy() == old(self).busy()
                    &&& final(self).written() == old(self).written()
                },
            },
    {
        let k = match &self.in_flight {
            None => return Err(Error::new(ErrorKind::InvariantViolation)),
            Some(k) => k.clone(),
        };
        proof {
            assert(self.pool.taken().dom().contains(k@));
            self.pool.lemma_states_disjoint();
        }
        if cursor != self.in_flight_end {
            return Err(Error::new(ErrorKind::InvariantViolation));
        }
        let ghost name = k@;
        let ghost before = self.written@;
        let ghost bytes = self.in_flight_bytes@;
        proof {
            assert(self.pool.taken().dom().contains(name));
        }
        self.pool.give(k, cursor);
        self.in_flight = None;
        self.written = Ghost(append_step(before, name, bytes));
        proof {
            self.pool.lemma_taken_finite();
            assert(self.pool.taken().dom() =~= Set::<Seq<char>>::empty());
        }
        Ok(())
    }

    /// Writes a line's text into its shard's stream. Once the shard has at
    /// least `LOW_WATER_MARK` compressed bytes not yet written, hands back
    /// the append that writes them: the file then holds its stream so far.
    pub fn accept(&mut self, line: &LineData) -> (r: Result<Option<WriteJob>, Error>)
        requires
            old(self).wf(),
            old(self).busy().is_none(),
            !old(self).ended(),
        ensures
            final(self).max_open_files() == old(self).max_open_files(),
            ({
                let k = line.spec_key()@;
                let s = gz_stream(feed_step(old(self).fed(), k, line.text())[k]);
                let w = bytes_of(old(self).written(), k);
                &&& w.is_prefix_of(s)
                &&& r is Err <==> (s.len() - w.len() >= LOW_WATER_MARK && s.len() > usize::MAX)
                &&& match r {
                    Ok(job) => {
                        &&& final(self).wf()
                        &&& !final(self).ended()
                        &&& final(self).fed() == feed_step(old(self).fed(), k, line.text())
                        &&& final(self).written() == old(self).written()
                        &&& match job {
                            None => final(self).busy().is_none() && s.len() - w.len()
                                < LOW_WATER_MARK,
                            Some(job) => {
                                &&& s.len() - w.len() >= LOW_WATER_MARK
                                &&& final(self).busy() == Some(k)
                                &&& job.key@ == k
                                &&& w + job.bytes@ == s
                                &&& job.bytes@ == final(self).pending_bytes()
                                &&& job.plan.cursor() == w.len()
                            },
                        }
                    },
                    Err(e) => e.spec_kind() == ErrorKind::ShardTooLarge,
                }
            }),
    {
        let ghost k = line.spec_key()@;
        let ghost handed0 = self.encoders.handed();
        proof {
            assert(bytes_of(self.written@, k) + Seq::<u8>::empty() == bytes_of(handed0, k));
            assert(bytes_of(self.written@, k) =~= bytes_of(handed0, k));
        }
        let out = self.encoders.push_line(line);
        match out {
            None => {
                proof {
                    let h = self.encoders.handed();
                    assert forall|x: Seq<char>|
                        bytes_of(self.written@, x) + (if self.busy() == Some(x) {
                            self.in_flight_bytes@
                        } else {
                            Seq::<u8>::empty()
                        }) == #[trigger] bytes_of(h, x) by {
                        assert(bytes_of(self.written@, x) + Seq::<u8>::empty() == bytes_of(
                            handed0,
                            x,
                        ));
                    }
                }
                Ok(None)
            },
            Some(bytes) => {
                let key = line.key().clone();
                proof {
                    let h = self.encoders.handed();
                    assert forall|x: Seq<char>|
                        bytes_of(self.written@, x) + (if Some(key@) == Some(x) {
                            bytes@
                        } else {
                            Seq::<u8>::empty()
                        }) == #[trigger] bytes_of(h, x) by {
                        assert(bytes_of(self.written@, x) + Seq::<u8>::empty() == bytes_of(
                            handed0,
                            x,
                        ));
                    }
                }
                match self.start_write(key, bytes) {
                    Ok(job) => Ok(Some(job)),
                    Err(e) => Err(e),
                }
            },
        }
    }

    /// Ends every shard's stream, once, and hands back each shard's last
    /// bytes, trailer included: after them its file holds its whole stream.
    /// The caller appends each with `begin_append` and `complete`.
    pub fn end_streams(&mut self) -> (v: Vec<(MsgKey, Vec<u8>)>)
        requires
            old(self).wf(),
            old(self).busy().is_none(),
            !old(self).ended(),
        ensures
            final(self).wf(),
            final(self).ended(),
            final(self).busy().is_none(),
            final(self).max_open_files() == old(self).max_open_files(),
            final(self).written() == old(self).written(),
            final(self).fed() == Map::<Seq<char>, Seq<Seq<char>>>::empty(),
            chunk_keys(v@).to_set() == old(self).fed().dom(),
            chunk_keys(v@).no_duplicates(),
            forall|i: int|
                0 <= i < v@.len() ==> bytes_of(old(self).written(), #[trigger] v@[i].0@) + v@[i].1@
                    == gz_finished(old(self).fed()[v@[i].0@]),
    {
        let ghost handed0 = self.encoders.handed();
        proof {
            self.encoders.lemma_keys_are_fed();
            assert forall|x: Seq<char>| bytes_of(self.written@, x) == #[trigger] bytes_of(handed0, x) by {
                assert(bytes_of(self.written@, x) + Seq::<u8>::empty() == bytes_of(handed0, x));
                assert(bytes_of(self.written@, x) + Seq::<u8>::empty() =~= bytes_of(self.written@, x));
            }
        }
        let v = self.encoders.finish();
        self.ended = true;
        proof {
            assert forall|i: int|
                0 <= i < v@.len() implies bytes_of(old(self).written(), #[trigger] v@[i].0@) + v@[i].1@
                == gz_finished(old(self).fed()[v@[i].0@]) by {
                assert(bytes_of(handed0, v@[i].0@) == bytes_of(old(self).written(), v@[i].0@));
            }
        }
        v
    }

    /// Ends the worker: hands back the keys of the files still open, which
    /// the caller then syncs and closes.
    pub fn close_all(self) -> (closing: Vec<MsgKey>)
        requires
            self.wf(),
            self.busy().is_none(),
        ensures
            key_names(closing@).to_set() == self.idle_files(),
            key_names(closing@).no_duplicates(),
    {
        let Worker { mut pool, .. } = self;
        proof {
            pool.lemma_queue_is_idle();
            pool.lemma_queue_distinct();
        }
        let ghost q = pool.queue();
        let ghost idle = pool.idle().dom();
        let closing = pool.finish();
        assert(q.to_set() =~= idle);
        closing
    }
}

/// The files after each chunk is appended to its shard, in turn.
pub open spec fn appended(written: Map<Seq<char>, Seq<u8>>, chunks: Seq<(MsgKey, Vec<u8>)>) -> Map<
    Seq<char>,
    Seq<u8>,
>
    decreases chunks.len(),
{
    if chunks.len() == 0 {
        written
    } else {
        let c = chunks.last();
        append_step(appended(written, chunks.drop_last()), c.0@, c.1@)
    }
}

/// Once the streams are ended (as `end_streams` hands them out) and each
/// shard's last bytes are appended (as `begin_append` and `complete` do),
/// every shard's file holds its whole gzip stream: the finished stream of
/// the texts written to it.
pub proof fn lemma_files_hold_whole_streams(
    written: Map<Seq<char>, Seq<u8>>,
    fed: Map<Seq<char>, Seq<Seq<char>>>,
    chunks: Seq<(MsgKey, Vec<u8>)>,
)
    requires
        chunk_keys(chunks).no_duplicates(),
        forall|i: int|
            0 <= i < chunks.len() ==> bytes_of(written, #[trigger] chunks[i].0@) + chunks[i].1@
                == gz_finished(fed[chunks[i].0@]),
    ensures
        forall|i: int|
            0 <= i < chunks.len() ==> bytes_of(appended(written, chunks), #[trigger] chunks[i].0@)
                == gz_finished(fed[chunks[i].0@]),
    decreases chunks.len(),
{
    if chunks.len() > 0 {
        let pre = chunks.drop_last();
        let n = chunks.len() - 1;
        assert(chunk_keys(pre) =~= chunk_keys(chunks).drop_last());
        assert forall|i: int| 0 <= i < pre.len() implies bytes_of(written, #[trigger] pre[i].0@)
            + pre[i].1@ == gz_finished(fed[pre[i].0@]) by {
            assert(pre[i] == chunks[i]);
        }
        lemma_files_hold_whole_streams(written, fed, pre);
        assert forall|i: int| 0 <= i < pre.len() implies #[trigger] pre[i].0@ != chunks[n].0@ by {
            assert(pre[i] == chunks[i]);
            assert(chunk_keys(chunks)[i] == chunks[i].0@);
            assert(chunk_keys(chunks)[n] == chunks[n].0@);
        }
        lemma_untouched(written, pre, chunks[n].0@);
        assert(chunk_keys(chunks)[n] == chunks[n].0@);
        assert forall|i: int| 0 <= i < chunks.len() implies bytes_of(
            appended(written, chunks),
            #[trigger] chunks[i].0@,
        ) == gz_finished(fed[chunks[i].0@]) by {
            if i < n {
                assert(pre[i] == chunks[i]);
                assert(chunk_keys(chunks)[i] == chunks[i].0@);
                assert(chunks[i].0@ != chunks[n].0@);
            }
        }
    }
}

/// A shard with no chunk among `chunks` keeps its bytes.
proof fn lemma_untouched(written: Map<Seq<char>, Seq<u8>>, chunks: Seq<(MsgKey, Vec<u8>)>, k: Seq<char>)
    requires
        forall|i: int| 0 <= i < chunks.len() ==> #[trigger] chunks[i].0@ != k,
    ensures
        bytes_of(appended(written, chunks), k) == bytes_of(written, k),
    decreases chunks.len(),
{
    if chunks.len() > 0 {
        let pre = chunks.drop_last();
        assert forall|i: int| 0 <= i < pre.len() implies #[trigger] pre[i].0@ != k by {
            assert(pre[i] == chunks[i]);
        }
        lemma_untouched(written, pre, k);
        assert(chunks[chunks.len() - 1].0@ != k);
    }
}

/// However lines are fed and appends carried out, the files that a worker
/// holds open at once (taken or idle) never outnumber its bound.
pub proof fn lemma_worker_open_files_bounded(w: Worker)
    requires
        w.wf(),
    ensures
        w.open_files() <= w.max_open_files(),
{
    crate::file_pool::lemma_open_files_bounded(w.pool);
}

} // verus!
