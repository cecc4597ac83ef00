use std::collections::VecDeque;
use vstd::prelude::*;

use crate::key::MsgKey;
use crate::key_map::KeyMap;

verus! {

/// What the caller must do to hold the file of a key that it takes.
pub enum TakePlan {
    /// The file is open and idle: reuse its handle; appends go on at `cursor`.
    Reuse { cursor: usize },
    /// The file must be opened. First, where `evict` names a key, sync and
    /// close that idle file. Then open the file: for writing without
    /// truncation where `reopen` holds (after any close of it still under way
    /// has completed), else created empty. Appends go on at `cursor`.
    Open { evict: Option<MsgKey>, reopen: bool, cursor: usize },
}

proof fn lemma_len_remove(m: Map<Seq<char>, usize>, k: Seq<char>)
    requires
        m.dom().finite(),
        m.contains_key(k),
    ensures
        m.remove(k).len() == m.len() - 1,
        m.remove(k).dom().finite(),
{
    assert(m.remove(k).dom() =~= m.dom().remove(k));
}

proof fn lemma_len_insert(m: Map<Seq<char>, usize>, k: Seq<char>, v: usize)
    requires
        m.dom().finite(),
        !m.contains_key(k),
    ensures
        m.insert(k, v).len() == m.len() + 1,
        m.insert(k, v).dom().finite(),
{
    assert(m.insert(k, v).dom() =~= m.dom().insert(k));
}

/// The names of a sequence of keys.
pub open spec fn key_names(q: Seq<MsgKey>) -> Seq<Seq<char>> {
    q.map_values(|k: MsgKey| k@)
}

/// The bookkeeping of a pool of output files with at most `max_open_files`
/// open at once. A key's file is taken (a caller holds it open), idle (open,
/// held by the pool) or inactive (closed; the pool keeps its append cursor).
/// Idle files queue in the order they were given back; the one given back
/// longest ago is closed first when a file must be opened and none is free.
pub struct FilePool {
    max_open_files: usize,
    idle_queue: VecDeque<MsgKey>,
    idle: KeyMap<usize>,
    taken: KeyMap<usize>,
    inactive: KeyMap<usize>,
    n_idle: usize,
    n_taken: usize,
}

impl FilePool {
    pub closed spec fn max(&self) -> usize {
        self.max_open_files
    }

    /// The idle keys, with the cursor of each.
    pub closed spec fn idle(&self) -> Map<Seq<char>, usize> {
        self.idle@
    }

    /// The taken keys, with the cursor each had when taken.
    pub closed spec fn taken(&self) -> Map<Seq<char>, usize> {
        self.taken@
    }

    /// The inactive keys, with the cursor of each.
    pub closed spec fn inactive(&self) -> Map<Seq<char>, usize> {
        self.inactive@
    }

    /// The idle keys, the one given back longest ago first.
    pub closed spec fn queue(&self) -> Seq<Seq<char>> {
        key_names(self.idle_queue@)
    }

    pub closed spec fn wf(&self) -> bool {
        &&& self.idle.wf()
        &&& self.taken.wf()
        &&& self.inactive.wf()
        &&& self.max_open_files > 0
        &&& self.n_idle == self.idle@.len()
        &&& self.n_idle == self.idle_queue@.len()
        &&& self.n_taken == self.taken@.len()
        &&& self.n_idle + self.n_taken <= self.max_open_files
        &&& forall|k: Seq<char>| #[trigger]
            self.idle@.contains_key(k) ==> !self.taken@.contains_key(k)
                && !self.inactive@.contains_key(k)
        &&& forall|k: Seq<char>| #[trigger]
            self.taken@.contains_key(k) ==> !self.inactive@.contains_key(k)
        &&& forall|i: int|
            0 <= i < self.idle_queue@.len() ==> self.idle@.contains_key(
                #[trigger] self.idle_queue@[i]@,
            )
        &&& forall|i: int, j: int|
            0 <= i < j < self.idle_queue@.len() ==> self.idle_queue@[i]@ != self.idle_queue@[j]@
        &&& forall|k: Seq<char>| #[trigger]
            self.idle@.contains_key(k) ==> exists|i: int|
                0 <= i < self.idle_queue@.len() && #[trigger] self.idle_queue@[i]@ == k
    }

    /// A pool that opens at most `max_open_files` files at once.
    pub fn new(max_open_files: usize) -> (p: FilePool)
        requires
            max_open_files > 0,
        ensures
            p.wf(),
            p.max() == max_open_files,
            p.idle() == Map::<Seq<char>, usize>::empty(),
            p.taken() == Map::<Seq<char>, usize>::empty(),
            p.inactive() == Map::<Seq<char>, usize>::empty(),
            p.queue() == Seq::<Seq<char>>::empty(),
    {
        let p = FilePool {
            max_open_files,
            idle_queue: VecDeque::new(),
            idle: KeyMap::new(),
            taken: KeyMap::new(),
            inactive: KeyMap::new(),
            n_idle: 0,
            n_taken: 0,
        };
        assert(p.queue() =~= Seq::<Seq<char>>::empty());
        p
    }

    /// Whether the pool holds no open file. The handle of a taken file is
    /// held by its taker, not by the pool.
    pub fn has_no_file_handles(&self) -> (r: bool)
        requires
            self.wf(),
        ensures
            r == (self.idle().len() == 0),
    {
        self.n_idle == 0
    }

    /// How many files are open: the taken and the idle ones.
    pub fn open_files(&self) -> (r: usize)
        requires
            self.wf(),
        ensures
            r == self.idle().len() + self.taken().len(),
    {
        self.n_idle + self.n_taken
    }

    /// The cursor of `key` where it is taken.
    pub fn taken_cursor(&self, key: &MsgKey) -> (r: Option<usize>)
        requires
            self.wf(),
        ensures
            match r {
                Some(c) => self.taken().contains_key(key@) && c == self.taken()[key@],
                None => !self.taken().contains_key(key@),
            },
    {
        match self.taken.get(key) {
            Some(c) => Some(*c),
            None => None,
        }
    }

    /// How many keys are taken.
    pub fn taken_count(&self) -> (r: usize)
        requires
            self.wf(),
        ensures
            r == self.taken().len(),
    {
        self.n_taken
    }

    pub fn max_open_files(&self) -> (r: usize)
        ensures
            r == self.max(),
    {
        self.max_open_files
    }

    /// The idle queue holds exactly the idle keys, each once.
    pub proof fn lemma_queue_is_idle(&self)
        requires
            self.wf(),
        ensures
            forall|i: int| 0 <= i < self.queue().len() ==> self.idle().contains_key(#[trigger] self.queue()[i]),
            forall|k: Seq<char>| #[trigger] self.idle().contains_key(k) ==> exists|i: int|
                0 <= i < self.queue().len() && #[trigger] self.queue()[i] == k,
    {
        assert forall|k: Seq<char>| #[trigger] self.idle().contains_key(k) implies exists|i: int|
            0 <= i < self.queue().len() && #[trigger] self.queue()[i] == k by {
            let i = choose|i: int| 0 <= i < self.idle_queue@.len() && #[trigger] self.idle_queue@[i]@ == k;
            assert(self.queue()[i] == k);
        }
    }

    /// A key is in one state at most: taken, idle or inactive.
    pub proof fn lemma_states_disjoint(&self)
        requires
            self.wf(),
        ensures
            forall|k: Seq<char>| #[trigger] self.taken().contains_key(k) ==> !self.idle().contains_key(k) && !self.inactive().contains_key(k),
            forall|k: Seq<char>| #[trigger] self.idle().contains_key(k) ==> !self.inactive().contains_key(k),
    {
    }

    /// The idle queue holds no key twice.
    pub proof fn lemma_queue_distinct(&self)
        requires
            self.wf(),
        ensures
            self.queue().no_duplicates(),
    {
        assert forall|i: int, j: int| 0 <= i < self.queue().len() && 0 <= j < self.queue().len() && i != j implies self.queue()[i] != self.queue()[j] by {
            if i < j {
                assert(self.idle_queue@[i]@ != self.idle_queue@[j]@);
            } else {
                assert(self.idle_queue@[j]@ != self.idle_queue@[i]@);
            }
        }
    }

    /// Finitely many keys are taken.
    pub proof fn lemma_taken_finite(&self)
        requires
            self.wf(),
        ensures
            self.taken().dom().finite(),
    {
        self.taken.lemma_dom_finite();
    }

    /// With nothing taken, the taken keys are none at all.
    pub proof fn lemma_taken_empty_len(&self)
        requires
            self.wf(),
            self.taken().len() == 0,
        ensures
            self.taken() == Map::<Seq<char>, usize>::empty(),
            self.max() > 0,
    {
        self.taken.lemma_dom_finite();
        assert(self.taken().dom() =~= Set::<Seq<char>>::empty());
        assert(self.taken() =~= Map::<Seq<char>, usize>::empty());
    }

    /// Whether taking a key that is not idle must first close an idle file.
    pub open spec fn must_evict(&self) -> bool {
        self.idle().len() + self.taken().len() >= self.max()
    }

    /// Gives the taken file of `key` back, its appends now ending at `cursor`.
    /// It becomes the idle file given back most recently.
    pub fn give(&mut self, key: MsgKey, cursor: usize)
        requires
            old(self).wf(),
            old(self).taken().contains_key(key@),
            old(self).taken()[key@] <= cursor,
        ensures
            final(self).wf(),
            final(self).max() == old(self).max(),
            final(self).taken() == old(self).taken().remove(key@),
            final(self).idle() == old(self).idle().insert(key@, cursor),
            final(self).inactive() == old(self).inactive(),
            final(self).queue() == old(self).queue().push(key@),
    {
        let ghost q0 = self.idle_queue@;
        proof {
            self.taken.lemma_dom_finite();
            self.idle.lemma_dom_finite();
            lemma_len_remove(self.taken@, key@);
            lemma_len_insert(self.idle@, key@, cursor);
        }
        self.taken.remove(&key);
        self.n_taken = self.n_taken - 1;
        let k = key.clone();
        self.idle.insert(k, cursor);
        self.n_idle = self.n_idle + 1;
        self.idle_queue.push_back(key);
        proof {
            let q = self.idle_queue@;
            assert(q == q0.push(key));
            assert forall|i: int| 0 <= i < q.len() implies self.idle@.contains_key(
                #[trigger] q[i]@,
            ) by {
                if i < q0.len() {
                    assert(q[i] == q0[i]);
                }
            }
            assert forall|i: int, j: int| 0 <= i < j < q.len() implies q[i]@ != q[j]@ by {
                assert(q[i] == q0[i]);
                if j < q0.len() {
                    assert(q[j] == q0[j]);
                } else {
                    assert(old(self).idle@.contains_key(q0[i]@));
                }
            }
            assert forall|name: Seq<char>| #[trigger]
                self.idle@.contains_key(name) implies exists|i: int|
                0 <= i < q.len() && #[trigger] q[i]@ == name by {
                if name == key@ {
                    assert(q[q0.len() as int]@ == name);
                } else {
                    let i = choose|i: int| 0 <= i < q0.len() && #[trigger] q0[i]@ == name;
                    assert(q[i]@ == name);
                }
            }
            assert(self.queue() =~= old(self).queue().push(key@));
        }
    }

    /// Closes the idle file given back longest ago: it becomes inactive.
    fn evict(&mut self) -> (k: MsgKey)
        requires
            old(self).wf(),
            old(self).idle_queue@.len() > 0,
        ensures
            final(self).wf(),
            final(self).max() == old(self).max(),
            k@ == old(self).queue()[0],
            final(self).taken() == old(self).taken(),
            final(self).idle() == old(self).idle().remove(k@),
            final(self).inactive() == old(self).inactive().insert(k@, old(self).idle()[k@]),
            final(self).queue() == old(self).queue().drop_first(),
    {
        let ghost q0 = self.idle_queue@;
        proof {
            self.inactive.lemma_dom_finite();
            self.idle.lemma_dom_finite();
            assert(self.idle@.contains_key(q0[0]@));
            lemma_len_remove(self.idle@, q0[0]@);
        }
        let k = self.idle_queue.pop_front().unwrap();
        let c = self.idle.remove(&k).unwrap();
        self.n_idle = self.n_idle - 1;
        self.inactive.insert(k.clone(), c);
        proof {
            let q = self.idle_queue@;
            assert(q == q0.subrange(1, q0.len() as int));
            assert forall|i: int| 0 <= i < q.len() implies self.idle@.contains_key(
                #[trigger] q[i]@,
            ) by {
                assert(q[i] == q0[i + 1]);
            }
            assert forall|i: int, j: int| 0 <= i < j < q.len() implies q[i]@ != q[j]@ by {
                assert(q[i] == q0[i + 1]);
                assert(q[j] == q0[j + 1]);
            }
            assert forall|name: Seq<char>| #[trigger]
                self.idle@.contains_key(name) implies exists|i: int|
                0 <= i < q.len() && #[trigger] q[i]@ == name by {
                let i = choose|i: int| 0 <= i < q0.len() && #[trigger] q0[i]@ == name;
                assert(i != 0);
                assert(q[i - 1]@ == name);
            }
            assert(self.queue() =~= old(self).queue().drop_first());
        }
        k
    }

    /// Takes the file of `key`: reuses it where it is idle; otherwise first
    /// closes the idle file given back longest ago where the pool is full,
    /// then reopens the file where it is inactive or creates it where it is
    /// new. The key is taken afterwards.
    pub fn take(&mut self, key: &MsgKey) -> (plan: TakePlan)
        requires
            old(self).wf(),
            !old(self).taken().contains_key(key@),
            old(self).taken().len() < old(self).max(),
        ensures
            final(self).wf(),
            final(self).max() == old(self).max(),
            old(self).idle().contains_key(key@) ==> {
                &&& plan == TakePlan::Reuse { cursor: old(self).idle()[key@] }
                &&& final(self).taken() == old(self).taken().insert(key@, old(self).idle()[key@])
                &&& final(self).idle() == old(self).idle().remove(key@)
                &&& final(self).inactive() == old(self).inactive()
                &&& exists|i: int|
                    0 <= i < old(self).queue().len() && old(self).queue()[i] == key@
                        && final(self).queue() == old(self).queue().remove(i)
            },
            !old(self).idle().contains_key(key@) ==> (plan matches TakePlan::Open {
                evict,
                reopen,
                cursor,
            } && {
                let q0 = old(self).queue()[0];
                let (idle, inactive, queue) = if old(self).must_evict() {
                    (
                        old(self).idle().remove(q0),
                        old(self).inactive().insert(q0, old(self).idle()[q0]),
                        old(self).queue().drop_first(),
                    )
                } else {
                    (old(self).idle(), old(self).inactive(), old(self).queue())
                };
                &&& evict.is_some() == old(self).must_evict()
                &&& evict matches Some(e) ==> e@ == q0 && old(self).idle().contains_key(q0)
                &&& reopen == old(self).inactive().contains_key(key@)
                &&& cursor == if reopen {
                    old(self).inactive()[key@]
                } else {
                    0
                }
                &&& final(self).taken() == old(self).taken().insert(key@, cursor)
                &&& final(self).idle() == idle
                &&& final(self).inactive() == inactive.remove(key@)
                &&& final(self).queue() == queue
            }),
    {
        proof {
            self.taken.lemma_dom_finite();
            self.idle.lemma_dom_finite();
            self.inactive.lemma_dom_finite();
        }
        if self.idle.contains_key(key) {
            let i = self.queue_position(key);
            let ghost q0 = self.idle_queue@;
            proof {
                lemma_len_remove(self.idle@, key@);
                lemma_len_insert(self.taken@, key@, self.idle@[key@]);
            }
            self.idle_queue.remove(i);
            let cursor = self.idle.remove(key).unwrap();
            self.n_idle = self.n_idle - 1;
            self.taken.insert(key.clone(), cursor);
            self.n_taken = self.n_taken + 1;
            proof {
                let q = self.idle_queue@;
                assert(q == q0.remove(i as int));
                assert forall|j: int| 0 <= j < q.len() implies self.idle@.contains_key(
                    #[trigger] q[j]@,
                ) by {
                    if j < i {
                        assert(q[j] == q0[j]);
                    } else {
                        assert(q[j] == q0[j + 1]);
                    }
                }
                assert forall|a: int, b: int| 0 <= a < b < q.len() implies q[a]@ != q[b]@ by {
                    let a0 = if a < i {
                        a
                    } else {
                        a + 1
                    };
                    let b0 = if b < i {
                        b
                    } else {
                        b + 1
                    };
                    assert(q[a] == q0[a0]);
                    assert(q[b] == q0[b0]);
                }
                assert forall|name: Seq<char>| #[trigger]
                    self.idle@.contains_key(name) implies exists|j: int|
                    0 <= j < q.len() && #[trigger] q[j]@ == name by {
                    let j = choose|j: int| 0 <= j < q0.len() && #[trigger] q0[j]@ == name;
                    assert(j != i);
                    if j < i {
                        assert(q[j]@ == name);
                    } else {
                        assert(q[j - 1]@ == name);
                    }
                }
                assert(old(self).queue()[i as int] == key@);
                assert(self.queue() =~= old(self).queue().remove(i as int));
            }
            TakePlan::Reuse { cursor }
        } else {
            let evict = if self.n_idle + self.n_taken >= self.max_open_files {
                Some(self.evict())
            } else {
                None
            };
            proof {
                self.inactive.lemma_dom_finite();
                self.taken.lemma_dom_finite();
            }
            let (reopen, cursor) = match self.inactive.remove(key) {
                Some(c) => (true, c),
                None => (false, 0),
            };
            proof {
                lemma_len_insert(self.taken@, key@, cursor);
            }
            self.taken.insert(key.clone(), cursor);
            self.n_taken = self.n_taken + 1;
            TakePlan::Open { evict, reopen, cursor }
        }
    }

    /// Ends the pool's bookkeeping: hands back the idle keys, the one given
    /// back longest ago first, whose files the caller then syncs and closes;
    /// the pool is empty afterwards. No key may be taken.
    pub fn finish(&mut self) -> (closing: Vec<MsgKey>)
        requires
            old(self).wf(),
            old(self).taken().len() == 0,
        ensures
            final(self).wf(),
            final(self).max() == old(self).max(),
            key_names(closing@) == old(self).queue(),
            final(self).idle() == Map::<Seq<char>, usize>::empty(),
            final(self).taken() == Map::<Seq<char>, usize>::empty(),
            final(self).inactive() == Map::<Seq<char>, usize>::empty(),
            final(self).queue() == Seq::<Seq<char>>::empty(),
    {
        let mut closing: Vec<MsgKey> = Vec::new();
        let mut i: usize = 0;
        while i < self.idle_queue.len()
            invariant
                i <= self.idle_queue@.len(),
                closing@.len() == i,
                key_names(closing@) == key_names(self.idle_queue@).subrange(0, i as int),
            decreases self.idle_queue@.len() - i,
        {
            let ghost prev = closing@;
            let k = self.idle_queue[i].clone();
            assert(k@ == self.idle_queue@[i as int]@);
            closing.push(k);
            i = i + 1;
            assert(closing@ == prev.push(k));
            assert forall|j: int| 0 <= j < i implies #[trigger] key_names(closing@)[j]
                == key_names(self.idle_queue@)[j] by {
                if j < i - 1 {
                    assert(closing@[j] == prev[j]);
                    assert(key_names(prev)[j] == key_names(self.idle_queue@).subrange(
                        0,
                        i - 1,
                    )[j]);
                }
            }
            assert(key_names(closing@) =~= key_names(self.idle_queue@).subrange(0, i as int));
        }
        assert(key_names(self.idle_queue@).subrange(0, i as int) =~= key_names(self.idle_queue@));
        *self = FilePool::new(self.max_open_files);
        closing
    }

    /// The position of `key` in the idle queue, which holds it.
    fn queue_position(&self, key: &MsgKey) -> (i: usize)
        requires
            self.wf(),
            self.idle@.contains_key(key@),
        ensures
            i < self.idle_queue@.len(),
            self.idle_queue@[i as int]@ == key@,
    {
        let mut i: usize = 0;
        while i < self.idle_queue.len()
            invariant
                self.wf(),
                self.idle@.contains_key(key@),
                i <= self.idle_queue@.len(),
                forall|j: int| 0 <= j < i ==> self.idle_queue@[j]@ != key@,
            decreases self.idle_queue@.len() - i,
        {
            if self.idle_queue[i] == *key {
                return i;
            }
            i = i + 1;
        }
        // Every idle key is in the queue, so the search cannot fall through.
        assert(false);
        0
    }
}

/// However files are taken and given back, the files open at once (taken or
/// idle) never outnumber the pool's bound.
pub proof fn lemma_open_files_bounded(p: FilePool)
    requires
        p.wf(),
    ensures
        p.taken().len() + p.idle().len() <= p.max(),
{
}

} // verus!
