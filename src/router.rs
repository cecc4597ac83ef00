use vstd::prelude::*;

use crate::key::MsgKey;
use crate::key_map::KeyMap;

verus! {

/// Assigns each shard key to a worker: a key seen for the first time goes to
/// the worker after the one that got the previous new key, round-robin, and
/// stays there for the rest of the run.
pub struct Router {
    assigned: KeyMap<usize>,
    next_worker: usize,
    num_workers: usize,
}

impl Router {
    /// The worker of each key seen so far.
    pub closed spec fn assignment(&self) -> Map<Seq<char>, usize> {
        self.assigned@
    }

    /// The worker that the next new key goes to.
    pub closed spec fn next(&self) -> usize {
        self.next_worker
    }

    pub closed spec fn workers(&self) -> usize {
        self.num_workers
    }

    pub closed spec fn wf(&self) -> bool {
        &&& self.assigned.wf()
        &&& 0 < self.num_workers
        &&& self.next_worker < self.num_workers
        &&& forall|k: Seq<char>| #[trigger]
            self.assigned@.contains_key(k) ==> self.assigned@[k] < self.num_workers
    }

    pub fn new(num_workers: usize) -> (r: Router)
        requires
            num_workers > 0,
        ensures
            r.wf(),
            r.workers() == num_workers,
            r.next() == 0,
            r.assignment() == Map::<Seq<char>, usize>::empty(),
    {
        Router { assigned: KeyMap::new(), next_worker: 0, num_workers }
    }

    pub fn num_workers(&self) -> (r: usize)
        ensures
            r == self.workers(),
    {
        self.num_workers
    }

    /// The worker that the lines of `key` go to.
    pub fn route(&mut self, key: &MsgKey) -> (w: usize)
        requires
            old(self).wf(),
        ensures
            final(self).wf(),
            final(self).workers() == old(self).workers(),
            w < final(self).workers(),
            routed(*old(self), *final(self), key@, w),
    {
        match self.assigned.get(key) {
            Some(w) => *w,
            None => {
                let w = self.next_worker;
                let k = key.clone();
                assert(k@ == key@);
                self.assigned.insert(k, w);
                self.next_worker = if w + 1 == self.num_workers {
                    0
                } else {
                    w + 1
                };
                let ghost n = self.num_workers as int;
                let ghost nw = self.next_worker as int;
                assert(nw == (w + 1) % n) by (nonlinear_arith)
                    requires
                        w < n,
                        nw == if w + 1 == n {
                            0
                        } else {
                            w + 1
                        },
                ;
                w
            },
        }
    }
}

/// One routing step: a known key keeps its worker; a new key gets the next
/// worker, and the worker after that becomes next.
pub open spec fn routed(before: Router, after: Router, key: Seq<char>, w: usize) -> bool {
    &&& after.workers() == before.workers()
    &&& if before.assignment().contains_key(key) {
        &&& w == before.assignment()[key]
        &&& after.assignment() == before.assignment()
        &&& after.next() == before.next()
    } else {
        &&& w == before.next()
        &&& after.assignment() == before.assignment().insert(key, w)
        &&& after.next() == (before.next() + 1) % (before.workers() as int)
    }
}

/// Routing a run of lines one after another (as `route` does) sends all the
/// lines of a key to one worker, the one its first line went to.
pub proof fn lemma_one_worker_per_key(
    states: Seq<Router>,
    keys: Seq<Seq<char>>,
    workers: Seq<usize>,
)
    requires
        states.len() == keys.len() + 1,
        workers.len() == keys.len(),
        forall|i: int|
            0 <= i < keys.len() ==> #[trigger] routed(states[i], states[i + 1], keys[i], workers[i]),
    ensures
        forall|i: int, j: int|
            0 <= i < keys.len() && 0 <= j < keys.len() && keys[i] == keys[j] ==> workers[i]
                == workers[j],
{
    assert forall|i: int, j: int|
        0 <= i < keys.len() && 0 <= j < keys.len() && keys[i] == keys[j] implies workers[i]
        == workers[j] by {
        lemma_assignment_kept(states, keys, workers, i, keys.len() as int);
        lemma_assignment_kept(states, keys, workers, j, keys.len() as int);
    }
}

/// After the line at `i` is routed, its key keeps that line's worker.
proof fn lemma_assignment_kept(
    states: Seq<Router>,
    keys: Seq<Seq<char>>,
    workers: Seq<usize>,
    i: int,
    n: int,
)
    requires
        states.len() == keys.len() + 1,
        workers.len() == keys.len(),
        forall|m: int|
            0 <= m < keys.len() ==> #[trigger] routed(states[m], states[m + 1], keys[m], workers[m]),
        0 <= i < n <= keys.len(),
    ensures
        states[n].assignment().contains_key(keys[i]),
        states[n].assignment()[keys[i]] == workers[i],
    decreases n,
{
    let m = n - 1;
    assert(routed(states[m], states[m + 1], keys[m], workers[m]));
    assert(states[m + 1] == states[n]);
    if m > i {
        lemma_assignment_kept(states, keys, workers, i, n - 1);
    }
}

} // verus!
