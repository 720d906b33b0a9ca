//! The rescrape scheduler: a priority queue of user ids whose targets are
//! reshaped by observed connection events.
//!
//! A user's next-fetch target is `now + (MAX_TARGET_DAYS / score) days`:
//! the more connections observed, the sooner the refetch. Additions and
//! removals promote ids to target zero, so they are fetched immediately;
//! a removal seen shortly after a recorded deactivation is not promoted
//! again.

use vstd::prelude::*;
use std::collections::HashMap;

verus! {

broadcast use vstd::std_specs::hash::group_hash_axioms;

/// Upper bound, in days, on the time until a user is refetched.
pub const MAX_TARGET_DAYS: u64 = 10;

/// Seconds in `MAX_TARGET_DAYS` days.
pub const MAX_TARGET_SECONDS: u64 = 864000;

/// How long after a recorded deactivation a removal does not trigger a
/// recheck, in seconds.
pub const DEFAULT_SKIP_DEACTIVATION_RECHECK_SECONDS: u64 = 7200;

/// The pending rescrapes, keyed soonest-target-first. Holds a
/// `priority_queue::PriorityQueue` of ids against reversed targets, so
/// that the smallest target second is popped first.
#[verifier::external_body]
pub struct TargetQueue {
    inner: priority_queue::PriorityQueue<u64, core::cmp::Reverse<u32>>,
}

/// What the queue holds: each queued id's target second.
pub uninterp spec fn queue_targets(q: TargetQueue) -> Map<u64, u32>;

impl TargetQueue {
    /// Relies on `PriorityQueue::new`: the queue starts empty.
    #[verifier::external_body]
    pub fn new() -> (result: TargetQueue)
        ensures
            queue_targets(result).dom() == Set::<u64>::empty(),
    {
        TargetQueue { inner: priority_queue::PriorityQueue::new() }
    }

    /// Relies on `PriorityQueue::push`: sets the item's priority whether
    /// or not it was present.
    #[verifier::external_body]
    pub fn push(&mut self, id: u64, target: u32)
        ensures
            queue_targets(*final(self)) == queue_targets(*old(self)).insert(id, target),
    {
        self.inner.push(id, core::cmp::Reverse(target));
    }

    /// Relies on `PriorityQueue::push_increase`: raises the item's
    /// priority to the given one, or inserts it; under the reversed
    /// ordering that means the target is only ever lowered.
    #[verifier::external_body]
    pub fn push_increase(&mut self, id: u64, target: u32)
        ensures
            queue_targets(*final(self)) == (if !queue_targets(*old(self)).dom().contains(id)
                || target < queue_targets(*old(self))[id] {
                queue_targets(*old(self)).insert(id, target)
            } else {
                queue_targets(*old(self))
            }),
    {
        self.inner.push_increase(id, core::cmp::Reverse(target));
    }

    /// Relies on `PriorityQueue::pop`: removes and returns an item with
    /// the greatest priority, so here one with the least target; `None`
    /// exactly when the queue is empty.
    #[verifier::external_body]
    pub fn pop(&mut self) -> (r: Option<(u64, u32)>)
        ensures
            r is None ==> queue_targets(*old(self)).dom() == Set::<u64>::empty() && queue_targets(
                *final(self),
            ) == queue_targets(*old(self)),
            r matches Some((id, t)) ==> queue_targets(*old(self)).dom().contains(id)
                && queue_targets(*old(self))[id] == t && (forall|x: u64|
                queue_targets(*old(self)).dom().contains(x) ==> t <= queue_targets(*old(self))[x])
                && queue_targets(*final(self)) == queue_targets(*old(self)).remove(id),
    {
        self.inner.pop().map(|p| (p.0, p.1.0))
    }

    /// Relies on `PriorityQueue::len`: the number of queued items.
    #[verifier::external_body]
    pub fn len(&self) -> (r: usize)
        ensures
            r == queue_targets(*self).dom().len(),
    {
        self.inner.len()
    }
}

/// The next-fetch target: `now` plus the refetch interval for this score,
/// a zero score counting as one, saturating into 32 bits.
pub open spec fn target_of(now: u64, score: u32) -> u32 {
    let s: int = if score == 0 {
        1
    } else {
        score as int
    };
    let t: int = now as int + (MAX_TARGET_SECONDS as int) / s;
    if t > u32::MAX {
        u32::MAX
    } else {
        t as u32
    }
}

/// Computes [`target_of`].
pub fn compute_target(now: u64, score: u32) -> (r: u32)
    ensures
        r == target_of(now, score),
{
    let s: u64 = if score == 0 {
        1
    } else {
        score as u64
    };
    let delta: u64 = MAX_TARGET_SECONDS / s;
    if now > u64::MAX - delta {
        proof {
            assert(now as int + (MAX_TARGET_SECONDS as int) / (s as int) > u32::MAX);
        }
        u32::MAX
    } else {
        let t = now + delta;
        if t > 0xFFFF_FFFF {
            u32::MAX
        } else {
            t as u32
        }
    }
}

/// A score one lower, not passing zero.
pub open spec fn dec_score(v: u32) -> u32 {
    if v > 0 {
        (v - 1) as u32
    } else {
        0
    }
}

/// A score one higher, not wrapping.
pub open spec fn inc_score(v: u32) -> u32 {
    if v < u32::MAX {
        (v + 1) as u32
    } else {
        u32::MAX
    }
}

/// Whether a removal for this id triggers a recheck: it does unless a
/// deactivation was recorded within the recheck window.
pub open spec fn recheck_due(rd: Map<u64, u64>, id: u64, now: u64, skip: u64) -> bool {
    !(rd.dom().contains(id) && now - rd[id] <= skip)
}

/// The scheduler: the queue of pending rescrapes, the per-user connection
/// scores, and the recently observed deactivations.
pub struct UserQueue {
    queue: TargetQueue,
    scores: HashMap<u64, u32>,
    recently_deactivated: HashMap<u64, u64>,
    skip_deactivation_recheck: u64,
}

impl UserQueue {
    /// The queued ids and their targets.
    pub closed spec fn targets(&self) -> Map<u64, u32> {
        queue_targets(self.queue)
    }

    /// The recorded connection scores.
    pub closed spec fn score_map(&self) -> Map<u64, u32> {
        self.scores@
    }

    /// When each id was last seen deactivated.
    pub closed spec fn deactivated_map(&self) -> Map<u64, u64> {
        self.recently_deactivated@
    }

    /// The recheck window, in seconds.
    pub closed spec fn skip_window(&self) -> u64 {
        self.skip_deactivation_recheck
    }

    pub closed spec fn wf(&self) -> bool {
        queue_targets(self.queue).dom().finite()
    }

    /// Bootstraps the scheduler: each (id, score, last snapshot) triple is
    /// queued at the target its score and last snapshot give, and its
    /// score is recorded.
    pub fn new(items: &Vec<(u64, u32, u64)>) -> (r: UserQueue)
        ensures
            r.wf(),
            r.skip_window() == DEFAULT_SKIP_DEACTIVATION_RECHECK_SECONDS,
            r.deactivated_map().dom() == Set::<u64>::empty(),
            forall|k: int|
                0 <= k < items@.len() ==> r.targets().dom().contains((#[trigger] items@[k]).0)
                    && r.score_map().dom().contains(items@[k].0),
            forall|x: u64|
                r.targets().dom().contains(x) ==> exists|k: int|
                    0 <= k < items@.len() && (#[trigger] items@[k]).0 == x,
            forall|x: u64|
                r.score_map().dom().contains(x) ==> exists|k: int|
                    0 <= k < items@.len() && (#[trigger] items@[k]).0 == x,
            forall|k: int|
                0 <= k < items@.len() && (forall|k2: int|
                    k < k2 < items@.len() ==> (#[trigger] items@[k2]).0 != (#[trigger] items@[k]).0)
                    ==> r.targets()[items@[k].0] == target_of(items@[k].2, items@[k].1)
                    && r.score_map()[items@[k].0] == items@[k].1,
    {
        let mut queue = TargetQueue::new();
        let mut scores: HashMap<u64, u32> = HashMap::new();
        let mut i: usize = 0;
        while i < items.len()
            invariant
                0 <= i <= items@.len(),
                queue_targets(queue).dom().finite(),
                forall|k: int|
                    0 <= k < i ==> queue_targets(queue).dom().contains((#[trigger] items@[k]).0)
                        && scores@.dom().contains(items@[k].0),
                forall|x: u64|
                    queue_targets(queue).dom().contains(x) ==> exists|k: int|
                        0 <= k < i && (#[trigger] items@[k]).0 == x,
                forall|x: u64| scores@.dom().contains(x) ==> queue_targets(queue).dom().contains(x),
                forall|k: int|
                    0 <= k < i && (forall|k2: int|
                        k < k2 < i ==> (#[trigger] items@[k2]).0 != (#[trigger] items@[k]).0)
                        ==> queue_targets(queue)[items@[k].0] == target_of(
                        items@[k].2,
                        items@[k].1,
                    ) && scores@[items@[k].0] == items@[k].1,
            decreases items@.len() - i,
        {
            let (id, score, last_snapshot) = items[i];
            let t = compute_target(last_snapshot, score);
            queue.push(id, t);
            scores.insert(id, score);
            i = i + 1;
        }
        UserQueue {
            queue,
            scores,
            recently_deactivated: HashMap::new(),
            skip_deactivation_recheck: DEFAULT_SKIP_DEACTIVATION_RECHECK_SECONDS,
        }
    }

    /// Pops up to `count` ids, soonest targets first. The batch is
    /// duplicate-free, drawn from and removed from the queue, ascending
    /// by target, and each pop is minimal among what then remained.
    pub fn next_batch(&mut self, count: usize) -> (r: Vec<u64>)
        requires
            old(self).wf(),
        ensures
            final(self).wf(),
            final(self).score_map() == old(self).score_map(),
            final(self).deactivated_map() == old(self).deactivated_map(),
            final(self).skip_window() == old(self).skip_window(),
            r@.len() == vstd::math::min(count as int, old(self).targets().dom().len() as int),
            forall|i: int, j: int| 0 <= i < j < r@.len() ==> r@[i] != r@[j],
            forall|i: int| 0 <= i < r@.len() ==> old(self).targets().dom().contains(#[trigger] r@[i]),
            final(self).targets() == old(self).targets().remove_keys(r@.to_set()),
            forall|i: int, j: int|
                0 <= i <= j < r@.len() ==> old(self).targets()[r@[i]] <= old(self).targets()[r@[j]],
            forall|i: int, x: u64|
                #![trigger r@[i], old(self).targets()[x]]
                0 <= i < r@.len() && old(self).targets().dom().contains(x) && !r@.subrange(
                    0,
                    i,
                ).contains(x) ==> old(self).targets()[r@[i]] <= old(self).targets()[x],
    {
        let ghost m0 = self.targets();
        let mut r: Vec<u64> = Vec::new();
        proof {
            assert(m0.remove_keys(r@.to_set()) =~= m0);
        }
        while r.len() < count
            invariant
                old(self).wf(),
                self.wf(),
                m0 == old(self).targets(),
                self.scores == old(self).scores,
                self.recently_deactivated == old(self).recently_deactivated,
                self.skip_deactivation_recheck == old(self).skip_deactivation_recheck,
                r@.len() <= count,
                r@.len() <= m0.dom().len(),
                r@.len() < count ==> r@.len() == m0.dom().len() - self.targets().dom().len(),
                forall|i: int, j: int| 0 <= i < j < r@.len() ==> r@[i] != r@[j],
                forall|i: int| 0 <= i < r@.len() ==> m0.dom().contains(#[trigger] r@[i]),
                self.targets() == m0.remove_keys(r@.to_set()),
                forall|i: int, j: int| 0 <= i <= j < r@.len() ==> m0[r@[i]] <= m0[r@[j]],
                forall|i: int, x: u64|
                    #![trigger r@[i], m0[x]]
                    0 <= i < r@.len() && m0.dom().contains(x) && !r@.subrange(0, i).contains(x)
                        ==> m0[r@[i]] <= m0[x],
            decreases count - r.len(),
        {
            let ghost mcur = self.targets();
            match self.queue.pop() {
                None => {
                    proof {
                        assert(mcur.dom() =~= Set::<u64>::empty());
                        vstd::set_lib::lemma_set_empty_equivalency_len(mcur.dom());
                        assert(m0.dom().len() - mcur.dom().len() == r@.len());
                    }
                    return r;
                },
                Some((id, t)) => {
                    let ghost rold = r@;
                    r.push(id);
                    proof {
                        assert(!rold.contains(id)) by {
                            if rold.contains(id) {
                                assert(mcur == m0.remove_keys(rold.to_set()));
                                rold.to_multiset_ensures();
                                assert(rold.to_set().contains(id));
                                assert(!mcur.dom().contains(id));
                            }
                        }
                        Seq::lemma_to_set_insert_commutes(rold, id);
                        assert(r@ =~= rold + seq![id]);
                        assert(r@.to_set() =~= rold.to_set().insert(id));
                        assert(self.targets() =~= m0.remove_keys(r@.to_set()));
                        assert(m0.dom().contains(id));
                        assert(m0[id] == t);
                        assert(mcur.dom().len() >= 1) by {
                            assert(mcur.dom().contains(id));
                            vstd::set_lib::lemma_set_empty_equivalency_len(mcur.dom());
                        }
                        assert(self.targets().dom() =~= mcur.dom().remove(id));
                        assert(self.targets().dom().len() == mcur.dom().len() - 1);
                        assert forall|i: int, j: int|
                            0 <= i <= j < r@.len() implies m0[r@[i]] <= m0[r@[j]] by {
                            if j == r@.len() - 1 && i < j {
                                assert(mcur.dom().contains(r@[j]));
                                assert(!rold.subrange(0, i).contains(r@[i]) || true);
                                assert(m0[r@[i]] <= m0[r@[j]]) by {
                                    assert(rold.subrange(0, i) =~= r@.subrange(0, i));
                                    assert(!r@.subrange(0, i).contains(r@[j])) by {
                                        if r@.subrange(0, i).contains(r@[j]) {
                                            let k = choose|k: int|
                                                0 <= k < i && r@.subrange(0, i)[k] == r@[j];
                                            assert(rold[k] == r@[j]);
                                            assert(rold.contains(r@[j]));
                                            assert(rold.to_set().contains(r@[j]));
                                            assert(!mcur.dom().contains(r@[j]));
                                        }
                                    }
                                }
                            }
                        }
                        assert forall|i: int, x: u64|
                            #![trigger r@[i], m0[x]]
                            0 <= i < r@.len() && m0.dom().contains(x) && !r@.subrange(
                                0,
                                i,
                            ).contains(x) implies m0[r@[i]] <= m0[x] by {
                            if i == r@.len() - 1 {
                                assert(r@.subrange(0, i) =~= rold.subrange(0, i));
                                assert(rold.subrange(0, i) =~= rold) by {
                                    assert(rold.len() == i);
                                    assert(rold.subrange(0, i) =~= rold);
                                }
                                if !rold.contains(x) {
                                    assert(!rold.to_set().contains(x));
                                    assert(mcur.dom().contains(x));
                                    assert(mcur[x] == m0[x]);
                                    assert(t <= mcur[x]);
                                }
                            } else {
                                assert(r@.subrange(0, i) =~= rold.subrange(0, i));
                            }
                        }
                    }
                },
            }
        }
        proof {
            assert(r@.len() == count);
            assert(m0.dom().len() >= r@.len());
        }
        r
    }
}


/// Whether the vector holds the id.
fn contains_id(v: &Vec<u64>, id: u64) -> (r: bool)
    ensures
        r == v@.contains(id),
{
    let mut i: usize = 0;
    while i < v.len()
        invariant
            0 <= i <= v.len(),
            forall|j: int| 0 <= j < i ==> v@[j] != id,
        decreases v.len() - i,
    {
        if v[i] == id {
            return true;
        }
        i = i + 1;
    }
    false
}

/// The distinct ids of a batch, first occurrences in order.
fn dedup_ids(ids: &Vec<u64>) -> (r: Vec<u64>)
    ensures
        forall|x: u64| r@.contains(x) <==> ids@.contains(x),
        forall|i: int, j: int| 0 <= i < j < r@.len() ==> r@[i] != r@[j],
{
    let mut r: Vec<u64> = Vec::new();
    let mut i: usize = 0;
    while i < ids.len()
        invariant
            0 <= i <= ids.len(),
            forall|x: u64| r@.contains(x) <==> ids@.take(i as int).contains(x),
            forall|a: int, b: int| 0 <= a < b < r@.len() ==> r@[a] != r@[b],
        decreases ids.len() - i,
    {
        let id = ids[i];
        let ghost r0 = r@;
        if !contains_id(&r, id) {
            r.push(id);
        }
        i = i + 1;
        proof {
            assert forall|x: u64| r@.contains(x) <==> ids@.take(i as int).contains(x) by {
                assert(ids@.take(i as int) =~= ids@.take(i - 1).push(ids@[i - 1]));
                if r@.contains(x) {
                    let k = choose|k: int| 0 <= k < r@.len() && r@[k] == x;
                    if k < r0.len() {
                        assert(r0[k] == x);
                        assert(r0.contains(x));
                    } else {
                        assert(x == id);
                        assert(ids@.take(i as int)[i - 1] == id);
                    }
                }
                if ids@.take(i as int).contains(x) {
                    let k = choose|k: int|
                        0 <= k < ids@.take(i as int).len() && ids@.take(i as int)[k] == x;
                    if k < i - 1 {
                        assert(ids@.take(i - 1)[k] == x);
                        assert(ids@.take(i - 1).contains(x));
                        assert(r0.contains(x));
                        let k2 = choose|k2: int| 0 <= k2 < r0.len() && r0[k2] == x;
                        assert(r@[k2] == x);
                    } else {
                        assert(x == id);
                        if r0.contains(id) {
                            let k2 = choose|k2: int| 0 <= k2 < r0.len() && r0[k2] == id;
                            assert(r@[k2] == id);
                        } else {
                            assert(r@[r@.len() - 1] == id);
                        }
                    }
                }
            }
        }
    }
    proof {
        assert(ids@.take(ids@.len() as int) =~= ids@);
    }
    r
}

/// The recorded score of an id, a missing record counting as one.
pub open spec fn score_or_one(m: Map<u64, u32>, x: u64) -> u32 {
    if m.dom().contains(x) {
        m[x]
    } else {
        1
    }
}

/// The queue map after promoting every id of `s` to target zero.
pub open spec fn promoted(q: Map<u64, u32>, s: Set<u64>) -> Map<u64, u32> {
    Map::new(
        |k: u64| q.dom().contains(k) || s.contains(k),
        |k: u64|
            if s.contains(k) {
                0u32
            } else {
                q[k]
            },
    )
}

/// The score map after counting one more connection for every id of `s`.
pub open spec fn bumped(m: Map<u64, u32>, s: Set<u64>) -> Map<u64, u32> {
    Map::new(
        |k: u64| m.dom().contains(k) || s.contains(k),
        |k: u64|
            if s.contains(k) {
                if m.dom().contains(k) {
                    inc_score(m[k])
                } else {
                    1u32
                }
            } else {
                m[k]
            },
    )
}

impl UserQueue {
    /// Ids seen following or being followed: each id's score rises by
    /// one, and the id is queued for an immediate fetch.
    pub fn process_additions(&mut self, ids: &Vec<u64>)
        requires
            old(self).wf(),
        ensures
            final(self).wf(),
            final(self).deactivated_map() == old(self).deactivated_map(),
            final(self).skip_window() == old(self).skip_window(),
            final(self).targets() == promoted(old(self).targets(), ids@.to_set()),
            final(self).score_map() == bumped(old(self).score_map(), ids@.to_set()),
    {
        let uids = dedup_ids(ids);
        let ghost q0 = self.targets();
        let ghost s0 = self.score_map();
        let mut i: usize = 0;
        proof {
            assert(self.targets() =~= promoted(q0, uids@.take(0).to_set()));
            assert(self.score_map() =~= bumped(s0, uids@.take(0).to_set()));
        }
        while i < uids.len()
            invariant
                self.wf(),
                0 <= i <= uids@.len(),
                forall|a: int, b: int| 0 <= a < b < uids@.len() ==> uids@[a] != uids@[b],
                q0 == old(self).targets(),
                s0 == old(self).score_map(),
                self.recently_deactivated == old(self).recently_deactivated,
                self.skip_deactivation_recheck == old(self).skip_deactivation_recheck,
                self.targets() == promoted(q0, uids@.take(i as int).to_set()),
                self.score_map() == bumped(s0, uids@.take(i as int).to_set()),
            decreases uids@.len() - i,
        {
            let id = uids[i];
            let ghost tkprev = uids@.take(i as int);
            let ghost qpre = self.targets();
            let ghost spre = self.score_map();
            let s = match self.scores.get(&id) {
                Some(v) => {
                    if *v < 0xFFFF_FFFF {
                        *v + 1
                    } else {
                        0xFFFF_FFFF
                    }
                },
                None => 1,
            };
            self.scores.insert(id, s);
            self.queue.push_increase(id, 0);
            i = i + 1;
            proof {
                let tk = uids@.take(i as int);
                assert(tk =~= tkprev.push(id));
                Seq::lemma_to_set_insert_commutes(tkprev, id);
                assert(tkprev + seq![id] =~= tk);
                assert(tk.to_set() =~= tkprev.to_set().insert(id));
                assert(!tkprev.contains(id)) by {
                    if tkprev.contains(id) {
                        let k = choose|k: int| 0 <= k < i - 1 && #[trigger] tkprev[k] == id;
                        assert(uids@[k] == uids@[i - 1]);
                    }
                }
                assert(!tkprev.to_set().contains(id));
                assert(spre.dom().contains(id) <==> (s0.dom().contains(id)
                    || tkprev.to_set().contains(id)));
                assert(s == (if s0.dom().contains(id) {
                    inc_score(s0[id])
                } else {
                    1u32
                }));
                assert(self.score_map() =~= bumped(s0, tk.to_set()));
                assert(self.targets() =~= promoted(q0, tk.to_set()));
            }
        }
        proof {
            assert(uids@.take(uids@.len() as int) =~= uids@);
            assert(uids@.to_set() =~= ids@.to_set());
            assert(self.targets() =~= promoted(q0, ids@.to_set()));
            assert(self.score_map() =~= bumped(s0, ids@.to_set()));
        }
    }
}


/// The removal survivors: ids whose recheck is due.
pub open spec fn survivors(s: Set<u64>, rd: Map<u64, u64>, now: u64, skip: u64) -> Set<u64> {
    Set::new(|k: u64| s.contains(k) && recheck_due(rd, k, now, skip))
}

/// The score map after uncounting one connection for every id of `s`.
pub open spec fn decremented(m: Map<u64, u32>, s: Set<u64>) -> Map<u64, u32> {
    Map::new(
        |k: u64| m.dom().contains(k) || s.contains(k),
        |k: u64|
            if s.contains(k) {
                if m.dom().contains(k) {
                    dec_score(m[k])
                } else {
                    0u32
                }
            } else {
                m[k]
            },
    )
}

/// The queue map after rescheduling every id of `s` at the target its
/// score gives at time `now`.
pub open spec fn retargeted(q: Map<u64, u32>, scores: Map<u64, u32>, s: Set<u64>, now: u64) -> Map<
    u64,
    u32,
> {
    Map::new(
        |k: u64| q.dom().contains(k) || s.contains(k),
        |k: u64|
            if s.contains(k) {
                target_of(now, score_or_one(scores, k))
            } else {
                q[k]
            },
    )
}

/// The deactivation map after stamping every id of `s` with `now`.
pub open spec fn stamped(rd: Map<u64, u64>, s: Set<u64>, now: u64) -> Map<u64, u64> {
    Map::new(
        |k: u64| rd.dom().contains(k) || s.contains(k),
        |k: u64|
            if s.contains(k) {
                now
            } else {
                rd[k]
            },
    )
}

/// Relies on `std::time::SystemTime::now`: the wall clock, read as whole
/// seconds since the epoch, a clock set before the epoch reading as zero.
/// The result depends on the clock, so nothing is promised of it.
#[verifier::external_body]
fn now_epoch_raw() -> u64 {
    match std::time::SystemTime::now().duration_since(std::time::UNIX_EPOCH) {
        Ok(d) => d.as_secs(),
        Err(_) => 0,
    }
}

/// The wall clock as epoch seconds, clamped at the epoch.
pub fn now_seconds() -> (r: u64) {
    now_epoch_raw()
}

impl UserQueue {
    /// Ids seen unfollowing or being unfollowed, at time `now`: every
    /// id's score drops by one, saturating at zero, and ids not recorded
    /// deactivated within the recheck window are queued for an immediate
    /// fetch.
    pub fn process_removals_at(&mut self, ids: &Vec<u64>, now: u64)
        requires
            old(self).wf(),
        ensures
            final(self).wf(),
            final(self).deactivated_map() == old(self).deactivated_map(),
            final(self).skip_window() == old(self).skip_window(),
            final(self).targets() == promoted(
                old(self).targets(),
                survivors(
                    ids@.to_set(),
                    old(self).deactivated_map(),
                    now,
                    old(self).skip_window(),
                ),
            ),
            final(self).score_map() == decremented(old(self).score_map(), ids@.to_set()),
    {
        let uids = dedup_ids(ids);
        let ghost q0 = self.targets();
        let ghost s0 = self.score_map();
        let ghost rd0 = self.deactivated_map();
        let ghost skip = self.skip_window();
        let mut i: usize = 0;
        proof {
            assert(self.targets() =~= promoted(
                q0,
                survivors(uids@.take(0).to_set(), rd0, now, skip),
            ));
            assert(self.score_map() =~= decremented(s0, uids@.take(0).to_set()));
        }
        while i < uids.len()
            invariant
                self.wf(),
                0 <= i <= uids@.len(),
                forall|a: int, b: int| 0 <= a < b < uids@.len() ==> uids@[a] != uids@[b],
                q0 == old(self).targets(),
                s0 == old(self).score_map(),
                rd0 == old(self).deactivated_map(),
                skip == old(self).skip_window(),
                self.recently_deactivated == old(self).recently_deactivated,
                self.skip_deactivation_recheck == old(self).skip_deactivation_recheck,
                self.targets() == promoted(
                    q0,
                    survivors(uids@.take(i as int).to_set(), rd0, now, skip),
                ),
                self.score_map() == decremented(s0, uids@.take(i as int).to_set()),
            decreases uids@.len() - i,
        {
            let id = uids[i];
            let ghost tkprev = uids@.take(i as int);
            let due = match self.recently_deactivated.get(&id) {
                None => true,
                Some(t) => {
                    if now >= *t {
                        now - *t > self.skip_deactivation_recheck
                    } else {
                        false
                    }
                },
            };
            if due {
                self.queue.push_increase(id, 0);
            }
            let s = match self.scores.get(&id) {
                Some(v) => {
                    if *v > 0 {
                        *v - 1
                    } else {
                        0
                    }
                },
                None => 0,
            };
            self.scores.insert(id, s);
            i = i + 1;
            proof {
                let tk = uids@.take(i as int);
                assert(tk =~= tkprev.push(id));
                Seq::lemma_to_set_insert_commutes(tkprev, id);
                assert(tkprev + seq![id] =~= tk);
                assert(tk.to_set() =~= tkprev.to_set().insert(id));
                assert(due == recheck_due(rd0, id, now, skip));
                assert(self.targets() =~= promoted(
                    q0,
                    survivors(tk.to_set(), rd0, now, skip),
                ));
                assert(self.score_map() =~= decremented(s0, tk.to_set()));
            }
        }
        proof {
            assert(uids@.take(uids@.len() as int) =~= uids@);
            assert(uids@.to_set() =~= ids@.to_set());
            assert(self.targets() =~= promoted(
                q0,
                survivors(ids@.to_set(), rd0, now, skip),
            ));
            assert(self.score_map() =~= decremented(s0, ids@.to_set()));
        }
    }

    /// Ids just fetched successfully, at time `now`: each is rescheduled
    /// at the target its score gives, a missing score counting as one.
    pub fn process_updates_at(&mut self, ids: &Vec<u64>, now: u64)
        requires
            old(self).wf(),
        ensures
            final(self).wf(),
            final(self).deactivated_map() == old(self).deactivated_map(),
            final(self).skip_window() == old(self).skip_window(),
            final(self).score_map() == old(self).score_map(),
            final(self).targets() == retargeted(
                old(self).targets(),
                old(self).score_map(),
                ids@.to_set(),
                now,
            ),
    {
        let ghost q0 = self.targets();
        let ghost s0 = self.score_map();
        let mut i: usize = 0;
        proof {
            assert(self.targets() =~= retargeted(q0, s0, ids@.take(0).to_set(), now));
        }
        while i < ids.len()
            invariant
                self.wf(),
                0 <= i <= ids@.len(),
                q0 == old(self).targets(),
                s0 == old(self).score_map(),
                self.scores == old(self).scores,
                self.recently_deactivated == old(self).recently_deactivated,
                self.skip_deactivation_recheck == old(self).skip_deactivation_recheck,
                self.targets() == retargeted(q0, s0, ids@.take(i as int).to_set(), now),
            decreases ids@.len() - i,
        {
            let id = ids[i];
            let ghost tkprev = ids@.take(i as int);
            let score = match self.scores.get(&id) {
                Some(v) => *v,
                None => 1,
            };
            let t = compute_target(now, score);
            self.queue.push(id, t);
            i = i + 1;
            proof {
                let tk = ids@.take(i as int);
                assert(tk =~= tkprev.push(id));
                Seq::lemma_to_set_insert_commutes(tkprev, id);
                assert(tkprev + seq![id] =~= tk);
                assert(tk.to_set() =~= tkprev.to_set().insert(id));
                assert(t == target_of(now, score_or_one(s0, id)));
                assert(self.targets() =~= retargeted(q0, s0, tk.to_set(), now));
            }
        }
        proof {
            assert(ids@.take(ids@.len() as int) =~= ids@);
        }
    }

    /// Ids seen deactivated, at time `now`: each is stamped with the
    /// observation time; scores and the queue are untouched.
    pub fn process_deactivations_at(&mut self, ids: &Vec<u64>, now: u64)
        requires
            old(self).wf(),
        ensures
            final(self).wf(),
            final(self).targets() == old(self).targets(),
            final(self).score_map() == old(self).score_map(),
            final(self).skip_window() == old(self).skip_window(),
            final(self).deactivated_map() == stamped(
                old(self).deactivated_map(),
                ids@.to_set(),
                now,
            ),
    {
        let ghost rd0 = self.deactivated_map();
        let mut i: usize = 0;
        proof {
            assert(self.deactivated_map() =~= stamped(rd0, ids@.take(0).to_set(), now));
        }
        while i < ids.len()
            invariant
                self.wf(),
                0 <= i <= ids@.len(),
                rd0 == old(self).deactivated_map(),
                self.queue == old(self).queue,
                self.scores == old(self).scores,
                self.skip_deactivation_recheck == old(self).skip_deactivation_recheck,
                self.deactivated_map() == stamped(rd0, ids@.take(i as int).to_set(), now),
            decreases ids@.len() - i,
        {
            let id = ids[i];
            let ghost tkprev = ids@.take(i as int);
            self.recently_deactivated.insert(id, now);
            i = i + 1;
            proof {
                let tk = ids@.take(i as int);
                assert(tk =~= tkprev.push(id));
                Seq::lemma_to_set_insert_commutes(tkprev, id);
                assert(tkprev + seq![id] =~= tk);
                assert(tk.to_set() =~= tkprev.to_set().insert(id));
                assert(self.deactivated_map() =~= stamped(rd0, tk.to_set(), now));
            }
        }
        proof {
            assert(ids@.take(ids@.len() as int) =~= ids@);
        }
    }

    /// The recorded score of an id.
    pub fn score_of(&self, id: u64) -> (r: Option<u32>)
        ensures
            r == (if self.score_map().dom().contains(id) {
                Some(self.score_map()[id])
            } else {
                None::<u32>
            }),
    {
        match self.scores.get(&id) {
            Some(v) => Some(*v),
            None => None,
        }
    }

    /// [`Self::process_removals_at`] at the current wall-clock time.
    pub fn process_removals(&mut self, ids: &Vec<u64>)
        requires
            old(self).wf(),
        ensures
            final(self).wf(),
            final(self).deactivated_map() == old(self).deactivated_map(),
            final(self).skip_window() == old(self).skip_window(),
            final(self).score_map() == decremented(old(self).score_map(), ids@.to_set()),
            exists|now: u64|
                final(self).targets() == promoted(
                    old(self).targets(),
                    #[trigger] survivors(
                        ids@.to_set(),
                        old(self).deactivated_map(),
                        now,
                        old(self).skip_window(),
                    ),
                ),
    {
        let now = now_seconds();
        self.process_removals_at(ids, now);
    }

    /// [`Self::process_updates_at`] at the current wall-clock time.
    pub fn process_updates(&mut self, ids: &Vec<u64>)
        requires
            old(self).wf(),
        ensures
            final(self).wf(),
            final(self).deactivated_map() == old(self).deactivated_map(),
            final(self).skip_window() == old(self).skip_window(),
            final(self).score_map() == old(self).score_map(),
            exists|now: u64|
                final(self).targets() == #[trigger] retargeted(
                    old(self).targets(),
                    old(self).score_map(),
                    ids@.to_set(),
                    now,
                ),
    {
        let now = now_seconds();
        self.process_updates_at(ids, now);
    }

    /// [`Self::process_deactivations_at`] at the current wall-clock time.
    pub fn process_deactivations(&mut self, ids: &Vec<u64>)
        requires
            old(self).wf(),
        ensures
            final(self).wf(),
            final(self).targets() == old(self).targets(),
            final(self).score_map() == old(self).score_map(),
            final(self).skip_window() == old(self).skip_window(),
            exists|now: u64|
                final(self).deactivated_map() == #[trigger] stamped(
                    old(self).deactivated_map(),
                    ids@.to_set(),
                    now,
                ),
    {
        let now = now_seconds();
        self.process_deactivations_at(ids, now);
    }
}

/// A well-formed scheduler queues finitely many ids; exported so callers
/// can discharge finiteness obligations from [`UserQueue::wf`] alone.
pub proof fn lemma_wf_targets_finite(q: &UserQueue)
    requires
        q.wf(),
    ensures
        q.targets().dom().finite(),
{
}

/// Two batches drawn one after the other share no id: the first batch's
/// ids are gone from the queue the second batch is drawn from.
pub proof fn lemma_batches_disjoint(
    m0: Map<u64, u32>,
    r1: Seq<u64>,
    m1: Map<u64, u32>,
    r2: Seq<u64>,
)
    requires
        m1 == m0.remove_keys(r1.to_set()),
        forall|i: int| 0 <= i < r2.len() ==> m1.dom().contains(#[trigger] r2[i]),
    ensures
        forall|i: int, j: int| 0 <= i < r1.len() && 0 <= j < r2.len() ==> r1[i] != r2[j],
{
    assert forall|i: int, j: int|
        0 <= i < r1.len() && 0 <= j < r2.len() implies r1[i] != r2[j] by {
        if r1[i] == r2[j] {
            assert(r1.to_set().contains(r1[i]));
            assert(m1.dom().contains(r2[j]));
            assert(!m1.dom().contains(r1[i]));
        }
    }
}

/// A batch large enough to drain the queue returns every queued id; in
/// particular an id just rescheduled at time `now` is returned, and its
/// target is at most `now` plus the full refetch interval.
pub proof fn lemma_drained_batch_complete(
    q: Map<u64, u32>,
    r: Seq<u64>,
    count: int,
    u: u64,
    now: u64,
    scores: Map<u64, u32>,
    s: Set<u64>,
)
    requires
        q.dom().finite(),
        s.contains(u) ==> q.dom().contains(u) && q[u] == target_of(now, score_or_one(scores, u)),
        s.contains(u),
        r.len() == vstd::math::min(count, q.dom().len() as int),
        count >= q.dom().len(),
        forall|i: int, j: int| 0 <= i < j < r.len() ==> r[i] != r[j],
        forall|i: int| 0 <= i < r.len() ==> q.dom().contains(#[trigger] r[i]),
    ensures
        r.contains(u),
        s.contains(u) ==> q[u] <= now as int + MAX_TARGET_SECONDS as int,
{
    assert(r.len() == q.dom().len());
    let rs = r.to_set();
    assert(rs.subset_of(q.dom()));
    r.unique_seq_to_set();
    assert(rs.len() == r.len());
    if !rs.contains(u) {
        assert(rs.subset_of(q.dom().remove(u)));
        vstd::set_lib::lemma_len_subset(rs, q.dom().remove(u));
        assert(q.dom().remove(u).len() == q.dom().len() - 1);
    }
    assert(rs.contains(u));
    assert(r.contains(u));
    assert(q[u] == target_of(now, score_or_one(scores, u)));
    let sc = score_or_one(scores, u);
    let d: int = if sc == 0 {
        1
    } else {
        sc as int
    };
    assert(MAX_TARGET_SECONDS as int / d <= MAX_TARGET_SECONDS) by {
        vstd::arithmetic::div_mod::lemma_div_is_ordered_by_denominator(
            MAX_TARGET_SECONDS as int,
            1,
            d,
        );
    }
}

} // verus!
