//! Claimable input slots and their partition across local workers.
//!
//! Acquisition produces one connection (or file path) per remote worker, in
//! arrival order. Each becomes a slot: an ownership cell holding at most one
//! not-yet-claimed resource. Every local worker then claims the disjoint
//! subset of slots at positions congruent to its index modulo the local
//! worker count. Claiming a slot moves the resource out permanently;
//! claiming an already-empty slot is a contract violation and is reported
//! as an error that leaves every slot untouched.

use vstd::prelude::*;
use vstd::arithmetic::div_mod::lemma_mod_division_less_than_divisor;

verus! {

/// The set of slot positions, among `0 .. n`, that worker `w` of `c` local
/// workers claims.
pub open spec fn worker_slots(n: int, w: int, c: int) -> Set<int> {
    Set::new(|i: int| 0 <= i < n && i % c == w)
}

/// The one worker, of `c` local workers, that claims slot position `i`.
pub open spec fn owner_of(i: int, c: int) -> int {
    i % c
}

/// Partition coverage: for any slot count `n` and local worker count
/// `c >= 1`, the per-worker position sets of the workers `0 .. c` cover
/// `0 .. n` exactly — every position lies in its owner's set, owners lie in
/// `0 .. c` — and no position falls to two workers.
pub proof fn lemma_partition_coverage(n: int, c: int)
    requires
        c >= 1,
    ensures
        forall|i: int|
            0 <= i < n ==> 0 <= #[trigger] owner_of(i, c) < c && worker_slots(
                n,
                owner_of(i, c),
                c,
            ).contains(i),
        forall|i: int, w1: int, w2: int|
            worker_slots(n, w1, c).contains(i) && worker_slots(n, w2, c).contains(i) ==> w1
                == w2,
{
    assert forall|i: int|
        0 <= i < n implies 0 <= #[trigger] owner_of(i, c) < c && worker_slots(
        n,
        owner_of(i, c),
        c,
    ).contains(i) by {
        lemma_mod_division_less_than_divisor(i, c);
        assert(worker_slots(n, i % c, c).contains(i));
    }
}

/// The slots at the positions worker `w` of `c` owns, in position order.
pub open spec fn owned_slots<R>(s: Seq<Option<R>>, w: int, c: int) -> Seq<Option<R>>
    decreases s.len(),
{
    if s.len() == 0 {
        Seq::empty()
    } else if (s.len() - 1) % c == w {
        owned_slots(s.drop_last(), w, c).push(s.last())
    } else {
        owned_slots(s.drop_last(), w, c)
    }
}

/// Appending a slot appends it to `owned_slots` exactly when its position
/// belongs to worker `w`.
pub proof fn lemma_owned_slots_push<R>(s: Seq<Option<R>>, e: Option<R>, w: int, c: int)
    ensures
        owned_slots(s.push(e), w, c) == if (s.len() as int) % c == w {
            owned_slots(s, w, c).push(e)
        } else {
            owned_slots(s, w, c)
        },
{
    assert(s.push(e).drop_last() =~= s);
}

/// A slot at a position worker `w` owns appears among that worker's
/// `owned_slots`.
pub proof fn lemma_owned_slots_contains<R>(s: Seq<Option<R>>, w: int, c: int, j: int)
    requires
        c >= 1,
        0 <= j < s.len(),
        j % c == w,
    ensures
        exists|k: int|
            0 <= k < owned_slots(s, w, c).len() && #[trigger] owned_slots(s, w, c)[k] == s[j],
    decreases s.len(),
{
    if j == s.len() - 1 {
        let q = owned_slots(s, w, c);
        assert(q[q.len() - 1] == s[j]);
    } else {
        lemma_owned_slots_contains(s.drop_last(), w, c, j);
        let q0 = owned_slots(s.drop_last(), w, c);
        let k = choose|k: int| 0 <= k < q0.len() && #[trigger] q0[k] == s.drop_last()[j];
        assert(owned_slots(s, w, c)[k] == q0[k]);
        assert(s.drop_last()[j] == s[j]);
    }
}

/// Whether every slot in `q` still holds its resource.
pub open spec fn all_present<R>(q: Seq<Option<R>>) -> bool {
    forall|k: int| 0 <= k < q.len() ==> (#[trigger] q[k]) is Some
}

/// The failure reported when a claim reaches a slot whose resource was
/// already moved out: a contract violation by the caller, not a
/// data-dependent condition.
#[derive(Clone, Copy, Debug, PartialEq, Eq, Structural)]
pub enum SlotError {
    AlreadyClaimed,
}

/// An ownership-transfer arena of input slots: position `i` holds the
/// resource of remote worker `i` until some local worker claims it.
pub struct SlotArena<R> {
    slots: Vec<Option<R>>,
}

impl<R> View for SlotArena<R> {
    type V = Seq<Option<R>>;

    closed spec fn view(&self) -> Seq<Option<R>> {
        self.slots@
    }
}

impl<R> SlotArena<R> {
    /// An arena with no slots.
    pub fn new() -> (a: SlotArena<R>)
        ensures
            a@.len() == 0,
    {
        SlotArena { slots: Vec::new() }
    }

    /// Appends one filled slot, in arrival order.
    pub fn add(&mut self, r: R)
        ensures
            final(self)@ == old(self)@.push(Some(r)),
    {
        self.slots.push(Some(r));
    }

    /// The number of slots, claimed or not.
    pub fn slot_count(&self) -> (n: usize)
        ensures
            n == self@.len(),
    {
        self.slots.len()
    }

    /// Whether slot `i` still holds its resource.
    pub fn is_available(&self, i: usize) -> (r: bool)
        requires
            i < self@.len(),
        ensures
            r <==> self@[i as int] is Some,
    {
        self.slots[i].is_some()
    }

    /// Claims slot `i`, moving its resource out. Claiming a slot that was
    /// already claimed fails and leaves every slot unchanged.
    pub fn claim(&mut self, i: usize) -> (r: Result<R, SlotError>)
        requires
            i < old(self)@.len(),
        ensures
            match r {
                Ok(res) => old(self)@[i as int] == Some(res) && final(self)@ == old(self)@.update(
                    i as int,
                    None,
                ),
                Err(e) => old(self)@[i as int] is None && final(self)@ == old(self)@ && e
                    == SlotError::AlreadyClaimed,
            },
    {
        let taken = self.slots[i].take();
        match taken {
            Some(res) => Ok(res),
            None => {
                proof {
                    assert(self@ =~= old(self)@);
                }
                Err(SlotError::AlreadyClaimed)
            },
        }
    }

    /// Claims, for local worker `w` of `c`, every slot at a position
    /// congruent to `w` modulo `c`, in position order. When one of those
    /// slots was already claimed, fails without touching any slot.
    pub fn partition(&mut self, w: usize, c: usize) -> (r: Result<Vec<R>, SlotError>)
        requires
            c >= 1,
            w < c,
        ensures
            match r {
                Ok(v) => {
                    &&& all_present(owned_slots(old(self)@, w as int, c as int))
                    &&& v@.len() == owned_slots(old(self)@, w as int, c as int).len()
                    &&& forall|k: int|
                        0 <= k < v@.len() ==> owned_slots(old(self)@, w as int, c as int)[k]
                            == Some(v@[k])
                    &&& final(self)@.len() == old(self)@.len()
                    &&& forall|i: int|
                        0 <= i < old(self)@.len() ==> final(self)@[i] == if i % (c as int) == w {
                            None::<R>
                        } else {
                            old(self)@[i]
                        }
                },
                Err(e) => {
                    &&& !all_present(owned_slots(old(self)@, w as int, c as int))
                    &&& final(self)@ == old(self)@
                    &&& e == SlotError::AlreadyClaimed
                },
            },
    {
        let len = self.slots.len();
        // First pass: every owned slot must still hold its resource;
        // otherwise nothing is claimed.
        let mut i: usize = 0;
        while i < len
            invariant
                len == self@.len(),
                self@ == old(self)@,
                i <= len,
                c >= 1,
                w < c,
                all_present(owned_slots(self@.take(i as int), w as int, c as int)),
            decreases len - i,
        {
            proof {
                assert(self@.take(i + 1) =~= self@.take(i as int).push(self@[i as int]));
                lemma_owned_slots_push(self@.take(i as int), self@[i as int], w as int, c as int);
                assert(self@.take(i as int).len() == i as int);
            }
            if i % c == w {
                if !self.is_available(i) {
                    proof {
                        lemma_owned_slots_contains(self@, w as int, c as int, i as int);
                    }
                    return Err(SlotError::AlreadyClaimed);
                }
            }
            i = i + 1;
        }
        proof {
            assert(self@.take(len as int) =~= self@);
        }
        // Second pass: move every owned resource out, in position order.
        let ghost pre = self@;
        let mut v: Vec<R> = Vec::new();
        let mut i: usize = 0;
        while i < len
            invariant
                len == pre.len(),
                pre == old(self)@,
                i <= len,
                c >= 1,
                w < c,
                all_present(owned_slots(pre, w as int, c as int)),
                self@.len() == len,
                forall|j: int|
                    0 <= j < i ==> #[trigger] self@[j] == if j % (c as int) == w {
                        None::<R>
                    } else {
                        pre[j]
                    },
                forall|j: int| i <= j < len ==> #[trigger] self@[j] == pre[j],
                v@.len() == owned_slots(pre.take(i as int), w as int, c as int).len(),
                forall|k: int|
                    0 <= k < v@.len() ==> owned_slots(pre.take(i as int), w as int, c as int)[k]
                        == Some(v@[k]),
            decreases len - i,
        {
            proof {
                assert(pre.take(i + 1) =~= pre.take(i as int).push(pre[i as int]));
                lemma_owned_slots_push(pre.take(i as int), pre[i as int], w as int, c as int);
                assert(pre.take(i as int).len() == i as int);
            }
            if i % c == w {
                proof {
                    lemma_owned_slots_contains(pre, w as int, c as int, i as int);
                }
                let taken = self.slots[i].take();
                match taken {
                    Some(res) => {
                        v.push(res);
                    },
                    None => {
                        proof {
                            assert(false);
                        }
                        return Err(SlotError::AlreadyClaimed);
                    },
                }
            }
            i = i + 1;
        }
        proof {
            assert(pre.take(len as int) =~= pre);
        }
        Ok(v)
    }
}

} // verus!
