//! The outstanding-progress frontier: a minimal mapping from timestamp to a
//! nonzero signed count of progress units claimed at that time and not yet
//! retired. The replay operator applies every progress delta it forwards to
//! this tracker, and on shutdown retracts every outstanding count exactly
//! once, so that the deltas it emits over its lifetime sum to zero at every
//! timestamp.

use vstd::prelude::*;

verus! {

/// The net change that the updates in `s` apply to the count at timestamp
/// `t`: the sum of the deltas in `s` whose timestamp is `t`.
pub open spec fn sum_at(s: Seq<(u64, i64)>, t: u64) -> int
    decreases s.len(),
{
    if s.len() == 0 {
        0
    } else {
        sum_at(s.drop_last(), t) + if s.last().0 == t {
            s.last().1 as int
        } else {
            0int
        }
    }
}

/// `sum_at` distributes over concatenation.
pub proof fn lemma_sum_at_concat(a: Seq<(u64, i64)>, b: Seq<(u64, i64)>, t: u64)
    ensures
        sum_at(a + b, t) == sum_at(a, t) + sum_at(b, t),
    decreases b.len(),
{
    if b.len() == 0 {
        assert(a + b =~= a);
    } else {
        assert((a + b).drop_last() =~= a + b.drop_last());
        lemma_sum_at_concat(a, b.drop_last(), t);
    }
}

/// Appending one update adds its delta to the sum at its timestamp.
pub proof fn lemma_sum_at_push(s: Seq<(u64, i64)>, e: (u64, i64), t: u64)
    ensures
        sum_at(s.push(e), t) == sum_at(s, t) + if e.0 == t {
            e.1 as int
        } else {
            0int
        },
{
    assert(s.push(e).drop_last() =~= s);
}

/// If no update in `s` carries timestamp `t`, the sum at `t` is zero.
pub proof fn lemma_sum_at_absent(s: Seq<(u64, i64)>, t: u64)
    requires
        forall|i: int| 0 <= i < s.len() ==> (#[trigger] s[i]).0 != t,
    ensures
        sum_at(s, t) == 0,
    decreases s.len(),
{
    if s.len() > 0 {
        lemma_sum_at_absent(s.drop_last(), t);
    }
}

/// Removing the update at `i` subtracts its contribution from the sum.
pub proof fn lemma_sum_at_remove(s: Seq<(u64, i64)>, i: int, t: u64)
    requires
        0 <= i < s.len(),
    ensures
        sum_at(s.remove(i), t) == sum_at(s, t) - if s[i].0 == t {
            s[i].1 as int
        } else {
            0int
        },
    decreases s.len(),
{
    if i == s.len() - 1 {
        assert(s.remove(i) =~= s.drop_last());
    } else {
        assert(s.remove(i).drop_last() =~= s.drop_last().remove(i));
        lemma_sum_at_remove(s.drop_last(), i, t);
    }
}

/// Replacing the update at `i` by one with the same timestamp exchanges the
/// two contributions in the sum.
pub proof fn lemma_sum_at_update(s: Seq<(u64, i64)>, i: int, e: (u64, i64), t: u64)
    requires
        0 <= i < s.len(),
        s[i].0 == e.0,
    ensures
        sum_at(s.update(i, e), t) == sum_at(s, t) - (if s[i].0 == t {
            s[i].1 as int
        } else {
            0int
        }) + (if e.0 == t {
            e.1 as int
        } else {
            0int
        }),
    decreases s.len(),
{
    if i == s.len() - 1 {
        assert(s.update(i, e).drop_last() =~= s.drop_last());
        assert(s.update(i, e).last() == e);
    } else {
        assert(s.update(i, e).drop_last() =~= s.drop_last().update(i, e));
        assert(s.update(i, e).last() == s.last());
        lemma_sum_at_update(s.drop_last(), i, e, t);
    }
}

/// With pairwise-distinct timestamps, the sum at the timestamp of entry `i`
/// is exactly that entry's count.
pub proof fn lemma_sum_at_unique(s: Seq<(u64, i64)>, i: int, t: u64)
    requires
        forall|a: int, b: int|
            0 <= a < b < s.len() ==> (#[trigger] s[a]).0 != (#[trigger] s[b]).0,
        0 <= i < s.len(),
        s[i].0 == t,
    ensures
        sum_at(s, t) == s[i].1 as int,
{
    lemma_sum_at_remove(s, i, t);
    assert forall|j: int| 0 <= j < s.remove(i).len() implies (#[trigger] s.remove(i)[j]).0
        != t by {
        if j < i {
            assert(s.remove(i)[j] == s[j]);
        } else {
            assert(s.remove(i)[j] == s[j + 1]);
        }
    }
    lemma_sum_at_absent(s.remove(i), t);
}

/// Applying the updates in `ds`, in order, to the counts summarized by
/// `base` keeps every intermediate count within the symmetric range
/// `-i64::MAX ..= i64::MAX`, so that each count, and its additive inverse,
/// stays representable.
pub open spec fn deltas_fit(base: Seq<(u64, i64)>, ds: Seq<(u64, i64)>) -> bool {
    forall|k: int|
        #![trigger ds[k]]
        0 <= k < ds.len() ==> {
            let c = sum_at(base, ds[k].0) + sum_at(ds.take(k + 1), ds[k].0);
            -(i64::MAX as int) <= c <= i64::MAX as int
        }
}

/// A well-formed frontier with no outstanding count has no entries.
pub proof fn lemma_counts_zero_empty(f: Frontier)
    requires
        f.wf(),
        forall|u: u64| #[trigger] f.count_of(u) == 0,
    ensures
        f@.len() == 0,
{
    if f@.len() > 0 {
        lemma_sum_at_unique(f@, 0, f@[0].0);
        assert(f.count_of(f@[0].0) == f@[0].1 as int);
    }
}

/// A well-formed frontier whose only nonzero count is `v` at `t` holds
/// exactly the one entry `(t, v)`.
pub proof fn lemma_single_entry(f: Frontier, t: u64, v: i64)
    requires
        f.wf(),
        v != 0,
        f.count_of(t) == v as int,
        forall|u: u64| u != t ==> #[trigger] f.count_of(u) == 0,
    ensures
        f@ =~= seq![(t, v)],
{
    assert forall|i: int| 0 <= i < f@.len() implies (#[trigger] f@[i]).0 == t by {
        lemma_sum_at_unique(f@, i, f@[i].0);
        assert(f.count_of(f@[i].0) == f@[i].1 as int);
    }
    if f@.len() == 0 {
        assert(f.count_of(t) == 0);
    }
    if f@.len() > 1 {
        assert(f@[0].0 == t && f@[1].0 == t);
    }
    lemma_sum_at_unique(f@, 0, t);
}

/// The outstanding-progress frontier. Each entry pairs a timestamp with the
/// nonzero signed count of progress outstanding at that time; timestamps are
/// pairwise distinct, so the entry sequence is a finite map.
pub struct Frontier {
    entries: Vec<(u64, i64)>,
}

impl View for Frontier {
    type V = Seq<(u64, i64)>;

    closed spec fn view(&self) -> Seq<(u64, i64)> {
        self.entries@
    }
}

impl Frontier {
    /// Well-formedness: timestamps are pairwise distinct and every stored
    /// count is nonzero with a representable additive inverse.
    pub open spec fn wf(self) -> bool {
        &&& forall|a: int, b: int|
            0 <= a < b < self@.len() ==> (#[trigger] self@[a]).0 != (#[trigger] self@[b]).0
        &&& forall|i: int|
            0 <= i < self@.len() ==> (#[trigger] self@[i]).1 != 0 && self@[i].1 != i64::MIN
    }

    /// The outstanding count at timestamp `t` (zero when `t` is absent).
    pub open spec fn count_of(self, t: u64) -> int {
        sum_at(self@, t)
    }

    /// A well-formed frontier's count at any timestamp has a representable
    /// additive inverse.
    pub proof fn lemma_count_bounds(self, t: u64)
        requires
            self.wf(),
        ensures
            -(i64::MAX as int) <= self.count_of(t) <= i64::MAX as int,
    {
        if exists|i: int| 0 <= i < self@.len() && (#[trigger] self@[i]).0 == t {
            let i = choose|i: int| 0 <= i < self@.len() && (#[trigger] self@[i]).0 == t;
            lemma_sum_at_unique(self@, i, t);
        } else {
            lemma_sum_at_absent(self@, t);
        }
    }

    /// An empty frontier: no timestamp is outstanding.
    pub fn new() -> (f: Frontier)
        ensures
            f.wf(),
            f@.len() == 0,
            forall|u: u64| #[trigger] f.count_of(u) == 0,
    {
        Frontier { entries: Vec::new() }
    }

    /// Whether no timestamp is outstanding.
    pub fn is_empty(&self) -> (r: bool)
        ensures
            r <==> self@.len() == 0,
    {
        self.entries.is_empty()
    }

    /// The position of the entry for `t`, if `t` is outstanding.
    fn find(&self, t: u64) -> (r: Option<usize>)
        ensures
            match r {
                Some(i) => i < self@.len() && self@[i as int].0 == t,
                None => forall|i: int| 0 <= i < self@.len() ==> (#[trigger] self@[i]).0 != t,
            },
    {
        let mut i: usize = 0;
        while i < self.entries.len()
            invariant
                i <= self@.len(),
                forall|j: int| 0 <= j < i ==> (#[trigger] self@[j]).0 != t,
            decreases self@.len() - i,
        {
            if self.entries[i].0 == t {
                return Some(i);
            }
            i = i + 1;
        }
        None
    }

    /// The outstanding count at `t`.
    pub fn count(&self, t: u64) -> (c: i64)
        requires
            self.wf(),
        ensures
            c as int == self.count_of(t),
    {
        match self.find(t) {
            Some(i) => {
                proof {
                    lemma_sum_at_unique(self@, i as int, t);
                }
                self.entries[i].1
            },
            None => {
                proof {
                    lemma_sum_at_absent(self@, t);
                }
                0
            },
        }
    }

    /// Overwrites the count at `t` with `v`, removing the entry when `v` is
    /// zero. Only the count at `t` changes.
    fn set_count(&mut self, t: u64, v: i64)
        requires
            old(self).wf(),
            v != i64::MIN,
        ensures
            final(self).wf(),
            forall|u: u64|
                #[trigger] final(self).count_of(u) == if u == t {
                    v as int
                } else {
                    old(self).count_of(u)
                },
    {
        let ghost pre = self@;
        match self.find(t) {
            Some(i) => {
                proof {
                    lemma_sum_at_unique(pre, i as int, t);
                }
                if v == 0 {
                    let _ = self.entries.remove(i);
                    proof {
                        assert forall|u: u64|
                            #[trigger] self.count_of(u) == if u == t {
                                v as int
                            } else {
                                old(self).count_of(u)
                            } by {
                            lemma_sum_at_remove(pre, i as int, u);
                            if u == t {
                                lemma_sum_at_unique(pre, i as int, t);
                            }
                        }
                        assert forall|a: int, b: int|
                            0 <= a < b < self@.len() implies (#[trigger] self@[a]).0 != (
                        #[trigger] self@[b]).0 by {
                            let a0: int = if a < i { a } else { a + 1 };
                            let b0: int = if b < i { b } else { b + 1 };
                            assert(self@[a] == pre[a0] && self@[b] == pre[b0]);
                        }
                    }
                } else {
                    self.entries[i] = (t, v);
                    proof {
                        assert forall|u: u64|
                            #[trigger] self.count_of(u) == if u == t {
                                v as int
                            } else {
                                old(self).count_of(u)
                            } by {
                            lemma_sum_at_update(pre, i as int, (t, v), u);
                            if u == t {
                                lemma_sum_at_unique(pre, i as int, t);
                            }
                        }
                    }
                }
            },
            None => {
                proof {
                    lemma_sum_at_absent(pre, t);
                }
                if v != 0 {
                    self.entries.push((t, v));
                    proof {
                        assert forall|u: u64|
                            #[trigger] self.count_of(u) == if u == t {
                                v as int
                            } else {
                                old(self).count_of(u)
                            } by {
                            lemma_sum_at_push(pre, (t, v), u);
                            if u != t {
                                lemma_sum_at_absent(pre, t);
                            }
                        }
                    }
                }
            },
        }
    }

    /// Applies one signed delta to the count at `t`, removing the entry when
    /// the count returns to zero. Only the count at `t` changes.
    pub fn update(&mut self, t: u64, delta: i64)
        requires
            old(self).wf(),
            -(i64::MAX as int) <= old(self).count_of(t) + delta <= i64::MAX as int,
        ensures
            final(self).wf(),
            forall|u: u64|
                #[trigger] final(self).count_of(u) == old(self).count_of(u) + if u == t {
                    delta as int
                } else {
                    0int
                },
    {
        let c = self.count(t);
        let nc = c + delta;
        self.set_count(t, nc);
    }

    /// Applies a batch of updates in order. Returns whether every
    /// intermediate count stayed within the representable range; when it did
    /// not, the frontier is left with its original counts.
    #[verifier::rlimit(100)]
    #[verifier::spinoff_prover]
    pub fn apply_all(&mut self, ds: &Vec<(u64, i64)>) -> (r: bool)
        requires
            old(self).wf(),
        ensures
            final(self).wf(),
            r == deltas_fit(old(self)@, ds@),
            r ==> forall|u: u64|
                #[trigger] final(self).count_of(u) == old(self).count_of(u) + sum_at(ds@, u),
            !r ==> forall|u: u64| #[trigger] final(self).count_of(u) == old(self).count_of(u),
    {
        let ghost base = self@;
        proof {
            assert forall|u: u64| -(i64::MAX as int) <= #[trigger] sum_at(base, u) <= i64::MAX
                as int by {
                old(self).lemma_count_bounds(u);
            }
        }
        let mut k: usize = 0;
        let len = ds.len();
        while k < len
            invariant
                base == old(self)@,
                len == ds@.len(),
                k <= len,
                self.wf(),
                forall|u: u64| -(i64::MAX as int) <= #[trigger] sum_at(base, u) <= i64::MAX as int,
                forall|u: u64|
                    #[trigger] self.count_of(u) == sum_at(base, u) + sum_at(
                        ds@.take(k as int),
                        u,
                    ),
                // the validated prefix fits
                forall|k2: int|
                    #![trigger ds@[k2]]
                    0 <= k2 < k ==> {
                        let c = sum_at(base, ds@[k2].0) + sum_at(ds@.take(k2 + 1), ds@[k2].0);
                        -(i64::MAX as int) <= c <= i64::MAX as int
                    },
                // the count each validated step started from is representable
                forall|k2: int|
                    #![trigger ds@[k2]]
                    0 <= k2 < k ==> {
                        let c = sum_at(base, ds@[k2].0) + sum_at(ds@.take(k2), ds@[k2].0);
                        -(i64::MAX as int) <= c <= i64::MAX as int
                    },
            decreases len - k,
        {
            let (t, d) = ds[k];
            let c = self.count(t);
            proof {
                assert(ds@.take(k + 1) =~= ds@.take(k as int).push(ds@[k as int]));
                assert forall|u: u64| #[trigger]
                    sum_at(ds@.take(k + 1), u) == sum_at(ds@.take(k as int), u) + if t == u {
                        d as int
                    } else {
                        0int
                    } by {
                    lemma_sum_at_push(ds@.take(k as int), (t, d), u);
                }
                self.lemma_count_bounds(t);
            }
            let fits = match c.checked_add(d) {
                Some(nc) => nc != i64::MIN,
                None => false,
            };
            if !fits {
                // The update at `k` would take the count at `t` outside the
                // representable range: undo the applied prefix, in reverse,
                // and report that the batch does not fit.
                proof {
                    let k0 = k as int;
                    assert(c as int + d as int == sum_at(base, ds@[k0].0) + sum_at(
                        ds@.take(k0 + 1),
                        ds@[k0].0,
                    ));
                    assert(!({
                        let c2 = sum_at(base, ds@[k0].0) + sum_at(ds@.take(k0 + 1), ds@[k0].0);
                        -(i64::MAX as int) <= c2 <= i64::MAX as int
                    }));
                    assert(!deltas_fit(base, ds@));
                }
                let mut j: usize = k;
                while j > 0
                    invariant
                        base == old(self)@,
                        !deltas_fit(base, ds@),
                        j <= k <= len,
                        len == ds@.len(),
                        self.wf(),
                        forall|u: u64|
                            -(i64::MAX as int) <= #[trigger] sum_at(base, u) <= i64::MAX as int,
                        forall|u: u64|
                            #[trigger] self.count_of(u) == sum_at(base, u) + sum_at(
                                ds@.take(j as int),
                                u,
                            ),
                        forall|k2: int|
                            #![trigger ds@[k2]]
                            0 <= k2 < k ==> {
                                let c = sum_at(base, ds@[k2].0) + sum_at(
                                    ds@.take(k2),
                                    ds@[k2].0,
                                );
                                -(i64::MAX as int) <= c <= i64::MAX as int
                            },
                    decreases j,
                {
                    let (t0, d0) = ds[j - 1];
                    proof {
                        assert(ds@.take(j as int) =~= ds@.take(j - 1).push(ds@[j - 1]));
                        assert forall|u: u64| #[trigger]
                            sum_at(ds@.take(j as int), u) == sum_at(ds@.take(j - 1), u) + if t0
                                == u {
                                d0 as int
                            } else {
                                0int
                            } by {
                            lemma_sum_at_push(ds@.take(j - 1), (t0, d0), u);
                        }
                    }
                    let c0 = self.count(t0);
                    // The count this step returns to is the one step `j - 1`
                    // started from, which is representable.
                    proof {
                        assert(t0 == ds@[j - 1].0 && d0 == ds@[j - 1].1);
                        assert(c0 as int - d0 as int == sum_at(base, t0) + sum_at(
                            ds@.take(j - 1),
                            t0,
                        ));
                        assert(-(i64::MAX as int) <= c0 as int - d0 as int <= i64::MAX as int);
                    }
                    let back = ((c0 as i128) - (d0 as i128)) as i64;
                    self.set_count(t0, back);
                    j = j - 1;
                }
                proof {
                    assert(ds@.take(0) =~= Seq::<(u64, i64)>::empty());
                    assert forall|u: u64|
                        #[trigger] self.count_of(u) == old(self).count_of(u) by {
                        lemma_sum_at_absent(Seq::<(u64, i64)>::empty(), u);
                    }
                }
                return false;
            }
            self.update(t, d);
            k = k + 1;
        }
        proof {
            assert(ds@.take(len as int) =~= ds@);
        }
        true
    }

    /// Collects the retraction of every outstanding timestamp — each entry's
    /// timestamp paired with the additive inverse of its count — and empties
    /// the frontier.
    pub fn drain(&mut self) -> (r: Vec<(u64, i64)>)
        requires
            old(self).wf(),
        ensures
            final(self).wf(),
            final(self)@.len() == 0,
            r@.len() == old(self)@.len(),
            forall|i: int|
                0 <= i < r@.len() ==> (#[trigger] r@[i]).0 == old(self)@[i].0 && r@[i].1 as int
                    == -(old(self)@[i].1 as int),
            forall|u: u64| #[trigger] sum_at(r@, u) == -old(self).count_of(u),
    {
        let ghost pre = self@;
        let mut r: Vec<(u64, i64)> = Vec::new();
        let mut i: usize = 0;
        let len = self.entries.len();
        while i < len
            invariant
                len == pre.len(),
                self@ == pre,
                self.wf(),
                i <= len,
                r@.len() == i,
                forall|j: int|
                    0 <= j < i ==> (#[trigger] r@[j]).0 == pre[j].0 && r@[j].1 as int == -(
                    pre[j].1 as int),
                forall|u: u64| #[trigger] sum_at(r@, u) == -sum_at(pre.take(i as int), u),
            decreases len - i,
        {
            let (t, c) = self.entries[i];
            let nc = 0i64 - c;
            let ghost r0 = r@;
            r.push((t, nc));
            proof {
                assert(pre.take(i + 1) =~= pre.take(i as int).push(pre[i as int]));
                assert forall|u: u64| #[trigger] sum_at(r@, u) == -sum_at(pre.take(i + 1), u) by {
                    lemma_sum_at_push(r0, (t, nc), u);
                    lemma_sum_at_push(pre.take(i as int), pre[i as int], u);
                }
            }
            i = i + 1;
        }
        self.entries.clear();
        proof {
            assert(pre.take(len as int) =~= pre);
        }
        r
    }
}

} // verus!
