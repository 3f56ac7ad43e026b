//! The k-way merge of sorted runs: each step emits the smallest current head
//! among the runs, ties going to the run with the lower index.

use vstd::prelude::*;
use crate::key::KeyError;
use crate::run::{Run, is_stable_sort, keys_sorted, loaded_runs};

verus! {

/// The key of record `p` of run `i`.
pub open spec fn key_at(runs: Seq<Run>, i: int, p: int) -> int {
    runs[i].records@[p].key as int
}

/// Position `p` of run `i` holds a record.
pub open spec fn valid_pos(runs: Seq<Run>, i: int, p: int) -> bool {
    0 <= i < runs.len() && 0 <= p < runs[i].records@.len()
}

/// The order in which entries leave the merge: by key, then by run index.
pub open spec fn entry_le(k1: int, i1: int, k2: int, i2: int) -> bool {
    k1 < k2 || (k1 == k2 && i1 <= i2)
}

/// The number of records of all runs.
pub open spec fn total_len(runs: Seq<Run>) -> int
    decreases runs.len(),
{
    if runs.len() == 0 {
        0
    } else {
        total_len(runs.drop_last()) + runs.last().records@.len()
    }
}

/// The sum of a sequence of counters.
pub open spec fn sum(s: Seq<usize>) -> int
    decreases s.len(),
{
    if s.len() == 0 {
        0
    } else {
        sum(s.drop_last()) + s.last()
    }
}

proof fn lemma_sum_update(s: Seq<usize>, i: int, v: usize)
    requires
        0 <= i < s.len(),
    ensures
        sum(s.update(i, v)) == sum(s) - s[i] + v,
    decreases s.len(),
{
    if i < s.len() - 1 {
        lemma_sum_update(s.drop_last(), i, v);
        assert(s.update(i, v).drop_last() == s.drop_last().update(i, v));
    } else {
        assert(s.update(i, v).drop_last() == s.drop_last());
    }
}

proof fn lemma_sum_bounded(s: Seq<usize>, runs: Seq<Run>)
    requires
        s.len() == runs.len(),
        forall|i: int| 0 <= i < s.len() ==> s[i] <= #[trigger] runs[i].records@.len(),
    ensures
        sum(s) <= total_len(runs),
        sum(s) == total_len(runs) ==> forall|i: int|
            0 <= i < s.len() ==> s[i] == #[trigger] runs[i].records@.len(),
        (forall|i: int| 0 <= i < s.len() ==> s[i] == #[trigger] runs[i].records@.len()) ==> sum(s)
            == total_len(runs),
    decreases s.len(),
{
    if s.len() > 0 {
        lemma_sum_bounded(s.drop_last(), runs.drop_last());
        assert(s.last() <= runs.last().records@.len());
        assert forall|i: int| 0 <= i < s.len() - 1 implies s.drop_last()[i]
            <= #[trigger] runs.drop_last()[i].records@.len() by {
            assert(s[i] <= runs[i].records@.len());
        }
        if sum(s) == total_len(runs) {
            assert forall|i: int| 0 <= i < s.len() implies s[i] == #[trigger] runs[i].records@.len() by {
                if i < s.len() - 1 {
                    assert(s.drop_last()[i] == runs.drop_last()[i].records@.len());
                }
            }
        }
    }
}

/// The state of a merge: the runs, one cursor per run, the priority entries
/// `(key of the current head, run)` (one for each run that has records
/// left, and no other), and (as a ghost) the positions `(run, index)`
/// emitted so far, in order.
pub struct Merger {
    pub runs: Vec<Run>,
    pub cursors: Vec<usize>,
    pub heads: Vec<(u32, usize)>,
    pub emitted: Ghost<Seq<(int, int)>>,
}

impl Merger {
    /// Run `i` still has records to give.
    pub open spec fn active(&self, i: int) -> bool {
        0 <= i < self.runs@.len() && self.cursors@[i] < self.runs@[i].records@.len()
    }

    /// The key of the current head of run `i`.
    pub open spec fn head_key(&self, i: int) -> int {
        key_at(self.runs@, i, self.cursors@[i] as int)
    }

    /// The key of the `k`-th emitted record.
    pub open spec fn emitted_key(&self, k: int) -> int {
        key_at(self.runs@, self.emitted@[k].0, self.emitted@[k].1)
    }

    /// Run `i` has an entry in the priority structure.
    pub open spec fn is_queued(&self, i: int) -> bool {
        exists|t: int| 0 <= t < self.heads@.len() && #[trigger] self.heads@[t].1 == i
    }

    /// The priority entries are exactly the current heads of the runs that
    /// have records left, one per run.
    pub open spec fn heads_wf(&self) -> bool {
        &&& forall|t: int|
            0 <= t < self.heads@.len() ==> {
                let h = #[trigger] self.heads@[t];
                self.active(h.1 as int) && h.0 as int == self.head_key(h.1 as int)
            }
        &&& forall|i: int| #[trigger] self.active(i) ==> self.is_queued(i)
        &&& forall|t: int, u: int|
            0 <= t < u < self.heads@.len() ==> (#[trigger] self.heads@[t]).1 != (
            #[trigger] self.heads@[u]).1
    }

    /// Position `p` of run `i` is among the emitted ones.
    pub open spec fn was_emitted(&self, i: int, p: int) -> bool {
        exists|k: int| 0 <= k < self.emitted@.len() && #[trigger] self.emitted@[k] == (i, p)
    }

    /// Records not yet emitted.
    pub open spec fn remaining(&self) -> int {
        total_len(self.runs@) - self.emitted@.len()
    }

    /// Run `i` offers the smallest head, ties going to the lowest index.
    pub open spec fn is_min_head(&self, i: int) -> bool {
        &&& self.active(i)
        &&& forall|j: int| #[trigger] self.active(j) ==> entry_le(self.head_key(i), i, self.head_key(j), j)
    }

    pub open spec fn wf(&self) -> bool {
        self.heads_wf() && self.order_wf()
    }

    /// The cursors, and what was emitted so far in the order it was emitted.
    pub open spec fn order_wf(&self) -> bool {
        &&& self.cursors@.len() == self.runs@.len()
        &&& forall|i: int|
            0 <= i < self.runs@.len() ==> #[trigger] self.cursors@[i] <= self.runs@[i].records@.len()
        &&& forall|i: int| 0 <= i < self.runs@.len() ==> keys_sorted(#[trigger] self.runs@[i].records@)
        &&& self.emitted@.len() == sum(self.cursors@)
        // what was emitted is exactly what the cursors have passed
        &&& forall|k: int|
            0 <= k < self.emitted@.len() ==> {
                let e = #[trigger] self.emitted@[k];
                0 <= e.0 < self.runs@.len() && 0 <= e.1 < self.cursors@[e.0]
            }
        &&& forall|i: int, p: int|
            0 <= i < self.runs@.len() && 0 <= p < self.cursors@[i] ==> #[trigger] self.was_emitted(
                i,
                p,
            )
        // within a run, positions come out in order
        &&& forall|k: int, l: int|
            0 <= k < l < self.emitted@.len() && (#[trigger] self.emitted@[k]).0
                == (#[trigger] self.emitted@[l]).0 ==> self.emitted@[k].1 < self.emitted@[l].1
        // emissions ordered by key, then by run
        &&& forall|k: int, l: int|
            0 <= k < l < self.emitted@.len() ==> entry_le(
                #[trigger] self.emitted_key(k),
                self.emitted@[k].0,
                #[trigger] self.emitted_key(l),
                self.emitted@[l].0,
            )
        // and no pending head is smaller than anything emitted
        &&& forall|k: int, j: int|
            0 <= k < self.emitted@.len() && #[trigger] self.active(j) ==> entry_le(
                #[trigger] self.emitted_key(k),
                self.emitted@[k].0,
                self.head_key(j),
                j,
            )
    }

    /// Starts a merge over runs that are each sorted by key.
    pub fn new(runs: Vec<Run>) -> (r: Merger)
        requires
            forall|i: int| 0 <= i < runs@.len() ==> keys_sorted(#[trigger] runs@[i].records@),
        ensures
            r.wf(),
            r.runs@ == runs@,
            r.emitted@ == Seq::<(int, int)>::empty(),
            forall|i: int| 0 <= i < r.cursors@.len() ==> r.cursors@[i] == 0,
    {
        let n = runs.len();
        let mut cursors: Vec<usize> = Vec::new();
        let mut i: usize = 0;
        while i < n
            invariant
                i <= n,
                cursors@.len() == i,
                forall|j: int| 0 <= j < i ==> cursors@[j] == 0,
                sum(cursors@) == 0,
            decreases n - i,
        {
            proof {
                assert(cursors@.push(0).drop_last() == cursors@);
            }
            cursors.push(0);
            i = i + 1;
        }
        let ghost rs = runs@;
        let mut m = Merger { runs, cursors, heads: Vec::new(), emitted: Ghost(Seq::empty()) };
        let mut i: usize = 0;
        while i < n
            invariant
                i <= n,
                n == m.runs@.len(),
                m.runs@ == rs,
                forall|j: int| 0 <= j < rs.len() ==> keys_sorted(#[trigger] rs[j].records@),
                m.emitted@ == Seq::<(int, int)>::empty(),
                sum(m.cursors@) == 0,
                m.cursors@.len() == n,
                forall|j: int| 0 <= j < n ==> m.cursors@[j] == 0,
                forall|t: int|
                    0 <= t < m.heads@.len() ==> {
                        let h = #[trigger] m.heads@[t];
                        h.1 < i && m.active(h.1 as int) && h.0 as int == m.head_key(h.1 as int)
                    },
                forall|j: int| 0 <= j < i && #[trigger] m.active(j) ==> m.is_queued(j),
                forall|t: int, u: int|
                    0 <= t < u < m.heads@.len() ==> (#[trigger] m.heads@[t]).1 < (
                    #[trigger] m.heads@[u]).1,
            decreases n - i,
        {
            if m.runs[i].records.len() > 0 {
                let k = m.runs[i].records[0].key;
                let ghost before = m.heads@;
                let ghost old_m = m;
                m.heads.push((k, i));
                proof {
                    assert(m.heads@[before.len() as int] == (k, i));
                    assert forall|j: int| 0 <= j < i + 1 && #[trigger] m.active(j) implies m.is_queued(j) by {
                        if j == i {
                            assert(m.heads@[before.len() as int].1 == j);
                        } else {
                            assert(old_m.active(j));
                            assert(old_m.is_queued(j));
                            let t = choose|t: int| 0 <= t < before.len() && #[trigger] before[t].1 == j;
                            assert(m.heads@[t].1 == j);
                        }
                    }
                }
            } else {
                proof {
                    assert(!m.active(i as int));
                }
            }
            i = i + 1;
        }
        m
    }

    /// One merge step: takes the smallest current head (lowest run index on
    /// equal keys), advances that run's cursor, and returns the head's
    /// position `(run, index)`; `None` once every run is exhausted.
    pub fn pop(&mut self) -> (r: Option<(usize, usize)>)
        requires
            old(self).wf(),
        ensures
            final(self).wf(),
            final(self).runs@ == old(self).runs@,
            r is None <==> old(self).remaining() == 0,
            r is None <==> forall|i: int| !old(self).active(i),
            r is None ==> final(self).cursors@ == old(self).cursors@ && final(self).emitted@ == old(
                self,
            ).emitted@,
            r is Some ==> {
                let (i, p) = r->Some_0;
                &&& old(self).is_min_head(i as int)
                &&& p == old(self).cursors@[i as int]
                &&& final(self).cursors@ == old(self).cursors@.update(i as int, (p + 1) as usize)
                &&& final(self).emitted@ == old(self).emitted@.push((i as int, p as int))
            },
    {
        proof {
            lemma_sum_bounded(self.cursors@, self.runs@);
        }
        let len = self.heads.len();
        if len == 0 {
            proof {
                assert forall|i: int| !self.active(i) by {
                    if self.active(i) {
                        assert(self.is_queued(i));
                    }
                }
                assert forall|i: int|
                    0 <= i < self.runs@.len() implies self.cursors@[i]
                    == #[trigger] self.runs@[i].records@.len() by {
                    assert(!self.active(i));
                }
            }
            return None;
        }
        let mut best: usize = 0;
        let mut t: usize = 1;
        while t < len
            invariant
                self.wf(),
                len == self.heads@.len(),
                best < t <= len,
                forall|u: int|
                    0 <= u < t ==> entry_le(
                        self.heads@[best as int].0 as int,
                        self.heads@[best as int].1 as int,
                        (#[trigger] self.heads@[u]).0 as int,
                        self.heads@[u].1 as int,
                    ),
            decreases len - t,
        {
            let (k, i) = self.heads[t];
            let (bk, bi) = self.heads[best];
            if k < bk || (k == bk && i < bi) {
                best = t;
            }
            t = t + 1;
        }
        let ghost old_m = *self;
        let (_, b) = self.heads.remove(best);
        proof {
            assert(old_m.heads@[best as int].1 == b);
            assert(old_m.active(b as int));
            assert forall|j: int| #[trigger] old_m.active(j) implies entry_le(old_m.head_key(b as int), b as int, old_m.head_key(j), j) by {
                assert(old_m.is_queued(j));
                let u = choose|u: int| 0 <= u < len && #[trigger] old_m.heads@[u].1 == j;
                assert(entry_le(
                    old_m.heads@[best as int].0 as int,
                    old_m.heads@[best as int].1 as int,
                    old_m.heads@[u].0 as int,
                    old_m.heads@[u].1 as int,
                ));
            }
            assert(old_m.is_min_head(b as int));
        }
        let c = self.cursors[b];
        let rlen = self.runs[b].records.len();
        assert(c < rlen);
        self.cursors.set(b, c + 1);
        self.emitted = Ghost(self.emitted@.push((b as int, c as int)));
        if c + 1 < rlen {
            let nk = self.runs[b].records[c + 1].key;
            self.heads.push((nk, b));
        }
        proof {
            lemma_sum_update(old_m.cursors@, b as int, (c + 1) as usize);
            self.lemma_step(old_m, b as int);
            self.lemma_heads_step(old_m, b as int, best as int);
        }
        Some((b, c))
    }

    proof fn lemma_heads_step(&self, old_m: Merger, b: int, best: int)
        requires
            old_m.wf(),
            0 <= best < old_m.heads@.len(),
            old_m.heads@[best].1 == b,
            self.runs@ == old_m.runs@,
            self.cursors@ == old_m.cursors@.update(b, (old_m.cursors@[b] + 1) as usize),
            self.cursors@[b] == old_m.cursors@[b] + 1,
            self.cursors@[b] < self.runs@[b].records@.len() ==> self.heads@ == old_m.heads@.remove(
                best,
            ).push((self.runs@[b].records@[self.cursors@[b] as int].key, b as usize)),
            self.cursors@[b] >= self.runs@[b].records@.len() ==> self.heads@ == old_m.heads@.remove(
                best,
            ),
        ensures
            self.heads_wf(),
    {
        let rest = old_m.heads@.remove(best);
        assert forall|t: int| 0 <= t < rest.len() implies (#[trigger] rest[t]).1 != b && (t < best
            ==> rest[t] == old_m.heads@[t]) && (t >= best ==> rest[t] == old_m.heads@[t + 1]) by {
            if t < best {
                assert(rest[t] == old_m.heads@[t]);
            } else {
                assert(rest[t] == old_m.heads@[t + 1]);
            }
        }
        assert forall|t: int| 0 <= t < self.heads@.len() implies {
            let h = #[trigger] self.heads@[t];
            self.active(h.1 as int) && h.0 as int == self.head_key(h.1 as int)
        } by {
            if t < rest.len() {
                let h = rest[t];
                assert(self.heads@[t] == h);
                if t < best {
                    assert(old_m.heads@[t] == h);
                } else {
                    assert(old_m.heads@[t + 1] == h);
                }
                assert(self.cursors@[h.1 as int] == old_m.cursors@[h.1 as int]);
            }
        }
        assert forall|i: int| #[trigger] self.active(i) implies self.is_queued(i) by {
            if i == b {
                assert(self.heads@[rest.len() as int].1 == b);
            } else {
                assert(self.cursors@[i] == old_m.cursors@[i]);
                assert(old_m.active(i));
                assert(old_m.is_queued(i));
                let u = choose|u: int| 0 <= u < old_m.heads@.len() && #[trigger] old_m.heads@[u].1 == i;
                if u < best {
                    assert(self.heads@[u].1 == i);
                } else {
                    assert(u != best);
                    assert(self.heads@[u - 1].1 == i);
                }
            }
        }
        assert forall|t: int, u: int|
            0 <= t < u < self.heads@.len() implies (#[trigger] self.heads@[t]).1 != (
            #[trigger] self.heads@[u]).1 by {
            if u < rest.len() {
                let t0 = if t < best { t } else { t + 1 };
                let u0 = if u < best { u } else { u + 1 };
                assert(rest[t] == old_m.heads@[t0]);
                assert(rest[u] == old_m.heads@[u0]);
            } else {
                assert(self.heads@[u].1 == b);
                assert(self.heads@[t] == rest[t]);
            }
        }
    }

    proof fn lemma_step(&self, old_m: Merger, b: int)
        requires
            old_m.wf(),
            old_m.is_min_head(b),
            self.runs@ == old_m.runs@,
            self.cursors@ == old_m.cursors@.update(b, (old_m.cursors@[b] + 1) as usize),
            self.cursors@[b] == old_m.cursors@[b] + 1,
            self.emitted@ == old_m.emitted@.push((b, old_m.cursors@[b] as int)),
            sum(self.cursors@) == sum(old_m.cursors@) + 1,
        ensures
            self.order_wf(),
    {
        let c = old_m.cursors@[b] as int;
        let n = old_m.emitted@.len() as int;
        assert forall|i: int| 0 <= i < self.runs@.len() implies #[trigger] self.cursors@[i]
            <= self.runs@[i].records@.len() by {
            if i != b {
                assert(self.cursors@[i] == old_m.cursors@[i]);
            }
        }
        assert forall|k: int| 0 <= k < self.emitted@.len() implies {
            let e = #[trigger] self.emitted@[k];
            0 <= e.0 < self.runs@.len() && 0 <= e.1 < self.cursors@[e.0]
        } by {
            if k < n {
                let e = old_m.emitted@[k];
                assert(self.emitted@[k] == e);
                assert(0 <= e.1 < old_m.cursors@[e.0]);
                if e.0 != b {
                    assert(self.cursors@[e.0] == old_m.cursors@[e.0]);
                }
            } else {
                assert(self.emitted@[k] == (b, c));
                assert(self.cursors@[b] == c + 1);
            }
        }
        assert(self.emitted_key(n) == old_m.head_key(b));
        assert forall|k: int| 0 <= k < n implies #[trigger] self.emitted_key(k)
            == old_m.emitted_key(k) && self.emitted@[k] == old_m.emitted@[k] by {}
        assert forall|i: int, p: int|
            0 <= i < self.runs@.len() && 0 <= p < self.cursors@[i] implies #[trigger] self.was_emitted(
            i,
            p,
        ) by {
            if i == b && p == c {
                assert(self.emitted@[n] == (i, p));
            } else {
                assert(0 <= p < old_m.cursors@[i]);
                assert(old_m.was_emitted(i, p));
                let k = choose|k: int| 0 <= k < n && #[trigger] old_m.emitted@[k] == (i, p);
                assert(self.emitted@[k] == (i, p));
            }
        }
        assert forall|k: int, l: int|
            0 <= k < l < self.emitted@.len() && (#[trigger] self.emitted@[k]).0
                == (#[trigger] self.emitted@[l]).0 implies self.emitted@[k].1
            < self.emitted@[l].1 by {
            if l == n {
                assert(old_m.emitted@[k] == self.emitted@[k]);
            }
        }
        assert forall|k: int, l: int| 0 <= k < l < self.emitted@.len() implies entry_le(
            #[trigger] self.emitted_key(k),
            self.emitted@[k].0,
            #[trigger] self.emitted_key(l),
            self.emitted@[l].0,
        ) by {
            if l == n {
                assert(old_m.active(b));
                assert(entry_le(old_m.emitted_key(k), old_m.emitted@[k].0, old_m.head_key(b), b));
            } else {
                assert(old_m.emitted_key(l) == self.emitted_key(l));
            }
        }
        assert forall|k: int, j: int|
            0 <= k < self.emitted@.len() && #[trigger] self.active(j) implies entry_le(
            #[trigger] self.emitted_key(k),
            self.emitted@[k].0,
            self.head_key(j),
            j,
        ) by {
            if j == b {
                assert(keys_sorted(self.runs@[b].records@));
                assert(self.runs@[b].records@[c].key <= self.runs@[b].records@[c + 1].key);
                assert(key_at(self.runs@, b, c) <= self.head_key(b));
                if k < n {
                    assert(entry_le(old_m.emitted_key(k), old_m.emitted@[k].0, old_m.head_key(b), b));
                }
            } else {
                assert(old_m.active(j));
                assert(self.head_key(j) == old_m.head_key(j));
                assert(entry_le(old_m.head_key(b), b, old_m.head_key(j), j));
                if k < n {
                    assert(entry_le(old_m.emitted_key(k), old_m.emitted@[k].0, old_m.head_key(j), j));
                }
            }
        }
    }
}

/// The positions `(run, index)` of all records, in the order in which the
/// merge emits them.
pub fn merge_order(runs: Vec<Run>) -> (r: Vec<(usize, usize)>)
    requires
        forall|i: int| 0 <= i < runs@.len() ==> keys_sorted(#[trigger] runs@[i].records@),
    ensures
        // every record comes out exactly once
        r@.len() == total_len(runs@),
        forall|k: int| 0 <= k < r@.len() ==> valid_pos(runs@, (#[trigger] r@[k]).0 as int, r@[k].1 as int),
        forall|i: int, p: int|
            valid_pos(runs@, i, p) ==> exists|k: int|
                0 <= k < r@.len() && #[trigger] r@[k] == (i as usize, p as usize),
        forall|k: int, l: int| 0 <= k < l < r@.len() ==> #[trigger] r@[k] != #[trigger] r@[l],
        // keys never decrease
        forall|k: int, l: int|
            0 <= k < l < r@.len() ==> key_at(runs@, (#[trigger] r@[k]).0 as int, r@[k].1 as int)
                <= key_at(runs@, (#[trigger] r@[l]).0 as int, r@[l].1 as int),
        // records of one run keep their order
        forall|k: int, l: int|
            0 <= k < l < r@.len() && (#[trigger] r@[k]).0 == (#[trigger] r@[l]).0 ==> r@[k].1
                < r@[l].1,
        // equal keys from different runs come by run index
        forall|k: int, l: int|
            0 <= k < l < r@.len() && (#[trigger] r@[k]).0 != (#[trigger] r@[l]).0 && key_at(
                runs@,
                r@[k].0 as int,
                r@[k].1 as int,
            ) == key_at(runs@, r@[l].0 as int, r@[l].1 as int) ==> r@[k].0 < r@[l].0,
{
    let ghost rs = runs@;
    let mut m = Merger::new(runs);
    let mut out: Vec<(usize, usize)> = Vec::new();
    proof {
        lemma_sum_bounded(m.cursors@, m.runs@);
    }
    loop
        invariant
            m.wf(),
            m.runs@ == rs,
            out@.len() == m.emitted@.len(),
            forall|k: int|
                0 <= k < out@.len() ==> m.emitted@[k] == ((#[trigger] out@[k]).0 as int, out@[k].1 as int),
        ensures
            m.wf(),
            m.runs@ == rs,
            m.remaining() == 0,
            out@.len() == m.emitted@.len(),
            forall|k: int|
                0 <= k < out@.len() ==> m.emitted@[k] == ((#[trigger] out@[k]).0 as int, out@[k].1 as int),
        decreases m.remaining(),
    {
        proof {
            lemma_sum_bounded(m.cursors@, m.runs@);
        }
        match m.pop() {
            None => {
                break;
            },
            Some(e) => {
                out.push(e);
                proof {
                    lemma_sum_bounded(m.cursors@, m.runs@);
                }
            },
        }
    }
    proof {
        lemma_sum_bounded(m.cursors@, m.runs@);
        assert forall|i: int, p: int| valid_pos(rs, i, p) implies exists|k: int|
            0 <= k < out@.len() && #[trigger] out@[k] == (i as usize, p as usize) by {
            assert(m.cursors@[i] == rs[i].records@.len());
            assert(m.was_emitted(i, p));
            let k = choose|k: int| 0 <= k < m.emitted@.len() && #[trigger] m.emitted@[k] == (i, p);
            assert(out@[k] == (i as usize, p as usize));
        }
        assert forall|k: int| 0 <= k < out@.len() implies valid_pos(rs, (#[trigger] out@[k]).0 as int, out@[k].1 as int) by {
            let e = m.emitted@[k];
            assert(0 <= e.1 < m.cursors@[e.0]);
        }
        assert forall|k: int, l: int| 0 <= k < l < out@.len() implies key_at(rs, (#[trigger] out@[k]).0 as int, out@[k].1 as int)
                <= key_at(rs, (#[trigger] out@[l]).0 as int, out@[l].1 as int) && (out@[k].0 != out@[l].0 && key_at(
                rs,
                out@[k].0 as int,
                out@[k].1 as int,
            ) == key_at(rs, out@[l].0 as int, out@[l].1 as int) ==> out@[k].0 < out@[l].0)
            && (out@[k].0 == out@[l].0 ==> out@[k].1 < out@[l].1) && out@[k] != out@[l] by {
            assert(entry_le(m.emitted_key(k), m.emitted@[k].0, m.emitted_key(l), m.emitted@[l].0));
            if m.emitted@[k].0 == m.emitted@[l].0 {
                assert(m.emitted@[k].1 < m.emitted@[l].1);
            }
        }
    }
    out
}

/// Sorting the loaded runs keeps every record: the runs handed to the merge
/// hold as many records as the sources that loaded, so the merge emits
/// exactly that many lines.
pub proof fn lemma_prepared_total(loaded: Seq<Result<Run, KeyError>>, prepared: Seq<Run>)
    requires
        prepared.len() == loaded_runs(loaded).len(),
        forall|k: int|
            0 <= k < prepared.len() ==> is_stable_sort(
                loaded_runs(loaded)[k].records@,
                (#[trigger] prepared[k]).records@,
            ),
    ensures
        total_len(prepared) == total_len(loaded_runs(loaded)),
{
    lemma_same_lengths_total(loaded_runs(loaded), prepared);
}

proof fn lemma_same_lengths_total(a: Seq<Run>, b: Seq<Run>)
    requires
        a.len() == b.len(),
        forall|k: int|
            0 <= k < b.len() ==> is_stable_sort(a[k].records@, (#[trigger] b[k]).records@),
    ensures
        total_len(a) == total_len(b),
    decreases a.len(),
{
    if a.len() > 0 {
        let n = a.len() - 1;
        assert(is_stable_sort(a[n].records@, b[n].records@));
        assert(forall|k: int| 0 <= k < n ==> b.drop_last()[k] == b[k] && a.drop_last()[k] == a[k]);
        lemma_same_lengths_total(a.drop_last(), b.drop_last());
    }
}

} // verus!
