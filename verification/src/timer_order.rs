use vstd::prelude::*;
use vstd::seq_lib::*;

use crate::board::{JobBoard, SuspendedStack};

verus! {

/// Sort key of a suspended stack at time `now`: its wake timer, with `now`
/// standing in for stacks that have none (they are "ready now").
pub open spec fn spec_eff_timer(st: SuspendedStack, now: u64) -> u64 {
    match st.timer {
        Some(t) => t,
        None => now,
    }
}

/// Executable form of `spec_eff_timer`.
pub fn eff_timer(st: &SuspendedStack, now: u64) -> (r: u64)
    ensures
        r == spec_eff_timer(*st, now),
{
    match st.timer {
        Some(t) => t,
        None => now,
    }
}

/// Ascending by effective timer.
pub open spec fn sorted_by_timer(s: Seq<SuspendedStack>, now: u64) -> bool {
    forall|i: int, j: int|
        0 <= i < j < s.len() ==> spec_eff_timer(s[i], now) <= spec_eff_timer(s[j], now)
}

/// Stable insertion of `st` into `s`: `st` goes after every element whose
/// key is less than or equal to its own.
pub open spec fn spec_insert_by_timer(s: Seq<SuspendedStack>, st: SuspendedStack, now: u64) -> Seq<
    SuspendedStack,
>
    decreases s.len(),
{
    if s.len() == 0 {
        seq![st]
    } else if spec_eff_timer(s[0], now) <= spec_eff_timer(st, now) {
        seq![s[0]] + spec_insert_by_timer(s.drop_first(), st, now)
    } else {
        seq![st] + s
    }
}

/// Where `spec_insert_by_timer` puts the new element: before the first
/// element whose key is strictly greater.
pub open spec fn spec_insert_pos(s: Seq<SuspendedStack>, st: SuspendedStack, now: u64) -> int
    decreases s.len(),
{
    if s.len() == 0 {
        0
    } else if spec_eff_timer(s[0], now) <= spec_eff_timer(st, now) {
        1 + spec_insert_pos(s.drop_first(), st, now)
    } else {
        0
    }
}

/// Stable insertion sort of suspended stacks by effective timer, ascending.
/// Elements with equal keys keep their relative order.
pub open spec fn spec_sort_by_timer(s: Seq<SuspendedStack>, now: u64) -> Seq<SuspendedStack>
    decreases s.len(),
{
    if s.len() == 0 {
        Seq::empty()
    } else {
        spec_insert_by_timer(spec_sort_by_timer(s.drop_last(), now), s.last(), now)
    }
}

/// The insertion position is a boundary: everything before it has a key at
/// most `st`'s, and the element at it (if any) a strictly greater one; the
/// insertion equals `Seq::insert` at that position.
pub proof fn lemma_insert_by_timer_shape(s: Seq<SuspendedStack>, st: SuspendedStack, now: u64)
    ensures
        0 <= spec_insert_pos(s, st, now) <= s.len(),
        forall|k: int|
            0 <= k < spec_insert_pos(s, st, now) ==> spec_eff_timer(s[k], now) <= spec_eff_timer(
                st,
                now,
            ),
        spec_insert_pos(s, st, now) < s.len() ==> spec_eff_timer(
            s[spec_insert_pos(s, st, now)],
            now,
        ) > spec_eff_timer(st, now),
        spec_insert_by_timer(s, st, now) == s.insert(spec_insert_pos(s, st, now), st),
    decreases s.len(),
{
    let p = spec_insert_pos(s, st, now);
    if s.len() == 0 {
        assert(spec_insert_by_timer(s, st, now) =~= s.insert(0, st));
    } else if spec_eff_timer(s[0], now) <= spec_eff_timer(st, now) {
        let tail = s.drop_first();
        lemma_insert_by_timer_shape(tail, st, now);
        let q = spec_insert_pos(tail, st, now);
        assert(p == 1 + q);
        assert(forall|k: int| 0 <= k < tail.len() ==> tail[k] == s[k + 1]);
        assert forall|k: int|
            0 <= k < p implies spec_eff_timer(s[k], now) <= spec_eff_timer(st, now) by {
            if k > 0 {
                assert(s[k] == tail[k - 1]);
            }
        }
        s.insert_ensures(p, st);
        tail.insert_ensures(q, st);
        let lhs = seq![s[0]] + tail.insert(q, st);
        assert(spec_insert_by_timer(s, st, now) == lhs);
        assert forall|k: int| 0 <= k < lhs.len() implies lhs[k] == s.insert(p, st)[k] by {
            if k == 0 {
            } else if k < p {
                assert(lhs[k] == tail.insert(q, st)[k - 1]);
                assert(tail.insert(q, st)[k - 1] == tail[k - 1]);
            } else if k == p {
                assert(lhs[k] == tail.insert(q, st)[q]);
            } else {
                assert(lhs[k] == tail.insert(q, st)[k - 1]);
                assert(tail.insert(q, st)[(k - 2) + 1] == tail[k - 2]);
                assert(s.insert(p, st)[(k - 1) + 1] == s[k - 1]);
                assert(s[k - 1] == tail[k - 2]);
            }
        }
        assert(spec_insert_by_timer(s, st, now) =~= s.insert(p, st));
    } else {
        assert(spec_insert_by_timer(s, st, now) =~= s.insert(0, st));
    }
}

/// A boundary position is unique: any index with the boundary shape is the
/// insertion position.
pub proof fn lemma_insert_pos_unique(s: Seq<SuspendedStack>, st: SuspendedStack, now: u64, p: int)
    requires
        0 <= p <= s.len(),
        forall|k: int| 0 <= k < p ==> spec_eff_timer(s[k], now) <= spec_eff_timer(st, now),
        p < s.len() ==> spec_eff_timer(s[p], now) > spec_eff_timer(st, now),
    ensures
        p == spec_insert_pos(s, st, now),
    decreases s.len(),
{
    if s.len() > 0 && spec_eff_timer(s[0], now) <= spec_eff_timer(st, now) {
        let tail = s.drop_first();
        assert(forall|k: int| 0 <= k < tail.len() ==> tail[k] == s[k + 1]);
        lemma_insert_pos_unique(tail, st, now, p - 1);
    }
}

/// Inserting into a sorted sequence keeps it sorted.
pub proof fn lemma_insert_by_timer_sorted(s: Seq<SuspendedStack>, st: SuspendedStack, now: u64)
    requires
        sorted_by_timer(s, now),
    ensures
        sorted_by_timer(spec_insert_by_timer(s, st, now), now),
{
    lemma_insert_by_timer_shape(s, st, now);
    let p = spec_insert_pos(s, st, now);
    let r = spec_insert_by_timer(s, st, now);
    s.insert_ensures(p, st);
    assert forall|i: int, j: int| 0 <= i < j < r.len() implies spec_eff_timer(r[i], now)
        <= spec_eff_timer(r[j], now) by {
        if i < p {
            assert(r[i] == s[i]);
        }
        if j < p {
            assert(r[j] == s[j]);
        }
        if i > p {
            assert(r[i] == s[i - 1]);
        }
        if j > p {
            assert(r[j] == s[j - 1]);
        }
    }
}

/// Sorting yields a sorted sequence.
pub proof fn lemma_sort_by_timer_sorted(s: Seq<SuspendedStack>, now: u64)
    ensures
        sorted_by_timer(spec_sort_by_timer(s, now), now),
    decreases s.len(),
{
    if s.len() > 0 {
        lemma_sort_by_timer_sorted(s.drop_last(), now);
        lemma_insert_by_timer_sorted(spec_sort_by_timer(s.drop_last(), now), s.last(), now);
    }
}

/// Sorting permutes: the sorted sequence holds exactly the stacks of the
/// input, with multiplicity.
pub proof fn lemma_sort_by_timer_permutes(s: Seq<SuspendedStack>, now: u64)
    ensures
        spec_sort_by_timer(s, now).to_multiset() == s.to_multiset(),
        spec_sort_by_timer(s, now).len() == s.len(),
    decreases s.len(),
{
    broadcast use vstd::seq_lib::group_to_multiset_ensures;

    if s.len() == 0 {
        assert(spec_sort_by_timer(s, now).to_multiset() =~= s.to_multiset());
    } else {
        let prefix = s.drop_last();
        let sorted_prefix = spec_sort_by_timer(prefix, now);
        lemma_sort_by_timer_permutes(prefix, now);
        lemma_insert_by_timer_shape(sorted_prefix, s.last(), now);
        let p = spec_insert_pos(sorted_prefix, s.last(), now);
        to_multiset_insert(sorted_prefix, p, s.last());
        assert(s =~= prefix.push(s.last()));
        assert(spec_sort_by_timer(s, now).to_multiset() =~= s.to_multiset());
        sorted_prefix.insert_ensures(p, s.last());
    }
}

/// When every key in `s` is at most `st`'s, stable insertion appends.
pub proof fn lemma_insert_by_timer_at_end(s: Seq<SuspendedStack>, st: SuspendedStack, now: u64)
    requires
        forall|k: int| 0 <= k < s.len() ==> spec_eff_timer(s[k], now) <= spec_eff_timer(st, now),
    ensures
        spec_insert_by_timer(s, st, now) == s.push(st),
{
    lemma_insert_pos_unique(s, st, now, s.len() as int);
    lemma_insert_by_timer_shape(s, st, now);
    assert(s.insert(s.len() as int, st) =~= s.push(st));
}

/// Sorting an already sorted sequence returns it unchanged: the tie-break
/// among equal keys is the input order.
pub proof fn lemma_sort_by_timer_identity(s: Seq<SuspendedStack>, now: u64)
    requires
        sorted_by_timer(s, now),
    ensures
        spec_sort_by_timer(s, now) == s,
    decreases s.len(),
{
    if s.len() > 0 {
        let prefix = s.drop_last();
        assert(forall|k: int| 0 <= k < prefix.len() ==> prefix[k] == s[k]);
        assert(sorted_by_timer(prefix, now));
        lemma_sort_by_timer_identity(prefix, now);
        lemma_insert_by_timer_at_end(prefix, s.last(), now);
        assert(spec_sort_by_timer(s, now) =~= s);
    }
}

/// Sorting is idempotent: sorting twice yields the same order as sorting
/// once.
pub proof fn lemma_sort_by_timer_idempotent(s: Seq<SuspendedStack>, now: u64)
    ensures
        spec_sort_by_timer(spec_sort_by_timer(s, now), now) == spec_sort_by_timer(s, now),
{
    lemma_sort_by_timer_sorted(s, now);
    lemma_sort_by_timer_identity(spec_sort_by_timer(s, now), now);
}

/// Inserts `st` into the sorted vector `v`, after every element whose key is
/// at most `st`'s.
fn insert_by_timer(v: &mut Vec<SuspendedStack>, st: SuspendedStack, now: u64)
    ensures
        final(v)@ == spec_insert_by_timer(old(v)@, st, now),
{
    let key = eff_timer(&st, now);
    let n = v.len();
    let mut j: usize = 0;
    while j < n && eff_timer(&v[j], now) <= key
        invariant
            j <= n,
            n == v@.len(),
            key == spec_eff_timer(st, now),
            forall|k: int| 0 <= k < j ==> spec_eff_timer(v@[k], now) <= spec_eff_timer(st, now),
        decreases n - j,
    {
        j += 1;
    }
    proof {
        lemma_insert_pos_unique(v@, st, now, j as int);
        lemma_insert_by_timer_shape(v@, st, now);
    }
    v.insert(j, st);
}

impl JobBoard {
    /// Re-sorts the suspended stacks by effective timer, ascending, keeping
    /// the input order among stacks with equal keys.
    pub fn sort_suspended_stacks(&mut self, now: u64)
        ensures
            final(self).suspended_stacks@ == spec_sort_by_timer(old(self).suspended_stacks@, now),
            sorted_by_timer(final(self).suspended_stacks@, now),
            final(self).active_stack == old(self).active_stack,
            final(self).work_state == old(self).work_state,
            old(self).wf() ==> final(self).wf(),
    {
        let ghost orig = self.suspended_stacks@;
        let ghost pre_active = self.active_stack;
        let ghost pre_work = self.work_state;
        let n = self.suspended_stacks.len();
        let mut sorted_vec: Vec<SuspendedStack> = Vec::new();
        let mut i: usize = 0;
        while i < n
            invariant
                i <= n,
                n == orig.len(),
                self.suspended_stacks@ == orig.skip(i as int),
                sorted_vec@ == spec_sort_by_timer(orig.take(i as int), now),
                self.active_stack == pre_active,
                self.work_state == pre_work,
            decreases n - i,
        {
            let st = self.suspended_stacks.remove(0);
            proof {
                assert(st == orig.skip(i as int)[0]);
                assert(orig.skip(i as int)[0] == orig[i as int]);
                assert(orig.skip(i as int).remove(0) =~= orig.skip(i as int + 1));
                assert(orig.take(i as int + 1).drop_last() =~= orig.take(i as int));
                assert(orig.take(i as int + 1).last() == orig[i as int]);
            }
            insert_by_timer(&mut sorted_vec, st, now);
            i += 1;
        }
        proof {
            assert(orig.take(n as int) =~= orig);
        }
        self.suspended_stacks = sorted_vec;
        proof {
            lemma_sort_by_timer_sorted(orig, now);
            if old(self).wf() {
                broadcast use vstd::seq_lib::group_to_multiset_ensures;

                lemma_sort_by_timer_permutes(orig, now);
                assert forall|k: int|
                    0 <= k < self.suspended_stacks@.len() implies self.suspended_stacks@[k].data@.len()
                    > 0 by {
                    let st = self.suspended_stacks@[k];
                    assert(self.suspended_stacks@.contains(st));
                    assert(orig.to_multiset().count(st) > 0);
                    assert(orig.contains(st));
                }
            }
        }
    }

    /// Appends `stack` and re-sorts, so the board's timer order is restored.
    pub fn add_suspended_stack(&mut self, stack: SuspendedStack, now: u64)
        requires
            stack.data@.len() > 0,
        ensures
            final(self).suspended_stacks@ == spec_sort_by_timer(
                old(self).suspended_stacks@.push(stack),
                now,
            ),
            final(self).suspended_stacks@.len() == old(self).suspended_stacks@.len() + 1,
            final(self).suspended_stacks@.to_multiset() == old(self).suspended_stacks@.push(
                stack,
            ).to_multiset(),
            sorted_by_timer(final(self).suspended_stacks@, now),
            final(self).active_stack == old(self).active_stack,
            final(self).work_state == old(self).work_state,
            old(self).wf() ==> final(self).wf(),
    {
        let ghost pre = *self;
        self.suspended_stacks.push(stack);
        proof {
            if pre.wf() {
                assert forall|i: int|
                    0 <= i < self.suspended_stacks@.len() implies self.suspended_stacks@[i].data@.len()
                    > 0 by {
                    if i < pre.suspended_stacks@.len() {
                        assert(self.suspended_stacks@[i] == pre.suspended_stacks@[i]);
                    }
                }
            }
        }
        self.sort_suspended_stacks(now);
        proof {
            lemma_sort_by_timer_permutes(pre.suspended_stacks@.push(stack), now);
        }
    }
}

} // verus!
