use vstd::prelude::*;
use vstd::seq_lib::*;

use crate::job::Job;
use crate::matching::StringMatch;
use crate::timer_order::{lemma_sort_by_timer_permutes, spec_sort_by_timer};

verus! {

/// A parked sequence of jobs, removed from the active stack together.
///
/// `data` preserves the jobs' relative order and is non-empty on every
/// well-formed board.  `timer` is an absolute UTC wake time in seconds; when
/// absent the stack is ready for resumption immediately.
pub struct SuspendedStack {
    pub data: Vec<Job>,
    pub reason: String,
    pub date_suspended: u64,
    pub timer: Option<u64>,
    pub last_notification: Option<u64>,
}

/// Whether the user is in work mode and, if so, since when no time-boxed job
/// has been active.
#[derive(PartialEq, Eq, Structural, Clone, Copy, Debug)]
pub enum WorkState {
    Off,
    Working,
    SlackingSince(u64),
}

/// The typed failures that board operations surface to their caller.
#[derive(PartialEq, Eq, Structural, Clone, Copy, Debug)]
pub enum BoardError {
    /// No job or stack matched a search predicate.
    NotFound,
    /// An operation on the current job found the active stack empty.
    EmptyStack,
    /// A structural index was past the end of the addressed collection.
    IndexOutOfRange,
    /// A file read, write or copy failed.
    IOError,
    /// The persisted state exists, is non-empty, and fails to parse.
    MalformedState,
    /// The injected notification or alarm capability failed.
    NotificationError,
}

/// One user's job board: a LIFO active stack plus timer-ordered suspended
/// stacks and the work-mode marker.
pub struct JobBoard {
    pub active_stack: Vec<Job>,
    pub suspended_stacks: Vec<SuspendedStack>,
    pub work_state: WorkState,
}

/// First index of a job in `jobs` whose label satisfies `m`, scanning from
/// the bottom (index 0) up.
pub open spec fn first_label_match<M: StringMatch>(jobs: Seq<Job>, m: M) -> Option<int>
    decreases jobs.len(),
{
    if jobs.len() == 0 {
        None
    } else if m.matches_spec(jobs[0].label@) {
        Some(0int)
    } else {
        match first_label_match(jobs.drop_first(), m) {
            Some(i) => Some(i + 1),
            None => None,
        }
    }
}

/// What `first_label_match` returns: the first matching index, or `None`
/// when no label matches.
pub proof fn lemma_first_label_match<M: StringMatch>(jobs: Seq<Job>, m: M)
    ensures
        match first_label_match(jobs, m) {
            Some(i) => 0 <= i < jobs.len() && m.matches_spec(jobs[i].label@) && (forall|k: int|
                0 <= k < i ==> !m.matches_spec(jobs[k].label@)),
            None => forall|k: int| 0 <= k < jobs.len() ==> !m.matches_spec(jobs[k].label@),
        },
    decreases jobs.len(),
{
    if jobs.len() > 0 && !m.matches_spec(jobs[0].label@) {
        lemma_first_label_match(jobs.drop_first(), m);
        assert(forall|k: int| 1 <= k < jobs.len() ==> jobs[k] == jobs.drop_first()[k - 1]);
    }
}

/// Converse direction: an index with the "first match" shape is the value of
/// `first_label_match`.
pub proof fn lemma_first_label_match_some<M: StringMatch>(jobs: Seq<Job>, m: M, i: int)
    requires
        0 <= i < jobs.len(),
        m.matches_spec(jobs[i].label@),
        forall|k: int| 0 <= k < i ==> !m.matches_spec(jobs[k].label@),
    ensures
        first_label_match(jobs, m) == Some(i),
    decreases jobs.len(),
{
    if i > 0 {
        lemma_first_label_match_some(jobs.drop_first(), m, i - 1);
        assert(forall|k: int| 1 <= k < jobs.len() ==> jobs[k] == jobs.drop_first()[k - 1]);
        assert(jobs.drop_first()[i - 1] == jobs[i]);
    }
}

/// Converse direction: when no label matches, `first_label_match` is `None`.
pub proof fn lemma_first_label_match_none<M: StringMatch>(jobs: Seq<Job>, m: M)
    requires
        forall|k: int| 0 <= k < jobs.len() ==> !m.matches_spec(jobs[k].label@),
    ensures
        first_label_match(jobs, m).is_none(),
{
    lemma_first_label_match(jobs, m);
    if first_label_match(jobs, m).is_some() {
        assert(false);
    }
}

impl JobBoard {
    /// Every suspended stack on a well-formed board holds at least one job.
    pub open spec fn wf(self) -> bool {
        forall|i: int|
            0 <= i < self.suspended_stacks@.len() ==> self.suspended_stacks@[i].data@.len() > 0
    }

    /// Appends `job` to the top of the active stack.
    pub fn push(&mut self, job: Job)
        ensures
            final(self).active_stack@ == old(self).active_stack@.push(job),
            final(self).suspended_stacks == old(self).suspended_stacks,
            final(self).work_state == old(self).work_state,
    {
        self.active_stack.push(job);
    }

    /// Removes and returns the top of the active stack; `None` if it is
    /// empty.
    pub fn pop(&mut self) -> (r: Option<Job>)
        ensures
            old(self).active_stack@.len() == 0 ==> r.is_none() && final(self).active_stack@
                == old(self).active_stack@,
            old(self).active_stack@.len() > 0 ==> r == Some(old(self).active_stack@.last())
                && final(self).active_stack@ == old(self).active_stack@.drop_last(),
            final(self).suspended_stacks == old(self).suspended_stacks,
            final(self).work_state == old(self).work_state,
    {
        self.active_stack.pop()
    }

    /// Linear scan of the active stack from the bottom (index 0) for the
    /// first job whose label satisfies `matcher`.
    pub fn find_job<M: StringMatch>(&self, matcher: &M) -> (r: Option<usize>)
        ensures
            match r {
                Some(i) => first_label_match(self.active_stack@, *matcher) == Some(i as int),
                None => first_label_match(self.active_stack@, *matcher).is_none(),
            },
    {
        let n = self.active_stack.len();
        let mut i: usize = 0;
        while i < n
            invariant
                i <= n,
                n == self.active_stack@.len(),
                forall|k: int| 0 <= k < i ==> !matcher.matches_spec(self.active_stack@[k].label@),
            decreases n - i,
        {
            if matcher.matches(self.active_stack[i].label.as_str()) {
                proof {
                    lemma_first_label_match_some(self.active_stack@, *matcher, i as int);
                }
                return Some(i);
            }
            i += 1;
        }
        proof {
            lemma_first_label_match_none(self.active_stack@, *matcher);
        }
        None
    }
}

/// The stack a suspend operation builds: the jobs of `jobs` from `index` up,
/// in order, with the given reason and wake timer, stamped at `now` and never
/// yet notified.
pub open spec fn suspended_from(
    st: SuspendedStack,
    jobs: Seq<Job>,
    index: int,
    reason: String,
    timer: Option<u64>,
    now: u64,
) -> bool {
    &&& st.data@ == jobs.skip(index)
    &&& st.reason == reason
    &&& st.date_suspended == now
    &&& st.timer == timer
    &&& st.last_notification.is_none()
}

/// How a successful `suspend_at` changes the board: the suffix of the active
/// stack from `index` up moves into the new stack `st`, and the suspended
/// stacks are re-sorted by effective timer.
pub open spec fn spec_suspend_at(
    pre: JobBoard,
    post: JobBoard,
    st: SuspendedStack,
    index: int,
    reason: String,
    timer: Option<u64>,
    now: u64,
) -> bool {
    &&& suspended_from(st, pre.active_stack@, index, reason, timer, now)
    &&& post.active_stack@ == pre.active_stack@.take(index)
    &&& post.suspended_stacks@ == spec_sort_by_timer(pre.suspended_stacks@.push(st), now)
    &&& post.work_state == pre.work_state
}

/// How a successful `resume_at_index` changes the board: the stack at
/// `index` leaves the suspended stacks and its jobs are appended to the
/// active stack in their original relative order, each with `begin_date`
/// refreshed to `now`.
pub open spec fn spec_resume_at(pre: JobBoard, post: JobBoard, index: int, now: u64) -> bool {
    let st = pre.suspended_stacks@[index];
    &&& post.active_stack@.len() == pre.active_stack@.len() + st.data@.len()
    &&& post.active_stack@.take(pre.active_stack@.len() as int) == pre.active_stack@
    &&& forall|k: int|
        0 <= k < st.data@.len() ==> post.active_stack@[pre.active_stack@.len() + k] == (Job {
            label: st.data@[k].label,
            begin_date: now,
            timebox: st.data@[k].timebox,
            last_notification: st.data@[k].last_notification,
        })
    &&& post.suspended_stacks@ == pre.suspended_stacks@.remove(index)
    &&& post.work_state == pre.work_state
}

/// First index of a suspended stack whose leading job's label satisfies `m`.
pub open spec fn first_stack_match<M: StringMatch>(stacks: Seq<SuspendedStack>, m: M) -> Option<
    int,
>
    decreases stacks.len(),
{
    if stacks.len() == 0 {
        None
    } else if m.matches_spec(stacks[0].data@[0].label@) {
        Some(0int)
    } else {
        match first_stack_match(stacks.drop_first(), m) {
            Some(i) => Some(i + 1),
            None => None,
        }
    }
}

/// What `first_stack_match` returns: the first matching index, or `None`
/// when no stack's leading label matches.
pub proof fn lemma_first_stack_match<M: StringMatch>(stacks: Seq<SuspendedStack>, m: M)
    ensures
        match first_stack_match(stacks, m) {
            Some(i) => 0 <= i < stacks.len() && m.matches_spec(stacks[i].data@[0].label@) && (
            forall|k: int| 0 <= k < i ==> !m.matches_spec(stacks[k].data@[0].label@)),
            None => forall|k: int|
                0 <= k < stacks.len() ==> !m.matches_spec(stacks[k].data@[0].label@),
        },
    decreases stacks.len(),
{
    if stacks.len() > 0 && !m.matches_spec(stacks[0].data@[0].label@) {
        lemma_first_stack_match(stacks.drop_first(), m);
        assert(forall|k: int| 1 <= k < stacks.len() ==> stacks[k] == stacks.drop_first()[k - 1]);
    }
}

/// Converse direction: an index with the "first match" shape is the value of
/// `first_stack_match`.
pub proof fn lemma_first_stack_match_some<M: StringMatch>(
    stacks: Seq<SuspendedStack>,
    m: M,
    i: int,
)
    requires
        0 <= i < stacks.len(),
        m.matches_spec(stacks[i].data@[0].label@),
        forall|k: int| 0 <= k < i ==> !m.matches_spec(stacks[k].data@[0].label@),
    ensures
        first_stack_match(stacks, m) == Some(i),
    decreases stacks.len(),
{
    if i > 0 {
        lemma_first_stack_match_some(stacks.drop_first(), m, i - 1);
        assert(forall|k: int| 1 <= k < stacks.len() ==> stacks[k] == stacks.drop_first()[k - 1]);
        assert(stacks.drop_first()[i - 1] == stacks[i]);
    }
}

/// Converse direction: when no leading label matches, `first_stack_match` is
/// `None`.
pub proof fn lemma_first_stack_match_none<M: StringMatch>(stacks: Seq<SuspendedStack>, m: M)
    requires
        forall|k: int| 0 <= k < stacks.len() ==> !m.matches_spec(stacks[k].data@[0].label@),
    ensures
        first_stack_match(stacks, m).is_none(),
{
    lemma_first_stack_match(stacks, m);
    if first_stack_match(stacks, m).is_some() {
        assert(false);
    }
}

impl JobBoard {
    /// Splits the active stack at `index`, moving `[index..]` — the current
    /// top included — into a new suspended stack; fails when `index` is past
    /// the end.
    pub fn suspend_at(
        &mut self,
        index: usize,
        reason: String,
        timer: Option<u64>,
        now: u64,
    ) -> (r: Result<(), BoardError>)
        requires
            old(self).wf(),
        ensures
            index >= old(self).active_stack@.len() ==> r == Err::<(), BoardError>(
                BoardError::IndexOutOfRange,
            ) && *final(self) == *old(self),
            index < old(self).active_stack@.len() ==> r == Ok::<(), BoardError>(())
                && final(self).active_stack@.len() == index
                && final(self).suspended_stacks@.len() == old(self).suspended_stacks@.len() + 1
                && (exists|st: SuspendedStack|
                #[trigger] spec_suspend_at(
                    *old(self),
                    *final(self),
                    st,
                    index as int,
                    reason,
                    timer,
                    now,
                )),
            final(self).wf(),
    {
        if index >= self.active_stack.len() {
            return Err(BoardError::IndexOutOfRange);
        }
        let jobs_to_suspend = self.active_stack.split_off(index);
        let suspended_stack = SuspendedStack {
            data: jobs_to_suspend,
            reason,
            date_suspended: now,
            timer,
            last_notification: None,
        };
        proof {
            assert(suspended_stack.data@ =~= old(self).active_stack@.skip(index as int));
            assert(self.active_stack@ =~= old(self).active_stack@.take(index as int));
        }
        let ghost new_stack = suspended_stack;
        self.add_suspended_stack(suspended_stack, now);
        proof {
            assert(spec_suspend_at(
                *old(self),
                *self,
                new_stack,
                index as int,
                reason,
                timer,
                now,
            ));
        }
        Ok(())
    }

    /// Suspends from the first job whose label satisfies `matcher` up; fails
    /// with `NotFound` when no label matches.
    pub fn suspend_matching<M: StringMatch>(
        &mut self,
        matcher: &M,
        reason: String,
        timer: Option<u64>,
        now: u64,
    ) -> (r: Result<(), BoardError>)
        requires
            old(self).wf(),
        ensures
            first_label_match(old(self).active_stack@, *matcher).is_none() ==> r == Err::<
                (),
                BoardError,
            >(BoardError::NotFound) && *final(self) == *old(self),
            match first_label_match(old(self).active_stack@, *matcher) {
                Some(i) => r == Ok::<(), BoardError>(()) && (exists|st: SuspendedStack|
                    #[trigger] spec_suspend_at(*old(self), *final(self), st, i, reason, timer, now)),
                None => true,
            },
            final(self).wf(),
    {
        proof {
            lemma_first_label_match(self.active_stack@, *matcher);
        }
        match self.find_job(matcher) {
            Some(i) => self.suspend_at(i, reason, timer, now),
            None => Err(BoardError::NotFound),
        }
    }

    /// Suspends only the current (top) job; fails with `EmptyStack` when
    /// nothing is active.
    pub fn suspend_current(&mut self, reason: String, timer: Option<u64>, now: u64) -> (r: Result<
        (),
        BoardError,
    >)
        requires
            old(self).wf(),
        ensures
            old(self).active_stack@.len() == 0 ==> r == Err::<(), BoardError>(
                BoardError::EmptyStack,
            ) && *final(self) == *old(self),
            old(self).active_stack@.len() > 0 ==> r == Ok::<(), BoardError>(()) && (exists|
                st: SuspendedStack,
            |
                #[trigger] spec_suspend_at(
                    *old(self),
                    *final(self),
                    st,
                    old(self).active_stack@.len() - 1,
                    reason,
                    timer,
                    now,
                )),
            final(self).wf(),
    {
        if self.active_stack.len() == 0 {
            return Err(BoardError::EmptyStack);
        }
        let idx = self.active_stack.len() - 1;
        self.suspend_at(idx, reason, timer, now)
    }

    /// Removes the suspended stack at `index` and returns its jobs to the
    /// top of the active stack, in their original relative order, each with
    /// `begin_date` refreshed to `now`; fails when `index` is past the end.
    pub fn resume_at_index(&mut self, index: usize, now: u64) -> (r: Result<(), BoardError>)
        requires
            old(self).wf(),
        ensures
            index >= old(self).suspended_stacks@.len() ==> r == Err::<(), BoardError>(
                BoardError::IndexOutOfRange,
            ) && *final(self) == *old(self),
            index < old(self).suspended_stacks@.len() ==> r == Ok::<(), BoardError>(())
                && spec_resume_at(*old(self), *final(self), index as int, now)
                && final(self).suspended_stacks@.len() == old(self).suspended_stacks@.len() - 1,
            final(self).wf(),
    {
        if index >= self.suspended_stacks.len() {
            return Err(BoardError::IndexOutOfRange);
        }
        let ghost pre = *self;
        let mut stack = self.suspended_stacks.remove(index);
        let ghost orig_data = stack.data@;
        proof {
            assert forall|k: int|
                0 <= k < self.suspended_stacks@.len() implies self.suspended_stacks@[k].data@.len()
                > 0 by {
                pre.suspended_stacks@.remove_ensures(index as int);
            }
        }
        let n = stack.data.len();
        let mut moved: usize = 0;
        while moved < n
            invariant
                moved <= n,
                n == orig_data.len(),
                stack.data@ == orig_data.skip(moved as int),
                self.active_stack@.len() == pre.active_stack@.len() + moved,
                self.active_stack@.take(pre.active_stack@.len() as int) == pre.active_stack@,
                forall|k: int|
                    0 <= k < moved ==> self.active_stack@[pre.active_stack@.len() + k] == (Job {
                        label: orig_data[k].label,
                        begin_date: now,
                        timebox: orig_data[k].timebox,
                        last_notification: orig_data[k].last_notification,
                    }),
                self.suspended_stacks@ == pre.suspended_stacks@.remove(index as int),
                self.work_state == pre.work_state,
            decreases n - moved,
        {
            let mut job = stack.data.remove(0);
            proof {
                assert(job == orig_data[moved as int]);
                assert(orig_data.skip(moved as int).remove(0) =~= orig_data.skip(
                    moved as int + 1,
                ));
            }
            job.begin_date = now;
            self.active_stack.push(job);
            proof {
                assert(self.active_stack@.take(pre.active_stack@.len() as int)
                    =~= pre.active_stack@);
            }
            moved += 1;
        }
        Ok(())
    }

    /// Scans the suspended stacks in their current (timer-sorted) order for
    /// the first whose leading job's label satisfies `matcher`, and resumes
    /// it; fails with `NotFound` when none matches — in particular whenever
    /// there are no suspended stacks at all.
    pub fn resume_matching<M: StringMatch>(&mut self, matcher: &M, now: u64) -> (r: Result<
        (),
        BoardError,
    >)
        requires
            old(self).wf(),
        ensures
            first_stack_match(old(self).suspended_stacks@, *matcher).is_none() ==> r == Err::<
                (),
                BoardError,
            >(BoardError::NotFound) && *final(self) == *old(self),
            match first_stack_match(old(self).suspended_stacks@, *matcher) {
                Some(i) => r == Ok::<(), BoardError>(()) && spec_resume_at(
                    *old(self),
                    *final(self),
                    i,
                    now,
                ),
                None => true,
            },
            old(self).suspended_stacks@.len() == 0 ==> r == Err::<(), BoardError>(
                BoardError::NotFound,
            ) && *final(self) == *old(self),
            final(self).wf(),
    {
        let n = self.suspended_stacks.len();
        let mut i: usize = 0;
        while i < n
            invariant
                i <= n,
                n == self.suspended_stacks@.len(),
                *self == *old(self),
                self.wf(),
                forall|k: int|
                    0 <= k < i ==> !matcher.matches_spec(
                        self.suspended_stacks@[k].data@[0].label@,
                    ),
            decreases n - i,
        {
            if matcher.matches(self.suspended_stacks[i].data[0].label.as_str()) {
                proof {
                    lemma_first_stack_match_some(self.suspended_stacks@, *matcher, i as int);
                }
                return self.resume_at_index(i, now);
            }
            i += 1;
        }
        proof {
            lemma_first_stack_match_none(self.suspended_stacks@, *matcher);
        }
        Err(BoardError::NotFound)
    }
}

/// A single-job suspended stack created directly in the parked state.
pub open spec fn spec_new_suspended(
    st: SuspendedStack,
    label: String,
    reason: String,
    timer: Option<u64>,
    now: u64,
) -> bool {
    &&& st.data@ == seq![
        (Job { label: label, begin_date: now, timebox: None, last_notification: None }),
    ]
    &&& st.reason == reason
    &&& st.date_suspended == now
    &&& st.timer == timer
    &&& st.last_notification.is_none()
}

impl JobBoard {
    /// Creates a new suspended stack holding one fresh job, bypassing the
    /// active stack entirely.
    pub fn create_suspended_job(&mut self, label: String, reason: String, timer: Option<u64>, now: u64)
        requires
            old(self).wf(),
        ensures
            exists|st: SuspendedStack|
                #[trigger] spec_new_suspended(st, label, reason, timer, now)
                    && final(self).suspended_stacks@ == spec_sort_by_timer(
                    old(self).suspended_stacks@.push(st),
                    now,
                ),
            final(self).active_stack == old(self).active_stack,
            final(self).work_state == old(self).work_state,
            final(self).wf(),
    {
        let job = Job { label, begin_date: now, timebox: None, last_notification: None };
        let mut data: Vec<Job> = Vec::new();
        data.push(job);
        let new_stack = SuspendedStack {
            data,
            reason,
            date_suspended: now,
            timer,
            last_notification: None,
        };
        let ghost st_ghost = new_stack;
        proof {
            assert(st_ghost.data@ =~= seq![st_ghost.data@[0]]);
        }
        self.add_suspended_stack(new_stack, now);
        proof {
            assert(spec_new_suspended(st_ghost, label, reason, timer, now));
        }
    }

    /// Pushes a fresh job with the given label, time-box and begin date,
    /// unless the current (top) job is itself time-boxed: time-boxed jobs
    /// cannot receive subtasks, and the board is then left unchanged.
    pub fn push_new_job(&mut self, label: String, timebox: Option<u64>, begin_date: u64) -> (r:
        bool)
        ensures
            ({
                let blocked = old(self).active_stack@.len() > 0 && old(self).active_stack@.last().timebox.is_some();
                if blocked {
                    !r && *final(self) == *old(self)
                } else {
                    r && final(self).active_stack@ == old(self).active_stack@.push(
                        (Job {
                            label: label,
                            begin_date: begin_date,
                            timebox: timebox,
                            last_notification: None,
                        }),
                    ) && final(self).suspended_stacks == old(self).suspended_stacks && final(self).work_state == old(self).work_state
                }
            }),
    {
        if self.active_stack.len() > 0 {
            let top = &self.active_stack[self.active_stack.len() - 1];
            if top.timebox.is_some() {
                return false;
            }
        }
        self.active_stack.push(Job { label, begin_date, timebox, last_notification: None });
        true
    }

    /// Replaces (or removes) the current job's time-box and refreshes its
    /// begin date to `now`, so the new time-box is measured from now; returns
    /// false and leaves the board unchanged when nothing is active.
    pub fn apply_timebox(&mut self, timebox: Option<u64>, now: u64) -> (r: bool)
        ensures
            old(self).active_stack@.len() == 0 ==> !r && *final(self) == *old(self),
            old(self).active_stack@.len() > 0 ==> r && final(self).active_stack@ == old(self).active_stack@.update(
                old(self).active_stack@.len() - 1,
                (Job {
                    label: old(self).active_stack@.last().label,
                    begin_date: now,
                    timebox: timebox,
                    last_notification: old(self).active_stack@.last().last_notification,
                }),
            ),
            final(self).suspended_stacks == old(self).suspended_stacks,
            final(self).work_state == old(self).work_state,
    {
        if self.active_stack.len() == 0 {
            return false;
        }
        match self.active_stack.pop() {
            Some(mut job) => {
                job.timebox = timebox;
                job.begin_date = now;
                self.active_stack.push(job);
                proof {
                    assert(self.active_stack@ =~= old(self).active_stack@.update(
                        old(self).active_stack@.len() - 1,
                        self.active_stack@.last(),
                    ));
                }
                true
            },
            None => false,
        }
    }

    /// The UTC instant at which the current job's time-box runs out, when
    /// there is a current job with a time-box whose expiry fits in the
    /// representable range.
    pub fn current_timebox_expiry(&self) -> (r: Option<u64>)
        ensures
            match r {
                Some(e) => self.active_stack@.len() > 0
                    && self.active_stack@.last().timebox.is_some() && e == self.active_stack@.last().begin_date
                    + self.active_stack@.last().timebox.unwrap(),
                None => self.active_stack@.len() == 0
                    || self.active_stack@.last().timebox.is_none()
                    || self.active_stack@.last().begin_date
                    + self.active_stack@.last().timebox.unwrap() > u64::MAX,
            },
    {
        if self.active_stack.len() == 0 {
            return None;
        }
        let job = &self.active_stack[self.active_stack.len() - 1];
        match job.timebox {
            Some(tb) => job.begin_date.checked_add(tb),
            None => None,
        }
    }
}

/// The board's topmost-priority suspended stack is ready: it exists and
/// either has no timer or its timer has passed.  Topmost priority means
/// first in the ascending timer order — the stack a plain resume takes.
pub open spec fn spec_suspended_ready(board: JobBoard, now: u64) -> bool {
    board.suspended_stacks@.len() > 0 && match board.suspended_stacks@[0].timer {
        Some(t) => t <= now,
        None => true,
    }
}

impl JobBoard {
    /// Whether a suspended stack is ready for resumption, deciding between
    /// the "resume the topmost suspended task" and the generic "no jobs"
    /// message when the active stack is empty.
    pub fn suspended_tasks_ready(&self, now: u64) -> (r: bool)
        ensures
            r == spec_suspended_ready(*self, now),
    {
        if self.suspended_stacks.len() == 0 {
            return false;
        }
        let st = &self.suspended_stacks[0];
        match st.timer {
            Some(t) => t <= now,
            None => true,
        }
    }
}

/// Push-then-pop conservation: pushing a job and popping right after
/// returns that very job unchanged and restores the stack, and the length
/// moves by exactly one in each direction.  This connects `push`'s and
/// `pop`'s contracts: after `push(job)` the stack is `s.push(job)`, and
/// `pop` on it returns its last element and leaves `drop_last`.
pub proof fn lemma_push_pop_round_trip(s: Seq<Job>, job: Job)
    ensures
        s.push(job).last() == job,
        s.push(job).drop_last() == s,
        s.push(job).len() == s.len() + 1,
{
    assert(s.push(job).drop_last() =~= s);
}

/// The stack a suspend creates is present on the resulting board, at some
/// index of the re-sorted suspended stacks.
pub proof fn lemma_new_stack_present(
    pre: JobBoard,
    post: JobBoard,
    st: SuspendedStack,
    index: int,
    reason: String,
    timer: Option<u64>,
    now: u64,
)
    requires
        spec_suspend_at(pre, post, st, index, reason, timer, now),
    ensures
        exists|j: int|
            0 <= j < post.suspended_stacks@.len() && post.suspended_stacks@[j] == st,
{
    broadcast use vstd::seq_lib::group_to_multiset_ensures;

    let pushed = pre.suspended_stacks@.push(st);
    lemma_sort_by_timer_permutes(pushed, now);
    assert(pushed[pre.suspended_stacks@.len() as int] == st);
    assert(pushed.contains(st));
    assert(post.suspended_stacks@.to_multiset().count(st) > 0);
    assert(post.suspended_stacks@.contains(st));
}

/// Suspend-then-resume round trip: suspending the suffix of the active
/// stack from `index` up and immediately resuming that same stack restores
/// exactly those jobs to the top of the active stack, in their original
/// relative order, each with `begin_date` refreshed to the resume instant;
/// everything below `index` is untouched.
pub proof fn lemma_suspend_resume_round_trip(
    pre: JobBoard,
    mid: JobBoard,
    post: JobBoard,
    st: SuspendedStack,
    index: int,
    j: int,
    reason: String,
    timer: Option<u64>,
    now1: u64,
    now2: u64,
)
    requires
        0 <= index < pre.active_stack@.len(),
        spec_suspend_at(pre, mid, st, index, reason, timer, now1),
        0 <= j < mid.suspended_stacks@.len(),
        mid.suspended_stacks@[j] == st,
        spec_resume_at(mid, post, j, now2),
    ensures
        post.active_stack@.len() == pre.active_stack@.len(),
        post.active_stack@.take(index) == pre.active_stack@.take(index),
        forall|k: int|
            index <= k < pre.active_stack@.len() ==> post.active_stack@[k] == (Job {
                label: pre.active_stack@[k].label,
                begin_date: now2,
                timebox: pre.active_stack@[k].timebox,
                last_notification: pre.active_stack@[k].last_notification,
            }),
        post.work_state == pre.work_state,
{
    let n = pre.active_stack@.len() as int;
    assert(st.data@ == pre.active_stack@.skip(index));
    assert(st.data@.len() == n - index);
    assert(mid.active_stack@ == pre.active_stack@.take(index));
    assert(mid.active_stack@.len() == index);
    assert(post.active_stack@.len() == n);
    assert(post.active_stack@.take(index) =~= pre.active_stack@.take(index)) by {
        assert(post.active_stack@.take(mid.active_stack@.len() as int) == mid.active_stack@);
        assert(forall|k: int|
            0 <= k < index ==> post.active_stack@.take(index)[k] == post.active_stack@[k]);
    }
    assert forall|k: int| index <= k < n implies post.active_stack@[k] == (Job {
        label: pre.active_stack@[k].label,
        begin_date: now2,
        timebox: pre.active_stack@[k].timebox,
        last_notification: pre.active_stack@[k].last_notification,
    }) by {
        assert(post.active_stack@[mid.active_stack@.len() + (k - index)] == (Job {
            label: st.data@[k - index].label,
            begin_date: now2,
            timebox: st.data@[k - index].timebox,
            last_notification: st.data@[k - index].last_notification,
        }));
        assert(st.data@[k - index] == pre.active_stack@.skip(index)[k - index]);
        assert(pre.active_stack@.skip(index)[k - index] == pre.active_stack@[k]);
    }
}

impl Default for JobBoard {
    /// A fresh board: nothing active, nothing suspended, work mode off.
    fn default() -> (r: JobBoard)
        ensures
            r.active_stack@.len() == 0,
            r.suspended_stacks@.len() == 0,
            r.work_state == WorkState::Off,
            r.wf(),
    {
        JobBoard {
            active_stack: Vec::new(),
            suspended_stacks: Vec::new(),
            work_state: WorkState::Off,
        }
    }
}

} // verus!
