use vstd::prelude::*;

use crate::board::{JobBoard, SuspendedStack, WorkState};
use crate::job::{spec_timebox_expired, Job};

verus! {

/// Seconds a reminder for one subject is suppressed after one has fired.
pub const NOTIFICATION_COOLDOWN_SECONDS: u64 = 30;

/// Seconds of continuous slacking before the idle escalation alarm fires.
pub const SLACK_ESCALATION_SECONDS: u64 = 300;

/// What one tick of the reminder evaluation decided: whether to sound the
/// alarm, and whether the board changed and must be persisted.
#[derive(PartialEq, Eq, Structural, Clone, Copy, Debug)]
pub struct TimerState {
    pub send_alarm: bool,
    pub needs_save: bool,
}

/// A notification is permitted if none was ever sent for this subject, or
/// the cooldown has elapsed since the last one; `force` bypasses the
/// cooldown entirely.
pub open spec fn spec_should_notify(last: Option<u64>, now: u64, force: bool) -> bool {
    force || match last {
        None => true,
        Some(t) => now - t > NOTIFICATION_COOLDOWN_SECONDS,
    }
}

/// Executable form of `spec_should_notify`.
pub fn should_notify(last: &Option<u64>, now: u64, force: bool) -> (r: bool)
    ensures
        r == spec_should_notify(*last, now, force),
{
    if force {
        return true;
    }
    match last {
        None => true,
        Some(t) => now > t.saturating_add(NOTIFICATION_COOLDOWN_SECONDS),
    }
}

/// An active job fires a reminder when its time-box has expired and its
/// de-dup state allows a new notification.
pub open spec fn job_fires(job: Job, now: u64, force: bool) -> bool {
    spec_timebox_expired(job, now) && spec_should_notify(job.last_notification, now, force)
}

/// A suspended stack's wake timer is set and has passed.
pub open spec fn spec_timer_passed(st: SuspendedStack, now: u64) -> bool {
    match st.timer {
        Some(t) => t <= now,
        None => false,
    }
}

/// A suspended stack fires a reminder when its wake timer is set and has
/// passed, and its own de-dup state allows a new notification.
pub open spec fn stack_fires(st: SuspendedStack, now: u64, force: bool) -> bool {
    spec_timer_passed(st, now) && spec_should_notify(st.last_notification, now, force)
}

/// Index of the first active job that fires, scanning from the bottom.
pub open spec fn first_firing_job(jobs: Seq<Job>, now: u64, force: bool) -> Option<int>
    decreases jobs.len(),
{
    if jobs.len() == 0 {
        None
    } else if job_fires(jobs[0], now, force) {
        Some(0int)
    } else {
        match first_firing_job(jobs.drop_first(), now, force) {
            Some(i) => Some(i + 1),
            None => None,
        }
    }
}

/// Index of the first suspended stack that fires, in the current order.
pub open spec fn first_firing_stack(stacks: Seq<SuspendedStack>, now: u64, force: bool) -> Option<
    int,
>
    decreases stacks.len(),
{
    if stacks.len() == 0 {
        None
    } else if stack_fires(stacks[0], now, force) {
        Some(0int)
    } else {
        match first_firing_stack(stacks.drop_first(), now, force) {
            Some(i) => Some(i + 1),
            None => None,
        }
    }
}

/// What `first_firing_job` returns: the first firing index, or `None` when
/// no job fires.
pub proof fn lemma_first_firing_job(jobs: Seq<Job>, now: u64, force: bool)
    ensures
        match first_firing_job(jobs, now, force) {
            Some(i) => 0 <= i < jobs.len() && job_fires(jobs[i], now, force) && (forall|k: int|
                0 <= k < i ==> !job_fires(jobs[k], now, force)),
            None => forall|k: int| 0 <= k < jobs.len() ==> !job_fires(jobs[k], now, force),
        },
    decreases jobs.len(),
{
    if jobs.len() > 0 && !job_fires(jobs[0], now, force) {
        lemma_first_firing_job(jobs.drop_first(), now, force);
        assert(forall|k: int| 1 <= k < jobs.len() ==> jobs[k] == jobs.drop_first()[k - 1]);
    }
}

/// Converse direction for a firing index.
pub proof fn lemma_first_firing_job_some(jobs: Seq<Job>, now: u64, force: bool, i: int)
    requires
        0 <= i < jobs.len(),
        job_fires(jobs[i], now, force),
        forall|k: int| 0 <= k < i ==> !job_fires(jobs[k], now, force),
    ensures
        first_firing_job(jobs, now, force) == Some(i),
    decreases jobs.len(),
{
    if i > 0 {
        lemma_first_firing_job_some(jobs.drop_first(), now, force, i - 1);
        assert(forall|k: int| 1 <= k < jobs.len() ==> jobs[k] == jobs.drop_first()[k - 1]);
        assert(jobs.drop_first()[i - 1] == jobs[i]);
    }
}

/// Converse direction when no job fires.
pub proof fn lemma_first_firing_job_none(jobs: Seq<Job>, now: u64, force: bool)
    requires
        forall|k: int| 0 <= k < jobs.len() ==> !job_fires(jobs[k], now, force),
    ensures
        first_firing_job(jobs, now, force).is_none(),
{
    lemma_first_firing_job(jobs, now, force);
    if first_firing_job(jobs, now, force).is_some() {
        assert(false);
    }
}

/// What `first_firing_stack` returns: the first firing index, or `None`
/// when no stack fires.
pub proof fn lemma_first_firing_stack(stacks: Seq<SuspendedStack>, now: u64, force: bool)
    ensures
        match first_firing_stack(stacks, now, force) {
            Some(i) => 0 <= i < stacks.len() && stack_fires(stacks[i], now, force) && (forall|
                k: int,
            | 0 <= k < i ==> !stack_fires(stacks[k], now, force)),
            None => forall|k: int| 0 <= k < stacks.len() ==> !stack_fires(stacks[k], now, force),
        },
    decreases stacks.len(),
{
    if stacks.len() > 0 && !stack_fires(stacks[0], now, force) {
        lemma_first_firing_stack(stacks.drop_first(), now, force);
        assert(forall|k: int| 1 <= k < stacks.len() ==> stacks[k] == stacks.drop_first()[k - 1]);
    }
}

/// Converse direction for a firing index.
pub proof fn lemma_first_firing_stack_some(
    stacks: Seq<SuspendedStack>,
    now: u64,
    force: bool,
    i: int,
)
    requires
        0 <= i < stacks.len(),
        stack_fires(stacks[i], now, force),
        forall|k: int| 0 <= k < i ==> !stack_fires(stacks[k], now, force),
    ensures
        first_firing_stack(stacks, now, force) == Some(i),
    decreases stacks.len(),
{
    if i > 0 {
        lemma_first_firing_stack_some(stacks.drop_first(), now, force, i - 1);
        assert(forall|k: int| 1 <= k < stacks.len() ==> stacks[k] == stacks.drop_first()[k - 1]);
        assert(stacks.drop_first()[i - 1] == stacks[i]);
    }
}

/// Converse direction when no stack fires.
pub proof fn lemma_first_firing_stack_none(stacks: Seq<SuspendedStack>, now: u64, force: bool)
    requires
        forall|k: int| 0 <= k < stacks.len() ==> !stack_fires(stacks[k], now, force),
    ensures
        first_firing_stack(stacks, now, force).is_none(),
{
    lemma_first_firing_stack(stacks, now, force);
    if first_firing_stack(stacks, now, force).is_some() {
        assert(false);
    }
}

/// The user is slacking when no active job carries a time-box (an empty
/// active stack counts as slacking).
pub open spec fn spec_is_slacking(jobs: Seq<Job>) -> bool {
    forall|i: int| 0 <= i < jobs.len() ==> jobs[i].timebox.is_none()
}

/// The reference instant for the idle escalation: none when work mode is
/// off, `now` when working, the recorded instant when already slacking.
pub open spec fn spec_slack_date(ws: WorkState, now: u64) -> Option<u64> {
    match ws {
        WorkState::Off => None,
        WorkState::Working => Some(now),
        WorkState::SlackingSince(d) => Some(d),
    }
}

/// The work state after a tick in which no job or stack reminder fired.
pub open spec fn spec_next_work_state(ws: WorkState, jobs: Seq<Job>, now: u64) -> WorkState {
    match spec_slack_date(ws, now) {
        None => ws,
        Some(d) => if spec_is_slacking(jobs) {
            if now - d > SLACK_ESCALATION_SECONDS {
                WorkState::SlackingSince(now)
            } else {
                WorkState::SlackingSince(d)
            }
        } else {
            WorkState::Working
        },
    }
}

/// Whether the idle escalation alarm fires on such a tick.
pub open spec fn spec_slack_alarm(ws: WorkState, jobs: Seq<Job>, now: u64) -> bool {
    match spec_slack_date(ws, now) {
        None => false,
        Some(d) => spec_is_slacking(jobs) && now - d > SLACK_ESCALATION_SECONDS,
    }
}

impl JobBoard {
    /// One tick of the reminder evaluation, in strict priority order,
    /// stopping at the first condition that fires: (1) the first active job
    /// whose time-box expired and whose de-dup permits a notification is
    /// stamped and the alarm is signalled; else (2) likewise for the first
    /// suspended stack whose wake timer has passed; else (3) the idle
    /// escalation updates the work state and alarms once per escalation
    /// window.  At most one alarm is signalled per tick.
    pub fn update_timers(&mut self, now: u64, force: bool) -> (r: TimerState)
        ensures
            ({
                let pre = *old(self);
                let post = *final(self);
                match first_firing_job(pre.active_stack@, now, force) {
                    Some(i) => {
                        &&& r == (TimerState { send_alarm: true, needs_save: true })
                        &&& post.active_stack@ == pre.active_stack@.update(
                            i,
                            (Job {
                                label: pre.active_stack@[i].label,
                                begin_date: pre.active_stack@[i].begin_date,
                                timebox: pre.active_stack@[i].timebox,
                                last_notification: Some(now),
                            }),
                        )
                        &&& post.suspended_stacks == pre.suspended_stacks
                        &&& post.work_state == pre.work_state
                    },
                    None => match first_firing_stack(pre.suspended_stacks@, now, force) {
                        Some(i) => {
                            &&& r == (TimerState { send_alarm: true, needs_save: true })
                            &&& post.suspended_stacks@ == pre.suspended_stacks@.update(
                                i,
                                (SuspendedStack {
                                    data: pre.suspended_stacks@[i].data,
                                    reason: pre.suspended_stacks@[i].reason,
                                    date_suspended: pre.suspended_stacks@[i].date_suspended,
                                    timer: pre.suspended_stacks@[i].timer,
                                    last_notification: Some(now),
                                }),
                            )
                            &&& post.active_stack == pre.active_stack
                            &&& post.work_state == pre.work_state
                        },
                        None => {
                            &&& post.active_stack == pre.active_stack
                            &&& post.suspended_stacks == pre.suspended_stacks
                            &&& post.work_state == spec_next_work_state(
                                pre.work_state,
                                pre.active_stack@,
                                now,
                            )
                            &&& r.send_alarm == spec_slack_alarm(
                                pre.work_state,
                                pre.active_stack@,
                                now,
                            )
                            &&& r.needs_save == (post.work_state != pre.work_state)
                        },
                    },
                }
            }),
            old(self).wf() ==> final(self).wf(),
    {
        let n = self.active_stack.len();
        let mut i: usize = 0;
        while i < n
            invariant
                i <= n,
                n == self.active_stack@.len(),
                *self == *old(self),
                forall|k: int| 0 <= k < i ==> !job_fires(self.active_stack@[k], now, force),
            decreases n - i,
        {
            let expired = self.active_stack[i].timebox_expired(now);
            let due = should_notify(&self.active_stack[i].last_notification, now, force);
            if expired && due {
                proof {
                    lemma_first_firing_job_some(self.active_stack@, now, force, i as int);
                }
                let mut job = self.active_stack.remove(i);
                job.last_notification = Some(now);
                self.active_stack.insert(i, job);
                proof {
                    assert(self.active_stack@ =~= old(self).active_stack@.update(
                        i as int,
                        (Job {
                            label: old(self).active_stack@[i as int].label,
                            begin_date: old(self).active_stack@[i as int].begin_date,
                            timebox: old(self).active_stack@[i as int].timebox,
                            last_notification: Some(now),
                        }),
                    ));
                }
                return TimerState { send_alarm: true, needs_save: true };
            }
            i += 1;
        }
        proof {
            lemma_first_firing_job_none(self.active_stack@, now, force);
        }

        let m = self.suspended_stacks.len();
        let mut j: usize = 0;
        while j < m
            invariant
                j <= m,
                m == self.suspended_stacks@.len(),
                *self == *old(self),
                first_firing_job(old(self).active_stack@, now, force).is_none(),
                forall|k: int| 0 <= k < j ==> !stack_fires(self.suspended_stacks@[k], now, force),
            decreases m - j,
        {
            let timer_exhausted = match self.suspended_stacks[j].timer {
                Some(t) => t <= now,
                None => false,
            };
            if timer_exhausted {
                let due = should_notify(&self.suspended_stacks[j].last_notification, now, force);
                if due {
                    proof {
                        lemma_first_firing_stack_some(self.suspended_stacks@, now, force, j as int);
                    }
                    let mut st = self.suspended_stacks.remove(j);
                    st.last_notification = Some(now);
                    self.suspended_stacks.insert(j, st);
                    proof {
                        assert(self.suspended_stacks@ =~= old(self).suspended_stacks@.update(
                            j as int,
                            (SuspendedStack {
                                data: old(self).suspended_stacks@[j as int].data,
                                reason: old(self).suspended_stacks@[j as int].reason,
                                date_suspended: old(self).suspended_stacks@[j as int].date_suspended,
                                timer: old(self).suspended_stacks@[j as int].timer,
                                last_notification: Some(now),
                            }),
                        ));
                        if old(self).wf() {
                            assert forall|k: int|
                                0 <= k < self.suspended_stacks@.len() implies self.suspended_stacks@[k].data@.len()
                                > 0 by {
                                if k != j as int {
                                    assert(self.suspended_stacks@[k] == old(
                                        self,
                                    ).suspended_stacks@[k]);
                                }
                            }
                        }
                    }
                    return TimerState { send_alarm: true, needs_save: true };
                }
            }
            j += 1;
        }
        proof {
            lemma_first_firing_stack_none(self.suspended_stacks@, now, force);
        }

        let slack_date: Option<u64> = match self.work_state {
            WorkState::Off => None,
            WorkState::Working => Some(now),
            WorkState::SlackingSince(d) => Some(d),
        };
        match slack_date {
            None => TimerState { send_alarm: false, needs_save: false },
            Some(d) => {
                let mut slacking = true;
                let mut k: usize = 0;
                while k < n
                    invariant
                        k <= n,
                        n == self.active_stack@.len(),
                        *self == *old(self),
                        slacking <==> (forall|l: int|
                            0 <= l < k ==> self.active_stack@[l].timebox.is_none()),
                    decreases n - k,
                {
                    if self.active_stack[k].timebox.is_some() {
                        slacking = false;
                    }
                    k += 1;
                }
                if slacking {
                    if now > d && now - d > SLACK_ESCALATION_SECONDS {
                        let changed = self.work_state != WorkState::SlackingSince(now);
                        self.work_state = WorkState::SlackingSince(now);
                        TimerState { send_alarm: true, needs_save: changed }
                    } else {
                        let changed = self.work_state != WorkState::SlackingSince(d);
                        self.work_state = WorkState::SlackingSince(d);
                        TimerState { send_alarm: false, needs_save: changed }
                    }
                } else {
                    let changed = self.work_state != WorkState::Working;
                    self.work_state = WorkState::Working;
                    TimerState { send_alarm: false, needs_save: changed }
                }
            },
        }
    }
}

/// De-duplication: once a job's reminder is stamped at `now`, a forceless
/// re-evaluation within the cooldown window does not fire for that job
/// again.
pub proof fn lemma_no_repeat_job_alarm(job: Job, now: u64, now2: u64)
    requires
        job.last_notification == Some(now),
        now <= now2 <= now + NOTIFICATION_COOLDOWN_SECONDS,
    ensures
        !job_fires(job, now2, false),
{
}

/// De-duplication for suspended stacks, as for jobs.
pub proof fn lemma_no_repeat_stack_alarm(st: SuspendedStack, now: u64, now2: u64)
    requires
        st.last_notification == Some(now),
        now <= now2 <= now + NOTIFICATION_COOLDOWN_SECONDS,
    ensures
        !stack_fires(st, now2, false),
{
}

/// De-duplication at the board level: when a tick fires for active job `i`
/// at `now` and stamps it, that job does not fire again on a forceless
/// re-evaluation within the cooldown window, so the next tick cannot pick
/// it.  The premises are exactly what `update_timers` ensures of a tick
/// whose first phase fired at `i`.
pub proof fn lemma_tick_job_dedup(pre: JobBoard, post: JobBoard, i: int, now: u64, now2: u64)
    requires
        first_firing_job(pre.active_stack@, now, false) == Some(i),
        post.active_stack@ == pre.active_stack@.update(
            i,
            (Job {
                label: pre.active_stack@[i].label,
                begin_date: pre.active_stack@[i].begin_date,
                timebox: pre.active_stack@[i].timebox,
                last_notification: Some(now),
            }),
        ),
        now <= now2 <= now + NOTIFICATION_COOLDOWN_SECONDS,
    ensures
        !job_fires(post.active_stack@[i], now2, false),
        first_firing_job(post.active_stack@, now2, false) != Some(i),
{
    lemma_first_firing_job(pre.active_stack@, now, false);
    lemma_no_repeat_job_alarm(post.active_stack@[i], now, now2);
    lemma_first_firing_job(post.active_stack@, now2, false);
}

/// De-duplication at the board level for suspended stacks, as for jobs.
pub proof fn lemma_tick_stack_dedup(pre: JobBoard, post: JobBoard, i: int, now: u64, now2: u64)
    requires
        first_firing_job(pre.active_stack@, now, false).is_none(),
        first_firing_stack(pre.suspended_stacks@, now, false) == Some(i),
        post.suspended_stacks@ == pre.suspended_stacks@.update(
            i,
            (SuspendedStack {
                data: pre.suspended_stacks@[i].data,
                reason: pre.suspended_stacks@[i].reason,
                date_suspended: pre.suspended_stacks@[i].date_suspended,
                timer: pre.suspended_stacks@[i].timer,
                last_notification: Some(now),
            }),
        ),
        now <= now2 <= now + NOTIFICATION_COOLDOWN_SECONDS,
    ensures
        !stack_fires(post.suspended_stacks@[i], now2, false),
        first_firing_stack(post.suspended_stacks@, now2, false) != Some(i),
{
    lemma_first_firing_stack(pre.suspended_stacks@, now, false);
    lemma_no_repeat_stack_alarm(post.suspended_stacks@[i], now, now2);
    lemma_first_firing_stack(post.suspended_stacks@, now2, false);
}

/// With `force`, a structurally met active-job condition always fires: if
/// any job's time-box has expired, the tick's first phase finds one.
pub proof fn lemma_force_fires_job(jobs: Seq<Job>, now: u64)
    requires
        exists|i: int| 0 <= i < jobs.len() && spec_timebox_expired(jobs[i], now),
    ensures
        first_firing_job(jobs, now, true).is_some(),
    decreases jobs.len(),
{
    let i = choose|i: int| 0 <= i < jobs.len() && spec_timebox_expired(jobs[i], now);
    if !job_fires(jobs[0], now, true) {
        assert(i != 0);
        assert(jobs.drop_first()[i - 1] == jobs[i]);
        lemma_force_fires_job(jobs.drop_first(), now);
    }
}

/// With `force`, a structurally met suspended-stack condition always fires:
/// if any stack's wake timer has passed, the tick's second phase finds one.
pub proof fn lemma_force_fires_stack(stacks: Seq<SuspendedStack>, now: u64)
    requires
        exists|i: int| 0 <= i < stacks.len() && #[trigger] spec_timer_passed(stacks[i], now),
    ensures
        first_firing_stack(stacks, now, true).is_some(),
    decreases stacks.len(),
{
    let i = choose|i: int| 0 <= i < stacks.len() && #[trigger] spec_timer_passed(stacks[i], now);
    if !stack_fires(stacks[0], now, true) {
        assert(i != 0);
        assert(stacks.drop_first()[i - 1] == stacks[i]);
        lemma_force_fires_stack(stacks.drop_first(), now);
    }
}

} // verus!
