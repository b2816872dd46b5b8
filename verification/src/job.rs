use vstd::prelude::*;

verus! {

/// A single trackable unit of work.
///
/// `begin_date` is the UTC instant (seconds since the epoch) at which the job
/// became active or was last resumed.  If `timebox` (a duration in seconds)
/// is present, the job is considered expired once `begin_date + timebox`
/// seconds have passed.  `last_notification` records when a reminder last
/// fired for this job's expiry, for de-duplication.
pub struct Job {
    pub label: String,
    pub begin_date: u64,
    pub timebox: Option<u64>,
    pub last_notification: Option<u64>,
}

/// A job's time-box is expired iff it has one and `now` has reached
/// `begin_date + timebox`.
pub open spec fn spec_timebox_expired(job: Job, now: u64) -> bool {
    match job.timebox {
        Some(tb) => now >= job.begin_date + tb,
        None => false,
    }
}

/// Seconds left until the time-box expires, saturating at zero; `None` when
/// the job has no time-box.
pub open spec fn spec_timebox_remaining(job: Job, now: u64) -> Option<int> {
    match job.timebox {
        Some(tb) => if now >= job.begin_date + tb {
            Some(0int)
        } else {
            Some(job.begin_date + tb - now)
        },
        None => None,
    }
}

impl Job {
    /// Whether this job's time-box has elapsed at time `now`.
    pub fn timebox_expired(&self, now: u64) -> (r: bool)
        ensures
            r == spec_timebox_expired(*self, now),
    {
        match self.timebox {
            Some(tb) => match self.begin_date.checked_add(tb) {
                Some(expiry) => now >= expiry,
                None => false,
            },
            None => false,
        }
    }

    /// Seconds left until this job's time-box expires, saturating at zero
    /// rather than going negative; `None` when the job has no time-box.
    pub fn timebox_remaining(&self, now: u64) -> (r: Option<u64>)
        requires
            self.timebox.is_some() ==> self.begin_date + self.timebox.unwrap() <= u64::MAX,
        ensures
            r.is_some() == self.timebox.is_some(),
            self.timebox.is_some() ==> Some(r.unwrap() as int) == spec_timebox_remaining(*self, now),
            self.timebox.is_some() ==> (r.unwrap() == 0 <==> spec_timebox_expired(*self, now)),
    {
        match self.timebox {
            Some(tb) => {
                let expiry = self.begin_date + tb;
                if now >= expiry {
                    Some(0)
                } else {
                    Some(expiry - now)
                }
            },
            None => None,
        }
    }
}

/// Whole seconds elapsed between `begin` and `now`, clamped below at zero.
pub fn elapsed_seconds(begin: u64, now: u64) -> (r: u64)
    ensures
        r == if now >= begin {
            now - begin
        } else {
            0
        },
{
    if now >= begin {
        now - begin
    } else {
        0
    }
}

/// The begin date of a retroactively started job: `retro` seconds before
/// `now`.  A retro span reaching back past the epoch is not meaningful and
/// is left out.
pub fn retro_begin_date(now: u64, retro: u64) -> (r: u64)
    requires
        retro <= now,
    ensures
        r == now - retro,
{
    now - retro
}

/// A job with no time-box never expires, at any time.
pub proof fn lemma_no_timebox_never_expires(job: Job, now: u64)
    requires
        job.timebox.is_none(),
    ensures
        !spec_timebox_expired(job, now),
{
}

/// With a time-box, expiry holds exactly from the instant
/// `begin_date + timebox` on.
pub proof fn lemma_timebox_expiry_threshold(job: Job, now: u64)
    requires
        job.timebox.is_some(),
    ensures
        spec_timebox_expired(job, now) <==> now >= job.begin_date + job.timebox.unwrap(),
{
}

/// Expiry is monotone in time: once a time-box has expired it stays expired.
pub proof fn lemma_timebox_expiry_monotonic(job: Job, t1: u64, t2: u64)
    requires
        t1 <= t2,
        spec_timebox_expired(job, t1),
    ensures
        spec_timebox_expired(job, t2),
{
}

} // verus!
