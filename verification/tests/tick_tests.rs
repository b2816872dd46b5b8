use wyd::board::{JobBoard, WorkState};
use wyd::job::Job;
use wyd::tick::{should_notify, TimerState};

fn job(label: &str, begin: u64, timebox: Option<u64>) -> Job {
    Job { label: label.to_string(), begin_date: begin, timebox, last_notification: None }
}

#[test]
fn should_notify_cooldown_and_force() {
    assert!(should_notify(&None, 100, false));
    assert!(!should_notify(&Some(100), 100, false));
    assert!(!should_notify(&Some(100), 130, false));
    assert!(should_notify(&Some(100), 131, false));
    assert!(should_notify(&Some(100), 100, true));
}

#[test]
fn push_two_jobs_then_expiry_alarms_once() {
    let mut board = JobBoard::default();
    board.push(job("Write report", 1000, None));
    assert_eq!(board.active_stack.len(), 1);
    assert_eq!(board.active_stack[0].timebox, None);
    board.push(job("Reply to email", 1000, Some(300)));
    assert_eq!(board.active_stack.len(), 2);
    assert_eq!(board.active_stack[1].label, "Reply to email");

    let later = 1000 + 301;
    assert!(board.active_stack[1].timebox_expired(later));
    let first = board.update_timers(later, false);
    assert_eq!(first, TimerState { send_alarm: true, needs_save: true });
    let second = board.update_timers(later, false);
    assert!(!second.send_alarm);
}

#[test]
fn tick_stamps_the_firing_job_only() {
    let mut board = JobBoard::default();
    board.push(job("plain", 0, None));
    board.push(job("boxed", 0, Some(10)));
    let r = board.update_timers(20, false);
    assert!(r.send_alarm && r.needs_save);
    assert_eq!(board.active_stack[0].last_notification, None);
    assert_eq!(board.active_stack[1].last_notification, Some(20));
}

#[test]
fn force_overrides_cooldown() {
    let mut board = JobBoard::default();
    board.push(job("boxed", 0, Some(10)));
    assert!(board.update_timers(20, false).send_alarm);
    assert!(!board.update_timers(20, false).send_alarm);
    assert!(board.update_timers(20, true).send_alarm);
    assert_eq!(board.active_stack[0].last_notification, Some(20));
}

#[test]
fn suspended_timer_expiry_alarms_once() {
    let mut board = JobBoard::default();
    board.push(job("parked", 0, None));
    assert_eq!(board.suspend_current("wait".to_string(), Some(50), 0), Ok(()));
    let quiet = board.update_timers(49, false);
    assert_eq!(quiet, TimerState { send_alarm: false, needs_save: false });
    let fired = board.update_timers(50, false);
    assert_eq!(fired, TimerState { send_alarm: true, needs_save: true });
    assert_eq!(board.suspended_stacks[0].last_notification, Some(50));
    assert!(!board.update_timers(51, false).send_alarm);
    assert!(board.update_timers(51, true).send_alarm);
}

#[test]
fn active_expiry_takes_priority_over_suspended() {
    let mut board = JobBoard::default();
    board.push(job("parked", 0, None));
    assert_eq!(board.suspend_current("wait".to_string(), Some(5), 0), Ok(()));
    board.push(job("boxed", 0, Some(10)));
    let r = board.update_timers(20, false);
    assert!(r.send_alarm);
    assert_eq!(board.active_stack[0].last_notification, Some(20));
    assert_eq!(board.suspended_stacks[0].last_notification, None);
}

#[test]
fn work_state_off_means_no_tracking() {
    let mut board = JobBoard::default();
    let r = board.update_timers(1000, false);
    assert_eq!(r, TimerState { send_alarm: false, needs_save: false });
    assert_eq!(board.work_state, WorkState::Off);
}

#[test]
fn working_starts_slack_tracking_without_alarm() {
    let mut board = JobBoard::default();
    board.work_state = WorkState::Working;
    let r = board.update_timers(1000, false);
    assert_eq!(r, TimerState { send_alarm: false, needs_save: true });
    assert_eq!(board.work_state, WorkState::SlackingSince(1000));
}

#[test]
fn slacking_escalates_after_five_minutes_and_resets_marker() {
    let mut board = JobBoard::default();
    board.work_state = WorkState::SlackingSince(1000);
    let early = board.update_timers(1300, false);
    assert_eq!(early, TimerState { send_alarm: false, needs_save: false });
    assert_eq!(board.work_state, WorkState::SlackingSince(1000));
    let late = board.update_timers(1301, false);
    assert_eq!(late, TimerState { send_alarm: true, needs_save: true });
    assert_eq!(board.work_state, WorkState::SlackingSince(1301));
}

#[test]
fn timeboxed_job_ends_slacking() {
    let mut board = JobBoard::default();
    board.work_state = WorkState::SlackingSince(1000);
    board.push(job("boxed", 2000, Some(3000)));
    let r = board.update_timers(2000, false);
    assert_eq!(r, TimerState { send_alarm: false, needs_save: true });
    assert_eq!(board.work_state, WorkState::Working);
}
