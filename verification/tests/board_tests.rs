use wyd::board::{BoardError, JobBoard, WorkState};
use wyd::job::Job;
use wyd::matching::substring_matcher;

fn job(label: &str, begin: u64, timebox: Option<u64>) -> Job {
    Job { label: label.to_string(), begin_date: begin, timebox, last_notification: None }
}

#[test]
fn fresh_board_is_empty() {
    let board = JobBoard::default();
    assert_eq!(board.active_stack.len(), 0);
    assert_eq!(board.suspended_stacks.len(), 0);
    assert_eq!(board.work_state, WorkState::Off);
}

#[test]
fn push_then_pop_returns_same_job() {
    let mut board = JobBoard::default();
    board.push(job("below", 1, None));
    board.push(job("target", 2, Some(60)));
    assert_eq!(board.active_stack.len(), 2);
    let back = board.pop().expect("a job was pushed");
    assert_eq!(board.active_stack.len(), 1);
    assert_eq!(back.label, "target");
    assert_eq!(back.begin_date, 2);
    assert_eq!(back.timebox, Some(60));
    assert_eq!(back.last_notification, None);
    assert_eq!(board.active_stack[0].label, "below");
}

#[test]
fn pop_on_empty_returns_none() {
    let mut board = JobBoard::default();
    assert!(board.pop().is_none());
}

#[test]
fn find_job_finds_first_from_bottom() {
    let mut board = JobBoard::default();
    board.push(job("alpha", 1, None));
    board.push(job("alpha beta", 2, None));
    board.push(job("gamma", 3, None));
    let m = substring_matcher("alpha");
    assert_eq!(board.find_job(&m), Some(0));
    let m2 = substring_matcher("gam");
    assert_eq!(board.find_job(&m2), Some(2));
    let m3 = substring_matcher("delta");
    assert_eq!(board.find_job(&m3), None);
}

#[test]
fn suspend_at_out_of_range_fails_on_any_board() {
    let mut empty = JobBoard::default();
    assert_eq!(
        empty.suspend_at(0, "why".to_string(), None, 10),
        Err(BoardError::IndexOutOfRange)
    );

    let mut board = JobBoard::default();
    board.push(job("only", 1, None));
    assert_eq!(
        board.suspend_at(1, "why".to_string(), None, 10),
        Err(BoardError::IndexOutOfRange)
    );
    assert_eq!(
        board.suspend_at(7, "why".to_string(), None, 10),
        Err(BoardError::IndexOutOfRange)
    );
    assert_eq!(board.active_stack.len(), 1);
}

#[test]
fn suspend_at_moves_suffix() {
    let mut board = JobBoard::default();
    board.push(job("a", 1, None));
    board.push(job("b", 2, None));
    board.push(job("c", 3, None));
    assert_eq!(board.suspend_at(1, "pause".to_string(), Some(99), 10), Ok(()));
    assert_eq!(board.active_stack.len(), 1);
    assert_eq!(board.active_stack[0].label, "a");
    assert_eq!(board.suspended_stacks.len(), 1);
    let st = &board.suspended_stacks[0];
    assert_eq!(st.data.len(), 2);
    assert_eq!(st.data[0].label, "b");
    assert_eq!(st.data[1].label, "c");
    assert_eq!(st.reason, "pause");
    assert_eq!(st.date_suspended, 10);
    assert_eq!(st.timer, Some(99));
    assert_eq!(st.last_notification, None);
}

#[test]
fn suspend_matching_report_moves_both_jobs() {
    let mut board = JobBoard::default();
    board.push(job("Write report", 1, None));
    board.push(job("Reply to email", 2, None));
    let m = substring_matcher("report");
    assert_eq!(board.suspend_matching(&m, "blocked".to_string(), None, 10), Ok(()));
    assert_eq!(board.active_stack.len(), 0);
    assert_eq!(board.suspended_stacks.len(), 1);
    let st = &board.suspended_stacks[0];
    assert_eq!(st.data.len(), 2);
    assert_eq!(st.data[0].label, "Write report");
    assert_eq!(st.data[1].label, "Reply to email");
    assert_eq!(st.reason, "blocked");
}

#[test]
fn suspend_matching_without_match_fails_not_found() {
    let mut board = JobBoard::default();
    board.push(job("something", 1, None));
    let m = substring_matcher("missing");
    assert_eq!(
        board.suspend_matching(&m, "r".to_string(), None, 10),
        Err(BoardError::NotFound)
    );
    assert_eq!(board.active_stack.len(), 1);
}

#[test]
fn suspend_current_on_empty_fails_empty_stack() {
    let mut board = JobBoard::default();
    assert_eq!(
        board.suspend_current("r".to_string(), None, 10),
        Err(BoardError::EmptyStack)
    );
}

#[test]
fn suspend_current_takes_only_top() {
    let mut board = JobBoard::default();
    board.push(job("below", 1, None));
    board.push(job("top", 2, None));
    assert_eq!(board.suspend_current("r".to_string(), None, 10), Ok(()));
    assert_eq!(board.active_stack.len(), 1);
    assert_eq!(board.active_stack[0].label, "below");
    assert_eq!(board.suspended_stacks.len(), 1);
    assert_eq!(board.suspended_stacks[0].data.len(), 1);
    assert_eq!(board.suspended_stacks[0].data[0].label, "top");
}

#[test]
fn resume_matching_on_empty_fails_not_found() {
    let mut board = JobBoard::default();
    let m = substring_matcher("anything");
    assert_eq!(board.resume_matching(&m, 10), Err(BoardError::NotFound));
    let m_empty = substring_matcher("");
    assert_eq!(board.resume_matching(&m_empty, 10), Err(BoardError::NotFound));
}

#[test]
fn resume_at_index_out_of_range() {
    let mut board = JobBoard::default();
    assert_eq!(board.resume_at_index(0, 10), Err(BoardError::IndexOutOfRange));
}

#[test]
fn suspend_then_resume_restores_jobs_with_fresh_begin_date() {
    let mut board = JobBoard::default();
    board.push(job("a", 1, None));
    board.push(job("b", 2, Some(60)));
    board.push(job("c", 3, None));
    assert_eq!(board.suspend_at(1, "pause".to_string(), None, 10), Ok(()));
    assert_eq!(board.resume_at_index(0, 20), Ok(()));
    assert_eq!(board.active_stack.len(), 3);
    assert_eq!(board.active_stack[0].label, "a");
    assert_eq!(board.active_stack[0].begin_date, 1);
    assert_eq!(board.active_stack[1].label, "b");
    assert_eq!(board.active_stack[1].begin_date, 20);
    assert_eq!(board.active_stack[1].timebox, Some(60));
    assert_eq!(board.active_stack[2].label, "c");
    assert_eq!(board.active_stack[2].begin_date, 20);
    assert_eq!(board.suspended_stacks.len(), 0);
}

#[test]
fn resume_matching_matches_leading_job_label() {
    let mut board = JobBoard::default();
    board.push(job("keep", 1, None));
    board.push(job("first parked", 2, None));
    assert_eq!(board.suspend_current("r1".to_string(), Some(50), 10), Ok(()));
    board.push(job("second parked", 3, None));
    assert_eq!(board.suspend_current("r2".to_string(), Some(60), 10), Ok(()));
    let m = substring_matcher("second");
    assert_eq!(board.resume_matching(&m, 30), Ok(()));
    assert_eq!(board.active_stack.len(), 2);
    assert_eq!(board.active_stack[1].label, "second parked");
    assert_eq!(board.active_stack[1].begin_date, 30);
    assert_eq!(board.suspended_stacks.len(), 1);
    assert_eq!(board.suspended_stacks[0].data[0].label, "first parked");
}

#[test]
fn sorting_suspended_stacks_is_idempotent() {
    let mut board = JobBoard::default();
    for (label, timer) in [("late", Some(50u64)), ("untimed", None), ("early", Some(10u64))] {
        board.push(job(label, 1, None));
        assert_eq!(board.suspend_current(label.to_string(), timer, 0), Ok(()));
    }
    board.sort_suspended_stacks(30);
    let order: Vec<String> =
        board.suspended_stacks.iter().map(|s| s.reason.clone()).collect();
    assert_eq!(order, vec!["early".to_string(), "untimed".to_string(), "late".to_string()]);
    board.sort_suspended_stacks(30);
    let order2: Vec<String> =
        board.suspended_stacks.iter().map(|s| s.reason.clone()).collect();
    assert_eq!(order, order2);
}

#[test]
fn sorting_keeps_insertion_order_among_equal_keys() {
    let mut board = JobBoard::default();
    for label in ["one", "two", "three"] {
        board.push(job(label, 1, None));
        assert_eq!(board.suspend_current(label.to_string(), None, 0), Ok(()));
    }
    board.sort_suspended_stacks(42);
    let order: Vec<String> =
        board.suspended_stacks.iter().map(|s| s.reason.clone()).collect();
    assert_eq!(order, vec!["one".to_string(), "two".to_string(), "three".to_string()]);
}

#[test]
fn create_suspended_job_parks_single_fresh_job() {
    let mut board = JobBoard::default();
    board.create_suspended_job("errand".to_string(), "later".to_string(), Some(90), 15);
    assert_eq!(board.active_stack.len(), 0);
    assert_eq!(board.suspended_stacks.len(), 1);
    let st = &board.suspended_stacks[0];
    assert_eq!(st.data.len(), 1);
    assert_eq!(st.data[0].label, "errand");
    assert_eq!(st.data[0].begin_date, 15);
    assert_eq!(st.data[0].timebox, None);
    assert_eq!(st.reason, "later");
    assert_eq!(st.timer, Some(90));
}

#[test]
fn push_new_job_refused_under_timeboxed_top() {
    let mut board = JobBoard::default();
    assert!(board.push_new_job("top".to_string(), Some(300), 5));
    assert!(!board.push_new_job("subtask".to_string(), None, 6));
    assert_eq!(board.active_stack.len(), 1);
    let mut board2 = JobBoard::default();
    assert!(board2.push_new_job("plain".to_string(), None, 5));
    assert!(board2.push_new_job("subtask".to_string(), Some(60), 6));
    assert_eq!(board2.active_stack.len(), 2);
}

#[test]
fn apply_timebox_resets_begin_date() {
    let mut board = JobBoard::default();
    assert!(!board.apply_timebox(Some(60), 50));
    board.push(job("work", 10, None));
    assert!(board.apply_timebox(Some(60), 50));
    assert_eq!(board.active_stack[0].timebox, Some(60));
    assert_eq!(board.active_stack[0].begin_date, 50);
    assert!(board.apply_timebox(None, 70));
    assert_eq!(board.active_stack[0].timebox, None);
    assert_eq!(board.active_stack[0].begin_date, 70);
}

#[test]
fn current_timebox_expiry_values() {
    let mut board = JobBoard::default();
    assert_eq!(board.current_timebox_expiry(), None);
    board.push(job("plain", 100, None));
    assert_eq!(board.current_timebox_expiry(), None);
    board.push(job("boxed", 100, Some(50)));
    assert_eq!(board.current_timebox_expiry(), Some(150));
}

#[test]
fn suspended_tasks_ready_checks_topmost_stack() {
    let mut board = JobBoard::default();
    assert!(!board.suspended_tasks_ready(100));
    board.create_suspended_job("x".to_string(), "r".to_string(), Some(50), 0);
    assert!(board.suspended_tasks_ready(50));
    assert!(!board.suspended_tasks_ready(49));
    let mut board2 = JobBoard::default();
    board2.create_suspended_job("y".to_string(), "r".to_string(), None, 0);
    assert!(board2.suspended_tasks_ready(0));
}

#[test]
fn suspended_tasks_ready_looks_at_the_most_urgent_stack() {
    let mut board = JobBoard::default();
    board.create_suspended_job("soon".to_string(), "a".to_string(), Some(5), 0);
    board.create_suspended_job("later".to_string(), "b".to_string(), Some(100), 0);
    assert_eq!(board.suspended_stacks[0].timer, Some(5));
    assert_eq!(board.suspended_stacks[1].timer, Some(100));
    assert!(board.suspended_tasks_ready(10));
    assert!(!board.suspended_tasks_ready(4));
}
