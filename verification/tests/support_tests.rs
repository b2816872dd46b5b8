use wyd::board::{BoardError, JobBoard, WorkState};
use wyd::clock::current_time;
use wyd::job::Job;
use wyd::matching::{str_contains, substring_matcher, StringMatch};
use wyd::notifier::{generate_token, kill_sentinel, notifier_should_exit};

#[test]
fn substring_search_cases() {
    assert!(str_contains("hello world", "lo w"));
    assert!(str_contains("hello world", ""));
    assert!(str_contains("abc", "abc"));
    assert!(!str_contains("abc", "abcd"));
    assert!(!str_contains("abc", "B"));
    assert!(!str_contains("", "a"));
    assert!(str_contains("", ""));
}

#[test]
fn substring_matcher_is_case_sensitive() {
    let m = substring_matcher("Report");
    assert!(m.matches("Write Report now"));
    assert!(!m.matches("write report now"));
}

#[test]
fn load_of_fresh_empty_state_file_yields_default_board() {
    let board = JobBoard::load(true, true, None).expect("empty file loads");
    assert_eq!(board.active_stack.len(), 0);
    assert_eq!(board.suspended_stacks.len(), 0);
    assert_eq!(board.work_state, WorkState::Off);
}

#[test]
fn load_of_missing_state_file_yields_default_board() {
    let board = JobBoard::load(false, true, None).expect("missing file loads");
    assert_eq!(board.active_stack.len(), 0);
    assert_eq!(board.suspended_stacks.len(), 0);
    assert_eq!(board.work_state, WorkState::Off);
}

#[test]
fn load_of_unparseable_state_is_fatal() {
    match JobBoard::load(true, false, None) {
        Err(BoardError::MalformedState) => {}
        _ => panic!("malformed state must be fatal"),
    }
}

#[test]
fn load_of_parsed_state_returns_it() {
    let mut parsed = JobBoard::default();
    parsed.push(Job {
        label: "kept".to_string(),
        begin_date: 9,
        timebox: None,
        last_notification: None,
    });
    parsed.work_state = WorkState::Working;
    let board = JobBoard::load(true, false, Some(parsed)).expect("parsed state loads");
    assert_eq!(board.active_stack.len(), 1);
    assert_eq!(board.active_stack[0].label, "kept");
    assert_eq!(board.work_state, WorkState::Working);
}

#[test]
fn default_helper_yields_empty_board() {
    let board: JobBoard = wyd::persist::default();
    assert_eq!(board.active_stack.len(), 0);
    assert_eq!(board.suspended_stacks.len(), 0);
}

#[test]
fn session_tokens_are_sixteen_bytes() {
    let token = generate_token();
    assert_eq!(token.len(), 16);
}

#[test]
fn kill_sentinel_is_the_word_kill() {
    assert_eq!(kill_sentinel(), b"kill".to_vec());
}

#[test]
fn notifier_exits_only_on_foreign_lock_contents() {
    let token = generate_token();
    assert!(!notifier_should_exit(&None, &token));
    assert!(!notifier_should_exit(&Some(token.clone()), &token));
    assert!(notifier_should_exit(&Some(kill_sentinel()), &token));
    let mut other = token.clone();
    other[0] = other[0].wrapping_add(1);
    assert!(notifier_should_exit(&Some(other), &token));
    assert!(notifier_should_exit(&Some(Vec::new()), &token));
}

#[test]
fn current_time_is_after_the_epoch() {
    let t = current_time();
    assert!(t > 1_000_000_000);
}
