use vole::date::Date;
use vole::record::RecordError;
use vole::review::{RateError, ReviewState};
use vole::scheduler::{LoadError, Schedule, Stage};

fn date(y: u32, m: u32, d: u32) -> Date {
    Date::from_ymd(y, m, d).unwrap()
}

fn sorted_lines(text: &str) -> Vec<String> {
    let mut lines: Vec<String> = text.lines().map(String::from).collect();
    lines.sort();
    lines
}

#[test]
fn two_stage_scenario() {
    let today = date(2024, 3, 15);
    let mut s = Schedule::new();
    assert!(s.is_done());
    s.add_item(0xa, today);
    s.add_item(0xb, today);
    assert_eq!(s.current(), 0xa);
    s.update_current(5, today).unwrap();
    assert_eq!(s.hot(), vec![0xb]);
    assert_eq!(s.refresh(), Vec::<u64>::new());
    assert_eq!(s.current(), 0xb);
    s.update_current(2, today).unwrap();
    assert_eq!(s.hot(), vec![0xb]);
    assert_eq!(s.refresh(), Vec::<u64>::new());
    assert_eq!(s.current(), 0xb);
}

#[test]
fn rating_places_item_in_one_stage() {
    let today = date(2024, 3, 15);
    let mut s = Schedule::new();
    s.add_item(1, today);
    s.add_item(2, today);
    s.add_item(3, today);
    s.update_current(3, today).unwrap();
    assert_eq!(s.hot(), vec![2, 3]);
    assert_eq!(s.refresh(), vec![1]);
    s.update_current(1, today).unwrap();
    assert_eq!(s.hot(), vec![3, 2]);
    assert_eq!(s.refresh(), vec![1]);
    s.update_current(4, today).unwrap();
    assert_eq!(s.hot(), vec![2]);
    s.update_current(5, today).unwrap();
    assert_eq!(s.hot(), Vec::<u64>::new());
    assert_eq!(s.stage(), Stage::Refresh);
    assert_eq!(s.current(), 1);
    let before = s.state(1).unwrap();
    s.update_current(3, today).unwrap();
    // A refresh-stage rating leaves the review state alone.
    assert_eq!(s.state(1).unwrap(), before);
    assert_eq!(s.refresh(), vec![1]);
    s.update_current(5, today).unwrap();
    assert!(s.is_done());
    assert_eq!(s.stage(), Stage::Hot);
}

#[test]
fn enqueue_reopens_a_finished_session() {
    let today = date(2024, 3, 15);
    let mut s = Schedule::new();
    s.add_item(7, today);
    s.update_current(5, today).unwrap();
    assert!(s.is_done());
    s.add_item(8, today);
    assert!(!s.is_done());
    assert_eq!(s.stage(), Stage::Hot);
    assert_eq!(s.current(), 8);
}

#[test]
fn enqueue_resets_refresh_stage() {
    let today = date(2024, 3, 15);
    let mut s = Schedule::new();
    s.add_item(1, today);
    s.update_current(3, today).unwrap();
    assert_eq!(s.stage(), Stage::Refresh);
    s.add_item(2, today);
    assert_eq!(s.stage(), Stage::Hot);
    assert_eq!(s.current(), 2);
}

#[test]
fn failed_update_changes_nothing() {
    let today = date(2024, 3, 15);
    let text = "0000000000000001\t2024-03-10\t2024-03-20\t2\t2.5\n";
    let mut s = Schedule::load(text, today).unwrap();
    assert_eq!(s.update_current(4, today), Err(RateError::ReviewedInFuture));
    assert_eq!(s.hot(), vec![1]);
    assert_eq!(s.save(), text);
}

#[test]
fn load_reads_records_and_due_items() {
    let today = date(2024, 3, 15);
    let text = "0000000000000001\t2024-03-15\t2024-03-09\t2\t2.36\n\
                00000000000000ff\t2024-03-16\t2024-03-10\t1\t2.5\n\
                0000000000000002\t2023-01-01\t2022-12-31\t0\t1.3\n";
    let s = Schedule::load(text, today).unwrap();
    assert_eq!(s.hot(), vec![1, 2]);
    assert_eq!(s.refresh(), Vec::<u64>::new());
    assert_eq!(s.stage(), Stage::Hot);
    assert!(s.has_item(0xff));
    assert!(!s.has_item(3));
    assert_eq!(
        s.state(1).unwrap(),
        ReviewState {
            iteration: 2,
            ease: 236,
            last_reviewed: date(2024, 3, 9),
            next_due: date(2024, 3, 15),
        }
    );
}

#[test]
fn due_today_is_loaded_tomorrow_is_not() {
    let today = date(2024, 3, 15);
    let due = Schedule::load("0000000000000001\t2024-03-15\t2024-03-14\t1\t2.5\n", today).unwrap();
    assert_eq!(due.hot(), vec![1]);
    let later = Schedule::load("0000000000000001\t2024-03-16\t2024-03-14\t1\t2.5\n", today).unwrap();
    assert_eq!(later.hot(), Vec::<u64>::new());
    assert!(later.is_done());
}

#[test]
fn empty_file_is_an_empty_schedule() {
    let s = Schedule::load("", date(2024, 3, 15)).unwrap();
    assert!(s.is_done());
    assert_eq!(s.save(), "");
}

#[test]
fn load_accepts_crlf_and_missing_final_newline() {
    let today = date(2024, 3, 15);
    let s = Schedule::load("0000000000000001\t2024-03-15\t2024-03-14\t1\t2.5\r\n0000000000000002\t2024-03-15\t2024-03-14\t1\t2.5", today).unwrap();
    assert_eq!(s.hot(), vec![1, 2]);
}

#[test]
fn ease_written_by_floats_is_rounded() {
    let today = date(2024, 3, 15);
    let s = Schedule::load("0000000000000001\t2024-03-15\t2024-03-14\t1\t2.3599999\n", today).unwrap();
    assert_eq!(s.state(1).unwrap().ease, 236);
    let s = Schedule::load("0000000000000001\t2024-03-15\t2024-03-14\t1\t3\n", today).unwrap();
    assert_eq!(s.state(1).unwrap().ease, 300);
}

fn load_error(text: &str) -> LoadError {
    Schedule::load(text, date(2024, 3, 15)).err().unwrap()
}

#[test]
fn load_errors_name_line_and_reason() {
    let good = "0000000000000001\t2024-03-15\t2024-03-14\t1\t2.5\n";
    let e = load_error(&format!("{}0000000000000002\t2024-03-15\t2024-03-14\t1\n", good));
    assert_eq!((e.line, e.reason), (2, RecordError::FieldCount));
    assert_eq!(e.content, "0000000000000002\t2024-03-15\t2024-03-14\t1");
    assert_eq!(
        load_error("xyz\t2024-03-15\t2024-03-14\t1\t2.5\n").reason,
        RecordError::Id(vole::text::DigitsError::InvalidDigit)
    );
    assert_eq!(
        load_error("0000000000000001\t2024-02-30\t2024-03-14\t1\t2.5\n").reason,
        RecordError::Date
    );
    assert_eq!(
        load_error("0000000000000001\t2024-3-15\t2024-03-14\t1\t2.5\n").reason,
        RecordError::Date
    );
    assert_eq!(
        load_error("0000000000000001\t2024-03-15\t2024-03-14\t-1\t2.5\n").reason,
        RecordError::Iteration(vole::text::DigitsError::InvalidDigit)
    );
    assert_eq!(
        load_error("0000000000000001\t2024-03-15\t2024-03-14\t4294967296\t2.5\n").reason,
        RecordError::Iteration(vole::text::DigitsError::Overflow)
    );
    assert_eq!(
        load_error("0000000000000001\t2024-03-15\t2024-03-14\t\t2.5\n").reason,
        RecordError::Iteration(vole::text::DigitsError::Empty)
    );
    assert_eq!(
        load_error("0000000000000001\t2024-03-15\t2024-03-14\t1\tabc\n").reason,
        RecordError::Ease
    );
    assert_eq!(
        load_error("0000000000000001\t2024-03-15\t2024-03-14\t1\t1.2\n").reason,
        RecordError::EaseBelowFloor
    );
    let e = load_error(&format!("{}{}", good, good));
    assert_eq!((e.line, e.reason), (2, RecordError::DuplicateId));
    let e = load_error(&format!("{}\n{}", good, good));
    assert_eq!((e.line, e.reason), (2, RecordError::FieldCount));
    assert_eq!(e.content, "");
    assert_eq!(load_error(&format!("{}\n", good)).line, 2);
}

#[test]
fn load_error_message_names_the_line() {
    let e = load_error("0000000000000001\t2024-03-15\n");
    assert_eq!(
        e.message(),
        "Error on line 1: Expected five TAB separated tokens, got: 0000000000000001\t2024-03-15"
    );
    let e = load_error("0000000000000001\t2024-03-15\t2024-03-14\tx\t2.5\n");
    assert_eq!(
        e.message(),
        "Error on line 1: Failed to parse iteration: invalid digit found in string"
    );
    let e = load_error("0000000000000001\t2024-03-15\t2024-03-14\t1\t2,5\n");
    assert_eq!(e.message(), "Error on line 1: Failed to parse EF: invalid float literal");
    assert_eq!(
        Schedule::load("0000000000000001\t2024-03-15\t2024-03-14\t+3\t2.5\n", date(2024, 3, 15))
            .unwrap()
            .state(1)
            .unwrap()
            .iteration,
        3
    );
}

#[test]
fn save_then_load_gives_the_same_records() {
    let today = date(2024, 3, 15);
    let text = "0000000000000001\t2024-03-15\t2024-03-09\t2\t2.36\n\
                00000000000000ff\t2024-03-16\t2024-03-10\t1\t2.5\n\
                0000000000000002\t2023-01-01\t2022-12-31\t0\t1.3\n\
                000000000000c002\t9999-12-31\t0001-01-01\t4294967295\t12.05\n";
    let s = Schedule::load(text, today).unwrap();
    let saved = s.save();
    assert_eq!(sorted_lines(&saved), sorted_lines(text));
    let again = Schedule::load(&saved, today).unwrap();
    assert_eq!(sorted_lines(&again.save()), sorted_lines(text));
    for id in [1u64, 0xff, 2, 0xc002] {
        assert_eq!(again.state(id), s.state(id));
    }
}

#[test]
fn save_writes_rated_states() {
    let today = date(2024, 3, 15);
    let mut s = Schedule::new();
    s.add_item(0xc002, today);
    s.update_current(4, today).unwrap();
    assert_eq!(s.save(), "000000000000c002\t2024-03-16\t2024-03-15\t1\t2.5\n");
}
