use vole::date::Date;
use vole::review::{RateError, ReviewState};

fn date(y: u32, m: u32, d: u32) -> Date {
    Date::from_ymd(y, m, d).unwrap()
}

#[test]
fn new_state_starts_at_default_ease() {
    let today = date(2024, 3, 15);
    let s = ReviewState::new(today);
    assert_eq!(s.iteration, 0);
    assert_eq!(s.ease, 250);
    assert_eq!(s.last_reviewed, today);
    assert_eq!(s.next_due, today);
}

#[test]
fn failure_resets_iteration_and_keeps_due_date() {
    let today = date(2024, 3, 15);
    for q in 0u8..3 {
        let s = ReviewState {
            iteration: 4,
            ease: 250,
            last_reviewed: date(2024, 3, 1),
            next_due: date(2024, 3, 10),
        };
        let n = s.rate(q, today).unwrap();
        assert_eq!(n.iteration, 0);
        assert_eq!(n.next_due, date(2024, 3, 10));
        assert_eq!(n.last_reviewed, today);
    }
}

#[test]
fn ease_follows_the_quadratic_curve() {
    let today = date(2024, 3, 15);
    let s = ReviewState::new(today);
    // 2.5 - 0.8 + 0.28 q - 0.02 q^2
    let expected = [170u64, 196, 218, 236, 250, 260];
    for q in 0u8..6 {
        assert_eq!(s.rate(q, today).unwrap().ease, expected[q as usize]);
    }
    let low = ReviewState { ease: 140, ..s };
    assert_eq!(low.rate(0, today).unwrap().ease, 130);
}

#[test]
fn success_schedules_one_then_six_days() {
    let today = date(2024, 3, 15);
    let s = ReviewState::new(date(2024, 3, 14));
    let first = s.rate(4, today).unwrap();
    assert_eq!(first.iteration, 1);
    assert_eq!(first.next_due, date(2024, 3, 16));
    let second = first.rate(3, date(2024, 3, 16)).unwrap();
    assert_eq!(second.iteration, 2);
    assert_eq!(second.next_due, date(2024, 3, 22));
}

#[test]
fn third_success_multiplies_elapsed_days_by_ease() {
    let today = date(2024, 3, 15);
    let s = ReviewState {
        iteration: 2,
        ease: 190,
        last_reviewed: date(2024, 3, 5),
        next_due: date(2024, 3, 11),
    };
    let n = s.rate(5, today).unwrap();
    assert_eq!(n.iteration, 3);
    assert_eq!(n.ease, 200);
    assert_eq!(n.next_due, date(2024, 4, 4));
    assert_eq!(n.last_reviewed, today);
}

#[test]
fn interval_rounds_down() {
    let today = date(2024, 1, 10);
    let s = ReviewState {
        iteration: 5,
        ease: 236,
        last_reviewed: date(2024, 1, 3),
        next_due: date(2024, 1, 10),
    };
    // ease' = 2.36 + 0.1 = 2.46; 2.46 * 7 = 17.22
    let n = s.rate(5, today).unwrap();
    assert_eq!(n.ease, 246);
    assert_eq!(n.next_due, date(2024, 1, 27));
}

#[test]
fn review_in_the_future_is_rejected() {
    let s = ReviewState {
        iteration: 2,
        ease: 250,
        last_reviewed: date(2024, 3, 16),
        next_due: date(2024, 3, 16),
    };
    assert_eq!(s.rate(4, date(2024, 3, 15)), Err(RateError::ReviewedInFuture));
    // A failure does not look at the elapsed days.
    assert!(s.rate(1, date(2024, 3, 15)).is_ok());
}

#[test]
fn due_date_past_year_9999_is_out_of_range() {
    let s = ReviewState::new(date(9999, 12, 31));
    assert_eq!(s.rate(5, date(9999, 12, 31)), Err(RateError::OutOfRange));
}

#[test]
fn ease_never_drops_below_floor() {
    let mut seed: u64 = 0x2545_f491_4f6c_dd1d;
    let mut day = date(2020, 1, 1);
    let mut s = ReviewState::new(day);
    for _ in 0..500 {
        seed = seed.wrapping_mul(6364136223846793005).wrapping_add(1442695040888963407);
        let q = ((seed >> 33) % 6) as u8;
        s = s.rate(q, day).unwrap();
        assert!(s.ease >= 130);
        day = day.plus_days(1).unwrap();
    }
}

#[test]
fn dates_move_through_the_calendar() {
    assert_eq!(date(2024, 2, 28).plus_days(1), Some(date(2024, 2, 29)));
    assert_eq!(date(2023, 2, 28).plus_days(1), Some(date(2023, 3, 1)));
    assert_eq!(date(2023, 12, 31).plus_days(366), Some(date(2024, 12, 31)));
    assert_eq!(date(9999, 12, 31).plus_days(1), None);
    assert_eq!(date(2024, 3, 15).days_since(&date(2024, 3, 5)), 10);
    assert_eq!(date(2024, 3, 5).days_since(&date(2024, 3, 15)), -10);
    assert!(Date::from_ymd(2023, 2, 29).is_none());
    assert!(Date::from_ymd(2000, 2, 29).is_some());
    assert!(Date::from_ymd(1900, 2, 29).is_none());
    assert!(Date::from_ymd(2024, 13, 1).is_none());
    assert!(Date::from_ymd(10000, 1, 1).is_none());
    assert!(date(2024, 3, 5).on_or_before(&date(2024, 3, 5)));
    assert!(!date(2024, 3, 6).on_or_before(&date(2024, 3, 5)));
}
