//! The per-item review state and the rule that updates it after a rating.

use crate::date::{date_number, date_numbered, lemma_day_number_order, ymd_before, Date};
use vstd::prelude::*;

verus! {

/// Ease is kept in hundredths: 250 stands for 2.5.
pub const INITIAL_EASE: u64 = 250;

/// No rating takes the ease below 1.3.
pub const EASE_FLOOR: u64 = 130;

/// The highest rating a learner can give.
pub const MAX_RATING: u8 = 5;

/// Ratings below this one are failures.
pub const PASSING_RATING: u8 = 3;

/// How one item is scheduled.
#[derive(Clone, Copy, Debug, PartialEq, Eq, Structural)]
pub struct ReviewState {
    /// Successful reviews in a row.
    pub iteration: u32,
    /// Easiness, in hundredths.
    pub ease: u64,
    pub last_reviewed: Date,
    pub next_due: Date,
}

/// Why a rating could not be applied.
#[derive(Clone, Copy, Debug, PartialEq, Eq, Structural)]
pub enum RateError {
    /// The item was last reviewed after the day of the rating: the state is corrupt.
    ReviewedInFuture,
    /// A counter, the ease or the next due date does not fit its type.
    OutOfRange,
}

/// The ease after rating `q`, before the floor is applied.
pub open spec fn raw_ease(ease: int, q: int) -> int {
    ease - 80 + 28 * q - 2 * q * q
}

/// The ease after rating `q`.
pub open spec fn eased(ease: int, q: int) -> int {
    if raw_ease(ease, q) < EASE_FLOOR {
        EASE_FLOOR as int
    } else {
        raw_ease(ease, q)
    }
}

/// `floor(ease * elapsed)` for an ease in hundredths.
pub open spec fn interval_days(ease: int, elapsed: int) -> int {
    ease * elapsed / 100
}

/// The date `n` days after `today`, or `OutOfRange` where there is none.
pub open spec fn due_after(today: Date, n: int) -> Result<Date, RateError> {
    match date_numbered(date_number(today) + n) {
        Some(d) => Ok(d),
        None => Err(RateError::OutOfRange),
    }
}

/// The next due date of a passed item whose consecutive successes have just
/// become `iteration`, with the new ease `ease`.
pub open spec fn next_due_on_pass(s: ReviewState, iteration: int, ease: int, today: Date) -> Result<Date, RateError> {
    if iteration == 1 {
        due_after(today, 1)
    } else if iteration == 2 {
        due_after(today, 6)
    } else {
        let elapsed = date_number(today) - date_number(s.last_reviewed);
        if elapsed < 0 {
            Err(RateError::ReviewedInFuture)
        } else if interval_days(ease, elapsed) > u64::MAX {
            Err(RateError::OutOfRange)
        } else {
            due_after(today, interval_days(ease, elapsed))
        }
    }
}

/// The state after rating `q` on `today`.
pub open spec fn rated(s: ReviewState, q: int, today: Date) -> Result<ReviewState, RateError> {
    let ease = eased(s.ease as int, q);
    if ease > u64::MAX {
        Err(RateError::OutOfRange)
    } else if q < PASSING_RATING {
        Ok(ReviewState { iteration: 0, ease: ease as u64, last_reviewed: today, next_due: s.next_due })
    } else if s.iteration as int + 1 > u32::MAX {
        Err(RateError::OutOfRange)
    } else {
        match next_due_on_pass(s, s.iteration + 1, ease, today) {
            Ok(due) => Ok(
                ReviewState {
                    iteration: (s.iteration + 1) as u32,
                    ease: ease as u64,
                    last_reviewed: today,
                    next_due: due,
                },
            ),
            Err(e) => Err(e),
        }
    }
}

/// The state after each rating of `steps` in turn, each given on its own day;
/// the first error stops the sequence.
pub open spec fn rated_each(s: ReviewState, steps: Seq<(int, Date)>) -> Result<ReviewState, RateError>
    decreases steps.len(),
{
    if steps.len() == 0 {
        Ok(s)
    } else {
        match rated(s, steps[0].0, steps[0].1) {
            Ok(next) => rated_each(next, steps.drop_first()),
            Err(e) => Err(e),
        }
    }
}

/// A failing rating (below 3) always applies: it sets the run of successes to
/// zero and leaves the next due date as it was.
pub proof fn lemma_failure_resets_iteration(s: ReviewState, q: int, today: Date)
    requires
        s.wf(),
        today.wf(),
        0 <= q < PASSING_RATING,
    ensures
        rated(s, q, today) is Ok,
        rated(s, q, today)->Ok_0.iteration == 0,
        rated(s, q, today)->Ok_0.next_due == s.next_due,
        rated(s, q, today)->Ok_0.last_reviewed == today,
{
    assert(q == 0 || q == 1 || q == 2);
    assert(raw_ease(s.ease as int, q) <= s.ease as int);
}

/// The number of days from the last review of `s` to `today`.
pub open spec fn days_elapsed(s: ReviewState, today: Date) -> int {
    date_number(today) - date_number(s.last_reviewed)
}

/// A passing rating (3 to 5) extends the run of successes by one and
/// schedules the next review 1 day ahead after the first success, 6 days
/// ahead after the second, and `floor(ease' * days since the last review)`
/// days ahead after any later one, `ease'` being the new ease. It applies
/// whenever the counters fit, the last review is not after `today`, and the
/// due date is one that `Date` holds (up to 9999-12-31).
pub proof fn lemma_success_advances_iteration(s: ReviewState, q: int, today: Date)
    requires
        s.wf(),
        today.wf(),
        PASSING_RATING <= q <= MAX_RATING,
    ensures
        rated(s, q, today) is Ok ==> {
            let n = rated(s, q, today)->Ok_0;
            &&& n.iteration == s.iteration + 1
            &&& n.last_reviewed == today
            &&& n.ease == eased(s.ease as int, q)
            &&& n.iteration == 1 ==> date_number(n.next_due) == date_number(today) + 1
            &&& n.iteration == 2 ==> date_number(n.next_due) == date_number(today) + 6
            &&& n.iteration >= 3 ==> days_elapsed(s, today) >= 0 && date_number(n.next_due) == date_number(today)
                + interval_days(n.ease as int, days_elapsed(s, today))
        },
        ({
            let e = eased(s.ease as int, q);
            let k = if s.iteration == 0 {
                1
            } else if s.iteration == 1 {
                6
            } else {
                interval_days(e, days_elapsed(s, today))
            };
            &&& s.iteration < u32::MAX
            &&& s.ease <= u64::MAX - 10
            &&& s.last_reviewed.spec_on_or_before(today)
            &&& k <= u64::MAX
            &&& date_numbered(date_number(today) + k) is Some
        }) ==> rated(s, q, today) is Ok,
{
    if q == 3 {
        assert(raw_ease(s.ease as int, 3) == s.ease - 14);
    } else if q == 4 {
        assert(raw_ease(s.ease as int, 4) == s.ease as int);
    } else {
        assert(raw_ease(s.ease as int, 5) == s.ease + 10);
    }
    let l = s.last_reviewed;
    if l.spec_on_or_before(today) && l != today {
        assert(ymd_before(l.year as int, l.month as int, l.day as int, today.year as int, today.month as int, today.day as int));
        lemma_day_number_order(l.year as int, l.month as int, l.day as int, today.year as int, today.month as int, today.day as int);
    }
}

/// Every rating keeps the ease at 1.3 or above, so no sequence of ratings, on
/// any days, takes it lower.
pub proof fn lemma_ease_floor_holds(s: ReviewState, steps: Seq<(int, Date)>)
    requires
        s.wf(),
        forall|i: int| 0 <= i < steps.len() ==> 0 <= #[trigger] steps[i].0 <= MAX_RATING && steps[i].1.wf(),
    ensures
        rated_each(s, steps) is Ok ==> rated_each(s, steps)->Ok_0.wf() && rated_each(s, steps)->Ok_0.ease >= EASE_FLOOR,
    decreases steps.len(),
{
    if steps.len() > 0 {
        let q = steps[0].0;
        let today = steps[0].1;
        match rated(s, q, today) {
            Ok(next) => {
                assert(next.wf());
                assert forall|i: int| 0 <= i < steps.drop_first().len() implies 0 <= #[trigger] steps.drop_first()[i].0 <= MAX_RATING
                    && steps.drop_first()[i].1.wf() by {
                    assert(steps.drop_first()[i] == steps[i + 1]);
                }
                lemma_ease_floor_holds(next, steps.drop_first());
            },
            Err(_) => {},
        }
    }
}

impl ReviewState {
    pub open spec fn wf(self) -> bool {
        &&& self.ease >= EASE_FLOOR
        &&& self.last_reviewed.wf()
        &&& self.next_due.wf()
    }

    pub open spec fn new_spec(today: Date) -> ReviewState {
        ReviewState { iteration: 0, ease: INITIAL_EASE, last_reviewed: today, next_due: today }
    }

    /// The state of an item that is scheduled for the first time on `today`.
    pub fn new(today: Date) -> (r: ReviewState)
        requires
            today.wf(),
        ensures
            r == ReviewState::new_spec(today),
            r.wf(),
    {
        ReviewState { iteration: 0, ease: INITIAL_EASE, last_reviewed: today, next_due: today }
    }

    /// The ease after rating `q`, or `None` where it exceeds `u64`.
    fn updated_ease(&self, q: u8) -> (r: Option<u64>)
        requires
            q <= MAX_RATING,
        ensures
            r is Some <==> eased(self.ease as int, q as int) <= u64::MAX,
            r is Some ==> r->0 == eased(self.ease as int, q as int),
    {
        let qq: u64 = q as u64;
        assert(qq * qq <= 25) by (nonlinear_arith)
            requires
                qq <= 5,
        ;
        let gain: u64 = 28 * qq;
        let loss: u64 = 80 + 2 * (qq * qq);
        assert(2 * (q as int) * (q as int) == 2 * ((qq * qq) as int)) by (nonlinear_arith)
            requires
                qq == q,
        ;
        assert(raw_ease(self.ease as int, q as int) == self.ease as int - loss as int + gain as int);
        let raw: u64 = if self.ease >= loss {
            let base = self.ease - loss;
            if base > u64::MAX - gain {
                return None;
            }
            base + gain
        } else {
            let deficit = loss - self.ease;
            if gain > deficit {
                gain - deficit
            } else {
                0
            }
        };
        if raw < EASE_FLOOR {
            Some(EASE_FLOOR)
        } else {
            Some(raw)
        }
    }

    /// Applies the rating `q`, given on `today`, to this state.
    ///
    /// The ease moves by `-0.8 + 0.28 q - 0.02 q^2` and stays at least 1.3. A
    /// failure (`q < 3`) resets the run of successes and keeps the due date; a
    /// success extends the run and schedules the next review 1 day, 6 days, or
    /// `floor(ease * days since the last review)` days ahead. Either way
    /// `today` becomes the day of the last review.
    pub fn rate(&self, q: u8, today: Date) -> (r: Result<ReviewState, RateError>)
        requires
            self.wf(),
            today.wf(),
            q <= MAX_RATING,
        ensures
            r == rated(*self, q as int, today),
            r is Ok ==> r->Ok_0.wf(),
            r is Ok ==> r->Ok_0.ease >= EASE_FLOOR,
    {
        let ease = match self.updated_ease(q) {
            Some(e) => e,
            None => return Err(RateError::OutOfRange),
        };
        if q < PASSING_RATING {
            return Ok(ReviewState { iteration: 0, ease, last_reviewed: today, next_due: self.next_due });
        }
        if self.iteration == u32::MAX {
            return Err(RateError::OutOfRange);
        }
        let iteration = self.iteration + 1;
        let due = if iteration == 1 {
            today.plus_days(1)
        } else if iteration == 2 {
            today.plus_days(6)
        } else {
            let elapsed = today.days_since(&self.last_reviewed);
            if elapsed < 0 {
                return Err(RateError::ReviewedInFuture);
            }
            let e128: u128 = ease as u128;
            let d128: u128 = elapsed as u128;
            assert(e128 * d128 <= 0xffff_ffff_ffff_ffff * 0x7fff_ffff_ffff_ffff) by (nonlinear_arith)
                requires
                    e128 <= 0xffff_ffff_ffff_ffff,
                    d128 <= 0x7fff_ffff_ffff_ffff,
            ;
            let product: u128 = e128 * d128;
            let interval: u128 = product / 100;
            if interval > u64::MAX as u128 {
                return Err(RateError::OutOfRange);
            }
            today.plus_days(interval as u64)
        };
        match due {
            Some(next_due) => Ok(ReviewState { iteration, ease, last_reviewed: today, next_due }),
            None => Err(RateError::OutOfRange),
        }
    }
}

} // verus!
