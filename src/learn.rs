//! The choices of the review loop: what the learner can answer, and what the
//! loop does next.

use crate::prompt::CmdOption;
use crate::qa::Qa;
use crate::text::push_str;
use vstd::prelude::*;

verus! {

/// What the learner asked the loop to do.
#[derive(Clone, Copy, Debug, PartialEq, Eq, Structural)]
pub enum UserAction {
    Continue,
    AddMore,
    Quit,
}

/// A yes-or-quit style option that leads to an action.
pub struct LoopOption {
    pub letter: char,
    pub doc: String,
    pub action: UserAction,
}

impl CmdOption for LoopOption {
    open spec fn spec_letter(&self) -> char {
        self.letter
    }

    open spec fn spec_doc(&self) -> Seq<char> {
        self.doc@
    }

    fn letter(&self) -> (r: char) {
        self.letter
    }

    fn doc(&self) -> (r: &str) {
        self.doc.as_str()
    }
}

/// A rating of how hard the answer was to recall, picked by its digit.
pub struct AssessmentOption {
    pub q: u8,
    pub doc: &'static str,
}

impl CmdOption for AssessmentOption {
    open spec fn spec_letter(&self) -> char {
        ((self.q % 10) + 48) as char
    }

    open spec fn spec_doc(&self) -> Seq<char> {
        self.doc@
    }

    fn letter(&self) -> (r: char) {
        ((self.q % 10) + 48) as char
    }

    fn doc(&self) -> (r: &str) {
        self.doc
    }
}

/// `y` for `yes`, leading to `action`, and `q` for `quit`.
pub fn yes_or_quit(action: UserAction) -> (r: Vec<LoopOption>)
    ensures
        r@.len() == 2,
        r@[0].letter == 'y' && r@[0].doc@ == "yes"@ && r@[0].action == action,
        r@[1].letter == 'q' && r@[1].doc@ == "quit"@ && r@[1].action == UserAction::Quit,
{
    let mut yes_doc = String::new();
    push_str(&mut yes_doc, "yes");
    let mut quit_doc = String::new();
    push_str(&mut quit_doc, "quit");
    let mut r: Vec<LoopOption> = Vec::new();
    r.push(LoopOption { letter: 'y', doc: yes_doc, action });
    r.push(LoopOption { letter: 'q', doc: quit_doc, action: UserAction::Quit });
    r
}

/// The six ratings, 0 to 5, each with what it means.
pub fn assessments() -> (r: Vec<AssessmentOption>)
    ensures
        r@.len() == 6,
        forall|i: int| 0 <= i < 6 ==> #[trigger] r@[i].q == i,
        r@[0].doc@ == "complete blackout"@,
        r@[1].doc@ == "incorrect response; the correct one remembered"@,
        r@[2].doc@ == "incorrect response; where the correct one seemed easy to recall"@,
        r@[3].doc@ == "correct response recalled with serious difficulty"@,
        r@[4].doc@ == "correct response after a hesitation"@,
        r@[5].doc@ == "perfect response"@,
{
    let mut r: Vec<AssessmentOption> = Vec::new();
    r.push(AssessmentOption { q: 0, doc: "complete blackout" });
    r.push(AssessmentOption { q: 1, doc: "incorrect response; the correct one remembered" });
    r.push(AssessmentOption { q: 2, doc: "incorrect response; where the correct one seemed easy to recall" });
    r.push(AssessmentOption { q: 3, doc: "correct response recalled with serious difficulty" });
    r.push(AssessmentOption { q: 4, doc: "correct response after a hesitation" });
    r.push(AssessmentOption { q: 5, doc: "perfect response" });
    r
}

/// What the loop does next.
#[derive(Clone, Copy, Debug, PartialEq, Eq, Structural)]
pub enum Step {
    /// Show the current card and ask for its rating.
    ShowCard,
    /// Today's reviews are over; ask whether to schedule more cards.
    AskForMore,
    /// Today's reviews are over and no card waits: the session ends.
    Finish,
}

/// The next step of a session: a card while today's reviews last, then the
/// offer of more cards while some wait.
pub fn next_step(qa: &Qa) -> (r: Step)
    ensures
        r == (if !qa.spec_schedule().spec_is_done() {
            Step::ShowCard
        } else if qa.spec_queued().len() > 0 {
            Step::AskForMore
        } else {
            Step::Finish
        }),
{
    if !qa.is_today_schedule_done() {
        Step::ShowCard
    } else if !qa.is_all_scheduled() {
        Step::AskForMore
    } else {
        Step::Finish
    }
}

} // verus!
