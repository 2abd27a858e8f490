//! Work that can be cancelled asks at fixed points whether to go on. The
//! questions are numbered from zero, and a caller gives the number of the first
//! one that is answered with no.
use vstd::prelude::*;

verus! {

/// Whether no question of so many was answered with no.
pub open spec fn goes_on(cancelled: Option<u64>, questions: nat) -> bool {
    cancelled is Some ==> cancelled->0 >= questions
}

/// A question counted from a later one.
pub open spec fn later_question(cancelled: Option<u64>, asked: nat) -> Option<u64> {
    match cancelled {
        Some(question) => Some((question - asked) as u64),
        None => None,
    }
}

/// Ask a question: the answer is no, or the questions from the next one on.
pub fn ask(cancelled: Option<u64>) -> (rest: Option<Option<u64>>)
    ensures
        match rest {
            Some(rest) => goes_on(cancelled, 1) && rest == later_question(cancelled, 1),
            None => !goes_on(cancelled, 1),
        },
{
    match cancelled {
        Some(question) => if question == 0 {
            None
        } else {
            Some(Some(question - 1))
        },
        None => Some(None),
    }
}

/// Ask a number of questions: one of them is answered with no, or the questions
/// from the next one on.
pub fn ask_times(cancelled: Option<u64>, times: u64) -> (rest: Option<Option<u64>>)
    ensures
        match rest {
            Some(rest) => goes_on(cancelled, times as nat) && rest == later_question(
                cancelled,
                times as nat,
            ),
            None => !goes_on(cancelled, times as nat),
        },
{
    match cancelled {
        Some(question) => if question < times {
            None
        } else {
            Some(Some(question - times))
        },
        None => Some(None),
    }
}

} // verus!
