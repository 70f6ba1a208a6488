use vstd::prelude::*;

verus! {

/// Feedback for a (guess, secret) pair: counts of correct pegs (right digit
/// in the right place), misplaced pegs (right digit in the wrong place), and
/// wrong pegs, in that order. The three counts always sum to the code length.
#[derive(Clone, Copy, Debug, PartialEq, Eq, Hash, PartialOrd, Ord, Structural)]
pub struct Response(pub usize, pub usize, pub usize);

/// A response is terminal exactly when it reports no misplaced and no wrong
/// digits: the guess was the secret.
pub open spec fn is_correct_spec(r: Response) -> bool {
    r.1 == 0 && r.2 == 0
}

/// Lexicographic order on the (correct, misplaced, wrong) triple.
pub open spec fn resp_lt_spec(a: Response, b: Response) -> bool {
    ||| a.0 < b.0
    ||| (a.0 == b.0 && a.1 < b.1)
    ||| (a.0 == b.0 && a.1 == b.1 && a.2 < b.2)
}

pub fn is_correct(r: &Response) -> (b: bool)
    ensures
        b == is_correct_spec(*r),
{
    r.1 == 0 && r.2 == 0
}

/// Decides the lexicographic order on responses.
pub fn resp_lt(a: &Response, b: &Response) -> (c: bool)
    ensures
        c == resp_lt_spec(*a, *b),
{
    if a.0 != b.0 {
        a.0 < b.0
    } else if a.1 != b.1 {
        a.1 < b.1
    } else {
        a.2 < b.2
    }
}

} // verus!
