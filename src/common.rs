use vstd::prelude::*;

verus! {

/// The two answers of one puzzle day.
pub struct Solution {
    pub one_star_answer: i32,
    pub two_star_answer: i32,
}

impl Default for Solution {
    fn default() -> (r: Self)
        ensures
            r.one_star_answer == 0,
            r.two_star_answer == 0,
    {
        Solution { one_star_answer: 0, two_star_answer: 0 }
    }
}

} // verus!
