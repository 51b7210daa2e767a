//! The list of words that answers are drawn from and guesses are looked up
//! in.

use rand::Rng;
use vstd::prelude::*;
use crate::scoring::{to_uppercase, uppercase};

verus! {

/// `Rng::gen_range` of the crate `rand`, on the generator of the current
/// thread and the range `0..n`. Nothing is proved of it: the contract takes
/// from its documentation that the number drawn lies in the range, and says
/// nothing of which one it is. The call stops the program on an empty range,
/// so `n` is not zero.
#[verifier::external_body]
fn random_index(n: usize) -> (i: usize)
    requires
        n > 0,
    ensures
        i < n,
{
    rand::thread_rng().gen_range(0..n)
}

/// Whether `dict` holds `word`.
pub open spec fn lists(dict: Seq<String>, word: Seq<char>) -> bool {
    exists|i: int| 0 <= i < dict.len() && (#[trigger] dict[i])@ == word
}

/// Draws an answer from the dictionary at random.
pub fn pick_answer(dict: &Vec<String>) -> (word: &String)
    requires
        dict@.len() > 0,
    ensures
        lists(dict@, word@),
{
    let i: usize = random_index(dict.len());
    &dict[i]
}

/// Whether the dictionary, whose words are in upper case, holds `word` in
/// whatever case it is written.
pub fn contains(dict: &Vec<String>, word: &str) -> (r: bool)
    ensures
        r == lists(dict@, uppercase(word@)),
{
    let upper = to_uppercase(word);
    let mut i: usize = 0;
    while i < dict.len()
        invariant
            i <= dict@.len(),
            upper@ == uppercase(word@),
            forall|k: int| 0 <= k < i ==> (#[trigger] dict@[k])@ != upper@,
        decreases dict@.len() - i,
    {
        if dict[i] == upper {
            return true;
        }
        i += 1;
    }
    false
}

} // verus!
