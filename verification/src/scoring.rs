//! Scoring of one guess against the answer, letter by letter.

use vstd::prelude::*;
use vstd::string::*;

verus! {

/// What a guessed letter turned out to be.
#[derive(Clone, Copy, Debug, PartialEq, Eq, Structural)]
pub enum EntryType {
    /// The answer holds this letter at this position.
    Correct,
    /// The answer holds this letter elsewhere, at a position no other guessed
    /// letter has a better claim to.
    Misplaced,
    /// The answer has no occurrence of this letter left.
    Wrong,
}

/// One scored letter of a guess.
#[derive(Clone, Copy, Debug, PartialEq, Eq, Structural)]
pub struct Entry {
    /// The guessed letter.
    pub letter: char,
    /// Where in the guess it stands, counted from zero.
    pub position: usize,
    /// What it turned out to be.
    pub e_type: EntryType,
}

impl Entry {
    /// The entry made of its three parts.
    pub fn new(letter: char, position: usize, e_type: EntryType) -> (e: Self)
        ensures
            e == (Entry { letter, position, e_type }),
    {
        Entry { letter, position, e_type }
    }
}

/// A scored guess: one entry per guessed letter, in the order of the guess.
pub type Guess = Vec<Entry>;

/// Why a guess was not taken.
#[derive(Clone, Copy, Debug, PartialEq, Eq, Structural)]
pub enum GuessError {
    /// The guess and the answer differ in length.
    LengthError,
    /// The guess is not a word of the dictionary.
    NonexistentWordError,
    /// Six guesses were made already and none of them won.
    GuessLimitReached,
    /// The game was won already.
    GameOver,
}

/// The number of positions `k < n` at which `x` holds `c` and `y` does not.
///
/// With `x` the answer and `y` the guess this counts the occurrences of `c`
/// in the answer that no exact match uses up; with the two exchanged, the
/// guessed `c`s that are not exact matches.
pub open spec fn unmatched(x: Seq<char>, y: Seq<char>, c: char, n: int) -> nat
    decreases n,
{
    if n <= 0 {
        0
    } else {
        unmatched(x, y, c, n - 1) + if x[n - 1] == c && y[n - 1] != c {
            1nat
        } else {
            0nat
        }
    }
}

/// The verdict on the guessed letter at position `i`.
///
/// An exact match is `Correct`. Any other guessed letter is `Misplaced` as
/// long as the answer has more occurrences of it outside exact matches than
/// the guess has to the left of `i` outside exact matches; after that it is
/// `Wrong`.
pub open spec fn verdict(answer: Seq<char>, guess: Seq<char>, i: int) -> EntryType {
    if guess[i] == answer[i] {
        EntryType::Correct
    } else if unmatched(guess, answer, guess[i], i) < unmatched(
        answer,
        guess,
        guess[i],
        answer.len() as int,
    ) {
        EntryType::Misplaced
    } else {
        EntryType::Wrong
    }
}

/// The scored guess: entry `i` holds the guessed letter at `i`, the position
/// `i` and the verdict on it.
pub open spec fn scored(answer: Seq<char>, guess: Seq<char>) -> Seq<Entry> {
    Seq::new(guess.len(), |i: int| entry_at(answer, guess, i))
}

/// Entry `i` of the scored guess.
pub open spec fn entry_at(answer: Seq<char>, guess: Seq<char>, i: int) -> Entry {
    Entry { letter: guess[i], position: i as usize, e_type: verdict(answer, guess, i) }
}

/// `unmatched` grows with the number of positions counted.
pub proof fn lemma_unmatched_grows(x: Seq<char>, y: Seq<char>, c: char, lo: int, hi: int)
    requires
        lo <= hi,
    ensures
        unmatched(x, y, c, lo) <= unmatched(x, y, c, hi),
    decreases hi - lo,
{
    if lo < hi {
        lemma_unmatched_grows(x, y, c, lo, hi - 1);
    }
}

/// The positions of the answer that the guessed letters to the left of `i`
/// have claimed: of the occurrences of a letter outside exact matches, as
/// many from the left as the guess holds of that letter, outside exact
/// matches, before `i`.
pub open spec fn claimed_before(answer: Seq<char>, guess: Seq<char>, i: int) -> Seq<bool> {
    Seq::new(
        answer.len(),
        |j: int|
            answer[j] != guess[j] && unmatched(answer, guess, answer[j], j) < unmatched(
                guess,
                answer,
                answer[j],
                i,
            ),
    )
}

/// An exact match at `i` claims nothing.
proof fn lemma_exact_claims_nothing(a: Seq<char>, g: Seq<char>, i: int)
    requires
        a.len() == g.len(),
        0 <= i < g.len(),
        g[i] == a[i],
    ensures
        claimed_before(a, g, i + 1) == claimed_before(a, g, i),
{
    assert forall|j: int| 0 <= j < a.len() implies claimed_before(a, g, i + 1)[j]
        == claimed_before(a, g, i)[j] by {
        assert(unmatched(g, a, a[j], i + 1) == unmatched(g, a, a[j], i));
    }
    assert(claimed_before(a, g, i + 1) =~= claimed_before(a, g, i));
}

/// The guessed letter at `i` claims `j`, the leftmost position still free
/// for it, and is `Misplaced`.
proof fn lemma_claims_leftmost(a: Seq<char>, g: Seq<char>, i: int, j: int)
    requires
        a.len() == g.len(),
        0 <= i < g.len(),
        0 <= j < a.len(),
        g[i] != a[i],
        a[j] == g[i],
        g[j] != a[j],
        unmatched(a, g, g[i], j) == unmatched(g, a, g[i], i),
    ensures
        claimed_before(a, g, i + 1) == claimed_before(a, g, i).update(j, true),
        verdict(a, g, i) == EntryType::Misplaced,
{
    let c = g[i];
    let n = a.len() as int;
    lemma_unmatched_grows(a, g, c, j + 1, n);
    assert(unmatched(a, g, c, j + 1) == unmatched(a, g, c, j) + 1);
    assert forall|k: int| 0 <= k < n implies claimed_before(a, g, i + 1)[k] == claimed_before(
        a,
        g,
        i,
    ).update(j, true)[k] by {
        if a[k] == c {
            assert(unmatched(g, a, c, i + 1) == unmatched(g, a, c, i) + 1);
            if g[k] != c {
                if k < j {
                    lemma_unmatched_grows(a, g, c, k + 1, j);
                    assert(unmatched(a, g, c, k + 1) == unmatched(a, g, c, k) + 1);
                } else if k > j {
                    lemma_unmatched_grows(a, g, c, j + 1, k);
                }
            }
        } else {
            assert(unmatched(g, a, a[k], i + 1) == unmatched(g, a, a[k], i));
        }
    }
    assert(claimed_before(a, g, i + 1) =~= claimed_before(a, g, i).update(j, true));
}

/// Where every position that could take the guessed letter at `i` is
/// claimed, the letter claims nothing and is `Wrong`.
proof fn lemma_claims_none(a: Seq<char>, g: Seq<char>, i: int)
    requires
        a.len() == g.len(),
        0 <= i < g.len(),
        g[i] != a[i],
        unmatched(a, g, g[i], a.len() as int) <= unmatched(g, a, g[i], i),
    ensures
        claimed_before(a, g, i + 1) == claimed_before(a, g, i),
        verdict(a, g, i) == EntryType::Wrong,
{
    let c = g[i];
    let n = a.len() as int;
    assert forall|k: int| 0 <= k < n implies claimed_before(a, g, i + 1)[k] == claimed_before(
        a,
        g,
        i,
    )[k] by {
        if a[k] == c {
            assert(unmatched(g, a, c, i + 1) == unmatched(g, a, c, i) + 1);
            if g[k] != c {
                lemma_unmatched_grows(a, g, c, k + 1, n);
                assert(unmatched(a, g, c, k + 1) == unmatched(a, g, c, k) + 1);
            }
        } else {
            assert(unmatched(g, a, a[k], i + 1) == unmatched(g, a, a[k], i));
        }
    }
    assert(claimed_before(a, g, i + 1) =~= claimed_before(a, g, i));
}

/// Looks from the left for a position of the answer that holds `guess[i]`,
/// is no exact match and is not claimed yet, and claims the first one.
fn claim_leftmost(
    answer: &Vec<char>,
    guess: &Vec<char>,
    exact: &Vec<bool>,
    claimed: &mut Vec<bool>,
    i: usize,
) -> (found: bool)
    requires
        answer@.len() == guess@.len(),
        exact@.len() == guess@.len(),
        i < guess@.len(),
        guess@[i as int] != answer@[i as int],
        forall|k: int| 0 <= k < exact@.len() ==> exact@[k] == (guess@[k] == answer@[k]),
        old(claimed)@ == claimed_before(answer@, guess@, i as int),
    ensures
        final(claimed)@ == claimed_before(answer@, guess@, i + 1),
        found == (verdict(answer@, guess@, i as int) == EntryType::Misplaced),
        !found == (verdict(answer@, guess@, i as int) == EntryType::Wrong),
{
    let n: usize = answer.len();
    let c: char = guess[i];
    let ghost a = answer@;
    let ghost g = guess@;
    let ghost m = unmatched(g, a, c, i as int);
    let mut j: usize = 0;
    while j < n
        invariant
            j <= n,
            i < n,
            n == a.len(),
            n == g.len(),
            a == answer@,
            g == guess@,
            exact@.len() == n,
            c == g[i as int],
            g[i as int] != a[i as int],
            m == unmatched(g, a, c, i as int),
            forall|k: int| 0 <= k < n ==> exact@[k] == (g[k] == a[k]),
            claimed@ == claimed_before(a, g, i as int),
            unmatched(a, g, c, j as int) <= m,
        decreases n - j,
    {
        proof {
            assert(claimed@[j as int] == claimed_before(a, g, i as int)[j as int]);
            assert(unmatched(a, g, c, j + 1) == unmatched(a, g, c, j as int) + if a[j as int] == c
                && g[j as int] != c {
                1nat
            } else {
                0nat
            });
        }
        if answer[j] == c && !exact[j] && !claimed[j] {
            claimed.set(j, true);
            proof {
                lemma_claims_leftmost(a, g, i as int, j as int);
            }
            return true;
        }
        j += 1;
    }
    proof {
        lemma_claims_none(a, g, i as int);
    }
    false
}

/// Scores `guess` against `answer`, both already in one case.
///
/// A first pass finds the exact matches. A second pass goes through the other
/// guessed letters from the left; each claims the leftmost position of the
/// answer that holds the same letter, is no exact match and has not been
/// claimed before, and is `Misplaced` if there is one, `Wrong` if not.
pub fn score_letters(answer: &Vec<char>, guess: &Vec<char>) -> (r: Result<Guess, GuessError>)
    ensures
        match r {
            Ok(entries) => guess@.len() == answer@.len() && entries@ == scored(answer@, guess@),
            Err(e) => guess@.len() != answer@.len() && e == GuessError::LengthError,
        },
{
    let n: usize = guess.len();
    if n != answer.len() {
        return Err(GuessError::LengthError);
    }
    let ghost a = answer@;
    let ghost g = guess@;
    let mut exact: Vec<bool> = Vec::new();
    let mut claimed: Vec<bool> = Vec::new();
    let mut i: usize = 0;
    while i < n
        invariant
            i <= n,
            n == a.len(),
            n == g.len(),
            a == answer@,
            g == guess@,
            exact@.len() == i,
            claimed@.len() == i,
            forall|k: int| 0 <= k < i ==> exact@[k] == (g[k] == a[k]),
            forall|k: int| 0 <= k < i ==> !claimed@[k],
        decreases n - i,
    {
        exact.push(guess[i] == answer[i]);
        claimed.push(false);
        i += 1;
    }
    proof {
        assert(claimed@ =~= claimed_before(a, g, 0));
    }
    let mut entries: Vec<Entry> = Vec::new();
    let mut i: usize = 0;
    while i < n
        invariant
            i <= n,
            n == a.len(),
            n == g.len(),
            a == answer@,
            g == guess@,
            exact@.len() == n,
            entries@.len() == i,
            forall|k: int| 0 <= k < n ==> exact@[k] == (g[k] == a[k]),
            claimed@ == claimed_before(a, g, i as int),
            forall|k: int| 0 <= k < i ==> entries@[k] == entry_at(a, g, k),
        decreases n - i,
    {
        let c: char = guess[i];
        let e_type = if exact[i] {
            proof {
                lemma_exact_claims_nothing(a, g, i as int);
            }
            EntryType::Correct
        } else if claim_leftmost(answer, guess, &exact, &mut claimed, i) {
            EntryType::Misplaced
        } else {
            EntryType::Wrong
        };
        entries.push(Entry::new(c, i, e_type));
        i += 1;
    }
    proof {
        assert(entries@ =~= scored(a, g));
    }
    Ok(entries)
}

/// The upper-case form of a string, as the standard library computes it.
pub uninterp spec fn uppercase(s: Seq<char>) -> Seq<char>;

/// `str::to_uppercase` of the standard library. Nothing is proved of it: the
/// contract only gives its result the name `uppercase`, a function of the
/// characters of `s` alone.
#[verifier::external_body]
pub(crate) fn to_uppercase(s: &str) -> (r: String)
    ensures
        r@ == uppercase(s@),
{
    s.to_uppercase()
}

/// The characters of `s`, in order.
pub fn letters_of(s: &str) -> (v: Vec<char>)
    ensures
        v@ == s@,
{
    let n: usize = s.unicode_len();
    let mut v: Vec<char> = Vec::new();
    let mut i: usize = 0;
    while i < n
        invariant
            i <= n,
            n == s@.len(),
            v@ == s@.take(i as int),
        decreases n - i,
    {
        v.push(s.get_char(i));
        proof {
            assert(v@ =~= s@.take(i + 1));
        }
        i += 1;
    }
    proof {
        assert(s@.take(n as int) =~= s@);
    }
    v
}

/// Whether a guess can be scored against an answer: the two have as many
/// characters as each other, and so have their upper-case forms.
pub open spec fn lengths_agree(answer: Seq<char>, guess: Seq<char>) -> bool {
    answer.len() == guess.len() && uppercase(answer).len() == uppercase(guess).len()
}

/// Scores `guess` against `answer` without regard to case: both are brought
/// to upper case, and the entries hold the upper-case letters of the guess.
pub fn score(answer: &str, guess: &str) -> (r: Result<Guess, GuessError>)
    ensures
        match r {
            Ok(entries) => lengths_agree(answer@, guess@) && entries@ == scored(
                uppercase(answer@),
                uppercase(guess@),
            ),
            Err(e) => !lengths_agree(answer@, guess@) && e == GuessError::LengthError,
        },
{
    if guess.unicode_len() != answer.unicode_len() {
        return Err(GuessError::LengthError);
    }
    let upper_answer = to_uppercase(answer);
    let upper_guess = to_uppercase(guess);
    let a = letters_of(upper_answer.as_str());
    let g = letters_of(upper_guess.as_str());
    score_letters(&a, &g)
}

/// Whether every entry is `Correct`.
pub open spec fn all_correct(entries: Seq<Entry>) -> bool {
    forall|i: int| 0 <= i < entries.len() ==> (#[trigger] entries[i]).e_type == EntryType::Correct
}

/// Whether a scored guess is a win: every letter of it is `Correct`.
pub fn is_win(entries: &Vec<Entry>) -> (r: bool)
    ensures
        r == all_correct(entries@),
{
    let mut i: usize = 0;
    while i < entries.len()
        invariant
            i <= entries@.len(),
            forall|k: int| 0 <= k < i ==> (#[trigger] entries@[k]).e_type == EntryType::Correct,
        decreases entries@.len() - i,
    {
        if entries[i].e_type != EntryType::Correct {
            return false;
        }
        i += 1;
    }
    true
}

/// A copy of a scored guess.
pub fn copy_of(entries: &Vec<Entry>) -> (r: Guess)
    ensures
        r@ == entries@,
{
    let mut r: Vec<Entry> = Vec::new();
    let mut i: usize = 0;
    while i < entries.len()
        invariant
            i <= entries@.len(),
            r@ == entries@.take(i as int),
        decreases entries@.len() - i,
    {
        r.push(entries[i]);
        proof {
            assert(r@ =~= entries@.take(i + 1));
        }
        i += 1;
    }
    proof {
        assert(entries@.take(entries@.len() as int) =~= entries@);
    }
    r
}

/// The number of entries with the verdict `e_type`.
pub open spec fn count_verdict(entries: Seq<Entry>, e_type: EntryType) -> nat
    decreases entries.len(),
{
    if entries.len() == 0 {
        0
    } else {
        count_verdict(entries.drop_last(), e_type) + if entries.last().e_type == e_type {
            1nat
        } else {
            0nat
        }
    }
}

/// The number of positions `k < n` at which the guess holds the letter of
/// the answer.
pub open spec fn exact_matches(answer: Seq<char>, guess: Seq<char>, n: int) -> nat
    decreases n,
{
    if n <= 0 {
        0
    } else {
        exact_matches(answer, guess, n - 1) + if guess[n - 1] == answer[n - 1] {
            1nat
        } else {
            0nat
        }
    }
}

/// The number of entries that hold the letter `c` with a verdict other than
/// `Wrong`.
pub open spec fn credited(entries: Seq<Entry>, c: char) -> nat
    decreases entries.len(),
{
    if entries.len() == 0 {
        0
    } else {
        credited(entries.drop_last(), c) + if entries.last().letter == c && entries.last().e_type
            != EntryType::Wrong {
            1nat
        } else {
            0nat
        }
    }
}

/// The number of positions `k < n` at which `word` holds `c`.
pub open spec fn occurrences(word: Seq<char>, c: char, n: int) -> nat
    decreases n,
{
    if n <= 0 {
        0
    } else {
        occurrences(word, c, n - 1) + if word[n - 1] == c {
            1nat
        } else {
            0nat
        }
    }
}

/// Every position of the guess gets one entry, with its letter, its
/// position and one verdict, and as many entries are `Correct` as there are
/// positions at which the guess holds the letter of the answer.
pub proof fn lemma_correct_count(answer: Seq<char>, guess: Seq<char>)
    requires
        answer.len() == guess.len(),
        guess.len() <= usize::MAX,
    ensures
        scored(answer, guess).len() == guess.len(),
        forall|i: int|
            0 <= i < guess.len() ==> {
                let entry = #[trigger] scored(answer, guess)[i];
                entry.letter == guess[i] && entry.position == i && (entry.e_type
                    == EntryType::Correct <==> guess[i] == answer[i])
            },
        count_verdict(scored(answer, guess), EntryType::Correct) == exact_matches(
            answer,
            guess,
            guess.len() as int,
        ),
{
    lemma_correct_count_upto(answer, guess, guess.len() as int);
    assert(scored(answer, guess).take(guess.len() as int) =~= scored(answer, guess));
}

proof fn lemma_correct_count_upto(answer: Seq<char>, guess: Seq<char>, n: int)
    requires
        answer.len() == guess.len(),
        0 <= n <= guess.len(),
    ensures
        count_verdict(scored(answer, guess).take(n), EntryType::Correct) == exact_matches(
            answer,
            guess,
            n,
        ),
    decreases n,
{
    if n > 0 {
        lemma_correct_count_upto(answer, guess, n - 1);
        assert(scored(answer, guess).take(n).drop_last() =~= scored(answer, guess).take(n - 1));
    }
}

/// No letter gets more credit than the answer has room for: the entries that
/// hold a letter as `Correct` or `Misplaced` are no more than the
/// occurrences of that letter in the answer.
pub proof fn lemma_credit_bounded(answer: Seq<char>, guess: Seq<char>, c: char)
    requires
        answer.len() == guess.len(),
    ensures
        credited(scored(answer, guess), c) <= occurrences(answer, c, answer.len() as int),
{
    let n = guess.len() as int;
    lemma_credit_bounded_upto(answer, guess, c, n);
    assert(scored(answer, guess).take(n) =~= scored(answer, guess));
}

proof fn lemma_credit_bounded_upto(answer: Seq<char>, guess: Seq<char>, c: char, n: int)
    requires
        answer.len() == guess.len(),
        0 <= n <= guess.len(),
    ensures
        credited(scored(answer, guess).take(n), c) + unmatched(answer, guess, c, n) <= occurrences(
            answer,
            c,
            n,
        ) + unmatched(guess, answer, c, n),
        credited(scored(answer, guess).take(n), c) + unmatched(answer, guess, c, n) <= occurrences(
            answer,
            c,
            n,
        ) + unmatched(answer, guess, c, answer.len() as int),
    decreases n,
{
    if n > 0 {
        lemma_credit_bounded_upto(answer, guess, c, n - 1);
        assert(scored(answer, guess).take(n).drop_last() =~= scored(answer, guess).take(n - 1));
        assert(scored(answer, guess).take(n).last() == entry_at(answer, guess, n - 1));
    }
}

} // verus!
