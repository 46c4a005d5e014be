//! Per-letter marks and the scorer that produces them.
//!
//! A guess is scored against an answer letter by letter. A letter that stands
//! at its own position in the answer is `Correct`. Every other position of the
//! answer holds a spare letter; the misplaced letters of the guess claim these
//! spares from left to right, one spare per claim. A claim that finds a spare
//! is `Present`, one that finds none is `Absent`.
//!
//! Letters are compared as they stand. A guess is judged without regard to
//! case: guess and answer are both brought into upper case first, and the
//! guess is judged only if it has five letters as it came and in upper case.

use vstd::prelude::*;
use vstd::string::StrSliceExecFns;

verus! {

/// Number of letters in a guess.
pub const WORD_LEN: usize = 5;

/// The tag one letter of a guess receives.
#[derive(Clone, Copy, Debug, PartialEq, Eq, Structural)]
pub enum Mark {
    /// The letter stands at this position in the answer.
    Correct,
    /// The letter occurs in the answer at another position that no earlier
    /// letter of the guess has claimed.
    Present,
    /// The answer has no occurrence left for this letter.
    Absent,
}

/// A scored guess: its five letters in order, each with its mark.
#[derive(Clone, Copy, Debug, PartialEq, Eq)]
pub struct Guess {
    pub letters: [(char, Mark); 5],
}

impl View for Guess {
    type V = Seq<(char, Mark)>;

    open spec fn view(&self) -> Seq<(char, Mark)> {
        self.letters@
    }
}

impl Guess {
    /// Whether every letter is correct.
    pub fn is_win(&self) -> (win: bool)
        ensures
            win == all_correct(self@),
    {
        let mut i: usize = 0;
        while i < WORD_LEN
            invariant
                i <= WORD_LEN,
                forall|k: int| 0 <= k < i ==> (#[trigger] self@[k]).1 == Mark::Correct,
            decreases WORD_LEN - i,
        {
            if self.letters[i].1 != Mark::Correct {
                return false;
            }
            i += 1;
        }
        true
    }
}

/// Position `i` of the guess holds the letter that the answer holds there.
pub open spec fn exact(guess: Seq<char>, answer: Seq<char>, i: int) -> bool {
    0 <= i < guess.len() && i < answer.len() && guess[i] == answer[i]
}

/// How many of the first `n` positions of the answer hold `c` without being
/// matched exactly by the guess: the occurrences of `c` that misplaced
/// letters may claim.
pub open spec fn spare(guess: Seq<char>, answer: Seq<char>, c: char, n: int) -> nat
    decreases n,
{
    if n <= 0 {
        0
    } else {
        spare(guess, answer, c, n - 1) + if n <= answer.len() && answer[n - 1] == c && !exact(
            guess,
            answer,
            n - 1,
        ) {
            1nat
        } else {
            0nat
        }
    }
}

/// How many of the first `i` positions of the guess hold `c` away from its
/// place: the claims on spare occurrences of `c` made before position `i`.
pub open spec fn claims(guess: Seq<char>, answer: Seq<char>, c: char, i: int) -> nat
    decreases i,
{
    if i <= 0 {
        0
    } else {
        claims(guess, answer, c, i - 1) + if i <= guess.len() && guess[i - 1] == c && !exact(
            guess,
            answer,
            i - 1,
        ) {
            1nat
        } else {
            0nat
        }
    }
}

/// The mark of position `i` of the guess.
pub open spec fn mark_at(guess: Seq<char>, answer: Seq<char>, i: int) -> Mark {
    if exact(guess, answer, i) {
        Mark::Correct
    } else if claims(guess, answer, guess[i], i) < spare(
        guess,
        answer,
        guess[i],
        answer.len() as int,
    ) {
        Mark::Present
    } else {
        Mark::Absent
    }
}

/// The scored guess: every letter of the guess with its mark.
pub open spec fn verdict(guess: Seq<char>, answer: Seq<char>) -> Seq<(char, Mark)> {
    Seq::new(guess.len(), |i: int| (guess[i], mark_at(guess, answer, i)))
}

/// Every letter of the scored guess is `Correct`.
pub open spec fn all_correct(scored: Seq<(char, Mark)>) -> bool {
    forall|i: int| 0 <= i < scored.len() ==> (#[trigger] scored[i]).1 == Mark::Correct
}

/// Every letter of the scored guess is `Absent`.
pub open spec fn all_absent(scored: Seq<(char, Mark)>) -> bool {
    forall|i: int| 0 <= i < scored.len() ==> (#[trigger] scored[i]).1 == Mark::Absent
}

/// The two words have no letter in common.
pub open spec fn disjoint(guess: Seq<char>, answer: Seq<char>) -> bool {
    forall|i: int, j: int|
        0 <= i < guess.len() && 0 <= j < answer.len() ==> #[trigger] guess[i] != #[trigger] answer[j]
}

/// How many of the first `n` spare positions that hold `c` are consumed.
spec fn consumed(used: Seq<bool>, guess: Seq<char>, answer: Seq<char>, c: char, n: int) -> nat
    decreases n,
{
    if n <= 0 {
        0
    } else {
        consumed(used, guess, answer, c, n - 1) + if n <= answer.len() && n <= used.len() && used[n
            - 1] && answer[n - 1] == c && !exact(guess, answer, n - 1) {
            1nat
        } else {
            0nat
        }
    }
}

proof fn lemma_consumed_bounded(
    used: Seq<bool>,
    guess: Seq<char>,
    answer: Seq<char>,
    c: char,
    n: int,
)
    ensures
        consumed(used, guess, answer, c, n) <= spare(guess, answer, c, n),
    decreases n,
{
    if n > 0 {
        lemma_consumed_bounded(used, guess, answer, c, n - 1);
    }
}

/// While a spare position holding `c` is still free, fewer spares of `c` are
/// consumed than the answer has.
proof fn lemma_free_spare(
    used: Seq<bool>,
    guess: Seq<char>,
    answer: Seq<char>,
    c: char,
    n: int,
    j: int,
)
    requires
        0 <= j < n <= answer.len(),
        used.len() == answer.len(),
        !used[j],
        answer[j] == c,
        !exact(guess, answer, j),
    ensures
        consumed(used, guess, answer, c, n) < spare(guess, answer, c, n),
    decreases n,
{
    if j == n - 1 {
        lemma_consumed_bounded(used, guess, answer, c, n - 1);
    } else {
        lemma_free_spare(used, guess, answer, c, n - 1, j);
    }
}

/// Once every spare position holding `c` is consumed, the two counts agree.
proof fn lemma_no_free_spare(
    used: Seq<bool>,
    guess: Seq<char>,
    answer: Seq<char>,
    c: char,
    n: int,
)
    requires
        n <= answer.len(),
        used.len() == answer.len(),
        forall|j: int| 0 <= j < n && answer[j] == c ==> #[trigger] used[j],
    ensures
        consumed(used, guess, answer, c, n) == spare(guess, answer, c, n),
    decreases n,
{
    if n > 0 {
        lemma_no_free_spare(used, guess, answer, c, n - 1);
    }
}

/// Consuming the free spare position `j` adds one to the count of its own
/// letter and leaves every other count as it was.
proof fn lemma_consume(
    used: Seq<bool>,
    guess: Seq<char>,
    answer: Seq<char>,
    c: char,
    n: int,
    j: int,
)
    requires
        0 <= j < answer.len(),
        used.len() == answer.len(),
        !used[j],
        !exact(guess, answer, j),
    ensures
        consumed(used.update(j, true), guess, answer, c, n) == consumed(
            used,
            guess,
            answer,
            c,
            n,
        ) + if j < n && answer[j] == c {
            1nat
        } else {
            0nat
        },
    decreases n,
{
    if n > 0 {
        lemma_consume(used, guess, answer, c, n - 1, j);
    }
}

/// Before any claim is made, only exactly matched positions are taken, so no
/// spare is consumed.
proof fn lemma_none_consumed(
    used: Seq<bool>,
    guess: Seq<char>,
    answer: Seq<char>,
    c: char,
    n: int,
)
    requires
        used.len() == answer.len(),
        forall|j: int| 0 <= j < used.len() ==> (#[trigger] used[j] == exact(guess, answer, j)),
    ensures
        consumed(used, guess, answer, c, n) == 0,
    decreases n,
{
    if n > 0 {
        lemma_none_consumed(used, guess, answer, c, n - 1);
    }
}

/// A letter that the answer does not hold has no spare occurrence.
proof fn lemma_spare_of_stranger(guess: Seq<char>, answer: Seq<char>, c: char, n: int)
    requires
        forall|j: int| 0 <= j < answer.len() ==> answer[j] != c,
    ensures
        spare(guess, answer, c, n) == 0,
    decreases n,
{
    if n > 0 {
        lemma_spare_of_stranger(guess, answer, c, n - 1);
    }
}

/// A guess equal to the answer is marked `Correct` at every position.
pub proof fn lemma_equal_all_correct(word: Seq<char>)
    ensures
        all_correct(verdict(word, word)),
{
    assert forall|i: int| 0 <= i < word.len() implies (#[trigger] verdict(word, word)[i]).1
        == Mark::Correct by {
        assert(exact(word, word, i));
    }
}

/// A guess that shares no letter with the answer is marked `Absent` at every
/// position.
pub proof fn lemma_disjoint_all_absent(guess: Seq<char>, answer: Seq<char>)
    requires
        disjoint(guess, answer),
    ensures
        all_absent(verdict(guess, answer)),
{
    assert forall|i: int| 0 <= i < guess.len() implies (#[trigger] verdict(guess, answer)[i]).1
        == Mark::Absent by {
        assert forall|j: int| 0 <= j < answer.len() implies answer[j] != guess[i] by {
            assert(guess[i] != answer[j]);
        }
        lemma_spare_of_stranger(guess, answer, guess[i], answer.len() as int);
    }
}

/// How many of the first `n` letters of the word are `c`.
pub open spec fn occurrences(word: Seq<char>, c: char, n: int) -> nat
    decreases n,
{
    if n <= 0 {
        0
    } else {
        occurrences(word, c, n - 1) + if n <= word.len() && word[n - 1] == c {
            1nat
        } else {
            0nat
        }
    }
}

/// How many of the first `n` letters of the guess are `c` with a mark other
/// than `Absent`.
pub open spec fn marked(guess: Seq<char>, answer: Seq<char>, c: char, n: int) -> nat
    decreases n,
{
    if n <= 0 {
        0
    } else {
        marked(guess, answer, c, n - 1) + if n <= guess.len() && guess[n - 1] == c && mark_at(
            guess,
            answer,
            n - 1,
        ) != Mark::Absent {
            1nat
        } else {
            0nat
        }
    }
}

/// How many of the first `n` positions hold `c` in guess and answer alike.
spec fn matched(guess: Seq<char>, answer: Seq<char>, c: char, n: int) -> nat
    decreases n,
{
    if n <= 0 {
        0
    } else {
        matched(guess, answer, c, n - 1) + if exact(guess, answer, n - 1) && guess[n - 1] == c {
            1nat
        } else {
            0nat
        }
    }
}

proof fn lemma_matched_stays(guess: Seq<char>, answer: Seq<char>, c: char, m: int, n: int)
    requires
        guess.len() <= m || answer.len() <= m,
        m <= n,
    ensures
        matched(guess, answer, c, n) == matched(guess, answer, c, m),
    decreases n - m,
{
    if m < n {
        lemma_matched_stays(guess, answer, c, m, n - 1);
    }
}

proof fn lemma_guess_letters_split(guess: Seq<char>, answer: Seq<char>, c: char, n: int)
    requires
        n <= guess.len(),
    ensures
        occurrences(guess, c, n) == matched(guess, answer, c, n) + claims(guess, answer, c, n),
    decreases n,
{
    if n > 0 {
        lemma_guess_letters_split(guess, answer, c, n - 1);
    }
}

proof fn lemma_answer_letters_split(guess: Seq<char>, answer: Seq<char>, c: char, n: int)
    requires
        n <= answer.len(),
    ensures
        occurrences(answer, c, n) == matched(guess, answer, c, n) + spare(guess, answer, c, n),
    decreases n,
{
    if n > 0 {
        lemma_answer_letters_split(guess, answer, c, n - 1);
    }
}

proof fn lemma_marked_split(guess: Seq<char>, answer: Seq<char>, c: char, n: int)
    requires
        n <= guess.len(),
    ensures
        marked(guess, answer, c, n) == matched(guess, answer, c, n) + vstd::math::min(
            claims(guess, answer, c, n) as int,
            spare(guess, answer, c, answer.len() as int) as int,
        ),
    decreases n,
{
    if n > 0 {
        lemma_marked_split(guess, answer, c, n - 1);
    }
}

/// Of every letter, the guess has as many marked `Correct` or `Present` as
/// the smaller of the letter's counts in guess and answer: no letter of the
/// answer is counted twice, and none that can be matched is left out.
pub proof fn lemma_marked_is_smaller_count(guess: Seq<char>, answer: Seq<char>, c: char)
    ensures
        marked(guess, answer, c, guess.len() as int) == vstd::math::min(
            occurrences(guess, c, guess.len() as int) as int,
            occurrences(answer, c, answer.len() as int) as int,
        ),
{
    let g = guess.len() as int;
    let a = answer.len() as int;
    lemma_marked_split(guess, answer, c, g);
    lemma_guess_letters_split(guess, answer, c, g);
    lemma_answer_letters_split(guess, answer, c, a);
    if g <= a {
        lemma_matched_stays(guess, answer, c, g, a);
    } else {
        lemma_matched_stays(guess, answer, c, a, g);
    }
}

/// The letters of a string, in order.
pub fn letters_of(s: &str) -> (v: Vec<char>)
    ensures
        v@ == s@,
{
    let mut v: Vec<char> = Vec::new();
    for c in it: s.chars()
        invariant
            it.seq() == s@,
            v@ == it.seq().take(it.index() as int),
    {
        v.push(c);
    }
    assert(v@ == s@);
    v
}

/// The leftmost position of the answer that holds `c` and is not yet used.
fn first_free(answer: &Vec<char>, used: &Vec<bool>, c: char) -> (found: Option<usize>)
    requires
        used@.len() == answer@.len(),
    ensures
        match found {
            Some(j) => {
                &&& j < answer@.len()
                &&& answer@[j as int] == c
                &&& !used@[j as int]
                &&& forall|k: int| 0 <= k < j && answer@[k] == c ==> #[trigger] used@[k]
            },
            None => forall|k: int| 0 <= k < answer@.len() && answer@[k] == c ==> #[trigger] used@[k],
        },
{
    let mut j: usize = 0;
    while j < answer.len()
        invariant
            j <= answer@.len(),
            used@.len() == answer@.len(),
            forall|k: int| 0 <= k < j && answer@[k] == c ==> #[trigger] used@[k],
        decreases answer@.len() - j,
    {
        if answer[j] == c && !used[j] {
            return Some(j);
        }
        j += 1;
    }
    None
}

/// Scores a guess of five letters against an answer, letter by letter as
/// the two stand.
pub fn score(input: &str, answer: &str) -> (g: Guess)
    requires
        input@.len() == WORD_LEN,
    ensures
        g@ == verdict(input@, answer@),
        forall|i: int|
            0 <= i < WORD_LEN ==> (#[trigger] g@[i]).0 == input@[i] && (g@[i].1 == Mark::Correct
                <==> exact(input@, answer@, i)),
        input@ == answer@ ==> all_correct(g@),
        disjoint(input@, answer@) ==> all_absent(g@),
{
    let guess = letters_of(input);
    let target = letters_of(answer);
    let n = target.len();

    // Positions of the answer that the guess matches exactly are taken from the start.
    let mut used: Vec<bool> = Vec::new();
    let mut j: usize = 0;
    while j < n
        invariant
            j <= n,
            n == target@.len(),
            guess@.len() == WORD_LEN,
            used@.len() == j,
            forall|k: int| 0 <= k < j ==> (#[trigger] used@[k] == exact(guess@, target@, k)),
        decreases n - j,
    {
        used.push(j < WORD_LEN && guess[j] == target[j]);
        j += 1;
    }

    proof {
        assert forall|c: char| #[trigger]
            consumed(used@, guess@, target@, c, n as int) == vstd::math::min(
                claims(guess@, target@, c, 0) as int,
                spare(guess@, target@, c, n as int) as int,
            ) by {
            lemma_none_consumed(used@, guess@, target@, c, n as int);
        }
    }

    let mut letters: [(char, Mark); 5] = [(guess[0], Mark::Absent);5];
    let mut i: usize = 0;
    while i < WORD_LEN
        invariant
            i <= WORD_LEN,
            n == target@.len(),
            guess@.len() == WORD_LEN,
            used@.len() == n,
            forall|k: int| 0 <= k < n && exact(guess@, target@, k) ==> #[trigger] used@[k],
            forall|c: char| #[trigger]
                consumed(used@, guess@, target@, c, n as int) == vstd::math::min(
                    claims(guess@, target@, c, i as int) as int,
                    spare(guess@, target@, c, n as int) as int,
                ),
            forall|k: int|
                0 <= k < i ==> #[trigger] letters@[k] == (
                    guess@[k],
                    mark_at(guess@, target@, k),
                ),
        decreases WORD_LEN - i,
    {
        let c = guess[i];
        let mark = if i < n && target[i] == c {
            Mark::Correct
        } else {
            match first_free(&target, &used, c) {
                Some(j) => {
                    proof {
                        lemma_free_spare(used@, guess@, target@, c, n as int, j as int);
                        assert forall|d: char| #[trigger]
                            consumed(used@.update(j as int, true), guess@, target@, d, n as int)
                                == vstd::math::min(
                                claims(guess@, target@, d, i + 1) as int,
                                spare(guess@, target@, d, n as int) as int,
                            ) by {
                            lemma_consume(used@, guess@, target@, d, n as int, j as int);
                        }
                    }
                    used.set(j, true);
                    Mark::Present
                },
                None => {
                    proof {
                        lemma_no_free_spare(used@, guess@, target@, c, n as int);
                    }
                    Mark::Absent
                },
            }
        };
        letters[i] = (c, mark);
        i += 1;
    }
    let g = Guess { letters };
    proof {
        assert(g@ =~= verdict(input@, answer@));
        if input@ == answer@ {
            lemma_equal_all_correct(input@);
        }
        if disjoint(input@, answer@) {
            lemma_disjoint_all_absent(input@, answer@);
        }
    }
    g
}

/// The upper-case form of a text, as `str::to_uppercase` gives it.
pub uninterp spec fn uppercase(text: Seq<char>) -> Seq<char>;

/// Calls `str::to_uppercase`. The upper-case form of a text depends on the
/// text alone; what it is, letter by letter, is left to the standard library.
#[verifier::external_body]
pub(crate) fn to_uppercase(text: &str) -> (upper: String)
    ensures
        upper@ == uppercase(text@),
{
    text.to_uppercase()
}

/// The guess has five letters, as it came and in upper case.
pub open spec fn fits(guess: Seq<char>) -> bool {
    guess.len() == WORD_LEN && uppercase(guess).len() == WORD_LEN
}

/// The score of a guess against an answer, both taken in upper case; `None`
/// where the guess does not have five letters as it came and in upper case.
pub open spec fn judged(guess: Seq<char>, answer: Seq<char>) -> Option<Seq<(char, Mark)>> {
    if fits(guess) {
        Some(verdict(uppercase(guess), uppercase(answer)))
    } else {
        None
    }
}

/// A guess that is the answer, in whatever case the two are written, is
/// judged `Correct` at every position.
pub proof fn lemma_answer_judged_all_correct(guess: Seq<char>, answer: Seq<char>)
    requires
        uppercase(guess) == uppercase(answer),
        fits(guess),
    ensures
        judged(guess, answer) matches Some(scored) && all_correct(scored),
{
    lemma_equal_all_correct(uppercase(guess));
}

/// A guess that in upper case shares no letter with the answer in upper case
/// is judged `Absent` at every position.
pub proof fn lemma_stranger_judged_all_absent(guess: Seq<char>, answer: Seq<char>)
    requires
        disjoint(uppercase(guess), uppercase(answer)),
        fits(guess),
    ensures
        judged(guess, answer) matches Some(scored) && all_absent(scored),
{
    lemma_disjoint_all_absent(uppercase(guess), uppercase(answer));
}

/// Judges a guess against an answer without regard to case. A guess that
/// does not have five letters, as it came or in upper case, is not judged.
pub fn judge(input: &str, answer: &str) -> (g: Option<Guess>)
    ensures
        match judged(input@, answer@) {
            Some(scored) => g matches Some(guess) && guess@ == scored,
            None => g.is_none(),
        },
        g.is_some() <==> fits(input@),
        g matches Some(guess) ==> forall|i: int|
            0 <= i < WORD_LEN ==> (#[trigger] guess@[i]).0 == uppercase(input@)[i] && (guess@[i].1
                == Mark::Correct <==> exact(uppercase(input@), uppercase(answer@), i)),
        input@ == answer@ || uppercase(input@) == uppercase(answer@) ==> (g matches Some(guess)
            ==> all_correct(guess@)),
        disjoint(uppercase(input@), uppercase(answer@)) ==> (g matches Some(guess) ==> all_absent(
            guess@,
        )),
{
    if input.unicode_len() != WORD_LEN {
        return None;
    }
    let guess = to_uppercase(input);
    if guess.as_str().unicode_len() != WORD_LEN {
        return None;
    }
    let target = to_uppercase(answer);
    Some(score(guess.as_str(), target.as_str()))
}

} // verus!
