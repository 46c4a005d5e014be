//! One round of the game as a state machine.
//!
//! A round is played against one answer, which it holds from its beginning
//! and never changes. It begins awaiting a guess, with no attempt made. A guess that is
//! scored counts as one attempt: the round is won if every letter is correct,
//! lost if the sixth attempt is not a win, and awaits the next guess
//! otherwise. A guess that is refused leaves the round as it was. Won and
//! lost rounds take no further guess.

use vstd::prelude::*;

verus! {

/// The number of attempts a round allows.
pub const MAX_ATTEMPTS: u8 = 6;

/// Where a round stands.
#[derive(Clone, Copy, Debug, PartialEq, Eq, Structural)]
pub enum Phase {
    /// The next guess is awaited.
    AwaitingGuess,
    /// A guess was correct in every letter.
    Won,
    /// The attempts are used up without a win.
    Lost,
}

/// What a `Round` holds.
pub struct RoundView {
    pub answer: Seq<char>,
    pub attempts: nat,
    pub phase: Phase,
}

impl RoundView {
    /// A round that awaits a guess has an attempt left, a won round took at
    /// least one, and a lost round took them all.
    pub open spec fn wf(self) -> bool {
        match self.phase {
            Phase::AwaitingGuess => self.attempts < MAX_ATTEMPTS,
            Phase::Won => 1 <= self.attempts <= MAX_ATTEMPTS,
            Phase::Lost => self.attempts == MAX_ATTEMPTS,
        }
    }

    /// The round against the answer at its beginning.
    pub open spec fn start(answer: Seq<char>) -> RoundView {
        RoundView { answer, attempts: 0, phase: Phase::AwaitingGuess }
    }

    /// The round after a guess was scored; `win` says whether every letter
    /// of it was correct. The answer stays what it was.
    pub open spec fn after_guess(self, win: bool) -> RoundView {
        if self.phase != Phase::AwaitingGuess {
            self
        } else if win {
            RoundView { attempts: self.attempts + 1, phase: Phase::Won, ..self }
        } else if self.attempts + 1 >= MAX_ATTEMPTS {
            RoundView { attempts: self.attempts + 1, phase: Phase::Lost, ..self }
        } else {
            RoundView { attempts: self.attempts + 1, phase: Phase::AwaitingGuess, ..self }
        }
    }

    /// The round after a run of scored guesses, none of which was a win.
    pub open spec fn after_misses(self, misses: nat) -> RoundView
        decreases misses,
    {
        if misses == 0 {
            self
        } else {
            self.after_guess(false).after_misses((misses - 1) as nat)
        }
    }
}

/// A round: its answer, the attempts made and the phase reached.
#[derive(Debug, PartialEq, Eq)]
pub struct Round {
    answer: String,
    attempts: u8,
    phase: Phase,
}

impl View for Round {
    type V = RoundView;

    closed spec fn view(&self) -> RoundView {
        RoundView { answer: self.answer@, attempts: self.attempts as nat, phase: self.phase }
    }
}

/// Scoring a guess keeps a round well formed and leaves its answer alone.
pub proof fn lemma_after_guess_wf(round: RoundView, win: bool)
    requires
        round.wf(),
    ensures
        round.after_guess(win).wf(),
        round.after_guess(win).answer == round.answer,
{
}

/// A round is lost by six misses from its start, and not before.
pub proof fn lemma_misses_from_start(answer: Seq<char>, misses: nat)
    requires
        misses <= MAX_ATTEMPTS,
    ensures
        RoundView::start(answer).after_misses(misses).answer == answer,
        RoundView::start(answer).after_misses(misses).attempts == misses,
        RoundView::start(answer).after_misses(misses).phase == if misses == MAX_ATTEMPTS {
            Phase::Lost
        } else {
            Phase::AwaitingGuess
        },
{
    reveal_with_fuel(RoundView::after_misses, 7);
}

impl Round {
    #[verifier::type_invariant]
    spec fn inv(self) -> bool {
        self@.wf()
    }

    /// A round against the answer, at its beginning.
    pub fn new(answer: String) -> (round: Round)
        ensures
            round@ == RoundView::start(answer@),
    {
        Round { answer, attempts: 0, phase: Phase::AwaitingGuess }
    }

    /// The answer of the round.
    pub fn answer(&self) -> (answer: &String)
        ensures
            answer@ == self@.answer,
    {
        &self.answer
    }

    /// The attempts made so far.
    pub fn attempts(&self) -> (n: u8)
        ensures
            n == self@.attempts,
            self@.wf(),
    {
        proof {
            use_type_invariant(self);
        }
        self.attempts
    }

    /// The phase reached.
    pub fn phase(&self) -> (phase: Phase)
        ensures
            phase == self@.phase,
    {
        self.phase
    }

    /// Whether the round is won or lost.
    pub fn is_over(&self) -> (over: bool)
        ensures
            over == (self@.phase != Phase::AwaitingGuess),
    {
        self.phase != Phase::AwaitingGuess
    }

    /// Takes the score of a guess into account.
    pub fn advance(&mut self, win: bool)
        ensures
            final(self)@ == old(self)@.after_guess(win),
    {
        proof {
            use_type_invariant(&*self);
        }
        if self.phase == Phase::AwaitingGuess {
            let attempts = self.attempts + 1;
            let phase = if win {
                Phase::Won
            } else if attempts >= MAX_ATTEMPTS {
                Phase::Lost
            } else {
                Phase::AwaitingGuess
            };
            let answer = self.answer.clone();
            *self = Round { answer, attempts, phase };
        }
    }
}

} // verus!
