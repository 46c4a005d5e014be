//! The game: a sorted dictionary of accepted guesses, a pool of answers, the
//! player's record and the answer drawn last.

use rand::Rng;
use vstd::prelude::*;
use vstd::string::StrSliceExecFns;
use crate::lexicon::{find, is_sorted, sorted, texts};
use crate::round::{Phase, Round, RoundView};
use crate::userdata::{with_win, UserData, UserDataView};
use crate::verdict::{
    all_absent, all_correct, disjoint, exact, fits, judge, judged, to_uppercase, uppercase, Guess, Mark,
    WORD_LEN,
};

verus! {

/// Calls `rand::Rng::gen_range` on the thread's generator with the range from
/// zero up to `len`, which must not be empty. Whatever is drawn lies in that
/// range; nothing else is known of it.
#[verifier::external_body]
fn random_index(len: usize) -> (index: usize)
    requires
        len > 0,
    ensures
        index < len,
{
    rand::thread_rng().gen_range(0..len)
}

/// Why a guess is refused.
#[derive(Clone, Copy, Debug, PartialEq, Eq, Structural)]
pub enum GuessError {
    /// The guess does not have five letters, as it came or in upper case.
    InvalidLength,
    /// The guess is not in the dictionary.
    UnknownWord,
}

impl GuessError {
    /// What the player is told.
    pub open spec fn message_text(self) -> Seq<char> {
        match self {
            GuessError::InvalidLength => "Your guess must be exactly 5 letters long!"@,
            GuessError::UnknownWord => "I've never seen that word before!"@,
        }
    }

    /// What the player is told.
    pub fn message(&self) -> (text: String)
        ensures
            text@ == self.message_text(),
    {
        match self {
            GuessError::InvalidLength => "Your guess must be exactly 5 letters long!".to_owned(),
            GuessError::UnknownWord => "I've never seen that word before!".to_owned(),
        }
    }
}

/// Why no game can be set up.
#[derive(Clone, Copy, Debug, PartialEq, Eq, Structural)]
pub enum SetupError {
    /// The dictionary is not sorted, so it cannot be searched.
    UnsortedDictionary,
    /// The pool holds no word to draw an answer from.
    EmptyWordPool,
}

impl SetupError {
    /// What the one who set the game up is told.
    pub open spec fn message_text(self) -> Seq<char> {
        match self {
            SetupError::UnsortedDictionary => "the dictionary is not sorted"@,
            SetupError::EmptyWordPool => "the word pool is empty"@,
        }
    }

    /// What the one who set the game up is told.
    pub fn message(&self) -> (text: String)
        ensures
            text@ == self.message_text(),
    {
        match self {
            SetupError::UnsortedDictionary => "the dictionary is not sorted".to_owned(),
            SetupError::EmptyWordPool => "the word pool is empty".to_owned(),
        }
    }
}

/// How a round ended: won, with the answer and the attempts it took, or
/// lost, with the answer.
#[derive(Clone, Debug, PartialEq, Eq)]
pub enum GameResult {
    Win(String, u8),
    Lose(String),
}

/// What a submitted guess led to, and so what is to be done next.
#[derive(Clone, Debug, PartialEq, Eq)]
pub enum Turn {
    /// The round was over already: nothing changed.
    Closed,
    /// The guess was refused and counts as no attempt: say why and ask again.
    Rejected(GuessError),
    /// The guess was scored and the round goes on: show the score and ask
    /// again.
    Scored(Guess),
    /// The guess was scored and ended the round: show the score, then on a
    /// win keep the record, on a loss reveal the answer.
    Finished(Guess, GameResult),
}

/// What a `Game` holds.
pub struct GameView {
    pub dictionary: Seq<Seq<char>>,
    pub word_pool: Seq<Seq<char>>,
    pub data: UserDataView,
    pub chosen: Seq<char>,
}

impl GameView {
    /// The dictionary can be searched and the pool can be drawn from.
    pub open spec fn wf(self) -> bool {
        sorted(self.dictionary) && self.word_pool.len() > 0
    }

    /// The guess as accepted, in upper case, or why it is refused. A guess
    /// is refused for its length first, then for being no word of the
    /// dictionary as it came.
    pub open spec fn validated(self, guess: Seq<char>) -> Result<Seq<char>, GuessError> {
        if guess.len() != WORD_LEN {
            Err(GuessError::InvalidLength)
        } else if !self.dictionary.contains(guess) {
            Err(GuessError::UnknownWord)
        } else {
            Ok(uppercase(guess))
        }
    }

    /// The score of a guess against the answer drawn last, both in upper
    /// case; `None` where the guess does not have five letters as it came
    /// and in upper case.
    pub open spec fn scored(self, guess: Seq<char>) -> Option<Seq<(char, Mark)>> {
        judged(guess, self.chosen)
    }

    /// What is answered to a word sent in as a guess against the answer
    /// drawn last.
    pub open spec fn reply_text(self, word: Seq<char>) -> Seq<char> {
        match self.validated(word) {
            Err(e) => e.message_text(),
            Ok(_) => match self.scored(word) {
                None => GuessError::InvalidLength.message_text(),
                Some(scored) => if all_correct(scored) {
                    "Correct!"@
                } else {
                    "Incorrect!"@
                },
            },
        }
    }

    /// The game with one more win in the given number of attempts.
    pub open spec fn with_win(self, attempts: u8) -> GameView {
        GameView {
            data: UserDataView { entries: with_win(self.data.entries, attempts), ..self.data },
            ..self
        }
    }

    /// Why a guess is refused in a round that awaits one, if it is: by the
    /// dictionary, or because its upper-case form does not have five letters.
    pub open spec fn refusal(self, round: RoundView, word: Seq<char>) -> Option<GuessError> {
        match self.validated(word) {
            Err(e) => Some(e),
            Ok(_) => if judged(word, round.answer) is None {
                Some(GuessError::InvalidLength)
            } else {
                None
            },
        }
    }

    /// The game and the round after a guess is submitted. A round that is
    /// over and a guess that is refused change nothing; a guess that is
    /// scored against the answer of the round advances the round, and a win
    /// is counted in the record.
    pub open spec fn play(self, round: RoundView, word: Seq<char>) -> (GameView, RoundView) {
        if round.phase != Phase::AwaitingGuess || self.refusal(round, word) is Some {
            (self, round)
        } else {
            let next = round.after_guess(all_correct(judged(word, round.answer).unwrap()));
            if next.phase == Phase::Won {
                (self.with_win(next.attempts as u8), next)
            } else {
                (self, next)
            }
        }
    }

    /// The game and the round after the guesses are submitted in turn.
    pub open spec fn play_all(self, round: RoundView, words: Seq<Seq<char>>) -> (
        GameView,
        RoundView,
    )
        decreases words.len(),
    {
        if words.len() == 0 {
            (self, round)
        } else {
            let (game, next) = self.play(round, words[0]);
            game.play_all(next, words.drop_first())
        }
    }

    /// What submitting a guess hands back.
    pub open spec fn answers(self, round: RoundView, word: Seq<char>, turn: Turn) -> bool {
        if round.phase != Phase::AwaitingGuess {
            turn == Turn::Closed
        } else {
            match self.refusal(round, word) {
                Some(e) => turn == Turn::Rejected(e),
                None => {
                    let scored = judged(word, round.answer).unwrap();
                    let next = round.after_guess(all_correct(scored));
                    match next.phase {
                        Phase::AwaitingGuess => turn matches Turn::Scored(g) && g@ == scored,
                        Phase::Won => turn matches Turn::Finished(g, GameResult::Win(answer, n))
                            && g@ == scored && answer@ == round.answer && n == next.attempts,
                        Phase::Lost => turn matches Turn::Finished(g, GameResult::Lose(answer))
                            && g@ == scored && answer@ == round.answer,
                    }
                },
            }
        }
    }

    /// The guess is accepted and scored in the round, and is not the answer.
    pub open spec fn misses(self, round: RoundView, word: Seq<char>) -> bool {
        self.refusal(round, word) is None && !all_correct(judged(word, round.answer).unwrap())
    }
}

/// A guess that is refused is no attempt: it changes neither the round nor
/// the game.
pub proof fn lemma_refused_guess_changes_nothing(game: GameView, round: RoundView, word: Seq<char>)
    requires
        game.refusal(round, word) is Some,
    ensures
        game.play(round, word) == (game, round),
{
}

/// No guess changes the answer of a round.
pub proof fn lemma_answer_stays(game: GameView, round: RoundView, word: Seq<char>)
    ensures
        game.play(round, word).1.answer == round.answer,
{
}

/// Submitting accepted guesses that are not the answer never changes the
/// game, and so not its record; submitting `k` of them to a round at its
/// start makes it a round after `k` misses.
pub proof fn lemma_misses(game: GameView, round: RoundView, words: Seq<Seq<char>>)
    requires
        forall|i: int| 0 <= i < words.len() ==> game.misses(round, #[trigger] words[i]),
    ensures
        game.play_all(round, words).0 == game,
        game.play_all(round, words).1 == round.after_misses(words.len()),
    decreases words.len(),
{
    if words.len() > 0 {
        let rest = words.drop_first();
        let next = round.after_guess(false);
        assert(game.misses(round, words[0]));
        assert(game.play(round, words[0]) == (game, next));
        assert forall|i: int| 0 <= i < rest.len() implies game.misses(next, #[trigger] rest[i]) by {
            assert(rest[i] == words[i + 1]);
            assert(game.misses(round, words[i + 1]));
            assert(next.answer == round.answer);
        }
        lemma_misses(game, next, rest);
    }
}

/// Six accepted guesses in a row, none of them the answer, lose the round
/// whatever the answer is, and leave the record as it was.
pub proof fn lemma_six_misses_lose(game: GameView, answer: Seq<char>, words: Seq<Seq<char>>)
    requires
        words.len() == 6,
        forall|i: int|
            0 <= i < words.len() ==> game.misses(RoundView::start(answer), #[trigger] words[i]),
    ensures
        game.play_all(RoundView::start(answer), words).1.phase == Phase::Lost,
        game.play_all(RoundView::start(answer), words).0 == game,
        game.play_all(RoundView::start(answer), words).0.data.entries == game.data.entries,
{
    lemma_misses(game, RoundView::start(answer), words);
    crate::round::lemma_misses_from_start(answer, 6);
}

/// The game.
pub struct Game {
    dictionary: Vec<String>,
    word_pool: Vec<String>,
    data: UserData,
    chosen: String,
}

impl View for Game {
    type V = GameView;

    closed spec fn view(&self) -> GameView {
        GameView {
            dictionary: texts(self.dictionary@),
            word_pool: texts(self.word_pool@),
            data: self.data@,
            chosen: self.chosen@,
        }
    }
}

impl Game {
    #[verifier::type_invariant]
    spec fn inv(self) -> bool {
        self@.wf()
    }

    /// Sets a game up from the dictionary of accepted guesses, the pool of
    /// answers and the player's record. No answer is chosen yet. The
    /// dictionary must be sorted and the pool must hold a word.
    pub fn new(dictionary: Vec<String>, word_pool: Vec<String>, data: UserData) -> (made: Result<
        Game,
        SetupError,
    >)
        ensures
            match made {
                Ok(game) => {
                    &&& game@.wf()
                    &&& game@.dictionary == texts(dictionary@)
                    &&& game@.word_pool == texts(word_pool@)
                    &&& game@.data == data@
                    &&& game@.chosen == Seq::<char>::empty()
                },
                Err(e) => e == if !sorted(texts(dictionary@)) {
                    SetupError::UnsortedDictionary
                } else {
                    SetupError::EmptyWordPool
                },
            },
            made.is_ok() <==> sorted(texts(dictionary@)) && word_pool@.len() > 0,
    {
        if !is_sorted(&dictionary) {
            return Err(SetupError::UnsortedDictionary);
        }
        if word_pool.len() == 0 {
            return Err(SetupError::EmptyWordPool);
        }
        Ok(Game { dictionary, word_pool, data, chosen: String::new() })
    }

    /// Takes the word at `index` of the pool as the answer.
    pub fn choose_word(&mut self, index: usize) -> (word: &String)
        requires
            index < old(self)@.word_pool.len(),
        ensures
            word@ == old(self)@.word_pool[index as int],
            final(self)@ == (GameView { chosen: word@, ..old(self)@ }),
    {
        proof {
            use_type_invariant(&*self);
        }
        self.chosen = self.word_pool[index].clone();
        &self.chosen
    }

    /// Draws a word of the pool at random and takes it as the answer.
    pub fn get_random_word(&mut self) -> (word: &String)
        ensures
            old(self)@.word_pool.contains(word@),
            final(self)@ == (GameView { chosen: word@, ..old(self)@ }),
    {
        proof {
            use_type_invariant(&*self);
        }
        let index = random_index(self.word_pool.len());
        self.choose_word(index)
    }

    /// Begins a round: draws its answer and hands out the round against that
    /// answer at its start.
    pub fn start_round(&mut self) -> (round: Round)
        ensures
            old(self)@.word_pool.contains(final(self)@.chosen),
            final(self)@ == (GameView { chosen: final(self)@.chosen, ..old(self)@ }),
            round@ == RoundView::start(final(self)@.chosen),
    {
        let answer = self.get_random_word().clone();
        Round::new(answer)
    }

    /// Scores a guess against the answer drawn last, without regard to case.
    /// A guess that does not have five letters, as it came or in upper case,
    /// gets no score.
    pub fn check(&self, input: &str) -> (g: Option<Guess>)
        ensures
            match self@.scored(input@) {
                Some(scored) => g matches Some(guess) && guess@ == scored,
                None => g.is_none(),
            },
            g.is_some() <==> fits(input@),
            g matches Some(guess) ==> forall|i: int|
                0 <= i < WORD_LEN ==> (#[trigger] guess@[i]).0 == uppercase(input@)[i] && (
                guess@[i].1 == Mark::Correct <==> exact(
                    uppercase(input@),
                    uppercase(self@.chosen),
                    i,
                )),
            input@ == self@.chosen || uppercase(input@) == uppercase(self@.chosen) ==> (
            g matches Some(guess) ==> all_correct(guess@)),
            disjoint(uppercase(input@), uppercase(self@.chosen)) ==> (g matches Some(guess)
                ==> all_absent(guess@)),
    {
        judge(input, self.chosen.as_str())
    }

    /// Accepts a guess that has five letters and stands in the dictionary as
    /// it came, and hands it back in upper case; refuses any other, for its
    /// length first.
    pub fn validate_input(&self, guess: &String) -> (r: Result<String, GuessError>)
        ensures
            match self@.validated(guess@) {
                Ok(word) => r matches Ok(accepted) && accepted@ == word,
                Err(e) => r == Err::<String, GuessError>(e),
            },
            guess@.len() != WORD_LEN ==> r == Err::<String, GuessError>(GuessError::InvalidLength),
            guess@.len() == WORD_LEN ==> (r.is_ok() <==> self@.dictionary.contains(guess@)),
            guess@.len() == WORD_LEN && !self@.dictionary.contains(guess@) ==> r == Err::<
                String,
                GuessError,
            >(GuessError::UnknownWord),
            r matches Ok(accepted) ==> accepted@ == uppercase(guess@),
    {
        proof {
            use_type_invariant(self);
        }
        if guess.as_str().unicode_len() != WORD_LEN {
            return Err(GuessError::InvalidLength);
        }
        match find(&self.dictionary, guess.as_str()) {
            Some(i) => {
                assert(texts(self.dictionary@)[i as int] == guess@);
                Ok(to_uppercase(guess.as_str()))
            },
            None => Err(GuessError::UnknownWord),
        }
    }

    /// Answers a word sent in as a guess against the answer drawn last: why
    /// it is refused, or whether it is the answer.
    pub fn guess(&self, word: &String) -> (reply: String)
        ensures
            reply@ == self@.reply_text(word@),
    {
        match self.validate_input(word) {
            Ok(_) => match self.check(word.as_str()) {
                Some(scored) => {
                    if scored.is_win() {
                        "Correct!".to_owned()
                    } else {
                        "Incorrect!".to_owned()
                    }
                },
                None => GuessError::InvalidLength.message(),
            },
            Err(e) => e.message(),
        }
    }

    /// Takes a guess in the round: refuses it, or scores it against the
    /// answer of the round and advances the round. A win is counted in the
    /// record under the attempts it took.
    pub fn submit(&mut self, round: &mut Round, word: &String) -> (turn: Turn)
        ensures
            (final(self)@, final(round)@) == old(self)@.play(old(round)@, word@),
            old(self)@.answers(old(round)@, word@, turn),
    {
        proof {
            use_type_invariant(&*self);
        }
        if round.is_over() {
            return Turn::Closed;
        }
        match self.validate_input(word) {
            Ok(_) => {},
            Err(e) => {
                return Turn::Rejected(e);
            },
        }
        let scored = match judge(word.as_str(), round.answer().as_str()) {
            Some(scored) => scored,
            None => {
                return Turn::Rejected(GuessError::InvalidLength);
            },
        };
        round.advance(scored.is_win());
        match round.phase() {
            Phase::AwaitingGuess => Turn::Scored(scored),
            Phase::Won => {
                let attempts = round.attempts();
                self.data = self.data.after_win(attempts);
                Turn::Finished(scored, GameResult::Win(round.answer().clone(), attempts))
            },
            Phase::Lost => Turn::Finished(scored, GameResult::Lose(round.answer().clone())),
        }
    }

    /// The player's record.
    pub fn data(&self) -> (data: &UserData)
        ensures
            data@ == self@.data,
    {
        &self.data
    }

    /// The answer drawn last; empty before the first draw.
    pub fn chosen(&self) -> (word: &String)
        ensures
            word@ == self@.chosen,
    {
        &self.chosen
    }
}

} // verus!
