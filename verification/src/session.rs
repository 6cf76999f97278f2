//! One solving session: the knowledge store, the guessed-set and the
//! round counter, with the round step and the full solving loop.

use vstd::prelude::*;

use crate::rank::is_selected;
use crate::select::select_guess;
use crate::select::SolverError;
use crate::store::spec_update;
use crate::store::CharacterStatus;
use crate::store::KnowledgeStore;
use crate::words::copy_word;
use crate::words::lemma_deep_view_push;
use crate::words::lemma_distinct_words_bound;
use crate::words::lemma_no_duplicates_push;
use crate::words::lemma_pool_of_membership;
use crate::words::pool_of;
use crate::words::words_equal;

verus! {

/// What one round produced: the guess, and whether it equals the target.
#[derive(Debug)]
pub struct RoundOutcome {
    pub guess: Vec<char>,
    pub correct: bool,
}

/// The state of one solving session. The knowledge store and the
/// guessed-set accumulate across rounds; the counter counts every round,
/// the winning one included.
pub struct Session {
    pub store: KnowledgeStore,
    pub guessed: Vec<Vec<char>>,
    pub num_guesses: u64,
}

impl Session {
    /// The session's knowledge store abstracts to a map.
    pub open spec fn wf(self) -> bool {
        self.store.wf()
    }

    /// Starts a session: nothing known, nothing guessed, zero rounds.
    pub fn new() -> (s: Session)
        ensures
            s.wf(),
            s.store@ == Map::<char, CharacterStatus>::empty(),
            s.guessed@ == Seq::<Vec<char>>::empty(),
            s.num_guesses == 0,
    {
        Session { store: KnowledgeStore::new(), guessed: Vec::new(), num_guesses: 0 }
    }

    /// Plays one round: selects a guess from the candidate pool, records
    /// its feedback against the target in the knowledge store, counts the
    /// round, and appends the guess to the guessed-set unless it was
    /// correct. Fails exactly when the candidate pool is empty, leaving
    /// the session unchanged.
    pub fn play_round(&mut self, bank: &Vec<Vec<char>>, target: &Vec<char>) -> (r: Result<
        RoundOutcome,
        SolverError,
    >)
        requires
            old(self).wf(),
            old(self).num_guesses < u64::MAX,
        ensures
            final(self).wf(),
            ({
                let pool = pool_of(bank.deep_view(), old(self).guessed.deep_view());
                match r {
                    Ok(out) => {
                        &&& pool.contains(out.guess@)
                        &&& bank.deep_view().contains(out.guess@)
                        &&& !old(self).guessed.deep_view().contains(out.guess@)
                        &&& ((exists|c: char| old(self).store@.contains_key(c)) ==> is_selected(
                            old(self).store@,
                            pool,
                            out.guess@,
                        ))
                        &&& out.correct == (out.guess@ == target@)
                        &&& final(self).store@ == spec_update(old(self).store@, out.guess@, target@)
                        &&& final(self).num_guesses == old(self).num_guesses + 1
                        &&& (out.correct ==> final(self).guessed == old(self).guessed)
                        &&& (!out.correct ==> final(self).guessed.deep_view() == old(
                            self,
                        ).guessed.deep_view().push(out.guess@))
                    },
                    Err(e) => {
                        &&& e == SolverError::ExhaustedCandidates
                        &&& pool.len() == 0
                        &&& *final(self) == *old(self)
                    },
                }
            }),
    {
        let guess = match select_guess(bank, &self.guessed, &self.store) {
            Ok(g) => g,
            Err(e) => {
                return Err(e);
            },
        };
        self.store.update(&guess, target);
        self.num_guesses = self.num_guesses + 1;
        let correct = words_equal(&guess, target);
        if !correct {
            let ghost g0 = self.guessed;
            let cw = copy_word(&guess);
            self.guessed.push(cw);
            proof {
                lemma_deep_view_push(g0, self.guessed, cw);
            }
        }
        Ok(RoundOutcome { guess, correct })
    }
}

/// What a finished session reports: every guess made, in order, the
/// winning one last, and the round count.
#[derive(Debug)]
pub struct SolveOutcome {
    pub guesses: Vec<Vec<char>>,
    pub num_guesses: u64,
}

/// Runs a whole session against `target`: rounds are played until the
/// guess equals the target or the candidate pool runs out. Succeeds
/// whenever the bank holds the target; the loop provably terminates,
/// within one round per bank word.
pub fn solve(bank: &Vec<Vec<char>>, target: &Vec<char>) -> (r: Result<SolveOutcome, SolverError>)
    requires
        bank@.len() < u64::MAX,
    ensures
        ({
            match r {
                Ok(out) => {
                    &&& out.guesses@.len() >= 1
                    &&& out.num_guesses == out.guesses@.len()
                    &&& out.num_guesses <= bank@.len()
                    &&& out.guesses.deep_view().last() == target@
                    &&& (forall|i: int|
                        0 <= i < out.guesses.deep_view().len() - 1
                            ==> out.guesses.deep_view()[i] != target@)
                    &&& (forall|i: int|
                        0 <= i < out.guesses.deep_view().len() ==> bank.deep_view().contains(
                            out.guesses.deep_view()[i],
                        ))
                    &&& out.guesses.deep_view().no_duplicates()
                },
                Err(e) => e == SolverError::ExhaustedCandidates && !bank.deep_view().contains(
                    target@,
                ),
            }
        }),
        bank.deep_view().contains(target@) ==> r is Ok,
{
    let mut session = Session::new();
    let mut guesses: Vec<Vec<char>> = Vec::new();
    proof {
        assert(session.guessed.deep_view() =~= Seq::<Seq<char>>::empty());
        assert(guesses.deep_view() =~= Seq::<Seq<char>>::empty());
    }
    loop
        invariant
            session.wf(),
            session.num_guesses == session.guessed@.len(),
            guesses.deep_view() == session.guessed.deep_view(),
            session.guessed.deep_view().no_duplicates(),
            forall|i: int|
                0 <= i < session.guessed.deep_view().len() ==> bank.deep_view().contains(
                    session.guessed.deep_view()[i],
                ),
            forall|i: int|
                0 <= i < session.guessed.deep_view().len() ==> session.guessed.deep_view()[i]
                    != target@,
            bank@.len() < u64::MAX,
        decreases bank@.len() - session.guessed@.len(),
    {
        proof {
            lemma_distinct_words_bound(session.guessed.deep_view(), bank.deep_view());
        }
        let ghost pre = session;
        match session.play_round(bank, target) {
            Err(e) => {
                proof {
                    if bank.deep_view().contains(target@) {
                        lemma_pool_of_membership(
                            bank.deep_view(),
                            pre.guessed.deep_view(),
                            target@,
                        );
                        let pool = pool_of(bank.deep_view(), pre.guessed.deep_view());
                        assert(pool.contains(target@));
                        let i = choose|i: int| 0 <= i < pool.len() && pool[i] == target@;
                    }
                }
                return Err(e);
            },
            Ok(out) => {
                let correct = out.correct;
                let guess = out.guess;
                let ghost guesses0 = guesses;
                guesses.push(guess);
                proof {
                    lemma_deep_view_push(guesses0, guesses, guess);
                    lemma_pool_of_membership(bank.deep_view(), pre.guessed.deep_view(), guess@);
                    lemma_no_duplicates_push(pre.guessed.deep_view(), guess@);
                }
                if correct {
                    proof {
                        lemma_distinct_words_bound(guesses.deep_view(), bank.deep_view());
                    }
                    return Ok(SolveOutcome { guesses, num_guesses: session.num_guesses });
                }
                proof {
                    lemma_distinct_words_bound(session.guessed.deep_view(), bank.deep_view());
                }
            },
        }
    }
}

} // verus!
