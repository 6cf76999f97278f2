//! The guess selector: validation of the target word and the choice of
//! the next guess from the candidate pool.

use vstd::prelude::*;

use crate::rank::best_in_pool;
use crate::rank::is_selected;
use crate::store::KnowledgeStore;
use crate::words::build_pool;
use crate::words::contains_word;
use crate::words::copy_word;
use crate::words::lemma_deep_view_index;
use crate::words::lemma_pool_of_membership;
use crate::words::pool_of;

verus! {

/// The session's failure modes.
#[derive(Copy, Clone, PartialEq, Eq, Structural, Debug)]
pub enum SolverError {
    /// The target word is not a member of the legal-target list.
    IllegalTarget,
    /// Every word of the bank has already been guessed.
    ExhaustedCandidates,
}

/// Relies on `rand::Rng::gen_range` over the range `0..n`, which returns
/// a value of that range drawn from the thread-local generator; it panics
/// only on an empty range, which the precondition rules out. Nothing more
/// is assumed of a random draw.
#[verifier::external_body]
fn random_below(n: usize) -> (r: usize)
    requires
        n > 0,
    ensures
        r < n,
{
    rand::Rng::gen_range(&mut rand::thread_rng(), 0..n)
}

/// Checks that the target word is a member of the legal-target list.
pub fn validate_target(legal: &Vec<Vec<char>>, target: &Vec<char>) -> (r: Result<
    (),
    SolverError,
>)
    ensures
        r is Ok <==> legal.deep_view().contains(target@),
        r is Err ==> r->Err_0 == SolverError::IllegalTarget,
{
    if contains_word(legal, target) {
        Ok(())
    } else {
        Err(SolverError::IllegalTarget)
    }
}

/// Picks the next guess: a word of the bank that has not been guessed
/// yet. With an empty knowledge store any candidate may come back (the
/// opening move is a random draw); once anything is known, the selected
/// word is the first candidate of maximal rank. Fails exactly when the
/// candidate pool is empty.
pub fn select_guess(
    bank: &Vec<Vec<char>>,
    guessed: &Vec<Vec<char>>,
    store: &KnowledgeStore,
) -> (r: Result<Vec<char>, SolverError>)
    requires
        store.wf(),
    ensures
        ({
            let pool = pool_of(bank.deep_view(), guessed.deep_view());
            match r {
                Ok(w) => {
                    &&& pool.contains(w@)
                    &&& bank.deep_view().contains(w@)
                    &&& !guessed.deep_view().contains(w@)
                    &&& (exists|c: char| store@.contains_key(c)) ==> is_selected(
                        store@,
                        pool,
                        w@,
                    )
                },
                Err(e) => e == SolverError::ExhaustedCandidates && pool.len() == 0,
            }
        }),
{
    broadcast use lemma_deep_view_index;

    let pool = build_pool(bank, guessed);
    if pool.len() == 0 {
        return Err(SolverError::ExhaustedCandidates);
    }
    let ghost pv = pool_of(bank.deep_view(), guessed.deep_view());
    if store.is_empty() {
        let idx = random_below(pool.len());
        let w = copy_word(&pool[idx]);
        proof {
            assert(pool.deep_view()[idx as int] == pool@[idx as int]@);
            assert(pv[idx as int] == w@);
            assert(pv.contains(w@));
            lemma_pool_of_membership(bank.deep_view(), guessed.deep_view(), w@);
        }
        return Ok(w);
    }
    let idx = best_in_pool(store, &pool);
    let w = copy_word(&pool[idx]);
    proof {
        assert(pool.deep_view()[idx as int] == pool@[idx as int]@);
        assert(pv[idx as int] == w@);
        assert(pv.contains(w@));
        lemma_pool_of_membership(bank.deep_view(), guessed.deep_view(), w@);
        assert(crate::rank::is_first_best(store@, pv, idx as int));
        assert(is_selected(store@, pv, w@));
    }
    Ok(w)
}

} // verus!
