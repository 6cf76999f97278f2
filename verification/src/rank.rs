//! The guess-ranking heuristic: a word's score under the knowledge
//! store, and the first-best selection rule over a candidate pool.

use vstd::prelude::*;

use crate::store::CharacterStatus;
use crate::store::KnowledgeStore;

verus! {

/// Heuristic value of the character `c` standing at position `i`:
/// an unknown character is mildly preferred (+1), a confirmed correct
/// placement strongly rewarded (+5), a known-good but misplaced letter
/// mildly useful (+2, the same weight as `InWord`), and a known-absent
/// letter strongly penalized (-10).
pub open spec fn char_score(m: Map<char, CharacterStatus>, c: char, i: int) -> int {
    if m.contains_key(c) {
        match m[c] {
            CharacterStatus::CorrectPosition(j) => if j as int == i {
                5
            } else {
                2
            },
            CharacterStatus::InWord => 2,
            CharacterStatus::NotInWord => -10,
        }
    } else {
        1
    }
}

/// Sum of the character scores of the first `n` positions of `word`.
pub open spec fn rank_prefix(m: Map<char, CharacterStatus>, word: Seq<char>, n: int) -> int
    decreases n,
{
    if n <= 0 {
        0
    } else {
        rank_prefix(m, word, n - 1) + char_score(m, word[n - 1], n - 1)
    }
}

/// The rank score of a whole word under the knowledge store `m`.
pub open spec fn spec_rank(m: Map<char, CharacterStatus>, word: Seq<char>) -> int {
    rank_prefix(m, word, word.len() as int)
}

/// Every character contributes between -10 and 5, so a prefix's rank is
/// bounded by those multiples of its length.
proof fn lemma_rank_prefix_bounds(m: Map<char, CharacterStatus>, word: Seq<char>, n: int)
    requires
        0 <= n <= word.len(),
    ensures
        -10 * n <= rank_prefix(m, word, n) <= 5 * n,
    decreases n,
{
    if n > 0 {
        lemma_rank_prefix_bounds(m, word, n - 1);
    }
}

/// Computes a word's rank score under the knowledge store.
pub fn rank_word(store: &KnowledgeStore, word: &Vec<char>) -> (r: i128)
    requires
        store.wf(),
    ensures
        r == spec_rank(store@, word@),
{
    let mut rank: i128 = 0;
    let n = word.len();
    for i in 0..n
        invariant
            n == word@.len(),
            store.wf(),
            rank == rank_prefix(store@, word@, i as int),
            -10 * (i as int) <= rank <= 5 * (i as int),
    {
        let c = word[i];
        match store.status(c) {
            Some(CharacterStatus::CorrectPosition(j)) => {
                if j == i {
                    rank += 5;
                } else {
                    rank += 2;
                }
            },
            Some(CharacterStatus::InWord) => {
                rank += 2;
            },
            Some(CharacterStatus::NotInWord) => {
                rank -= 10;
            },
            None => {
                rank += 1;
            },
        }
    }
    rank
}

/// The first-best rule: position `i` of the pool holds a word of maximal
/// rank, and every earlier word ranks strictly lower. This is the
/// deterministic tie-break: among equally ranked words, the earliest in
/// pool order wins.
pub open spec fn is_first_best(
    m: Map<char, CharacterStatus>,
    pool: Seq<Seq<char>>,
    i: int,
) -> bool {
    &&& 0 <= i < pool.len()
    &&& forall|k: int| 0 <= k < pool.len() ==> spec_rank(m, pool[k]) <= spec_rank(m, pool[i])
    &&& forall|k: int| 0 <= k < i ==> spec_rank(m, pool[k]) < spec_rank(m, pool[i])
}

/// `w` is the word that the ranking selects from `pool` under `m`.
pub open spec fn is_selected(m: Map<char, CharacterStatus>, pool: Seq<Seq<char>>, w: Seq<char>) -> bool {
    exists|i: int| is_first_best(m, pool, i) && w == pool[i]
}

/// Law: ranking-based selection is a pure function of the knowledge
/// store and the candidate pool: on the same store and pool, any two
/// selected words are the same word.
pub proof fn lemma_selection_deterministic(
    m: Map<char, CharacterStatus>,
    pool: Seq<Seq<char>>,
    w1: Seq<char>,
    w2: Seq<char>,
)
    requires
        is_selected(m, pool, w1),
        is_selected(m, pool, w2),
    ensures
        w1 == w2,
{
    let i1 = choose|i: int| is_first_best(m, pool, i) && w1 == pool[i];
    let i2 = choose|i: int| is_first_best(m, pool, i) && w2 == pool[i];
    if i1 < i2 {
        assert(spec_rank(m, pool[i1]) < spec_rank(m, pool[i2]));
        assert(spec_rank(m, pool[i2]) <= spec_rank(m, pool[i1]));
    }
    if i2 < i1 {
        assert(spec_rank(m, pool[i2]) < spec_rank(m, pool[i1]));
        assert(spec_rank(m, pool[i1]) <= spec_rank(m, pool[i2]));
    }
}

/// Finds the position of the first word of maximal rank in a non-empty
/// pool.
pub fn best_in_pool(store: &KnowledgeStore, pool: &Vec<Vec<char>>) -> (r: usize)
    requires
        store.wf(),
        pool@.len() > 0,
    ensures
        is_first_best(store@, pool.deep_view(), r as int),
{
    broadcast use crate::words::lemma_deep_view_index;

    let mut best: usize = 0;
    let mut best_rank = rank_word(store, &pool[0]);
    proof {
        assert(pool.deep_view()[0] == pool@[0]@);
    }
    let n = pool.len();
    for i in 1..n
        invariant
            n == pool@.len(),
            store.wf(),
            (best as int) < i <= n,
            best_rank == spec_rank(store@, pool.deep_view()[best as int]),
            forall|k: int| 0 <= k < i ==> spec_rank(store@, pool.deep_view()[k]) <= best_rank,
            forall|k: int| 0 <= k < best ==> spec_rank(store@, pool.deep_view()[k]) < best_rank,
    {
        let r = rank_word(store, &pool[i]);
        proof {
            assert(pool.deep_view()[i as int] == pool@[i as int]@);
        }
        if r > best_rank {
            best = i;
            best_rank = r;
        }
    }
    best
}

} // verus!
