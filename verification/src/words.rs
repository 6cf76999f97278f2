//! Words as sequences of characters: lookup of a character's first
//! position, word equality, membership in a word list, and the candidate
//! pool (word bank minus already-guessed words).

use vstd::prelude::*;

verus! {

/// Position of the first occurrence of `c` in `s`; equals `s.len()` when
/// `c` does not occur.
pub open spec fn first_index_of(s: Seq<char>, c: char) -> int
    decreases s.len(),
{
    if s.len() == 0 {
        0
    } else if s[0] == c {
        0
    } else {
        1 + first_index_of(s.subrange(1, s.len() as int), c)
    }
}

/// What `first_index_of` returns: the least position holding `c`, or the
/// length when `c` is absent.
pub proof fn lemma_first_index_of(s: Seq<char>, c: char)
    ensures
        0 <= first_index_of(s, c) <= s.len(),
        s.contains(c) <==> first_index_of(s, c) < s.len(),
        first_index_of(s, c) < s.len() ==> s[first_index_of(s, c)] == c,
        forall|k: int| 0 <= k < first_index_of(s, c) ==> s[k] != c,
    decreases s.len(),
{
    if s.len() == 0 {
        assert(!s.contains(c)) by {
            if s.contains(c) {
                let i = choose|i: int| 0 <= i < s.len() && s[i] == c;
            }
        }
    } else if s[0] == c {
        assert(s.contains(c));
    } else {
        let t = s.subrange(1, s.len() as int);
        lemma_first_index_of(t, c);
        assert(s.contains(c) <==> t.contains(c)) by {
            if s.contains(c) {
                let i = choose|i: int| 0 <= i < s.len() && s[i] == c;
                assert(i != 0);
                assert(t[i - 1] == c);
                assert(t.contains(c));
            }
            if t.contains(c) {
                let i = choose|i: int| 0 <= i < t.len() && t[i] == c;
                assert(s[i + 1] == c);
                assert(s.contains(c));
            }
        }
        assert forall|k: int| 0 <= k < first_index_of(s, c) implies s[k] != c by {
            if k > 0 {
                assert(s[k] == t[k - 1]);
            }
        }
    }
}

/// Finds the first position of `c` in `w`, or `None` when absent.
pub fn find_char(w: &Vec<char>, c: char) -> (r: Option<usize>)
    ensures
        match r {
            Some(i) => w@.contains(c) && i == first_index_of(w@, c),
            None => !w@.contains(c),
        },
{
    proof {
        lemma_first_index_of(w@, c);
    }
    let n = w.len();
    for i in 0..n
        invariant
            n == w@.len(),
            forall|k: int| 0 <= k < i ==> w@[k] != c,
    {
        if w[i] == c {
            proof {
                lemma_first_index_of(w@, c);
                assert(w@.contains(c));
                assert(first_index_of(w@, c) == i) by {
                    let f = first_index_of(w@, c);
                    assert(w@[f] == c);
                }
            }
            return Some(i);
        }
    }
    proof {
        if w@.contains(c) {
            let i = choose|i: int| 0 <= i < w@.len() && w@[i] == c;
        }
    }
    None
}

/// True exactly when the two words hold the same characters in order.
pub fn words_equal(a: &Vec<char>, b: &Vec<char>) -> (r: bool)
    ensures
        r == (a@ == b@),
{
    if a.len() != b.len() {
        return false;
    }
    let n = a.len();
    for i in 0..n
        invariant
            n == a@.len(),
            a@.len() == b@.len(),
            forall|k: int| 0 <= k < i ==> a@[k] == b@[k],
    {
        if a[i] != b[i] {
            return false;
        }
    }
    proof {
        assert(a@ =~= b@);
    }
    true
}

/// Returns a fresh word holding the same characters.
pub fn copy_word(w: &Vec<char>) -> (r: Vec<char>)
    ensures
        r@ == w@,
{
    let mut r: Vec<char> = Vec::new();
    let n = w.len();
    for i in 0..n
        invariant
            n == w@.len(),
            r@ == w@.subrange(0, i as int),
    {
        r.push(w[i]);
        proof {
            assert(r@ =~= w@.subrange(0, i + 1));
        }
    }
    proof {
        assert(r@ =~= w@);
    }
    r
}

/// A word list abstracts to the sequence of its words' character
/// sequences.
pub broadcast proof fn lemma_word_deep_view(w: Vec<char>)
    ensures
        #[trigger] w.deep_view() == w@,
{
    assert(w.deep_view() =~= w@);
}

/// Indexing a word list's abstraction yields the word's characters.
pub broadcast proof fn lemma_deep_view_index(list: Vec<Vec<char>>, i: int)
    requires
        0 <= i < list@.len(),
    ensures
        #[trigger] list.deep_view()[i] == list@[i]@,
{
    assert(list.deep_view()[i] == list@[i].deep_view());
    assert(list@[i].deep_view() =~= list@[i]@);
}

/// Pushing a word onto a word list pushes its characters onto the
/// abstraction.
pub proof fn lemma_deep_view_push(before: Vec<Vec<char>>, after: Vec<Vec<char>>, w: Vec<char>)
    requires
        after@ == before@.push(w),
    ensures
        after.deep_view() == before.deep_view().push(w@),
{
    assert forall|k: int| 0 <= k < after@.len() implies after.deep_view()[k]
        == before.deep_view().push(w@)[k] by {
        assert(after.deep_view()[k] == after@[k].deep_view());
        if k < before@.len() {
            assert(after@[k] == before@[k]);
            assert(before.deep_view()[k] == before@[k].deep_view());
        } else {
            assert(after@[k] == w);
            assert(w.deep_view() =~= w@);
        }
    }
    assert(after.deep_view() =~= before.deep_view().push(w@));
}

/// True exactly when `w` is one of the words of `list`.
pub fn contains_word(list: &Vec<Vec<char>>, w: &Vec<char>) -> (r: bool)
    ensures
        r == list.deep_view().contains(w@),
{
    broadcast use lemma_word_deep_view, lemma_deep_view_index;

    let n = list.len();
    for i in 0..n
        invariant
            n == list@.len(),
            forall|k: int| 0 <= k < i ==> list.deep_view()[k] != w@,
    {
        if words_equal(&list[i], w) {
            proof {
                assert(list.deep_view()[i as int] == w@);
            }
            return true;
        }
        proof {
            assert(list.deep_view()[i as int] == list@[i as int]@);
        }
    }
    proof {
        if list.deep_view().contains(w@) {
            let i = choose|i: int| 0 <= i < list.deep_view().len() && list.deep_view()[i] == w@;
        }
    }
    false
}

/// A list of pairwise-distinct words, each of which occurs in `sup`, is
/// no longer than `sup`.
pub proof fn lemma_distinct_words_bound(sub: Seq<Seq<char>>, sup: Seq<Seq<char>>)
    requires
        sub.no_duplicates(),
        forall|i: int| 0 <= i < sub.len() ==> sup.contains(sub[i]),
    ensures
        sub.len() <= sup.len(),
{
    broadcast use vstd::seq_lib::seq_to_set_is_finite;

    sub.unique_seq_to_set();
    sup.lemma_cardinality_of_set();
    assert forall|w: Seq<char>| sub.to_set().contains(w) implies sup.to_set().contains(w) by {
        assert(sub.contains(w));
    }
    assert(sub.to_set().subset_of(sup.to_set()));
    vstd::set_lib::lemma_len_subset(sub.to_set(), sup.to_set());
}

/// Appending a word that does not occur yet keeps a word list free of
/// duplicates.
pub proof fn lemma_no_duplicates_push(s: Seq<Seq<char>>, w: Seq<char>)
    requires
        s.no_duplicates(),
        !s.contains(w),
    ensures
        s.push(w).no_duplicates(),
{
    let t = s.push(w);
    assert forall|i: int, j: int|
        0 <= i < t.len() && 0 <= j < t.len() && i != j implies t[i] != t[j] by {
        if i < s.len() && j < s.len() {
            assert(t[i] == s[i]);
            assert(t[j] == s[j]);
        } else if j == s.len() {
            assert(t[j] == w);
            assert(t[i] == s[i]);
            if s[i] == w {
                assert(s.contains(w));
            }
        } else {
            assert(t[i] == w);
            assert(t[j] == s[j]);
            if s[j] == w {
                assert(s.contains(w));
            }
        }
    }
}

/// The candidate pool: the words of `bank`, in order, that are not in
/// `guessed`.
pub open spec fn pool_of(bank: Seq<Seq<char>>, guessed: Seq<Seq<char>>) -> Seq<Seq<char>>
    decreases bank.len(),
{
    if bank.len() == 0 {
        Seq::empty()
    } else {
        let rest = pool_of(bank.drop_last(), guessed);
        if guessed.contains(bank.last()) {
            rest
        } else {
            rest.push(bank.last())
        }
    }
}

/// A word stands in the pool exactly when it stands in the bank and has
/// not been guessed.
pub proof fn lemma_pool_of_membership(bank: Seq<Seq<char>>, guessed: Seq<Seq<char>>, w: Seq<char>)
    ensures
        pool_of(bank, guessed).contains(w) <==> (bank.contains(w) && !guessed.contains(w)),
    decreases bank.len(),
{
    if bank.len() == 0 {
        assert(!bank.contains(w)) by {
            if bank.contains(w) {
                let i = choose|i: int| 0 <= i < bank.len() && bank[i] == w;
            }
        }
        assert(!pool_of(bank, guessed).contains(w)) by {
            if pool_of(bank, guessed).contains(w) {
                let i = choose|i: int|
                    0 <= i < pool_of(bank, guessed).len() && pool_of(bank, guessed)[i] == w;
            }
        }
    } else {
        let head = bank.drop_last();
        lemma_pool_of_membership(head, guessed, w);
        assert(bank.contains(w) <==> (head.contains(w) || bank.last() == w)) by {
            if bank.contains(w) {
                let i = choose|i: int| 0 <= i < bank.len() && bank[i] == w;
                if i < bank.len() - 1 {
                    assert(head[i] == w);
                }
            }
            if head.contains(w) {
                let i = choose|i: int| 0 <= i < head.len() && head[i] == w;
                assert(bank[i] == w);
            }
            if bank.last() == w {
                assert(bank[bank.len() - 1] == w);
            }
        }
        let rest = pool_of(head, guessed);
        if guessed.contains(bank.last()) {
        } else {
            assert(pool_of(bank, guessed).contains(w) <==> (rest.contains(w) || bank.last() == w))
                by {
                if pool_of(bank, guessed).contains(w) {
                    let i = choose|i: int|
                        0 <= i < rest.push(bank.last()).len() && rest.push(bank.last())[i] == w;
                    if i < rest.len() {
                        assert(rest[i] == w);
                    }
                }
                if rest.contains(w) {
                    let i = choose|i: int| 0 <= i < rest.len() && rest[i] == w;
                    assert(rest.push(bank.last())[i] == w);
                }
                if bank.last() == w {
                    assert(rest.push(bank.last())[rest.len() as int] == w);
                }
            }
        }
    }
}

/// Builds the candidate pool for one round: the bank's words, in bank
/// order, with the already-guessed words left out.
pub fn build_pool(bank: &Vec<Vec<char>>, guessed: &Vec<Vec<char>>) -> (pool: Vec<Vec<char>>)
    ensures
        pool.deep_view() == pool_of(bank.deep_view(), guessed.deep_view()),
{
    broadcast use lemma_word_deep_view, lemma_deep_view_index;

    let mut pool: Vec<Vec<char>> = Vec::new();
    let n = bank.len();
    for i in 0..n
        invariant
            n == bank@.len(),
            pool.deep_view() == pool_of(
                bank.deep_view().subrange(0, i as int),
                guessed.deep_view(),
            ),
    {
        let ghost prefix = bank.deep_view().subrange(0, i as int);
        let ghost next = bank.deep_view().subrange(0, i + 1);
        proof {
            assert(next.drop_last() =~= prefix);
            assert(next.last() == bank.deep_view()[i as int]);
            assert(bank.deep_view()[i as int] == bank@[i as int]@);
        }
        if !contains_word(guessed, &bank[i]) {
            let ghost pool0 = pool;
            let cw = copy_word(&bank[i]);
            pool.push(cw);
            proof {
                lemma_deep_view_push(pool0, pool, cw);
                assert(pool.deep_view() == pool_of(next, guessed.deep_view()));
            }
        } else {
            proof {
                assert(pool.deep_view() == pool_of(next, guessed.deep_view()));
            }
        }
    }
    proof {
        assert(bank.deep_view().subrange(0, bank@.len() as int) =~= bank.deep_view());
    }
    pool
}

/// Concatenates the guessable list and the legal-target list, in that
/// order and with duplicates kept, into the session's word bank.
pub fn build_word_bank(guessable: &Vec<Vec<char>>, legal: &Vec<Vec<char>>) -> (bank: Vec<Vec<char>>)
    ensures
        bank.deep_view() == guessable.deep_view() + legal.deep_view(),
{
    broadcast use lemma_word_deep_view, lemma_deep_view_index;

    let mut bank: Vec<Vec<char>> = Vec::new();
    let n = guessable.len();
    for i in 0..n
        invariant
            n == guessable@.len(),
            bank.deep_view() == guessable.deep_view().subrange(0, i as int),
    {
        let ghost bank0 = bank;
        let cw = copy_word(&guessable[i]);
        bank.push(cw);
        proof {
            lemma_deep_view_push(bank0, bank, cw);
            assert(guessable.deep_view()[i as int] == guessable@[i as int]@);
            assert(bank.deep_view() =~= guessable.deep_view().subrange(0, i + 1));
        }
    }
    proof {
        assert(guessable.deep_view().subrange(0, n as int) =~= guessable.deep_view());
        assert(bank.deep_view() =~= guessable.deep_view() + legal.deep_view().subrange(0, 0));
    }
    let m = legal.len();
    for i in 0..m
        invariant
            m == legal@.len(),
            bank.deep_view() == guessable.deep_view() + legal.deep_view().subrange(0, i as int),
    {
        let ghost bank0 = bank;
        let cw = copy_word(&legal[i]);
        bank.push(cw);
        proof {
            lemma_deep_view_push(bank0, bank, cw);
            assert(legal.deep_view()[i as int] == legal@[i as int]@);
            assert(bank.deep_view() =~= guessable.deep_view() + legal.deep_view().subrange(
                0,
                i + 1,
            ));
        }
    }
    proof {
        assert(guessable.deep_view().subrange(0, guessable@.len() as int) =~= guessable.deep_view());
        assert(legal.deep_view().subrange(0, legal@.len() as int) =~= legal.deep_view());
        assert(bank.deep_view() =~= guessable.deep_view() + legal.deep_view());
    }
    bank
}

} // verus!
