//! The knowledge store: what has been learned about each character's role
//! in the target word, accumulated monotonically across rounds.

use vstd::prelude::*;

use crate::words::find_char;
use crate::words::first_index_of;
use vstd::pervasive::VecAdditionalExecFns;

verus! {

/// Best-known status of one character, scoped to one solving session.
#[derive(Copy, Clone, PartialEq, Eq, Structural, Debug)]
pub enum CharacterStatus {
    /// The character, placed at this position in a guess, matched the
    /// target's first occurrence of it at that same position.
    CorrectPosition(usize),
    /// The character occurs somewhere in the target, but no correct
    /// position is known for it yet.
    InWord,
    /// The character does not occur in the target at all.
    NotInWord,
}

/// A mapping from character to its best-known status, with unique keys.
/// Entries are only ever added or upgraded, never removed.
pub struct KnowledgeStore {
    entries: Vec<(char, CharacterStatus)>,
}

impl KnowledgeStore {
    /// The store's keys are pairwise distinct, so it abstracts to a map.
    pub closed spec fn wf(&self) -> bool {
        forall|i: int, j: int|
            0 <= i < j < self.entries@.len() ==> self.entries@[i].0 != self.entries@[j].0
    }

    /// The store viewed as a finite map from character to status.
    pub closed spec fn view(&self) -> Map<char, CharacterStatus> {
        Map::new(
            |c: char| exists|k: int| 0 <= k < self.entries@.len() && self.entries@[k].0 == c,
            |c: char|
                {
                    let k = choose|k: int|
                        0 <= k < self.entries@.len() && self.entries@[k].0 == c;
                    self.entries@[k].1
                },
        )
    }

    /// An entry at some index determines the map's value at its key.
    proof fn lemma_entry_determines_view(&self, i: int)
        requires
            self.wf(),
            0 <= i < self.entries@.len(),
        ensures
            self@.contains_key(self.entries@[i].0),
            self@[self.entries@[i].0] == self.entries@[i].1,
    {
        let c = self.entries@[i].0;
        assert(exists|k: int| 0 <= k < self.entries@.len() && self.entries@[k].0 == c);
        let k = choose|k: int| 0 <= k < self.entries@.len() && self.entries@[k].0 == c;
        assert(k == i);
    }

    /// Creates an empty store: nothing is known about any character.
    pub fn new() -> (s: Self)
        ensures
            s.wf(),
            s@ == Map::<char, CharacterStatus>::empty(),
    {
        let s = KnowledgeStore { entries: Vec::new() };
        proof {
            assert(s@ =~= Map::<char, CharacterStatus>::empty());
        }
        s
    }

    /// Looks a character up in the store; `None` means the character is
    /// still unknown.
    pub fn status(&self, c: char) -> (r: Option<CharacterStatus>)
        requires
            self.wf(),
        ensures
            match r {
                Some(s) => self@.contains_key(c) && self@[c] == s,
                None => !self@.contains_key(c),
            },
    {
        match self.find_entry(c) {
            Some(i) => {
                proof {
                    self.lemma_entry_determines_view(i as int);
                }
                Some(self.entries[i].1)
            },
            None => {
                proof {
                    if self@.contains_key(c) {
                        let k = choose|k: int|
                            0 <= k < self.entries@.len() && self.entries@[k].0 == c;
                        assert(self.entries@[k].0 != c);
                    }
                }
                None
            },
        }
    }

    /// Looks up the index of the entry for `c`, if one exists.
    fn find_entry(&self, c: char) -> (r: Option<usize>)
        ensures
            match r {
                Some(i) => i < self.entries@.len() && self.entries@[i as int].0 == c,
                None => forall|k: int| 0 <= k < self.entries@.len() ==> self.entries@[k].0 != c,
            },
    {
        let n = self.entries.len();
        for i in 0..n
            invariant
                n == self.entries@.len(),
                forall|k: int| 0 <= k < i ==> self.entries@[k].0 != c,
        {
            if self.entries[i].0 == c {
                return Some(i);
            }
        }
        None
    }

    /// Sets the status of `c`, adding an entry or overwriting the one that
    /// exists.
    fn set_status(&mut self, c: char, s: CharacterStatus)
        requires
            old(self).wf(),
        ensures
            final(self).wf(),
            final(self)@ == old(self)@.insert(c, s),
    {
        match self.find_entry(c) {
            Some(i) => {
                self.entries.set(i, (c, s));
                proof {
                    let old_e = old(self).entries@;
                    let new_e = self.entries@;
                    assert forall|p: int, q: int| 0 <= p < q < new_e.len() implies new_e[p].0
                        != new_e[q].0 by {
                        assert(new_e[p].0 == old_e[p].0);
                        assert(new_e[q].0 == old_e[q].0);
                    }
                    assert forall|d: char| self@.contains_key(d)
                        <==> old(self)@.insert(c, s).contains_key(d) by {
                        if self@.contains_key(d) {
                            let k = choose|k: int| 0 <= k < new_e.len() && new_e[k].0 == d;
                            if k != i as int {
                                assert(old_e[k].0 == d);
                            }
                        }
                        if old(self)@.insert(c, s).contains_key(d) {
                            if d == c {
                                assert(new_e[i as int].0 == c);
                            } else {
                                let k = choose|k: int| 0 <= k < old_e.len() && old_e[k].0 == d;
                                assert(k != i as int);
                                assert(new_e[k].0 == d);
                            }
                        }
                    }
                    assert forall|d: char| self@.contains_key(d) implies self@[d] == old(
                        self,
                    )@.insert(c, s)[d] by {
                        if d == c {
                            self.lemma_entry_determines_view(i as int);
                        } else {
                            let k = choose|k: int| 0 <= k < new_e.len() && new_e[k].0 == d;
                            assert(k != i as int);
                            assert(old_e[k].0 == d);
                            self.lemma_entry_determines_view(k);
                            old(self).lemma_entry_determines_view(k);
                        }
                    }
                    assert(self@ =~= old(self)@.insert(c, s));
                }
            },
            None => {
                self.entries.push((c, s));
                proof {
                    let old_e = old(self).entries@;
                    let new_e = self.entries@;
                    let n = old_e.len() as int;
                    assert forall|p: int, q: int| 0 <= p < q < new_e.len() implies new_e[p].0
                        != new_e[q].0 by {
                        if q < n {
                            assert(new_e[p].0 == old_e[p].0);
                            assert(new_e[q].0 == old_e[q].0);
                        } else {
                            assert(new_e[p].0 == old_e[p].0);
                            assert(new_e[q].0 == c);
                        }
                    }
                    assert forall|d: char| self@.contains_key(d)
                        <==> old(self)@.insert(c, s).contains_key(d) by {
                        if self@.contains_key(d) {
                            let k = choose|k: int| 0 <= k < new_e.len() && new_e[k].0 == d;
                            if k < n {
                                assert(old_e[k].0 == d);
                            }
                        }
                        if old(self)@.insert(c, s).contains_key(d) {
                            if d == c {
                                assert(new_e[n].0 == c);
                            } else {
                                let k = choose|k: int| 0 <= k < old_e.len() && old_e[k].0 == d;
                                assert(new_e[k].0 == d);
                            }
                        }
                    }
                    assert forall|d: char| self@.contains_key(d) implies self@[d] == old(
                        self,
                    )@.insert(c, s)[d] by {
                        if d == c {
                            self.lemma_entry_determines_view(n);
                        } else {
                            let k = choose|k: int| 0 <= k < new_e.len() && new_e[k].0 == d;
                            assert(k != n);
                            assert(old_e[k].0 == d);
                            self.lemma_entry_determines_view(k);
                            old(self).lemma_entry_determines_view(k);
                        }
                    }
                    assert(self@ =~= old(self)@.insert(c, s));
                }
            },
        }
    }

    /// True when nothing at all is known yet (the opening-move state).
    pub fn is_empty(&self) -> (r: bool)
        requires
            self.wf(),
        ensures
            r == (forall|c: char| !self@.contains_key(c)),
    {
        let r = self.entries.len() == 0;
        proof {
            if self.entries@.len() > 0 {
                self.lemma_entry_determines_view(0);
            }
        }
        r
    }
}

/// What one occurrence of `c` at position `i` of a guess does to the
/// store, given the target word.
pub open spec fn step_char(
    m: Map<char, CharacterStatus>,
    target: Seq<char>,
    c: char,
    i: int,
) -> Map<char, CharacterStatus> {
    if target.contains(c) {
        let p = first_index_of(target, c);
        if !m.contains_key(c) {
            if p == i {
                m.insert(c, CharacterStatus::CorrectPosition(i as usize))
            } else {
                m.insert(c, CharacterStatus::InWord)
            }
        } else if m[c] == CharacterStatus::InWord && p == i {
            m.insert(c, CharacterStatus::CorrectPosition(i as usize))
        } else {
            m
        }
    } else {
        if !m.contains_key(c) {
            m.insert(c, CharacterStatus::NotInWord)
        } else {
            m
        }
    }
}

/// The store after processing the first `n` positions of `guess`.
pub open spec fn update_prefix(
    m: Map<char, CharacterStatus>,
    guess: Seq<char>,
    target: Seq<char>,
    n: int,
) -> Map<char, CharacterStatus>
    decreases n,
{
    if n <= 0 {
        m
    } else {
        step_char(update_prefix(m, guess, target, n - 1), target, guess[n - 1], n - 1)
    }
}

/// The store after recording the feedback of one whole guess against the
/// target.
pub open spec fn spec_update(
    m: Map<char, CharacterStatus>,
    guess: Seq<char>,
    target: Seq<char>,
) -> Map<char, CharacterStatus> {
    update_prefix(m, guess, target, guess.len() as int)
}

/// One step of an update keeps every entry, keeps `CorrectPosition` and
/// `NotInWord` entries as they are, and moves `InWord` entries only to
/// `CorrectPosition`.
proof fn lemma_step_char_preserves(
    m: Map<char, CharacterStatus>,
    target: Seq<char>,
    c2: char,
    i: int,
    c: char,
)
    ensures
        m.contains_key(c) ==> step_char(m, target, c2, i).contains_key(c),
        m.contains_key(c) && m[c] is CorrectPosition ==> step_char(m, target, c2, i)[c] == m[c],
        m.contains_key(c) && m[c] == CharacterStatus::InWord ==> (step_char(m, target, c2, i)[c]
            == CharacterStatus::InWord || step_char(m, target, c2, i)[c] is CorrectPosition),
        m.contains_key(c) && m[c] == CharacterStatus::NotInWord ==> step_char(m, target, c2, i)[c]
            == CharacterStatus::NotInWord,
{
}

/// `lemma_step_char_preserves`, extended over a whole guess prefix.
proof fn lemma_update_prefix_preserves(
    m: Map<char, CharacterStatus>,
    guess: Seq<char>,
    target: Seq<char>,
    n: int,
    c: char,
)
    ensures
        m.contains_key(c) ==> update_prefix(m, guess, target, n).contains_key(c),
        m.contains_key(c) && m[c] is CorrectPosition ==> update_prefix(m, guess, target, n)[c]
            == m[c],
        m.contains_key(c) && m[c] == CharacterStatus::InWord ==> (update_prefix(
            m,
            guess,
            target,
            n,
        )[c] == CharacterStatus::InWord || update_prefix(m, guess, target, n)[c]
            is CorrectPosition),
        m.contains_key(c) && m[c] == CharacterStatus::NotInWord ==> update_prefix(
            m,
            guess,
            target,
            n,
        )[c] == CharacterStatus::NotInWord,
    decreases n,
{
    if n > 0 {
        let prev = update_prefix(m, guess, target, n - 1);
        lemma_update_prefix_preserves(m, guess, target, n - 1, c);
        lemma_step_char_preserves(prev, target, guess[n - 1], n - 1, c);
    }
}

/// Law: once a character's status is `CorrectPosition`, no update of the
/// knowledge store changes it; first-established correct position wins.
pub proof fn lemma_correct_position_stable(
    m: Map<char, CharacterStatus>,
    guess: Seq<char>,
    target: Seq<char>,
    c: char,
)
    requires
        m.contains_key(c),
        m[c] is CorrectPosition,
    ensures
        spec_update(m, guess, target).contains_key(c),
        spec_update(m, guess, target)[c] == m[c],
{
    lemma_update_prefix_preserves(m, guess, target, guess.len() as int, c);
}

/// Law: an `InWord` entry may be upgraded to `CorrectPosition` by an
/// update, but never becomes `NotInWord` and is never removed.
pub proof fn lemma_in_word_never_downgrades(
    m: Map<char, CharacterStatus>,
    guess: Seq<char>,
    target: Seq<char>,
    c: char,
)
    requires
        m.contains_key(c),
        m[c] == CharacterStatus::InWord,
    ensures
        spec_update(m, guess, target).contains_key(c),
        spec_update(m, guess, target)[c] == CharacterStatus::InWord || spec_update(
            m,
            guess,
            target,
        )[c] is CorrectPosition,
{
    lemma_update_prefix_preserves(m, guess, target, guess.len() as int, c);
}

/// Law: updates only add or upgrade entries; none is ever removed.
pub proof fn lemma_entries_never_removed(
    m: Map<char, CharacterStatus>,
    guess: Seq<char>,
    target: Seq<char>,
    c: char,
)
    requires
        m.contains_key(c),
    ensures
        spec_update(m, guess, target).contains_key(c),
{
    lemma_update_prefix_preserves(m, guess, target, guess.len() as int, c);
}

impl KnowledgeStore {
    /// Records the feedback of comparing `guess` against `target`: for
    /// each character of the guess, its entry is created or upgraded as
    /// `spec_update` describes.
    pub fn update(&mut self, guess: &Vec<char>, target: &Vec<char>)
        requires
            old(self).wf(),
        ensures
            final(self).wf(),
            final(self)@ == spec_update(old(self)@, guess@, target@),
            forall|c: char| old(self)@.contains_key(c) ==> final(self)@.contains_key(c),
            forall|c: char|
                old(self)@.contains_key(c) && old(self)@[c] is CorrectPosition ==> final(self)@[c]
                    == old(self)@[c],
            forall|c: char|
                old(self)@.contains_key(c) && old(self)@[c] == CharacterStatus::InWord
                    ==> (final(self)@[c] == CharacterStatus::InWord
                    || final(self)@[c] is CorrectPosition),
    {
        let ghost m0 = old(self)@;
        let n = guess.len();
        for i in 0..n
            invariant
                n == guess@.len(),
                self.wf(),
                self@ == update_prefix(m0, guess@, target@, i as int),
        {
            let c = guess[i];
            let ghost prev = self@;
            match find_char(target, c) {
                Some(p) => {
                    match self.status(c) {
                        None => {
                            if p == i {
                                self.set_status(c, CharacterStatus::CorrectPosition(i));
                            } else {
                                self.set_status(c, CharacterStatus::InWord);
                            }
                        },
                        Some(CharacterStatus::InWord) => {
                            if p == i {
                                self.set_status(c, CharacterStatus::CorrectPosition(i));
                            }
                        },
                        Some(_) => {},
                    }
                },
                None => {
                    match self.status(c) {
                        None => {
                            self.set_status(c, CharacterStatus::NotInWord);
                        },
                        Some(_) => {},
                    }
                },
            }
            proof {
                assert(self@ == step_char(prev, target@, c, i as int));
                assert(self@ == update_prefix(m0, guess@, target@, i + 1));
            }
        }
        proof {
            assert forall|c: char| m0.contains_key(c) implies self@.contains_key(c) by {
                lemma_entries_never_removed(m0, guess@, target@, c);
            }
            assert forall|c: char|
                m0.contains_key(c) && m0[c] is CorrectPosition implies self@[c] == m0[c] by {
                lemma_correct_position_stable(m0, guess@, target@, c);
            }
            assert forall|c: char|
                m0.contains_key(c) && m0[c] == CharacterStatus::InWord implies (self@[c]
                == CharacterStatus::InWord || self@[c] is CorrectPosition) by {
                lemma_in_word_never_downgrades(m0, guess@, target@, c);
            }
        }
    }
}

} // verus!
