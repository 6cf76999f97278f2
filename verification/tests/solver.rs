use wordle_solver::rank::rank_word;
use wordle_solver::select::select_guess;
use wordle_solver::select::validate_target;
use wordle_solver::select::SolverError;
use wordle_solver::session::solve;
use wordle_solver::session::Session;
use wordle_solver::store::CharacterStatus;
use wordle_solver::store::KnowledgeStore;
use wordle_solver::words::build_word_bank;
use wordle_solver::words::contains_word;
use wordle_solver::words::words_equal;

fn w(s: &str) -> Vec<char> {
    s.chars().collect()
}

fn wl(xs: &[&str]) -> Vec<Vec<char>> {
    xs.iter().map(|s| w(s)).collect()
}

#[test]
fn update_slate_against_alone() {
    let mut store = KnowledgeStore::new();
    store.update(&w("slate"), &w("alone"));
    assert_eq!(store.status('s'), Some(CharacterStatus::NotInWord));
    // 'l' stands at position 1 in both "slate" and "alone", so its
    // correct position is found at once.
    assert_eq!(store.status('l'), Some(CharacterStatus::CorrectPosition(1)));
    assert_eq!(store.status('a'), Some(CharacterStatus::InWord));
    assert_eq!(store.status('t'), Some(CharacterStatus::NotInWord));
    assert_eq!(store.status('e'), Some(CharacterStatus::CorrectPosition(4)));
    assert_eq!(store.status('z'), None);
}

#[test]
fn correct_position_never_changes() {
    let mut store = KnowledgeStore::new();
    store.update(&w("slate"), &w("alone"));
    assert_eq!(store.status('e'), Some(CharacterStatus::CorrectPosition(4)));
    // 'e' occurs at other positions in later guesses; its entry stays.
    store.update(&w("eeeee"), &w("alone"));
    assert_eq!(store.status('e'), Some(CharacterStatus::CorrectPosition(4)));
    store.update(&w("ledge"), &w("alone"));
    assert_eq!(store.status('e'), Some(CharacterStatus::CorrectPosition(4)));
    assert_eq!(store.status('l'), Some(CharacterStatus::CorrectPosition(1)));
}

#[test]
fn in_word_upgrades_but_never_downgrades() {
    let mut store = KnowledgeStore::new();
    store.update(&w("slate"), &w("alone"));
    assert_eq!(store.status('a'), Some(CharacterStatus::InWord));
    // A guess that places 'a' where the target has it upgrades the entry.
    store.update(&w("abide"), &w("alone"));
    assert_eq!(store.status('a'), Some(CharacterStatus::CorrectPosition(0)));
    // A known-absent character stays absent whatever is guessed later.
    assert_eq!(store.status('t'), Some(CharacterStatus::NotInWord));
    store.update(&w("tacit"), &w("alone"));
    assert_eq!(store.status('t'), Some(CharacterStatus::NotInWord));
}

#[test]
fn opening_guess_comes_from_the_bank() {
    let bank = wl(&["slate", "crane", "pious", "alone"]);
    let guessed: Vec<Vec<char>> = Vec::new();
    let store = KnowledgeStore::new();
    for _ in 0..50 {
        let g = select_guess(&bank, &guessed, &store).unwrap();
        assert!(contains_word(&bank, &g));
    }
}

#[test]
fn opening_guess_varies_across_runs() {
    // The opening draw is random over the pool: in 100 draws from a
    // four-word bank, a single fixed word coming back every time is
    // astronomically unlikely.
    let bank = wl(&["slate", "crane", "pious", "alone"]);
    let guessed: Vec<Vec<char>> = Vec::new();
    let store = KnowledgeStore::new();
    let first = select_guess(&bank, &guessed, &store).unwrap();
    let mut saw_another = false;
    for _ in 0..100 {
        let g = select_guess(&bank, &guessed, &store).unwrap();
        if !words_equal(&g, &first) {
            saw_another = true;
        }
    }
    assert!(saw_another);
}

#[test]
fn opening_guess_from_single_word_bank() {
    let bank = wl(&["alone"]);
    let guessed: Vec<Vec<char>> = Vec::new();
    let store = KnowledgeStore::new();
    let g = select_guess(&bank, &guessed, &store).unwrap();
    assert!(words_equal(&g, &w("alone")));
}

#[test]
fn rank_scores_are_exact() {
    let mut store = KnowledgeStore::new();
    store.update(&w("slate"), &w("alone"));
    // s: -10, l at 1: +5, a: +2, t: -10, e at 4: +5
    assert_eq!(rank_word(&store, &w("slate")), -8);
    // l at 0: +2, a: +2, d: +1, l at 3: +2, e at 4: +5
    assert_eq!(rank_word(&store, &w("ladle")), 12);
    // all five characters unknown: +1 each
    assert_eq!(rank_word(&store, &w("runup")), 5);
    // the empty word scores zero
    assert_eq!(rank_word(&store, &w("")), 0);
}

#[test]
fn ranking_selection_is_deterministic() {
    let bank = wl(&["slate", "ladle", "plonk", "ample"]);
    let guessed = wl(&["slate"]);
    let mut store = KnowledgeStore::new();
    store.update(&w("slate"), &w("alone"));
    let first = select_guess(&bank, &guessed, &store).unwrap();
    for _ in 0..20 {
        let again = select_guess(&bank, &guessed, &store).unwrap();
        assert!(words_equal(&first, &again));
    }
    // ladle: 12 (see rank_scores_are_exact); plonk: p +1, l at 1 +5,
    // o +1, n +1, k +1 = 9; ample: a +2, m +1, p +1, l +2, e +5 = 11.
    assert!(words_equal(&first, &w("ladle")));
}

#[test]
fn ties_break_toward_the_earlier_bank_word() {
    // Both candidates score +1 per unknown character; the earlier wins.
    let bank = wl(&["bumph", "funky"]);
    let guessed: Vec<Vec<char>> = Vec::new();
    let mut store = KnowledgeStore::new();
    store.update(&w("zzzzz"), &w("crest"));
    let g = select_guess(&bank, &guessed, &store).unwrap();
    assert!(words_equal(&g, &w("bumph")));
}

#[test]
fn exhausted_pool_is_reported() {
    let bank = wl(&["slate", "crane"]);
    let guessed = wl(&["slate", "crane"]);
    let store = KnowledgeStore::new();
    assert_eq!(
        select_guess(&bank, &guessed, &store).unwrap_err(),
        SolverError::ExhaustedCandidates
    );
}

#[test]
fn illegal_target_is_reported() {
    let legal = wl(&["alone", "crane"]);
    assert_eq!(validate_target(&legal, &w("alone")), Ok(()));
    assert_eq!(
        validate_target(&legal, &w("slate")),
        Err(SolverError::IllegalTarget)
    );
}

#[test]
fn guessing_the_target_itself_halts_at_once() {
    let bank = wl(&["alone"]);
    let out = solve(&bank, &w("alone")).unwrap();
    assert_eq!(out.num_guesses, 1);
    assert_eq!(out.guesses.len(), 1);
    assert!(words_equal(&out.guesses[0], &w("alone")));
}

#[test]
fn solve_finds_a_target_the_bank_holds() {
    let bank = wl(&["slate", "crane", "pious", "alone", "bumph"]);
    let out = solve(&bank, &w("alone")).unwrap();
    assert!(out.num_guesses >= 1);
    assert_eq!(out.num_guesses as usize, out.guesses.len());
    assert!(out.num_guesses as usize <= bank.len());
    let last = out.guesses.last().unwrap();
    assert!(words_equal(last, &w("alone")));
    for g in &out.guesses[..out.guesses.len() - 1] {
        assert!(!words_equal(g, &w("alone")));
    }
}

#[test]
fn solve_fails_when_the_bank_lacks_the_target() {
    let bank = wl(&["slate", "crane"]);
    assert_eq!(
        solve(&bank, &w("alone")).unwrap_err(),
        SolverError::ExhaustedCandidates
    );
}

#[test]
fn no_guess_is_ever_repeated() {
    let bank = wl(&["slate", "crane", "pious", "bumph", "alone"]);
    let out = solve(&bank, &w("alone")).unwrap();
    for i in 0..out.guesses.len() {
        for j in 0..i {
            assert!(!words_equal(&out.guesses[i], &out.guesses[j]));
        }
    }
}

#[test]
fn rounds_exclude_earlier_guesses() {
    let bank = wl(&["slate", "crane", "pious", "alone"]);
    let target = w("alone");
    let mut session = Session::new();
    loop {
        let before: Vec<Vec<char>> = session.guessed.clone();
        let out = session.play_round(&bank, &target).unwrap();
        assert!(!contains_word(&before, &out.guess));
        assert!(contains_word(&bank, &out.guess));
        if out.correct {
            break;
        }
    }
    assert!(session.num_guesses >= 1);
}

#[test]
fn word_bank_keeps_order_and_duplicates() {
    let guessable = wl(&["slate", "crane"]);
    let legal = wl(&["crane", "alone"]);
    let bank = build_word_bank(&guessable, &legal);
    let expect = wl(&["slate", "crane", "crane", "alone"]);
    assert_eq!(bank.len(), expect.len());
    for i in 0..bank.len() {
        assert!(words_equal(&bank[i], &expect[i]));
    }
}
