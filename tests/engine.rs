use wordsearch::grid::{new_field, try_add, Orientation, EMPTY};
use wordsearch::progress::Progress;
use wordsearch::random::Dice;
use wordsearch::request::pick_best;
use wordsearch::word_search::{
    add_word, chars_of, generate, place_from, reverse, strip_spaces, Placement, WordSearch,
    MAX_PLACEMENT_CALLS,
};

fn chars(s: &str) -> Vec<char> {
    s.chars().collect()
}

fn cell_of(p: &Placement, i: usize) -> (usize, usize) {
    match p.orientation {
        Orientation::Horizontal => (p.x + i, p.y),
        Orientation::Vertical => (p.x, p.y + i),
        Orientation::DiagonalDown => (p.x + i, p.y + i),
        Orientation::DiagonalUp => (p.x + i, p.y - i),
    }
}

fn words(list: &[&str]) -> Vec<String> {
    list.iter().map(|w| w.to_string()).collect()
}

#[test]
fn new_field_is_empty() {
    let f = new_field(4, 3);
    assert_eq!(f.len(), 4);
    for col in &f {
        assert_eq!(col.len(), 3);
        assert!(col.iter().all(|c| *c == EMPTY));
    }
}

#[test]
fn try_add_horizontal_writes_letters() {
    let f = new_field(5, 5);
    let g = try_add(&f, &chars("CAT"), 1, 2, Orientation::Horizontal).unwrap();
    assert_eq!(g[1][2], 'C');
    assert_eq!(g[2][2], 'A');
    assert_eq!(g[3][2], 'T');
    assert_eq!(g[0][2], EMPTY);
    assert_eq!(g[1][1], EMPTY);
    // the input grid is untouched
    assert_eq!(f[1][2], EMPTY);
}

#[test]
fn try_add_margin_is_strict() {
    let f = new_field(5, 5);
    // 2 + 3 == 5 is rejected although the word would fit exactly
    assert!(try_add(&f, &chars("CAT"), 2, 0, Orientation::Horizontal).is_none());
    assert!(try_add(&f, &chars("CAT"), 1, 0, Orientation::Horizontal).is_some());
    assert!(try_add(&f, &chars("CAT"), 0, 2, Orientation::Vertical).is_none());
    assert!(try_add(&f, &chars("CAT"), 0, 1, Orientation::Vertical).is_some());
    assert!(try_add(&f, &chars("CAT"), 1, 1, Orientation::DiagonalDown).is_some());
    assert!(try_add(&f, &chars("CAT"), 1, 2, Orientation::DiagonalDown).is_none());
}

#[test]
fn try_add_diagonal_up_needs_room_above() {
    let f = new_field(5, 5);
    assert!(try_add(&f, &chars("CAT"), 0, 2, Orientation::DiagonalUp).is_none());
    let g = try_add(&f, &chars("CAT"), 0, 3, Orientation::DiagonalUp).unwrap();
    assert_eq!(g[0][3], 'C');
    assert_eq!(g[1][2], 'A');
    assert_eq!(g[2][1], 'T');
}

#[test]
fn try_add_conflict_and_shared_letter() {
    let f = new_field(6, 6);
    let g = try_add(&f, &chars("CAT"), 0, 0, Orientation::Horizontal).unwrap();
    // crossing on the same letter is allowed
    let g2 = try_add(&g, &chars("ANT"), 1, 0, Orientation::Vertical).unwrap();
    assert_eq!(g2[1][0], 'A');
    assert_eq!(g2[1][1], 'N');
    // crossing on a different letter is refused
    assert!(try_add(&g, &chars("DOG"), 1, 0, Orientation::Vertical).is_none());
}

fn check_puzzle(ws: &WordSearch, w: usize, h: usize) {
    assert_eq!(ws.field.len(), w);
    for col in &ws.field {
        assert_eq!(col.len(), h);
        for c in col {
            assert!(c.is_ascii_uppercase(), "cell {:?}", c);
        }
    }
    assert_eq!(ws.word_list.len(), ws.placements.len());
    for (word, p) in ws.word_list.iter().zip(ws.placements.iter()) {
        let n = p.letters.len();
        for i in 0..n {
            let (a, b) = cell_of(p, i);
            assert_eq!(ws.field[a][b], p.letters[i]);
        }
        let plain: Vec<char> = word.chars().filter(|c| *c != ' ').collect();
        let back: Vec<char> = plain.iter().rev().cloned().collect();
        assert!(p.letters == plain || p.letters == back);
        match p.orientation {
            Orientation::Horizontal => assert!(p.x + n < w),
            Orientation::Vertical => assert!(p.y + n < h),
            Orientation::DiagonalDown => assert!(p.x + n < w && p.y + n < h),
            Orientation::DiagonalUp => assert!(p.x + n < w && p.y >= n),
        }
    }
}

#[test]
fn build_places_words_that_read_back() {
    let list = words(&["cat", "dog", "bird", "fish", "horse", "mouse", "snake", "tiger", "lion"]);
    for seed in 0..20u64 {
        let mut dice = Dice::seeded(seed);
        let progress = Progress::new();
        let ws = generate(&list, 10, 12, 12, &mut dice, &progress).unwrap();
        check_puzzle(&ws, 12, 12);
        assert!(ws.word_list.len() <= 9);
        assert!(!ws.word_list.is_empty());
        assert_eq!(progress.get_count() as usize, ws.word_list.len());
    }
}

#[test]
fn build_words_are_upper_case_display_forms() {
    let list = words(&["ice cream", "dog"]);
    let mut dice = Dice::seeded(7);
    let ws = generate(&list, 10, 12, 12, &mut dice, &Progress::new()).unwrap();
    for word in &ws.word_list {
        assert!(word == "ICE CREAM" || word == "DOG");
    }
    for p in &ws.placements {
        assert!(!p.letters.contains(&' '));
    }
}

#[test]
fn build_shared_cells_agree() {
    let list = words(&["aaaa", "aaab", "abab", "baba", "aabb", "bbaa", "abba", "baab", "aaba"]);
    for seed in 0..10u64 {
        let mut dice = Dice::seeded(seed);
        let ws = generate(&list, 20, 6, 6, &mut dice, &Progress::new()).unwrap();
        check_puzzle(&ws, 6, 6);
        for p in &ws.placements {
            for q in &ws.placements {
                for i in 0..p.letters.len() {
                    for j in 0..q.letters.len() {
                        if cell_of(p, i) == cell_of(q, j) {
                            assert_eq!(p.letters[i], q.letters[j]);
                        }
                    }
                }
            }
        }
    }
}

#[test]
fn build_stops_at_max_count() {
    let list = words(&["ab", "cd", "ef", "gh", "ij", "kl", "mn", "op"]);
    let mut dice = Dice::seeded(3);
    let ws = generate(&list, 2, 10, 10, &mut dice, &Progress::new()).unwrap();
    assert_eq!(ws.word_list.len(), 2);
}

#[test]
fn build_skips_words_longer_than_the_grid() {
    let list = words(&["elephant", "giraffes"]);
    let mut dice = Dice::seeded(1);
    let ws = generate(&list, 10, 5, 5, &mut dice, &Progress::new()).unwrap();
    assert!(ws.word_list.is_empty());
    check_puzzle(&ws, 5, 5);
}

#[test]
fn build_cancelled_when_budget_runs_out() {
    // three letters never fit a 3 by 3 grid under the margin rule, yet pass the filter
    let list: Vec<String> = (0..(MAX_PLACEMENT_CALLS as usize + 2)).map(|_| "abc".to_string()).collect();
    let mut dice = Dice::seeded(11);
    assert!(generate(&list, 10, 3, 3, &mut dice, &Progress::new()).is_none());
}

#[test]
fn build_within_budget_is_not_cancelled() {
    let list: Vec<String> = (0..(MAX_PLACEMENT_CALLS as usize)).map(|_| "abc".to_string()).collect();
    let mut dice = Dice::seeded(11);
    let ws = generate(&list, 10, 3, 3, &mut dice, &Progress::new()).unwrap();
    assert!(ws.word_list.is_empty());
    check_puzzle(&ws, 3, 3);
}

fn with_count(n: usize) -> WordSearch {
    WordSearch {
        field: vec![vec!['A']],
        word_list: (0..n).map(|i| format!("W{}", i)).collect(),
        placements: Vec::new(),
    }
}

#[test]
fn pick_best_takes_most_placed() {
    let attempts = vec![with_count(3), with_count(7), with_count(5)];
    assert_eq!(pick_best(&attempts), 1);
}

#[test]
fn pick_best_keeps_earliest_on_tie() {
    let attempts = vec![with_count(4), with_count(6), with_count(6), with_count(2)];
    assert_eq!(pick_best(&attempts), 1);
    assert_eq!(pick_best(&vec![with_count(0)]), 0);
}

#[test]
fn dice_below_stays_in_range() {
    let mut dice = Dice::seeded(5);
    let mut seen = [false; 4];
    for _ in 0..200 {
        let v = dice.below(4);
        assert!(v < 4);
        seen[v] = true;
    }
    assert!(seen.iter().all(|s| *s));
}

#[test]
fn dice_shuffle_is_a_permutation() {
    let mut dice = Dice::seeded(9);
    let orig = words(&["a", "b", "c", "d", "e", "f", "g", "h"]);
    let mut v = orig.clone();
    dice.shuffle(&mut v);
    let mut sorted = v.clone();
    sorted.sort();
    assert_eq!(sorted, orig);
}

#[test]
fn place_from_first_fit_in_start_block() {
    let f = new_field(5, 5);
    let (g, p) = place_from(&f, &chars("CAT"), 0, 0, 0).unwrap();
    assert_eq!((p.x, p.y, p.orientation), (0, 0, Orientation::Horizontal));
    assert_eq!(g[0][0], 'C');
}

#[test]
fn place_from_moves_to_next_orientation() {
    // from column 3 no horizontal start fits, and the block before (3, 0) is empty
    let f = new_field(5, 5);
    let (g, p) = place_from(&f, &chars("CAT"), 0, 3, 0).unwrap();
    assert_eq!((p.x, p.y, p.orientation), (3, 0, Orientation::Vertical));
    assert_eq!(g[3][2], 'T');
}

#[test]
fn place_from_wraps_to_origin_block() {
    // from (4, 4) nothing fits in the last cell; the scan goes on from the origin
    let f = new_field(5, 5);
    let (_, p) = place_from(&f, &chars("CAT"), 0, 4, 4).unwrap();
    assert_eq!((p.x, p.y, p.orientation), (0, 0, Orientation::Horizontal));
}

#[test]
fn place_from_orientation_offset_cycles() {
    let f = new_field(5, 5);
    let (g, p) = place_from(&f, &chars("CAT"), 3, 0, 4).unwrap();
    assert_eq!((p.x, p.y, p.orientation), (0, 4, Orientation::DiagonalUp));
    assert_eq!(g[2][2], 'T');
}

#[test]
fn place_from_none_when_word_too_long() {
    let f = new_field(5, 5);
    assert!(place_from(&f, &chars("HORSE"), 1, 2, 2).is_none());
}

#[test]
fn add_word_counts_calls_and_respects_budget() {
    let f = new_field(6, 6);
    let mut dice = Dice::seeded(1);
    let mut calls: u32 = 0;
    let _ = add_word(&f, &chars("AB"), &mut dice, &mut calls);
    assert_eq!(calls, 1);
    let mut calls = MAX_PLACEMENT_CALLS;
    assert!(add_word(&f, &chars("AB"), &mut dice, &mut calls).is_none());
    assert_eq!(calls, MAX_PLACEMENT_CALLS + 1);
}

#[test]
fn text_helpers() {
    assert_eq!(chars_of("ab c"), vec!['a', 'b', ' ', 'c']);
    assert_eq!(strip_spaces(&chars(" a b  c ")), chars("abc"));
    assert_eq!(reverse(&chars("abc")), chars("cba"));
    assert_eq!(reverse(&Vec::new()), Vec::<char>::new());
}

#[test]
fn add_word_places_short_word_on_empty_grid() {
    let f = new_field(5, 5);
    for seed in 0..50u64 {
        let mut dice = Dice::seeded(seed);
        let mut calls: u32 = 0;
        let (g, p) = add_word(&f, &chars("CAT"), &mut dice, &mut calls).unwrap();
        assert_eq!(p.letters, chars("CAT"));
        let (a, b) = cell_of(&p, 2);
        assert_eq!(g[a][b], 'T');
    }
}

#[test]
fn add_word_fails_once_budget_exceeded() {
    let f = new_field(5, 5);
    let mut dice = Dice::seeded(2);
    let mut calls: u32 = 1500;
    assert!(add_word(&f, &chars("CAT"), &mut dice, &mut calls).is_none());
    assert_eq!(calls, 1501);
}

#[test]
fn build_places_single_fitting_word() {
    for seed in 0..20u64 {
        let mut dice = Dice::seeded(seed);
        let ws = generate(&words(&["cat"]), 1, 5, 5, &mut dice, &Progress::new()).unwrap();
        assert_eq!(ws.word_list, vec!["CAT".to_string()]);
        check_puzzle(&ws, 5, 5);
    }
}

#[test]
fn build_cancelled_for_unplaceable_pairs() {
    let list: Vec<String> = (0..1100).map(|_| "AB".to_string()).collect();
    let mut dice = Dice::seeded(6);
    assert!(generate(&list, 10, 2, 2, &mut dice, &Progress::new()).is_none());
}

#[test]
fn build_counts_only_fitting_words_against_budget() {
    // many words too long for the grid cost no placement call
    let mut list: Vec<String> = (0..1500).map(|_| "elephants".to_string()).collect();
    list.push("cat".to_string());
    let mut dice = Dice::seeded(6);
    let ws = generate(&list, 10, 6, 6, &mut dice, &Progress::new()).unwrap();
    assert_eq!(ws.word_list, vec!["CAT".to_string()]);
}

#[test]
fn build_keeps_list_order() {
    let list = words(&["ab", "cd", "ef", "gh"]);
    let mut dice = Dice::seeded(12);
    let ws = generate(&list, 10, 12, 12, &mut dice, &Progress::new()).unwrap();
    assert_eq!(ws.word_list, vec!["AB", "CD", "EF", "GH"]);
}

#[test]
fn try_add_never_overwrites_letters() {
    let f = new_field(6, 6);
    let g = try_add(&f, &chars("CAT"), 0, 1, Orientation::Horizontal).unwrap();
    let g2 = try_add(&g, &chars("TOE"), 2, 1, Orientation::Vertical).unwrap();
    for a in 0..6 {
        for b in 0..6 {
            if g[a][b] != EMPTY {
                assert_eq!(g2[a][b], g[a][b]);
            }
        }
    }
}
