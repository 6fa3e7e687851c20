use wordsearch::config::{get_search_type, get_theme, str_eq, Preferences, Theme};
use wordsearch::progress::{progress_ratio, Progress};
use wordsearch::random::Dice;
use wordsearch::request::{
    calc_total, get_word_search, handle_requests, process_request, title_for, WordSearchRequest,
};
use wordsearch::word_list::{create_query, generate, Candidate, SearchError, SearchType};

fn cands(list: &[&str]) -> Vec<Candidate> {
    list.iter().map(|w| Candidate { word: w.to_string(), frequency_ok: true }).collect()
}

fn request(word: &str, stype: SearchType, max_count: usize, size: usize) -> WordSearchRequest {
    WordSearchRequest { word: word.to_string(), stype, max_count, height: size, width: size }
}

#[test]
fn progress_idle_is_safe() {
    let p = Progress::new();
    assert_eq!(p.get_progress(), (0, 1));
    assert!(!p.get_finished());
    assert_eq!(progress_ratio(0, 0), (0, 1));
    assert_eq!(progress_ratio(5, 0), (1, 1));
}

#[test]
fn progress_stays_within_bounds() {
    let p = Progress::new();
    p.start_batch(10);
    assert!(!p.get_finished());
    for _ in 0..3 {
        p.record_placement();
    }
    assert_eq!(p.get_progress(), (3, 10));
    for _ in 0..20 {
        p.record_placement();
    }
    assert_eq!(p.get_progress(), (10, 10));
    p.set_count(4);
    assert_eq!(p.get_count(), 4);
    assert_eq!(p.get_total(), 10);
}

#[test]
fn progress_finished_until_next_batch() {
    let p = Progress::new();
    p.start_batch(5);
    p.record_placement();
    p.finish_batch();
    assert!(p.get_finished());
    assert_eq!(p.get_progress(), (0, 1));
    let (n, d) = p.get_progress();
    assert!(n <= d && d >= 1);
    assert!(p.get_finished());
    p.start_batch(5);
    assert!(!p.get_finished());
}

#[test]
fn query_per_relation() {
    assert_eq!(create_query("cat", SearchType::RelatedTo), "https://api.datamuse.com/words?rel_trg=cat&md=f");
    assert_eq!(create_query("cat", SearchType::RhymesWith), "https://api.datamuse.com/words?rel_rhy=cat&md=f");
    assert_eq!(create_query("cat", SearchType::EndsWith), "https://api.datamuse.com/words?sp=*cat&md=f");
    assert_eq!(create_query("cat", SearchType::SoundsLike), "https://api.datamuse.com/words?sl=cat&md=f");
    assert_eq!(create_query("cat", SearchType::BlankWord), "https://api.datamuse.com/words?rel_bgb=cat&md=f");
    assert_eq!(create_query("cat", SearchType::WordBlank), "https://api.datamuse.com/words?rel_bga=cat&md=f");
}

#[test]
fn titles_per_relation() {
    assert_eq!(title_for("cat", SearchType::RelatedTo), "cat");
    assert_eq!(title_for("cat", SearchType::RhymesWith), "Rhymes with cat");
    assert_eq!(title_for("cat", SearchType::EndsWith), "Ends with -cat");
    assert_eq!(title_for("cat", SearchType::SoundsLike), "Sounds like cat");
    assert_eq!(title_for("cat", SearchType::BlankWord), "____ cat");
    assert_eq!(title_for("cat", SearchType::WordBlank), "cat ____");
}

#[test]
fn word_list_keeps_usable_words() {
    let mut list = cands(&["a", "bat", "hat", "mat", "rat", "sat", "vat", "pat", "fat"]);
    list.push(Candidate { word: "gnat".to_string(), frequency_ok: false });
    let mut dice = Dice::seeded(2);
    let mut out = generate(&list, "at", &mut dice).unwrap();
    out.sort();
    assert_eq!(out, vec!["bat", "fat", "hat", "mat", "pat", "rat", "sat", "vat"]);
}

#[test]
fn word_list_too_few_words() {
    let list = cands(&["bat", "hat", "mat", "rat", "sat", "vat", "pat"]);
    let mut dice = Dice::seeded(2);
    match generate(&list, "at", &mut dice) {
        Err(SearchError::MyError(m)) => assert_eq!(
            m,
            "Not enough words could be found for \"at\", please try a different word or category"
        ),
        other => panic!("unexpected {:?}", other),
    }
}

#[test]
fn error_message_keeps_text() {
    assert_eq!(SearchError::InternetError("offline".to_string()).message(), "offline");
    assert_eq!(SearchError::OtherError("bad json".to_string()).message(), "bad json");
}

#[test]
fn total_sums_word_counts() {
    let reqs = vec![
        request("cat", SearchType::EndsWith, 10, 12),
        request("dog", SearchType::RelatedTo, 15, 12),
    ];
    assert_eq!(calc_total(&reqs), 25);
    assert_eq!(calc_total(&Vec::new()), 0);
    let huge = vec![request("a", SearchType::RelatedTo, usize::MAX, 8), request("b", SearchType::RelatedTo, 3, 8)];
    assert_eq!(calc_total(&huge), u32::MAX);
}

#[test]
fn word_search_fails_when_every_attempt_runs_out() {
    let list: Vec<String> = (0..1002).map(|_| "abc".to_string()).collect();
    let mut dice = Dice::seeded(4);
    match get_word_search(&list, 10, 3, 3, &mut dice, &Progress::new()) {
        Err(SearchError::MyError(m)) => assert_eq!(
            m,
            "The requested word search could not be generated (try increasing the field size)"
        ),
        other => panic!("unexpected {:?}", other),
    }
}

#[test]
fn end_to_end_ends_with_cat() {
    let reqs = vec![request("cat", SearchType::EndsWith, 10, 12)];
    let lookups = vec![Ok(cands(&["bobcat", "wildcat", "tomcat", "polecat", "copycat", "scat", "muscat", "bearcat", "meerkat"]))];
    let source = cands(&["scat", "bat", "hat", "mat", "rat", "sat", "vat", "pat", "fat"]);
    let lookups_short = vec![Ok(source)];
    let mut dice = Dice::seeded(21);
    let progress = Progress::new();
    let (puzzles, errors) = handle_requests(&reqs, &lookups_short, &mut dice, &progress);
    assert!(errors.is_empty());
    assert_eq!(puzzles.len(), 1);
    let p = &puzzles[0];
    assert_eq!(p.title, "Ends with -cat");
    assert_eq!(p.word_search.field.len(), 12);
    assert!(p.word_search.field.iter().all(|c| c.len() == 12));
    assert!(p.word_search.word_list.len() <= 9);
    assert!(!p.word_search.word_list.is_empty());
    let upper: Vec<String> = ["scat", "bat", "hat", "mat", "rat", "sat", "vat", "pat", "fat"]
        .iter()
        .map(|w| w.to_uppercase())
        .collect();
    for (i, w) in p.word_search.word_list.iter().enumerate() {
        assert!(upper.contains(w));
        assert!(!p.word_search.word_list[..i].contains(w));
    }
    assert!(p.word_search.field.iter().all(|c| c.iter().all(|x| x.is_ascii_uppercase())));
    assert!(progress.get_finished());
    assert_eq!(progress.get_progress(), (0, 1));
    let (puzzles2, errors2) = handle_requests(&reqs, &lookups, &mut dice, &progress);
    assert_eq!(puzzles2.len() + errors2.len(), 1);
}

#[test]
fn batch_goes_on_after_a_failed_request() {
    let reqs = vec![
        request("xyz", SearchType::RhymesWith, 10, 12),
        request("cat", SearchType::WordBlank, 10, 12),
        request("dog", SearchType::SoundsLike, 10, 12),
    ];
    let lookups = vec![
        Err(SearchError::InternetError("no connection".to_string())),
        Ok(cands(&["bat", "hat", "mat", "rat", "sat", "vat", "pat", "fat"])),
        Ok(cands(&["bog", "fog"])),
    ];
    let mut dice = Dice::seeded(8);
    let (puzzles, errors) = handle_requests(&reqs, &lookups, &mut dice, &Progress::new());
    assert_eq!(puzzles.len(), 1);
    assert_eq!(puzzles[0].title, "cat ____");
    assert!(!puzzles[0].word_search.word_list.is_empty());
    assert_eq!(errors, vec![
        "no connection".to_string(),
        "Not enough words could be found for \"dog\", please try a different word or category".to_string(),
    ]);
}

#[test]
fn process_request_passes_lookup_error() {
    let req = request("cat", SearchType::EndsWith, 10, 12);
    let mut dice = Dice::seeded(1);
    let r = process_request(&req, &Err(SearchError::OtherError("malformed".to_string())), &mut dice, &Progress::new());
    assert_eq!(r.err().unwrap(), "malformed");
}

#[test]
fn labels_map_to_relations() {
    assert_eq!(get_search_type("Related to [Word]"), SearchType::RelatedTo);
    assert_eq!(get_search_type("Rhymes with [Word]"), SearchType::RhymesWith);
    assert_eq!(get_search_type("Ends with [Letters]"), SearchType::EndsWith);
    assert_eq!(get_search_type("Sounds like [Word]"), SearchType::SoundsLike);
    assert_eq!(get_search_type("Comes before [Word]"), SearchType::BlankWord);
    assert_eq!(get_search_type("Follows [Word]"), SearchType::WordBlank);
    assert_eq!(get_search_type("anything"), SearchType::WordBlank);
}

#[test]
fn themes_and_string_equality() {
    assert_eq!(get_theme("Light"), Theme::Light);
    assert_eq!(get_theme("Dark"), Theme::Dark);
    assert!(str_eq("abc", "abc"));
    assert!(!str_eq("abc", "abd"));
    assert!(!str_eq("abc", "ab"));
}

#[test]
fn default_preferences() {
    let p = Preferences::default();
    assert_eq!(p.theme, "Dark");
    assert_eq!(p.word_count, 15);
    assert_eq!(p.letter_count, 11);
    assert_eq!(p.format, "Letter");
    assert_eq!(p.save_directory, "./out");
}
