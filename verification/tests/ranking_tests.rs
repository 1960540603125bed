use launcher_core::app_state::App;
use launcher_core::ranking::filter_and_rank;

fn strings(items: &[&str]) -> Vec<String> {
    items.iter().map(|s| s.to_string()).collect()
}

#[test]
fn fuzzy_subsequence_inclusion() {
    let candidates = strings(&["firefox", "chromium"]);
    let r = filter_and_rank(&candidates, "fx");
    // "firefox" matches (f, x in order); "chromium" is excluded entirely
    assert_eq!(r.len(), 1);
    assert_eq!(r[0].0, 0);
}

#[test]
fn prefix_beats_scattered_match() {
    // "far infrared" first, so input order alone cannot produce the expected
    // ranking: the contiguous prefix match must score strictly higher
    let candidates = strings(&["far infrared", "firefox"]);
    let r = filter_and_rank(&candidates, "fire");
    assert_eq!(r.len(), 2);
    assert_eq!(r[0].0, 1, "firefox must rank above far infrared");
    assert_eq!(r[1].0, 0);
    assert!(r[0].1 > r[1].1);
}

#[test]
fn stable_tie_break() {
    // identical candidates produce identical scores: input order is kept
    let candidates = strings(&["alpha", "beta", "alpha"]);
    let r = filter_and_rank(&candidates, "al");
    assert_eq!(r.len(), 2);
    assert_eq!(r[0].1, r[1].1);
    assert_eq!(r[0].0, 0);
    assert_eq!(r[1].0, 2);
}

#[test]
fn empty_query_returns_all_in_order() {
    let candidates = strings(&["zebra", "apple", "mango"]);
    let r = filter_and_rank(&candidates, "");
    assert_eq!(r.len(), 3);
    for (i, (idx, score)) in r.iter().enumerate() {
        assert_eq!(*idx, i);
        assert_eq!(*score, 0);
    }
}

#[test]
fn no_match_yields_empty_result() {
    let candidates = strings(&["one", "two"]);
    let r = filter_and_rank(&candidates, "xyz");
    assert_eq!(r.len(), 0);
}

#[test]
fn ordering_is_descending_by_score() {
    let candidates = strings(&["xxfooxx", "foo", "f_o_o"]);
    let r = filter_and_rank(&candidates, "foo");
    assert_eq!(r.len(), 3);
    for w in r.windows(2) {
        assert!(w[0].1 >= w[1].1);
    }
    // the exact match scores strictly best
    assert_eq!(r[0].0, 1);
}

#[test]
fn case_insensitive_for_lowercase_query() {
    let candidates = strings(&["FireFox"]);
    let r = filter_and_rank(&candidates, "firefox");
    assert_eq!(r.len(), 1);
}

#[test]
fn fuzzy_filter_returns_texts_with_scores() {
    let items = strings(&["firefox", "chromium", "files"]);
    let r = App::fuzzy_filter(&items, "fi");
    assert_eq!(r.len(), 2);
    // both matching items present, highest score first
    assert!(r.iter().any(|(t, _)| t == "firefox"));
    assert!(r.iter().any(|(t, _)| t == "files"));
    assert!(r[0].1 >= r[1].1);
}

#[test]
fn scores_reflect_the_matcher_not_the_input() {
    // would fail if the matcher were bypassed and every candidate kept:
    // a non-matching candidate must not appear at all
    let items = strings(&["alpha", "omega"]);
    let r = App::fuzzy_filter(&items, "alp");
    assert_eq!(r.len(), 1);
    assert_eq!(r[0].0, "alpha");
    // and a match on a query of this shape scores above zero
    assert!(r[0].1 > 0);
}
