use phrase_search::planner::{candidate_windows, merge_and_minimize_tokens, window_end_at};
use phrase_search::stats::Stats;
use phrase_search::{normalize, tokenize, DecreasingWindows, RefTokens, SearchError, Tokens};

#[test]
fn normalize_trims_and_lowercases() {
    assert_eq!(normalize("  Hello WORLD \n"), "hello world");
    assert_eq!(normalize(""), "");
}

#[test]
fn tokenize_drops_white_space() {
    let t: Vec<&str> = tokenize("the quick (\"brown\")  fox");
    assert_eq!(t, vec!["the", "quick", "(", "\"", "brown", "\"", ")", "fox"]);
}

#[test]
fn tokens_and_their_text() {
    let t = Tokens::new("  Look at MY cat ");
    assert_eq!(t.len(), 4);
    let all = t.as_ref();
    assert_eq!((all.start, all.end), (0, 4));
    assert_eq!(t.text(all), "look at my cat");
    assert_eq!(t.text(RefTokens { start: 1, end: 3 }), "at my");
    assert_eq!(t.text(RefTokens { start: 2, end: 2 }), "");
    let (a, b) = all.split_at(1);
    assert_eq!((a.start, a.end, b.start, b.end), (0, 1, 1, 4));
    assert_eq!(all.len(), 4);
    assert!(!all.is_empty());
    assert_eq!(all.range(), (0, 4));
    let singles = all.ref_token_iter();
    assert_eq!(singles.len(), 4);
    assert_eq!(singles[2], RefTokens { start: 2, end: 3 });
}

#[test]
fn reserve_len_formula() {
    assert_eq!(RefTokens { start: 0, end: 1 }.reserve_len(), 6);
    assert_eq!(RefTokens { start: 0, end: 3 }.reserve_len(), 6);
    assert_eq!(RefTokens { start: 0, end: 10 }.reserve_len(), 27);
}

#[test]
fn window_end_follows_common_tokens() {
    let common = [false, true, true, false, false];
    assert_eq!(window_end_at(&common, 0), 4);
    assert_eq!(window_end_at(&common, 1), 4);
    assert_eq!(window_end_at(&common, 2), 3);
    assert_eq!(window_end_at(&common, 3), 2);
    assert_eq!(window_end_at(&common, 4), 2);
    let all = [true, true, true];
    assert_eq!(window_end_at(&all, 0), 4);
    assert_eq!(window_end_at(&all, 1), 3);
    assert_eq!(window_end_at(&all, 2), 2);
}

#[test]
fn candidates_widest_first() {
    let common = [true, true, false];
    assert_eq!(
        candidate_windows(&common, false),
        vec![(0, 3), (0, 2), (0, 1), (1, 2), (1, 1), (2, 1)]
    );
    assert_eq!(candidate_windows(&common, true), vec![(0, 1), (1, 1), (2, 1)]);
}

fn costs_for(n: usize, entries: &[((usize, usize), usize)]) -> Vec<Option<usize>> {
    let mut c = vec![None; 3 * n];
    for ((i, w), len) in entries {
        c[3 * i + w - 1] = Some(*len);
    }
    c
}

#[test]
fn planner_merges_common_tokens_when_cheaper() {
    let t = Tokens::new("the cat of the year");
    let common = [true, false, true, true, false];
    // every candidate group gets a cost; merged groups are short
    let mut entries = Vec::new();
    for (i, w) in candidate_windows(&common, false) {
        let len = if w == 1 { 100 } else { 10 * w };
        entries.push(((i, w), len));
    }
    let costs = costs_for(5, &entries);
    let groups = merge_and_minimize_tokens(&t, &common, false, &costs).unwrap();
    let cut: Vec<(usize, usize)> = groups.iter().map(|g| (g.start, g.end)).collect();
    assert_eq!(cut, vec![(0, 2), (2, 5)]);
}

#[test]
fn planner_prefers_wider_group_on_ties() {
    let t = Tokens::new("a b");
    let common = [true, true];
    let costs = costs_for(2, &[((0, 2), 10), ((0, 1), 5), ((1, 1), 5)]);
    let groups = merge_and_minimize_tokens(&t, &common, false, &costs).unwrap();
    assert_eq!(groups, vec![RefTokens { start: 0, end: 2 }]);
}

#[test]
fn planner_keeps_singletons_without_common_tokens() {
    let t = Tokens::new("x y z");
    let common = [false, false, false];
    let costs = costs_for(3, &[((0, 1), 3), ((1, 1), 4), ((2, 1), 5)]);
    let groups = merge_and_minimize_tokens(&t, &common, true, &costs).unwrap();
    assert_eq!(
        groups,
        vec![
            RefTokens { start: 0, end: 1 },
            RefTokens { start: 1, end: 2 },
            RefTokens { start: 2, end: 3 }
        ]
    );
}

#[test]
fn planner_reports_first_missing_group() {
    let t = Tokens::new("a b c");
    let common = [true, true, false];
    let costs = costs_for(3, &[((0, 3), 1), ((0, 1), 1), ((1, 2), 1), ((1, 1), 1), ((2, 1), 1)]);
    match merge_and_minimize_tokens(&t, &common, false, &costs) {
        Err(SearchError::TokenNotFound(s)) => assert_eq!(s, "a b"),
        other => panic!("unexpected {:?}", other),
    }
}

#[test]
fn planner_rejects_empty_posting_list() {
    let t = Tokens::new("a b");
    let common = [false, false];
    let costs = costs_for(2, &[((0, 1), 3), ((1, 1), 0)]);
    assert!(matches!(
        merge_and_minimize_tokens(&t, &common, false, &costs),
        Err(SearchError::MergeAndMinimizeNotPossible)
    ));
}

#[test]
fn planner_empty_query() {
    let t = Tokens::new("   ");
    assert!(matches!(
        merge_and_minimize_tokens(&t, &[], false, &[]),
        Err(SearchError::EmptyQuery)
    ));
}

#[test]
fn decreasing_windows_shrink_at_the_end() {
    let v = [1, 2, 3, 4];
    let mut w = DecreasingWindows::new(&v, 3);
    assert_eq!(w.len(), 4);
    assert_eq!(w.next(), Some(&v[0..3]));
    assert_eq!(w.next(), Some(&v[1..4]));
    assert_eq!(w.next(), Some(&v[2..4]));
    assert_eq!(w.next(), Some(&v[3..4]));
    assert_eq!(w.next(), None);
    assert_eq!(w.next(), None);
}

#[test]
fn stats_total_adds_phases() {
    let mut s = Stats::new();
    assert_eq!(s.total(), 0);
    s.first_intersect = 5;
    s.get_doc_ids = 7;
    s.iters = 100;
    assert_eq!(s.total(), 12);
}

#[test]
fn planner_rejects_empty_group_of_the_chosen_cut() {
    // the first token's list is empty, the second's is not
    let t = Tokens::new("a b");
    let common = [false, false];
    let costs = costs_for(2, &[((0, 1), 0), ((1, 1), 5)]);
    assert!(matches!(
        merge_and_minimize_tokens(&t, &common, false, &costs),
        Err(SearchError::MergeAndMinimizeNotPossible)
    ));
}

#[test]
fn whitespace_tokens_are_dropped() {
    let t: Vec<&str> = tokenize("a\u{3000}b\u{A0}c");
    assert_eq!(t, vec!["a", "b", "c"]);
}
