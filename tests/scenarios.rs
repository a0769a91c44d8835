use phrase_search::layout::layout_blobs;
use phrase_search::planner::{candidate_windows, merge_and_minimize_tokens};
use phrase_search::roaringish::is_well_formed;
use phrase_search::search::search_postings;
use phrase_search::{
    Aligned, BorrowRoaringishPacked, GallopIntersectFirst, NaiveIntersect, RefTokens,
    RoaringishPacked, SearchError, SimdIntersect, Tokens,
};
use std::collections::HashMap;

type Index = HashMap<String, RoaringishPacked>;

/// Indexes documents token by token (no merged groups).
fn build(docs: &[(&str, u32)]) -> Index {
    let mut sorted = docs.to_vec();
    sorted.sort_by_key(|d| d.1);
    let mut order: Vec<String> = Vec::new();
    let mut positions: HashMap<String, Vec<(u32, Vec<u32>)>> = HashMap::new();
    for (text, id) in sorted {
        let toks = Tokens::new(text);
        for i in 0..toks.len() {
            let t = toks.text(RefTokens { start: i, end: i + 1 });
            if !positions.contains_key(&t) {
                order.push(t.clone());
            }
            let e = positions.entry(t).or_default();
            match e.last_mut() {
                Some((d, ps)) if *d == id => ps.push(i as u32),
                _ => e.push((id, vec![i as u32])),
            }
        }
    }
    let mut index = Index::new();
    for t in order {
        let mut p = RoaringishPacked::new();
        for (d, ps) in &positions[&t] {
            p.push(*d, ps);
        }
        index.insert(t, p);
    }
    index
}

fn search_with<const GALLOP: bool>(index: &Index, q: &str) -> Result<Vec<u32>, SearchError> {
    let tokens = Tokens::new(q);
    if tokens.len() == 0 {
        return Err(SearchError::EmptyQuery);
    }
    let common = vec![false; tokens.len()];
    let mut costs = vec![None; 3 * tokens.len()];
    for (i, w) in candidate_windows(&common, true) {
        let text = tokens.text(RefTokens { start: i, end: i + w });
        costs[3 * i + w - 1] = index.get(&text).map(|p| p.len());
    }
    let groups = merge_and_minimize_tokens(&tokens, &common, true, &costs)?;
    let lists: Vec<BorrowRoaringishPacked<Aligned>> = groups
        .iter()
        .map(|g| BorrowRoaringishPacked::new(&index[&tokens.text(*g)]))
        .collect();
    if GALLOP {
        search_postings::<GallopIntersectFirst>(&groups, &lists)
    } else {
        let naive = search_postings::<NaiveIntersect>(&groups, &lists);
        let simd = search_postings::<SimdIntersect>(&groups, &lists);
        assert_eq!(format!("{:?}", naive), format!("{:?}", simd));
        naive
    }
}

fn search(index: &Index, q: &str) -> Result<Vec<u32>, SearchError> {
    search_with::<false>(index, q)
}

fn corpus() -> Index {
    build(&[
        ("look at my beautiful cat", 0),
        ("this is a document", 50),
        ("look at my dog", 25),
        ("look at my beautiful hamster", 35),
    ])
}

#[test]
fn scenario_at_my_beautiful() {
    assert_eq!(search(&corpus(), "at my beautiful").unwrap(), vec![0, 35]);
}

#[test]
fn scenario_look_at_my() {
    assert_eq!(search(&corpus(), "look at my").unwrap(), vec![0, 25, 35]);
}

#[test]
fn scenario_single_token() {
    assert_eq!(search(&corpus(), "beautiful").unwrap(), vec![0, 35]);
}

#[test]
fn scenario_my_cat() {
    // "my" and "cat" are not next to each other in any document
    assert!(matches!(search(&corpus(), "my cat"), Err(SearchError::EmptyIntersection)));
    assert_eq!(search(&corpus(), "my beautiful cat").unwrap(), vec![0]);
    assert_eq!(search(&corpus(), "beautiful cat").unwrap(), vec![0]);
}

#[test]
fn scenario_document() {
    assert_eq!(search(&corpus(), "document").unwrap(), vec![50]);
}

#[test]
fn scenario_empty_intersection() {
    assert!(matches!(search(&corpus(), "beautiful document"), Err(SearchError::EmptyIntersection)));
}

#[test]
fn scenario_token_not_found() {
    match search(&corpus(), "zebra") {
        Err(SearchError::TokenNotFound(t)) => assert_eq!(t, "zebra"),
        other => panic!("unexpected {:?}", other),
    }
}

#[test]
fn scenario_empty_query() {
    assert!(matches!(search(&corpus(), ""), Err(SearchError::EmptyQuery)));
    assert!(matches!(search(&corpus(), "   "), Err(SearchError::EmptyQuery)));
}

#[test]
fn scenario_case_and_spaces_are_normalized() {
    assert_eq!(search(&corpus(), "  Look AT my  ").unwrap(), vec![0, 25, 35]);
}

#[test]
fn scenario_phase_two_boundary() {
    let index = build(&[("a b c d e f g h i j k l m n o p q r", 7), ("p q x r", 8)]);
    assert_eq!(search(&index, "p q r").unwrap(), vec![7]);
    assert_eq!(search(&index, "o p").unwrap(), vec![7]);
    assert_eq!(search(&index, "a b c d e f g h i j k l m n o p q r").unwrap(), vec![7]);
}

#[test]
fn scenario_phrase_found_at_every_start() {
    let text = "a b c d e f g h i j k l m n o p q r s t u v w x y z";
    let index = build(&[(text, 3)]);
    let words: Vec<&str> = text.split(' ').collect();
    for start in 0..words.len() {
        for len in 1..4 {
            if start + len <= words.len() {
                let q = words[start..start + len].join(" ");
                assert_eq!(search(&index, &q).unwrap(), vec![3], "query {q}");
            }
        }
    }
}

#[test]
fn scenario_galloping_kernel_agrees() {
    let index = corpus();
    for q in ["at my beautiful", "look at my", "my cat", "beautiful document"] {
        let a = search_with::<false>(&index, q).ok();
        let b = search_with::<true>(&index, q).ok();
        assert_eq!(a, b, "query {q}");
    }
}

#[test]
fn scenario_repeated_token_in_query() {
    let index = build(&[("the cat and the dog and the cat", 1), ("the the", 2)]);
    assert_eq!(search(&index, "the cat").unwrap(), vec![1]);
    assert_eq!(search(&index, "the the").unwrap(), vec![2]);
    assert!(matches!(search(&index, "cat the cat"), Err(SearchError::EmptyIntersection)));
}

#[test]
fn rebuilding_gives_identical_lists() {
    let a = corpus();
    let b = corpus();
    assert_eq!(a.len(), b.len());
    for (t, p) in &a {
        assert!(is_well_formed(p.as_slice()));
        assert_eq!(p.as_slice(), b[t].as_slice());
    }
}

#[test]
fn long_tokens_are_not_stored() {
    let long = "x".repeat(600);
    let text = format!("short {long} word");
    let full = build(&[(&text, 4)]);
    // keep only the tokens that the posting file layout places
    let mut tokens: Vec<&String> = full.keys().collect();
    tokens.sort();
    let blobs: Vec<(usize, u64)> =
        tokens.iter().map(|t| (t.len(), (full[*t].len() * 8) as u64)).collect();
    let placed = layout_blobs(&blobs);
    let mut stored = Index::new();
    for (t, o) in tokens.iter().zip(placed.iter()) {
        if let Some(o) = o {
            assert_eq!(o.begin % 64, 0);
            stored.insert((*t).clone(), RoaringishPacked::from_vec(full[*t].as_slice().to_vec()));
        }
    }
    assert_eq!(stored.len(), 2);
    assert_eq!(search(&stored, "short").unwrap(), vec![4]);
    match search(&stored, &format!("short {long}")) {
        Err(SearchError::TokenNotFound(t)) => assert_eq!(t, long),
        other => panic!("unexpected {:?}", other),
    }
}
