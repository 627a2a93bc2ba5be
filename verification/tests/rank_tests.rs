use pathrank::rank::{
    finalize, normalize_input, structural, under_dir, QueryObs, RankResult, RankSource, Ranker,
};

fn s(x: &str) -> String {
    String::from(x)
}

fn obs_dir(canonical: &str, children: &[&str]) -> QueryObs {
    QueryObs {
        exists: true,
        canonical: s(canonical),
        is_dir: true,
        children: children.iter().map(|c| s(c)).collect(),
        siblings: Vec::new(),
    }
}

fn obs_file(canonical: &str, siblings: &[(&str, &str)]) -> QueryObs {
    QueryObs {
        exists: true,
        canonical: s(canonical),
        is_dir: false,
        children: Vec::new(),
        siblings: siblings.iter().map(|(n, c)| (s(n), s(c))).collect(),
    }
}

fn obs_missing() -> QueryObs {
    QueryObs {
        exists: false,
        canonical: s(""),
        is_dir: false,
        children: Vec::new(),
        siblings: Vec::new(),
    }
}

#[test]
fn an_input_that_resolves_nowhere_yields_nothing() {
    let mut ranker = Ranker::new();
    let r = ranker.get_results(&s("no/such/entry"), 10, &obs_missing(), &Vec::new(), &s("/"));
    assert_eq!(r.len(), 0);
}

#[test]
fn normalize_trims_and_defaults() {
    assert_eq!(normalize_input(""), s("."));
    assert_eq!(normalize_input("   "), s("."));
    assert_eq!(normalize_input("\t\n"), s("."));
    assert_eq!(normalize_input("  src  "), s("src"));
    assert_eq!(normalize_input("a b"), s("a b"));
    assert_eq!(normalize_input("\u{a0}\u{3000}doc\u{2028}"), s("doc"));
    assert_eq!(normalize_input("\u{2003}\u{205f}"), s("."));
}

#[test]
fn exact_match_scores_zero() {
    // An input equal to an existing path always appears with score 0 and
    // source ExactPath.
    let mut ranker = Ranker::new();
    let obs = obs_file("/w/notes.txt", &[("notes.txt", "/w/notes.txt"), ("nothing.txt", "/w/nothing.txt")]);
    let r = ranker.get_results(&s("/w/notes.txt"), 5, &obs, &Vec::new(), &s("/w"));
    assert_eq!(r[0].path, s("/w/notes.txt"));
    assert_eq!(r[0].score, 0);
    assert!(matches!(r[0].source, RankSource::ExactPath));
}

#[test]
fn directory_children_score_two_units() {
    let r = structural(&s("/r/src"), &obs_dir("/r/src", &["/r/src/main.rs", "/r/src/lib.rs"]));
    assert_eq!(r.len(), 3);
    for child in ["/r/src/main.rs", "/r/src/lib.rs"] {
        let e = r.iter().find(|e| e.path == s(child)).unwrap();
        assert_eq!(e.score, 2000);
        assert!(matches!(e.source, RankSource::InDir));
    }
}

#[test]
fn scenario_empty_input_on_empty_cwd() {
    // Input "" means the current directory; with no children the result is
    // exactly the cwd at score 0.
    let mut ranker = Ranker::new();
    let input = normalize_input("");
    assert_eq!(input, s("."));
    let obs = obs_dir("/home/u", &[]);
    let r = ranker.get_results(&input, 20, &obs, &Vec::new(), &s("/home/u"));
    assert_eq!(r.len(), 1);
    assert_eq!(r[0].path, s("/home/u"));
    assert_eq!(r[0].score, 0);
    assert!(matches!(r[0].source, RankSource::ExactPath));
}

#[test]
fn scenario_src_with_two_children() {
    // "src" resolves; both children come at score two units, ordered
    // lib.rs before main.rs at the tie.
    let mut ranker = Ranker::new();
    let obs = obs_dir("/r/src", &["/r/src/main.rs", "/r/src/lib.rs"]);
    let r = ranker.get_results(&s("src"), 10, &obs, &Vec::new(), &s("/r"));
    assert_eq!(r.len(), 3);
    assert_eq!(r[0].path, s("/r/src"));
    assert_eq!(r[0].score, 0);
    assert!(matches!(r[0].source, RankSource::ExactPath));
    assert_eq!(r[1].path, s("/r/src/lib.rs"));
    assert_eq!(r[1].score, 2000);
    assert!(matches!(r[1].source, RankSource::InDir));
    assert_eq!(r[2].path, s("/r/src/main.rs"));
    assert_eq!(r[2].score, 2000);
    assert!(matches!(r[2].source, RankSource::InDir));
}

#[test]
fn prefix_match_scores_one_unit() {
    let r = structural(
        &s("/r/a"),
        &obs_file("/r/a", &[("a", "/r/a"), ("ab.txt", "/r/ab.txt"), ("b.txt", "/r/b.txt")]),
    );
    let exact = r.iter().find(|e| e.path == s("/r/a")).unwrap();
    assert_eq!(exact.score, 0);
    let like = r.iter().find(|e| e.path == s("/r/ab.txt")).unwrap();
    assert_eq!(like.score, 1000);
    assert!(matches!(like.source, RankSource::StartLikePath));
    assert!(r.iter().all(|e| e.path != s("/r/b.txt")));
}

#[test]
fn truncation_returns_min_of_count_and_matches() {
    let mut ranker = Ranker::new();
    let children = ["/d/a", "/d/b", "/d/c", "/d/e"];
    let obs = obs_dir("/d", &children);
    let r = ranker.get_results(&s("/d"), 3, &obs, &Vec::new(), &s("/d"));
    assert_eq!(r.len(), 3);
    let mut ranker2 = Ranker::new();
    let obs2 = obs_dir("/d", &children);
    let r2 = ranker2.get_results(&s("/d"), 50, &obs2, &Vec::new(), &s("/d"));
    assert_eq!(r2.len(), 5);
}

#[test]
fn repeating_a_query_yields_the_same_ordered_list() {
    // With no filesystem or cache change in between, the same query twice
    // gives an identical ordered list.
    let mut ranker = Ranker::new();
    let obs = obs_dir("/p", &["/p/x", "/p/y"]);
    let first = ranker.get_results(&s("/p"), 10, &obs, &Vec::new(), &s("/p"));
    let obs_again = obs_dir("/p", &["/p/x", "/p/y"]);
    let second = ranker.get_results(&s("/p"), 10, &obs_again, &Vec::new(), &s("/p"));
    assert_eq!(first.len(), second.len());
    for (a, b) in first.iter().zip(second.iter()) {
        assert_eq!(a.path, b.path);
        assert_eq!(a.score, b.score);
    }
}

#[test]
fn first_query_skips_the_semantic_stage() {
    // The latency guard: the very first query never uses semantic
    // neighbours, even though the remembered input moves from empty to
    // non-empty.
    let mut ranker = Ranker::new();
    assert!(ranker.semantic_count(10, 3).is_none());
    let obs = obs_dir("/q", &[]);
    let neighbors = vec![(100i64, s("/q/sneaky"))];
    let r = ranker.get_results(&s("/q"), 10, &obs, &neighbors, &s("/q"));
    assert!(r.iter().all(|e| !matches!(e.source, RankSource::Semantic)));
    assert_eq!(ranker.semantic_count(10, 3), Some(7));
    assert_eq!(ranker.semantic_count(3, 10), Some(0));
}

#[test]
fn semantic_blends_and_admits_under_cwd() {
    let mut ranker = Ranker::new();
    let obs = obs_dir("/w", &["/w/x"]);
    ranker.get_results(&s("/w"), 10, &obs, &Vec::new(), &s("/w"));
    // Second query: /w/x blends (2000 - 1000 + 500), a new path under the
    // cwd enters at 3000 + distance, one outside the cwd is filtered.
    let obs2 = obs_dir("/w", &["/w/x"]);
    let neighbors = vec![(500i64, s("/w/x")), (200i64, s("/w/deep/y")), (1i64, s("/elsewhere/z"))];
    let r = ranker.get_results(&s("/w"), 10, &obs2, &neighbors, &s("/w"));
    let blended = r.iter().find(|e| e.path == s("/w/x")).unwrap();
    assert_eq!(blended.score, 1500);
    assert!(matches!(blended.source, RankSource::InDir));
    let fresh = r.iter().find(|e| e.path == s("/w/deep/y")).unwrap();
    assert_eq!(fresh.score, 3200);
    assert!(matches!(fresh.source, RankSource::Semantic));
    assert!(r.iter().all(|e| e.path != s("/elsewhere/z")));
}

#[test]
fn a_far_neighbour_never_worsens_an_entry() {
    // Blending may only improve a score: a distance above one unit would
    // push a structural entry back, so it is not applied.
    let mut ranker = Ranker::new();
    let obs = obs_dir("/w", &["/w/x"]);
    ranker.get_results(&s("/w"), 10, &obs, &Vec::new(), &s("/w"));
    let obs2 = obs_dir("/w", &["/w/x"]);
    let neighbors = vec![(2500i64, s("/w/x"))];
    let r = ranker.get_results(&s("/w"), 10, &obs2, &neighbors, &s("/w"));
    let kept = r.iter().find(|e| e.path == s("/w/x")).unwrap();
    assert_eq!(kept.score, 2000);
    assert!(matches!(kept.source, RankSource::InDir));
}

#[test]
fn a_semantic_entry_is_replaced_only_by_a_closer_one() {
    let mut ranker = Ranker::new();
    let obs = obs_dir("/w", &[]);
    ranker.get_results(&s("/w"), 10, &obs, &Vec::new(), &s("/w"));
    // Two hits for the same path within one query: a farther second hit
    // leaves the entry alone.
    let obs2 = obs_dir("/w", &[]);
    let hits = vec![(200i64, s("/w/y")), (900i64, s("/w/y"))];
    let r = ranker.get_results(&s("/w"), 10, &obs2, &hits, &s("/w"));
    assert_eq!(r.iter().find(|e| e.path == s("/w/y")).unwrap().score, 3200);
    // A closer second hit takes the entry down to three units plus its
    // own distance.
    let obs3 = obs_dir("/w", &[]);
    let hits = vec![(900i64, s("/w/y")), (200i64, s("/w/y"))];
    let r = ranker.get_results(&s("/w"), 10, &obs3, &hits, &s("/w"));
    assert_eq!(r.iter().find(|e| e.path == s("/w/y")).unwrap().score, 3200);
}

#[test]
fn finalize_sorts_by_score_then_path() {
    let v = vec![
        RankResult::new(s("/b"), 5000, RankSource::Semantic),
        RankResult::new(s("/a"), 5000, RankSource::Semantic),
        RankResult::new(s("/c"), 1000, RankSource::StartLikePath),
    ];
    let r = finalize(v, 10);
    assert_eq!(r[0].path, s("/c"));
    assert_eq!(r[1].path, s("/a"));
    assert_eq!(r[2].path, s("/b"));
}

#[test]
fn under_dir_respects_components() {
    assert!(under_dir(&s("/a/b"), &s("/a")));
    assert!(under_dir(&s("/a"), &s("/a")));
    assert!(under_dir(&s("/a/b/c"), &s("/a/b")));
    assert!(!under_dir(&s("/ab"), &s("/a")));
    assert!(under_dir(&s("/x"), &s("/")));
    assert!(!under_dir(&s("/a"), &s("/a/b")));
}
