use pathrank::embedding::cache::EmbeddingState;
use pathrank::rank::{RankResult, RankSource, Walker};

fn s(x: &str) -> String {
    String::from(x)
}

fn seed(path: &str, score: i64) -> Walker {
    let results = vec![RankResult::new(s(path), score, RankSource::ExactPath)];
    Walker::new(&results)
}

#[test]
fn walk_seeds_and_pops_deepest_first() {
    let results = vec![
        RankResult::new(s("/a"), 0, RankSource::ExactPath),
        RankResult::new(s("/b"), 2000, RankSource::InDir),
    ];
    let mut w = Walker::new(&results);
    let (p, sc) = w.next().unwrap();
    assert_eq!(p, s("/b"));
    assert_eq!(sc, 2000);
    let (p, sc) = w.next().unwrap();
    assert_eq!(p, s("/a"));
    assert_eq!(sc, 0);
    assert!(w.next().is_none());
}

#[test]
fn name_task_only_below_the_limit() {
    let mut w = seed("/x", 0);
    w.next().unwrap();
    w.visit(&s("/x"), 7999, false, &Vec::new());
    w.visit(&s("/x"), 8000, false, &Vec::new());
    let tasks = w.into_tasks();
    assert_eq!(tasks.len(), 1);
    assert_eq!(tasks[0].priority, 7999);
    assert!(matches!(tasks[0].item.state, EmbeddingState::Name));
}

#[test]
fn close_files_get_finer_paragraph_tasks() {
    let mut w = seed("/f", 2000);
    let (p, sc) = w.next().unwrap();
    w.visit(&p, sc, false, &Vec::new());
    let tasks = w.into_tasks();
    // A name task at the path's score, and a paragraphs task two units
    // further out whose group count is round(10 / score-in-units).
    assert_eq!(tasks.len(), 2);
    assert_eq!(tasks[0].priority, 2000);
    assert!(matches!(tasks[0].item.state, EmbeddingState::Name));
    assert_eq!(tasks[1].priority, 4000);
    assert!(matches!(tasks[1].item.state, EmbeddingState::Paragraphs(5)));
}

#[test]
fn paragraph_group_count_rounds() {
    // round(10 / 3) = 3, round(10 / 2.5) = 4, round(10 / 4) = 3 (half away
    // from zero), round(10 / 4.999) = 2.
    for (score, nb) in [(3000i64, 3usize), (2500, 4), (4000, 3), (4999, 2), (1000, 10)] {
        let mut w = seed("/f", score);
        let (p, sc) = w.next().unwrap();
        w.visit(&p, sc, false, &Vec::new());
        let tasks = w.into_tasks();
        match tasks[1].item.state {
            EmbeddingState::Paragraphs(n) => assert_eq!(n, nb, "score {}", score),
            _ => panic!("expected a paragraphs task"),
        }
    }
}

#[test]
fn exact_and_far_files_get_no_paragraph_task() {
    let mut w = seed("/f", 0);
    let (p, sc) = w.next().unwrap();
    w.visit(&p, sc, false, &Vec::new());
    assert_eq!(w.into_tasks().len(), 1);
    let mut w = seed("/f", 5000);
    let (p, sc) = w.next().unwrap();
    w.visit(&p, sc, false, &Vec::new());
    assert_eq!(w.into_tasks().len(), 1);
}

#[test]
fn directory_children_join_one_unit_out() {
    let mut w = seed("/d", 2000);
    let (p, sc) = w.next().unwrap();
    w.visit(&p, sc, true, &vec![s("/d/a"), s("/d/b")]);
    let (p, sc) = w.next().unwrap();
    assert_eq!(p, s("/d/b"));
    assert_eq!(sc, 3000);
    let (p, sc) = w.next().unwrap();
    assert_eq!(p, s("/d/a"));
    assert_eq!(sc, 3000);
    assert!(w.next().is_none());
}

#[test]
fn fruitless_subtrees_are_not_entered() {
    // Children at or past the name score limit could never produce a task,
    // so the walk does not descend into them.
    let mut w = seed("/d", 7000);
    let (p, sc) = w.next().unwrap();
    w.visit(&p, sc, true, &vec![s("/d/a")]);
    assert!(w.next().is_none());
}

#[test]
fn the_task_cap_holds_at_every_insertion() {
    let mut w = seed("/d", 1000);
    w.next().unwrap();
    for _ in 0..90 {
        w.visit(&s("/d/f"), 1000, false, &Vec::new());
    }
    let tasks = w.into_tasks();
    assert_eq!(tasks.len(), 100);
}
