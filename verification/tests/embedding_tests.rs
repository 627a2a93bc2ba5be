use pathrank::embedding::cache::{Cache, CacheItem, EmbeddingState};
use pathrank::embedding::{
    get_file_name_prompts, get_file_paragraphs_prompts, Embedder, Task, TaskQueue,
};

fn s(x: &str) -> String {
    String::from(x)
}

fn item(path: &str, state: EmbeddingState) -> CacheItem {
    CacheItem { path: s(path), state }
}

#[test]
fn queue_pops_lowest_priority_first() {
    let mut q = TaskQueue::new();
    q.push(Task::new(item("/a", EmbeddingState::Name), 5000));
    q.push(Task::new(item("/b", EmbeddingState::Name), 1000));
    q.push(Task::new(item("/c", EmbeddingState::Name), 3000));
    let t = q.pop_min().unwrap();
    assert_eq!(t.priority, 1000);
    assert_eq!(t.item.path, s("/b"));
    let t = q.pop_min().unwrap();
    assert_eq!(t.priority, 3000);
    let t = q.pop_min().unwrap();
    assert_eq!(t.priority, 5000);
    assert!(q.pop_min().is_none());
}

#[test]
fn embedder_queue_management() {
    let mut e = Embedder::new();
    e.add_task(Task::new(item("/a", EmbeddingState::Name), 1));
    e.add_tasks(vec![
        Task::new(item("/b", EmbeddingState::Name), 2),
        Task::new(item("/c", EmbeddingState::Name), 3),
    ]);
    assert_eq!(e.tasks.len(), 3);
    e.set_tasks(vec![Task::new(item("/d", EmbeddingState::Name), 9)]);
    assert_eq!(e.tasks.len(), 1);
    e.empty_tasks();
    assert_eq!(e.tasks.len(), 0);
    assert!(e.next_task().is_none());
}

#[test]
fn name_prompts_for_a_file() {
    let p = get_file_name_prompts(&s("/docs/trip_plan.txt"), false);
    assert_eq!(p.len(), 3);
    assert_eq!(p[0], s("file: trip_plan.txt"));
    assert_eq!(p[1], s("name: trip plan"));
    assert_eq!(p[2], s("extension: txt"));
}

#[test]
fn name_prompts_for_a_directory_skip_extension() {
    let p = get_file_name_prompts(&s("/docs/old.backup"), true);
    assert_eq!(p.len(), 2);
    assert_eq!(p[0], s("directory: old.backup"));
    assert_eq!(p[1], s("name: old"));
}

#[test]
fn name_prompts_hidden_file_keeps_dot() {
    let p = get_file_name_prompts(&s("/home/.bashrc"), false);
    assert_eq!(p.len(), 2);
    assert_eq!(p[0], s("file: .bashrc"));
    assert_eq!(p[1], s("name: .bashrc"));
}

#[test]
fn name_prompts_empty_for_root() {
    let p = get_file_name_prompts(&s("/"), true);
    assert_eq!(p.len(), 0);
}

#[test]
fn few_paragraphs_stay_ungrouped() {
    // A file with fewer paragraphs than asked for embeds exactly the
    // un-grouped paragraphs.
    let p = get_file_paragraphs_prompts(&s("alpha\n\nbeta\n\ngamma"), 5);
    assert_eq!(p, vec![s("alpha"), s("beta"), s("gamma")]);
}

#[test]
fn many_paragraphs_merge_pairwise() {
    let p = get_file_paragraphs_prompts(&s("a\n\nb\n\nc"), 2);
    assert_eq!(p, vec![s("a\n\nb"), s("c")]);
    let p = get_file_paragraphs_prompts(&s("a\n\nb\n\nc\n\nd\n\ne"), 2);
    assert_eq!(p, vec![s("a\n\nb\n\nc\n\nd"), s("e")]);
}

#[test]
fn one_group_means_whole_content() {
    let p = get_file_paragraphs_prompts(&s("a\n\nb"), 1);
    assert_eq!(p, vec![s("a\n\nb")]);
}

#[test]
fn empty_paragraphs_are_dropped() {
    let p = get_file_paragraphs_prompts(&s("a\n\n\n\nb"), 9);
    assert_eq!(p, vec![s("a"), s("b")]);
    let p = get_file_paragraphs_prompts(&s(""), 3);
    assert_eq!(p.len(), 0);
}

#[test]
fn execute_task_records_then_skips() {
    let mut e = Embedder::new();
    let t = Task::new(item("/w/a_file.rs", EmbeddingState::Name), 0);
    let out = e.execute_task(&t, false, None).unwrap();
    assert_eq!(out.0, 0);
    assert_eq!(out.1.len(), 3);
    // The idempotent re-embedding guard: the same task is now a no-op.
    assert!(e.execute_task(&t, false, None).is_none());
    // A richer task runs and keeps the same id.
    let richer = Task::new(item("/w/a_file.rs", EmbeddingState::Paragraphs(2)), 0);
    let out = e.execute_task(&richer, false, Some(&s("x\n\ny\n\nz"))).unwrap();
    assert_eq!(out.0, 0);
    assert_eq!(out.1, vec![s("x\n\ny"), s("z")]);
    // Anything at or below the recorded level is a no-op again.
    assert!(e.execute_task(&t, false, None).is_none());
    assert!(e.execute_task(&richer, false, Some(&s("x\n\ny\n\nz"))).is_none());
}

#[test]
fn execute_task_without_prompts_records_nothing() {
    let mut e = Embedder::new();
    let t = Task::new(item("/w/file.txt", EmbeddingState::Paragraphs(3)), 0);
    // No readable content: nothing is recorded, a later attempt may retry.
    assert!(e.execute_task(&t, false, None).is_none());
    let out = e.execute_task(&t, false, Some(&s("body"))).unwrap();
    assert_eq!(out.1, vec![s("body")]);
}

#[test]
fn contains_is_monotone_in_the_level() {
    let mut c = Cache::new();
    c.create_or_update_item(&item("/w/f", EmbeddingState::Paragraphs(3)));
    assert!(c.contains(&item("/w/f", EmbeddingState::Unembedded)));
    assert!(c.contains(&item("/w/f", EmbeddingState::Name)));
    assert!(c.contains(&item("/w/f", EmbeddingState::Paragraphs(2))));
    assert!(c.contains(&item("/w/f", EmbeddingState::Paragraphs(3))));
    assert!(!c.contains(&item("/w/f", EmbeddingState::Paragraphs(4))));
    assert!(!c.contains(&item("/w/other", EmbeddingState::Unembedded)));
}

#[test]
fn state_codes_round_trip() {
    let cases = [
        (EmbeddingState::Unembedded, 0usize),
        (EmbeddingState::Name, 1),
        (EmbeddingState::Paragraphs(0), 2),
        (EmbeddingState::Paragraphs(7), 9),
    ];
    for (state, code) in cases {
        assert_eq!(state.to_code(), code);
        assert_eq!(EmbeddingState::from_code(code), state);
    }
}

#[test]
fn state_order_follows_richness() {
    assert!(EmbeddingState::Unembedded < EmbeddingState::Name);
    assert!(EmbeddingState::Name < EmbeddingState::Paragraphs(0));
    assert!(EmbeddingState::Paragraphs(2) < EmbeddingState::Paragraphs(3));
    assert!(EmbeddingState::Paragraphs(3) <= EmbeddingState::Paragraphs(3));
    assert!(EmbeddingState::Paragraphs(3) >= EmbeddingState::Name);
}

#[test]
fn cache_ids_are_stable_per_path() {
    let mut c = Cache::new();
    c.create_or_update_item(&item("/a", EmbeddingState::Name));
    c.create_or_update_item(&item("/b", EmbeddingState::Name));
    assert_eq!(c.get_id_by_path(&s("/a")), Some(0));
    assert_eq!(c.get_id_by_path(&s("/b")), Some(1));
    // Upgrading a level keeps the id.
    c.create_or_update_item(&item("/a", EmbeddingState::Paragraphs(4)));
    assert_eq!(c.get_id_by_path(&s("/a")), Some(0));
    assert_eq!(c.get_id_by_path(&s("/missing")), None);
}

#[test]
fn nearest_merges_sorts_and_translates() {
    let mut c = Cache::new();
    c.create_or_update_item(&item("/a", EmbeddingState::Name));
    c.create_or_update_item(&item("/b", EmbeddingState::Name));
    c.create_or_update_item(&item("/c", EmbeddingState::Name));
    let approx = vec![(300i64, 1i64), (50i64, 2i64)];
    let exact = vec![(100i64, 0i64)];
    let r = c.nearest(&approx, &exact, 2);
    assert_eq!(r.len(), 2);
    assert_eq!(r[0], (50, s("/c")));
    assert_eq!(r[1], (100, s("/a")));
    let all = c.nearest(&approx, &exact, 10);
    assert_eq!(all.len(), 3);
    assert_eq!(all[2], (300, s("/b")));
    let none = c.nearest(&Vec::new(), &Vec::new(), 4);
    assert_eq!(none.len(), 0);
}
