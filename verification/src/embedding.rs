//! Background embedding work: the task priority queue, prompt derivation
//! from a path or a document's text, and the store-side half of executing
//! one task. The embedding model itself stays outside; it receives the
//! prompts this module derives and returns vectors that are indexed under
//! the id this module records.
pub mod cache;

use vstd::prelude::*;

use crate::text::{
    last_index_of, lemma_last_index, replace_underscores, spec_ext, spec_file_name, spec_replace,
    spec_stem,
};
use cache::{Cache, CacheItem, EmbeddingState, spec_contains};

verus! {

/// One pending embedding job: a (path, level) descriptor and a priority.
/// A numerically lower priority runs earlier.
#[derive(Clone, Debug)]
pub struct Task {
    pub item: CacheItem,
    pub priority: i64,
}

impl Task {
    pub fn new(item: CacheItem, priority: i64) -> (r: Task)
        ensures
            r.item == item,
            r.priority == priority,
    {
        Task { item, priority }
    }
}

/// The pending background work, drained lowest priority value first. Which
/// of several tasks with an equal priority leaves first is not promised.
pub struct TaskQueue {
    pub items: Vec<Task>,
}

impl TaskQueue {
    pub fn new() -> (r: TaskQueue)
        ensures
            r.items@.len() == 0,
    {
        TaskQueue { items: Vec::new() }
    }

    /// Adds one task to the pending work.
    pub fn push(&mut self, task: Task)
        ensures
            final(self).items@ == old(self).items@.push(task),
    {
        self.items.push(task);
    }

    /// Adds a batch of tasks to the pending work.
    pub fn push_all(&mut self, tasks: Vec<Task>)
        ensures
            final(self).items@ == old(self).items@ + tasks@,
    {
        let mut tasks = tasks;
        self.items.append(&mut tasks);
    }

    /// Replaces the pending work outright.
    pub fn replace(&mut self, tasks: Vec<Task>)
        ensures
            final(self).items@ == tasks@,
    {
        self.items = tasks;
    }

    /// Discards the pending work.
    pub fn clear(&mut self)
        ensures
            final(self).items@.len() == 0,
    {
        self.items.clear();
    }

    pub fn len(&self) -> (r: usize)
        ensures
            r == self.items@.len(),
    {
        self.items.len()
    }

    /// Takes out a task whose priority value is lowest; the rest stay.
    pub fn pop_min(&mut self) -> (r: Option<Task>)
        ensures
            match r {
                Some(t) => {
                    &&& old(self).items@.len() > 0
                    &&& final(self).items@.len() == old(self).items@.len() - 1
                    &&& old(self).items@.contains(t)
                    &&& final(self).items@.to_multiset() == old(self).items@.to_multiset().remove(
                        t,
                    )
                    &&& forall|j: int|
                        0 <= j < old(self).items@.len() ==> t.priority <= #[trigger] old(
                            self,
                        ).items@[j].priority
                },
                None => old(self).items@.len() == 0 && final(self).items@ == old(self).items@,
            },
    {
        if self.items.len() == 0 {
            return None;
        }
        let mut best: usize = 0;
        let mut i: usize = 1;
        while i < self.items.len()
            invariant
                best < i,
                i <= self.items@.len(),
                1 <= self.items@.len(),
                forall|j: int|
                    0 <= j < i ==> self.items@[best as int].priority <= #[trigger] self.items@[j].priority,
            decreases self.items@.len() - i,
        {
            if self.items[i].priority < self.items[best].priority {
                best = i;
            }
            i = i + 1;
        }
        let ghost before = self.items@;
        let t = self.items.remove(best);
        proof {
            before.to_multiset_ensures();
            assert(before.contains(t));
        }
        Some(t)
    }
}

/// The first position of two consecutive newline characters, or -1.
pub open spec fn first_blank(s: Seq<char>) -> int
    decreases s.len(),
{
    if s.len() < 2 {
        -1
    } else if s[0] == '\n' && s[1] == '\n' {
        0
    } else {
        let rest = first_blank(s.drop_first());
        if rest < 0 {
            -1
        } else {
            rest + 1
        }
    }
}

/// A blank line found at `k` with none earlier in the searched range is the
/// first one of the suffix that starts at `from`.
proof fn lemma_first_blank_found(s: Seq<char>, from: int, k: int)
    requires
        0 <= from <= k,
        k + 1 < s.len(),
        s[k] == '\n',
        s[k + 1] == '\n',
        forall|j: int| from <= j < k ==> !(s[j] == '\n' && #[trigger] s[j + 1] == '\n'),
    ensures
        first_blank(s.skip(from)) == k - from,
    decreases k - from,
{
    if k == from {
        assert(s.skip(from)[0] == s[from]);
        assert(s.skip(from)[1] == s[from + 1]);
    } else {
        lemma_first_blank_found(s, from + 1, k);
        assert(s.skip(from)[0] == s[from]);
        assert(s.skip(from)[1] == s[from + 1]);
        assert(s.skip(from).drop_first() =~= s.skip(from + 1));
        assert(!(s[from] == '\n' && s[from + 1] == '\n'));
    }
}

/// With no blank line anywhere in the suffix, the search comes up empty.
proof fn lemma_first_blank_missing(s: Seq<char>, from: int)
    requires
        0 <= from <= s.len(),
        forall|j: int| from <= j && j + 1 < s.len() ==> !(s[j] == '\n' && #[trigger] s[j + 1] == '\n'),
    ensures
        first_blank(s.skip(from)) == -1,
    decreases s.len() - from,
{
    if s.len() - from >= 2 {
        lemma_first_blank_missing(s, from + 1);
        assert(s.skip(from)[0] == s[from]);
        assert(s.skip(from)[1] == s[from + 1]);
        assert(s.skip(from).drop_first() =~= s.skip(from + 1));
        assert(!(s[from] == '\n' && s[from + 1] == '\n'));
    }
}

/// A found blank line leaves a strictly shorter rest behind it.
proof fn lemma_first_blank_bound(s: Seq<char>)
    ensures
        first_blank(s) >= 0 ==> first_blank(s) + 2 <= s.len(),
    decreases s.len(),
{
    if s.len() >= 2 && !(s[0] == '\n' && s[1] == '\n') {
        lemma_first_blank_bound(s.drop_first());
    }
}

/// The pieces of `s` between blank lines (two consecutive newlines),
/// leftmost separator first; the separators themselves are dropped.
pub open spec fn spec_split_blank(s: Seq<char>) -> Seq<Seq<char>>
    decreases s.len(),
        via spec_split_blank_decreases
{
    let k = first_blank(s);
    if k < 0 {
        seq![s]
    } else {
        seq![s.take(k)] + spec_split_blank(s.skip(k + 2))
    }
}

#[via_fn]
proof fn spec_split_blank_decreases(s: Seq<char>) {
    lemma_first_blank_bound(s);
}

/// The predicate that keeps a paragraph: it has at least one character.
pub open spec fn keep_nonempty() -> spec_fn(Seq<char>) -> bool {
    |p: Seq<char>| p.len() > 0
}

/// The non-empty paragraphs of a document's text.
pub open spec fn spec_paragraphs(s: Seq<char>) -> Seq<Seq<char>> {
    spec_split_blank(s).filter(keep_nonempty())
}

/// One round of pairwise grouping: neighbouring paragraphs are joined with
/// a blank line, a last odd paragraph stays alone.
pub open spec fn spec_group_pairs(ps: Seq<Seq<char>>) -> Seq<Seq<char>>
    decreases ps.len(),
{
    if ps.len() == 0 {
        ps
    } else if ps.len() == 1 {
        ps
    } else {
        seq![ps[0] + "\n\n"@ + ps[1]] + spec_group_pairs(ps.skip(2))
    }
}

/// One grouping round on two or more paragraphs makes them strictly fewer.
pub proof fn lemma_group_pairs_len(ps: Seq<Seq<char>>)
    ensures
        ps.len() >= 2 ==> spec_group_pairs(ps).len() < ps.len(),
        ps.len() >= 1 ==> spec_group_pairs(ps).len() >= 1,
    decreases ps.len(),
{
    if ps.len() >= 2 {
        lemma_group_pairs_len(ps.skip(2));
        assert(spec_group_pairs(ps) =~= seq![ps[0] + "\n\n"@ + ps[1]] + spec_group_pairs(
            ps.skip(2),
        ));
        if ps.skip(2).len() < 2 {
            assert(spec_group_pairs(ps.skip(2)) =~= ps.skip(2));
        }
    }
}

/// Paragraphs grouped pairwise, round after round, until at most `nb` are
/// left.
pub open spec fn spec_grouped(ps: Seq<Seq<char>>, nb: int) -> Seq<Seq<char>>
    recommends
        nb >= 1,
    decreases ps.len(),
        when nb >= 1 via spec_grouped_decreases
{
    if ps.len() <= nb {
        ps
    } else {
        spec_grouped(spec_group_pairs(ps), nb)
    }
}

#[via_fn]
proof fn spec_grouped_decreases(ps: Seq<Seq<char>>, nb: int) {
    if ps.len() > nb {
        lemma_group_pairs_len(ps);
    }
}

/// The prompts derived from a path name: what kind of entry it is and its
/// name, plus the extension for a file that has one.
pub open spec fn spec_name_prompts(path: Seq<char>, is_dir: bool) -> Seq<Seq<char>> {
    let name = spec_file_name(path);
    if name.len() == 0 {
        Seq::empty()
    } else {
        let head: Seq<char> = if is_dir {
            "directory: "@
        } else {
            "file: "@
        };
        let base = seq![head + name, "name: "@ + spec_replace(spec_stem(name))];
        if !is_dir && spec_ext(name) is Some {
            base.push("extension: "@ + spec_ext(name)->Some_0)
        } else {
            base
        }
    }
}

/// The prompts derived from a document's text for a `Paragraphs(nb)` task:
/// the whole text for `nb` of one, otherwise its non-empty paragraphs,
/// grouped down to at most `nb`.
pub open spec fn spec_paragraph_prompts(content: Seq<char>, nb: int) -> Seq<Seq<char>> {
    if content.len() == 0 {
        Seq::empty()
    } else if nb == 1 {
        seq![content]
    } else {
        spec_grouped(spec_paragraphs(content), nb)
    }
}

/// Every prompt of a task: nothing for `Unembedded`, name prompts for
/// `Name`, paragraph prompts for `Paragraphs` on a file whose text could be
/// read. A directory has no paragraph prompts.
pub open spec fn spec_prompts(
    state: EmbeddingState,
    path: Seq<char>,
    is_dir: bool,
    content: Option<Seq<char>>,
) -> Seq<Seq<char>> {
    match state {
        EmbeddingState::Unembedded => Seq::empty(),
        EmbeddingState::Name => spec_name_prompts(path, is_dir),
        EmbeddingState::Paragraphs(nb) => if is_dir {
            Seq::empty()
        } else {
            match content {
                Some(c) => spec_paragraph_prompts(c, nb as int),
                None => Seq::empty(),
            }
        },
    }
}

/// The views of a list of strings.
pub open spec fn views_of(v: Seq<String>) -> Seq<Seq<char>> {
    v.map_values(|s: String| s@)
}

/// The core of the background embedder: the pending task queue and the
/// metadata cache. The model and the vector indices live outside; executing
/// a task here decides whether work is due, derives the prompts, and
/// records the new richness level under the path's stable id.
pub struct Embedder {
    pub cache: Cache,
    pub tasks: TaskQueue,
}

impl Embedder {
    pub open spec fn wf(&self) -> bool {
        self.cache.wf()
    }

    pub fn new() -> (r: Embedder)
        ensures
            r.wf(),
            r.cache.db.rows@.len() == 0,
            r.tasks.items@.len() == 0,
    {
        Embedder { cache: Cache::new(), tasks: TaskQueue::new() }
    }

    /// Queues one task.
    pub fn add_task(&mut self, task: Task)
        ensures
            final(self).tasks.items@ == old(self).tasks.items@.push(task),
            final(self).cache == old(self).cache,
    {
        self.tasks.push(task);
    }

    /// Queues a batch of tasks behind the pending ones.
    pub fn add_tasks(&mut self, tasks: Vec<Task>)
        ensures
            final(self).tasks.items@ == old(self).tasks.items@ + tasks@,
            final(self).cache == old(self).cache,
    {
        self.tasks.push_all(tasks);
    }

    /// Replaces the pending tasks outright: stale work for an old query is
    /// discarded, not cancelled.
    pub fn set_tasks(&mut self, tasks: Vec<Task>)
        ensures
            final(self).tasks.items@ == tasks@,
            final(self).cache == old(self).cache,
    {
        self.tasks.replace(tasks);
    }

    /// Discards the pending tasks.
    pub fn empty_tasks(&mut self)
        ensures
            final(self).tasks.items@.len() == 0,
            final(self).cache == old(self).cache,
    {
        self.tasks.clear();
    }

    /// Takes the most urgent pending task, if any.
    pub fn next_task(&mut self) -> (r: Option<Task>)
        ensures
            final(self).cache == old(self).cache,
            match r {
                Some(t) => {
                    &&& old(self).tasks.items@.len() > 0
                    &&& final(self).tasks.items@.len() == old(self).tasks.items@.len() - 1
                    &&& old(self).tasks.items@.contains(t)
                    &&& final(self).tasks.items@.to_multiset() == old(
                        self,
                    ).tasks.items@.to_multiset().remove(t)
                    &&& forall|j: int|
                        0 <= j < old(self).tasks.items@.len() ==> t.priority <= #[trigger] old(
                            self,
                        ).tasks.items@[j].priority
                },
                None => old(self).tasks.items@.len() == 0 && final(self).tasks.items@ == old(
                    self,
                ).tasks.items@,
            },
    {
        self.tasks.pop_min()
    }

    /// Derives the text prompts of a task from what the filesystem showed:
    /// whether the path is a directory, and the document text that could be
    /// read for it (for a `Paragraphs` task on a file).
    pub fn get_prompts(&self, task: &Task, is_dir: bool, content: Option<&String>) -> (r: Vec<
        String,
    >)
        requires
            match task.item.state {
                EmbeddingState::Paragraphs(nb) => nb >= 1,
                _ => true,
            },
        ensures
            views_of(r@) =~= spec_prompts(
                task.item.state,
                task.item.path@,
                is_dir,
                match content {
                    Some(c) => Some(c@),
                    None => None,
                },
            ),
    {
        match task.item.state {
            EmbeddingState::Unembedded => Vec::new(),
            EmbeddingState::Name => get_file_name_prompts(&task.item.path, is_dir),
            EmbeddingState::Paragraphs(nb) => {
                if is_dir {
                    Vec::new()
                } else {
                    match content {
                        Some(c) => get_file_paragraphs_prompts(c, nb),
                        None => Vec::new(),
                    }
                }
            },
        }
    }

    /// The store-side half of running one task. A task whose level the
    /// store already covers, or that yields no prompts, does nothing.
    /// Otherwise the path's row is upserted to the task's level before any
    /// slow embedding call, and the prompts are handed back with the path's
    /// stable id so the caller can embed them and index the vectors.
    pub fn execute_task(&mut self, task: &Task, is_dir: bool, content: Option<&String>) -> (r:
        Option<(i64, Vec<String>)>)
        requires
            old(self).wf(),
            old(self).cache.db.next_id < i64::MAX,
            match task.item.state {
                EmbeddingState::Paragraphs(nb) => nb >= 1,
                _ => true,
            },
        ensures
            final(self).wf(),
            final(self).tasks == old(self).tasks,
            ({
                let prompts = spec_prompts(
                    task.item.state,
                    task.item.path@,
                    is_dir,
                    match content {
                        Some(c) => Some(c@),
                        None => None,
                    },
                );
                if spec_contains(old(self).cache.db.rows@, task.item) || prompts.len() == 0 {
                    r is None && final(self).cache == old(self).cache
                } else {
                    &&& r is Some
                    &&& views_of(r->Some_0.1@) =~= prompts
                    &&& match cache::db::row_for_path(final(self).cache.db.rows@, task.item.path@) {
                        Some(row) => row.state == task.item.state && row.id == r->Some_0.0,
                        None => false,
                    }
                    &&& forall|q: Seq<char>|
                        q != task.item.path@ ==> #[trigger] cache::db::row_for_path(
                            final(self).cache.db.rows@,
                            q,
                        ) == cache::db::row_for_path(old(self).cache.db.rows@, q)
                }
            }),
    {
        if self.cache.contains(&task.item) {
            return None;
        }
        let prompts = self.get_prompts(task, is_dir, content);
        if prompts.len() == 0 {
            return None;
        }
        self.cache.create_or_update_item(&task.item);
        let id = match self.cache.get_id_by_path(&task.item.path) {
            Some(id) => id,
            None => {
                proof {
                    assert(false);
                }
                0
            },
        };
        Some((id, prompts))
    }
}

/// The name prompts of a path: its kind and file name, its stem with
/// underscores read as blanks, and, for a file, its extension.
pub fn get_file_name_prompts(path: &String, is_dir: bool) -> (r: Vec<String>)
    ensures
        views_of(r@) =~= spec_name_prompts(path@, is_dir),
{
    let len = path.as_str().unicode_len();
    let slash = last_index_of(path.as_str(), '/');
    let start = match slash {
        Some(k) => k + 1,
        None => 0,
    };
    proof {
        lemma_last_index(path@, '/');
    }
    let name = path.as_str().substring_char(start, len);
    assert(name@ =~= spec_file_name(path@));
    let mut r: Vec<String> = Vec::new();
    if name.unicode_len() == 0 {
        return r;
    }
    let head = if is_dir {
        "directory: "
    } else {
        "file: "
    };
    r.push(String::from_str(head).concat(name));
    let name_len = name.unicode_len();
    let dot = last_index_of(name, '.');
    proof {
        lemma_last_index(name@, '.');
    }
    let (stem, ext) = match dot {
        Some(k) => {
            if k > 0 {
                (name.substring_char(0, k), Some(name.substring_char(k + 1, name_len)))
            } else {
                (name, None)
            }
        },
        None => (name, None),
    };
    assert(stem@ =~= spec_stem(name@));
    let renamed = replace_underscores(stem);
    assert(renamed@ =~= spec_replace(spec_stem(name@)));
    r.push(String::from_str("name: ").concat(renamed.as_str()));
    if !is_dir {
        if let Some(e) = ext {
            assert(Some(e@) =~= spec_ext(name@));
            r.push(String::from_str("extension: ").concat(e));
        }
    }
    assert(views_of(r@) =~= spec_name_prompts(path@, is_dir));
    r
}

/// The paragraph prompts of a document's text: the text itself when one
/// group is asked for, otherwise its non-empty paragraphs grouped down to
/// at most `nb`.
pub fn get_file_paragraphs_prompts(content: &String, nb: usize) -> (r: Vec<String>)
    requires
        nb >= 1,
    ensures
        views_of(r@) =~= spec_paragraph_prompts(content@, nb as int),
{
    let mut r: Vec<String> = Vec::new();
    if content.as_str().unicode_len() == 0 {
        return r;
    }
    if nb == 1 {
        r.push(content.clone());
        return r;
    }
    let mut parts = split_paragraphs(content.as_str());
    while parts.len() > nb
        invariant
            nb >= 1,
            spec_grouped(views_of(parts@), nb as int) =~= spec_grouped(
                spec_paragraphs(content@),
                nb as int,
            ),
        decreases parts@.len(),
    {
        let ghost before = views_of(parts@);
        parts = group_pairs(parts);
        proof {
            lemma_group_pairs_len(before);
        }
    }
    assert(views_of(parts@) =~= spec_grouped(spec_paragraphs(content@), nb as int));
    parts
}

/// The non-empty paragraphs of `content`, split on blank lines.
fn split_paragraphs(content: &str) -> (r: Vec<String>)
    ensures
        views_of(r@) =~= spec_paragraphs(content@),
{
    let len = content.unicode_len();
    let mut pieces: Vec<String> = Vec::new();
    assert(content@.skip(0) =~= content@);
    assert(views_of(pieces@) =~= Seq::<Seq<char>>::empty());
    let mut start: usize = 0;
    loop
        invariant_except_break
            start <= len,
            len == content@.len(),
            spec_split_blank(content@) =~= views_of(pieces@) + spec_split_blank(
                content@.skip(start as int),
            ),
        ensures
            spec_split_blank(content@) =~= views_of(pieces@),
        decreases len - start,
    {
        match find_blank(content, start) {
            Some(k) => {
                let piece = content.substring_char(start, k);
                let ghost pre = pieces@;
                pieces.push(String::from_str(piece));
                proof {
                    lemma_first_blank_found(content@, start as int, k as int);
                    assert(views_of(pieces@) =~= views_of(pre).push(piece@));
                    assert(content@.skip(start as int).take(k - start) =~= content@.subrange(
                        start as int,
                        k as int,
                    ));
                    assert(content@.skip(start as int).skip(k - start + 2) =~= content@.skip(k as int + 2));
                }
                start = k + 2;
            },
            None => {
                let piece = content.substring_char(start, len);
                let ghost pre = pieces@;
                pieces.push(String::from_str(piece));
                proof {
                    lemma_first_blank_missing(content@, start as int);
                    assert(views_of(pieces@) =~= views_of(pre).push(piece@));
                    assert(content@.skip(start as int) =~= content@.subrange(
                        start as int,
                        len as int,
                    ));
                }
                break ;
            },
        }
    }
    let mut r: Vec<String> = Vec::new();
    let mut i: usize = 0;
    while i < pieces.len()
        invariant
            i <= pieces@.len(),
            views_of(r@) =~= views_of(pieces@.take(i as int)).filter(keep_nonempty()),
        decreases pieces@.len() - i,
    {
        let ghost pre = views_of(r@);
        let keep = pieces[i].as_str().unicode_len() > 0;
        if keep {
            r.push(pieces[i].clone());
        }
        proof {
            let pred = keep_nonempty();
            let prefix = views_of(pieces@.take(i as int));
            let elem = pieces@[i as int]@;
            assert(views_of(pieces@.take(i + 1)) =~= prefix.push(elem));
            prefix.lemma_filter_push(elem, pred);
            assert(pred(elem) == (elem.len() > 0));
            if keep {
                assert(views_of(r@) =~= pre.push(elem));
            } else {
                assert(views_of(r@) =~= pre);
            }
            assert(views_of(r@) =~= prefix.push(elem).filter(pred));
        }
        i = i + 1;
    }
    assert(pieces@.take(pieces@.len() as int) =~= pieces@);
    r
}

/// One pairwise grouping round over a paragraph list.
fn group_pairs(parts: Vec<String>) -> (r: Vec<String>)
    ensures
        views_of(r@) =~= spec_group_pairs(views_of(parts@)),
{
    let mut r: Vec<String> = Vec::new();
    assert(views_of(parts@).skip(0) =~= views_of(parts@));
    assert(views_of(r@) =~= Seq::<Seq<char>>::empty());
    let mut i: usize = 0;
    while i < parts.len()
        invariant
            i <= parts@.len(),
            spec_group_pairs(views_of(parts@)) =~= views_of(r@) + spec_group_pairs(
                views_of(parts@).skip(i as int),
            ),
        decreases parts@.len() - i,
    {
        let ghost tail = views_of(parts@).skip(i as int);
        let ghost pre = views_of(r@);
        if i + 1 < parts.len() {
            let joined = parts[i].clone().concat("\n\n").concat(parts[i + 1].as_str());
            r.push(joined);
            proof {
                assert(tail.len() >= 2);
                assert(tail[0] == views_of(parts@)[i as int]);
                assert(tail[1] == views_of(parts@)[i + 1]);
                assert(tail.skip(2) =~= views_of(parts@).skip(i + 2));
                assert(views_of(r@) =~= pre.push(tail[0] + "\n\n"@ + tail[1]));
                assert(spec_group_pairs(tail) =~= seq![tail[0] + "\n\n"@ + tail[1]]
                    + spec_group_pairs(tail.skip(2)));
            }
            i = i + 2;
        } else {
            r.push(parts[i].clone());
            proof {
                assert(tail.len() == 1);
                assert(tail[0] == views_of(parts@)[i as int]);
                assert(spec_group_pairs(tail) =~= tail);
                assert(views_of(parts@).skip(i + 1).len() == 0);
                assert(spec_group_pairs(views_of(parts@).skip(i + 1)) =~= views_of(
                    parts@,
                ).skip(i + 1));
                assert(views_of(r@) =~= pre.push(tail[0]));
            }
            i = i + 1;
        }
    }
    assert(views_of(parts@).skip(parts@.len() as int).len() == 0);
    assert(spec_group_pairs(views_of(parts@).skip(parts@.len() as int)) =~= views_of(
        parts@,
    ).skip(parts@.len() as int));
    assert(views_of(r@) =~= spec_group_pairs(views_of(parts@)));
    r
}

/// The first blank line (two consecutive newlines) at or after `from`.
fn find_blank(s: &str, from: usize) -> (r: Option<usize>)
    requires
        from <= s@.len(),
    ensures
        match r {
            Some(k) => {
                &&& from <= k
                &&& k + 1 < s@.len()
                &&& s@[k as int] == '\n'
                &&& s@[k + 1] == '\n'
                &&& forall|j: int|
                    from <= j < k ==> !(s@[j] == '\n' && #[trigger] s@[j + 1] == '\n')
            },
            None => forall|j: int|
                from <= j && j + 1 < s@.len() ==> !(s@[j] == '\n' && #[trigger] s@[j + 1] == '\n'),
        },
{
    let len = s.unicode_len();
    if len < 2 {
        return None;
    }
    let mut j: usize = from;
    while j < len - 1
        invariant
            from <= j,
            2 <= len,
            len == s@.len(),
            forall|t: int| from <= t < j ==> !(s@[t] == '\n' && #[trigger] s@[t + 1] == '\n'),
        decreases len - j,
    {
        if s.get_char(j) == '\n' && s.get_char(j + 1) == '\n' {
            return Some(j);
        }
        j = j + 1;
    }
    None
}

} // verus!
