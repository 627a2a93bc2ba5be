//! The incremental ranking engine: merges exact, directory, prefix and
//! semantic matches into one ordered result list, and derives the
//! background embedding tasks that a query leaves behind.
//!
//! Scores are integers in milli-units: a step of one in the original
//! design's scale is `SCORE_UNIT` here. Lower is better. An exact match
//! scores 0, a prefix match one unit, a directory child two units, and a
//! semantic match three units plus its distance.
pub use crate::embedding::cache::{CacheItem, EmbeddingState};
pub use crate::embedding::{Embedder, Task};

use vstd::prelude::*;

use crate::text::{
    char_is_space, is_space, last_index_of, lemma_last_index, lex_le, spec_file_name,
    spec_starts_with, str_starts_with,
};

verus! {

/// Which merge stage produced a result.
#[derive(Clone, Copy, Debug, PartialEq, Eq, Structural)]
pub enum RankSource {
    ExactPath,
    InDir,
    StartLikePath,
    Semantic,
}

/// One ranked entry: a canonical path, the stage that found it, and its
/// score (lower is better).
#[derive(Clone, Debug)]
pub struct RankResult {
    pub path: String,
    pub source: RankSource,
    pub score: i64,
}

/// One scale step of the scoring design.
pub const SCORE_UNIT: i64 = 1000;

/// Score of an exact path match.
pub const SCORE_EXACT: i64 = 0;

/// Score of an entry whose name starts like the input.
pub const SCORE_START_LIKE: i64 = 1000;

/// Score of a child of the queried directory.
pub const SCORE_IN_DIR: i64 = 2000;

/// Base score of a semantic match; its distance is added on top.
pub const SCORE_SEMANTIC_BASE: i64 = 3000;

/// Walk policy: below this score a path still gets a name-level task.
pub const TASK_NAME_SCORE_LIMIT: i64 = 8000;

/// Walk policy: below this score a file also gets a paragraphs-level task.
pub const TASK_PARAGRAPHS_SCORE_LIMIT: i64 = 5000;

/// At most this many tasks are generated by one walk.
pub const MAX_TASKS: usize = 100;

/// A bound on the scores and distances the engine accepts from outside;
/// large enough for any real distance, small enough that score arithmetic
/// stays far from overflow.
pub const SCORE_LIMIT: i64 = 0x10_0000_0000_0000;

impl RankResult {
    /// The caller hands in an already canonicalized path.
    pub fn new(path: String, score: i64, source: RankSource) -> (r: RankResult)
        ensures
            r.path == path,
            r.score == score,
            r.source == source,
    {
        RankResult { path, score, source }
    }
}

/// The first entry for path `p`, if the list has one.
pub open spec fn lookup(rs: Seq<RankResult>, p: Seq<char>) -> Option<RankResult>
    decreases rs.len(),
{
    if rs.len() == 0 {
        None
    } else if rs[0].path@ == p {
        Some(rs[0])
    } else {
        lookup(rs.drop_first(), p)
    }
}

/// No two entries share a path.
pub open spec fn paths_unique(rs: Seq<RankResult>) -> bool {
    forall|i: int, j: int| 0 <= i < j < rs.len() ==> rs[i].path@ != rs[j].path@
}

/// The order of a finished result list: by score, ties lexicographically
/// by path.
pub open spec fn result_le(a: RankResult, b: RankResult) -> bool {
    a.score < b.score || (a.score == b.score && lex_le(a.path@, b.path@))
}

/// The list is ordered under `result_le`.
pub open spec fn results_sorted(rs: Seq<RankResult>) -> bool {
    forall|i: int, j: int| 0 <= i < j < rs.len() ==> result_le(rs[i], rs[j])
}

/// A failed lookup rules every entry out; a successful one names an entry
/// that is really there.
pub proof fn lemma_lookup_covers(rs: Seq<RankResult>, p: Seq<char>)
    ensures
        match lookup(rs, p) {
            Some(r) => exists|i: int|
                0 <= i < rs.len() && rs[i] == r && #[trigger] rs[i].path@ == p,
            None => forall|i: int| 0 <= i < rs.len() ==> #[trigger] rs[i].path@ != p,
        },
    decreases rs.len(),
{
    if rs.len() > 0 {
        if rs[0].path@ == p {
            assert(rs[0] == lookup(rs, p)->Some_0 && rs[0].path@ == p);
        } else {
            lemma_lookup_covers(rs.drop_first(), p);
            match lookup(rs, p) {
                Some(r) => {
                    let i = choose|i: int|
                        0 <= i < rs.drop_first().len() && rs.drop_first()[i] == r
                            && #[trigger] rs.drop_first()[i].path@ == p;
                    assert(rs[i + 1] == rs.drop_first()[i]);
                    assert(rs[i + 1].path@ == p);
                },
                None => {
                    assert forall|i: int| 0 <= i < rs.len() implies #[trigger] rs[i].path@
                        != p by {
                        if i > 0 {
                            assert(rs.drop_first()[i - 1] == rs[i]);
                        }
                    }
                },
            }
        }
    }
}

/// In a duplicate-free list, the lookup finds exactly the entry that an
/// index exhibits.
pub proof fn lemma_lookup_at(rs: Seq<RankResult>, p: Seq<char>, k: int)
    requires
        paths_unique(rs),
        0 <= k < rs.len(),
        rs[k].path@ == p,
    ensures
        lookup(rs, p) == Some(rs[k]),
    decreases rs.len(),
{
    if k == 0 {
    } else {
        assert(rs[0].path@ != p);
        lemma_lookup_at(rs.drop_first(), p, k - 1);
        assert(rs.drop_first()[k - 1] == rs[k]);
    }
}

/// The index an exec search returned for path `p`, if the list has one.
fn find_result(results: &Vec<RankResult>, path: &String) -> (r: Option<usize>)
    ensures
        match r {
            Some(i) => i < results@.len() && results@[i as int].path@ == path@,
            None => forall|i: int| 0 <= i < results@.len() ==> #[trigger] results@[i].path@ != path@,
        },
{
    let mut i: usize = 0;
    while i < results.len()
        invariant
            i <= results@.len(),
            forall|j: int| 0 <= j < i ==> #[trigger] results@[j].path@ != path@,
        decreases results@.len() - i,
    {
        if results[i].path.eq(path) {
            return Some(i);
        }
        i = i + 1;
    }
    None
}

/// Admits a candidate entry: a path the list does not hold yet is
/// appended, one already present keeps its entry unless the candidate's
/// score is strictly better. An existing entry is never worsened.
fn add_if_better(results: &mut Vec<RankResult>, path: &String, score: i64, source: RankSource)
    requires
        paths_unique(old(results)@),
    ensures
        final(results)@ == spec_admit(old(results)@, *path, score, source),
        paths_unique(final(results)@),
        final(results)@.len() >= old(results)@.len(),
        (forall|j: int| 0 <= j < old(results)@.len() ==> #[trigger] old(results)@[j].path@ != path@)
            ==> final(results)@ == old(results)@.push(
            (RankResult { path: *path, source, score }),
        ),
        (exists|j: int| 0 <= j < old(results)@.len() && #[trigger] old(results)@[j].path@ == path@)
            ==> final(results)@.len() == old(results)@.len(),
        forall|j: int|
            0 <= j < old(results)@.len() ==> #[trigger] final(results)@[j] == (if old(
                results,
            )@[j].path@ == path@ && score < old(results)@[j].score {
                (RankResult { path: old(results)@[j].path, source, score })
            } else {
                old(results)@[j]
            }),
{
    let ghost before = results@;
    match find_result(results, path) {
        Some(i) => {
            proof {
                lemma_lookup_at(before, path@, i as int);
            }
            if score < results[i].score {
                let kept = results[i].path.clone();
                results.set(i, RankResult { path: kept, source, score });
                proof {
                    assert(results@ == before.update(
                        i as int,
                        (RankResult { path: before[i as int].path, source, score }),
                    ));
                    assert forall|a: int, b: int|
                        0 <= a < b < results@.len() implies results@[a].path@
                        != results@[b].path@ by {
                        assert(results@[a].path@ == before[a].path@);
                        assert(results@[b].path@ == before[b].path@);
                    }
                }
            }
            proof {
                assert(results@ =~= spec_admit(before, *path, score, source));
            }
        },
        None => {
            proof {
                lemma_lookup_covers(before, path@);
                if lookup(before, path@) is Some {
                    assert(false);
                }
            }
            results.push(RankResult { path: path.clone(), source, score });
            proof {
                assert(results@ =~= spec_admit(before, *path, score, source));
            }
        },
    }
}

/// What the filesystem showed for one query input: whether the input
/// resolves, its canonical path, whether that is a directory (and not a
/// symlink), the canonical paths of its children, and the entries beside
/// it in its parent directory, each as its directory-entry name with its
/// canonical path.
pub struct QueryObs {
    pub exists: bool,
    pub canonical: String,
    pub is_dir: bool,
    pub children: Vec<String>,
    pub siblings: Vec<(String, String)>,
}

/// A path that one of the structural stages may have admitted.
pub open spec fn obs_member(obs: QueryObs, p: Seq<char>) -> bool {
    ||| p == obs.canonical@
    ||| exists|i: int| 0 <= i < obs.children@.len() && #[trigger] obs.children@[i]@ == p
    ||| exists|i: int| 0 <= i < obs.siblings@.len() && (#[trigger] obs.siblings@[i]).1@ == p
}

/// The list holds `p` at directory-child strength or better.
pub open spec fn child_settled(rs: Seq<RankResult>, p: Seq<char>) -> bool {
    exists|j: int|
        0 <= j < rs.len() && #[trigger] rs[j].path@ == p && (rs[j].score < SCORE_IN_DIR || (
        rs[j].score == SCORE_IN_DIR && rs[j].source == RankSource::InDir))
}

/// The list holds `p` at prefix-match strength or better.
pub open spec fn sibling_settled(rs: Seq<RankResult>, p: Seq<char>) -> bool {
    exists|j: int|
        0 <= j < rs.len() && #[trigger] rs[j].path@ == p && (rs[j].score < SCORE_START_LIKE || (
        rs[j].score == SCORE_START_LIKE && rs[j].source == RankSource::StartLikePath))
}

/// A candidate folded into the list under the only-improve rule: a path
/// not held yet enters at the end; one already held keeps its entry
/// unless the candidate's score is strictly better.
pub open spec fn spec_admit(
    rs: Seq<RankResult>,
    path: String,
    score: i64,
    source: RankSource,
) -> Seq<RankResult> {
    if lookup(rs, path@) is Some {
        Seq::new(
            rs.len(),
            |j: int|
                if rs[j].path@ == path@ && score < rs[j].score {
                    RankResult { path: rs[j].path, source, score }
                } else {
                    rs[j]
                },
        )
    } else {
        rs.push((RankResult { path, source, score }))
    }
}

/// The first `k` directory children admitted, in order.
pub open spec fn spec_admit_children(
    rs: Seq<RankResult>,
    children: Seq<String>,
    k: int,
) -> Seq<RankResult>
    decreases k,
{
    if k <= 0 {
        rs
    } else {
        spec_admit(
            spec_admit_children(rs, children, k - 1),
            children[k - 1],
            SCORE_IN_DIR,
            RankSource::InDir,
        )
    }
}

/// The first `k` parent-directory entries admitted, in order; only those
/// whose file name starts with `fname` qualify.
pub open spec fn spec_admit_siblings(
    rs: Seq<RankResult>,
    siblings: Seq<(String, String)>,
    fname: Seq<char>,
    k: int,
) -> Seq<RankResult>
    decreases k,
{
    if k <= 0 {
        rs
    } else {
        let prev = spec_admit_siblings(rs, siblings, fname, k - 1);
        if spec_starts_with(siblings[k - 1].0@, fname) {
            spec_admit(prev, siblings[k - 1].1, SCORE_START_LIKE, RankSource::StartLikePath)
        } else {
            prev
        }
    }
}

/// The whole structural merge as a value: nothing for an input that does
/// not resolve; otherwise the exact match followed by the admitted
/// children of a directory, or the admitted like-named siblings of a
/// file.
pub open spec fn spec_structural(input: String, obs: QueryObs) -> Seq<RankResult> {
    if !obs.exists {
        Seq::empty()
    } else {
        let base = seq![
            (RankResult { path: obs.canonical, source: RankSource::ExactPath, score: SCORE_EXACT }),
        ];
        if obs.is_dir {
            spec_admit_children(base, obs.children@, obs.children@.len() as int)
        } else {
            spec_admit_siblings(
                base,
                obs.siblings@,
                spec_file_name(input@),
                obs.siblings@.len() as int,
            )
        }
    }
}

/// The file name of `s`: the part of the string after its last slash.
fn file_name_of(s: &str) -> (r: String)
    ensures
        r@ =~= spec_file_name(s@),
{
    let len = s.unicode_len();
    let start = match last_index_of(s, '/') {
        Some(k) => k + 1,
        None => 0,
    };
    proof {
        lemma_last_index(s@, '/');
    }
    String::from_str(s.substring_char(start, len))
}

/// The structural stages of a query: the exact match, the children of a
/// queried directory, and the parent-directory entries whose name starts
/// like the input's file name. Entries are only ever improved, never
/// worsened, by a later stage.
pub fn structural(input: &String, obs: &QueryObs) -> (r: Vec<RankResult>)
    ensures
        r@ == spec_structural(*input, *obs),
        paths_unique(r@),
        !obs.exists ==> r@.len() == 0,
        obs.exists ==> r@.len() >= 1 && r@[0].path@ == obs.canonical@ && r@[0].score == SCORE_EXACT
            && r@[0].source == RankSource::ExactPath,
        obs.exists ==> match lookup(r@, obs.canonical@) {
            Some(e) => e.score == SCORE_EXACT && e.source == RankSource::ExactPath,
            None => false,
        },
        obs.exists && obs.is_dir ==> forall|i: int|
            0 <= i < obs.children@.len() ==> match lookup(r@, #[trigger] obs.children@[i]@) {
                Some(e) => e.score < SCORE_IN_DIR || (e.score == SCORE_IN_DIR && e.source
                    == RankSource::InDir),
                None => false,
            },
        obs.exists && !obs.is_dir ==> forall|i: int|
            0 <= i < obs.siblings@.len() && spec_starts_with(
                (#[trigger] obs.siblings@[i]).0@,
                spec_file_name(input@),
            ) ==> match lookup(r@, obs.siblings@[i].1@) {
                Some(e) => e.score < SCORE_START_LIKE || (e.score == SCORE_START_LIKE && e.source
                    == RankSource::StartLikePath),
                None => false,
            },
        forall|j: int| 0 <= j < r@.len() ==> obs_member(*obs, #[trigger] r@[j].path@),
        forall|j: int|
            0 <= j < r@.len() ==> #[trigger] r@[j].score == SCORE_EXACT || r@[j].score
                == SCORE_START_LIKE || r@[j].score == SCORE_IN_DIR,
        forall|j: int|
            0 <= j < r@.len() && #[trigger] r@[j].score == SCORE_EXACT ==> r@[j].path@
                == obs.canonical@,
        forall|j: int| 0 <= j < r@.len() ==> #[trigger] r@[j].source != RankSource::Semantic,
{
    let mut results: Vec<RankResult> = Vec::new();
    if !obs.exists {
        return results;
    }
    add_if_better(&mut results, &obs.canonical, SCORE_EXACT, RankSource::ExactPath);
    let ghost base = results@;
    proof {
        assert(base =~= seq![
            (RankResult { path: obs.canonical, source: RankSource::ExactPath, score: SCORE_EXACT }),
        ]);
    }
    if obs.is_dir {
        let mut i: usize = 0;
        while i < obs.children.len()
            invariant
                i <= obs.children@.len(),
                base =~= seq![
                    (RankResult {
                        path: obs.canonical,
                        source: RankSource::ExactPath,
                        score: SCORE_EXACT,
                    }),
                ],
                results@ == spec_admit_children(base, obs.children@, i as int),
                paths_unique(results@),
                results@.len() >= 1,
                results@[0].path@ == obs.canonical@,
                results@[0].score == SCORE_EXACT,
                results@[0].source == RankSource::ExactPath,
                forall|k: int|
                    0 <= k < i ==> child_settled(results@, #[trigger] obs.children@[k]@),
                forall|j: int| 0 <= j < results@.len() ==> obs_member(*obs, #[trigger] results@[j].path@),
                forall|j: int|
                    0 <= j < results@.len() ==> #[trigger] results@[j].score == SCORE_EXACT
                        || results@[j].score == SCORE_IN_DIR,
                forall|j: int|
                    0 <= j < results@.len() && #[trigger] results@[j].score == SCORE_IN_DIR
                        ==> results@[j].source == RankSource::InDir,
                forall|j: int|
                    0 <= j < results@.len() ==> #[trigger] results@[j].source
                        != RankSource::Semantic,
                forall|j: int|
                    0 <= j < results@.len() && #[trigger] results@[j].score == SCORE_EXACT
                        ==> results@[j].path@ == obs.canonical@,
            decreases obs.children@.len() - i,
        {
            let ghost before = results@;
            add_if_better(&mut results, &obs.children[i], SCORE_IN_DIR, RankSource::InDir);
            proof {
                assert forall|k: int| 0 <= k < i + 1 implies child_settled(
                    results@,
                    #[trigger] obs.children@[k]@,
                ) by {
                    if k < i {
                        let j = choose|j: int|
                            0 <= j < before.len() && #[trigger] before[j].path@
                                == obs.children@[k]@ && (before[j].score < SCORE_IN_DIR || (
                            before[j].score == SCORE_IN_DIR && before[j].source
                                == RankSource::InDir));
                        assert(results@[j].path@ == obs.children@[k]@);
                        assert(results@[j].score < SCORE_IN_DIR || (results@[j].score
                            == SCORE_IN_DIR && results@[j].source == RankSource::InDir));
                    } else {
                        if exists|j: int|
                            0 <= j < before.len() && #[trigger] before[j].path@
                                == obs.children@[k]@ {
                            let j = choose|j: int|
                                0 <= j < before.len() && #[trigger] before[j].path@
                                    == obs.children@[k]@;
                            assert(results@[j].path@ == obs.children@[k]@);
                            assert(results@[j].score < SCORE_IN_DIR || (results@[j].score
                                == SCORE_IN_DIR && results@[j].source == RankSource::InDir));
                        } else {
                            assert(results@ == before.push(
                                (RankResult {
                                    path: obs.children@[i as int],
                                    source: RankSource::InDir,
                                    score: SCORE_IN_DIR,
                                }),
                            ));
                            assert(results@[before.len() as int].path@ == obs.children@[k]@);
                        }
                    }
                }
            }
            i = i + 1;
        }
        proof {
            assert forall|k: int|
                0 <= k < obs.children@.len() implies match lookup(
                results@,
                #[trigger] obs.children@[k]@,
            ) {
                Some(e) => e.score < SCORE_IN_DIR || (e.score == SCORE_IN_DIR && e.source
                    == RankSource::InDir),
                None => false,
            } by {
                let j = choose|j: int|
                    0 <= j < results@.len() && #[trigger] results@[j].path@ == obs.children@[k]@
                        && (results@[j].score < SCORE_IN_DIR || (results@[j].score == SCORE_IN_DIR
                        && results@[j].source == RankSource::InDir));
                lemma_lookup_at(results@, obs.children@[k]@, j);
            }
        }
    } else {
        let fname = file_name_of(input.as_str());
        let mut i: usize = 0;
        while i < obs.siblings.len()
            invariant
                i <= obs.siblings@.len(),
                fname@ == spec_file_name(input@),
                base =~= seq![
                    (RankResult {
                        path: obs.canonical,
                        source: RankSource::ExactPath,
                        score: SCORE_EXACT,
                    }),
                ],
                results@ == spec_admit_siblings(
                    base,
                    obs.siblings@,
                    spec_file_name(input@),
                    i as int,
                ),
                paths_unique(results@),
                results@.len() >= 1,
                results@[0].path@ == obs.canonical@,
                results@[0].score == SCORE_EXACT,
                results@[0].source == RankSource::ExactPath,
                forall|k: int|
                    0 <= k < i && spec_starts_with(
                        (#[trigger] obs.siblings@[k]).0@,
                        spec_file_name(input@),
                    ) ==> sibling_settled(results@, obs.siblings@[k].1@),
                forall|j: int| 0 <= j < results@.len() ==> obs_member(*obs, #[trigger] results@[j].path@),
                forall|j: int|
                    0 <= j < results@.len() ==> #[trigger] results@[j].score == SCORE_EXACT
                        || results@[j].score == SCORE_START_LIKE,
                forall|j: int|
                    0 <= j < results@.len() && #[trigger] results@[j].score == SCORE_START_LIKE
                        ==> results@[j].source == RankSource::StartLikePath,
                forall|j: int|
                    0 <= j < results@.len() ==> #[trigger] results@[j].source
                        != RankSource::Semantic,
                forall|j: int|
                    0 <= j < results@.len() && #[trigger] results@[j].score == SCORE_EXACT
                        ==> results@[j].path@ == obs.canonical@,
            decreases obs.siblings@.len() - i,
        {
            let ghost before = results@;
            let matched = str_starts_with(obs.siblings[i].0.as_str(), fname.as_str());
            if matched {
                add_if_better(
                    &mut results,
                    &obs.siblings[i].1,
                    SCORE_START_LIKE,
                    RankSource::StartLikePath,
                );
            }
            proof {
                assert forall|k: int|
                    0 <= k < i + 1 && spec_starts_with(
                        (#[trigger] obs.siblings@[k]).0@,
                        spec_file_name(input@),
                    ) implies sibling_settled(results@, obs.siblings@[k].1@) by {
                    if k < i {
                        let j = choose|j: int|
                            0 <= j < before.len() && #[trigger] before[j].path@
                                == obs.siblings@[k].1@ && (before[j].score < SCORE_START_LIKE || (
                            before[j].score == SCORE_START_LIKE && before[j].source
                                == RankSource::StartLikePath));
                        assert(results@[j].path@ == obs.siblings@[k].1@);
                        assert(results@[j].score < SCORE_START_LIKE || (results@[j].score
                            == SCORE_START_LIKE && results@[j].source
                            == RankSource::StartLikePath));
                    } else {
                        assert(matched);
                        if exists|j: int|
                            0 <= j < before.len() && #[trigger] before[j].path@
                                == obs.siblings@[k].1@ {
                            let j = choose|j: int|
                                0 <= j < before.len() && #[trigger] before[j].path@
                                    == obs.siblings@[k].1@;
                            assert(results@[j].path@ == obs.siblings@[k].1@);
                            assert(results@[j].score < SCORE_START_LIKE || (results@[j].score
                                == SCORE_START_LIKE && results@[j].source
                                == RankSource::StartLikePath));
                        } else {
                            assert(results@ == before.push(
                                (RankResult {
                                    path: obs.siblings@[i as int].1,
                                    source: RankSource::StartLikePath,
                                    score: SCORE_START_LIKE,
                                }),
                            ));
                            assert(results@[before.len() as int].path@ == obs.siblings@[k].1@);
                        }
                    }
                }
            }
            i = i + 1;
        }
        proof {
            assert forall|k: int|
                0 <= k < obs.siblings@.len() && spec_starts_with(
                    (#[trigger] obs.siblings@[k]).0@,
                    spec_file_name(input@),
                ) implies match lookup(results@, obs.siblings@[k].1@) {
                Some(e) => e.score < SCORE_START_LIKE || (e.score == SCORE_START_LIKE && e.source
                    == RankSource::StartLikePath),
                None => false,
            } by {
                let j = choose|j: int|
                    0 <= j < results@.len() && #[trigger] results@[j].path@
                        == obs.siblings@[k].1@
                        && (results@[j].score < SCORE_START_LIKE || (results@[j].score
                        == SCORE_START_LIKE && results@[j].source == RankSource::StartLikePath));
                lemma_lookup_at(results@, obs.siblings@[k].1@, j);
            }
        }
    }
    proof {
        lemma_lookup_at(results@, obs.canonical@, 0);
    }
    results
}

/// Whether canonical path `p` lies in the subtree of directory `d`.
pub open spec fn spec_under_dir(p: Seq<char>, d: Seq<char>) -> bool {
    ||| p == d
    ||| (spec_starts_with(p, d) && p.len() > d.len() && ((d.len() > 0 && d[d.len() - 1] == '/')
        || p[d.len() as int] == '/'))
}

/// Decides `spec_under_dir`.
pub fn under_dir(p: &String, d: &String) -> (r: bool)
    ensures
        r == spec_under_dir(p@, d@),
{
    if p.eq(d) {
        return true;
    }
    let p_len = p.as_str().unicode_len();
    let d_len = d.as_str().unicode_len();
    if !str_starts_with(p.as_str(), d.as_str()) || p_len <= d_len {
        return false;
    }
    if d_len > 0 && d.as_str().get_char(d_len - 1) == '/' {
        return true;
    }
    p.as_str().get_char(d_len) == '/'
}

/// Some neighbour among the first `k` names path `p`.
pub open spec fn names_path(neighbors: Seq<(i64, String)>, k: int, p: Seq<char>) -> bool {
    exists|i: int| 0 <= i < k && #[trigger] neighbors[i].1@ == p
}

/// What one neighbour at distance `dist` does to the entry that already
/// holds its path. A structural entry blends — one unit off, the distance
/// on — but only when that improves it: semantic proximity may nudge an
/// entry forward, never push it back. An entry already in the semantic
/// range is replaced exactly when the fresh distance beats it.
pub open spec fn spec_blend(e: RankResult, dist: i64) -> RankResult {
    if e.score < SCORE_SEMANTIC_BASE {
        if dist < SCORE_UNIT {
            RankResult { path: e.path, source: e.source, score: (e.score - SCORE_UNIT + dist) as i64 }
        } else {
            e
        }
    } else if SCORE_SEMANTIC_BASE + dist < e.score {
        RankResult { path: e.path, source: RankSource::Semantic, score: (SCORE_SEMANTIC_BASE + dist) as i64 }
    } else {
        e
    }
}

/// One neighbour folded into the list: the entry holding its path is
/// blended or replaced in place; a path not held yet enters at the end,
/// at three units plus the distance, if it lies under the current
/// directory.
pub open spec fn spec_apply_neighbor(
    rs: Seq<RankResult>,
    nb: (i64, String),
    dir: Seq<char>,
) -> Seq<RankResult> {
    let touched = Seq::new(
        rs.len(),
        |j: int|
            if rs[j].path@ == nb.1@ {
                spec_blend(rs[j], nb.0)
            } else {
                rs[j]
            },
    );
    if lookup(rs, nb.1@) is Some || !spec_under_dir(nb.1@, dir) {
        touched
    } else {
        touched.push(
            (RankResult {
                path: nb.1,
                source: RankSource::Semantic,
                score: (SCORE_SEMANTIC_BASE + nb.0) as i64,
            }),
        )
    }
}

/// The first `k` neighbours folded into the list, in order.
pub open spec fn spec_merge_semantic(
    rs: Seq<RankResult>,
    neighbors: Seq<(i64, String)>,
    k: int,
    dir: Seq<char>,
) -> Seq<RankResult>
    decreases k,
{
    if k <= 0 {
        rs
    } else {
        spec_apply_neighbor(spec_merge_semantic(rs, neighbors, k - 1, dir), neighbors[k - 1], dir)
    }
}

/// The semantic stage: each of the first `limit` neighbours either blends
/// into the entry that holds its path (never worsening it), replaces a
/// worse semantic entry, or enters as a new semantic result if its path
/// lies under the current directory. Existing entries keep their path and
/// position; the result is exactly the fold of the used neighbours.
pub fn merge_semantic(
    results: Vec<RankResult>,
    neighbors: &Vec<(i64, String)>,
    limit: usize,
    current_dir: &String,
) -> (r: Vec<RankResult>)
    requires
        paths_unique(results@),
        forall|j: int|
            0 <= j < results@.len() ==> -SCORE_LIMIT <= #[trigger] results@[j].score
                <= SCORE_LIMIT,
        forall|i: int| 0 <= i < neighbors@.len() ==> 0 <= #[trigger] neighbors@[i].0 <= SCORE_LIMIT,
        neighbors@.len() <= 0x1_0000_0000,
    ensures
        r@ == spec_merge_semantic(
            results@,
            neighbors@,
            if limit <= neighbors@.len() {
                limit as int
            } else {
                neighbors@.len() as int
            },
            current_dir@,
        ),
        paths_unique(r@),
        r@.len() >= results@.len(),
        forall|j: int|
            0 <= j < results@.len() ==> #[trigger] r@[j].path@ == results@[j].path@,
        forall|j: int|
            0 <= j < r@.len() ==> -(SCORE_LIMIT + SCORE_UNIT * neighbors@.len())
                <= #[trigger] r@[j].score <= 2 * SCORE_LIMIT + SCORE_SEMANTIC_BASE,
        forall|j: int|
            0 <= j < results@.len() ==> #[trigger] r@[j].score <= results@[j].score,
        forall|j: int|
            0 <= j < results@.len() && results@[j].score < SCORE_SEMANTIC_BASE
                ==> #[trigger] r@[j].source == results@[j].source && r@[j].score
                < SCORE_SEMANTIC_BASE,
        forall|j: int|
            0 <= j < results@.len() && !names_path(
                neighbors@,
                if limit <= neighbors@.len() {
                    limit as int
                } else {
                    neighbors@.len() as int
                },
                #[trigger] results@[j].path@,
            ) ==> r@[j] == results@[j],
        forall|j: int|
            results@.len() <= j < r@.len() ==> #[trigger] r@[j].source == RankSource::Semantic
                && r@[j].score >= SCORE_SEMANTIC_BASE && spec_under_dir(
                r@[j].path@,
                current_dir@,
            ) && names_path(
                neighbors@,
                if limit <= neighbors@.len() {
                    limit as int
                } else {
                    neighbors@.len() as int
                },
                r@[j].path@,
            ),
{
    let ghost orig = results@;
    let mut results = results;
    let k = if limit <= neighbors.len() {
        limit
    } else {
        neighbors.len()
    };
    let mut i: usize = 0;
    while i < k
        invariant
            i <= k,
            k == if limit <= neighbors@.len() {
                limit as int
            } else {
                neighbors@.len() as int
            },
            results@ == spec_merge_semantic(orig, neighbors@, i as int, current_dir@),
            paths_unique(results@),
            results@.len() >= orig.len(),
            forall|j: int| 0 <= j < orig.len() ==> #[trigger] results@[j].path@ == orig[j].path@,
            forall|j: int|
                0 <= j < orig.len() ==> -SCORE_LIMIT <= #[trigger] orig[j].score <= SCORE_LIMIT,
            forall|t: int|
                0 <= t < neighbors@.len() ==> 0 <= #[trigger] neighbors@[t].0 <= SCORE_LIMIT,
            neighbors@.len() <= 0x1_0000_0000,
            forall|j: int|
                0 <= j < results@.len() ==> -(SCORE_LIMIT + SCORE_UNIT * i) <= #[trigger] results@[j].score
                    <= 2 * SCORE_LIMIT + SCORE_SEMANTIC_BASE,
            forall|j: int|
                0 <= j < orig.len() ==> #[trigger] results@[j].score <= orig[j].score,
            forall|j: int|
                0 <= j < orig.len() && orig[j].score < SCORE_SEMANTIC_BASE
                    ==> #[trigger] results@[j].source == orig[j].source && results@[j].score
                    < SCORE_SEMANTIC_BASE,
            forall|j: int|
                0 <= j < orig.len() && !names_path(neighbors@, i as int, #[trigger] orig[j].path@)
                    ==> results@[j] == orig[j],
            forall|j: int|
                orig.len() <= j < results@.len() ==> #[trigger] results@[j].source
                    == RankSource::Semantic && results@[j].score >= SCORE_SEMANTIC_BASE
                    && spec_under_dir(results@[j].path@, current_dir@) && names_path(
                    neighbors@,
                    i as int,
                    results@[j].path@,
                ),
        decreases k - i,
    {
        let ghost before = results@;
        let dist = neighbors[i].0;
        match find_result(&results, &neighbors[i].1) {
            Some(j) => {
                let entry_score = results[j].score;
                if entry_score < SCORE_SEMANTIC_BASE {
                    if dist < SCORE_UNIT {
                        let kept = results[j].path.clone();
                        let kept_source = results[j].source;
                        results.set(
                            j,
                            RankResult {
                                path: kept,
                                source: kept_source,
                                score: entry_score - SCORE_UNIT + dist,
                            },
                        );
                    }
                } else if entry_score > SCORE_SEMANTIC_BASE + dist {
                    let kept = results[j].path.clone();
                    results.set(
                        j,
                        RankResult {
                            path: kept,
                            source: RankSource::Semantic,
                            score: SCORE_SEMANTIC_BASE + dist,
                        },
                    );
                }
                proof {
                    lemma_lookup_at(before, neighbors@[i as int].1@, j as int);
                    assert(results@ =~= spec_apply_neighbor(
                        before,
                        neighbors@[i as int],
                        current_dir@,
                    ));
                    assert forall|a: int, b: int|
                        0 <= a < b < results@.len() implies results@[a].path@
                        != results@[b].path@ by {
                        assert(results@[a].path@ == before[a].path@);
                        assert(results@[b].path@ == before[b].path@);
                    }
                }
            },
            None => {
                proof {
                    lemma_lookup_covers(before, neighbors@[i as int].1@);
                    if lookup(before, neighbors@[i as int].1@) is Some {
                        assert(false);
                    }
                }
                if under_dir(&neighbors[i].1, current_dir) {
                    results.push(
                        RankResult {
                            path: neighbors[i].1.clone(),
                            source: RankSource::Semantic,
                            score: SCORE_SEMANTIC_BASE + dist,
                        },
                    );
                }
                proof {
                    assert(results@ =~= spec_apply_neighbor(
                        before,
                        neighbors@[i as int],
                        current_dir@,
                    ));
                }
            },
        }
        proof {
            assert forall|j: int|
                0 <= j < orig.len() && !names_path(
                    neighbors@,
                    i + 1,
                    #[trigger] orig[j].path@,
                ) implies results@[j] == orig[j] by {
                assert(!names_path(neighbors@, i as int, orig[j].path@));
                assert(neighbors@[i as int].1@ != orig[j].path@);
                assert(before[j].path@ == orig[j].path@);
            }
            assert forall|j2: int|
                orig.len() <= j2 < results@.len() implies #[trigger] results@[j2].source
                == RankSource::Semantic && results@[j2].score >= SCORE_SEMANTIC_BASE
                && spec_under_dir(results@[j2].path@, current_dir@) && names_path(
                neighbors@,
                i + 1,
                results@[j2].path@,
            ) by {
                if j2 < before.len() {
                    assert(results@[j2].path@ == before[j2].path@);
                    assert(before[j2].source == RankSource::Semantic);
                    assert(before[j2].score >= SCORE_SEMANTIC_BASE);
                    assert(names_path(neighbors@, i as int, before[j2].path@));
                    let t = choose|t: int|
                        0 <= t < i && #[trigger] neighbors@[t].1@ == before[j2].path@;
                    assert(neighbors@[t].1@ == results@[j2].path@);
                } else {
                    assert(neighbors@[i as int].1@ == results@[j2].path@);
                }
            }
        }
        i = i + 1;
    }
    results
}

/// The result order relates any two entries.
pub proof fn lemma_result_le_total(a: RankResult, b: RankResult)
    ensures
        result_le(a, b) || result_le(b, a),
{
    crate::text::lemma_lex_le_total(a.path@, b.path@);
}

/// The result order is transitive.
pub proof fn lemma_result_le_trans(a: RankResult, b: RankResult, c: RankResult)
    requires
        result_le(a, b),
        result_le(b, c),
    ensures
        result_le(a, c),
{
    if a.score == b.score && b.score == c.score {
        crate::text::lemma_lex_le_transitive(a.path@, b.path@, c.path@);
    }
}

/// Decides `result_le`.
fn le_result(a: &RankResult, b: &RankResult) -> (r: bool)
    ensures
        r == result_le(*a, *b),
{
    if a.score < b.score {
        true
    } else if a.score == b.score {
        crate::text::str_le(a.path.as_str(), b.path.as_str())
    } else {
        false
    }
}

/// Orders a result list by score, ties lexicographically by path, keeping
/// its contents.
fn sort_results(v: &mut Vec<RankResult>)
    ensures
        final(v)@.to_multiset() == old(v)@.to_multiset(),
        final(v)@.len() == old(v)@.len(),
        results_sorted(final(v)@),
{
    broadcast use vstd::seq_lib::group_to_multiset_ensures;

    let mut i: usize = 1;
    while i < v.len()
        invariant
            1 <= i || v@.len() == 0,
            i <= v@.len() || v@.len() == 0,
            v@.len() == old(v)@.len(),
            v@.to_multiset() == old(v)@.to_multiset(),
            forall|a: int, b: int| 0 <= a < b < i && b < v@.len() ==> result_le(v@[a], v@[b]),
        decreases v@.len() - i,
    {
        let x = RankResult { path: v[i].path.clone(), source: v[i].source, score: v[i].score };
        proof {
            assert(x == v@[i as int]);
        }
        let mut k: usize = 0;
        while k < i && le_result(&v[k], &x)
            invariant
                k <= i,
                i < v@.len(),
                x == v@[i as int],
                forall|a: int| 0 <= a < k ==> result_le(v@[a], x),
            decreases i - k,
        {
            k = k + 1;
        }
        let ghost before = v@;
        v.remove(i);
        v.insert(k, x);
        proof {
            broadcast use vstd::multiset::group_multiset_axioms;

            before.to_multiset_ensures();
            before.remove_ensures(i as int);
            before.remove(i as int).insert_ensures(k as int, x);
            assert(v@ =~= before.remove(i as int).insert(k as int, x));
            assert(before.contains(x));
            assert(before.to_multiset().count(x) > 0);
            assert(before.remove(i as int).to_multiset() =~= before.to_multiset().remove(x));
            vstd::seq_lib::to_multiset_insert::<RankResult>(before.remove(i as int), k as int, x);
            assert(v@.to_multiset() =~= before.to_multiset());
            assert forall|a: int, b: int|
                0 <= a < b < i + 1 && b < v@.len() implies result_le(v@[a], v@[b]) by {
                let rem = before.remove(i as int);
                if k < i {
                    assert(!result_le(before[k as int], x));
                    lemma_result_le_total(before[k as int], x);
                }
                if b < k {
                    assert(v@[a] == rem[a]);
                    assert(rem[a] == before[a]);
                    assert(v@[b] == rem[b]);
                    assert(rem[b] == before[b]);
                } else if b == k {
                    assert(v@[b] == x);
                    assert(v@[a] == rem[a]);
                    assert(rem[a] == before[a]);
                    assert(result_le(before[a], x));
                } else {
                    assert(v@[b] == rem[b - 1]);
                    assert(rem[b - 1] == before[b - 1]);
                    if a < k {
                        assert(v@[a] == rem[a]);
                        assert(rem[a] == before[a]);
                        if a < b - 1 {
                            assert(result_le(before[a], before[b - 1]));
                        } else {
                            assert(result_le(before[a], x));
                            assert(result_le(x, before[k as int]));
                            lemma_result_le_trans(before[a], x, before[b - 1]);
                        }
                    } else if a == k {
                        assert(v@[a] == x);
                        assert(result_le(x, before[k as int]));
                        if k < b - 1 {
                            assert(result_le(before[k as int], before[b - 1]));
                            lemma_result_le_trans(x, before[k as int], before[b - 1]);
                        }
                    } else {
                        assert(v@[a] == rem[a - 1]);
                        assert(rem[a - 1] == before[a - 1]);
                        assert(result_le(before[a - 1], before[b - 1]));
                    }
                }
            }
        }
        i = i + 1;
    }
}

/// A permutation of a duplicate-free result list is duplicate-free.
pub proof fn lemma_unique_paths_permutation(a: Seq<RankResult>, b: Seq<RankResult>)
    requires
        paths_unique(a),
        a.to_multiset() == b.to_multiset(),
    ensures
        paths_unique(b),
{
    broadcast use vstd::seq_lib::group_to_multiset_ensures;
    broadcast use vstd::multiset::group_multiset_axioms;

    assert forall|i: int, j: int| 0 <= i < j < b.len() implies b[i].path@ != b[j].path@ by {
        if b[i].path@ == b[j].path@ {
            if b[i] == b[j] {
                let removed = b.remove(i);
                b.to_multiset_ensures();
                removed.to_multiset_ensures();
                assert(removed.to_multiset() =~= b.to_multiset().remove(b[i]));
                assert(removed[j - 1] == b[j]);
                assert(removed.contains(b[j]));
                assert(removed.to_multiset().count(b[j]) > 0);
                assert(b.to_multiset().count(b[i]) >= 2);
                assert(a.to_multiset().count(b[i]) >= 2);
                a.to_multiset_ensures();
                assert(a.contains(b[i]));
                let m = choose|m: int| 0 <= m < a.len() && a[m] == b[i];
                let a_removed = a.remove(m);
                a_removed.to_multiset_ensures();
                assert(a_removed.to_multiset() =~= a.to_multiset().remove(a[m]));
                assert(a_removed.to_multiset().count(b[i]) > 0);
                assert(a_removed.contains(b[i]));
                let m2 = choose|m2: int| 0 <= m2 < a_removed.len() && a_removed[m2] == b[i];
                if m2 < m {
                    assert(a[m2] == a_removed[m2]);
                    assert(a[m2].path@ == a[m].path@);
                } else {
                    assert(a[m2 + 1] == a_removed[m2]);
                    assert(a[m2 + 1].path@ == a[m].path@);
                }
                assert(false);
            } else {
                b.to_multiset_ensures();
                a.to_multiset_ensures();
                assert(b.contains(b[i]));
                assert(b.contains(b[j]));
                assert(a.to_multiset().count(b[i]) > 0);
                assert(a.to_multiset().count(b[j]) > 0);
                assert(a.contains(b[i]));
                assert(a.contains(b[j]));
                let mi = choose|m: int| 0 <= m < a.len() && a[m] == b[i];
                let mj = choose|m: int| 0 <= m < a.len() && a[m] == b[j];
                assert(mi != mj);
                assert(a[mi].path@ == a[mj].path@);
                assert(false);
            }
        }
    }
}

/// Two duplicate-free result lists that are both ordered and hold the same
/// results are the same list: the order of a finished result list is
/// determined by what was merged, so repeating a query over an unchanged
/// filesystem and cache yields an identical ordered list.
pub proof fn lemma_sorted_unique_results(x: Seq<RankResult>, y: Seq<RankResult>)
    requires
        results_sorted(x),
        results_sorted(y),
        paths_unique(x),
        paths_unique(y),
        x.to_multiset() == y.to_multiset(),
    ensures
        x =~= y,
    decreases x.len(),
{
    broadcast use vstd::seq_lib::group_to_multiset_ensures;
    broadcast use vstd::multiset::group_multiset_axioms;

    x.to_multiset_ensures();
    y.to_multiset_ensures();
    if x.len() == 0 {
        assert(y.to_multiset().len() == 0);
    } else if y.len() == 0 {
        assert(x.to_multiset().len() == 0);
    } else {
        assert(y.contains(y[0]));
        assert(x.to_multiset().count(y[0]) > 0);
        assert(x.contains(y[0]));
        let i = choose|i: int| 0 <= i < x.len() && x[i] == y[0];
        assert(x.contains(x[0]));
        assert(y.to_multiset().count(x[0]) > 0);
        assert(y.contains(x[0]));
        let j = choose|j: int| 0 <= j < y.len() && y[j] == x[0];
        if i > 0 {
            assert(result_le(x[0], x[i]));
        }
        if j > 0 {
            assert(result_le(y[0], y[j]));
        }
        assert(result_le(x[0], y[0]) || x[0] == y[0]);
        assert(result_le(y[0], x[0]) || y[0] == x[0]);
        if x[0] != y[0] {
            assert(result_le(x[0], y[0]));
            assert(result_le(y[0], x[0]));
            crate::text::lemma_lex_le_antisymmetric(x[0].path@, y[0].path@);
            assert(x[0].path@ == y[0].path@);
            assert(x[i] == y[0]);
            assert(x[i].path@ == x[0].path@);
            assert(i == 0);
            assert(false);
        }
        let xd = x.drop_first();
        let yd = y.drop_first();
        xd.to_multiset_ensures();
        yd.to_multiset_ensures();
        assert(x.remove(0) =~= xd);
        assert(y.remove(0) =~= yd);
        assert(xd.to_multiset() =~= x.to_multiset().remove(x[0]));
        assert(yd.to_multiset() =~= y.to_multiset().remove(y[0]));
        assert(xd.to_multiset() == yd.to_multiset());
        assert forall|a: int, b: int| 0 <= a < b < xd.len() implies xd[a].path@ != xd[b].path@ by {
            assert(xd[a] == x[a + 1] && xd[b] == x[b + 1]);
        }
        assert forall|a: int, b: int| 0 <= a < b < yd.len() implies yd[a].path@ != yd[b].path@ by {
            assert(yd[a] == y[a + 1] && yd[b] == y[b + 1]);
        }
        assert forall|a: int, b: int| 0 <= a < b < xd.len() implies result_le(xd[a], xd[b]) by {
            assert(xd[a] == x[a + 1] && xd[b] == x[b + 1]);
        }
        assert forall|a: int, b: int| 0 <= a < b < yd.len() implies result_le(yd[a], yd[b]) by {
            assert(yd[a] == y[a + 1] && yd[b] == y[b + 1]);
        }
        lemma_sorted_unique_results(xd, yd);
        assert(x =~= seq![x[0]] + xd);
        assert(y =~= seq![y[0]] + yd);
    }
}

/// Equal positions of two finished lists over the same merged list hold
/// the same entry.
proof fn lemma_query_det_prefix(
    m: Seq<RankResult>,
    count: int,
    r1: Seq<RankResult>,
    r2: Seq<RankResult>,
    i: int,
)
    requires
        paths_unique(m),
        spec_query_post(m, count, r1),
        spec_query_post(m, count, r2),
        0 <= i <= r1.len(),
        r1.len() == r2.len(),
    ensures
        forall|j: int| 0 <= j < i ==> r1[j] == r2[j],
    decreases i,
{
    broadcast use vstd::seq_lib::group_to_multiset_ensures;

    if i > 0 {
        lemma_query_det_prefix(m, count, r1, r2, i - 1);
        let e1 = r1[i - 1];
        let e2 = r2[i - 1];
        if e1 != e2 {
            m.to_multiset_ensures();
            r1.to_multiset_ensures();
            r2.to_multiset_ensures();
            assert(m.to_multiset().contains(e1));
            assert(m.contains(e1));
            assert(m.to_multiset().contains(e2));
            assert(m.contains(e2));
            if r2.contains(e1) {
                let j = choose|j: int| 0 <= j < r2.len() && r2[j] == e1;
                if j < i - 1 {
                    assert(r1[j] == r2[j]);
                    assert(r1[j].path@ == r1[i - 1].path@);
                    assert(false);
                }
                assert(j > i - 1);
                assert(result_le(r2[i - 1], r2[j]));
            } else {
                assert(result_le(r2[i - 1], e1));
            }
            if r1.contains(e2) {
                let j = choose|j: int| 0 <= j < r1.len() && r1[j] == e2;
                if j < i - 1 {
                    assert(r2[j] == r1[j]);
                    assert(r2[j].path@ == r2[i - 1].path@);
                    assert(false);
                }
                assert(j > i - 1);
                assert(result_le(r1[i - 1], r1[j]));
            } else {
                assert(result_le(r1[i - 1], e2));
            }
            assert(result_le(e1, e2) && result_le(e2, e1));
            assert(e1.score == e2.score);
            crate::text::lemma_lex_le_antisymmetric(e1.path@, e2.path@);
            assert(e1.path@ == e2.path@);
            let t1 = choose|t: int| 0 <= t < m.len() && m[t] == e1;
            let t2 = choose|t: int| 0 <= t < m.len() && m[t] == e2;
            assert(t1 == t2);
            assert(false);
        }
    }
}

/// The final cut is a function of what the query merged: two result
/// lists that both finish the same merged list are the same list, entry
/// for entry. Repeating a query over an unchanged filesystem and cache
/// therefore yields an identical ordered result.
pub proof fn lemma_query_deterministic(
    m: Seq<RankResult>,
    count: int,
    r1: Seq<RankResult>,
    r2: Seq<RankResult>,
)
    requires
        paths_unique(m),
        spec_query_post(m, count, r1),
        spec_query_post(m, count, r2),
    ensures
        r1 =~= r2,
{
    if count >= m.len() {
        assert(r1.to_multiset() == r2.to_multiset());
        lemma_sorted_unique_results(r1, r2);
    } else {
        lemma_query_det_prefix(m, count, r1, r2, r1.len() as int);
        assert(r1.len() == r2.len());
        assert forall|j: int| 0 <= j < r1.len() implies r1[j] == r2[j] by {}
        assert(r1 =~= r2);
    }
}

/// The last merge step: the surviving results ordered by score (ties by
/// path) and cut down to the wanted count. What is cut away is never
/// better than what stays.
pub fn finalize(results: Vec<RankResult>, count: usize) -> (r: Vec<RankResult>)
    requires
        paths_unique(results@),
    ensures
        results_sorted(r@),
        paths_unique(r@),
        r@.len() == if count <= results@.len() {
            count as int
        } else {
            results@.len() as int
        },
        count >= results@.len() ==> r@.to_multiset() == results@.to_multiset(),
        forall|i: int| 0 <= i < r@.len() ==> results@.to_multiset().contains(#[trigger] r@[i]),
        forall|e: RankResult, i: int|
            #[trigger] results@.contains(e) && !r@.contains(e) && 0 <= i < r@.len() ==> result_le(
                #[trigger] r@[i],
                e,
            ),
{
    broadcast use vstd::seq_lib::group_to_multiset_ensures;

    let mut v = results;
    let ghost orig = v@;
    sort_results(&mut v);
    let ghost sorted = v@;
    proof {
        lemma_unique_paths_permutation(orig, sorted);
        sorted.to_multiset_ensures();
        orig.to_multiset_ensures();
    }
    if v.len() > count {
        v.truncate(count);
    }
    proof {
        assert(v@ =~= sorted.take(v@.len() as int));
        assert forall|i: int| 0 <= i < v@.len() implies orig.to_multiset().contains(
            #[trigger] v@[i],
        ) by {
            assert(v@[i] == sorted[i]);
            assert(sorted.contains(sorted[i]));
            assert(sorted.to_multiset().count(sorted[i]) > 0);
        }
        assert forall|a: int, b: int| 0 <= a < b < v@.len() implies v@[a].path@ != v@[b].path@ by {
            assert(v@[a] == sorted[a] && v@[b] == sorted[b]);
        }
        assert forall|e: RankResult, i: int|
            #[trigger] orig.contains(e) && !v@.contains(e) && 0 <= i < v@.len() implies result_le(
            #[trigger] v@[i],
            e,
        ) by {
            assert(orig.to_multiset().count(e) > 0);
            assert(sorted.contains(e));
            let m = choose|m: int| 0 <= m < sorted.len() && sorted[m] == e;
            if m < v@.len() {
                assert(v@[m] == e);
                assert(v@.contains(e));
                assert(false);
            }
            assert(v@[i] == sorted[i]);
            assert(result_le(sorted[i], sorted[m]));
        }
        if count >= orig.len() {
            assert(v@ =~= sorted);
        }
    }
    v
}

/// The input without its leading blanks.
pub open spec fn spec_drop_leading(s: Seq<char>) -> Seq<char>
    decreases s.len(),
{
    if s.len() > 0 && is_space(s[0]) {
        spec_drop_leading(s.drop_first())
    } else {
        s
    }
}

/// The input without its trailing blanks.
pub open spec fn spec_drop_trailing(s: Seq<char>) -> Seq<char>
    decreases s.len(),
{
    if s.len() > 0 && is_space(s[s.len() - 1]) {
        spec_drop_trailing(s.drop_last())
    } else {
        s
    }
}

/// A query input, trimmed; an input of nothing but blanks means the
/// current directory.
pub open spec fn spec_normalize(s: Seq<char>) -> Seq<char> {
    let t = spec_drop_trailing(spec_drop_leading(s));
    if t.len() == 0 {
        "."@
    } else {
        t
    }
}

/// Trims the raw input; an empty or all-blank input becomes `"."`.
pub fn normalize_input(input: &str) -> (r: String)
    ensures
        r@ == spec_normalize(input@),
{
    let len = input.unicode_len();
    assert(input@.skip(0) =~= input@);
    let mut a: usize = 0;
    while a < len && char_is_space(input.get_char(a))
        invariant
            a <= len,
            len == input@.len(),
            spec_drop_leading(input@) == spec_drop_leading(input@.skip(a as int)),
        decreases len - a,
    {
        proof {
            assert(input@.skip(a as int)[0] == input@[a as int]);
            assert(input@.skip(a as int).drop_first() =~= input@.skip(a as int + 1));
        }
        a = a + 1;
    }
    proof {
        if a < len {
            assert(input@.skip(a as int)[0] == input@[a as int]);
        }
        assert(spec_drop_leading(input@) == input@.skip(a as int));
    }
    let mut b: usize = len;
    while b > a && char_is_space(input.get_char(b - 1))
        invariant
            a <= b <= len,
            len == input@.len(),
            spec_drop_leading(input@) == input@.skip(a as int),
            spec_drop_trailing(input@.skip(a as int)) == spec_drop_trailing(
                input@.subrange(a as int, b as int),
            ),
        decreases b,
    {
        proof {
            let cur = input@.subrange(a as int, b as int);
            assert(cur[cur.len() - 1] == input@[b - 1]);
            assert(cur.drop_last() =~= input@.subrange(a as int, b as int - 1));
        }
        b = b - 1;
    }
    proof {
        let cur = input@.subrange(a as int, b as int);
        if b > a {
            assert(cur[cur.len() - 1] == input@[b - 1]);
        }
        assert(spec_drop_trailing(input@.subrange(a as int, b as int)) == input@.subrange(
            a as int,
            b as int,
        ));
    }
    if b == a {
        String::from_str(".")
    } else {
        String::from_str(input.substring_char(a, b))
    }
}

/// How many of the offered neighbours a query may use: what is left of
/// the wanted count after the structural matches, and never more than are
/// offered.
pub open spec fn spec_neighbor_budget(base_len: int, count: int, offered: int) -> int {
    let budget = if base_len <= count {
        count - base_len
    } else {
        0
    };
    if budget <= offered {
        budget
    } else {
        offered
    }
}

/// Everything one query merges before the final order and cut: the
/// structural stage, extended — on every query but the session's first —
/// by the fold of the usable neighbours.
pub open spec fn spec_query_merged(
    last_input: Seq<char>,
    input: String,
    obs: QueryObs,
    neighbors: Seq<(i64, String)>,
    count: int,
    dir: Seq<char>,
) -> Seq<RankResult> {
    let base = spec_structural(input, obs);
    if last_input.len() == 0 {
        base
    } else {
        spec_merge_semantic(
            base,
            neighbors,
            spec_neighbor_budget(base.len() as int, count, neighbors.len() as int),
            dir,
        )
    }
}

/// How a finished result list relates to what the query merged: ordered,
/// duplicate-free, cut to the wanted count, holding merged results only,
/// and never cutting one that outranks a kept one.
pub open spec fn spec_query_post(m: Seq<RankResult>, count: int, r: Seq<RankResult>) -> bool {
    &&& results_sorted(r)
    &&& paths_unique(r)
    &&& r.len() == (if count <= m.len() {
        count
    } else {
        m.len() as int
    })
    &&& forall|j: int| 0 <= j < r.len() ==> m.to_multiset().contains(#[trigger] r[j])
    &&& (count >= m.len() ==> r.to_multiset() == m.to_multiset())
    &&& forall|e: RankResult, i: int|
        #[trigger] m.contains(e) && !r.contains(e) && 0 <= i < r.len() ==> result_le(
            #[trigger] r[i],
            e,
        )
}

/// The list holds `p` at a score no worse than `bound`.
pub open spec fn holds_within(r: Seq<RankResult>, p: Seq<char>, bound: i64) -> bool {
    exists|j: int| 0 <= j < r.len() && #[trigger] r[j].path@ == p && r[j].score <= bound
}

/// Every kept score is within `bound`.
pub open spec fn all_within(r: Seq<RankResult>, bound: i64) -> bool {
    forall|j: int| 0 <= j < r.len() ==> #[trigger] r[j].score <= bound
}

/// The ranking engine: the background embedder core and the previous
/// input, which decides the first-query latency guard and whether pending
/// tasks are replaced or extended.
pub struct Ranker {
    pub embedder: Embedder,
    pub last_input: String,
}

impl Ranker {
    pub fn new() -> (r: Ranker)
        ensures
            r.embedder.wf(),
            r.embedder.cache.db.rows@.len() == 0,
            r.embedder.tasks.items@.len() == 0,
            r.last_input@.len() == 0,
    {
        Ranker { embedder: Embedder::new(), last_input: String::new() }
    }

    /// Whether the coming query repeats the previous input. Fresh tasks are
    /// appended behind the pending ones for a repeat, and replace them for
    /// a changed input.
    pub fn same_input(&self, input: &String) -> (r: bool)
        ensures
            r == (self.last_input@ == input@),
    {
        self.last_input.eq(input)
    }

    /// How many semantic neighbours the query may still use, or `None` on
    /// the very first query of a session: nothing is embedded yet, and the
    /// lookup would only cost first-keystroke latency.
    pub fn semantic_count(&self, count: usize, found: usize) -> (r: Option<usize>)
        ensures
            (self.last_input@.len() == 0) <==> (r is None),
            r is Some ==> r->Some_0 == (if found <= count {
                (count - found) as int
            } else {
                0
            }),
    {
        if self.last_input.as_str().is_empty() {
            None
        } else if found <= count {
            Some(count - found)
        } else {
            Some(0)
        }
    }

    /// One full query: the structural stages, then (except on the very
    /// first query) the semantic stage over the usable neighbours, then
    /// the final order and cut. The result finishes exactly what
    /// `spec_query_merged` describes; the structural guarantees are
    /// carried through, weakened only where a full list kept nothing
    /// worse. The previous input is replaced by this one.
    pub fn get_results(
        &mut self,
        input: &String,
        count: usize,
        obs: &QueryObs,
        neighbors: &Vec<(i64, String)>,
        current_dir: &String,
    ) -> (r: Vec<RankResult>)
        requires
            forall|i: int|
                0 <= i < neighbors@.len() ==> 0 <= #[trigger] neighbors@[i].0 <= SCORE_LIMIT,
            neighbors@.len() <= 0x1_0000_0000,
        ensures
            spec_query_post(
                spec_query_merged(
                    old(self).last_input@,
                    *input,
                    *obs,
                    neighbors@,
                    count as int,
                    current_dir@,
                ),
                count as int,
                r@,
            ),
            results_sorted(r@),
            paths_unique(r@),
            r@.len() <= count,
            final(self).last_input@ == input@,
            final(self).embedder == old(self).embedder,
            obs.exists ==> forall|j: int|
                0 <= j < r@.len() && (#[trigger] r@[j]).path@ == obs.canonical@ ==> r@[j].source
                    == RankSource::ExactPath && r@[j].score <= SCORE_EXACT,
            obs.exists && count >= 1 ==> holds_within(r@, obs.canonical@, SCORE_EXACT) || (
            r@.len() == count && all_within(r@, SCORE_EXACT)),
            obs.exists && obs.is_dir ==> forall|c: int|
                0 <= c < obs.children@.len() ==> holds_within(
                    r@,
                    #[trigger] obs.children@[c]@,
                    SCORE_IN_DIR,
                ) || (r@.len() == count && all_within(r@, SCORE_IN_DIR)),
            obs.exists && !obs.is_dir ==> forall|c: int|
                0 <= c < obs.siblings@.len() && spec_starts_with(
                    (#[trigger] obs.siblings@[c]).0@,
                    spec_file_name(input@),
                ) ==> holds_within(r@, obs.siblings@[c].1@, SCORE_START_LIKE) || (r@.len() == count
                    && all_within(r@, SCORE_START_LIKE)),
            forall|j: int|
                0 <= j < r@.len() ==> obs_member(*obs, (#[trigger] r@[j]).path@) || (r@[j].source
                    == RankSource::Semantic && r@[j].score >= SCORE_SEMANTIC_BASE
                    && spec_under_dir(r@[j].path@, current_dir@) && names_path(
                    neighbors@,
                    spec_neighbor_budget(
                        spec_structural(*input, *obs).len() as int,
                        count as int,
                        neighbors@.len() as int,
                    ),
                    r@[j].path@,
                )),
            old(self).last_input@.len() == 0 ==> forall|j: int|
                0 <= j < r@.len() ==> #[trigger] r@[j].source != RankSource::Semantic && (
                r@[j].score == SCORE_EXACT || r@[j].score == SCORE_START_LIKE || r@[j].score
                    == SCORE_IN_DIR),
            old(self).last_input@.len() == 0 && obs.exists && count >= 1 ==> r@.len() >= 1
                && r@[0].path@ == obs.canonical@ && r@[0].score == SCORE_EXACT && r@[0].source
                == RankSource::ExactPath,
            old(self).last_input@.len() == 0 && !obs.exists ==> r@.len() == 0,
    {
        let s = structural(input, obs);
        let ghost sv = s@;
        let first = self.last_input.as_str().is_empty();
        let merged = if first {
            s
        } else {
            let found = s.len();
            let k = if found <= count {
                count - found
            } else {
                0
            };
            merge_semantic(s, neighbors, k, current_dir)
        };
        let ghost mg = merged@;
        let ghost budget = spec_neighbor_budget(
            sv.len() as int,
            count as int,
            neighbors@.len() as int,
        );
        proof {
            assert(mg == spec_query_merged(
                old(self).last_input@,
                *input,
                *obs,
                neighbors@,
                count as int,
                current_dir@,
            ));
        }
        let out = finalize(merged, count);
        proof {
            broadcast use vstd::seq_lib::group_to_multiset_ensures;

            mg.to_multiset_ensures();
            out@.to_multiset_ensures();
            assert(spec_query_post(mg, count as int, out@));
            // Whenever the canonical path is kept, it reads as the exact
            // match, only ever improved.
            if obs.exists {
                assert forall|j: int|
                    0 <= j < out@.len() && (#[trigger] out@[j]).path@
                        == obs.canonical@ implies out@[j].source == RankSource::ExactPath
                    && out@[j].score <= SCORE_EXACT by {
                    assert(mg.to_multiset().contains(out@[j]));
                    assert(mg.contains(out@[j]));
                    let t = choose|t: int| 0 <= t < mg.len() && mg[t] == out@[j];
                    assert(mg[t].path@ == obs.canonical@);
                    if t != 0 {
                        assert(mg[0].path@ == sv[0].path@);
                        assert(mg[t].path@ != mg[0].path@);
                        assert(false);
                    }
                    assert(sv[0].score == SCORE_EXACT && sv[0].source == RankSource::ExactPath);
                }
                if count >= 1 {
                    assert(mg[0].path@ == obs.canonical@ && mg[0].score <= SCORE_EXACT);
                    lemma_entry_carried(mg, count as int, out@, 0, SCORE_EXACT);
                }
                if obs.is_dir {
                    assert forall|c: int| 0 <= c < obs.children@.len() implies holds_within(
                        out@,
                        #[trigger] obs.children@[c]@,
                        SCORE_IN_DIR,
                    ) || (out@.len() == count && all_within(out@, SCORE_IN_DIR)) by {
                        lemma_lookup_covers(sv, obs.children@[c]@);
                        let t = choose|t: int|
                            0 <= t < sv.len() && sv[t] == lookup(sv, obs.children@[c]@)->Some_0
                                && #[trigger] sv[t].path@ == obs.children@[c]@;
                        assert(mg[t].path@ == obs.children@[c]@);
                        assert(mg[t].score <= sv[t].score <= SCORE_IN_DIR);
                        lemma_entry_carried(mg, count as int, out@, t, SCORE_IN_DIR);
                    }
                } else {
                    assert forall|c: int|
                        0 <= c < obs.siblings@.len() && spec_starts_with(
                            (#[trigger] obs.siblings@[c]).0@,
                            spec_file_name(input@),
                        ) implies holds_within(out@, obs.siblings@[c].1@, SCORE_START_LIKE) || (
                    out@.len() == count && all_within(out@, SCORE_START_LIKE)) by {
                        lemma_lookup_covers(sv, obs.siblings@[c].1@);
                        let t = choose|t: int|
                            0 <= t < sv.len() && sv[t] == lookup(sv, obs.siblings@[c].1@)->Some_0
                                && #[trigger] sv[t].path@ == obs.siblings@[c].1@;
                        assert(mg[t].path@ == obs.siblings@[c].1@);
                        assert(mg[t].score <= sv[t].score <= SCORE_START_LIKE);
                        lemma_entry_carried(mg, count as int, out@, t, SCORE_START_LIKE);
                    }
                }
            }
            // Every kept entry stems from the structural stage or a used
            // neighbour.
            assert forall|j: int| 0 <= j < out@.len() implies obs_member(
                *obs,
                (#[trigger] out@[j]).path@,
            ) || (out@[j].source == RankSource::Semantic && out@[j].score >= SCORE_SEMANTIC_BASE
                && spec_under_dir(out@[j].path@, current_dir@) && names_path(
                neighbors@,
                budget,
                out@[j].path@,
            )) by {
                assert(mg.to_multiset().contains(out@[j]));
                assert(mg.contains(out@[j]));
                let t = choose|t: int| 0 <= t < mg.len() && mg[t] == out@[j];
                if t < sv.len() {
                    assert(mg[t].path@ == sv[t].path@);
                    assert(obs_member(*obs, sv[t].path@));
                }
            }
            if first {
                assert forall|j: int| 0 <= j < out@.len() implies #[trigger] out@[j].source
                    != RankSource::Semantic && (out@[j].score == SCORE_EXACT || out@[j].score
                    == SCORE_START_LIKE || out@[j].score == SCORE_IN_DIR) by {
                    assert(mg.to_multiset().contains(out@[j]));
                    assert(mg.contains(out@[j]));
                    let t = choose|t: int| 0 <= t < mg.len() && mg[t] == out@[j];
                }
                if obs.exists && count >= 1 {
                    let e = mg[0];
                    assert(e.path@ == obs.canonical@ && e.score == SCORE_EXACT && e.source
                        == RankSource::ExactPath);
                    assert(mg.contains(e));
                    if !out@.contains(e) {
                        assert(result_le(out@[0], e));
                        assert(mg.to_multiset().contains(out@[0]));
                        assert(mg.contains(out@[0]));
                        let m = choose|m: int| 0 <= m < mg.len() && mg[m] == out@[0];
                        assert(mg[m].score >= SCORE_EXACT);
                        if mg[m].score == SCORE_EXACT {
                            assert(mg[m].path@ == obs.canonical@);
                            assert(m == 0);
                            assert(out@.contains(e));
                        } else {
                            assert(!result_le(out@[0], e));
                        }
                        assert(false);
                    }
                    let m = choose|m: int| 0 <= m < out@.len() && out@[m] == e;
                    if m > 0 {
                        assert(result_le(out@[0], out@[m]));
                        assert(mg.to_multiset().contains(out@[0]));
                        assert(mg.contains(out@[0]));
                        let m2 = choose|m2: int| 0 <= m2 < mg.len() && mg[m2] == out@[0];
                        assert(mg[m2].score >= SCORE_EXACT);
                        assert(out@[0].score == SCORE_EXACT);
                        assert(mg[m2].path@ == obs.canonical@);
                        assert(m2 == 0);
                        assert(out@[0] == e);
                    }
                }
            }
        }
        self.last_input = input.clone();
        out
    }
}

/// What the final cut leaves of one merged entry: the entry's path stays,
/// at a score within its merged bound — or the list is full and holds
/// nothing worse than that bound.
proof fn lemma_entry_carried(
    m: Seq<RankResult>,
    count: int,
    r: Seq<RankResult>,
    t: int,
    bound: i64,
)
    requires
        spec_query_post(m, count, r),
        0 <= t < m.len(),
        m[t].score <= bound,
    ensures
        holds_within(r, m[t].path@, bound) || (r.len() == count && all_within(r, bound)),
{
    broadcast use vstd::seq_lib::group_to_multiset_ensures;

    m.to_multiset_ensures();
    r.to_multiset_ensures();
    let e = m[t];
    assert(m.contains(e));
    if r.contains(e) {
        let j = choose|j: int| 0 <= j < r.len() && r[j] == e;
        assert(r[j].path@ == e.path@ && r[j].score <= bound);
    } else {
        assert forall|i: int| 0 <= i < r.len() implies (#[trigger] r[i]).score <= bound by {
            assert(result_le(r[i], e));
        }
        if count >= m.len() {
            assert(r.to_multiset() == m.to_multiset());
            assert(r.to_multiset().contains(e));
            assert(r.contains(e));
            assert(false);
        }
        assert(r.len() == count);
    }
}

/// The bounded, cap-aware walk that turns a query's results into background
/// embedding tasks. The walk itself is driven from outside (it needs the
/// filesystem); this structure owns the worklist, the produced tasks, and
/// every policy decision.
pub struct Walker {
    pub stack: Vec<(String, i64)>,
    pub tasks: Vec<Task>,
}

impl Walker {
    pub open spec fn wf(&self) -> bool {
        &&& self.tasks@.len() <= MAX_TASKS
        &&& forall|i: int|
            0 <= i < self.stack@.len() ==> #[trigger] self.stack@[i].1 <= i64::MAX - SCORE_IN_DIR
    }

    /// Seeds one frame per result, at the result's own score.
    pub fn new(results: &Vec<RankResult>) -> (r: Walker)
        requires
            forall|i: int|
                0 <= i < results@.len() ==> #[trigger] results@[i].score <= i64::MAX
                    - SCORE_IN_DIR,
        ensures
            r.wf(),
            r.tasks@.len() == 0,
            r.stack@.len() == results@.len(),
            forall|i: int|
                0 <= i < results@.len() ==> (#[trigger] r.stack@[i]).0@ == results@[i].path@
                    && r.stack@[i].1 == results@[i].score,
    {
        let mut stack: Vec<(String, i64)> = Vec::new();
        let mut i: usize = 0;
        while i < results.len()
            invariant
                i <= results@.len(),
                stack@.len() == i,
                forall|j: int|
                    0 <= j < results@.len() ==> #[trigger] results@[j].score <= i64::MAX
                        - SCORE_IN_DIR,
                forall|j: int|
                    0 <= j < i ==> (#[trigger] stack@[j]).0@ == results@[j].path@ && stack@[j].1
                        == results@[j].score,
            decreases results@.len() - i,
        {
            stack.push((results[i].path.clone(), results[i].score));
            i = i + 1;
        }
        proof {
            assert forall|j: int| 0 <= j < stack@.len() implies (#[trigger] stack@[j]).1
                <= i64::MAX - SCORE_IN_DIR by {
                assert(stack@[j].1 == results@[j].score);
            }
        }
        Walker { stack, tasks: Vec::new() }
    }

    /// The next pending frame, deepest first; `None` when the walk is done.
    pub fn next(&mut self) -> (r: Option<(String, i64)>)
        requires
            old(self).wf(),
        ensures
            final(self).wf(),
            final(self).tasks == old(self).tasks,
            match r {
                Some(f) => old(self).stack@.len() > 0 && f == old(self).stack@.last()
                    && final(self).stack@ == old(self).stack@.drop_last() && f.1 <= i64::MAX
                    - SCORE_IN_DIR,
                None => old(self).stack@.len() == 0 && final(self).stack@ == old(self).stack@,
            },
    {
        proof {
            if self.stack@.len() > 0 {
                assert(self.stack@[self.stack@.len() - 1] == self.stack@.last());
            }
        }
        self.stack.pop()
    }

    /// Applies the task policy to one visited path. A name-level task is
    /// due below the name score limit; a file close enough also gets a
    /// paragraphs-level task whose group count grows as the score shrinks;
    /// a directory's children join the worklist one score unit further
    /// out. Nothing is recorded once the task cap is reached, and a
    /// subtree whose children would already be past the name score limit
    /// can produce no task at any depth, so it is not entered.
    pub fn visit(&mut self, path: &String, score: i64, is_dir: bool, children: &Vec<String>)
        requires
            old(self).wf(),
            score <= i64::MAX - SCORE_IN_DIR,
        ensures
            final(self).wf(),
            ({
                let with_name: Seq<Task> = if score < TASK_NAME_SCORE_LIMIT {
                    old(self).tasks@.push(
                        (Task {
                            item: (CacheItem { path: *path, state: EmbeddingState::Name }),
                            priority: score,
                        }),
                    )
                } else {
                    old(self).tasks@
                };
                if old(self).tasks@.len() >= MAX_TASKS {
                    final(self).tasks@ == old(self).tasks@ && final(self).stack@ == old(
                        self,
                    ).stack@
                } else if is_dir {
                    &&& final(self).tasks@ == with_name
                    &&& (score + SCORE_UNIT < TASK_NAME_SCORE_LIMIT ==> final(self).stack@.len()
                        == old(self).stack@.len() + children@.len() && (forall|i: int|
                        0 <= i < old(self).stack@.len() ==> #[trigger] final(self).stack@[i]
                            == old(self).stack@[i]) && (forall|i: int|
                        0 <= i < children@.len() ==> (#[trigger] final(self).stack@[old(
                            self,
                        ).stack@.len() + i]).0@ == children@[i]@ && final(self).stack@[old(
                            self,
                        ).stack@.len() + i].1 == score + SCORE_UNIT))
                    &&& (score + SCORE_UNIT >= TASK_NAME_SCORE_LIMIT ==> final(self).stack@ == old(
                        self,
                    ).stack@)
                } else {
                    &&& final(self).stack@ == old(self).stack@
                    &&& if SCORE_EXACT < score && score < TASK_PARAGRAPHS_SCORE_LIMIT
                        && with_name.len() < MAX_TASKS {
                        final(self).tasks@ == with_name.push(
                            (Task {
                                item: (CacheItem {
                                    path: *path,
                                    state: EmbeddingState::Paragraphs(
                                        ((2 * 10 * SCORE_UNIT + score) / (2 * score)) as usize,
                                    ),
                                }),
                                priority: (score + 2 * SCORE_UNIT) as i64,
                            }),
                        )
                    } else {
                        final(self).tasks@ == with_name
                    }
                }
            }),
    {
        if self.tasks.len() >= MAX_TASKS {
            return ;
        }
        if score < TASK_NAME_SCORE_LIMIT {
            self.tasks.push(
                Task {
                    item: CacheItem { path: path.clone(), state: EmbeddingState::Name },
                    priority: score,
                },
            );
        }
        if is_dir {
            if score + SCORE_UNIT < TASK_NAME_SCORE_LIMIT {
                let ghost base = self.stack@;
                let ghost tasks_now = self.tasks@;
                let mut i: usize = 0;
                while i < children.len()
                    invariant
                        i <= children@.len(),
                        score + SCORE_UNIT < TASK_NAME_SCORE_LIMIT,
                        self.tasks@ == tasks_now,
                        tasks_now.len() <= MAX_TASKS,
                        self.stack@.len() == base.len() + i,
                        forall|j: int|
                            0 <= j < base.len() ==> #[trigger] self.stack@[j] == base[j],
                        forall|j: int|
                            0 <= j < i ==> (#[trigger] self.stack@[base.len() + j]).0@
                                == children@[j]@ && self.stack@[base.len() + j].1 == score
                                + SCORE_UNIT,
                        forall|j: int|
                            0 <= j < self.stack@.len() ==> #[trigger] self.stack@[j].1 <= i64::MAX
                                - SCORE_IN_DIR,
                    decreases children@.len() - i,
                {
                    self.stack.push((children[i].clone(), score + SCORE_UNIT));
                    i = i + 1;
                }
            }
        } else {
            if SCORE_EXACT < score && score < TASK_PARAGRAPHS_SCORE_LIMIT && self.tasks.len()
                < MAX_TASKS {
                let nb = (2 * 10 * SCORE_UNIT + score) / (2 * score);
                self.tasks.push(
                    Task {
                        item: CacheItem {
                            path: path.clone(),
                            state: EmbeddingState::Paragraphs(nb as usize),
                        },
                        priority: score + 2 * SCORE_UNIT,
                    },
                );
            }
        }
    }

    /// Hands the recorded tasks over.
    pub fn into_tasks(self) -> (r: Vec<Task>)
        ensures
            r@ == self.tasks@,
    {
        self.tasks
    }
}

} // verus!
