//! Richness levels of the semantic index and the cache item descriptor.
//!
//! A path is embedded at one of three levels: not at all, from its name, or
//! from its content split into a number of paragraph groups. The levels are
//! totally ordered; an entry already embedded at some level satisfies any
//! request at a lower or equal level.
pub mod db;

use vstd::prelude::*;

verus! {

/// How much textual detail about a path has been embedded so far.
///
/// `Paragraphs(n)` asks for the content split into at most `n` paragraph
/// groups; a larger `n` means finer detail, so the order on levels is
/// `Unembedded < Name < Paragraphs(a) < Paragraphs(b)` whenever `a < b`.
#[derive(Clone, Copy, Debug, Hash, PartialEq, Eq, Structural)]
pub enum EmbeddingState {
    Unembedded,
    Name,
    Paragraphs(usize),
}

/// The numeric tier of a level; doubles as its storage encoding.
pub open spec fn spec_level(s: EmbeddingState) -> int {
    match s {
        EmbeddingState::Unembedded => 0,
        EmbeddingState::Name => 1,
        EmbeddingState::Paragraphs(n) => 2 + n,
    }
}

/// The total order on richness levels.
pub open spec fn state_le(a: EmbeddingState, b: EmbeddingState) -> bool {
    spec_level(a) <= spec_level(b)
}

/// The decoded form of a storage code: the inverse of `spec_level`.
pub open spec fn spec_state_of_code(code: int) -> EmbeddingState {
    if code == 0 {
        EmbeddingState::Unembedded
    } else if code == 1 {
        EmbeddingState::Name
    } else {
        EmbeddingState::Paragraphs((code - 2) as usize)
    }
}

impl EmbeddingState {
    /// The integer form under which a level is persisted.
    pub fn to_code(&self) -> (r: usize)
        requires
            spec_level(*self) <= usize::MAX,
        ensures
            r == spec_level(*self),
    {
        match self {
            EmbeddingState::Unembedded => 0,
            EmbeddingState::Name => 1,
            EmbeddingState::Paragraphs(n) => 2 + *n,
        }
    }

    /// Reads a level back from its persisted integer form.
    pub fn from_code(code: usize) -> (r: EmbeddingState)
        ensures
            r == spec_state_of_code(code as int),
    {
        if code == 0 {
            EmbeddingState::Unembedded
        } else if code == 1 {
            EmbeddingState::Name
        } else {
            EmbeddingState::Paragraphs(code - 2)
        }
    }

    /// Whether this level satisfies a request for `other`.
    pub fn at_least(&self, other: &EmbeddingState) -> (r: bool)
        ensures
            r == state_le(*other, *self),
    {
        match (other, self) {
            (EmbeddingState::Unembedded, _) => true,
            (_, EmbeddingState::Unembedded) => false,
            (EmbeddingState::Name, _) => true,
            (_, EmbeddingState::Name) => false,
            (EmbeddingState::Paragraphs(a), EmbeddingState::Paragraphs(b)) => a <= b,
        }
    }
}

impl PartialOrd for EmbeddingState {
    fn partial_cmp(&self, other: &Self) -> (r: Option<core::cmp::Ordering>) {
        match (self, other) {
            (EmbeddingState::Unembedded, EmbeddingState::Unembedded) => Some(
                core::cmp::Ordering::Equal,
            ),
            (EmbeddingState::Unembedded, _) => Some(core::cmp::Ordering::Less),
            (_, EmbeddingState::Unembedded) => Some(core::cmp::Ordering::Greater),
            (EmbeddingState::Name, EmbeddingState::Name) => Some(core::cmp::Ordering::Equal),
            (EmbeddingState::Name, _) => Some(core::cmp::Ordering::Less),
            (_, EmbeddingState::Name) => Some(core::cmp::Ordering::Greater),
            (EmbeddingState::Paragraphs(a), EmbeddingState::Paragraphs(b)) => {
                if a < b {
                    Some(core::cmp::Ordering::Less)
                } else if a == b {
                    Some(core::cmp::Ordering::Equal)
                } else {
                    Some(core::cmp::Ordering::Greater)
                }
            },
        }
    }
}

impl vstd::std_specs::cmp::PartialOrdSpecImpl for EmbeddingState {
    open spec fn obeys_partial_cmp_spec() -> bool {
        true
    }

    open spec fn partial_cmp_spec(&self, other: &Self) -> Option<core::cmp::Ordering> {
        if spec_level(*self) < spec_level(*other) {
            Some(core::cmp::Ordering::Less)
        } else if spec_level(*self) == spec_level(*other) {
            Some(core::cmp::Ordering::Equal)
        } else {
            Some(core::cmp::Ordering::Greater)
        }
    }
}

/// Encoding and decoding a level are inverse to each other.
pub proof fn lemma_state_code_round_trip(s: EmbeddingState)
    ensures
        spec_state_of_code(spec_level(s)) == s,
{
}

/// The order on levels is transitive.
pub proof fn lemma_state_le_trans(a: EmbeddingState, b: EmbeddingState, c: EmbeddingState)
    requires
        state_le(a, b),
        state_le(b, c),
    ensures
        state_le(a, c),
{
}

/// Once a path's recorded level reaches some level, the cache admits any
/// request for that path at an equal or lower level; a later task at such
/// a level is a no-op against the store, which the execute step's skip
/// guard enforces.
pub proof fn lemma_contains_monotonic(rows: Seq<db::Row>, item: CacheItem, req: CacheItem)
    requires
        item.path@ == req.path@,
        state_le(req.state, item.state),
        spec_contains(rows, item),
    ensures
        spec_contains(rows, req),
{
    let row = db::row_for_path(rows, item.path@)->Some_0;
    lemma_state_le_trans(req.state, item.state, row.state);
}

/// A (path, richness level) descriptor: a request or record that `path` is
/// embedded at `state`. It names an embedding, it does not hold one.
#[derive(Clone, Debug)]
pub struct CacheItem {
    pub path: String,
    pub state: EmbeddingState,
}

/// Order on (distance, id) pairs: by distance, ties by id.
pub open spec fn pair_le(a: (i64, i64), b: (i64, i64)) -> bool {
    a.0 < b.0 || (a.0 == b.0 && a.1 <= b.1)
}

/// The sequence is ordered under `pair_le`.
pub open spec fn pairs_sorted(s: Seq<(i64, i64)>) -> bool {
    forall|i: int, j: int| 0 <= i < j < s.len() ==> pair_le(s[i], s[j])
}

/// One entry of a finished nearest-neighbour answer: it carries the distance
/// of the i-th merged pair, and the path that the store holds for its id.
pub open spec fn nearest_entry_ok(
    rows: Seq<db::Row>,
    merged: Seq<(i64, i64)>,
    r: Seq<(i64, String)>,
    i: int,
) -> bool {
    &&& r[i].0 == merged[i].0
    &&& db::row_for_id(rows, merged[i].1) is Some
    &&& r[i].1@ == db::row_for_id(rows, merged[i].1)->Some_0.path@
}

/// The two tiers of a nearest-neighbour query, concatenated and ordered by
/// distance (ties by id).
pub open spec fn spec_merged(approx: Seq<(i64, i64)>, exact: Seq<(i64, i64)>) -> Seq<(i64, i64)> {
    (approx + exact).sort_by(|a: (i64, i64), b: (i64, i64)| pair_le(a, b))
}

/// `pair_le` orders all pairs.
pub proof fn lemma_pair_le_total_ordering()
    ensures
        vstd::relations::total_ordering(|a: (i64, i64), b: (i64, i64)| pair_le(a, b)),
{
    let leq = |a: (i64, i64), b: (i64, i64)| pair_le(a, b);
    assert forall|a: (i64, i64)| #[trigger] leq(a, a) by {
        assert(pair_le(a, a));
    }
    assert forall|a: (i64, i64), b: (i64, i64)| #[trigger] leq(a, b) && #[trigger] leq(b, a)
        implies a == b by {
        assert(pair_le(a, b) && pair_le(b, a));
    }
    assert forall|a: (i64, i64), b: (i64, i64), c: (i64, i64)|
        #[trigger] leq(a, b) && #[trigger] leq(b, c) implies leq(a, c) by {
        assert(pair_le(a, b) && pair_le(b, c));
        assert(pair_le(a, c));
    }
    assert forall|a: (i64, i64), b: (i64, i64)| #[trigger] leq(a, b) || #[trigger] leq(b, a) by {
        assert(pair_le(a, b) || pair_le(b, a));
    }
}

/// What the merged sequence holds: the pairs of both tiers, ordered.
pub proof fn lemma_spec_merged(approx: Seq<(i64, i64)>, exact: Seq<(i64, i64)>)
    ensures
        spec_merged(approx, exact).to_multiset() == (approx + exact).to_multiset(),
        pairs_sorted(spec_merged(approx, exact)),
        spec_merged(approx, exact).len() == approx.len() + exact.len(),
{
    broadcast use vstd::seq_lib::group_to_multiset_ensures;

    let leq = |a: (i64, i64), b: (i64, i64)| pair_le(a, b);
    lemma_pair_le_total_ordering();
    (approx + exact).lemma_sort_by_ensures(leq);
    let merged = spec_merged(approx, exact);
    assert(merged.to_multiset() =~= (approx + exact).to_multiset());
    assert forall|i: int, j: int| 0 <= i < j < merged.len() implies pair_le(
        merged[i],
        merged[j],
    ) by {
        assert(vstd::relations::sorted_by(merged, leq));
        assert(leq(merged[i], merged[j]));
    }
    merged.to_multiset_ensures();
    (approx + exact).to_multiset_ensures();
}

/// Whether the store behind the cache holds `item.path` at a level at least
/// as rich as `item.state`.
pub open spec fn spec_contains(rows: Seq<db::Row>, item: CacheItem) -> bool {
    match db::row_for_path(rows, item.path@) {
        Some(row) => state_le(item.state, row.state),
        None => false,
    }
}

/// The store-backed side of the vector cache: the id/path/state table and
/// the merge step of a two-tier nearest-neighbour query. The float vectors
/// themselves live outside, keyed by the ids this cache hands out.
pub struct Cache {
    pub db: db::DB,
}

impl Cache {
    pub open spec fn wf(&self) -> bool {
        self.db.wf()
    }

    pub fn new() -> (r: Cache)
        ensures
            r.wf(),
            r.db.rows@.len() == 0,
    {
        Cache { db: db::DB::new() }
    }

    /// Records a brand-new path at the given level.
    pub fn create_item(&mut self, item: &CacheItem)
        requires
            old(self).wf(),
            db::row_for_path(old(self).db.rows@, item.path@) is None,
            old(self).db.next_id < i64::MAX,
        ensures
            final(self).wf(),
            final(self).db.rows@ =~= old(self).db.rows@.push(
                (db::Row { id: old(self).db.next_id, path: item.path, state: item.state }),
            ),
            final(self).db.next_id == old(self).db.next_id + 1,
    {
        self.db.insert_item(item);
    }

    /// Records `item`, creating a row for an unknown path or rewriting the
    /// level of a known one; the path keeps its id either way.
    pub fn create_or_update_item(&mut self, item: &CacheItem)
        requires
            old(self).wf(),
            old(self).db.next_id < i64::MAX,
        ensures
            final(self).wf(),
            match db::row_for_path(final(self).db.rows@, item.path@) {
                Some(r) => r.state == item.state && r.path@ == item.path@,
                None => false,
            },
            forall|q: Seq<char>|
                q != item.path@ ==> #[trigger] db::row_for_path(final(self).db.rows@, q)
                    == db::row_for_path(old(self).db.rows@, q),
            forall|i: i64|
                db::row_for_id(old(self).db.rows@, i) is Some ==> #[trigger] db::row_for_id(
                    final(self).db.rows@,
                    i,
                ) is Some,
    {
        self.db.insert_or_update_item(item);
    }

    /// Whether `item.path` is already embedded at level `item.state` or
    /// richer.
    pub fn contains(&self, item: &CacheItem) -> (r: bool)
        ensures
            r == spec_contains(self.db.rows@, *item),
    {
        match self.db.get_state_by_path(&item.path) {
            Some(state) => state.at_least(&item.state),
            None => false,
        }
    }

    /// The stable id of a path, if the cache knows the path.
    pub fn get_id_by_path(&self, path: &String) -> (r: Option<i64>)
        ensures
            match db::row_for_path(self.db.rows@, path@) {
                Some(row) => r == Some(row.id),
                None => r is None,
            },
    {
        self.db.get_id_by_path(path)
    }

    /// Merges the two tiers of a nearest-neighbour query: the pairs are
    /// concatenated, ordered by distance, cut to `count`, and the ids are
    /// translated to their paths. Every id must have a store row; an id
    /// without one would mean a vector was indexed without being recorded.
    pub fn nearest(&self, approx: &Vec<(i64, i64)>, exact: &Vec<(i64, i64)>, count: usize) -> (r:
        Vec<(i64, String)>)
        requires
            self.wf(),
            forall|i: int|
                0 <= i < approx@.len() ==> db::row_for_id(
                    self.db.rows@,
                    #[trigger] approx@[i].1,
                ) is Some,
            forall|i: int|
                0 <= i < exact@.len() ==> db::row_for_id(
                    self.db.rows@,
                    #[trigger] exact@[i].1,
                ) is Some,
        ensures
            r@.len() == if count <= spec_merged(approx@, exact@).len() {
                count as int
            } else {
                spec_merged(approx@, exact@).len() as int
            },
            forall|i: int|
                0 <= i < r@.len() ==> #[trigger] nearest_entry_ok(
                    self.db.rows@,
                    spec_merged(approx@, exact@),
                    r@,
                    i,
                ),
    {
        broadcast use vstd::seq_lib::group_to_multiset_ensures;

        let mut all: Vec<(i64, i64)> = Vec::new();
        let mut i: usize = 0;
        while i < approx.len()
            invariant
                i <= approx@.len(),
                all@ =~= approx@.take(i as int),
            decreases approx@.len() - i,
        {
            all.push(approx[i]);
            assert(all@ =~= approx@.take(i + 1));
            i = i + 1;
        }
        assert(all@ =~= approx@);
        let mut i: usize = 0;
        while i < exact.len()
            invariant
                i <= exact@.len(),
                all@ =~= approx@ + exact@.take(i as int),
            decreases exact@.len() - i,
        {
            all.push(exact[i]);
            assert(all@ =~= approx@ + exact@.take(i + 1));
            i = i + 1;
        }
        assert(all@ =~= approx@ + exact@);
        sort_pairs(&mut all);
        let ghost s = all@;
        proof {
            let leq = |a: (i64, i64), b: (i64, i64)| pair_le(a, b);
            lemma_spec_merged(approx@, exact@);
            assert(vstd::relations::sorted_by(s, leq)) by {
                assert forall|x: (i64, i64), y: (i64, i64)| true implies #[trigger] leq(x, y)
                    == pair_le(x, y) by {}
            }
            assert(vstd::relations::sorted_by(spec_merged(approx@, exact@), leq)) by {
                assert forall|x: (i64, i64), y: (i64, i64)| true implies #[trigger] leq(x, y)
                    == pair_le(x, y) by {}
            }
            lemma_pair_le_total_ordering();
            vstd::seq_lib::lemma_sorted_unique(s, spec_merged(approx@, exact@), leq);
            assert(s =~= spec_merged(approx@, exact@));
        }
        let n = if count <= all.len() {
            count
        } else {
            all.len()
        };
        let mut r: Vec<(i64, String)> = Vec::new();
        let mut i: usize = 0;
        while i < n
            invariant
                self.wf(),
                i <= n,
                n == if count <= s.len() {
                    count as int
                } else {
                    s.len() as int
                },
                all@ == s,
                s == spec_merged(approx@, exact@),
                s.to_multiset() == (approx@ + exact@).to_multiset(),
                pairs_sorted(s),
                forall|k: int|
                    0 <= k < approx@.len() ==> db::row_for_id(
                        self.db.rows@,
                        #[trigger] approx@[k].1,
                    ) is Some,
                forall|k: int|
                    0 <= k < exact@.len() ==> db::row_for_id(
                        self.db.rows@,
                        #[trigger] exact@[k].1,
                    ) is Some,
                r@.len() == i,
                forall|k: int|
                    0 <= k < i ==> #[trigger] r@[k].0 == s[k].0 && db::row_for_id(
                        self.db.rows@,
                        s[k].1,
                    ) is Some && r@[k].1@ == db::row_for_id(self.db.rows@, s[k].1)->Some_0.path@,
            decreases n - i,
        {
            proof {
                s.to_multiset_ensures();
                (approx@ + exact@).to_multiset_ensures();
                assert(s.contains(s[i as int]));
                assert(s.to_multiset().count(s[i as int]) > 0);
                assert((approx@ + exact@).to_multiset().count(s[i as int]) > 0);
                assert((approx@ + exact@).contains(s[i as int]));
                let j = choose|j: int|
                    0 <= j < (approx@ + exact@).len() && (approx@ + exact@)[j] == s[i as int];
                if j < approx@.len() {
                    assert(approx@[j] == s[i as int]);
                } else {
                    assert(exact@[j - approx@.len()] == s[i as int]);
                }
            }
            let pair = all[i];
            let path = match self.db.get_path_by_id(pair.1) {
                Some(path) => path,
                None => {
                    proof {
                        assert(false);
                    }
                    String::new()
                },
            };
            r.push((pair.0, path));
            proof {
                assert(r@[i as int].0 == s[i as int].0);
                assert(r@[i as int].1@ == db::row_for_id(self.db.rows@, s[i as int].1)->Some_0.path@);
            }
            i = i + 1;
        }
        proof {
            assert forall|t: int| 0 <= t < r@.len() implies #[trigger] nearest_entry_ok(
                self.db.rows@,
                spec_merged(approx@, exact@),
                r@,
                t,
            ) by {
                assert(r@[t].0 == s[t].0);
                assert(db::row_for_id(self.db.rows@, s[t].1) is Some);
                assert(r@[t].1@ == db::row_for_id(self.db.rows@, s[t].1)->Some_0.path@);
            }
        }
        r
    }
}

/// Orders a pair list by distance (ties by id), keeping its contents.
fn sort_pairs(v: &mut Vec<(i64, i64)>)
    ensures
        final(v)@.to_multiset() == old(v)@.to_multiset(),
        final(v)@.len() == old(v)@.len(),
        pairs_sorted(final(v)@),
{
    broadcast use vstd::seq_lib::group_to_multiset_ensures;
    broadcast use vstd::seq_lib::to_multiset_insert;

    let mut i: usize = 1;
    while i < v.len()
        invariant
            1 <= i || v@.len() == 0,
            i <= v@.len() || v@.len() == 0,
            v@.len() == old(v)@.len(),
            v@.to_multiset() == old(v)@.to_multiset(),
            forall|a: int, b: int| 0 <= a < b < i && b < v@.len() ==> pair_le(v@[a], v@[b]),
        decreases v@.len() - i,
    {
        let x = v[i];
        let mut k: usize = 0;
        while k < i && le_pair(&v[k], &x)
            invariant
                k <= i,
                i < v@.len(),
                x == v@[i as int],
                forall|a: int| 0 <= a < k ==> pair_le(v@[a], x),
            decreases i - k,
        {
            k = k + 1;
        }
        let ghost before = v@;
        v.remove(i);
        v.insert(k, x);
        proof {
            broadcast use vstd::multiset::group_multiset_axioms;

            before.to_multiset_ensures();
            before.remove_ensures(i as int);
            before.remove(i as int).insert_ensures(k as int, x);
            assert(v@ =~= before.remove(i as int).insert(k as int, x));
            assert(before.contains(x));
            assert(before.to_multiset().count(x) > 0);
            assert(before.remove(i as int).to_multiset() =~= before.to_multiset().remove(x));
            vstd::seq_lib::to_multiset_insert::<(i64, i64)>(before.remove(i as int), k as int, x);
            assert(v@.to_multiset() =~= before.to_multiset());
            assert forall|a: int, b: int|
                0 <= a < b < i + 1 && b < v@.len() implies pair_le(v@[a], v@[b]) by {
                let rem = before.remove(i as int);
                if b < k {
                    assert(v@[a] == rem[a]);
                    assert(rem[a] == before[a]);
                    assert(v@[b] == rem[b]);
                    assert(rem[b] == before[b]);
                    assert(pair_le(before[a], before[b]));
                } else if b == k {
                    assert(v@[b] == x);
                    assert(v@[a] == rem[a]);
                    assert(rem[a] == before[a]);
                    assert(pair_le(before[a], x));
                } else {
                    assert(v@[b] == rem[b - 1]);
                    assert(rem[b - 1] == before[b - 1]);
                    assert(!pair_le(before[k as int], x));
                    assert(pair_le(x, before[k as int]));
                    if a < k {
                        assert(v@[a] == rem[a]);
                    assert(rem[a] == before[a]);
                        assert(pair_le(before[a], before[b - 1]));
                    } else if a == k {
                        assert(v@[a] == x);
                        if k < b - 1 {
                            assert(pair_le(before[k as int], before[b - 1]));
                        }
                    } else {
                        assert(v@[a] == rem[a - 1]);
                        assert(rem[a - 1] == before[a - 1]);
                        assert(pair_le(before[a - 1], before[b - 1]));
                    }
                }
            }
        }
        i = i + 1;
    }
}

/// Decides `pair_le`.
fn le_pair(a: &(i64, i64), b: &(i64, i64)) -> (r: bool)
    ensures
        r == pair_le(*a, *b),
{
    a.0 < b.0 || (a.0 == b.0 && a.1 <= b.1)
}

} // verus!
