//! The metadata store: one row per known path, holding its stable integer
//! id and the richest level at which the path has been embedded so far.
//!
//! Ids are handed out once, in insertion order, and never reused; paths are
//! unique. The store is the authority both for translating the ids carried
//! by the vector indices back to paths and for deciding whether a requested
//! embedding level is already covered.
use vstd::prelude::*;

use super::CacheItem;
use super::EmbeddingState;

verus! {

/// One stored row: a path, its surrogate id, and its recorded level.
#[derive(Clone, Debug)]
pub struct Row {
    pub id: i64,
    pub path: String,
    pub state: EmbeddingState,
}

/// The first row whose path reads `p`, if any.
pub open spec fn row_for_path(rows: Seq<Row>, p: Seq<char>) -> Option<Row>
    decreases rows.len(),
{
    if rows.len() == 0 {
        None
    } else if rows[0].path@ == p {
        Some(rows[0])
    } else {
        row_for_path(rows.drop_first(), p)
    }
}

/// The first row carrying id `id`, if any.
pub open spec fn row_for_id(rows: Seq<Row>, id: i64) -> Option<Row>
    decreases rows.len(),
{
    if rows.len() == 0 {
        None
    } else if rows[0].id == id {
        Some(rows[0])
    } else {
        row_for_id(rows.drop_first(), id)
    }
}

pub struct DB {
    pub rows: Vec<Row>,
    pub next_id: i64,
}

impl DB {
    /// Paths and ids are unique, and every id was drawn below `next_id`.
    pub open spec fn wf(&self) -> bool {
        &&& forall|i: int, j: int|
            0 <= i < j < self.rows@.len() ==> self.rows@[i].path@ != self.rows@[j].path@
        &&& forall|i: int, j: int|
            0 <= i < j < self.rows@.len() ==> self.rows@[i].id != self.rows@[j].id
        &&& forall|i: int| 0 <= i < self.rows@.len() ==> #[trigger] self.rows@[i].id < self.next_id
    }

    pub fn new() -> (r: DB)
        ensures
            r.wf(),
            r.rows@.len() == 0,
            r.next_id == 0,
    {
        DB { rows: Vec::new(), next_id: 0 }
    }

    /// A skipped row whose path differs does not change the search result.
    proof fn lemma_path_search_step(rows: Seq<Row>, p: Seq<char>, i: int)
        requires
            0 <= i < rows.len(),
            rows[i].path@ != p,
        ensures
            row_for_path(rows.skip(i), p) == row_for_path(rows.skip(i + 1), p),
    {
        assert(rows.skip(i).drop_first() =~= rows.skip(i + 1));
        assert(rows.skip(i)[0] == rows[i]);
    }

    /// A skipped row whose id differs does not change the search result.
    proof fn lemma_id_search_step(rows: Seq<Row>, id: i64, i: int)
        requires
            0 <= i < rows.len(),
            rows[i].id != id,
        ensures
            row_for_id(rows.skip(i), id) == row_for_id(rows.skip(i + 1), id),
    {
        assert(rows.skip(i).drop_first() =~= rows.skip(i + 1));
        assert(rows.skip(i)[0] == rows[i]);
    }

    /// The row index holding path `p`, if the store has that path.
    fn find_path(&self, path: &String) -> (r: Option<usize>)
        ensures
            match r {
                Some(i) => i < self.rows@.len() && self.rows@[i as int].path@ == path@
                    && row_for_path(self.rows@, path@) == Some(self.rows@[i as int]),
                None => row_for_path(self.rows@, path@) is None,
            },
    {
        assert(self.rows@.skip(0) =~= self.rows@);
        let mut i: usize = 0;
        while i < self.rows.len()
            invariant
                i <= self.rows@.len(),
                row_for_path(self.rows@.skip(i as int), path@) == row_for_path(self.rows@, path@),
            decreases self.rows@.len() - i,
        {
            if self.rows[i].path.eq(path) {
                assert(self.rows@.skip(i as int)[0] == self.rows@[i as int]);
                return Some(i);
            }
            proof {
                Self::lemma_path_search_step(self.rows@, path@, i as int);
            }
            i = i + 1;
        }
        assert(self.rows@.skip(i as int) =~= Seq::<Row>::empty());
        None
    }

    /// The row index holding id `id`, if the store has that id.
    fn find_id(&self, id: i64) -> (r: Option<usize>)
        ensures
            match r {
                Some(i) => i < self.rows@.len() && self.rows@[i as int].id == id && row_for_id(
                    self.rows@,
                    id,
                ) == Some(self.rows@[i as int]),
                None => row_for_id(self.rows@, id) is None,
            },
    {
        assert(self.rows@.skip(0) =~= self.rows@);
        let mut i: usize = 0;
        while i < self.rows.len()
            invariant
                i <= self.rows@.len(),
                row_for_id(self.rows@.skip(i as int), id) == row_for_id(self.rows@, id),
            decreases self.rows@.len() - i,
        {
            if self.rows[i].id == id {
                assert(self.rows@.skip(i as int)[0] == self.rows@[i as int]);
                return Some(i);
            }
            proof {
                Self::lemma_id_search_step(self.rows@, id, i as int);
            }
            i = i + 1;
        }
        assert(self.rows@.skip(i as int) =~= Seq::<Row>::empty());
        None
    }

    /// Adds a fresh row for a path the store does not know yet; the row
    /// takes the next unused id.
    pub fn insert_item(&mut self, item: &CacheItem)
        requires
            old(self).wf(),
            row_for_path(old(self).rows@, item.path@) is None,
            old(self).next_id < i64::MAX,
        ensures
            final(self).wf(),
            final(self).rows@ =~= old(self).rows@.push(
                (Row { id: old(self).next_id, path: item.path, state: item.state }),
            ),
            final(self).next_id == old(self).next_id + 1,
    {
        proof {
            lemma_row_for_path_covers(old(self).rows@, item.path@);
        }
        let id = self.next_id;
        self.rows.push(Row { id, path: item.path.clone(), state: item.state });
        self.next_id = self.next_id + 1;
    }

    /// Rewrites the row with id `id`. The new path must not collide with a
    /// row other than the one being rewritten.
    pub fn update_item(&mut self, id: i64, item: &CacheItem)
        requires
            old(self).wf(),
            row_for_id(old(self).rows@, id) is Some,
            match row_for_path(old(self).rows@, item.path@) {
                Some(r) => r.id == id,
                None => true,
            },
        ensures
            final(self).wf(),
            final(self).next_id == old(self).next_id,
            final(self).rows@.len() == old(self).rows@.len(),
            forall|i: int|
                0 <= i < old(self).rows@.len() ==> #[trigger] final(self).rows@[i] == if old(
                    self,
                ).rows@[i].id == id {
                    (Row { id, path: item.path, state: item.state })
                } else {
                    old(self).rows@[i]
                },
    {
        proof {
            lemma_row_for_id_covers(old(self).rows@, id);
            lemma_row_for_path_covers(old(self).rows@, item.path@);
        }
        let k = match self.find_id(id) {
            Some(k) => k,
            None => {
                proof {
                    assert(false);
                }
                0
            },
        };
        self.rows.set(k, Row { id, path: item.path.clone(), state: item.state });
    }

    /// Records `item`: a known path has its row rewritten to the new level,
    /// an unknown path gets a fresh row under the next unused id.
    pub fn insert_or_update_item(&mut self, item: &CacheItem)
        requires
            old(self).wf(),
            old(self).next_id < i64::MAX,
        ensures
            final(self).wf(),
            match row_for_path(final(self).rows@, item.path@) {
                Some(r) => r.state == item.state && r.path@ == item.path@ && match row_for_path(
                    old(self).rows@,
                    item.path@,
                ) {
                    Some(prev) => r.id == prev.id && final(self).next_id == old(self).next_id,
                    None => r.id == old(self).next_id && final(self).next_id == old(self).next_id
                        + 1,
                },
                None => false,
            },
            forall|q: Seq<char>|
                q != item.path@ ==> #[trigger] row_for_path(final(self).rows@, q) == row_for_path(
                    old(self).rows@,
                    q,
                ),
            forall|i: i64|
                row_for_id(old(self).rows@, i) is Some ==> #[trigger] row_for_id(
                    final(self).rows@,
                    i,
                ) is Some,
    {
        let found = self.get_id_by_path(&item.path);
        match found {
            Some(id) => {
                proof {
                    lemma_row_for_path_covers(old(self).rows@, item.path@);
                    let m = choose|m: int|
                        0 <= m < old(self).rows@.len() && old(self).rows@[m] == row_for_path(
                            old(self).rows@,
                            item.path@,
                        )->Some_0 && old(self).rows@[m].path@ == item.path@;
                    lemma_row_for_id_at(old(self).rows@, id, m);
                }
                self.update_item(id, item);
                proof {
                    lemma_lookup_after_update(old(self).rows@, self.rows@, id, *item);
                }
            },
            None => {
                self.insert_item(item);
                proof {
                    lemma_lookup_after_push(old(self).rows@, self.rows@, old(self).next_id, *item);
                }
            },
        }
    }

    /// The stable id of a path, if the store knows it.
    pub fn get_id_by_path(&self, path: &String) -> (r: Option<i64>)
        ensures
            match row_for_path(self.rows@, path@) {
                Some(row) => r == Some(row.id),
                None => r is None,
            },
    {
        match self.find_path(path) {
            Some(i) => Some(self.rows[i].id),
            None => None,
        }
    }

    /// The path behind an id, if the store knows the id.
    pub fn get_path_by_id(&self, id: i64) -> (r: Option<String>)
        ensures
            match row_for_id(self.rows@, id) {
                Some(row) => r is Some && r->Some_0@ == row.path@,
                None => r is None,
            },
    {
        match self.find_id(id) {
            Some(i) => Some(self.rows[i].path.clone()),
            None => None,
        }
    }

    /// The recorded richness level of a path, if the store knows it.
    pub fn get_state_by_path(&self, path: &String) -> (r: Option<EmbeddingState>)
        ensures
            match row_for_path(self.rows@, path@) {
                Some(row) => r == Some(row.state),
                None => r is None,
            },
    {
        match self.find_path(path) {
            Some(i) => Some(self.rows[i].state),
            None => None,
        }
    }

    /// The (path, level) descriptor behind an id, if the store knows it.
    pub fn get_item_by_id(&self, id: i64) -> (r: Option<CacheItem>)
        ensures
            match row_for_id(self.rows@, id) {
                Some(row) => r is Some && r->Some_0.path@ == row.path@ && r->Some_0.state
                    == row.state,
                None => r is None,
            },
    {
        match self.find_id(id) {
            Some(i) => Some(
                CacheItem { path: self.rows[i].path.clone(), state: self.rows[i].state },
            ),
            None => None,
        }
    }
}

/// A path search that fails rules every row out; one that succeeds names a
/// row that is really there.
pub proof fn lemma_row_for_path_covers(rows: Seq<Row>, p: Seq<char>)
    ensures
        match row_for_path(rows, p) {
            Some(r) => exists|i: int|
                0 <= i < rows.len() && rows[i] == r && #[trigger] rows[i].path@ == p,
            None => forall|i: int| 0 <= i < rows.len() ==> #[trigger] rows[i].path@ != p,
        },
    decreases rows.len(),
{
    if rows.len() > 0 {
        if rows[0].path@ == p {
            assert(rows[0] == row_for_path(rows, p)->Some_0 && rows[0].path@ == p);
        } else {
            lemma_row_for_path_covers(rows.drop_first(), p);
            match row_for_path(rows, p) {
                Some(r) => {
                    let i = choose|i: int|
                        0 <= i < rows.drop_first().len() && rows.drop_first()[i] == r
                            && #[trigger] rows.drop_first()[i].path@ == p;
                    assert(rows[i + 1] == rows.drop_first()[i]);
                    assert(rows[i + 1].path@ == p);
                },
                None => {
                    assert forall|i: int| 0 <= i < rows.len() implies #[trigger] rows[i].path@
                        != p by {
                        if i > 0 {
                            assert(rows.drop_first()[i - 1] == rows[i]);
                        }
                    }
                },
            }
        }
    }
}

/// An id search that fails rules every row out; one that succeeds names a
/// row that is really there.
pub proof fn lemma_row_for_id_covers(rows: Seq<Row>, id: i64)
    ensures
        match row_for_id(rows, id) {
            Some(r) => exists|i: int| 0 <= i < rows.len() && rows[i] == r && #[trigger] rows[i].id
                == id,
            None => forall|i: int| 0 <= i < rows.len() ==> #[trigger] rows[i].id != id,
        },
    decreases rows.len(),
{
    if rows.len() > 0 {
        if rows[0].id == id {
            assert(rows[0] == row_for_id(rows, id)->Some_0 && rows[0].id == id);
        } else {
            lemma_row_for_id_covers(rows.drop_first(), id);
            match row_for_id(rows, id) {
                Some(r) => {
                    let i = choose|i: int|
                        0 <= i < rows.drop_first().len() && rows.drop_first()[i] == r
                            && #[trigger] rows.drop_first()[i].id == id;
                    assert(rows[i + 1] == rows.drop_first()[i]);
                    assert(rows[i + 1].id == id);
                },
                None => {
                    assert forall|i: int| 0 <= i < rows.len() implies #[trigger] rows[i].id
                        != id by {
                        if i > 0 {
                            assert(rows.drop_first()[i - 1] == rows[i]);
                        }
                    }
                },
            }
        }
    }
}

/// In a store with unique paths, the search finds exactly the row that an
/// index exhibits.
pub proof fn lemma_row_for_path_at(rows: Seq<Row>, p: Seq<char>, k: int)
    requires
        forall|i: int, j: int| 0 <= i < j < rows.len() ==> rows[i].path@ != rows[j].path@,
        0 <= k < rows.len(),
        rows[k].path@ == p,
    ensures
        row_for_path(rows, p) == Some(rows[k]),
    decreases rows.len(),
{
    if k == 0 {
    } else {
        assert(rows[0].path@ != p);
        lemma_row_for_path_at(rows.drop_first(), p, k - 1);
        assert(rows.drop_first()[k - 1] == rows[k]);
    }
}

/// In a store with unique ids, the search finds exactly the row that an
/// index exhibits.
pub proof fn lemma_row_for_id_at(rows: Seq<Row>, id: i64, k: int)
    requires
        forall|i: int, j: int| 0 <= i < j < rows.len() ==> rows[i].id != rows[j].id,
        0 <= k < rows.len(),
        rows[k].id == id,
    ensures
        row_for_id(rows, id) == Some(rows[k]),
    decreases rows.len(),
{
    if k == 0 {
    } else {
        assert(rows[0].id != id);
        lemma_row_for_id_at(rows.drop_first(), id, k - 1);
        assert(rows.drop_first()[k - 1] == rows[k]);
    }
}

/// How every lookup reads after a row was rewritten in place.
proof fn lemma_lookup_after_update(rows: Seq<Row>, out: Seq<Row>, id: i64, item: CacheItem)
    requires
        forall|i: int, j: int| 0 <= i < j < rows.len() ==> rows[i].path@ != rows[j].path@,
        forall|i: int, j: int| 0 <= i < j < rows.len() ==> rows[i].id != rows[j].id,
        out.len() == rows.len(),
        forall|i: int|
            0 <= i < rows.len() ==> #[trigger] out[i] == if rows[i].id == id {
                Row { id, path: item.path, state: item.state }
            } else {
                rows[i]
            },
        row_for_id(rows, id) is Some,
        match row_for_path(rows, item.path@) {
            Some(r) => r.id == id,
            None => false,
        },
    ensures
        match row_for_path(out, item.path@) {
            Some(r) => r.state == item.state && r.path@ == item.path@ && r.id == id,
            None => false,
        },
        forall|q: Seq<char>|
            q != item.path@ ==> #[trigger] row_for_path(out, q) == row_for_path(rows, q),
        forall|i: i64| row_for_id(rows, i) is Some ==> #[trigger] row_for_id(out, i) is Some,
{
    lemma_row_for_id_covers(rows, id);
    let k = choose|k: int|
        0 <= k < rows.len() && rows[k] == row_for_id(rows, id)->Some_0 && #[trigger] rows[k].id
            == id;
    lemma_row_for_path_covers(rows, item.path@);
    let kp = choose|kp: int|
        0 <= kp < rows.len() && rows[kp] == row_for_path(rows, item.path@)->Some_0
            && #[trigger] rows[kp].path@ == item.path@;
    assert(rows[kp].id == id);
    assert(kp == k);
    assert(rows[k].path@ == item.path@);
    assert(forall|i: int, j: int| 0 <= i < j < out.len() ==> out[i].path@ != out[j].path@);
    assert(forall|i: int, j: int| 0 <= i < j < out.len() ==> out[i].id != out[j].id);
    lemma_row_for_path_at(out, item.path@, k);
    assert forall|q: Seq<char>| q != item.path@ implies #[trigger] row_for_path(out, q)
        == row_for_path(rows, q) by {
        lemma_row_for_path_covers(rows, q);
        match row_for_path(rows, q) {
            Some(r) => {
                let m = choose|m: int|
                    0 <= m < rows.len() && rows[m] == row_for_path(rows, q)->Some_0
                        && rows[m].path@ == q;
                assert(m != k);
                assert(out[m] == rows[m]);
                lemma_row_for_path_at(out, q, m);
            },
            None => {
                lemma_row_for_path_covers(out, q);
                if row_for_path(out, q) is Some {
                    let m = choose|m: int|
                        0 <= m < out.len() && out[m] == row_for_path(out, q)->Some_0
                            && out[m].path@ == q;
                    assert(rows[m].path@ == q || out[m].path@ == item.path@);
                    assert(false);
                }
            },
        }
    }
    assert forall|i: i64| row_for_id(rows, i) is Some implies #[trigger] row_for_id(out, i)
        is Some by {
        lemma_row_for_id_covers(rows, i);
        let m = choose|m: int|
            0 <= m < rows.len() && rows[m] == row_for_id(rows, i)->Some_0 && rows[m].id == i;
        assert(out[m].id == i);
        lemma_row_for_id_at(out, i, m);
    }
}

/// How every lookup reads after a fresh row was appended.
proof fn lemma_lookup_after_push(rows: Seq<Row>, out: Seq<Row>, id: i64, item: CacheItem)
    requires
        forall|i: int, j: int| 0 <= i < j < rows.len() ==> rows[i].path@ != rows[j].path@,
        forall|i: int, j: int| 0 <= i < j < rows.len() ==> rows[i].id != rows[j].id,
        forall|i: int| 0 <= i < rows.len() ==> #[trigger] rows[i].id < id,
        row_for_path(rows, item.path@) is None,
        out =~= rows.push(Row { id, path: item.path, state: item.state }),
    ensures
        match row_for_path(out, item.path@) {
            Some(r) => r.state == item.state && r.path@ == item.path@ && r.id == id,
            None => false,
        },
        forall|q: Seq<char>|
            q != item.path@ ==> #[trigger] row_for_path(out, q) == row_for_path(rows, q),
        forall|i: i64| row_for_id(rows, i) is Some ==> #[trigger] row_for_id(out, i) is Some,
{
    lemma_row_for_path_covers(rows, item.path@);
    assert(forall|i: int, j: int| 0 <= i < j < out.len() ==> out[i].path@ != out[j].path@);
    lemma_row_for_path_at(out, item.path@, rows.len() as int);
    assert forall|q: Seq<char>| q != item.path@ implies #[trigger] row_for_path(out, q)
        == row_for_path(rows, q) by {
        lemma_row_for_path_covers(rows, q);
        match row_for_path(rows, q) {
            Some(r) => {
                let m = choose|m: int|
                    0 <= m < rows.len() && rows[m] == row_for_path(rows, q)->Some_0
                        && rows[m].path@ == q;
                assert(out[m] == rows[m]);
                lemma_row_for_path_at(out, q, m);
            },
            None => {
                lemma_row_for_path_covers(out, q);
                if row_for_path(out, q) is Some {
                    let m = choose|m: int|
                        0 <= m < out.len() && out[m] == row_for_path(out, q)->Some_0
                            && out[m].path@ == q;
                    assert(m < rows.len() || out[m].path@ == item.path@);
                    assert(false);
                }
            },
        }
    }
    assert forall|i: i64| row_for_id(rows, i) is Some implies #[trigger] row_for_id(out, i)
        is Some by {
        lemma_row_for_id_covers(rows, i);
        let m = choose|m: int|
            0 <= m < rows.len() && rows[m] == row_for_id(rows, i)->Some_0 && rows[m].id == i;
        assert(out[m].id == i);
        assert(forall|a: int, b: int| 0 <= a < b < out.len() ==> out[a].id != out[b].id);
        lemma_row_for_id_at(out, i, m);
    }
}

} // verus!
