//! Persisted per-list state and its reconciliation: the item-id sequence, the
//! win matrix, the ability vector, and cached match totals, kept consistent
//! when the underlying item list changes.
use vstd::prelude::*;

use vstd::string::StrSliceExecFns;

use crate::data::{has_id, str_eq};
use crate::fixed::{
    lemma_matrix_deep_view, lemma_sum32_nonneg, lemma_sum32_take_le, sum32,
    ABILITY_ONE, MIN_ABILITY,
};

verus! {

/// The persisted record of one list: ids, win matrix, abilities, and the
/// cached per-item match totals.
#[derive(Debug, Clone, PartialEq, Eq)]
pub struct StoredListState {
    pub item_ids: Vec<String>,
    pub win_matrix: Vec<Vec<u32>>,
    pub abilities: Vec<u64>,
    pub match_totals: Vec<u32>,
}

/// The process-wide persisted state: the selected list and each list's
/// record, keyed by list id (keys are looked up first-match).
#[derive(Debug, Clone, PartialEq, Eq)]
pub struct StoredAppState {
    pub selected_list: Option<String>,
    pub lists: Vec<(String, StoredListState)>,
}

impl Default for StoredAppState {
    fn default() -> (r: Self)
        ensures
            r.selected_list is None,
            r.lists@.len() == 0,
    {
        StoredAppState { selected_list: None, lists: Vec::new() }
    }
}

/// The mathematical shape of a list record.
pub ghost struct ListModel {
    pub ids: Seq<Seq<char>>,
    pub matrix: Seq<Seq<u32>>,
    pub abilities: Seq<u64>,
    pub totals: Seq<u32>,
}

impl StoredListState {
    /// The record read as sequences of plain values.
    pub open spec fn model(&self) -> ListModel {
        ListModel {
            ids: self.item_ids.deep_view(),
            matrix: self.win_matrix.deep_view(),
            abilities: self.abilities@,
            totals: self.match_totals@,
        }
    }
}

/// An `n` by `n` matrix of zeroes.
pub open spec fn zero_matrix(n: int) -> Seq<Seq<u32>> {
    Seq::new(n as nat, |i: int| Seq::new(n as nat, |j: int| 0u32))
}

/// The record created for a list never seen before: zero history and a
/// uniform ability of 1.0 per item.
pub open spec fn fresh_model(ids: Seq<Seq<char>>) -> ListModel {
    ListModel {
        ids,
        matrix: zero_matrix(ids.len() as int),
        abilities: Seq::new(ids.len(), |i: int| ABILITY_ONE),
        totals: Seq::new(ids.len(), |i: int| 0u32),
    }
}

/// Whether a record already lines up with an id sequence: same ids in the
/// same order, square matrix of that dimension, abilities of that length.
pub open spec fn model_matches(m: ListModel, ids: Seq<Seq<char>>) -> bool {
    &&& m.ids == ids
    &&& m.matrix.len() == ids.len()
    &&& forall|i: int| 0 <= i < m.matrix.len() ==> #[trigger] m.matrix[i].len() == ids.len()
    &&& m.abilities.len() == ids.len()
}

/// A matrix cell, or zero when the indices fall outside it.
pub open spec fn cell_or_zero(m: Seq<Seq<u32>>, i: int, j: int) -> u32 {
    if 0 <= i < m.len() && 0 <= j < m[i].len() {
        m[i][j]
    } else {
        0u32
    }
}

/// The position of the last occurrence of `id`, or -1 when absent.
pub open spec fn last_index_of(ids: Seq<Seq<char>>, id: Seq<char>) -> int
    decreases ids.len(),
{
    if ids.len() == 0 {
        -1
    } else if ids.last() == id {
        ids.len() - 1
    } else {
        last_index_of(ids.drop_last(), id)
    }
}

pub proof fn lemma_last_index_of(ids: Seq<Seq<char>>, id: Seq<char>)
    ensures
        has_id(ids, id) ==> {
            &&& 0 <= last_index_of(ids, id) < ids.len()
            &&& ids[last_index_of(ids, id)] == id
            &&& forall|k: int| last_index_of(ids, id) < k < ids.len() ==> ids[k] != id
        },
        !has_id(ids, id) ==> last_index_of(ids, id) == -1,
    decreases ids.len(),
{
    if ids.len() > 0 {
        let head = ids.drop_last();
        lemma_last_index_of(head, id);
        assert(forall|k: int| 0 <= k < head.len() ==> #[trigger] head[k] == ids[k]);
        if ids.last() == id {
            assert(has_id(ids, id));
        } else {
            if has_id(ids, id) {
                let w = choose|k: int| 0 <= k < ids.len() && ids[k] == id;
                assert(w < ids.len() - 1);
                assert(head[w] == id);
                assert(has_id(head, id));
                let l = last_index_of(head, id);
                assert(ids[l] == id);
                assert forall|k: int| l < k < ids.len() implies ids[k] != id by {
                    if k < ids.len() - 1 {
                        assert(head[k] != id);
                    }
                }
            } else {
                if has_id(head, id) {
                    let w = choose|k: int| 0 <= k < head.len() && head[k] == id;
                    assert(ids[w] == id);
                    assert(has_id(ids, id));
                }
            }
        }
    }
}

/// Comparisons recorded for item `i` against opponents below `jn`, read
/// defensively from a possibly ragged matrix.
pub open spec fn spec_row_col_sum(m: Seq<Seq<u32>>, i: int, jn: int) -> int
    decreases jn,
{
    if jn <= 0 {
        0
    } else {
        spec_row_col_sum(m, i, jn - 1) + if jn - 1 == i {
            0
        } else {
            cell_or_zero(m, i, jn - 1) + cell_or_zero(m, jn - 1, i)
        }
    }
}

/// The cached total for item `i`: its row-plus-column sum, saturated at the
/// largest 32-bit value.
pub open spec fn spec_match_total(m: Seq<Seq<u32>>, i: int) -> u32 {
    let s = spec_row_col_sum(m, i, m.len() as int);
    if s > u32::MAX {
        u32::MAX
    } else {
        s as u32
    }
}

/// The derived match-total cache of a whole matrix.
pub open spec fn totals_model(m: Seq<Seq<u32>>) -> Seq<u32> {
    Seq::new(m.len(), |i: int| spec_match_total(m, i))
}

/// The reconciled record for a changed id sequence: every surviving item
/// (matched by identifier) keeps its floored ability, every surviving pair
/// keeps its win cell at the new positions, everything else starts at zero;
/// totals are recomputed from the rebuilt matrix.
pub open spec fn reorder_model(old: ListModel, ids: Seq<Seq<char>>) -> ListModel {
    let n = ids.len();
    let matrix = Seq::new(
        n,
        |i: int|
            Seq::new(
                n,
                |j: int|
                    if has_id(old.ids, ids[i]) && has_id(old.ids, ids[j]) {
                        cell_or_zero(
                            old.matrix,
                            last_index_of(old.ids, ids[i]),
                            last_index_of(old.ids, ids[j]),
                        )
                    } else {
                        0u32
                    },
            ),
    );
    ListModel {
        ids,
        matrix,
        abilities: Seq::new(
            n,
            |i: int|
                if has_id(old.ids, ids[i]) && last_index_of(old.ids, ids[i])
                    < old.abilities.len() {
                    if old.abilities[last_index_of(old.ids, ids[i])] < MIN_ABILITY {
                        MIN_ABILITY
                    } else {
                        old.abilities[last_index_of(old.ids, ids[i])]
                    }
                } else {
                    ABILITY_ONE
                },
        ),
        totals: totals_model(matrix),
    }
}

/// What reconciliation leaves behind: a fresh record when none existed, the
/// record itself with its totals cache rebuilt from the matrix when it
/// already lines up (the cache is derived data, never a source of truth),
/// and the identifier-matched remap otherwise.
pub open spec fn align_model(existing: Option<ListModel>, ids: Seq<Seq<char>>) -> ListModel {
    match existing {
        Option::Some(m) => {
            if model_matches(m, ids) {
                ListModel { totals: totals_model(m.matrix), ..m }
            } else {
                reorder_model(m, ids)
            }
        },
        Option::None => fresh_model(ids),
    }
}

/// A matrix of zeroes derives an all-zero totals cache.
pub proof fn lemma_zero_matrix_totals(n: int)
    requires
        n >= 0,
    ensures
        totals_model(zero_matrix(n)) =~= Seq::new(n as nat, |i: int| 0u32),
{
    assert forall|i: int| 0 <= i < n implies #[trigger] spec_match_total(zero_matrix(n), i)
        == 0u32 by {
        lemma_zero_row_col_sum(n, i, n);
    }
}

proof fn lemma_zero_row_col_sum(n: int, i: int, jn: int)
    requires
        0 <= jn <= n,
    ensures
        spec_row_col_sum(zero_matrix(n), i, jn) == 0,
    decreases jn,
{
    if jn > 0 {
        lemma_zero_row_col_sum(n, i, jn - 1);
    }
}

/// In every branch of reconciliation the returned totals cache agrees with
/// the returned matrix.
pub proof fn lemma_align_totals_fresh(existing: Option<ListModel>, ids: Seq<Seq<char>>)
    ensures
        align_model(existing, ids).totals == totals_model(align_model(existing, ids).matrix),
{
    match existing {
        Option::Some(m) => {
        },
        Option::None => {
            lemma_zero_matrix_totals(ids.len() as int);
            assert(fresh_model(ids).totals =~= totals_model(fresh_model(ids).matrix));
        },
    }
}

/// The grand total of every cell of the matrix.
pub open spec fn spec_matrix_sum(m: Seq<Seq<u32>>) -> int
    decreases m.len(),
{
    if m.len() == 0 {
        0
    } else {
        spec_matrix_sum(m.drop_last()) + sum32(m.last())
    }
}

/// What `total_matches` reports: half the cached totals when the cache has
/// the right length (each comparison counts for two items), else the grand
/// sum of the matrix.
pub open spec fn spec_total_matches(m: ListModel) -> int {
    if m.totals.len() == m.ids.len() {
        sum32(m.totals) / 2
    } else {
        spec_matrix_sum(m.matrix)
    }
}

proof fn lemma_matrix_sum_take_le(m: Seq<Seq<u32>>, k: int)
    requires
        0 <= k <= m.len(),
    ensures
        spec_matrix_sum(m.take(k)) <= spec_matrix_sum(m),
        spec_matrix_sum(m.take(k)) >= 0,
    decreases m.len(),
{
    if m.len() == 0 {
        assert(m.take(k) =~= m);
    } else if k == m.len() {
        assert(m.take(k) =~= m);
        lemma_matrix_sum_take_le(m.drop_last(), k - 1);
        lemma_sum32_nonneg(m.last());
    } else {
        assert(m.take(k) =~= m.drop_last().take(k));
        lemma_matrix_sum_take_le(m.drop_last(), k);
        lemma_sum32_nonneg(m.last());
    }
}

/// The record stored under `id`, by first match.
pub open spec fn spec_lookup(
    l: Seq<(String, StoredListState)>,
    id: Seq<char>,
) -> Option<StoredListState>
    decreases l.len(),
{
    if l.len() == 0 {
        Option::None
    } else if l[0].0@ == id {
        Option::Some(l[0].1)
    } else {
        spec_lookup(l.drop_first(), id)
    }
}

proof fn lemma_lookup_skip(l: Seq<(String, StoredListState)>, i: int, id: Seq<char>)
    requires
        0 <= i <= l.len(),
        forall|j: int| 0 <= j < i ==> #[trigger] l[j].0@ != id,
    ensures
        spec_lookup(l, id) == spec_lookup(l.skip(i), id),
    decreases i,
{
    if i == 0 {
        assert(l.skip(0) =~= l);
    } else {
        assert(l.len() > 0);
        assert(l[0].0@ != id);
        assert(l.drop_first().skip(i - 1) =~= l.skip(i));
        assert forall|j: int| 0 <= j < i - 1 implies #[trigger] l.drop_first()[j].0@ != id by {
            assert(l[j + 1].0@ != id);
        }
        lemma_lookup_skip(l.drop_first(), i - 1, id);
    }
}

proof fn lemma_lookup_update(l: Seq<(String, StoredListState)>, i: int, p: (
    String,
    StoredListState,
))
    requires
        0 <= i < l.len(),
        forall|j: int| 0 <= j < i ==> #[trigger] l[j].0@ != p.0@,
        l[i].0@ == p.0@,
    ensures
        spec_lookup(l.update(i, p), p.0@) == Option::Some(p.1),
        forall|id: Seq<char>|
            id != p.0@ ==> #[trigger] spec_lookup(l.update(i, p), id) == spec_lookup(l, id),
    decreases i,
{
    let u = l.update(i, p);
    if i == 0 {
        assert(u[0] == p);
        assert(u.drop_first() =~= l.drop_first());
    } else {
        assert(u[0] == l[0]);
        assert(l[0].0@ != p.0@);
        assert(u.drop_first() =~= l.drop_first().update(i - 1, p));
        assert forall|j: int| 0 <= j < i - 1 implies #[trigger] l.drop_first()[j].0@
            != p.0@ by {
            assert(l[j + 1].0@ != p.0@);
        }
        assert(l.drop_first()[i - 1].0@ == l[i].0@);
        lemma_lookup_update(l.drop_first(), i - 1, p);
        assert forall|id: Seq<char>| id != p.0@ implies #[trigger] spec_lookup(u, id)
            == spec_lookup(l, id) by {
            assert(spec_lookup(u.drop_first(), id) == spec_lookup(l.drop_first(), id));
        }
    }
}

proof fn lemma_lookup_push(l: Seq<(String, StoredListState)>, p: (String, StoredListState))
    requires
        forall|j: int| 0 <= j < l.len() ==> #[trigger] l[j].0@ != p.0@,
    ensures
        spec_lookup(l.push(p), p.0@) == Option::Some(p.1),
        forall|id: Seq<char>|
            id != p.0@ ==> #[trigger] spec_lookup(l.push(p), id) == spec_lookup(l, id),
    decreases l.len(),
{
    let u = l.push(p);
    if l.len() == 0 {
        assert(u[0] == p);
        assert(u.drop_first() =~= Seq::<(String, StoredListState)>::empty());
        assert forall|id: Seq<char>| id != p.0@ implies #[trigger] spec_lookup(u, id)
            == spec_lookup(l, id) by {
            assert(spec_lookup(u.drop_first(), id) is None);
            assert(spec_lookup(l, id) is None);
        }
    } else {
        assert(u[0] == l[0]);
        assert(l[0].0@ != p.0@);
        assert(u.drop_first() =~= l.drop_first().push(p));
        assert forall|j: int| 0 <= j < l.len() - 1 implies #[trigger] l.drop_first()[j].0@
            != p.0@ by {
            assert(l[j + 1].0@ != p.0@);
        }
        lemma_lookup_push(l.drop_first(), p);
        assert forall|id: Seq<char>| id != p.0@ implies #[trigger] spec_lookup(u, id)
            == spec_lookup(l, id) by {
            assert(spec_lookup(u.drop_first(), id) == spec_lookup(l.drop_first(), id));
        }
    }
}

impl StoredListState {
    /// A fresh record for the given ids: all-zero history, uniform abilities.
    pub fn new(item_ids: &[String]) -> (r: Self)
        ensures
            r.model() == fresh_model(item_ids.deep_view()),
    {
        let ghost gids = item_ids.deep_view();
        let count = item_ids.len();
        let mut ids: Vec<String> = Vec::new();
        for i in 0..count
            invariant
                count == item_ids@.len(),
                gids == item_ids.deep_view(),
                ids@.len() == i,
                forall|k: int| 0 <= k < i ==> #[trigger] ids@[k]@ == item_ids@[k]@,
        {
            ids.push(item_ids[i].clone());
        }
        let mut matrix: Vec<Vec<u32>> = Vec::new();
        for i in 0..count
            invariant
                matrix@.len() == i,
                forall|k: int|
                    0 <= k < i ==> #[trigger] matrix@[k]@ =~= Seq::new(
                        count as nat,
                        |j: int| 0u32,
                    ),
        {
            let row = vec![0u32; count];
            proof {
                assert(row@ =~= Seq::new(count as nat, |j: int| 0u32));
            }
            matrix.push(row);
        }
        let abilities = vec![ABILITY_ONE; count];
        let totals = vec![0u32; count];
        let r = StoredListState { item_ids: ids, win_matrix: matrix, abilities, match_totals: totals };
        proof {
            assert(r.model().ids =~= gids);
            assert(r.model().matrix =~~= zero_matrix(count as int));
            assert(r.model().abilities =~= Seq::new(count as nat, |i: int| ABILITY_ONE));
            assert(r.model().totals =~= Seq::new(count as nat, |i: int| 0u32));
        }
        r
    }

    /// Whether this record already lines up with the given id sequence.
    pub fn matches_items(&self, item_ids: &[String]) -> (r: bool)
        ensures
            r == model_matches(self.model(), item_ids.deep_view()),
    {
        let ghost m = self.model();
        let ghost gids = item_ids.deep_view();
        let n = item_ids.len();
        if self.item_ids.len() != n {
            return false;
        }
        for i in 0..n
            invariant
                n == item_ids@.len() == self.item_ids@.len(),
                m == self.model(),
                gids == item_ids.deep_view(),
                forall|k: int| 0 <= k < i ==> #[trigger] m.ids[k] == gids[k],
        {
            if !str_eq(self.item_ids[i].as_str(), item_ids[i].as_str()) {
                proof {
                    assert(m.ids[i as int] == self.item_ids@[i as int]@);
                    assert(gids[i as int] == item_ids@[i as int]@);
                }
                return false;
            }
        }
        proof {
            assert(m.ids =~= gids);
        }
        if self.win_matrix.len() != n {
            return false;
        }
        for i in 0..n
            invariant
                n == item_ids@.len() == self.win_matrix@.len(),
                m == self.model(),
                gids == item_ids.deep_view(),
                m.ids == gids,
                forall|k: int| 0 <= k < i ==> #[trigger] m.matrix[k].len() == n,
        {
            proof {
                assert(m.matrix[i as int] =~= self.win_matrix@[i as int]@);
            }
            if self.win_matrix[i].len() != n {
                return false;
            }
        }
        if self.abilities.len() != n {
            return false;
        }
        true
    }

    /// The number of comparisons recorded in this record: half the cached
    /// per-item totals when the cache is fresh (each comparison counts for
    /// two items), else the grand sum of the matrix.
    pub fn total_matches(&self) -> (r: u32)
        requires
            self.match_totals@.len() == self.item_ids@.len() ==> sum32(self.match_totals@)
                <= u32::MAX,
            self.match_totals@.len() != self.item_ids@.len() ==> spec_matrix_sum(
                self.win_matrix.deep_view(),
            ) <= u32::MAX,
        ensures
            r == spec_total_matches(self.model()),
    {
        let ghost m = self.model();
        if self.match_totals.len() == self.item_ids.len() {
            let n = self.match_totals.len();
            let mut acc: u32 = 0;
            for i in 0..n
                invariant
                    n == self.match_totals@.len(),
                    acc == sum32(self.match_totals@.take(i as int)),
                    sum32(self.match_totals@) <= u32::MAX,
            {
                proof {
                    assert(self.match_totals@.take(i + 1).drop_last() =~= self.match_totals@
                        .take(i as int));
                    lemma_sum32_take_le(self.match_totals@, i + 1);
                    lemma_sum32_nonneg(self.match_totals@.take(i + 1));
                }
                acc = acc + self.match_totals[i];
            }
            proof {
                assert(self.match_totals@.take(n as int) =~= self.match_totals@);
            }
            acc / 2
        } else {
            let ghost w = self.win_matrix.deep_view();
            proof {
                lemma_matrix_deep_view(self.win_matrix);
            }
            let rows = self.win_matrix.len();
            let mut acc: u32 = 0;
            for i in 0..rows
                invariant
                    rows == w.len() == self.win_matrix@.len(),
                    forall|ii: int| 0 <= ii < rows ==> w[ii] == self.win_matrix@[ii]@,
                    spec_matrix_sum(w) <= u32::MAX,
                    acc == spec_matrix_sum(w.take(i as int)),
            {
                let row = &self.win_matrix[i];
                let cols = row.len();
                for j in 0..cols
                    invariant
                        rows == w.len() == self.win_matrix@.len(),
                        0 <= i < rows,
                        forall|ii: int| 0 <= ii < rows ==> w[ii] == self.win_matrix@[ii]@,
                        spec_matrix_sum(w) <= u32::MAX,
                        row@ == w[i as int],
                        cols == row@.len(),
                        acc == spec_matrix_sum(w.take(i as int)) + sum32(w[i as int].take(
                            j as int,
                        )),
                {
                    proof {
                        assert(w[i as int].take(j + 1).drop_last() =~= w[i as int].take(
                            j as int,
                        ));
                        assert(w.take(i + 1).drop_last() =~= w.take(i as int));
                        assert(w.take(i + 1).last() == w[i as int]);
                        lemma_matrix_sum_take_le(w, i + 1);
                        lemma_matrix_sum_take_le(w, i as int);
                        lemma_sum32_take_le(w[i as int], j + 1);
                        lemma_sum32_nonneg(w[i as int].take(j + 1));
                    }
                    acc = acc + row[j];
                }
                proof {
                    assert(w[i as int].take(cols as int) =~= w[i as int]);
                    assert(w.take(i + 1).drop_last() =~= w.take(i as int));
                    assert(w.take(i + 1).last() == w[i as int]);
                }
            }
            proof {
                assert(w.take(rows as int) =~= w);
            }
            acc
        }
    }
}

/// Per-item match totals derived from a win matrix: for every item, the sum
/// of its row and column (diagonal excluded), saturated at the 32-bit limit.
pub fn compute_match_totals(win_matrix: &Vec<Vec<u32>>) -> (r: Vec<u32>)
    ensures
        r@ == totals_model(win_matrix.deep_view()),
{
    let ghost m = win_matrix.deep_view();
    proof {
        lemma_matrix_deep_view(*win_matrix);
    }
    let count = win_matrix.len();
    let mut totals: Vec<u32> = Vec::new();
    for i in 0..count
        invariant
            count == m.len() == win_matrix@.len(),
            forall|ii: int| 0 <= ii < count ==> m[ii] == win_matrix@[ii]@,
            totals@.len() == i,
            forall|k: int| 0 <= k < i ==> #[trigger] totals@[k] == spec_match_total(m, k),
    {
        let mut t: u64 = 0;
        for j in 0..count
            invariant
                count == m.len() == win_matrix@.len(),
                0 <= i < count,
                forall|ii: int| 0 <= ii < count ==> m[ii] == win_matrix@[ii]@,
                t <= u32::MAX,
                t as int == (if spec_row_col_sum(m, i as int, j as int) > u32::MAX {
                    u32::MAX as int
                } else {
                    spec_row_col_sum(m, i as int, j as int)
                }),
        {
            if j != i {
                let row = &win_matrix[i];
                let a = if j < row.len() {
                    row[j]
                } else {
                    0
                };
                let b = if i < win_matrix[j].len() {
                    win_matrix[j][i]
                } else {
                    0
                };
                let add = a as u64 + b as u64;
                proof {
                    assert(a == cell_or_zero(m, i as int, j as int));
                    assert(b == cell_or_zero(m, j as int, i as int));
                }
                t = if t + add > 0xFFFF_FFFF {
                    0xFFFF_FFFF
                } else {
                    t + add
                };
            }
        }
        totals.push(t as u32);
    }
    proof {
        assert(totals@ =~= totals_model(m));
    }
    totals
}

/// Reconciliation preserves history under identifier-based remapping: a
/// pair of ids that both survive keeps its win cell, read from the old
/// positions of those identifiers, wherever the ids moved to.
pub proof fn lemma_reorder_preserves_history(m: ListModel, ids: Seq<Seq<char>>, i: int, j: int)
    requires
        0 <= i < ids.len(),
        0 <= j < ids.len(),
        has_id(m.ids, ids[i]),
        has_id(m.ids, ids[j]),
    ensures
        reorder_model(m, ids).matrix[i][j] == cell_or_zero(
            m.matrix,
            last_index_of(m.ids, ids[i]),
            last_index_of(m.ids, ids[j]),
        ),
{
}

/// Reconciliation zero-fills newcomers: every cell that touches an id the
/// old record never held is zero, and such an item starts from the uniform
/// ability.
pub proof fn lemma_reorder_zero_fills_new(m: ListModel, ids: Seq<Seq<char>>, i: int, j: int)
    requires
        0 <= i < ids.len(),
        0 <= j < ids.len(),
        !has_id(m.ids, ids[i]) || !has_id(m.ids, ids[j]),
    ensures
        reorder_model(m, ids).matrix[i][j] == 0,
        !has_id(m.ids, ids[i]) ==> reorder_model(m, ids).abilities[i] == ABILITY_ONE,
{
}

/// Reconciliation is idempotent: aligning the record that aligning created
/// for an id sequence against that same sequence returns it unchanged.
pub proof fn lemma_align_idempotent(ids: Seq<Seq<char>>)
    ensures
        align_model(Option::Some(align_model(Option::None, ids)), ids) == align_model(
            Option::None,
            ids,
        ),
{
    let f = align_model(Option::None, ids);
    assert(model_matches(f, ids));
    lemma_zero_matrix_totals(ids.len() as int);
    assert(totals_model(f.matrix) =~= f.totals);
    assert(align_model(Option::Some(f), ids) == f);
}

/// The position of the last occurrence of `id` among the stored ids.
fn find_last(ids: &Vec<String>, id: &String) -> (r: Option<usize>)
    ensures
        match r {
            Option::Some(k) => has_id(ids.deep_view(), id@) && k as int == last_index_of(
                ids.deep_view(),
                id@,
            ),
            Option::None => !has_id(ids.deep_view(), id@),
        },
{
    let ghost dv = ids.deep_view();
    let n = ids.len();
    let mut i = n;
    while i > 0
        invariant
            n == ids@.len(),
            dv == ids.deep_view(),
            i <= n,
            forall|k: int| i <= k < n ==> #[trigger] dv[k] != id@,
        decreases i,
    {
        i = i - 1;
        if str_eq(ids[i].as_str(), id.as_str()) {
            proof {
                assert(dv[i as int] == ids@[i as int]@);
                assert(has_id(dv, id@));
                lemma_last_index_of(dv, id@);
                let l = last_index_of(dv, id@);
                if l < i {
                    assert(dv[i as int] != id@);
                }
            }
            return Some(i);
        }
        proof {
            assert(dv[i as int] == ids@[i as int]@);
        }
    }
    proof {
        if has_id(dv, id@) {
            let w = choose|k: int| 0 <= k < dv.len() && dv[k] == id@;
            assert(dv[w] != id@);
        }
    }
    None
}

/// Rebuild a record against a changed id sequence, carrying surviving
/// history over by identifier.
fn reorder_state(state: StoredListState, item_ids: &[String]) -> (r: StoredListState)
    ensures
        r.model() == reorder_model(state.model(), item_ids.deep_view()),
{
    let ghost om = state.model();
    let ghost gids = item_ids.deep_view();
    let ghost target = reorder_model(om, gids);
    let n = item_ids.len();
    if n == 0 {
        let r = StoredListState::new(item_ids);
        proof {
            assert(target.matrix =~~= fresh_model(gids).matrix);
            assert(target.abilities =~= fresh_model(gids).abilities);
            assert(target.totals =~= fresh_model(gids).totals);
        }
        return r;
    }
    proof {
        lemma_matrix_deep_view(state.win_matrix);
    }
    let mut ids: Vec<String> = Vec::new();
    for i in 0..n
        invariant
            n == item_ids@.len(),
            gids == item_ids.deep_view(),
            ids@.len() == i,
            forall|k: int| 0 <= k < i ==> #[trigger] ids@[k]@ == item_ids@[k]@,
    {
        ids.push(item_ids[i].clone());
    }
    let mut abilities: Vec<u64> = Vec::new();
    let mut matrix: Vec<Vec<u32>> = Vec::new();
    for i in 0..n
        invariant
            om == state.model(),
            gids == item_ids.deep_view(),
            target == reorder_model(om, gids),
            n == item_ids@.len(),
            forall|ii: int|
                0 <= ii < om.matrix.len() ==> om.matrix[ii] == state.win_matrix@[ii]@,
            abilities@.len() == i,
            matrix@.len() == i,
            forall|k: int| 0 <= k < i ==> #[trigger] abilities@[k] == target.abilities[k],
            forall|k: int| 0 <= k < i ==> #[trigger] matrix@[k]@ == target.matrix[k],
    {
        proof {
            assert(gids[i as int] == item_ids@[i as int]@);
        }
        match find_last(&state.item_ids, &item_ids[i]) {
            Some(old_i) => {
                let a = if old_i < state.abilities.len() {
                    let v = state.abilities[old_i];
                    if v < MIN_ABILITY {
                        MIN_ABILITY
                    } else {
                        v
                    }
                } else {
                    ABILITY_ONE
                };
                abilities.push(a);
                let mut row: Vec<u32> = Vec::new();
                for j in 0..n
                    invariant
                        om == state.model(),
                        gids == item_ids.deep_view(),
                        target == reorder_model(om, gids),
                        n == item_ids@.len(),
                        0 <= i < n,
                        forall|ii: int|
                            0 <= ii < om.matrix.len() ==> om.matrix[ii]
                                == state.win_matrix@[ii]@,
                        has_id(om.ids, gids[i as int]),
                        old_i as int == last_index_of(om.ids, gids[i as int]),
                        row@.len() == j,
                        forall|k: int|
                            0 <= k < j ==> #[trigger] row@[k] == target.matrix[i as int][k],
                {
                    proof {
                        assert(gids[j as int] == item_ids@[j as int]@);
                    }
                    let cell: u32 = match find_last(&state.item_ids, &item_ids[j]) {
                        Some(old_j) => {
                            if old_i < state.win_matrix.len()
                                && old_j < state.win_matrix[old_i].len() {
                                state.win_matrix[old_i][old_j]
                            } else {
                                0
                            }
                        },
                        None => 0,
                    };
                    row.push(cell);
                    proof {
                        assert(row@[j as int] == target.matrix[i as int][j as int]);
                    }
                }
                matrix.push(row);
                proof {
                    assert(matrix@[i as int]@ =~= target.matrix[i as int]);
                }
            },
            None => {
                abilities.push(ABILITY_ONE);
                let row = vec![0u32; n];
                matrix.push(row);
                proof {
                    assert(matrix@[i as int]@ =~= target.matrix[i as int]);
                }
            },
        }
    }
    let totals = compute_match_totals(&matrix);
    let r = StoredListState { item_ids: ids, win_matrix: matrix, abilities, match_totals: totals };
    proof {
        assert(r.model().ids =~= gids);
        assert(r.model().matrix =~~= target.matrix);
        assert(r.model().abilities =~= target.abilities);
        assert(r.model().totals == totals_model(r.model().matrix));
    }
    r
}

/// Reconcile a possibly stale record against the current id sequence: create
/// a fresh record when none exists, keep a record that already lines up, and
/// remap history by identifier otherwise. In every case the totals cache is
/// rebuilt from (or created to agree with) the matrix: the cache is derived
/// data, never a source of truth.
pub fn align_list_state(existing: Option<StoredListState>, item_ids: &[String]) -> (r:
    StoredListState)
    ensures
        r.model() == align_model(
            match existing {
                Option::Some(s) => Option::Some(s.model()),
                Option::None => Option::None,
            },
            item_ids.deep_view(),
        ),
        r.model().totals == totals_model(r.model().matrix),
{
    proof {
        lemma_align_totals_fresh(
            match &existing {
                Option::Some(s) => Option::Some(s.model()),
                Option::None => Option::None,
            },
            item_ids.deep_view(),
        );
    }
    match existing {
        None => StoredListState::new(item_ids),
        Some(state) => {
            if state.matches_items(item_ids) {
                let mut state = state;
                state.match_totals = compute_match_totals(&state.win_matrix);
                state
            } else {
                reorder_state(state, item_ids)
            }
        },
    }
}

/// The stored record for `list_id`, if any.
pub fn load_list_state<'a>(app_state: &'a StoredAppState, list_id: &str) -> (r: Option<
    &'a StoredListState,
>)
    ensures
        match r {
            Option::Some(s) => spec_lookup(app_state.lists@, list_id@) == Option::Some(*s),
            Option::None => spec_lookup(app_state.lists@, list_id@) is None,
        },
{
    let n = app_state.lists.len();
    for i in 0..n
        invariant
            n == app_state.lists@.len(),
            forall|j: int| 0 <= j < i ==> #[trigger] app_state.lists@[j].0@ != list_id@,
    {
        if str_eq(app_state.lists[i].0.as_str(), list_id) {
            proof {
                lemma_lookup_skip(app_state.lists@, i as int, list_id@);
                assert(app_state.lists@.skip(i as int)[0] == app_state.lists@[i as int]);
            }
            return Some(&app_state.lists[i].1);
        }
    }
    proof {
        lemma_lookup_skip(app_state.lists@, n as int, list_id@);
        assert(app_state.lists@.skip(n as int) =~= Seq::<(String, StoredListState)>::empty());
    }
    None
}

/// Store `state` under `list_id`, replacing any previous record for it.
pub fn upsert_list_state(app_state: &mut StoredAppState, list_id: &str, state: StoredListState)
    ensures
        final(app_state).selected_list == old(app_state).selected_list,
        spec_lookup(final(app_state).lists@, list_id@) == Option::Some(state),
        forall|other: Seq<char>|
            other != list_id@ ==> #[trigger] spec_lookup(final(app_state).lists@, other)
                == spec_lookup(old(app_state).lists@, other),
{
    let ghost orig = app_state.lists@;
    let n = app_state.lists.len();
    let key = list_id.to_owned();
    for i in 0..n
        invariant
            n == app_state.lists@.len(),
            app_state.lists@ == orig,
            orig == old(app_state).lists@,
            app_state.selected_list == old(app_state).selected_list,
            key@ == list_id@,
            forall|j: int| 0 <= j < i ==> #[trigger] orig[j].0@ != list_id@,
    {
        if str_eq(app_state.lists[i].0.as_str(), list_id) {
            let ghost p = (key, state);
            app_state.lists.set(i, (key, state));
            proof {
                assert(app_state.lists@ == orig.update(i as int, p));
                assert(p.0@ == list_id@);
                assert(orig[i as int].0@ == p.0@);
                lemma_lookup_update(orig, i as int, p);
                assert forall|other: Seq<char>| other != list_id@ implies #[trigger] spec_lookup(
                    app_state.lists@,
                    other,
                ) == spec_lookup(orig, other) by {
                    assert(spec_lookup(orig.update(i as int, p), other) == spec_lookup(
                        orig,
                        other,
                    ));
                }
            }
            return;
        }
    }
    let ghost p = (key, state);
    app_state.lists.push((key, state));
    proof {
        assert(app_state.lists@ == orig.push(p));
        assert(p.0@ == list_id@);
        lemma_lookup_push(orig, p);
        assert forall|other: Seq<char>| other != list_id@ implies #[trigger] spec_lookup(
            app_state.lists@,
            other,
        ) == spec_lookup(orig, other) by {
            assert(spec_lookup(orig.push(p), other) == spec_lookup(orig, other));
        }
    }
}

} // verus!
