//! Pairwise-comparison ranking core: a Bradley-Terry strength model over a
//! win-count matrix, an adaptive matchup sampler, and a reconciler that keeps
//! persisted comparison history consistent when the item set changes.
use vstd::prelude::*;

pub mod data;
pub mod fixed;
pub mod matchflow;
pub mod ranking;
pub mod storage;

verus! {

use crate::data::{str_eq, ListInfo};
use crate::fixed::{sum64, ABILITY_ONE, MAX_ITEMS};
use crate::ranking::{spec_ensure_len, spec_run_iterations, spec_square, BradleyTerry};
use crate::storage::{totals_model, StoredListState};

/// Whether some listed id matches the candidate.
pub open spec fn spec_has_list(lists: Seq<ListInfo>, id: Seq<char>) -> bool {
    exists|i: int| 0 <= i < lists.len() && lists[i].id@ == id
}

/// Whether the id names one of the listed lists.
fn contains_list(lists: &[ListInfo], id: &str) -> (r: bool)
    ensures
        r == spec_has_list(lists@, id@),
{
    let n = lists.len();
    for i in 0..n
        invariant
            n == lists@.len(),
            forall|k: int| 0 <= k < i ==> #[trigger] lists@[k].id@ != id@,
    {
        if str_eq(lists[i].id.as_str(), id) {
            proof {
                assert(lists@[i as int].id@ == id@);
            }
            return true;
        }
    }
    proof {
        if spec_has_list(lists@, id@) {
            let wi = choose|k: int| 0 <= k < lists@.len() && lists@[k].id@ == id@;
            assert(lists@[wi].id@ != id@);
        }
    }
    false
}

/// Keep the previous selection while its list still exists; otherwise fall
/// back to the first list, or to none when there is no list at all.
pub fn resolve_selection(lists: &[ListInfo], previous: Option<String>) -> (r: Option<String>)
    ensures
        match previous {
            Option::Some(current) => {
                &&& spec_has_list(lists@, current@) ==> r == previous
                &&& !spec_has_list(lists@, current@) && lists@.len() > 0 ==> (r matches Option
                    ::Some(s) && s@ == lists@[0].id@)
                &&& !spec_has_list(lists@, current@) && lists@.len() == 0 ==> r is None
            },
            Option::None => {
                &&& lists@.len() > 0 ==> (r matches Option::Some(s) && s@ == lists@[0].id@)
                &&& lists@.len() == 0 ==> r is None
            },
        },
{
    let keep = match &previous {
        Some(current) => contains_list(lists, current.as_str()),
        None => false,
    };
    if keep {
        previous
    } else if lists.len() > 0 {
        Some(lists[0].id.clone())
    } else {
        None
    }
}

/// Record one resolved comparison and refresh the model: the winner's cell
/// against the loser gains one (saturating), the cached totals are rebuilt,
/// the model is refitted for the given iteration budget, and the refreshed
/// abilities are copied back into the record. Out-of-range indices leave
/// everything untouched.
pub fn record_result(
    state: &mut StoredListState,
    ranking: &mut BradleyTerry,
    winner: usize,
    loser: usize,
    iterations: usize,
)
    requires
        winner != loser,
        spec_square(old(state).win_matrix.deep_view()),
        old(state).win_matrix@.len() <= MAX_ITEMS,
    ensures
        final(state).item_ids == old(state).item_ids,
        winner < old(state).win_matrix@.len() && loser < old(state).win_matrix@.len() ==> {
            &&& final(state).win_matrix.deep_view() == old(state).win_matrix.deep_view()
                .update(
                winner as int,
                old(state).win_matrix.deep_view()[winner as int].update(
                    loser as int,
                    if old(state).win_matrix.deep_view()[winner as int][loser as int]
                        == u32::MAX {
                        u32::MAX
                    } else {
                        (old(state).win_matrix.deep_view()[winner as int][loser as int]
                            + 1) as u32
                    },
                ),
            )
            &&& final(state).match_totals@ == totals_model(final(state).win_matrix.deep_view())
            &&& final(ranking)@ == spec_run_iterations(
                spec_ensure_len(old(ranking)@, old(state).win_matrix@.len() as int),
                final(state).win_matrix.deep_view(),
                iterations as nat,
            )
            &&& final(state).abilities@ == final(ranking)@
            &&& iterations > 0 ==> sum64(final(ranking)@) == ABILITY_ONE
            &&& iterations > 0 ==> forall|k: int|
                0 <= k < final(ranking)@.len() ==> crate::fixed::MIN_ABILITY
                    <= #[trigger] final(ranking)@[k]
        },
        !(winner < old(state).win_matrix@.len() && loser < old(state).win_matrix@.len()) ==> {
            &&& *final(state) == *old(state)
            &&& *final(ranking) == *old(ranking)
        },
{
    let ghost w0 = state.win_matrix.deep_view();
    proof {
        crate::fixed::lemma_matrix_deep_view(state.win_matrix);
    }
    let n = state.win_matrix.len();
    if winner >= n || loser >= n {
        return;
    }
    proof {
        assert(w0[winner as int].len() == w0.len());
        assert(w0[winner as int] == state.win_matrix@[winner as int]@);
    }
    let cell = state.win_matrix[winner][loser];
    let bumped = cell.saturating_add(1);
    let old_row = &state.win_matrix[winner];
    let mut new_row: Vec<u32> = Vec::new();
    let cols = old_row.len();
    for j in 0..cols
        invariant
            cols == old_row@.len(),
            loser < cols,
            new_row@.len() == j,
            bumped == (if old_row@[loser as int] == u32::MAX {
                u32::MAX
            } else {
                (old_row@[loser as int] + 1) as u32
            }),
            forall|k: int|
                0 <= k < j ==> #[trigger] new_row@[k] == (if k == loser as int {
                    bumped
                } else {
                    old_row@[k]
                }),
    {
        if j == loser {
            new_row.push(bumped);
        } else {
            new_row.push(old_row[j]);
        }
    }
    let ghost row_target = w0[winner as int].update(
        loser as int,
        if w0[winner as int][loser as int] == u32::MAX {
            u32::MAX
        } else {
            (w0[winner as int][loser as int] + 1) as u32
        },
    );
    proof {
        assert(new_row@ =~= row_target);
    }
    state.win_matrix.set(winner, new_row);
    proof {
        crate::fixed::lemma_matrix_deep_view(state.win_matrix);
        assert(state.win_matrix.deep_view() =~= w0.update(winner as int, row_target));
    }
    state.match_totals = crate::storage::compute_match_totals(&state.win_matrix);
    let ghost w1 = state.win_matrix.deep_view();
    proof {
        assert forall|i: int| 0 <= i < w1.len() implies #[trigger] w1[i].len()
            == w1.len() by {
            assert(w0[i].len() == w0.len());
        }
    }
    ranking.ensure_len(n);
    ranking.run_iterations(&state.win_matrix, iterations);
    state.abilities = ranking.to_vec();
}

} // verus!
