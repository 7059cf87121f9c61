//! General laws of the validator and the deduction engine, stated over the
//! models that their contracts use.
use vstd::prelude::*;
use crate::units::{
    Unit, unit, unit_addr, present, value_count, solved_count, repeated_at, consistent, flagged, is_permutation,
    square, first_unsolved_from, first_absent_from, completable, first_completable, family_claim, deduction,
    lemma_unit_in_range, lemma_first_completable, lemma_all_present, lemma_first_absent_below,
    lemma_value_count_le_solved, lemma_value_count_eq_solved, lemma_solved_count_full, lemma_solved_count_gaps,
    lemma_first_unsolved_found, lemma_first_absent_found, lemma_unsolved_search_bound,
};

verus! {

/// Every value of the grid lies in `0..n`.
pub open spec fn values_in_range(vals: Seq<Option<int>>, n: int) -> bool {
    forall|a: int| 0 <= a < vals.len() && (#[trigger] vals[a]).is_some() ==> 0 <= vals[a].unwrap() < n
}

/// A grid whose every row, column and block is a permutation of the
/// alphabet is valid, and the validator flags none of its cells.
pub proof fn lemma_complete_grid_valid(vals: Seq<Option<int>>, n: int, root: int)
    requires
        square(n, root),
        forall|kind: Unit, g: int| 0 <= g < n ==> #[trigger] is_permutation(vals, unit(n, root, kind, g), n),
    ensures
        consistent(vals, n, root),
        forall|a: int| !#[trigger] flagged(vals, n, root, a),
{
    assert forall|kind: Unit, g: int, k: int| 0 <= g < n && 0 <= k < n implies
        !#[trigger] repeated_at(vals, unit(n, root, kind, g), k) by {
        let u = unit(n, root, kind, g);
        assert(is_permutation(vals, u, n));
        if repeated_at(vals, u, k) {
            let j = choose|j: int| 0 <= j < k && #[trigger] vals[u[j]] == vals[u[k]];
        }
    }
}

/// A value held twice in one unit makes the grid invalid and flags the
/// later of the two cells.
pub proof fn lemma_repeat_flagged(vals: Seq<Option<int>>, n: int, root: int, kind: Unit, g: int, j: int, k: int)
    requires
        0 <= g < n,
        0 <= j < k < n,
        vals[unit_addr(n, root, kind, g, j)].is_some(),
        vals[unit_addr(n, root, kind, g, j)] == vals[unit_addr(n, root, kind, g, k)],
    ensures
        !consistent(vals, n, root),
        flagged(vals, n, root, unit_addr(n, root, kind, g, k)),
{
    let u = unit(n, root, kind, g);
    assert(vals[u[j]] == vals[u[k]]);
    assert(repeated_at(vals, u, k));
}

/// Where no row, column or block has exactly `n - 1` solved cells, no
/// deduction applies.
pub proof fn lemma_no_near_full_unit(vals: Seq<Option<int>>, n: int, root: int)
    requires
        forall|kind: Unit, g: int| 0 <= g < n ==> #[trigger] solved_count(vals, unit(n, root, kind, g)) != n - 1,
    ensures
        deduction(vals, n, root) is None,
{
    assert forall|kind: Unit| #[trigger] family_claim(vals, n, root, kind) is None by {
        assert forall|h: int| 0 <= h < n implies !#[trigger] completable(vals, unit(n, root, kind, h), n) by {
            let u = unit(n, root, kind, h);
            if completable(vals, u, n) {
                lemma_value_count_le_solved(vals, u, n as nat);
                lemma_first_unsolved_found(vals, u, 0);
                let p = first_unsolved_from(vals, u, 0);
                lemma_solved_count_gaps(vals, u, p, p);
                assert(solved_count(vals, u) != n - 1);
            }
        }
        if n >= 0 {
            lemma_first_completable(vals, n, root, kind, 0, n);
        }
    }
}

/// In a valid grid where row `g` is the only row with exactly `n - 1`
/// solved cells, the deduction step fills that row's one unsolved cell with
/// the one value the row lacks, after which the row is a permutation.
pub proof fn lemma_single_gap_row(vals: Seq<Option<int>>, n: int, root: int, g: int)
    requires
        square(n, root),
        vals.len() == n * n,
        values_in_range(vals, n),
        consistent(vals, n, root),
        0 <= g < n,
        solved_count(vals, unit(n, root, Unit::Row, g)) == n - 1,
        forall|h: int| 0 <= h < n && h != g ==> #[trigger] solved_count(vals, unit(n, root, Unit::Row, h)) != n - 1,
    ensures
        deduction(vals, n, root) is Some,
        ({
            let (a, x) = deduction(vals, n, root).unwrap();
            &&& exists|k: int| 0 <= k < n && a == unit_addr(n, root, Unit::Row, g, k)
            &&& vals[a].is_none()
            &&& 0 <= x < n
            &&& !present(vals, unit(n, root, Unit::Row, g), x)
            &&& is_permutation(vals.update(a, Some(x)), unit(n, root, Unit::Row, g), n)
        }),
{
    lemma_unit_in_range(n, root, Unit::Row, g);
    assert forall|h: int| 0 <= h < n implies
        value_count(vals, #[trigger] unit(n, root, Unit::Row, h), n as nat)
            == solved_count(vals, unit(n, root, Unit::Row, h)) by {
        let u = unit(n, root, Unit::Row, h);
        lemma_unit_in_range(n, root, Unit::Row, h);
        assert forall|k: int| 0 <= k < u.len() implies !#[trigger] repeated_at(vals, u, k) by {
            assert(!repeated_at(vals, unit(n, root, Unit::Row, h), k));
        }
        lemma_value_count_eq_solved(vals, u, n as nat);
    }
    let u = unit(n, root, Unit::Row, g);
    assert forall|h: int| 0 <= h < g implies !#[trigger] completable(vals, unit(n, root, Unit::Row, h), n) by {
        assert(value_count(vals, unit(n, root, Unit::Row, h), n as nat)
            == solved_count(vals, unit(n, root, Unit::Row, h)));
    }
    lemma_first_completable(vals, n, root, Unit::Row, 0, g);
    if first_unsolved_from(vals, u, 0) >= u.len() {
        assert forall|k: int| 0 <= k < u.len() implies (#[trigger] vals[u[k]]).is_some() by {
            if vals[u[k]].is_none() {
                lemma_unsolved_search_bound(vals, u, 0, k);
            }
        }
        lemma_solved_count_full(vals, u);
    }
    assert(value_count(vals, u, n as nat) == solved_count(vals, u));
    assert(completable(vals, u, n));
    assert(first_completable(vals, n, root, Unit::Row, 0) == Some(g));
    let p = first_unsolved_from(vals, u, 0);
    lemma_first_unsolved_found(vals, u, 0);
    let x = first_absent_from(vals, u, 0, n);
    if x >= n {
        assert forall|y: int| 0 <= y < n implies #[trigger] present(vals, u, y) by {
            if !present(vals, u, y) {
                lemma_first_absent_below(vals, u, 0, y, n);
            }
        }
        lemma_all_present(vals, u, n as nat);
    }
    lemma_first_absent_found(vals, u, 0, n);
    let a = u[p];
    assert(deduction(vals, n, root) == Some((a, x)));
    assert(a == unit_addr(n, root, Unit::Row, g, p));
    let w = vals.update(a, Some(x));
    assert forall|k: int| 0 <= k < u.len() && k != p implies (#[trigger] vals[u[k]]).is_some() by {
        if vals[u[k]].is_none() {
            if k < p {
                lemma_solved_count_gaps(vals, u, k, p);
            } else {
                lemma_solved_count_gaps(vals, u, p, k);
            }
        }
    }
    assert forall|k: int| 0 <= k < u.len() && k != p implies #[trigger] u[k] != a by {
        assert(u[k] == g * n + k);
        assert(a == g * n + p);
    }
    assert forall|j: int, k: int| 0 <= j < u.len() && 0 <= k < u.len() && j != k implies
        #[trigger] w[u[j]] != #[trigger] w[u[k]] by {
        if j != p && k != p {
            if j < k {
                assert(!repeated_at(vals, u, k));
            } else {
                assert(!repeated_at(vals, u, j));
            }
        } else if j == p {
            assert(vals[u[k]] != Some(x));
        } else {
            assert(vals[u[j]] != Some(x));
        }
    }
    assert forall|k: int| 0 <= k < u.len() implies 0 <= (#[trigger] w[u[k]]).unwrap() < n && w[u[k]].is_some() by {
        if k != p {
            assert(vals[u[k]].is_some());
        }
    }
}

} // verus!
