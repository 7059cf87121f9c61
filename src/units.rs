//! The three families of constraint units (rows, columns, blocks) of an
//! `n`-state grid, and the facts about them that the solver relies on.
use vstd::prelude::*;
use vstd::arithmetic::div_mod::{lemma_fundamental_div_mod, lemma_mod_pos_bound, lemma_div_pos_is_pos};

verus! {

/// A family of constraint units.
#[derive(Clone, Copy, Debug, PartialEq, Eq, Structural)]
pub enum Unit {
    Row,
    Column,
    Block,
}

/// The cell address at position `k` of unit `g` of kind `kind`, for a grid
/// of `n` states whose blocks are `root` cells wide. Positions run left to
/// right, then top to bottom.
pub open spec fn unit_addr(n: int, root: int, kind: Unit, g: int, k: int) -> int {
    match kind {
        Unit::Row => g * n + k,
        Unit::Column => k * n + g,
        Unit::Block => (g % root) * root + (g / root) * root * n + k % root + (k / root) * n,
    }
}

/// The addresses of unit `g` of kind `kind`, in scan order.
pub open spec fn unit(n: int, root: int, kind: Unit, g: int) -> Seq<int> {
    Seq::new(n as nat, |k: int| unit_addr(n, root, kind, g, k))
}

/// The cells of a grid as seen by the solving logic: a value or nothing.
pub open spec fn entries(cells: Seq<crate::cell::Cell>) -> Seq<Option<int>> {
    cells.map_values(|c: crate::cell::Cell| if c.solved { Some(c.solution as int) } else { None })
}

/// Value `x` is held by some cell of unit `u`.
pub open spec fn present(vals: Seq<Option<int>>, u: Seq<int>, x: int) -> bool {
    exists|k: int| 0 <= k < u.len() && #[trigger] vals[u[k]] == Some(x)
}

/// How many of the values `0..m` unit `u` holds.
pub open spec fn value_count(vals: Seq<Option<int>>, u: Seq<int>, m: nat) -> nat
    decreases m,
{
    if m == 0 {
        0
    } else {
        value_count(vals, u, (m - 1) as nat) + if present(vals, u, m - 1) { 1nat } else { 0nat }
    }
}

/// How many cells of unit `u` are solved.
pub open spec fn solved_count(vals: Seq<Option<int>>, u: Seq<int>) -> nat
    decreases u.len(),
{
    if u.len() == 0 {
        0
    } else {
        solved_count(vals, u.drop_last()) + if vals[u.last()].is_some() { 1nat } else { 0nat }
    }
}

/// The cell at position `k` of unit `u` repeats the value of an earlier cell
/// of the unit.
pub open spec fn repeated_at(vals: Seq<Option<int>>, u: Seq<int>, k: int) -> bool {
    &&& vals[u[k]].is_some()
    &&& exists|j: int| 0 <= j < k && #[trigger] vals[u[j]] == vals[u[k]]
}

/// No unit of any family holds a value twice.
pub open spec fn consistent(vals: Seq<Option<int>>, n: int, root: int) -> bool {
    forall|kind: Unit, g: int, k: int|
        0 <= g < n && 0 <= k < n ==> !#[trigger] repeated_at(vals, unit(n, root, kind, g), k)
}

/// Address `a` holds a repeated value in some unit.
pub open spec fn flagged(vals: Seq<Option<int>>, n: int, root: int, a: int) -> bool {
    exists|kind: Unit, g: int, k: int|
        0 <= g < n && 0 <= k < n && unit_addr(n, root, kind, g, k) == a
            && #[trigger] repeated_at(vals, unit(n, root, kind, g), k)
}

/// Every cell of unit `u` is solved, with values in `0..n` that are pairwise
/// different.
pub open spec fn is_permutation(vals: Seq<Option<int>>, u: Seq<int>, n: int) -> bool {
    &&& forall|k: int| 0 <= k < u.len() ==> (#[trigger] vals[u[k]]).is_some()
    &&& forall|k: int| 0 <= k < u.len() ==> 0 <= (#[trigger] vals[u[k]]).unwrap() < n
    &&& forall|j: int, k: int|
        0 <= j < u.len() && 0 <= k < u.len() && j != k ==> #[trigger] vals[u[j]] != #[trigger] vals[u[k]]
}

/// A grid of `n` states with blocks `root` wide has blocks that tile it.
pub open spec fn square(n: int, root: int) -> bool {
    0 <= root && root * root == n
}

pub proof fn lemma_unit_addr_bounds(n: int, root: int, kind: Unit, g: int, k: int)
    requires
        square(n, root),
        0 <= g < n,
        0 <= k < n,
    ensures
        0 <= unit_addr(n, root, kind, g, k) < n * n,
{
    match kind {
        Unit::Row => {
            assert(0 <= g * n + k < n * n) by (nonlinear_arith)
                requires 0 <= g < n, 0 <= k < n;
        },
        Unit::Column => {
            assert(0 <= k * n + g < n * n) by (nonlinear_arith)
                requires 0 <= g < n, 0 <= k < n;
        },
        Unit::Block => {
            assert(root > 0) by (nonlinear_arith)
                requires 0 <= root, root * root == n, n > 0;
            lemma_fundamental_div_mod(g, root);
            lemma_fundamental_div_mod(k, root);
            lemma_mod_pos_bound(g, root);
            lemma_mod_pos_bound(k, root);
            lemma_div_pos_is_pos(g, root);
            lemma_div_pos_is_pos(k, root);
            let gq = g / root;
            let gr = g % root;
            let kq = k / root;
            let kr = k % root;
            assert(gq < root) by (nonlinear_arith)
                requires g == root * gq + gr, 0 <= gr, g < root * root, root > 0;
            assert(kq < root) by (nonlinear_arith)
                requires k == root * kq + kr, 0 <= kr, k < root * root, root > 0;
            assert(0 <= gr * root + kr <= n - 1) by (nonlinear_arith)
                requires 0 <= gr < root, 0 <= kr < root, n == root * root;
            assert(0 <= gq * root + kq <= n - 1) by (nonlinear_arith)
                requires 0 <= gq < root, 0 <= kq < root, n == root * root;
            let s = gq * root + kq;
            assert(0 <= s * n <= (n - 1) * n) by (nonlinear_arith)
                requires 0 <= s <= n - 1, n > 0;
            assert(gq * root * n + kq * n == s * n) by (nonlinear_arith)
                requires s == gq * root + kq;
            assert(0 <= (n - 1) * n + n - 1 < n * n) by (nonlinear_arith)
                requires n > 0;
        },
    }
}

/// Every address of a unit lies in the grid.
pub proof fn lemma_unit_in_range(n: int, root: int, kind: Unit, g: int)
    requires
        square(n, root),
        0 <= g < n,
    ensures
        forall|k: int| 0 <= k < n ==> 0 <= #[trigger] unit(n, root, kind, g)[k] < n * n,
{
    assert forall|k: int| 0 <= k < n implies 0 <= #[trigger] unit(n, root, kind, g)[k] < n * n by {
        lemma_unit_addr_bounds(n, root, kind, g, k);
    }
}


/// The first position at or after `k` of an unsolved cell of `u`, or the
/// unit's length when there is none.
pub open spec fn first_unsolved_from(vals: Seq<Option<int>>, u: Seq<int>, k: int) -> int
    decreases u.len() - k,
{
    if k < 0 || k >= u.len() {
        u.len() as int
    } else if vals[u[k]].is_none() {
        k
    } else {
        first_unsolved_from(vals, u, k + 1)
    }
}

/// The smallest value in `x..n` that unit `u` does not hold, or `n`.
pub open spec fn first_absent_from(vals: Seq<Option<int>>, u: Seq<int>, x: int, n: int) -> int
    decreases n - x,
{
    if x < 0 || x >= n {
        n
    } else if !present(vals, u, x) {
        x
    } else {
        first_absent_from(vals, u, x + 1, n)
    }
}

/// Unit `u` holds all but one of the `n` values and still has an unsolved
/// cell.
pub open spec fn completable(vals: Seq<Option<int>>, u: Seq<int>, n: int) -> bool {
    &&& n >= 1
    &&& value_count(vals, u, n as nat) == n - 1
    &&& first_unsolved_from(vals, u, 0) < u.len()
}

/// The first completable unit of family `kind` with index at least `g`.
pub open spec fn first_completable(vals: Seq<Option<int>>, n: int, root: int, kind: Unit, g: int) -> Option<int>
    decreases n - g,
{
    if g < 0 || g >= n {
        None
    } else if completable(vals, unit(n, root, kind, g), n) {
        Some(g)
    } else {
        first_completable(vals, n, root, kind, g + 1)
    }
}

/// The claim that completes unit `u`: its first unsolved cell, with the
/// smallest value it lacks.
pub open spec fn claim_in(vals: Seq<Option<int>>, u: Seq<int>, n: int) -> (int, int) {
    (u[first_unsolved_from(vals, u, 0)], first_absent_from(vals, u, 0, n))
}

/// The claim that completes the first completable unit of family `kind`.
pub open spec fn family_claim(vals: Seq<Option<int>>, n: int, root: int, kind: Unit) -> Option<(int, int)> {
    match first_completable(vals, n, root, kind, 0) {
        Some(g) => Some(claim_in(vals, unit(n, root, kind, g), n)),
        None => None,
    }
}

/// One deduction step: complete the first completable row, else column,
/// else block; `None` when no unit can be completed.
pub open spec fn deduction(vals: Seq<Option<int>>, n: int, root: int) -> Option<(int, int)> {
    if family_claim(vals, n, root, Unit::Row) is Some {
        family_claim(vals, n, root, Unit::Row)
    } else if family_claim(vals, n, root, Unit::Column) is Some {
        family_claim(vals, n, root, Unit::Column)
    } else {
        family_claim(vals, n, root, Unit::Block)
    }
}

pub proof fn lemma_first_unsolved(vals: Seq<Option<int>>, u: Seq<int>, k: int, r: int)
    requires
        0 <= k <= r <= u.len(),
        forall|j: int| k <= j < r ==> (#[trigger] vals[u[j]]).is_some(),
        r < u.len() ==> vals[u[r]].is_none(),
    ensures
        first_unsolved_from(vals, u, k) == r,
    decreases r - k,
{
    if k < r {
        lemma_first_unsolved(vals, u, k + 1, r);
    }
}

pub proof fn lemma_first_absent(vals: Seq<Option<int>>, u: Seq<int>, x: int, r: int, n: int)
    requires
        0 <= x <= r <= n,
        forall|y: int| x <= y < r ==> #[trigger] present(vals, u, y),
        r < n ==> !present(vals, u, r),
    ensures
        first_absent_from(vals, u, x, n) == r,
    decreases r - x,
{
    if x < r {
        lemma_first_absent(vals, u, x + 1, r, n);
    }
}

pub proof fn lemma_first_completable(vals: Seq<Option<int>>, n: int, root: int, kind: Unit, g: int, r: int)
    requires
        0 <= g <= r <= n,
        forall|h: int| g <= h < r ==> !#[trigger] completable(vals, unit(n, root, kind, h), n),
    ensures
        first_completable(vals, n, root, kind, g) == first_completable(vals, n, root, kind, r),
    decreases r - g,
{
    if g < r {
        lemma_first_completable(vals, n, root, kind, g + 1, r);
    }
}

/// A unit that holds every value of `0..m` holds `m` of them.
pub proof fn lemma_all_present(vals: Seq<Option<int>>, u: Seq<int>, m: nat)
    requires
        forall|x: int| 0 <= x < m ==> #[trigger] present(vals, u, x),
    ensures
        value_count(vals, u, m) == m,
    decreases m,
{
    if m > 0 {
        lemma_all_present(vals, u, (m - 1) as nat);
    }
}

/// The search for an absent value stops at or before any absent value.
pub proof fn lemma_first_absent_below(vals: Seq<Option<int>>, u: Seq<int>, x: int, y: int, n: int)
    requires
        0 <= x <= y < n,
        !present(vals, u, y),
    ensures
        first_absent_from(vals, u, x, n) <= y,
    decreases y - x,
{
    if x < y && present(vals, u, x) {
        lemma_first_absent_below(vals, u, x + 1, y, n);
    }
}

/// What a unit with one more cell holds.
pub proof fn lemma_present_push(vals: Seq<Option<int>>, u: Seq<int>, a: int, x: int)
    ensures
        present(vals, u.push(a), x) <==> (present(vals, u, x) || vals[a] == Some(x)),
{
    let v = u.push(a);
    if present(vals, v, x) && vals[a] != Some(x) {
        let k = choose|k: int| 0 <= k < v.len() && #[trigger] vals[v[k]] == Some(x);
        assert(k < u.len() && vals[u[k]] == Some(x));
    }
    if present(vals, u, x) {
        let k = choose|k: int| 0 <= k < u.len() && #[trigger] vals[u[k]] == Some(x);
        assert(vals[v[k]] == Some(x));
    }
    if vals[a] == Some(x) {
        assert(vals[v[u.len() as int]] == Some(x));
    }
}

/// Adding a cell to a unit adds one to the count of held values below `m`
/// exactly when the cell holds such a value that the unit lacked.
pub proof fn lemma_value_count_push(vals: Seq<Option<int>>, u: Seq<int>, a: int, m: nat)
    ensures
        value_count(vals, u.push(a), m) == value_count(vals, u, m) + if vals[a].is_some()
            && 0 <= vals[a].unwrap() < m && !present(vals, u, vals[a].unwrap()) { 1nat } else { 0nat },
    decreases m,
{
    if m > 0 {
        lemma_value_count_push(vals, u, a, (m - 1) as nat);
        lemma_present_push(vals, u, a, m - 1);
        if vals[a].is_some() && vals[a].unwrap() == m - 1 {
            lemma_present_push(vals, u, a, vals[a].unwrap());
        }
    }
}

/// A unit holds at most as many distinct values as it has solved cells.
pub proof fn lemma_value_count_le_solved(vals: Seq<Option<int>>, u: Seq<int>, m: nat)
    ensures
        value_count(vals, u, m) <= solved_count(vals, u),
    decreases u.len(),
{
    if u.len() == 0 {
        lemma_value_count_empty(vals, u, m);
    } else {
        let p = u.drop_last();
        assert(p.push(u.last()) == u);
        lemma_value_count_le_solved(vals, p, m);
        lemma_value_count_push(vals, p, u.last(), m);
    }
}

pub proof fn lemma_value_count_empty(vals: Seq<Option<int>>, u: Seq<int>, m: nat)
    requires
        u.len() == 0,
    ensures
        value_count(vals, u, m) == 0,
    decreases m,
{
    if m > 0 {
        lemma_value_count_empty(vals, u, (m - 1) as nat);
    }
}

/// Without repeats, and with values below `m`, a unit holds as many
/// distinct values as it has solved cells.
pub proof fn lemma_value_count_eq_solved(vals: Seq<Option<int>>, u: Seq<int>, m: nat)
    requires
        forall|k: int| 0 <= k < u.len() ==> !#[trigger] repeated_at(vals, u, k),
        forall|k: int| 0 <= k < u.len() && (#[trigger] vals[u[k]]).is_some() ==> 0 <= vals[u[k]].unwrap() < m,
    ensures
        value_count(vals, u, m) == solved_count(vals, u),
    decreases u.len(),
{
    if u.len() == 0 {
        lemma_value_count_empty(vals, u, m);
    } else {
        let p = u.drop_last();
        let last = (u.len() - 1) as int;
        assert(p.push(u.last()) == u);
        assert forall|k: int| 0 <= k < p.len() implies !#[trigger] repeated_at(vals, p, k) by {
            assert(!repeated_at(vals, u, k));
            if repeated_at(vals, p, k) {
                let j = choose|j: int| 0 <= j < k && #[trigger] vals[p[j]] == vals[p[k]];
                assert(vals[u[j]] == vals[u[k]]);
            }
        }
        assert forall|k: int| 0 <= k < p.len() && (#[trigger] vals[p[k]]).is_some() implies 0 <= vals[p[k]].unwrap() < m by {
            assert(vals[u[k]] == vals[p[k]]);
        }
        lemma_value_count_eq_solved(vals, p, m);
        lemma_value_count_push(vals, p, u.last(), m);
        if vals[u.last()].is_some() {
            assert(!repeated_at(vals, u, last));
            assert(vals[u[last]].is_some());
            assert(0 <= vals[u[last]].unwrap() < m);
            if present(vals, p, vals[u.last()].unwrap()) {
                let j = choose|j: int| 0 <= j < p.len() && #[trigger] vals[p[j]] == Some(vals[u.last()].unwrap());
                assert(vals[u[j]] == vals[u[last]]);
            }
        }
    }
}

/// A unit whose cells are all solved has as many solved cells as cells.
pub proof fn lemma_solved_count_full(vals: Seq<Option<int>>, u: Seq<int>)
    requires
        forall|k: int| 0 <= k < u.len() ==> (#[trigger] vals[u[k]]).is_some(),
    ensures
        solved_count(vals, u) == u.len(),
    decreases u.len(),
{
    if u.len() > 0 {
        let p = u.drop_last();
        assert forall|k: int| 0 <= k < p.len() implies (#[trigger] vals[p[k]]).is_some() by {
            assert(vals[u[k]] == vals[p[k]]);
        }
        lemma_solved_count_full(vals, p);
        assert(vals[u[u.len() - 1]].is_some());
    }
}

/// Each unsolved cell lowers the solved count below the length: with one at
/// `p` the count is at most one short; with a second at `q` two short.
pub proof fn lemma_solved_count_gaps(vals: Seq<Option<int>>, u: Seq<int>, p: int, q: int)
    requires
        0 <= p < u.len(),
        vals[u[p]].is_none(),
        p <= q < u.len(),
        vals[u[q]].is_none(),
    ensures
        solved_count(vals, u) <= u.len() - 1,
        p < q ==> solved_count(vals, u) <= u.len() - 2,
    decreases u.len(),
{
    let d = u.drop_last();
    let last = u.len() - 1;
    lemma_solved_count_le_len(vals, d);
    if q < last {
        assert(vals[d[p]].is_none() && vals[d[q]].is_none());
        lemma_solved_count_gaps(vals, d, p, q);
    } else if p < q {
        assert(vals[d[p]].is_none());
        lemma_solved_count_gaps(vals, d, p, p);
    }
}

pub proof fn lemma_solved_count_le_len(vals: Seq<Option<int>>, u: Seq<int>)
    ensures
        solved_count(vals, u) <= u.len(),
    decreases u.len(),
{
    if u.len() > 0 {
        lemma_solved_count_le_len(vals, u.drop_last());
    }
}

/// The search for an unsolved cell finds one, after solved cells only.
pub proof fn lemma_first_unsolved_found(vals: Seq<Option<int>>, u: Seq<int>, k: int)
    requires
        0 <= k,
        first_unsolved_from(vals, u, k) < u.len(),
    ensures
        k <= first_unsolved_from(vals, u, k),
        vals[u[first_unsolved_from(vals, u, k)]].is_none(),
    decreases u.len() - k,
{
    if k < u.len() && vals[u[k]].is_some() {
        lemma_first_unsolved_found(vals, u, k + 1);
    }
}

/// The search for an absent value finds one that the unit lacks.
pub proof fn lemma_first_absent_found(vals: Seq<Option<int>>, u: Seq<int>, x: int, n: int)
    requires
        0 <= x,
        first_absent_from(vals, u, x, n) < n,
    ensures
        x <= first_absent_from(vals, u, x, n),
        !present(vals, u, first_absent_from(vals, u, x, n)),
    decreases n - x,
{
    if x < n && present(vals, u, x) {
        lemma_first_absent_found(vals, u, x + 1, n);
    }
}

/// The search for an unsolved cell stops at or before any unsolved cell.
pub proof fn lemma_unsolved_search_bound(vals: Seq<Option<int>>, u: Seq<int>, k: int, j: int)
    requires
        0 <= k <= j < u.len(),
        vals[u[j]].is_none(),
    ensures
        first_unsolved_from(vals, u, k) <= j,
    decreases j - k,
{
    if k < j && vals[u[k]].is_some() {
        lemma_unsolved_search_bound(vals, u, k + 1, j);
    }
}

/// Row `r` holds value `x`.
pub open spec fn row_has(vals: Seq<Option<int>>, n: int, root: int, r: int, x: int) -> bool {
    present(vals, unit(n, root, Unit::Row, r), x)
}

/// How many of the first `m` rows of stripe `s` (the `root` rows that
/// cross the blocks `s * root ..`) hold value `x`.
pub open spec fn stripe_rows_with(vals: Seq<Option<int>>, n: int, root: int, s: int, x: int, m: nat) -> nat
    decreases m,
{
    if m == 0 {
        0
    } else {
        stripe_rows_with(vals, n, root, s, x, (m - 1) as nat)
            + if row_has(vals, n, root, s * root + m - 1, x) { 1nat } else { 0nat }
    }
}

/// The first row offset at or after `i` in stripe `s` whose row lacks `x`,
/// or `root`.
pub open spec fn first_row_without(vals: Seq<Option<int>>, n: int, root: int, s: int, x: int, i: int) -> int
    decreases root - i,
{
    if i < 0 || i >= root {
        root
    } else if !row_has(vals, n, root, s * root + i, x) {
        i
    } else {
        first_row_without(vals, n, root, s, x, i + 1)
    }
}

/// The first block column at or after `j` whose block in stripe `s` lacks
/// `x`, or `root`.
pub open spec fn first_block_without(vals: Seq<Option<int>>, n: int, root: int, s: int, x: int, j: int) -> int
    decreases root - j,
{
    if j < 0 || j >= root {
        root
    } else if !present(vals, unit(n, root, Unit::Block, s * root + j), x) {
        j
    } else {
        first_block_without(vals, n, root, s, x, j + 1)
    }
}

/// All rows of stripe `s` but one hold `x`: the one that lacks it, and the
/// first block of the stripe that lacks it, where `x` must go.
pub open spec fn stripe_forced(vals: Seq<Option<int>>, n: int, root: int, s: int, x: int) -> Option<(int, int)> {
    if root >= 1 && stripe_rows_with(vals, n, root, s, x, root as nat) == root - 1
        && first_block_without(vals, n, root, s, x, 0) < root {
        Some((s * root + first_row_without(vals, n, root, s, x, 0), first_block_without(vals, n, root, s, x, 0)))
    } else {
        None
    }
}

pub proof fn lemma_first_row_without(vals: Seq<Option<int>>, n: int, root: int, s: int, x: int, i: int, r: int)
    requires
        0 <= i <= r <= root,
        forall|t: int| i <= t < r ==> #[trigger] row_has(vals, n, root, s * root + t, x),
        r < root ==> !row_has(vals, n, root, s * root + r, x),
    ensures
        first_row_without(vals, n, root, s, x, i) == r,
    decreases r - i,
{
    if i < r {
        lemma_first_row_without(vals, n, root, s, x, i + 1, r);
    }
}

pub proof fn lemma_first_block_without(vals: Seq<Option<int>>, n: int, root: int, s: int, x: int, j: int, r: int)
    requires
        0 <= j <= r <= root,
        forall|t: int| j <= t < r ==> #[trigger] present(vals, unit(n, root, Unit::Block, s * root + t), x),
        r < root ==> !present(vals, unit(n, root, Unit::Block, s * root + r), x),
    ensures
        first_block_without(vals, n, root, s, x, j) == r,
    decreases r - j,
{
    if j < r {
        lemma_first_block_without(vals, n, root, s, x, j + 1, r);
    }
}

/// A stripe whose every row holds `x` counts all of its rows.
pub proof fn lemma_stripe_all_rows(vals: Seq<Option<int>>, n: int, root: int, s: int, x: int, m: nat)
    requires
        forall|t: int| 0 <= t < m ==> #[trigger] row_has(vals, n, root, s * root + t, x),
    ensures
        stripe_rows_with(vals, n, root, s, x, m) == m,
    decreases m,
{
    if m > 0 {
        lemma_stripe_all_rows(vals, n, root, s, x, (m - 1) as nat);
    }
}

} // verus!
