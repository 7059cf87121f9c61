//! The deduction engine: each step completes one row, column or block that
//! lacks a single value.
use vstd::prelude::*;
use crate::cell::{Cell, Highlight};
use crate::grid::Grid;
use crate::units::{
    Unit, unit, present, value_count, consistent, first_unsolved_from, first_absent_from, completable,
    first_completable, claim_in, family_claim, deduction, lemma_unit_in_range, lemma_first_unsolved,
    lemma_first_absent, lemma_first_completable, lemma_all_present, lemma_first_absent_below,
    row_has, stripe_rows_with, first_row_without, first_block_without, stripe_forced,
    lemma_first_row_without, lemma_first_block_without, lemma_stripe_all_rows,
};
use crate::validate::cleared;

verus! {

/// The number of values of `0..x` marked in `seen`.
fn count_marked(seen: &Vec<bool>, Ghost(vals): Ghost<Seq<Option<int>>>, Ghost(u): Ghost<Seq<int>>) -> (r: usize)
    requires
        seen@.len() <= 255,
        forall|x: int| 0 <= x < seen@.len() ==> (#[trigger] seen@[x] <==> present(vals, u, x)),
    ensures
        r == value_count(vals, u, seen@.len()),
        r <= seen@.len(),
{
    let mut cnt: usize = 0;
    let mut x: usize = 0;
    while x < seen.len()
        invariant
            x <= seen@.len() <= 255,
            cnt <= x,
            cnt == value_count(vals, u, x as nat),
            forall|y: int| 0 <= y < seen@.len() ==> (#[trigger] seen@[y] <==> present(vals, u, y)),
        decreases seen@.len() - x,
    {
        if seen[x] {
            cnt = cnt + 1;
        }
        x = x + 1;
    }
    cnt
}

/// The first value not marked in `seen`, or its length.
fn first_unmarked(seen: &Vec<bool>, Ghost(vals): Ghost<Seq<Option<int>>>, Ghost(u): Ghost<Seq<int>>) -> (r: usize)
    requires
        forall|x: int| 0 <= x < seen@.len() ==> (#[trigger] seen@[x] <==> present(vals, u, x)),
    ensures
        r as int == first_absent_from(vals, u, 0, seen@.len() as int),
{
    let mut x: usize = 0;
    while x < seen.len()
        invariant
            x <= seen@.len(),
            forall|y: int| 0 <= y < x ==> #[trigger] seen@[y],
            forall|y: int| 0 <= y < seen@.len() ==> (#[trigger] seen@[y] <==> present(vals, u, y)),
        decreases seen@.len() - x,
    {
        if !seen[x] {
            proof {
                assert forall|y: int| 0 <= y < x implies #[trigger] present(vals, u, y) by {
                    assert(seen@[y]);
                }
                lemma_first_absent(vals, u, 0, x as int, seen@.len() as int);
            }
            return x;
        }
        x = x + 1;
    }
    proof {
        assert forall|y: int| 0 <= y < x implies #[trigger] present(vals, u, y) by {
            assert(seen@[y]);
        }
        lemma_first_absent(vals, u, 0, x as int, seen@.len() as int);
    }
    x
}

/// Where the stripe rule places a value: in row `row`, inside the block at
/// block column `block` of the row's stripe.
#[derive(Clone, Copy, Debug, PartialEq, Eq, Structural)]
pub struct StripeHint {
    pub row: usize,
    pub block: usize,
}

impl Grid {
    /// Which values unit `g` of family `kind` holds.
    fn occupancy(&self, kind: Unit, g: usize) -> (seen: Vec<bool>)
        requires
            self.wf(),
            self.is_square(),
            g < self.states_view(),
        ensures
            seen@.len() == self.states_view(),
            forall|x: int| 0 <= x < self.states_view() ==>
                (#[trigger] seen@[x] <==> present(self.vals(), unit(self.states_view(), self.root_view(), kind, g as int), x)),
    {
        let n = self.states();
        let ghost vals = self.vals();
        let ghost u = unit(n as int, self.root_view(), kind, g as int);
        proof {
            lemma_unit_in_range(n as int, self.root_view(), kind, g as int);
        }
        let mut seen = cleared(n);
        let mut k: usize = 0;
        while k < n
            invariant
                self.wf(),
                self.is_square(),
                vals == self.vals(),
                n == self.states_view(),
                u == unit(n as int, self.root_view(), kind, g as int),
                forall|j: int| 0 <= j < n ==> 0 <= #[trigger] u[j] < self.cells_view().len(),
                g < n,
                k <= n,
                seen@.len() == n,
                forall|x: int| 0 <= x < n ==> (#[trigger] seen@[x] <==> exists|j: int| 0 <= j < k && #[trigger] vals[u[j]] == Some(x)),
            decreases n - k,
        {
            let a = self.addr(kind, g, k);
            let c = self.cell(a);
            assert(vals[u[k as int]] == if c.solved { Some(c.solution as int) } else { None });
            if c.solved {
                seen.set(c.solution as usize, true);
            }
            assert forall|x: int| 0 <= x < n implies (#[trigger] seen@[x] <==> exists|j: int| 0 <= j < k + 1 && #[trigger] vals[u[j]] == Some(x)) by {
                if seen@[x] && !(c.solved && x == c.solution as int) {
                    let j = choose|j: int| 0 <= j < k && #[trigger] vals[u[j]] == Some(x);
                }
                if (exists|j: int| 0 <= j < k + 1 && #[trigger] vals[u[j]] == Some(x)) && !(c.solved && x == c.solution as int) {
                    let j = choose|j: int| 0 <= j < k + 1 && #[trigger] vals[u[j]] == Some(x);
                    assert(j < k);
                }
            }
            k = k + 1;
        }
        seen
    }

    /// The position of the first unsolved cell of unit `g` of family `kind`,
    /// or the number of states when every cell is solved.
    fn first_open(&self, kind: Unit, g: usize) -> (r: usize)
        requires
            self.wf(),
            self.is_square(),
            g < self.states_view(),
        ensures
            r as int == first_unsolved_from(self.vals(), unit(self.states_view(), self.root_view(), kind, g as int), 0),
            r <= self.states_view(),
            r < self.states_view() ==> self.vals()[unit(self.states_view(), self.root_view(), kind, g as int)[r as int]].is_none(),
    {
        let n = self.states();
        let ghost vals = self.vals();
        let ghost u = unit(n as int, self.root_view(), kind, g as int);
        proof {
            lemma_unit_in_range(n as int, self.root_view(), kind, g as int);
        }
        let mut k: usize = 0;
        while k < n
            invariant
                self.wf(),
                self.is_square(),
                vals == self.vals(),
                n == self.states_view(),
                u == unit(n as int, self.root_view(), kind, g as int),
                forall|j: int| 0 <= j < n ==> 0 <= #[trigger] u[j] < self.cells_view().len(),
                g < n,
                k <= n,
                forall|j: int| 0 <= j < k ==> (#[trigger] vals[u[j]]).is_some(),
            decreases n - k,
        {
            let a = self.addr(kind, g, k);
            assert(vals[u[k as int]] == if self.cells_view()[a as int].solved {
                Some(self.cells_view()[a as int].solution as int)
            } else {
                None
            });
            if !self.cell(a).solved {
                proof {
                    lemma_first_unsolved(vals, u, 0, k as int);
                }
                return k;
            }
            k = k + 1;
        }
        proof {
            lemma_first_unsolved(vals, u, 0, k as int);
        }
        k
    }

    /// The claim that completes the first completable unit of family `kind`:
    /// the address of its first unsolved cell and the smallest value it lacks.
    fn find_completion(&self, kind: Unit) -> (r: Option<(usize, u8)>)
        requires
            self.wf(),
            self.is_square(),
        ensures
            r is Some <==> family_claim(self.vals(), self.states_view(), self.root_view(), kind) is Some,
            r is Some ==> (r.unwrap().0 as int, r.unwrap().1 as int)
                == family_claim(self.vals(), self.states_view(), self.root_view(), kind).unwrap(),
            r is Some ==> r.unwrap().0 < self.cells_view().len(),
            r is Some ==> !self.cells_view()[r.unwrap().0 as int].solved,
            r is Some ==> r.unwrap().1 < self.states_view(),
    {
        let n = self.states();
        let ghost vals = self.vals();
        let ghost root = self.root_view();
        let mut g: usize = 0;
        while g < n
            invariant
                self.wf(),
                self.is_square(),
                vals == self.vals(),
                root == self.root_view(),
                n == self.states_view(),
                g <= n,
                forall|h: int| 0 <= h < g ==> !#[trigger] completable(vals, unit(n as int, root, kind, h), n as int),
            decreases n - g,
        {
            let ghost u = unit(n as int, root, kind, g as int);
            let seen = self.occupancy(kind, g);
            let used = count_marked(&seen, Ghost(vals), Ghost(u));
            if used + 1 == n {
                let pos = self.first_open(kind, g);
                if pos < n {
                    let missed = first_unmarked(&seen, Ghost(vals), Ghost(u));
                    proof {
                        assert(completable(vals, u, n as int));
                        lemma_first_completable(vals, n as int, root, kind, 0, g as int);
                        if missed >= n {
                            assert forall|x: int| 0 <= x < n implies #[trigger] present(vals, u, x) by {
                                if !present(vals, u, x) {
                                    lemma_first_absent_below(vals, u, 0, x, n as int);
                                }
                            }
                            lemma_all_present(vals, u, n as nat);
                        }
                        lemma_unit_in_range(n as int, root, kind, g as int);
                    }
                    let a = self.addr(kind, g, pos);
                    assert(vals[a as int].is_none());
                    assert(!self.cells_view()[a as int].solved);
                    return Some((a, missed as u8));
                }
            }
            g = g + 1;
        }
        proof {
            lemma_first_completable(vals, n as int, root, kind, 0, g as int);
        }
        None
    }

    /// One deduction step. Completes the first row, else column, else block
    /// (each family scanned in index order) that holds all values but one
    /// and has an unsolved cell: its first unsolved cell is claimed with the
    /// value it lacks. Returns the number of cells changed, 1 or 0; with 0
    /// the grid is unchanged. The grid must hold no repeated value in any
    /// unit: a repeat is an integrity error that callers rule out first.
    pub fn solve_next(&mut self) -> (added: u8)
        requires
            old(self).wf(),
            old(self).is_square(),
            consistent(old(self).vals(), old(self).states_view(), old(self).root_view()),
        ensures
            final(self).wf(),
            final(self).same_shape(old(self)),
            final(self).name_view() == old(self).name_view(),
            match deduction(old(self).vals(), old(self).states_view(), old(self).root_view()) {
                Some((a, x)) => added == 1 && final(self).cells_view() == old(self).cells_view().update(
                    a,
                    Cell { solved: true, solution: x as u8, highlight: Highlight::Claimed },
                ),
                None => added == 0 && final(self).cells_view() == old(self).cells_view(),
            },
    {
        let mut found = self.find_completion(Unit::Row);
        if found.is_none() {
            found = self.find_completion(Unit::Column);
        }
        if found.is_none() {
            found = self.find_completion(Unit::Block);
        }
        match found {
            Some((a, missed)) => {
                self.claim_a(a, missed);
                1
            },
            None => 0,
        }
    }

    /// Unit `g` of family `kind` holds `value`.
    fn unit_holds(&self, kind: Unit, g: usize, value: u8) -> (r: bool)
        requires
            self.wf(),
            self.is_square(),
            g < self.states_view(),
            value < self.states_view(),
        ensures
            r == present(self.vals(), unit(self.states_view(), self.root_view(), kind, g as int), value as int),
    {
        let seen = self.occupancy(kind, g);
        seen[value as usize]
    }

    /// The first block column of stripe `stripe` whose block lacks `value`,
    /// or the block size.
    fn first_block_lacking(&self, stripe: usize, value: u8) -> (j: usize)
        requires
            self.wf(),
            self.is_square(),
            stripe < self.root_view(),
            value < self.states_view(),
        ensures
            j as int == first_block_without(self.vals(), self.states_view(), self.root_view(), stripe as int, value as int, 0),
            j <= self.root_view(),
    {
        let n = self.states();
        let root = self.block_size();
        let ghost vals = self.vals();
        assert(stripe * root + root <= n) by (nonlinear_arith)
            requires stripe < root, n == root * root;
        let mut j: usize = 0;
        while j < root
            invariant
                self.wf(),
                self.is_square(),
                vals == self.vals(),
                n == self.states_view(),
                root == self.root_view(),
                value < n,
                stripe * root + root <= n,
                j <= root,
                forall|t: int| 0 <= t < j ==> #[trigger] present(vals, unit(n as int, root as int, Unit::Block, stripe * root + t), value as int),
            decreases root - j,
        {
            if !self.unit_holds(Unit::Block, stripe * root + j, value) {
                proof {
                    lemma_first_block_without(vals, n as int, root as int, stripe as int, value as int, 0, j as int);
                }
                return j;
            }
            j = j + 1;
        }
        proof {
            lemma_first_block_without(vals, n as int, root as int, stripe as int, value as int, 0, j as int);
        }
        j
    }

    /// The first row offset in stripe `stripe` whose row lacks `value`, or
    /// the block size.
    fn first_row_lacking(&self, stripe: usize, value: u8) -> (k: usize)
        requires
            self.wf(),
            self.is_square(),
            stripe < self.root_view(),
            value < self.states_view(),
        ensures
            k as int == first_row_without(self.vals(), self.states_view(), self.root_view(), stripe as int, value as int, 0),
            k <= self.root_view(),
            k == self.root_view() ==> forall|t: int| 0 <= t < self.root_view() ==>
                #[trigger] row_has(self.vals(), self.states_view(), self.root_view(), stripe * self.root_view() + t, value as int),
    {
        let n = self.states();
        let root = self.block_size();
        let ghost vals = self.vals();
        assert(stripe * root + root <= n) by (nonlinear_arith)
            requires stripe < root, n == root * root;
        let mut k: usize = 0;
        while k < root
            invariant
                self.wf(),
                self.is_square(),
                vals == self.vals(),
                n == self.states_view(),
                root == self.root_view(),
                value < n,
                stripe * root + root <= n,
                k <= root,
                forall|t: int| 0 <= t < k ==> #[trigger] row_has(vals, n as int, root as int, stripe * root + t, value as int),
            decreases root - k,
        {
            if !self.unit_holds(Unit::Row, stripe * root + k, value) {
                proof {
                    lemma_first_row_without(vals, n as int, root as int, stripe as int, value as int, 0, k as int);
                }
                return k;
            }
            k = k + 1;
        }
        proof {
            lemma_first_row_without(vals, n as int, root as int, stripe as int, value as int, 0, k as int);
        }
        k
    }

    /// The stripe rule for stripe `stripe` (the rows that cross blocks
    /// `stripe * block_size ..`) and value `value`: when all rows of the
    /// stripe but one hold the value, that row must take it, and the first
    /// block of the stripe that lacks it is where. `None` when fewer or more
    /// rows hold it, or no block of the stripe lacks it. The deduction step
    /// does not claim from this rule: it is reported, not applied.
    pub fn stripe_hint(&self, stripe: usize, value: u8) -> (r: Option<StripeHint>)
        requires
            self.wf(),
            self.is_square(),
            stripe < self.root_view(),
            value < self.states_view(),
        ensures
            match stripe_forced(self.vals(), self.states_view(), self.root_view(), stripe as int, value as int) {
                Some((row, block)) => r == Some(StripeHint { row: row as usize, block: block as usize }),
                None => r is None,
            },
    {
        let n = self.states();
        let root = self.block_size();
        let ghost vals = self.vals();
        let ghost x = value as int;
        let ghost si = stripe as int;
        assert(stripe * root + root <= n) by (nonlinear_arith)
            requires stripe < root, n == root * root;
        let base = stripe * root;
        let mut count: usize = 0;
        let mut i: usize = 0;
        while i < root
            invariant
                self.wf(),
                self.is_square(),
                vals == self.vals(),
                n == self.states_view(),
                root == self.root_view(),
                value < n,
                base == stripe * root,
                base + root <= n,
                i <= root,
                count <= i,
                si == stripe as int,
                x == value as int,
                count == stripe_rows_with(vals, n as int, root as int, si, x, i as nat),
            decreases root - i,
        {
            let has = self.unit_holds(Unit::Row, base + i, value);
            assert(row_has(vals, n as int, root as int, si * root + i, x) == has);
            assert(stripe_rows_with(vals, n as int, root as int, si, x, (i + 1) as nat)
                == stripe_rows_with(vals, n as int, root as int, si, x, i as nat) + if has { 1nat } else { 0nat });
            if has {
                count = count + 1;
            }
            i = i + 1;
        }
        if count + 1 != root {
            return None;
        }
        let j = self.first_block_lacking(stripe, value);
        if j == root {
            return None;
        }
        let k = self.first_row_lacking(stripe, value);
        proof {
            if k == root {
                lemma_stripe_all_rows(vals, n as int, root as int, si, x, root as nat);
            }
            assert(stripe_forced(vals, n as int, root as int, si, x) == Some(((base + k) as int, j as int)));
        }
        Some(StripeHint { row: base + k, block: j })
    }
}

} // verus!
