//! The validator: one pass over every row, column and block that marks each
//! cell repeating an earlier value of its unit.
use vstd::prelude::*;
use crate::cell::Highlight;
use crate::grid::Grid;
use crate::units::{Unit, unit, unit_addr, entries, repeated_at, consistent, flagged, lemma_unit_in_range, lemma_unit_addr_bounds};

verus! {

/// A vector of `n` cleared marks.
pub(crate) fn cleared(n: usize) -> (v: Vec<bool>)
    ensures
        v@.len() == n,
        forall|x: int| 0 <= x < n ==> !(#[trigger] v@[x]),
{
    let mut v: Vec<bool> = Vec::new();
    while v.len() < n
        invariant
            v@.len() <= n,
            forall|x: int| 0 <= x < v@.len() ==> !(#[trigger] v@[x]),
        decreases n - v@.len(),
    {
        v.push(false);
    }
    v
}

impl Grid {
    /// Scans unit `g` of family `kind` in order and marks each cell whose
    /// value an earlier cell of the unit holds. True when there is none.
    fn check_unit(&mut self, kind: Unit, g: usize) -> (ok: bool)
        requires
            old(self).wf(),
            old(self).is_square(),
            g < old(self).states_view(),
        ensures
            final(self).wf(),
            final(self).same_shape(old(self)),
            final(self).name_view() == old(self).name_view(),
            final(self).vals() == old(self).vals(),
            ok == forall|k: int| 0 <= k < old(self).states_view() ==>
                !#[trigger] repeated_at(old(self).vals(), unit(old(self).states_view(), old(self).root_view(), kind, g as int), k),
            forall|k: int| 0 <= k < old(self).states_view()
                && #[trigger] repeated_at(old(self).vals(), unit(old(self).states_view(), old(self).root_view(), kind, g as int), k)
                ==> final(self).cells_view()[unit_addr(old(self).states_view(), old(self).root_view(), kind, g as int, k)].highlight
                    == Highlight::Conflict,
            forall|a: int| 0 <= a < final(self).cells_view().len()
                && (#[trigger] final(self).cells_view()[a]).highlight != old(self).cells_view()[a].highlight
                ==> final(self).cells_view()[a].highlight == Highlight::Conflict
                    && flagged(old(self).vals(), old(self).states_view(), old(self).root_view(), a),
    {
        let n = self.states();
        let ghost vals = self.vals();
        let ghost root = self.root_view();
        let ghost u = unit(n as int, root, kind, g as int);
        proof {
            lemma_unit_in_range(n as int, root, kind, g as int);
        }
        let mut seen = cleared(n);
        let mut ok = true;
        let mut k: usize = 0;
        while k < n
            invariant
                self.wf(),
                self.is_square(),
                self.same_shape(old(self)),
                self.name_view() == old(self).name_view(),
                self.vals() == vals,
                vals == old(self).vals(),
                root == self.root_view(),
                n == self.states_view(),
                u == unit(n as int, root, kind, g as int),
                forall|j: int| 0 <= j < n ==> 0 <= #[trigger] u[j] < self.cells_view().len(),
                g < n,
                k <= n,
                seen@.len() == n,
                forall|x: int| 0 <= x < n ==> (#[trigger] seen@[x] <==> exists|j: int| 0 <= j < k && #[trigger] vals[u[j]] == Some(x)),
                ok == forall|j: int| 0 <= j < k ==> !#[trigger] repeated_at(vals, u, j),
                forall|j: int| 0 <= j < k && #[trigger] repeated_at(vals, u, j)
                    ==> self.cells_view()[u[j]].highlight == Highlight::Conflict,
                forall|a: int| 0 <= a < self.cells_view().len()
                    && (#[trigger] self.cells_view()[a]).highlight != old(self).cells_view()[a].highlight
                    ==> self.cells_view()[a].highlight == Highlight::Conflict
                        && flagged(vals, n as int, root, a),
            decreases n - k,
        {
            let a = self.addr(kind, g, k);
            let c = self.cell(a);
            assert(vals[u[k as int]] == if c.solved { Some(c.solution as int) } else { None });
            if c.solved {
                let sol = c.solution as usize;
                if seen[sol] {
                    let ghost j = choose|j: int| 0 <= j < k && #[trigger] vals[u[j]] == Some(sol as int);
                    assert(repeated_at(vals, u, k as int));
                    assert(flagged(vals, n as int, root, a as int));
                    let ghost before = self.cells_view();
                    self.mark_conflict(a);
                    assert(entries(self.cells_view()) =~= entries(before));
                    ok = false;
                } else {
                    assert(!repeated_at(vals, u, k as int));
                }
                seen.set(sol, true);
            } else {
                assert(!repeated_at(vals, u, k as int));
            }
            assert forall|x: int| 0 <= x < n implies (#[trigger] seen@[x] <==> exists|j: int| 0 <= j < k + 1 && #[trigger] vals[u[j]] == Some(x)) by {
                if seen@[x] && x != c.solution as int {
                    let j = choose|j: int| 0 <= j < k && #[trigger] vals[u[j]] == Some(x);
                }
                if (exists|j: int| 0 <= j < k + 1 && #[trigger] vals[u[j]] == Some(x)) && !(c.solved && x == c.solution as int) {
                    let j = choose|j: int| 0 <= j < k + 1 && #[trigger] vals[u[j]] == Some(x);
                    assert(j < k);
                }
            }
            k = k + 1;
        }
        ok
    }

    /// Checks every unit of family `kind`, in index order, without stopping
    /// at the first conflict.
    fn check_family(&mut self, kind: Unit) -> (ok: bool)
        requires
            old(self).wf(),
            old(self).is_square(),
        ensures
            final(self).wf(),
            final(self).same_shape(old(self)),
            final(self).name_view() == old(self).name_view(),
            final(self).vals() == old(self).vals(),
            ok == forall|g: int, k: int| 0 <= g < old(self).states_view() && 0 <= k < old(self).states_view() ==>
                !#[trigger] repeated_at(old(self).vals(), unit(old(self).states_view(), old(self).root_view(), kind, g), k),
            forall|g: int, k: int| 0 <= g < old(self).states_view() && 0 <= k < old(self).states_view()
                && #[trigger] repeated_at(old(self).vals(), unit(old(self).states_view(), old(self).root_view(), kind, g), k)
                ==> final(self).cells_view()[unit_addr(old(self).states_view(), old(self).root_view(), kind, g, k)].highlight
                    == Highlight::Conflict,
            forall|a: int| 0 <= a < final(self).cells_view().len()
                && (#[trigger] final(self).cells_view()[a]).highlight != old(self).cells_view()[a].highlight
                ==> final(self).cells_view()[a].highlight == Highlight::Conflict
                    && flagged(old(self).vals(), old(self).states_view(), old(self).root_view(), a),
    {
        let n = self.states();
        let ghost vals = self.vals();
        let ghost root = self.root_view();
        let mut ok = true;
        let mut g: usize = 0;
        while g < n
            invariant
                self.wf(),
                self.is_square(),
                self.same_shape(old(self)),
                self.name_view() == old(self).name_view(),
                self.vals() == vals,
                vals == old(self).vals(),
                root == self.root_view(),
                n == self.states_view(),
                g <= n,
                ok == forall|h: int, k: int| 0 <= h < g && 0 <= k < n ==>
                    !#[trigger] repeated_at(vals, unit(n as int, root, kind, h), k),
                forall|h: int, k: int| 0 <= h < g && 0 <= k < n
                    && #[trigger] repeated_at(vals, unit(n as int, root, kind, h), k)
                    ==> self.cells_view()[unit_addr(n as int, root, kind, h, k)].highlight == Highlight::Conflict,
                forall|a: int| 0 <= a < self.cells_view().len()
                    && (#[trigger] self.cells_view()[a]).highlight != old(self).cells_view()[a].highlight
                    ==> self.cells_view()[a].highlight == Highlight::Conflict
                        && flagged(vals, n as int, root, a),
            decreases n - g,
        {
            let ghost before = self.cells_view();
            proof {
                assert forall|h: int, k: int| 0 <= h < g && 0 <= k < n implies
                    0 <= #[trigger] unit_addr(n as int, root, kind, h, k) < before.len() by {
                    lemma_unit_addr_bounds(n as int, root, kind, h, k);
                }
            }
            let unit_ok = self.check_unit(kind, g);
            ok = ok && unit_ok;
            g = g + 1;
        }
        ok
    }

    /// Checks every row, then every column, then every block, and marks each
    /// cell that repeats a value held earlier in one of its units. The result
    /// is true exactly when no unit holds a value twice; values stay as they
    /// are, and only the marked cells change.
    pub fn validate(&mut self) -> (valid: bool)
        requires
            old(self).wf(),
            old(self).is_square(),
        ensures
            final(self).wf(),
            final(self).same_shape(old(self)),
            final(self).name_view() == old(self).name_view(),
            final(self).vals() == old(self).vals(),
            valid == consistent(old(self).vals(), old(self).states_view(), old(self).root_view()),
            forall|a: int| 0 <= a < final(self).cells_view().len() ==>
                (#[trigger] final(self).cells_view()[a]).highlight ==
                    if flagged(old(self).vals(), old(self).states_view(), old(self).root_view(), a) {
                        Highlight::Conflict
                    } else {
                        old(self).cells_view()[a].highlight
                    },
    {
        let ghost vals = self.vals();
        let ghost n = self.states_view();
        let ghost root = self.root_view();
        let ghost c0 = self.cells_view();
        let rows = self.check_family(Unit::Row);
        let ghost c1 = self.cells_view();
        let cols = self.check_family(Unit::Column);
        let ghost c2 = self.cells_view();
        let blocks = self.check_family(Unit::Block);
        let ghost c3 = self.cells_view();
        assert forall|a: int| 0 <= a < c3.len() implies
            (#[trigger] c3[a]).highlight == if flagged(vals, n, root, a) { Highlight::Conflict } else { c0[a].highlight } by {
            if flagged(vals, n, root, a) {
                let (kind, g, k) = choose|kind: Unit, g: int, k: int|
                    0 <= g < n && 0 <= k < n && unit_addr(n, root, kind, g, k) == a
                        && #[trigger] repeated_at(vals, unit(n, root, kind, g), k);
                assert(c1[a].highlight != c0[a].highlight ==> c1[a].highlight == Highlight::Conflict);
                assert(c2[a].highlight != c1[a].highlight ==> c2[a].highlight == Highlight::Conflict);
                assert(c3[a].highlight != c2[a].highlight ==> c3[a].highlight == Highlight::Conflict);
                match kind {
                    Unit::Row => assert(c1[a].highlight == Highlight::Conflict),
                    Unit::Column => assert(c2[a].highlight == Highlight::Conflict),
                    Unit::Block => assert(c3[a].highlight == Highlight::Conflict),
                }
            } else {
                assert(c1[a].highlight == c0[a].highlight);
                assert(c2[a].highlight == c1[a].highlight);
                assert(c3[a].highlight == c2[a].highlight);
            }
        }
        let valid = rows && cols && blocks;
        assert(valid == consistent(vals, n, root)) by {
            if !consistent(vals, n, root) {
                let (kind, g, k) = choose|kind: Unit, g: int, k: int|
                    0 <= g < n && 0 <= k < n && #[trigger] repeated_at(vals, unit(n, root, kind, g), k);
                match kind {
                    Unit::Row => assert(!rows),
                    Unit::Column => assert(!cols),
                    Unit::Block => assert(!blocks),
                }
            }
        }
        valid
    }
}

} // verus!
