//! The puzzle grid: construction, bulk load, single-cell claims and queries.
use vstd::prelude::*;
use crate::cell::{Cell, Highlight};
use crate::units::{Unit, unit_addr, entries, square, lemma_unit_addr_bounds};
use vstd::arithmetic::div_mod::{lemma_fundamental_div_mod, lemma_mod_pos_bound};

verus! {

/// Largest alphabet: values are 1-indexed bytes on load.
pub const MAX_STATES: usize = 255;

/// Coarse classification of a grid, fixed at construction.
#[derive(Clone, Copy, Debug, PartialEq, Eq, Structural)]
pub enum GridStatus {
    Solved,
    Incomplete,
    Invalid,
    Unsolvable,
    Empty,
    NotSquare,
}

/// Why a bulk load was refused.
#[derive(Clone, Copy, Debug, PartialEq, Eq, Structural)]
pub enum LoadError {
    /// The assignment vector does not hold one entry per cell.
    WrongLength { expected: usize, found: usize },
}

/// A square grid of `states * states` cells over an alphabet of `states`
/// symbols, with blocks `block_size` wide.
pub struct Grid {
    name: String,
    state_dict: String,
    status: GridStatus,
    states: usize,
    isqrt: usize,
    size: usize,
    cells: Vec<Cell>,
}

/// The cells after loading `arr`: a non-zero entry solves its cell with the
/// entry less one, a zero leaves the cell as it was.
pub open spec fn loaded(cells: Seq<Cell>, arr: Seq<u8>) -> Seq<Cell> {
    Seq::new(
        cells.len(),
        |i: int|
            if arr[i] > 0 {
                Cell { solved: true, solution: (arr[i] - 1) as u8, highlight: cells[i].highlight }
            } else {
                cells[i]
            },
    )
}

/// How many entries of `arr` are non-zero.
pub open spec fn nonzero_count(arr: Seq<u8>) -> nat
    decreases arr.len(),
{
    if arr.len() == 0 {
        0
    } else {
        nonzero_count(arr.drop_last()) + if arr.last() > 0 { 1nat } else { 0nat }
    }
}

/// How many of `cells` are solved.
pub open spec fn solved_cells_of(cells: Seq<Cell>) -> nat
    decreases cells.len(),
{
    if cells.len() == 0 {
        0
    } else {
        solved_cells_of(cells.drop_last()) + if cells.last().solved { 1nat } else { 0nat }
    }
}

/// `r` is the integer square root of `n`.
pub open spec fn is_int_root(r: int, n: int) -> bool {
    0 <= r && r * r <= n < (r + 1) * (r + 1)
}

/// The largest `r` with `r * r <= n`.
fn int_root(n: usize) -> (r: usize)
    requires
        n <= MAX_STATES,
    ensures
        is_int_root(r as int, n as int),
{
    let mut r: usize = 0;
    while (r + 1) * (r + 1) <= n
        invariant
            r * r <= n <= MAX_STATES,
            r <= 15,
            (r + 1) * (r + 1) <= 256,
        decreases 16 - r,
    {
        assert(r + 1 <= 15) by (nonlinear_arith)
            requires (r + 1) * (r + 1) <= n, n <= 255;
        r = r + 1;
        assert((r + 1) * (r + 1) <= 256) by (nonlinear_arith)
            requires r <= 15;
    }
    r
}

impl Grid {
    pub closed spec fn cells_view(&self) -> Seq<Cell> {
        self.cells@
    }

    pub closed spec fn states_view(&self) -> int {
        self.states as int
    }

    pub closed spec fn root_view(&self) -> int {
        self.isqrt as int
    }

    pub closed spec fn status_view(&self) -> GridStatus {
        self.status
    }

    pub closed spec fn name_view(&self) -> Seq<char> {
        self.name@
    }

    pub closed spec fn alphabet_view(&self) -> Seq<char> {
        self.state_dict@
    }

    pub closed spec fn fields_agree(&self) -> bool {
        self.size == self.states * self.states
    }

    /// The grid's entries as the solving logic sees them.
    pub open spec fn vals(&self) -> Seq<Option<int>> {
        entries(self.cells_view())
    }

    /// The blocks tile the grid.
    pub open spec fn is_square(&self) -> bool {
        square(self.states_view(), self.root_view())
    }

    pub open spec fn wf(&self) -> bool {
        &&& self.fields_agree()
        &&& self.states_view() <= MAX_STATES
        &&& is_int_root(self.root_view(), self.states_view())
        &&& self.cells_view().len() == self.states_view() * self.states_view()
        &&& self.status_view() == GridStatus::NotSquare <==> !self.is_square()
        &&& forall|a: int|
            0 <= a < self.cells_view().len() && (#[trigger] self.cells_view()[a]).solved
                ==> self.cells_view()[a].solution < self.states_view()
    }

    /// Fields that no operation after construction changes.
    pub open spec fn same_shape(&self, other: &Grid) -> bool {
        &&& self.states_view() == other.states_view()
        &&& self.root_view() == other.root_view()
        &&& self.status_view() == other.status_view()
        &&& self.alphabet_view() == other.alphabet_view()
    }

    /// An empty grid over the alphabet `states`, one symbol per state. Its
    /// status is `NotSquare` when the number of states has no integer square
    /// root, else `Empty`.
    pub fn new(states: &str) -> (g: Grid)
        requires
            states@.len() <= MAX_STATES,
        ensures
            g.wf(),
            g.states_view() == states@.len(),
            is_int_root(g.root_view(), g.states_view()),
            g.status_view() == if g.is_square() { GridStatus::Empty } else { GridStatus::NotSquare },
            g.cells_view() == Seq::new((g.states_view() * g.states_view()) as nat, |i: int| Cell::blank()),
            g.name_view() == "Empty grid for "@ + states@,
            g.alphabet_view() == states@,
    {
        let nstates = states.unicode_len();
        let root = int_root(nstates);
        let status = if root * root != nstates { GridStatus::NotSquare } else { GridStatus::Empty };
        assert(nstates * nstates <= 65025) by (nonlinear_arith)
            requires nstates <= 255;
        let size = nstates * nstates;
        let mut cells: Vec<Cell> = Vec::new();
        while cells.len() < size
            invariant
                cells.len() <= size,
                forall|i: int| 0 <= i < cells.len() ==> cells@[i] == Cell::blank(),
            decreases size - cells.len(),
        {
            cells.push(Cell::empty());
        }
        proof {
            reveal_strlit("Empty grid for ");
        }
        let name = String::from_str("Empty grid for ").concat(states);
        let g = Grid {
            name,
            state_dict: String::from_str(states),
            status,
            states: nstates,
            isqrt: root,
            size,
            cells,
        };
        assert(g.cells_view() =~= Seq::new((g.states_view() * g.states_view()) as nat, |i: int| Cell::blank()));
        g
    }

    /// The grid is an initialised empty grid.
    pub fn isempty(&self) -> (r: bool)
        ensures
            r == (self.status_view() == GridStatus::Empty),
    {
        self.status == GridStatus::Empty
    }

    pub fn states(&self) -> (r: usize)
        ensures
            r == self.states_view(),
    {
        self.states
    }

    pub fn block_size(&self) -> (r: usize)
        ensures
            r == self.root_view(),
    {
        self.isqrt
    }

    pub fn size(&self) -> (r: usize)
        requires
            self.wf(),
        ensures
            r == self.cells_view().len(),
    {
        self.size
    }

    pub fn status(&self) -> (r: GridStatus)
        ensures
            r == self.status_view(),
    {
        self.status
    }

    pub fn name(&self) -> (r: &String)
        ensures
            r@ == self.name_view(),
    {
        &self.name
    }

    pub fn alphabet(&self) -> (r: &String)
        ensures
            r@ == self.alphabet_view(),
    {
        &self.state_dict
    }

    pub fn cell(&self, address: usize) -> (c: Cell)
        requires
            address < self.cells_view().len(),
        ensures
            c == self.cells_view()[address as int],
    {
        self.cells[address]
    }

    /// The number of solved cells.
    pub fn solved_cells(&self) -> (r: u32)
        requires
            self.wf(),
        ensures
            r == solved_cells_of(self.cells_view()),
    {
        let mut used: u32 = 0;
        let mut i: usize = 0;
        assert(self.cells@.len() <= 65025) by (nonlinear_arith)
            requires self.cells@.len() == self.states * self.states, self.states <= 255;
        while i < self.cells.len()
            invariant
                self.wf(),
                self.cells@.len() <= 65025,
                i <= self.cells@.len(),
                used == solved_cells_of(self.cells@.take(i as int)),
                used <= i,
            decreases self.cells@.len() - i,
        {
            assert(self.cells@.take(i + 1).drop_last() =~= self.cells@.take(i as int));
            if self.cells[i].solved {
                used = used + 1;
            }
            i = i + 1;
        }
        assert(self.cells@.take(i as int) =~= self.cells@);
        used
    }
}


impl Grid {
    /// The address of position `k` of unit `g` of family `kind`.
    pub fn addr(&self, kind: Unit, g: usize, k: usize) -> (a: usize)
        requires
            self.wf(),
            self.is_square(),
            g < self.states_view(),
            k < self.states_view(),
        ensures
            a == unit_addr(self.states_view(), self.root_view(), kind, g as int, k as int),
            a < self.cells_view().len(),
    {
        let n = self.states;
        let root = self.isqrt;
        proof {
            lemma_unit_addr_bounds(n as int, root as int, kind, g as int, k as int);
            assert(n * n <= 65025) by (nonlinear_arith)
                requires n <= 255;
        }
        match kind {
            Unit::Row => g * n + k,
            Unit::Column => k * n + g,
            Unit::Block => {
                let gx = (g % root) * root;
                let q = g / root;
                proof {
                    lemma_fundamental_div_mod(g as int, root as int);
                    lemma_mod_pos_bound(g as int, root as int);
                    assert(q * root <= g) by (nonlinear_arith)
                        requires g == root * q + g % root, g % root >= 0;
                    assert(q * root * n <= n * n) by (nonlinear_arith)
                        requires q * root <= g, g < n, q >= 0, root > 0;
                }
                let gy = q * root * n;
                let kx = k % root;
                let ky = (k / root) * n;
                assert(0 <= gx && 0 <= gy && 0 <= ky) by (nonlinear_arith)
                    requires gx == (g % root) * root, gy == (g / root) * root * n,
                        ky == (k / root) * n, root > 0, g >= 0, k >= 0, n >= 0;
                gx + gy + kx + ky
            },
        }
    }

    /// Solves the unsolved cell at `address` with value `sol` and marks it
    /// as claimed. Claiming a solved cell is an integrity error: it is
    /// excluded by the precondition.
    pub fn claim_a(&mut self, address: usize, sol: u8)
        requires
            old(self).wf(),
            address < old(self).cells_view().len(),
            !old(self).cells_view()[address as int].solved,
            sol < old(self).states_view(),
        ensures
            final(self).wf(),
            final(self).same_shape(old(self)),
            final(self).name_view() == old(self).name_view(),
            final(self).cells_view() == old(self).cells_view().update(
                address as int,
                Cell { solved: true, solution: sol, highlight: Highlight::Claimed },
            ),
    {
        let c = Cell { solved: true, solution: sol, highlight: Highlight::Claimed };
        self.cells.set(address, c);
    }

    /// Claims the cell at row `row`, column `col`.
    pub fn claim_rc(&mut self, row: usize, col: usize, sol: u8)
        requires
            old(self).wf(),
            row < old(self).states_view(),
            col < old(self).states_view(),
            !old(self).cells_view()[row * old(self).states_view() + col].solved,
            sol < old(self).states_view(),
        ensures
            final(self).wf(),
            final(self).same_shape(old(self)),
            final(self).name_view() == old(self).name_view(),
            final(self).cells_view() == old(self).cells_view().update(
                row * old(self).states_view() + col,
                Cell { solved: true, solution: sol, highlight: Highlight::Claimed },
            ),
    {
        proof {
            assert(row * self.states + col < self.states * self.states) by (nonlinear_arith)
                requires row < self.states, col < self.states;
            assert(self.states * self.states <= 65025) by (nonlinear_arith)
                requires self.states <= 255;
        }
        let address = row * self.states + col;
        self.claim_a(address, sol);
    }

    /// Marks the cell at `address` as part of a conflict; its value stays.
    pub fn mark_conflict(&mut self, address: usize)
        requires
            old(self).wf(),
            address < old(self).cells_view().len(),
        ensures
            final(self).wf(),
            final(self).same_shape(old(self)),
            final(self).name_view() == old(self).name_view(),
            final(self).cells_view() == old(self).cells_view().update(
                address as int,
                Cell { highlight: Highlight::Conflict, ..old(self).cells_view()[address as int] },
            ),
    {
        let mut c = self.cells[address];
        c.highlight = Highlight::Conflict;
        self.cells.set(address, c);
    }

    /// Loads the assignment `arr`, one entry per cell in address order: 0
    /// leaves a cell as it is, `v > 0` solves it with value `v - 1`. The
    /// grid takes the name `title` whatever the outcome. A vector of the
    /// wrong length is refused and leaves the cells untouched; otherwise the
    /// result is the number of solved entries.
    pub fn bodge(&mut self, title: String, arr: Vec<u8>) -> (r: Result<u32, LoadError>)
        requires
            old(self).wf(),
            forall|i: int| 0 <= i < arr@.len() ==> arr@[i] <= old(self).states_view(),
        ensures
            final(self).wf(),
            final(self).same_shape(old(self)),
            final(self).name_view() == title@,
            r is Err <==> arr@.len() != old(self).cells_view().len(),
            r is Err ==> r == Err::<u32, LoadError>(LoadError::WrongLength {
                expected: old(self).cells_view().len() as usize,
                found: arr@.len() as usize,
            }),
            r is Err ==> final(self).cells_view() == old(self).cells_view(),
            r is Ok ==> r == Ok::<u32, LoadError>(nonzero_count(arr@) as u32),
            r is Ok ==> final(self).cells_view() == loaded(old(self).cells_view(), arr@),
    {
        self.name = title;
        if self.size != arr.len() {
            return Err(LoadError::WrongLength { expected: self.size, found: arr.len() });
        }
        let ghost start = self.cells@;
        let mut used: u32 = 0;
        let mut i: usize = 0;
        assert(self.cells@.len() <= 65025) by (nonlinear_arith)
            requires self.cells@.len() == self.states * self.states, self.states <= 255;
        while i < arr.len()
            invariant
                self.wf(),
                self.same_shape(old(self)),
                self.name@ == title@,
                start == old(self).cells_view(),
                start.len() == arr@.len(),
                arr@.len() == self.cells@.len(),
                self.cells@.len() <= 65025,
                forall|j: int| 0 <= j < arr@.len() ==> arr@[j] <= self.states,
                i <= arr@.len(),
                used <= i,
                used == nonzero_count(arr@.take(i as int)),
                forall|j: int| 0 <= j < i ==> self.cells@[j] == loaded(start, arr@)[j],
                forall|j: int| i <= j < arr@.len() ==> self.cells@[j] == start[j],
            decreases arr@.len() - i,
        {
            assert(arr@.take(i + 1).drop_last() =~= arr@.take(i as int));
            if arr[i] > 0 {
                let mut c = self.cells[i];
                c.solved = true;
                c.solution = arr[i] - 1;
                self.cells.set(i, c);
                used = used + 1;
            }
            i = i + 1;
        }
        assert(arr@.take(i as int) =~= arr@);
        assert(self.cells@ =~= loaded(start, arr@));
        Ok(used)
    }
}

} // verus!
