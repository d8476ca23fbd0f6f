//! The toroidal grid and the alternating-phase stepping state machine.
//!
//! A grid holds a row-major array of cell states, its even dimensions, and
//! the partition phase. Coordinates wrap in both axes, so every coordinate
//! pair is valid. A forward step transforms every 2x2 block of the active
//! partition through the rule set's table for that phase and flips the
//! phase; a backward step applies the inverse table at the offset of the
//! step it undoes, so the two are exact inverses.

use vstd::prelude::*;
use crate::codec::{
    CellState, block_code, cell_bl, cell_br, cell_tl, cell_tr, lemma_code_of_decode,
    lemma_decode_of_code,
};
use crate::rules::Rules;
use vstd::arithmetic::div_mod::{
    lemma_add_mod_noop, lemma_div_pos_is_pos, lemma_fundamental_div_mod,
    lemma_fundamental_div_mod_converse, lemma_mod_bound, lemma_mod_multiples_vanish,
    lemma_small_mod,
};

verus! {

/// The mathematical content of a grid: the cell values in row-major order,
/// the dimensions, and the partition phase (`false` is the even phase).
#[verifier::ext_equal]
pub ghost struct GridView {
    pub cells: Seq<u8>,
    pub width: int,
    pub height: int,
    pub phase: bool,
}

/// A grid is well formed under a rule set when its dimensions are even and
/// at least 2, the array covers exactly the grid, and every stored cell is
/// a valid state of the rule set's alphabet.
pub open spec fn grid_wf(g: GridView, r: Rules) -> bool {
    &&& r.wf()
    &&& g.width >= 2 && g.width % 2 == 0
    &&& g.height >= 2 && g.height % 2 == 0
    &&& g.cells.len() == g.width * g.height
    &&& forall|i: int| 0 <= i < g.cells.len() ==> (#[trigger] g.cells[i] as nat) < r.n()
}

/// The cell of `cells` at toroidal coordinates `(x, y)`: both coordinates
/// are reduced modulo the grid dimensions before the row-major lookup.
pub open spec fn torus_cell(cells: Seq<u8>, w: int, h: int, x: int, y: int) -> u8
    recommends
        w > 0,
        h > 0,
        cells.len() == w * h,
{
    cells[(x % w) + (y % h) * w]
}

/// The block index of the 2x2 block whose top-left corner is at toroidal
/// coordinates `(bx, by)`.
pub open spec fn block_code_at(cells: Seq<u8>, w: int, h: int, n: nat, bx: int, by: int) -> nat {
    block_code(
        n,
        torus_cell(cells, w, h, bx, by) as nat,
        torus_cell(cells, w, h, bx + 1, by) as nat,
        torus_cell(cells, w, h, bx, by + 1) as nat,
        torus_cell(cells, w, h, bx + 1, by + 1) as nat,
    )
}

/// The cell a block transform leaves at in-block position `(px, py)` when
/// the block's new content is `code`.
pub open spec fn pick_cell(n: nat, code: nat, px: int, py: int) -> u8 {
    if px == 0 && py == 0 {
        cell_tl(n, code) as u8
    } else if px == 1 && py == 0 {
        cell_tr(n, code) as u8
    } else if px == 0 && py == 1 {
        cell_bl(n, code) as u8
    } else {
        cell_br(n, code) as u8
    }
}

/// The value of the cell at `(x, y)` after every 2x2 block of the partition
/// with origin offset `o` has been replaced through `table`.
pub open spec fn stepped_cell(
    cells: Seq<u8>,
    w: int,
    h: int,
    n: nat,
    table: Seq<u8>,
    o: int,
    x: int,
    y: int,
) -> u8 {
    let px = (x - o) % 2;
    let py = (y - o) % 2;
    let code = table[block_code_at(cells, w, h, n, x - px, y - py) as int] as nat;
    pick_cell(n, code, px, py)
}

/// The whole grid after one block-wise transform of the partition with
/// origin offset `o` through `table`.
pub open spec fn stepped(cells: Seq<u8>, w: int, h: int, n: nat, table: Seq<u8>, o: int) -> Seq<
    u8,
> {
    Seq::new(cells.len(), |i: int| stepped_cell(cells, w, h, n, table, o, i % w, i / w))
}

/// `table` covers the whole block-index space of an `n`-state alphabet and
/// maps into it.
pub open spec fn table_wf(table: Seq<u8>, n: nat) -> bool {
    &&& table.len() == n * n * n * n
    &&& forall|i: int| 0 <= i < table.len() ==> (#[trigger] table[i] as nat) < n * n * n * n
}

/// The grid after one forward step: the even phase applies the first step
/// table at offset 0, the odd phase the second at offset 1; the phase flips.
pub open spec fn fwd(g: GridView, r: Rules) -> GridView {
    GridView {
        cells: if g.phase {
            stepped(g.cells, g.width, g.height, r.n(), r.spec_step2(), 1)
        } else {
            stepped(g.cells, g.width, g.height, r.n(), r.spec_step1(), 0)
        },
        phase: !g.phase,
        ..g
    }
}

/// The grid after one backward step: the exact mirror of [`fwd`], applying
/// the inverse of the table that the undone forward step used, at the same
/// offset; the phase flips back.
pub open spec fn bwd(g: GridView, r: Rules) -> GridView {
    GridView {
        cells: if g.phase {
            stepped(g.cells, g.width, g.height, r.n(), r.spec_step1_invert(), 0)
        } else {
            stepped(g.cells, g.width, g.height, r.n(), r.spec_step2_invert(), 1)
        },
        phase: !g.phase,
        ..g
    }
}

/// Law: toroidal addressing. Shifting either coordinate by the matching
/// grid dimension reads the same cell.
pub proof fn lemma_toroidal_addressing(cells: Seq<u8>, w: int, h: int, x: int, y: int)
    requires
        w > 0,
        h > 0,
    ensures
        torus_cell(cells, w, h, x + w, y) == torus_cell(cells, w, h, x, y),
        torus_cell(cells, w, h, x, y + h) == torus_cell(cells, w, h, x, y),
{
    lemma_mod_multiples_vanish(1, x, w);
    lemma_mod_multiples_vanish(1, y, h);
}

/// Reduces `var` into `[0, size)`, preserving its residue.
pub fn normalize(var: usize, size: usize) -> (r: usize)
    requires
        size > 0,
    ensures
        r as int == (var as int) % (size as int),
        r < size,
{
    proof {
        if var < size {
            lemma_small_mod(var as nat, size as nat);
        }
        lemma_mod_bound(var as int, size as int);
    }
    if var >= size {
        var % size
    } else {
        var
    }
}

/// Adds `b` to `a` modulo `size`, without overflowing.
fn wrap_add(a: usize, b: usize, size: usize) -> (r: usize)
    requires
        size > 0,
        2 * (size as int) - 2 <= usize::MAX,
    ensures
        r as int == ((a as int) + (b as int)) % (size as int),
        r < size,
{
    let na = normalize(a, size);
    let nb = normalize(b, size);
    let r = normalize(na + nb, size);
    proof {
        lemma_add_mod_noop(a as int, b as int, size as int);
    }
    r
}

/// Row-major coordinates of an index, and the index of coordinates.
proof fn lemma_xy(i: int, w: int, h: int)
    requires
        w > 0,
        h > 0,
        0 <= i < w * h,
    ensures
        0 <= i % w < w,
        0 <= i / w < h,
        i == (i % w) + (i / w) * w,
{
    lemma_mod_bound(i, w);
    lemma_fundamental_div_mod(i, w);
    lemma_div_pos_is_pos(i, w);
    assert(i == (i % w) + (i / w) * w) by (nonlinear_arith)
        requires
            i == w * (i / w) + i % w,
    ;
    assert(i / w < h) by (nonlinear_arith)
        requires
            w > 0,
            i < w * h,
            i == w * (i / w) + i % w,
            0 <= i % w,
    ;
}

/// The row-major index of in-range coordinates, with its decomposition.
proof fn lemma_index_of_xy(x: int, y: int, w: int, h: int)
    requires
        w > 0,
        h > 0,
        0 <= x < w,
        0 <= y < h,
    ensures
        0 <= x + y * w < w * h,
        (x + y * w) % w == x,
        (x + y * w) / w == y,
{
    assert(0 <= x + y * w && x + y * w < w * h) by (nonlinear_arith)
        requires
            0 <= x < w,
            0 <= y < h,
    ;
    lemma_fundamental_div_mod_converse(x + y * w, w, y, x);
}

/// The toroidal world: a rule set, the cell array, the even dimensions, and
/// the phase flag (`true` between the even-phase and odd-phase half steps).
pub struct World {
    pub(crate) rules: Rules,
    pub(crate) array: Vec<CellState>,
    pub(crate) width: usize,
    pub(crate) height: usize,
    pub(crate) intermediate_step: bool,
}

impl View for World {
    type V = GridView;

    closed spec fn view(&self) -> GridView {
        GridView {
            cells: self.array@.map_values(|c: CellState| c.0),
            width: self.width as int,
            height: self.height as int,
            phase: self.intermediate_step,
        }
    }
}

impl World {
    /// The rule set the grid currently evolves under.
    pub open(crate) spec fn spec_rules(&self) -> Rules {
        self.rules
    }

    /// The grid is well formed under its own rule set.
    pub open(crate) spec fn wf(&self) -> bool {
        grid_wf(self@, self.rules)
    }

    /// Creates a grid of `2*halfwidth` by `2*halfheight` cells, all holding
    /// the rule set's default state, in the even phase.
    pub fn new(rules: Rules, halfwidth: usize, halfheight: usize) -> (w: World)
        requires
            rules.wf(),
            halfwidth >= 1,
            halfheight >= 1,
            4 * (halfwidth as int) * (halfheight as int) <= usize::MAX,
        ensures
            w.wf(),
            w.spec_rules() == rules,
            w@.width == 2 * halfwidth,
            w@.height == 2 * halfheight,
            w@.phase == false,
            w@.cells.len() == 4 * (halfwidth as int) * (halfheight as int),
            forall|i: int| 0 <= i < w@.cells.len() ==> w@.cells[i] == 0,
    {
        proof {
            assert((2 * halfwidth as int) * (2 * halfheight as int) == 4 * (halfwidth as int) * (
            halfheight as int) && 2 * halfwidth as int <= 4 * (halfwidth as int) * (
            halfheight as int) && 2 * halfheight as int <= 4 * (halfwidth as int) * (
            halfheight as int)) by (nonlinear_arith)
                requires
                    halfwidth >= 1,
                    halfheight >= 1,
            ;
        }
        let width = halfwidth * 2;
        let height = halfheight * 2;
        let default_state = rules.default_state();
        let total = width * height;
        let mut array: Vec<CellState> = Vec::new();
        for i in 0..total
            invariant
                array@.len() == i,
                forall|j: int| 0 <= j < i ==> array@[j] == default_state,
                default_state.0 == 0,
        {
            array.push(default_state);
        }
        let w = World { rules, array, width, height, intermediate_step: false };
        proof {
            assert(forall|i: int|
                0 <= i < w@.cells.len() ==> (#[trigger] w@.cells[i]) == 0);
        }
        w
    }

    /// A borrow of the rule set, for reading the edit states.
    pub fn get_rules(&self) -> (r: &Rules)
        ensures
            *r == self.spec_rules(),
    {
        &self.rules
    }

    /// A borrow of the raw cell array, in row-major order.
    pub fn arr(&self) -> (r: &Vec<CellState>)
        ensures
            r@.map_values(|c: CellState| c.0) == self@.cells,
    {
        &self.array
    }

    /// Writes `val` to the cell at raw row-major index `i`: the mutating
    /// counterpart of [`World::arr`]. A mutable borrow of the whole array
    /// could break the grid's invariant, so mutation goes cell by cell.
    pub fn arr_mut(&mut self, i: usize, val: CellState)
        requires
            old(self).wf(),
            i < old(self)@.cells.len(),
            (val.0 as nat) < old(self).spec_rules().n(),
        ensures
            final(self).wf(),
            final(self).spec_rules() == old(self).spec_rules(),
            final(self)@.width == old(self)@.width,
            final(self)@.height == old(self)@.height,
            final(self)@.phase == old(self)@.phase,
            final(self)@.cells == old(self)@.cells.update(i as int, val.0),
    {
        self.array[i] = val;
        proof {
            assert(self@.cells =~= old(self)@.cells.update(i as int, val.0));
        }
    }

    /// Whether the next forward step transforms the odd partition: `false`
    /// is the even phase, `true` the intermediate (odd) phase.
    pub fn is_intermediate_step(&mut self) -> (r: bool)
        ensures
            *final(self) == *old(self),
            r == old(self)@.phase,
    {
        self.intermediate_step
    }

    /// Reads the cell at `(x, y)`, wrapping both coordinates.
    pub fn get(&self, x: usize, y: usize) -> (r: CellState)
        requires
            self.wf(),
        ensures
            r.0 == torus_cell(self@.cells, self@.width, self@.height, x as int, y as int),
    {
        let nx = normalize(x, self.width);
        let ny = normalize(y, self.height);
        proof {
            vstd::std_specs::vec::axiom_spec_len(&self.array);
            lemma_index_of_xy(nx as int, ny as int, self@.width, self@.height);
        }
        self.array[nx + ny * self.width]
    }

    /// Reallocates the grid to `2*halfwidth` by `2*halfheight` cells of the
    /// rule set's default state, keeping the overlapping top-left region;
    /// cells outside the old bounds become the default state. The phase and
    /// the rule set are unchanged.
    #[verifier::loop_isolation(false)]
    pub fn set_new_size(&mut self, halfwidth: usize, halfheight: usize)
        requires
            old(self).wf(),
            halfwidth >= 1,
            halfheight >= 1,
            4 * (halfwidth as int) * (halfheight as int) <= usize::MAX,
        ensures
            final(self).wf(),
            final(self).spec_rules() == old(self).spec_rules(),
            final(self)@.phase == old(self)@.phase,
            final(self)@.width == 2 * halfwidth,
            final(self)@.height == 2 * halfheight,
            final(self)@.cells == Seq::new(
                (4 * (halfwidth as int) * (halfheight as int)) as nat,
                |i: int|
                    {
                        let cx = i % (2 * halfwidth as int);
                        let cy = i / (2 * halfwidth as int);
                        if cx < old(self)@.width && cy < old(self)@.height {
                            old(self)@.cells[cx + cy * old(self)@.width]
                        } else {
                            0
                        }
                    },
            ),
    {
        proof {
            assert((2 * halfwidth as int) * (2 * halfheight as int) == 4 * (halfwidth as int) * (
            halfheight as int) && 2 * (halfwidth as int) <= 4 * (halfwidth as int) * (
            halfheight as int) && 2 * (halfheight as int) <= 4 * (halfwidth as int) * (
            halfheight as int)) by (nonlinear_arith)
                requires
                    halfwidth >= 1,
                    halfheight >= 1,
            ;
        }
        let new_width = halfwidth * 2;
        let new_height = halfheight * 2;
        let total = new_width * new_height;
        let default_state = self.rules.default_state();
        let ghost target = Seq::new(
            (4 * (halfwidth as int) * (halfheight as int)) as nat,
            |i: int|
                {
                    let cx = i % (2 * halfwidth as int);
                    let cy = i / (2 * halfwidth as int);
                    if cx < old(self)@.width && cy < old(self)@.height {
                        old(self)@.cells[cx + cy * old(self)@.width]
                    } else {
                        0
                    }
                },
        );
        let mut new_arr: Vec<CellState> = Vec::new();
        for i in 0..total
            invariant
                *self == *old(self),
                self.wf(),
                total == new_width * new_height,
                new_width == 2 * halfwidth,
                new_height == 2 * halfheight,
                default_state.0 == 0,
                target.len() == total,
                new_arr@.len() == i,
                forall|j: int| 0 <= j < i ==> (#[trigger] new_arr@[j].0) == target[j],
        {
            proof {
                lemma_xy(i as int, new_width as int, new_height as int);
                vstd::std_specs::vec::axiom_spec_len(&self.array);
            }
            let cx = i % new_width;
            let cy = i / new_width;
            let val = if cx < self.width && cy < self.height {
                proof {
                    lemma_index_of_xy(cx as int, cy as int, self@.width, self@.height);
                }
                self.array[cx + cy * self.width]
            } else {
                default_state
            };
            proof {
                assert(val.0 == target[i as int]);
            }
            new_arr.push(val);
        }
        self.array = new_arr;
        self.width = new_width;
        self.height = new_height;
        proof {
            assert(self@.cells =~= target);
            let gw = 2 * (halfwidth as int);
            assert forall|i: int|
                0 <= i < self@.cells.len() implies (#[trigger] self@.cells[i] as nat)
                < self.rules.n() by {
                let cx = i % gw;
                let cy = i / gw;
                lemma_xy(i, gw, 2 * (halfheight as int));
                if cx < old(self)@.width && cy < old(self)@.height {
                    lemma_index_of_xy(cx, cy, old(self)@.width, old(self)@.height);
                }
            }
        }
    }

    /// Replaces the rule set, remapping every stored cell into the new
    /// alphabet through the new rule set's state normalization.
    #[verifier::loop_isolation(false)]
    pub fn change_rules(&mut self, rules: Rules)
        requires
            old(self).wf(),
            rules.wf(),
        ensures
            final(self).wf(),
            final(self).spec_rules() == rules,
            final(self)@.phase == old(self)@.phase,
            final(self)@.width == old(self)@.width,
            final(self)@.height == old(self)@.height,
            final(self)@.cells == old(self)@.cells.map_values(
                |c: u8| crate::rules::normalize_cell(rules.n(), c as nat) as u8,
            ),
    {
        let ghost target = old(self)@.cells.map_values(
            |c: u8| crate::rules::normalize_cell(rules.n(), c as nat) as u8,
        );
        let len = self.array.len();
        for i in 0..len
            invariant
                rules.wf(),
            len == self.array@.len(),
                self.width == old(self).width,
                self.height == old(self).height,
                self.intermediate_step == old(self).intermediate_step,
                self.rules == old(self).rules,
                target.len() == len,
                forall|j: int| 0 <= j < i ==> (#[trigger] self.array@[j].0) == target[j],
                forall|j: int| i <= j < len ==> self.array@[j] == old(self).array@[j],
        {
            let c = self.array[i];
            let nv = rules.normalize_state(c);
            proof {
                assert(c.0 == old(self)@.cells[i as int]);
                assert(nv.0 as nat == crate::rules::normalize_cell(rules.n(), c.0 as nat));
                assert(nv.0 == target[i as int]);
            }
            self.array[i] = nv;
        }
        self.rules = rules;
        proof {
            assert(self@.cells =~= target);
            assert forall|i: int| 0 <= i < self@.cells.len() implies (
            #[trigger] self@.cells[i] as nat) < rules.n() by {}
        }
    }

    /// Writes `val` to the cell at `(x, y)`, wrapping both coordinates.
    /// `val` must be a valid state of the grid's rule set.
    pub fn set(&mut self, x: usize, y: usize, val: CellState)
        requires
            old(self).wf(),
            (val.0 as nat) < old(self).spec_rules().n(),
        ensures
            final(self).wf(),
            final(self).spec_rules() == old(self).spec_rules(),
            final(self)@.width == old(self)@.width,
            final(self)@.height == old(self)@.height,
            final(self)@.phase == old(self)@.phase,
            final(self)@.cells == old(self)@.cells.update(
                ((x as int) % old(self)@.width) + ((y as int) % old(self)@.height) * old(
                    self,
                )@.width,
                val.0,
            ),
    {
        let nx = normalize(x, self.width);
        let ny = normalize(y, self.height);
        proof {
            vstd::std_specs::vec::axiom_spec_len(&self.array);
            lemma_index_of_xy(nx as int, ny as int, self@.width, self@.height);
        }
        let idx = nx + ny * self.width;
        self.array[idx] = val;
        proof {
            assert(self@.cells =~= old(self)@.cells.update(idx as int, val.0));
        }
    }

    /// Writes `val` to every cell of the `width` by `height` rectangle whose
    /// top-left corner is at `(x, y)`, each cell independently wrapped, so
    /// the rectangle may wrap around the grid edges.
    #[verifier::loop_isolation(false)]
    #[verifier::rlimit(30)]
    pub fn set_rect(&mut self, x: usize, y: usize, width: usize, height: usize, val: CellState)
        requires
            old(self).wf(),
            (val.0 as nat) < old(self).spec_rules().n(),
        ensures
            final(self).wf(),
            final(self).spec_rules() == old(self).spec_rules(),
            final(self)@.width == old(self)@.width,
            final(self)@.height == old(self)@.height,
            final(self)@.phase == old(self)@.phase,
            final(self)@.cells == Seq::new(
                old(self)@.cells.len(),
                |i: int|
                    if wrapped_hit(x as int, width as int, old(self)@.width, i % old(self)@.width)
                        && wrapped_hit(
                        y as int,
                        height as int,
                        old(self)@.height,
                        i / old(self)@.width,
                    ) {
                        val.0
                    } else {
                        old(self)@.cells[i]
                    },
            ),
    {
        let ghost oldc = self@.cells;
        let ghost w = self@.width;
        let ghost h = self@.height;
        proof {
            vstd::std_specs::vec::axiom_spec_len(&self.array);
            assert(2 * w <= w * h && 2 * h <= w * h) by (nonlinear_arith)
                requires
                    w >= 2,
                    h >= 2,
            ;
        }
        for iy in 0..height
            invariant
                self.wf(),
                self.rules == old(self).rules,
                self.width == old(self).width,
                self.height == old(self).height,
                self.intermediate_step == old(self).intermediate_step,
                self@.cells =~= rect_painted(oldc, w, h, x as int, y as int, width as int, iy as int, 0, val.0),
        {
            let row = wrap_add(y, iy, self.height);
            for ix in 0..width
                invariant
                    self.wf(),
                    self.rules == old(self).rules,
                    self.width == old(self).width,
                    self.height == old(self).height,
                    self.intermediate_step == old(self).intermediate_step,
                    row as int == ((y as int) + (iy as int)) % h,
                    row < self.height,
                    self@.cells =~= rect_painted(oldc, w, h, x as int, y as int, width as int, iy as int, ix as int, val.0),
            {
                let col = wrap_add(x, ix, self.width);
                let ghost before = self@.cells;
                self.set(col, row, val);
                proof {
                    lemma_small_mod(col as nat, w as nat);
                    lemma_small_mod(row as nat, h as nat);
                    let j = (col as int) + (row as int) * w;
                    assert(self@.cells == before.update(j, val.0));
                    lemma_rect_painted_next(
                        oldc, w, h, x as int, y as int, width as int, iy as int, ix as int, val.0,
                    );
                }
            }
            proof {
                lemma_rect_painted_row(
                    oldc, w, h, x as int, y as int, width as int, iy as int, val.0,
                );
            }
        }
        proof {
            let target = Seq::new(
                oldc.len(),
                |i: int|
                    if wrapped_hit(x as int, width as int, w, i % w) && wrapped_hit(
                        y as int,
                        height as int,
                        h,
                        i / w,
                    ) {
                        val.0
                    } else {
                        oldc[i]
                    },
            );
            assert(self@.cells =~= target);
        }
    }
}

/// Which of the rule set's four tables a transform pass applies.
#[derive(Clone, Copy)]
enum TableChoice {
    Step1,
    Step2,
    Step1Invert,
    Step2Invert,
}

/// The table of `r` that `c` selects.
spec fn chosen_table(r: Rules, c: TableChoice) -> Seq<u8> {
    match c {
        TableChoice::Step1 => r.spec_step1(),
        TableChoice::Step2 => r.spec_step2(),
        TableChoice::Step1Invert => r.spec_step1_invert(),
        TableChoice::Step2Invert => r.spec_step2_invert(),
    }
}

/// All four tables of a well-formed rule set cover the block-index space
/// and map into it.
proof fn lemma_rules_tables_wf(r: Rules)
    requires
        r.wf(),
    ensures
        table_wf(r.spec_step1(), r.n()),
        table_wf(r.spec_step2(), r.n()),
        table_wf(r.spec_step1_invert(), r.n()),
        table_wf(r.spec_step2_invert(), r.n()),
{
}

impl World {
    /// Replaces every 2x2 block of the partition with origin offset
    /// `offset` through the selected table, leaving the phase alone.
    #[verifier::loop_isolation(false)]
    #[verifier::rlimit(30)]
    fn transform(&mut self, offset: usize, choice: TableChoice)
        requires
            old(self).wf(),
            offset == 0 || offset == 1,
            table_wf(
                chosen_table(old(self).spec_rules(), choice),
                old(self).spec_rules().n(),
            ),
        ensures
            final(self).wf(),
            final(self).spec_rules() == old(self).spec_rules(),
            final(self)@.width == old(self)@.width,
            final(self)@.height == old(self)@.height,
            final(self)@.phase == old(self)@.phase,
            final(self)@.cells == stepped(
                old(self)@.cells,
                old(self)@.width,
                old(self)@.height,
                old(self).spec_rules().n(),
                chosen_table(old(self).spec_rules(), choice),
                offset as int,
            ),
    {
        let ghost cells = self@.cells;
        let ghost n = self.rules.n();
        let ghost table = chosen_table(self.rules, choice);
        let ghost o = offset as int;
        let w = self.width;
        let h = self.height;
        let ghost wi = w as int;
        let ghost hi = h as int;
        let ghost target = stepped(cells, wi, hi, n, table, o);
        let len = self.array.len();
        proof {
            vstd::std_specs::vec::axiom_spec_len(&self.array);
            assert(2 * wi <= wi * hi && 2 * hi <= wi * hi) by (nonlinear_arith)
                requires
                    wi >= 2,
                    hi >= 2,
            ;
        }
        let mut out: Vec<CellState> = Vec::new();
        for i in 0..len
            invariant
                *self == *old(self),
                out@.len() == i,
                forall|j: int| 0 <= j < i ==> (#[trigger] out@[j].0) == target[j],
                forall|j: int| 0 <= j < i ==> ((#[trigger] out@[j].0) as nat) < n,
        {
            proof {
                lemma_xy(i as int, wi, hi);
            }
            let x = i % w;
            let y = i / w;
            let px = (x + 2 - offset) % 2;
            let py = (y + 2 - offset) % 2;
            let bx = (x + w - px) % w;
            let by = (y + h - py) % h;
            let ghost xi = x as int;
            let ghost yi = y as int;
            let ghost pxs = (xi - o) % 2;
            let ghost pys = (yi - o) % 2;
            proof {
                lemma_mod_bound(xi - o, 2);
                lemma_mod_bound(yi - o, 2);
                // The exec offsets equal the spec offsets.
                lemma_mod_multiples_vanish(1, xi - o, 2);
                lemma_mod_multiples_vanish(1, yi - o, 2);
                assert(px as int == pxs && py as int == pys);
                // The exec block origin is the wrapped spec block origin.
                lemma_mod_multiples_vanish(1, xi - pxs, wi);
                lemma_mod_multiples_vanish(1, yi - pys, hi);
                assert(bx as int == (xi - pxs) % wi && by as int == (yi - pys) % hi);
                lemma_small_mod(bx as nat, w as nat);
                lemma_small_mod(by as nat, h as nat);
                // The four reads land on the block's cells.
                lemma_mod_shift(bx as int, xi - pxs, 1, wi);
                lemma_mod_shift(by as int, yi - pys, 1, hi);
                // All four read indices are in range, so the cells are valid.
                lemma_mod_bound(bx as int + 1, wi);
                lemma_mod_bound(by as int + 1, hi);
                lemma_index_of_xy(bx as int, by as int, wi, hi);
                lemma_index_of_xy((bx as int + 1) % wi, by as int, wi, hi);
                lemma_index_of_xy(bx as int, (by as int + 1) % hi, wi, hi);
                lemma_index_of_xy((bx as int + 1) % wi, (by as int + 1) % hi, wi, hi);
            }
            let a = self.get(bx, by);
            let b = self.get(bx + 1, by);
            let c = self.get(bx, by + 1);
            let d = self.get(bx + 1, by + 1);
            proof {
                assert((a.0 as nat) < n && (b.0 as nat) < n && (c.0 as nat) < n && (d.0 as nat)
                    < n);
                assert(block_code_at(cells, wi, hi, n, xi - pxs, yi - pys) == block_code(
                    n,
                    a.0 as nat,
                    b.0 as nat,
                    c.0 as nat,
                    d.0 as nat,
                ));
                lemma_decode_of_code(n, a.0 as nat, b.0 as nat, c.0 as nat, d.0 as nat);
            }
            let code = self.rules.to_block_int([a, b, c, d]);
            let entry = match choice {
                TableChoice::Step1 => self.rules.step1()[code.0 as usize],
                TableChoice::Step2 => self.rules.step2()[code.0 as usize],
                TableChoice::Step1Invert => self.rules.step1_invert()[code.0 as usize],
                TableChoice::Step2Invert => self.rules.step2_invert()[code.0 as usize],
            };
            proof {
                assert(entry.0 == table[code.0 as int]);
                assert((entry.0 as nat) < self.rules.size());
            }
            let outs = self.rules.from_block_int(entry);
            let cell = if px == 0 && py == 0 {
                outs[0]
            } else if px == 1 && py == 0 {
                outs[1]
            } else if px == 0 && py == 1 {
                outs[2]
            } else {
                outs[3]
            };
            proof {
                assert(target[i as int] == stepped_cell(cells, wi, hi, n, table, o, xi, yi));
                assert(cell.0 == pick_cell(n, entry.0 as nat, pxs, pys));
                assert(cell.0 == target[i as int]);
            }
            out.push(cell);
        }
        self.array = out;
        proof {
            assert(self@.cells =~= target);
        }
    }

    /// Advances the automaton one step: transforms every block of the
    /// partition selected by the current phase through that phase's table,
    /// then flips the phase.
    pub fn step(&mut self)
        requires
            old(self).wf(),
        ensures
            final(self).wf(),
            final(self).spec_rules() == old(self).spec_rules(),
            final(self)@ == fwd(old(self)@, old(self).spec_rules()),
    {
        proof {
            lemma_rules_tables_wf(self.rules);
        }
        if self.intermediate_step {
            self.transform(1, TableChoice::Step2);
        } else {
            self.transform(0, TableChoice::Step1);
        }
        self.intermediate_step = !self.intermediate_step;
        proof {
            assert(self@ =~= fwd(old(self)@, old(self).spec_rules()));
        }
    }

    /// Undoes one forward step: applies the inverse of the table that the
    /// undone step used, at the same offset, and flips the phase back.
    /// Calling this right after [`World::step`] restores the exact prior
    /// grid and phase.
    pub fn step_back(&mut self)
        requires
            old(self).wf(),
        ensures
            final(self).wf(),
            final(self).spec_rules() == old(self).spec_rules(),
            final(self)@ == bwd(old(self)@, old(self).spec_rules()),
    {
        proof {
            lemma_rules_tables_wf(self.rules);
        }
        if self.intermediate_step {
            self.transform(0, TableChoice::Step1Invert);
        } else {
            self.transform(1, TableChoice::Step2Invert);
        }
        self.intermediate_step = !self.intermediate_step;
        proof {
            assert(self@ =~= bwd(old(self)@, old(self).spec_rules()));
        }
    }
}

/// Reducing modulo an even number preserves parity.
proof fn lemma_parity_mod(a: int, w: int)
    requires
        w > 0,
        w % 2 == 0,
    ensures
        (a % w) % 2 == a % 2,
{
    lemma_fundamental_div_mod(a, w);
    let q = a / w;
    lemma_fundamental_div_mod(w, 2);
    lemma_mod_multiples_vanish(-((w / 2) * q), a, 2);
    assert(2 * (-((w / 2) * q)) + a == a % w) by (nonlinear_arith)
        requires
            a % w == a - w * q,
            w == 2 * (w / 2),
    ;
}

/// After one transform, the cell at in-block position `(dx, dy)` of the
/// block with origin `(bx, by)` of the active partition holds the matching
/// component of the table's replacement for that block.
proof fn lemma_stepped_block_cell(
    cells: Seq<u8>,
    w: int,
    h: int,
    n: nat,
    table: Seq<u8>,
    o: int,
    bx: int,
    by: int,
    dx: int,
    dy: int,
)
    requires
        w >= 2,
        w % 2 == 0,
        h >= 2,
        h % 2 == 0,
        cells.len() == w * h,
        o == 0 || o == 1,
        (bx - o) % 2 == 0,
        (by - o) % 2 == 0,
        0 <= dx <= 1,
        0 <= dy <= 1,
    ensures
        torus_cell(stepped(cells, w, h, n, table, o), w, h, bx + dx, by + dy) == pick_cell(
            n,
            table[block_code_at(cells, w, h, n, bx, by) as int] as nat,
            dx,
            dy,
        ),
{
    let s1 = stepped(cells, w, h, n, table, o);
    let xx = (bx + dx) % w;
    let yy = (by + dy) % h;
    lemma_mod_bound(bx + dx, w);
    lemma_mod_bound(by + dy, h);
    lemma_index_of_xy(xx, yy, w, h);
    let j = xx + yy * w;
    assert(torus_cell(s1, w, h, bx + dx, by + dy) == s1[j]);
    assert(s1[j] == stepped_cell(cells, w, h, n, table, o, xx, yy));
    // The in-block position recomputed from the wrapped coordinates is
    // exactly (dx, dy): wrapping by an even dimension preserves parity.
    lemma_parity_mod(bx + dx, w);
    lemma_parity_mod(by + dy, h);
    lemma_mod_shift(xx, bx + dx, -o, 2);
    lemma_mod_shift(yy, by + dy, -o, 2);
    lemma_fundamental_div_mod(bx - o, 2);
    lemma_fundamental_div_mod(by - o, 2);
    lemma_mod_multiples_vanish((bx - o) / 2, dx, 2);
    lemma_mod_multiples_vanish((by - o) / 2, dy, 2);
    lemma_small_mod(dx as nat, 2);
    lemma_small_mod(dy as nat, 2);
    assert((xx - o) % 2 == dx && (yy - o) % 2 == dy);
    // The block origin recomputed from the wrapped coordinates is congruent
    // to (bx, by), so the transform reads the same four cells.
    lemma_small_mod(xx as nat, w as nat);
    lemma_small_mod(yy as nat, h as nat);
    lemma_mod_shift(xx, bx + dx, -dx, w);
    lemma_mod_shift(yy, by + dy, -dy, h);
    assert((xx - dx) % w == bx % w && (yy - dy) % h == by % h);
    lemma_mod_shift(xx - dx, bx, 1, w);
    lemma_mod_shift(yy - dy, by, 1, h);
    assert(block_code_at(cells, w, h, n, xx - dx, yy - dy) == block_code_at(
        cells,
        w,
        h,
        n,
        bx,
        by,
    ));
}

/// One transform of a valid grid through a well-formed table leaves every
/// cell a valid state.
proof fn lemma_stepped_in_range(cells: Seq<u8>, w: int, h: int, n: nat, table: Seq<u8>, o: int)
    requires
        w >= 2,
        h >= 2,
        cells.len() == w * h,
        1 <= n <= 256,
        forall|i: int| 0 <= i < cells.len() ==> (#[trigger] cells[i] as nat) < n,
        table_wf(table, n),
        o == 0 || o == 1,
    ensures
        stepped(cells, w, h, n, table, o).len() == cells.len(),
        forall|i: int|
            0 <= i < cells.len() ==> (#[trigger] stepped(cells, w, h, n, table, o)[i] as nat) < n,
{
    let s1 = stepped(cells, w, h, n, table, o);
    assert forall|i: int| 0 <= i < cells.len() implies (#[trigger] s1[i] as nat) < n by {
        lemma_xy(i, w, h);
        let x = i % w;
        let y = i / w;
        lemma_mod_bound(x - o, 2);
        lemma_mod_bound(y - o, 2);
        let px = (x - o) % 2;
        let py = (y - o) % 2;
        let bx = x - px;
        let by = y - py;
        lemma_block_reads_valid(cells, w, h, n, bx, by);
        let code = block_code_at(cells, w, h, n, bx, by);
        lemma_decode_of_code(
            n,
            torus_cell(cells, w, h, bx, by) as nat,
            torus_cell(cells, w, h, bx + 1, by) as nat,
            torus_cell(cells, w, h, bx, by + 1) as nat,
            torus_cell(cells, w, h, bx + 1, by + 1) as nat,
        );
        lemma_code_of_decode(n, table[code as int] as nat);
    }
}

/// The four cells of the block at `(bx, by)` are read in bounds and are
/// valid states.
proof fn lemma_block_reads_valid(cells: Seq<u8>, w: int, h: int, n: nat, bx: int, by: int)
    requires
        w >= 2,
        h >= 2,
        cells.len() == w * h,
        forall|i: int| 0 <= i < cells.len() ==> (#[trigger] cells[i] as nat) < n,
    ensures
        (torus_cell(cells, w, h, bx, by) as nat) < n,
        (torus_cell(cells, w, h, bx + 1, by) as nat) < n,
        (torus_cell(cells, w, h, bx, by + 1) as nat) < n,
        (torus_cell(cells, w, h, bx + 1, by + 1) as nat) < n,
{
    lemma_mod_bound(bx, w);
    lemma_mod_bound(by, h);
    lemma_mod_bound(bx + 1, w);
    lemma_mod_bound(by + 1, h);
    lemma_index_of_xy(bx % w, by % h, w, h);
    lemma_index_of_xy((bx + 1) % w, by % h, w, h);
    lemma_index_of_xy(bx % w, (by + 1) % h, w, h);
    lemma_index_of_xy((bx + 1) % w, (by + 1) % h, w, h);
}

/// Law: one transform through a table followed by one transform through its
/// inverse, both over the same partition, restores every cell exactly.
#[verifier::rlimit(30)]
pub proof fn lemma_stepped_inverse(
    cells: Seq<u8>,
    w: int,
    h: int,
    n: nat,
    t: Seq<u8>,
    ti: Seq<u8>,
    o: int,
)
    requires
        w >= 2,
        w % 2 == 0,
        h >= 2,
        h % 2 == 0,
        cells.len() == w * h,
        1 <= n <= 256,
        forall|i: int| 0 <= i < cells.len() ==> (#[trigger] cells[i] as nat) < n,
        table_wf(t, n),
        table_wf(ti, n),
        forall|i: int| 0 <= i < t.len() ==> (ti[#[trigger] t[i] as int] as int) == i,
        o == 0 || o == 1,
    ensures
        stepped(stepped(cells, w, h, n, t, o), w, h, n, ti, o) == cells,
{
    let s1 = stepped(cells, w, h, n, t, o);
    let s2 = stepped(s1, w, h, n, ti, o);
    assert forall|i: int| 0 <= i < cells.len() implies s2[i] == cells[i] by {
        lemma_xy(i, w, h);
        let x = i % w;
        let y = i / w;
        lemma_mod_bound(x - o, 2);
        lemma_mod_bound(y - o, 2);
        let px = (x - o) % 2;
        let py = (y - o) % 2;
        let bx = x - px;
        let by = y - py;
        // The block origin has the partition's parity in both axes.
        lemma_fundamental_div_mod(x - o, 2);
        lemma_fundamental_div_mod(y - o, 2);
        lemma_mod_multiples_vanish((x - o) / 2, 0, 2);
        lemma_mod_multiples_vanish((y - o) / 2, 0, 2);
        assert((bx - o) % 2 == 0 && (by - o) % 2 == 0);
        // The original block and its code.
        lemma_block_reads_valid(cells, w, h, n, bx, by);
        let a = torus_cell(cells, w, h, bx, by) as nat;
        let b = torus_cell(cells, w, h, bx + 1, by) as nat;
        let c = torus_cell(cells, w, h, bx, by + 1) as nat;
        let d = torus_cell(cells, w, h, bx + 1, by + 1) as nat;
        let code1 = block_code_at(cells, w, h, n, bx, by);
        lemma_decode_of_code(n, a, b, c, d);
        let u = t[code1 as int] as nat;
        lemma_code_of_decode(n, u);
        // After the first transform the block holds the decoded components
        // of the replacement, so its code is exactly the replacement.
        lemma_stepped_block_cell(cells, w, h, n, t, o, bx, by, 0, 0);
        lemma_stepped_block_cell(cells, w, h, n, t, o, bx, by, 1, 0);
        lemma_stepped_block_cell(cells, w, h, n, t, o, bx, by, 0, 1);
        lemma_stepped_block_cell(cells, w, h, n, t, o, bx, by, 1, 1);
        assert(block_code_at(s1, w, h, n, bx, by) == u);
        // The second transform therefore looks up the inverse table at the
        // replacement and restores the original code, hence the original
        // cell.
        assert(s2[i] == stepped_cell(s1, w, h, n, ti, o, x, y));
        assert(s2[i] == pick_cell(n, code1, px, py));
        lemma_index_of_xy(x, y, w, h);
        lemma_small_mod(x as nat, w as nat);
        lemma_small_mod(y as nat, h as nat);
        assert(cells[i] == torus_cell(cells, w, h, bx + px, by + py));
    }
    assert(s2 =~= cells);
}

/// The grid after `k` forward steps.
pub open spec fn fwd_n(g: GridView, r: Rules, k: nat) -> GridView
    decreases k,
{
    if k == 0 {
        g
    } else {
        fwd(fwd_n(g, r, (k - 1) as nat), r)
    }
}

/// The grid after `k` backward steps.
pub open spec fn bwd_n(g: GridView, r: Rules, k: nat) -> GridView
    decreases k,
{
    if k == 0 {
        g
    } else {
        bwd_n(bwd(g, r), r, (k - 1) as nat)
    }
}

/// Law: one backward step right after one forward step restores the exact
/// prior grid and phase, and a forward step preserves well-formedness.
pub proof fn lemma_step_back_undoes_step(g: GridView, r: Rules)
    requires
        grid_wf(g, r),
    ensures
        grid_wf(fwd(g, r), r),
        bwd(fwd(g, r), r) == g,
{
    lemma_rules_tables_wf(r);
    let n = r.n();
    if g.phase {
        lemma_stepped_in_range(g.cells, g.width, g.height, n, r.spec_step2(), 1);
        lemma_stepped_inverse(
            g.cells,
            g.width,
            g.height,
            n,
            r.spec_step2(),
            r.spec_step2_invert(),
            1,
        );
    } else {
        lemma_stepped_in_range(g.cells, g.width, g.height, n, r.spec_step1(), 0);
        lemma_stepped_inverse(
            g.cells,
            g.width,
            g.height,
            n,
            r.spec_step1(),
            r.spec_step1_invert(),
            0,
        );
    }
    assert(bwd(fwd(g, r), r) =~= g);
}

/// Law: the round trip. For any well-formed grid and any `k`, `k` forward
/// steps followed by `k` backward steps yield the grid back, bit for bit,
/// with its phase restored.
pub proof fn lemma_round_trip(g: GridView, r: Rules, k: nat)
    requires
        grid_wf(g, r),
    ensures
        grid_wf(fwd_n(g, r, k), r),
        bwd_n(fwd_n(g, r, k), r, k) == g,
    decreases k,
{
    if k > 0 {
        lemma_round_trip(g, r, (k - 1) as nat);
        let mid = fwd_n(g, r, (k - 1) as nat);
        lemma_step_back_undoes_step(mid, r);
        assert(fwd_n(g, r, k) == fwd(mid, r));
        assert(bwd_n(fwd(mid, r), r, k) == bwd_n(bwd(fwd(mid, r), r), r, (k - 1) as nat));
    }
}

/// Column or row `pos` lies in the wrapped interval of `extent` cells that
/// starts at `start`, in a dimension of `size` cells.
pub open spec fn wrapped_hit(start: int, extent: int, size: int, pos: int) -> bool {
    extent >= size || (pos - start) % size < extent
}

/// The grid after painting `full_rows` whole rows of the rectangle at
/// `(x0, y0)` of width `rw`, and `part_cols` further cells of the next row.
spec fn rect_painted(
    oldc: Seq<u8>,
    w: int,
    h: int,
    x0: int,
    y0: int,
    rw: int,
    full_rows: int,
    part_cols: int,
    val: u8,
) -> Seq<u8> {
    Seq::new(
        oldc.len(),
        |i: int|
            if (wrapped_hit(y0, full_rows, h, i / w) && wrapped_hit(x0, rw, w, i % w)) || ((i / w)
                == (y0 + full_rows) % h && wrapped_hit(x0, part_cols, w, i % w)) {
                val
            } else {
                oldc[i]
            },
    )
}

/// Congruent values shifted by the same amount stay congruent.
proof fn lemma_mod_shift(a: int, b: int, k: int, w: int)
    requires
        w > 0,
        a % w == b % w,
    ensures
        (a + k) % w == (b + k) % w,
{
    lemma_add_mod_noop(a, k, w);
    lemma_add_mod_noop(b, k, w);
}

/// Wrapping a start point forward by `k` lands `k` residue steps from it.
proof fn lemma_wrap_index(start: int, k: int, size: int)
    requires
        size > 0,
    ensures
        ((start + k) % size - start) % size == k % size,
{
    lemma_fundamental_div_mod(start + k, size);
    let q = (start + k) / size;
    lemma_mod_multiples_vanish(-q, k, size);
    assert(size * (-q) + k == (start + k) % size - start) by (nonlinear_arith)
        requires
            (start + k) % size == start + k - size * q,
    ;
}

/// Painting one more cell of the current row extends the painted region by
/// one column.
proof fn lemma_rect_painted_next(
    oldc: Seq<u8>,
    w: int,
    h: int,
    x0: int,
    y0: int,
    rw: int,
    iy: int,
    ix: int,
    val: u8,
)
    requires
        w >= 2,
        h >= 2,
        oldc.len() == w * h,
        0 <= x0,
        0 <= y0,
        0 <= ix,
        0 <= iy,
    ensures
        rect_painted(oldc, w, h, x0, y0, rw, iy, ix, val).update(
            (x0 + ix) % w + ((y0 + iy) % h) * w,
            val,
        ) =~= rect_painted(oldc, w, h, x0, y0, rw, iy, ix + 1, val),
{
    let col = (x0 + ix) % w;
    let row = (y0 + iy) % h;
    lemma_mod_bound(x0 + ix, w);
    lemma_mod_bound(y0 + iy, h);
    lemma_index_of_xy(col, row, w, h);
    let j = col + row * w;
    let lhs = rect_painted(oldc, w, h, x0, y0, rw, iy, ix, val).update(j, val);
    let rhs = rect_painted(oldc, w, h, x0, y0, rw, iy, ix + 1, val);
    lemma_wrap_index(x0, ix, w);
    assert(ix < w ==> ix % w == ix) by {
        if ix < w {
            lemma_small_mod(ix as nat, w as nat);
        }
    }
    assert forall|i: int| 0 <= i < oldc.len() implies lhs[i] == rhs[i] by {
        lemma_xy(i, w, h);
        let cx = i % w;
        let cy = i / w;
        if i == j {
            // The freshly painted cell: it is hit with extent ix + 1.
            assert(wrapped_hit(x0, ix + 1, w, cx));
        } else {
            // Any other cell: extents ix and ix + 1 agree on it, for if it
            // were newly hit it would be exactly the painted cell.
            if cy == row && wrapped_hit(x0, ix + 1, w, cx) && !wrapped_hit(x0, ix, w, cx) {
                assert((cx - x0) % w == ix % w) by {
                    lemma_mod_bound(cx - x0, w);
                }
                lemma_mod_shift(cx - x0, ix, x0, w);
                lemma_small_mod(cx as nat, w as nat);
                assert(cx == col);
                assert(i == j);
            }
        }
    }
}

/// A fully painted row folds into one more full row of the rectangle.
proof fn lemma_rect_painted_row(
    oldc: Seq<u8>,
    w: int,
    h: int,
    x0: int,
    y0: int,
    rw: int,
    iy: int,
    val: u8,
)
    requires
        w >= 2,
        h >= 2,
        oldc.len() == w * h,
        0 <= x0,
        0 <= y0,
        0 <= iy,
    ensures
        rect_painted(oldc, w, h, x0, y0, rw, iy, rw, val) =~= rect_painted(
            oldc,
            w,
            h,
            x0,
            y0,
            rw,
            iy + 1,
            0,
            val,
        ),
{
    let lhs = rect_painted(oldc, w, h, x0, y0, rw, iy, rw, val);
    let rhs = rect_painted(oldc, w, h, x0, y0, rw, iy + 1, 0, val);
    lemma_wrap_index(y0, iy, h);
    assert(iy < h ==> iy % h == iy) by {
        if iy < h {
            lemma_small_mod(iy as nat, h as nat);
        }
    }
    assert forall|i: int| 0 <= i < oldc.len() implies lhs[i] == rhs[i] by {
        lemma_xy(i, w, h);
        let cx = i % w;
        let cy = i / w;
        let row = (y0 + iy) % h;
        lemma_mod_bound(y0 + iy, h);
        lemma_mod_bound(cy - y0, h);
        // Row extents iy and iy + 1 agree except on the row just finished,
        // and that row is painted on both sides.
        if wrapped_hit(y0, iy + 1, h, cy) && !wrapped_hit(y0, iy, h, cy) {
            assert((cy - y0) % h == iy % h);
            lemma_mod_shift(cy - y0, iy, y0, h);
            lemma_small_mod(cy as nat, h as nat);
            assert(cy == row);
        }
        if cy == row {
            assert((cy - y0) % h == iy % h) by {
                lemma_mod_shift(iy, cy - y0, y0, h);
            }
            assert(wrapped_hit(y0, iy + 1, h, cy));
        }
    }
}

} // verus!
