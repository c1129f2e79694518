//! Classification of a box of cells into inside, border and outside bands.
use crate::array::{product_of, Array};
use crate::utils::{cell_of, coord_of, from_linear, lemma_cell_of_within, linear_of, shape_product, within_shape};
use vstd::prelude::*;

verus! {

/// Band of a cell with respect to the boundary of a region.
#[derive(Debug, Clone, Copy, PartialEq, Eq, Hash, Structural)]
pub enum Cell {
    Inside,
    Outside,
    Border,
}

/// Coordinates of the cell at linear position `k` of the box `shape` whose
/// first cell is `offset`.
pub open spec fn position_of(offset: Seq<i32>, shape: Seq<u32>, k: nat) -> Seq<int> {
    Seq::new(shape.len(), |i: int| offset[i] + coord_of(k, shape, i))
}

/// Integer coordinates of a cell, as mathematical integers.
pub open spec fn coords<const N: usize>(p: [i32; N]) -> Seq<int> {
    p@.map_values(|x: i32| x as int)
}

/// The positions of the cells among the first `k` whose band is `class`, in
/// linear order.
pub open spec fn positions_with(
    offset: Seq<i32>,
    shape: Seq<u32>,
    cells: Seq<Cell>,
    class: Cell,
    k: nat,
) -> Seq<Seq<int>>
    decreases k,
{
    if k == 0 {
        Seq::empty()
    } else {
        let prev = positions_with(offset, shape, cells, class, (k - 1) as nat);
        if cells[k - 1] == class {
            prev.push(position_of(offset, shape, (k - 1) as nat))
        } else {
            prev
        }
    }
}

/// A box of cells, each classified once, with the inside and border cells
/// listed in linear order. Outside cells are not listed.
#[derive(Debug, Clone)]
pub struct CellGrid<const N: usize> {
    /// Coordinates of the first cell of the box.
    pub offset: [i32; N],
    /// Band of each cell of the box.
    pub cells: Array<Cell, N>,
    /// Coordinates of the inside cells.
    pub inside_cells: Vec<[i32; N]>,
    /// Coordinates of the border cells.
    pub border_cells: Vec<[i32; N]>,
}

impl<const N: usize> CellGrid<N> {
    /// Number of cells in the box.
    pub open spec fn total(&self) -> nat {
        shape_product(self.cells.spec_shape())
    }

    /// The cells of band `class`, in linear order.
    pub open spec fn listed(&self, class: Cell) -> Seq<Seq<int>> {
        positions_with(
            self.offset@,
            self.cells.spec_shape(),
            self.cells.spec_data(),
            class,
            self.total(),
        )
    }

    /// The lists hold exactly the inside and the border cells, and every cell
    /// of the box has coordinates that fit an `i32`.
    pub open spec fn wf(&self) -> bool {
        &&& self.cells.wf()
        &&& forall|i: int|
            0 <= i < N ==> self.offset[i] + self.cells.spec_shape()[i] <= i32::MAX + 1
        &&& self.inside_cells@.map_values(|p: [i32; N]| coords(p)) == self.listed(Cell::Inside)
        &&& self.border_cells@.map_values(|p: [i32; N]| coords(p)) == self.listed(Cell::Border)
    }

    /// `pos` is a cell of the box.
    pub open spec fn spec_in_box(&self, pos: Seq<int>) -> bool {
        &&& pos.len() == N
        &&& forall|i: int|
            0 <= i < N ==> self.offset[i] <= #[trigger] pos[i] < self.offset[i] + self.cells.spec_shape()[i]
    }

    /// Coordinates of `pos` relative to the first cell of the box.
    pub open spec fn relative(&self, pos: Seq<int>) -> Seq<u32> {
        Seq::new(N as nat, |i: int| (pos[i] - self.offset[i]) as u32)
    }

    /// Band of the cell `pos` of the box.
    pub open spec fn class_of(&self, pos: Seq<int>) -> Cell {
        self.cells.spec_at(self.relative(pos))
    }

    /// Classifies the box from `offset` up to, but not including, `upper`:
    /// `classify` gives the band of each cell and is called once per cell, in
    /// linear order.
    pub fn build<F: Fn([i32; N]) -> Cell>(offset: [i32; N], upper: [i32; N], classify: F) -> (r:
        Self)
        requires
            forall|i: int| 0 <= i < N ==> offset[i] < upper[i],
            shape_product(Seq::new(N as nat, |i: int| (upper[i] - offset[i]) as u32))
                <= usize::MAX,
            forall|p: [i32; N]| #[trigger] classify.requires((p,)),
        ensures
            r.wf(),
            r.offset == offset,
            forall|i: int| 0 <= i < N ==> r.cells.spec_shape()[i] == upper[i] - offset[i],
            forall|k: int, p: [i32; N]|
                0 <= k < r.total() && coords(p) == position_of(offset@, r.cells.spec_shape(), k as nat)
                    ==> #[trigger] classify.ensures((p,), r.cells.spec_data()[k]),
    {
        let mut shape: [u32; N] = [0u32; N];
        let mut i: usize = 0;
        while i < N
            invariant
                i <= N,
                forall|i: int| 0 <= i < N ==> offset[i] < upper[i],
                forall|k: int| 0 <= k < i ==> shape[k] == (upper[k] - offset[k]) as u32,
            decreases N - i,
        {
            shape[i] = (upper[i] as i64 - offset[i] as i64) as u32;
            i += 1;
        }
        proof {
            assert(shape@ =~= Seq::new(N as nat, |i: int| (upper[i] - offset[i]) as u32));
        }
        let total = product_of(shape);
        let mut data: Vec<Cell> = Vec::with_capacity(total);
        let mut inside: Vec<[i32; N]> = Vec::new();
        let mut border: Vec<[i32; N]> = Vec::new();
        let mut k: usize = 0;
        while k < total
            invariant
                k <= total,
                total as nat == shape_product(shape@),
                total <= usize::MAX,
                forall|i: int| 0 <= i < N ==> offset[i] < upper[i],
                forall|i: int| 0 <= i < N ==> shape[i] == upper[i] - offset[i],
                forall|p: [i32; N]| #[trigger] classify.requires((p,)),
                data@.len() == k,
                forall|j: int, p: [i32; N]|
                    0 <= j < k && coords(p) == position_of(offset@, shape@, j as nat)
                        ==> #[trigger] classify.ensures((p,), data@[j]),
                inside@.map_values(|p: [i32; N]| coords(p)) == positions_with(
                    offset@,
                    shape@,
                    data@,
                    Cell::Inside,
                    k as nat,
                ),
                border@.map_values(|p: [i32; N]| coords(p)) == positions_with(
                    offset@,
                    shape@,
                    data@,
                    Cell::Border,
                    k as nat,
                ),
            decreases total - k,
        {
            proof {
                lemma_cell_of_within(k as nat, shape@);
                crate::utils::lemma_product_positive(shape@);
            }
            let idx = from_linear(k, shape);
            let mut pos: [i32; N] = [0i32; N];
            let mut i: usize = 0;
            while i < N
                invariant
                    i <= N,
                    forall|i: int| 0 <= i < N ==> shape[i] == upper[i] - offset[i],
                    forall|i: int| 0 <= i < N ==> idx[i] < shape[i],
                    forall|i: int| 0 <= i < N ==> idx[i] as nat == coord_of(k as nat, shape@, i),
                    forall|j: int| 0 <= j < i ==> pos[j] == offset[j] + idx[j],
                decreases N - i,
            {
                pos[i] = (offset[i] as i64 + idx[i] as i64) as i32;
                i += 1;
            }
            proof {
                assert(coords(pos) =~= position_of(offset@, shape@, k as nat));
            }
            let c = classify(pos);
            let ghost before = data@;
            data.push(c);
            proof {
                lemma_positions_agree(offset@, shape@, before, data@, Cell::Inside, k as nat);
                lemma_positions_agree(offset@, shape@, before, data@, Cell::Border, k as nat);
            }
            if c == Cell::Inside {
                inside.push(pos);
            } else if c == Cell::Border {
                border.push(pos);
            }
            proof {
                assert(inside@.map_values(|p: [i32; N]| coords(p)) =~= positions_with(
                    offset@,
                    shape@,
                    data@,
                    Cell::Inside,
                    (k + 1) as nat,
                ));
                assert(border@.map_values(|p: [i32; N]| coords(p)) =~= positions_with(
                    offset@,
                    shape@,
                    data@,
                    Cell::Border,
                    (k + 1) as nat,
                ));
                assert forall|j: int, p: [i32; N]|
                    0 <= j < k + 1 && coords(p) == position_of(offset@, shape@, j as nat)
                        implies #[trigger] classify.ensures((p,), data@[j]) by {
                    if j == k {
                        assert(p@ =~= pos@) by {
                            assert forall|i: int| 0 <= i < N implies p@[i] == pos@[i] by {
                                assert(coords(p)[i] == coords(pos)[i]);
                            }
                        }
                        assert(p == pos);
                    }
                }
            }
            k += 1;
        }
        CellGrid { offset, cells: Array::from_vec(shape, data), inside_cells: inside, border_cells: border }
    }
    /// Whether `pos` is a cell of the box.
    pub fn in_box(&self, pos: [i32; N]) -> (r: bool)
        requires
            self.wf(),
        ensures
            r == self.spec_in_box(coords(pos)),
    {
        let shape = self.cells.shape();
        let mut i: usize = 0;
        while i < N
            invariant
                i <= N,
                shape@ == self.cells.spec_shape(),
                self.wf(),
                forall|j: int|
                    0 <= j < i ==> self.offset[j] <= #[trigger] pos[j] < self.offset[j] + shape[j],
            decreases N - i,
        {
            if pos[i] < self.offset[i] || pos[i] as i64 - self.offset[i] as i64 >= shape[i] as i64 {
                proof {
                    assert(coords(pos)[i as int] == pos[i as int] as int);
                }
                return false;
            }
            i += 1;
        }
        proof {
            assert forall|j: int| 0 <= j < N implies self.offset[j] <= #[trigger] coords(pos)[j]
                < self.offset[j] + self.cells.spec_shape()[j] by {
                assert(coords(pos)[j] == pos[j] as int);
            }
        }
        true
    }

    /// Band of the cell `pos` of the box.
    pub fn class_at(&self, pos: [i32; N]) -> (r: Cell)
        requires
            self.wf(),
            self.spec_in_box(coords(pos)),
        ensures
            r == self.class_of(coords(pos)),
    {
        let mut rel: [u32; N] = [0u32; N];
        let mut i: usize = 0;
        while i < N
            invariant
                i <= N,
                self.wf(),
                self.spec_in_box(coords(pos)),
                forall|j: int| 0 <= j < i ==> rel[j] == (pos[j] - self.offset[j]) as u32,
            decreases N - i,
        {
            rel[i] = (pos[i] as i64 - self.offset[i] as i64) as u32;
            i += 1;
        }
        proof {
            assert(rel@ =~= self.relative(coords(pos)));
        }
        *self.cells.get(rel)
    }

    /// Number of cells that sampling may draw from: the inside and the border
    /// cells.
    pub fn allowed_count(&self) -> (r: usize)
        requires
            self.wf(),
        ensures
            r == self.inside_cells@.len() + self.border_cells@.len(),
    {
        proof {
            lemma_positions_len(
                self.offset@,
                self.cells.spec_shape(),
                self.cells.spec_data(),
                Cell::Inside,
                Cell::Border,
                self.total(),
            );
        }
        self.inside_cells.len() + self.border_cells.len()
    }

    /// The `k`-th of the inside cells followed by the border cells, and
    /// whether it is an inside cell.
    pub fn pick(&self, k: usize) -> (r: ([i32; N], bool))
        requires
            self.wf(),
            k < self.inside_cells@.len() + self.border_cells@.len(),
        ensures
            r.1 == (k < self.inside_cells@.len()),
            r.1 ==> r.0 == self.inside_cells@[k as int],
            !r.1 ==> r.0 == self.border_cells@[k - self.inside_cells@.len()],
    {
        if k < self.inside_cells.len() {
            (self.inside_cells[k], true)
        } else {
            (self.border_cells[k - self.inside_cells.len()], false)
        }
    }
}

/// The cells of two different bands among the first `k` number at most `k`.
proof fn lemma_positions_len(
    offset: Seq<i32>,
    shape: Seq<u32>,
    cells: Seq<Cell>,
    class: Cell,
    other: Cell,
    k: nat,
)
    requires
        class != other,
    ensures
        positions_with(offset, shape, cells, class, k).len() + positions_with(
            offset,
            shape,
            cells,
            other,
            k,
        ).len() <= k,
    decreases k,
{
    if k > 0 {
        lemma_positions_len(offset, shape, cells, class, other, (k - 1) as nat);
    }
}


/// Positions listed among the first `k` cells depend on those cells alone.
proof fn lemma_positions_agree(
    offset: Seq<i32>,
    shape: Seq<u32>,
    a: Seq<Cell>,
    b: Seq<Cell>,
    class: Cell,
    k: nat,
)
    requires
        k <= a.len(),
        k <= b.len(),
        forall|j: int| 0 <= j < k ==> a[j] == b[j],
    ensures
        positions_with(offset, shape, a, class, k) == positions_with(offset, shape, b, class, k),
    decreases k,
{
    if k > 0 {
        lemma_positions_agree(offset, shape, a, b, class, (k - 1) as nat);
    }
}

/// What the first `k` cells list for band `class` is the positions of cells
/// of that band, and holds every such position.
proof fn lemma_positions_with(
    offset: Seq<i32>,
    shape: Seq<u32>,
    cells: Seq<Cell>,
    class: Cell,
    k: nat,
)
    requires
        k <= cells.len(),
    ensures
        forall|j: int|
            0 <= j < positions_with(offset, shape, cells, class, k).len() ==> exists|m: nat|
                m < k && cells[m as int] == class && #[trigger] positions_with(
                    offset,
                    shape,
                    cells,
                    class,
                    k,
                )[j] == position_of(offset, shape, m),
        forall|m: nat|
            m < k && cells[m as int] == class ==> positions_with(
                offset,
                shape,
                cells,
                class,
                k,
            ).contains(#[trigger] position_of(offset, shape, m)),
    decreases k,
{
    if k > 0 {
        lemma_positions_with(offset, shape, cells, class, (k - 1) as nat);
        let prev = positions_with(offset, shape, cells, class, (k - 1) as nat);
        let cur = positions_with(offset, shape, cells, class, k);
        assert forall|m: nat| m < k && cells[m as int] == class implies cur.contains(
            #[trigger] position_of(offset, shape, m),
        ) by {
            if m < k - 1 {
                let q = choose|q: int| 0 <= q < prev.len() && prev[q] == position_of(offset, shape, m);
                assert(cur[q] == prev[q]);
            } else {
                assert(cur[cur.len() - 1] == position_of(offset, shape, m));
            }
        }
        assert forall|j: int| 0 <= j < cur.len() implies exists|m: nat|
            m < k && cells[m as int] == class && #[trigger] cur[j] == position_of(offset, shape, m) by {
            if j < prev.len() {
                assert(cur[j] == prev[j]);
            } else {
                assert(cur[j] == position_of(offset, shape, (k - 1) as nat));
            }
        }
    }
}

/// The cell at linear position `m` of the box has band `cells[m]`.
proof fn lemma_class_of_position<const N: usize>(g: &CellGrid<N>, m: nat)
    requires
        g.wf(),
        m < g.total(),
    ensures
        g.spec_in_box(position_of(g.offset@, g.cells.spec_shape(), m)),
        g.class_of(position_of(g.offset@, g.cells.spec_shape(), m)) == g.cells.spec_data()[m as int],
{
    let shape = g.cells.spec_shape();
    let pos = position_of(g.offset@, shape, m);
    lemma_cell_of_within(m, shape);
    crate::utils::lemma_product_positive(shape);
    assert(g.relative(pos) =~= cell_of(m, shape));
    crate::utils::lemma_linear_of_cell(m, shape);
    vstd::arithmetic::div_mod::lemma_small_mod(m, g.total());
}

/// Every cell that the grid lists as inside or border lies in the box and
/// has that band, and every cell of the box with one of these bands is
/// listed.
pub proof fn lemma_listed_cells<const N: usize>(g: &CellGrid<N>, class: Cell)
    requires
        g.wf(),
        class == Cell::Inside || class == Cell::Border,
    ensures
        forall|j: int|
            0 <= j < g.listed(class).len() ==> g.spec_in_box(#[trigger] g.listed(class)[j])
                && g.class_of(g.listed(class)[j]) == class,
        forall|pos: Seq<int>|
            g.spec_in_box(pos) && #[trigger] g.class_of(pos) == class ==> g.listed(class).contains(pos),
{
    let shape = g.cells.spec_shape();
    lemma_positions_with(g.offset@, shape, g.cells.spec_data(), class, g.total());
    assert forall|j: int| 0 <= j < g.listed(class).len() implies g.spec_in_box(
        #[trigger] g.listed(class)[j],
    ) && g.class_of(g.listed(class)[j]) == class by {
        let m = choose|m: nat|
            m < g.total() && g.cells.spec_data()[m as int] == class && g.listed(class)[j]
                == position_of(g.offset@, shape, m);
        lemma_class_of_position(g, m);
    }
    assert forall|pos: Seq<int>| g.spec_in_box(pos) && #[trigger] g.class_of(pos) == class implies g.listed(
        class,
    ).contains(pos) by {
        let u = g.relative(pos);
        assert(within_shape(u, shape));
        crate::utils::lemma_linear_bound(u, shape);
        crate::utils::lemma_cell_of_linear(u, shape);
        let m = linear_of(u, shape);
        assert(position_of(g.offset@, shape, m) =~= pos) by {
            assert forall|i: int| 0 <= i < N implies position_of(g.offset@, shape, m)[i] == pos[i] by {
                assert(cell_of(m, shape)[i] == u[i]);
            }
        }
        lemma_class_of_position(g, m);
    }
}

} // verus!
