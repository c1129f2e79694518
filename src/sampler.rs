//! Random choice of the cells that sampling draws points from.
use crate::grid::{coords, Cell, CellGrid};
use rand::Rng;
use rand_pcg::Pcg64Mcg;
use vstd::prelude::*;

verus! {

/// The generator of rand_pcg behind `Pcg64Mcg`, carried through opaquely.
#[verifier::external_type_specification]
#[verifier::external_body]
pub struct ExMcg128Xsl64(rand_pcg::Mcg128Xsl64);

/// Relies on rand::Rng::gen_range over `0..n`: a value below `n`. It panics
/// on an empty range, which `requires` leaves out.
#[verifier::external_body]
fn draw_below(rng: &mut Pcg64Mcg, n: usize) -> (r: usize)
    requires
        n > 0,
    ensures
        r < n,
{
    rng.gen_range(0..n)
}

/// A classified grid with the random generator that sampling draws from.
pub struct Sampler<const N: usize> {
    /// The grid whose inside and border cells are drawn.
    pub volume: CellGrid<N>,
    /// The generator of every draw, cells and offsets alike.
    pub rng: Pcg64Mcg,
}

impl<const N: usize> Sampler<N> {
    /// A sampler over `volume` that draws from `rng`.
    pub fn with_rng(volume: CellGrid<N>, rng: Pcg64Mcg) -> (r: Self)
        ensures
            r.volume == volume,
            r.rng == rng,
    {
        Sampler { volume, rng }
    }

    /// Draws one of the inside and border cells, all equally likely, and says
    /// whether it is an inside cell.
    pub fn draw_cell(&mut self) -> (r: ([i32; N], bool))
        requires
            old(self).volume.wf(),
            old(self).volume.inside_cells@.len() + old(self).volume.border_cells@.len() > 0,
        ensures
            final(self).volume == old(self).volume,
            r.1 ==> old(self).volume.inside_cells@.contains(r.0),
            !r.1 ==> old(self).volume.border_cells@.contains(r.0),
    {
        let allowed = self.volume.allowed_count();
        let k = draw_below(&mut self.rng, allowed);
        let r = self.volume.pick(k);
        proof {
            if r.1 {
                assert(self.volume.inside_cells@[k as int] == r.0);
            } else {
                assert(self.volume.border_cells@[k - self.volume.inside_cells@.len()] == r.0);
            }
        }
        r
    }

    /// Whether a point in the cell `cell` of the grid lies in the region: an
    /// inside cell holds only such points and an outside cell none; for a
    /// border cell `exact` decides.
    pub fn contains<F: Fn() -> bool>(&self, cell: [i32; N], exact: F) -> (r: bool)
        requires
            self.volume.wf(),
            self.volume.spec_in_box(coords(cell)),
            exact.requires(()),
        ensures
            self.volume.class_of(coords(cell)) == Cell::Inside ==> r,
            self.volume.class_of(coords(cell)) == Cell::Outside ==> !r,
            self.volume.class_of(coords(cell)) == Cell::Border ==> exact.ensures((), r),
    {
        match self.volume.class_at(cell) {
            Cell::Inside => true,
            Cell::Outside => false,
            Cell::Border => exact(),
        }
    }
}

} // verus!
