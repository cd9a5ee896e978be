//! The automaton: an N-dimensional toroidal grid of cells, the entanglement
//! between them, and the rates that drive their lifecycle.

use crate::chance::{pair_quota, shuffle_ids, Rate};
use crate::dynamics::{
    entangled, influence, inversion, is_ordering_of_ids, lemma_entangled_is_valid,
    lemma_pairing_from_is_valid, local_next, local_pass, observed_ids, operator_state,
    pairing_from, propagate, reached, roll_at, roll_possible, rolls_possible, step,
    valid_pairing, Model, RollView,
};
use crate::existon::{
    decayed, lemma_collapse_is_multivector, observed, CellView, ConsciousnessState, Existon,
};
use crate::ga_core::{is_multivector, DimensionMismatch, Mod3, Multivector};
use crate::lattice::{
    all_positive, cell_count, coord_of, coordinate_at, flat_index, index_of, is_zero_offset,
    lemma_neighbor_coord_valid, lemma_neighbors_in_range, lemma_offset_count_monotonic,
    lemma_stride_monotonic, lemma_stride_positive, lemma_wrap_step, moore_neighbors,
    neighbors_among, offset_count, offset_digit, remainder_at, shifted, stride, valid_coord,
    valid_shape,
};
use std::collections::HashMap;
use vstd::prelude::*;

verus! {

broadcast use vstd::std_specs::hash::group_hash_axioms;

/// The automaton.
#[derive(Debug, Clone)]
pub struct Universe {
    /// Number of basis vectors of the algebra of the cell states.
    ga_dims: usize,
    /// Extents of the grid, one for each dimension.
    grid_dims: Vec<usize>,
    /// The cells, by flat index.
    grid: Vec<Existon>,
    /// The partner of every entangled id.
    entangled_pairs: HashMap<u64, u64>,
    /// Chance that a `Potential` cell is observed in a step.
    observation_rate: Rate,
    /// Chance that an `Observed` cell decays in a step.
    decay_rate: Rate,
    /// Share of the cells that a fresh entanglement pairs up.
    entanglement_percentage: Rate,
    /// Chance that a `Potential` cell that was not observed takes a new
    /// random state in a step.
    fluctuation_rate: Rate,
}

/// What the random source decided for one cell in one step.
#[derive(Debug, Clone, PartialEq, Eq)]
pub enum Roll {
    /// Nothing happens.
    Hold,
    /// The cell is observed.
    Observe,
    /// The cell takes this fresh state.
    Renew(Multivector),
}

impl View for Roll {
    type V = RollView;

    open spec fn view(&self) -> RollView {
        match self {
            Roll::Hold => RollView::Hold,
            Roll::Observe => RollView::Observe,
            Roll::Renew(fresh) => RollView::Renew(fresh@),
        }
    }
}

impl Roll {
    /// A fresh state, if the roll holds one, is a multivector.
    pub open spec fn wf(&self) -> bool {
        self matches Roll::Renew(fresh) ==> fresh.wf()
    }

    /// A fresh state, if the roll holds one, is over `p` basis vectors.
    pub open spec fn fits(&self, p: nat) -> bool {
        self matches Roll::Renew(fresh) ==> fresh.dim() == p
    }
}

/// The decisions as mathematical values.
pub open spec fn roll_views(rolls: Seq<Roll>) -> Seq<RollView> {
    Seq::new(rolls.len(), |i: int| rolls[i]@)
}

impl View for Universe {
    type V = Model;

    closed spec fn view(&self) -> Model {
        Model {
            dims: self.grid_dims@,
            p: self.ga_dims as nat,
            cells: Seq::new(self.grid@.len(), |i: int| self.grid@[i]@),
            pairs: self.entangled_pairs@,
            observation_rate: self.observation_rate,
            decay_rate: self.decay_rate,
            entanglement_percentage: self.entanglement_percentage,
            fluctuation_rate: self.fluctuation_rate,
        }
    }
}

/// Multiplies the extents, or reports that the product does not fit.
fn checked_cell_count(dims: &Vec<usize>) -> (r: Option<usize>)
    requires
        all_positive(dims@),
    ensures
        r.is_some() <==> cell_count(dims@) <= usize::MAX,
        r matches Some(n) ==> n == cell_count(dims@),
{
    let mut product: usize = 1;
    let mut k: usize = 0;
    while k < dims.len()
        invariant
            k <= dims@.len(),
            all_positive(dims@),
            product == stride(dims@, k as nat),
        decreases dims@.len() - k,
    {
        match product.checked_mul(dims[k]) {
            Some(next) => {
                product = next;
            },
            None => {
                proof {
                    lemma_stride_monotonic(dims@, (k + 1) as nat, dims@.len());
                }
                return None;
            },
        }
        k = k + 1;
    }
    Some(product)
}

/// Computes `3^n`, or reports that it does not fit.
fn checked_offset_count(n: usize) -> (r: Option<usize>)
    ensures
        r.is_some() <==> offset_count(n as nat) <= usize::MAX,
        r matches Some(total) ==> total == offset_count(n as nat),
{
    let mut total: usize = 1;
    let mut k: usize = 0;
    while k < n
        invariant
            k <= n,
            total == offset_count(k as nat),
        decreases n - k,
    {
        match total.checked_mul(3) {
            Some(next) => {
                total = next;
            },
            None => {
                proof {
                    lemma_offset_count_monotonic((k + 1) as nat, n as nat);
                }
                return None;
            },
        }
        k = k + 1;
    }
    Some(total)
}

impl Universe {
    /// Every cell state belongs to the automaton's algebra.
    pub closed spec fn states_fit(&self) -> bool {
        forall|i: int|
            0 <= i < self.grid@.len() ==> (#[trigger] self.grid@[i]).state.dim() == self.ga_dims
    }

    /// The automaton is well formed: its value is, and every cell state
    /// belongs to its algebra.
    pub open spec fn wf(&self) -> bool {
        &&& self@.wf()
        &&& self.states_fit()
    }

    /// Whether an automaton of this shape fits this machine: the extents are
    /// positive, the number of cells and the number `3^N` of offset vectors
    /// fit an index, and so does the number `2^p` of basis blades.
    pub open spec fn fits(grid_dims: Seq<usize>, ga_dims: usize) -> bool {
        &&& valid_shape(grid_dims)
        &&& ga_dims < usize::BITS
    }

    /// Tests `fits`.
    pub fn shape_fits(grid_dims: &Vec<usize>, ga_dims: usize) -> (ok: bool)
        ensures
            ok == Self::fits(grid_dims@, ga_dims),
    {
        if ga_dims >= usize::BITS as usize {
            return false;
        }
        let mut k: usize = 0;
        while k < grid_dims.len()
            invariant
                k <= grid_dims@.len(),
                forall|j: int| 0 <= j < k ==> #[trigger] grid_dims@[j] > 0,
            decreases grid_dims@.len() - k,
        {
            if grid_dims[k] == 0 {
                return false;
            }
            k = k + 1;
        }
        checked_cell_count(grid_dims).is_some() && checked_offset_count(grid_dims.len()).is_some()
    }

    /// An automaton with the given grid extents whose cells are `Potential`
    /// with random states over `ga_dims` basis vectors, with the default
    /// rates, and with a random entanglement of one cell in twenty.
    pub fn new(grid_dims: Vec<usize>, ga_dims: usize) -> (u: Self)
        requires
            Self::fits(grid_dims@, ga_dims),
        ensures
            u.wf(),
            u@.dims == grid_dims@,
            u@.p == ga_dims,
            forall|i: int|
                0 <= i < u@.cells.len() ==> (#[trigger] u@.cells[i]).phase
                    == ConsciousnessState::Potential,
            u@.observation_rate.num() == 1 && u@.observation_rate.den() == 2000,
            u@.decay_rate.num() == 1 && u@.decay_rate.den() == 100,
            u@.entanglement_percentage.num() == 1 && u@.entanglement_percentage.den() == 20,
            u@.fluctuation_rate.num() == 1 && u@.fluctuation_rate.den() == 1000,
            exists|order: Seq<u64>|
                is_ordering_of_ids(order, u@.cells.len()) && u@.pairs == pairing_from(
                    order,
                    pair_quota(u@.cells.len(), 1, 20),
                ),
    {
        let size: usize = checked_cell_count(&grid_dims).unwrap();
        let mut grid: Vec<Existon> = Vec::new();
        let mut i: usize = 0;
        while i < size
            invariant
                i <= size,
                ga_dims < usize::BITS,
                grid@.len() == i,
                forall|k: int|
                    0 <= k < i ==> (#[trigger] grid@[k]).id == k && grid@[k].consciousness
                        == ConsciousnessState::Potential && grid@[k].state.dim() == ga_dims
                        && grid@[k].wf(),
            decreases size - i,
        {
            grid.push(Existon::new(i as u64, ga_dims));
            i = i + 1;
        }
        let initial_entanglement: Rate = Rate::new(1, 20).unwrap();
        let entangled_pairs = Self::generate_entangled_pairs(size, initial_entanglement);
        Universe {
            grid_dims,
            ga_dims,
            grid,
            entangled_pairs,
            observation_rate: Rate::new(1, 2000).unwrap(),
            decay_rate: Rate::new(1, 100).unwrap(),
            entanglement_percentage: initial_entanglement,
            fluctuation_rate: Rate::new(1, 1000).unwrap(),
        }
    }

    /// A random partner relation among the ids `0 .. size`: the ids are
    /// shuffled, and partners are made of the last two, of the two before
    /// them, and so on, until the share `percentage` of the ids has a partner.
    fn generate_entangled_pairs(size: usize, percentage: Rate) -> (pairs: HashMap<u64, u64>)
        ensures
            valid_pairing(pairs@),
            exists|order: Seq<u64>|
                is_ordering_of_ids(order, size as nat) && pairs@ == pairing_from(
                    order,
                    pair_quota(size as nat, percentage.num(), percentage.den()),
                ),
    {
        let mut entangled_pairs: HashMap<u64, u64> = HashMap::new();
        let num_pairs: usize = percentage.pairs_among(size);
        let mut available_ids: Vec<u64> = Vec::new();
        let mut next: usize = 0;
        while next < size
            invariant
                next <= size,
                available_ids@.len() == next,
                forall|k: int| 0 <= k < next ==> #[trigger] available_ids@[k] == k,
            decreases size - next,
        {
            available_ids.push(next as u64);
            next = next + 1;
        }
        let ghost sorted = available_ids@;
        shuffle_ids(&mut available_ids);
        let ghost order = available_ids@;
        proof {
            lemma_shuffle_is_ordering(sorted, order);
        }
        let mut formed: usize = 0;
        while formed < num_pairs && available_ids.len() >= 2
            invariant
                formed <= num_pairs,
                2 * num_pairs <= size,
                order.len() == size,
                order.no_duplicates(),
                available_ids@ == order.take(size - 2 * formed),
                entangled_pairs@ == pairing_from(order, formed as nat),
            decreases num_pairs - formed,
        {
            let id1: u64 = available_ids.pop().unwrap();
            let id2: u64 = available_ids.pop().unwrap();
            entangled_pairs.insert(id1, id2);
            entangled_pairs.insert(id2, id1);
            formed = formed + 1;
            proof {
                assert(available_ids@ =~= order.take(size - 2 * formed));
            }
        }
        proof {
            assert(available_ids@.len() == size - 2 * formed);
            assert(formed == num_pairs);
            lemma_pairing_from_is_valid(order, formed as nat);
            assert(is_ordering_of_ids(order, size as nat));
        }
        entangled_pairs
    }

    //----------------------------------------------------------------------------
    // Reading and tuning
    //----------------------------------------------------------------------------

    /// Number of basis vectors of the algebra of the cell states.
    pub fn ga_dims(&self) -> (p: usize)
        ensures
            p == self@.p,
    {
        self.ga_dims
    }

    /// Extents of the grid, one for each dimension.
    pub fn grid_dims(&self) -> (dims: &Vec<usize>)
        ensures
            dims@ == self@.dims,
    {
        &self.grid_dims
    }

    /// The cells, by flat index.
    pub fn grid(&self) -> (cells: &Vec<Existon>)
        ensures
            cells@.len() == self@.cells.len(),
            forall|i: int| 0 <= i < cells@.len() ==> (#[trigger] cells@[i])@ == self@.cells[i],
            self.wf() ==> forall|i: int| 0 <= i < cells@.len() ==> (#[trigger] cells@[i]).wf(),
    {
        proof {
            if self.wf() {
                assert forall|i: int| 0 <= i < self.grid@.len() implies (#[trigger] self.grid@[i]).wf() by {
                    assert(is_multivector(self@.cells[i].state, self@.p));
                }
            }
        }
        &self.grid
    }

    /// The partner of every entangled id.
    pub fn entangled_pairs(&self) -> (pairs: &HashMap<u64, u64>)
        ensures
            pairs@ == self@.pairs,
    {
        &self.entangled_pairs
    }

    /// Chance that a `Potential` cell is observed in a step.
    pub fn observation_rate(&self) -> (rate: Rate)
        ensures
            rate == self@.observation_rate,
    {
        self.observation_rate
    }

    /// Chance that an `Observed` cell decays in a step.
    pub fn decay_rate(&self) -> (rate: Rate)
        ensures
            rate == self@.decay_rate,
    {
        self.decay_rate
    }

    /// Share of the cells that a fresh entanglement pairs up.
    pub fn entanglement_percentage(&self) -> (rate: Rate)
        ensures
            rate == self@.entanglement_percentage,
    {
        self.entanglement_percentage
    }

    /// Chance that a `Potential` cell that was not observed takes a new
    /// random state in a step.
    pub fn fluctuation_rate(&self) -> (rate: Rate)
        ensures
            rate == self@.fluctuation_rate,
    {
        self.fluctuation_rate
    }

    /// Sets the chance that a `Potential` cell is observed in a step.
    pub fn set_observation_rate(&mut self, rate: Rate)
        requires
            old(self).wf(),
        ensures
            final(self).wf(),
            final(self)@ == (Model { observation_rate: rate, ..old(self)@ }),
    {
        proof {
            use_type_invariant(&rate);
        }
        self.observation_rate = rate;
    }

    /// Sets the chance that an `Observed` cell decays in a step.
    pub fn set_decay_rate(&mut self, rate: Rate)
        requires
            old(self).wf(),
        ensures
            final(self).wf(),
            final(self)@ == (Model { decay_rate: rate, ..old(self)@ }),
    {
        proof {
            use_type_invariant(&rate);
        }
        self.decay_rate = rate;
    }

    /// Sets the share of the cells that a fresh entanglement pairs up. The
    /// partnerships that exist are kept.
    pub fn set_entanglement_percentage(&mut self, rate: Rate)
        requires
            old(self).wf(),
        ensures
            final(self).wf(),
            final(self)@ == (Model { entanglement_percentage: rate, ..old(self)@ }),
    {
        proof {
            use_type_invariant(&rate);
        }
        self.entanglement_percentage = rate;
    }

    /// Sets the chance that a `Potential` cell that was not observed takes a
    /// new random state in a step.
    pub fn set_fluctuation_rate(&mut self, rate: Rate)
        requires
            old(self).wf(),
        ensures
            final(self).wf(),
            final(self)@ == (Model { fluctuation_rate: rate, ..old(self)@ }),
    {
        proof {
            use_type_invariant(&rate);
        }
        self.fluctuation_rate = rate;
    }

    //----------------------------------------------------------------------------
    // Coordinates
    //----------------------------------------------------------------------------

    /// The flat index of the cell at `coord`, if `coord` names a cell: it has
    /// one coordinate for each dimension, each below its extent.
    pub fn get_index_from_coord(&self, coord: &[usize]) -> (r: Option<usize>)
        requires
            self.wf(),
        ensures
            r.is_some() <==> valid_coord(self@.dims, coord@),
            r matches Some(index) ==> index == index_of(self@.dims, coord@) && index
                < self@.cells.len(),
    {
        let n: usize = self.grid_dims.len();
        if coord.len() != n {
            return None;
        }
        let ghost dims = self.grid_dims@;
        let mut index: usize = 0;
        let mut stride: usize = 1;
        let mut i: usize = 0;
        while i < n
            invariant
                i <= n,
                n == dims.len(),
                dims == self.grid_dims@,
                coord@.len() == n,
                all_positive(dims),
                cell_count(dims) <= usize::MAX,
                forall|k: int| 0 <= k < i ==> #[trigger] coord@[k] < dims[k],
                index == flat_index(dims, coord@, i as nat),
                index < stride,
                stride == crate::lattice::stride(dims, i as nat),
            decreases n - i,
        {
            let c: usize = coord[i];
            if c >= self.grid_dims[i] {
                return None;
            }
            proof {
                let s = stride as int;
                let d = dims[i as int] as int;
                lemma_stride_monotonic(dims, (i + 1) as nat, n as nat);
                assert(index + s * c < s * d && s * c == c * s) by (nonlinear_arith)
                    requires
                        0 <= index < s,
                        0 <= c < d,
                ;
            }
            index = index + stride * c;
            stride = stride * self.grid_dims[i];
            i = i + 1;
        }
        Some(index)
    }

    /// The coordinate of the cell with the flat index `index`, taken out of
    /// the index from the highest dimension down. For the index of a cell it
    /// names that cell.
    pub fn get_coord_from_index(&self, index: usize) -> (coord: Vec<usize>)
        requires
            self.wf(),
        ensures
            coord@ == coord_of(self@.dims, index as nat),
            index < self@.cells.len() ==> valid_coord(self@.dims, coord@) && index_of(
                self@.dims,
                coord@,
            ) == index,
    {
        let n: usize = self.grid_dims.len();
        let ghost dims = self.grid_dims@;
        let mut coord: Vec<usize> = Vec::new();
        let mut filled: usize = 0;
        while filled < n
            invariant
                filled <= n,
                coord@.len() == filled,
            decreases n - filled,
        {
            coord.push(0);
            filled = filled + 1;
        }
        let mut rest: usize = index;
        let mut stride: usize = self.grid.len();
        let mut i: usize = n;
        while i > 0
            invariant
                i <= n,
                n == dims.len(),
                dims == self.grid_dims@,
                coord@.len() == n,
                all_positive(dims),
                stride == crate::lattice::stride(dims, i as nat),
                rest == remainder_at(dims, index as nat, i as nat),
                forall|k: int|
                    i <= k < n ==> #[trigger] coord@[k] == coordinate_at(
                        dims,
                        index as nat,
                        k as nat,
                    ),
            decreases i,
        {
            i = i - 1;
            proof {
                let lower = crate::lattice::stride(dims, i as nat) as int;
                let d = dims[i as int] as int;
                lemma_stride_positive(dims, i as nat);
                assert((lower * d) / d == lower) by (nonlinear_arith)
                    requires
                        d > 0,
                ;
            }
            stride = stride / self.grid_dims[i];
            coord[i] = rest / stride;
            rest = rest % stride;
        }
        proof {
            assert(coord@ =~= coord_of(dims, index as nat));
            if index < self@.cells.len() {
                crate::lattice::lemma_index_of_coord_of(dims, index as nat);
            }
        }
        coord
    }

    /// The flat indices of the Moore neighbourhood of the cell at `coord`:
    /// the cells at every offset vector with entries -1, 0, +1 but the zero
    /// vector, wrapping around in every dimension, in increasing order of the
    /// offset index.
    fn get_neighbors(&self, coord: &[usize]) -> (neighbors: Vec<usize>)
        requires
            self.wf(),
            valid_coord(self@.dims, coord@),
        ensures
            neighbors@ == moore_neighbors(self@.dims, coord@),
            forall|t: int| 0 <= t < neighbors@.len() ==> #[trigger] neighbors@[t] < self@.cells.len(),
    {
        let n_dims: usize = self.grid_dims.len();
        let ghost dims = self.grid_dims@;
        let total: usize = checked_offset_count(n_dims).unwrap();
        let mut neighbors: Vec<usize> = Vec::new();
        let mut i: usize = 0;
        while i < total
            invariant
                i <= total,
                total == offset_count(n_dims as nat),
                n_dims == dims.len(),
                dims == self.grid_dims@,
                self.wf(),
                valid_coord(dims, coord@),
                neighbors@ == neighbors_among(dims, coord@, i as nat),
            decreases total - i,
        {
            let mut neighbor_coord: Vec<usize> = Vec::new();
            let mut temp: usize = i;
            let mut is_zero: bool = true;
            let mut d: usize = 0;
            while d < n_dims
                invariant
                    d <= n_dims,
                    n_dims == dims.len(),
                    dims == self.grid_dims@,
                    valid_coord(dims, coord@),
                    temp == shifted(i as nat, d as nat),
                    is_zero == is_zero_offset(i as nat, d as nat),
                    neighbor_coord@.len() == d,
                    forall|k: int|
                        0 <= k < d ==> #[trigger] neighbor_coord@[k] == crate::lattice::neighbor_coord(
                            dims,
                            coord@,
                            i as nat,
                        )[k],
                decreases n_dims - d,
            {
                let digit: usize = temp % 3;
                let c: usize = coord[d];
                let extent: usize = self.grid_dims[d];
                proof {
                    assert(coord@[d as int] < dims[d as int]);
                    lemma_wrap_step(c as int, digit as int, extent as int);
                    assert(offset_digit(i as nat, d as nat) == digit);
                }
                let moved: usize = if digit == 0 {
                    if c == 0 {
                        extent - 1
                    } else {
                        c - 1
                    }
                } else if digit == 1 {
                    c
                } else {
                    if c + 1 == extent {
                        0
                    } else {
                        c + 1
                    }
                };
                if digit != 1 {
                    is_zero = false;
                }
                neighbor_coord.push(moved);
                temp = temp / 3;
                d = d + 1;
            }
            proof {
                assert(neighbor_coord@ =~= crate::lattice::neighbor_coord(dims, coord@, i as nat));
                lemma_neighbor_coord_valid(dims, coord@, i as nat);
            }
            if !is_zero {
                match self.get_index_from_coord(neighbor_coord.as_slice()) {
                    Some(idx) => {
                        neighbors.push(idx);
                    },
                    None => {},
                }
            }
            i = i + 1;
        }
        proof {
            lemma_neighbors_in_range(dims, coord@, total as nat);
        }
        neighbors
    }

    //----------------------------------------------------------------------------
    // Editing
    //----------------------------------------------------------------------------

    /// The state of a pinned cell: the first basis vector with coefficient
    /// +1, or zero in the algebra without basis vectors.
    fn fixed_operator_state(&self) -> (mv: Multivector)
        requires
            self.wf(),
        ensures
            mv.wf(),
            mv.dim() == self@.p,
            mv@ == operator_state(self@.p),
    {
        let mut mv = Multivector::zero(self.ga_dims);
        if self.ga_dims > 0 {
            proof {
                vstd::arithmetic::power2::lemma_pow2_strictly_increases(0, self.ga_dims as nat);
                vstd::arithmetic::power2::lemma2_to64();
            }
            mv.set(1, Mod3::new(1));
        }
        assert(mv@ =~= operator_state(self@.p));
        mv
    }

    /// The multivector that inverts a state: the scalar -1.
    fn entanglement_inversion_operator(&self) -> (mv: Multivector)
        requires
            self.wf(),
        ensures
            mv.wf(),
            mv.dim() == self@.p,
            mv@ == inversion(self@.p),
    {
        let mut mv = Multivector::zero(self.ga_dims);
        proof {
            vstd::arithmetic::power2::lemma_pow2_pos(self.ga_dims as nat);
        }
        mv.set(0, Mod3::new(-1));
        assert(mv@ =~= inversion(self@.p));
        mv
    }

    /// Pins the cell at `coord`: it becomes an `Operator` in the state of a
    /// pinned cell. Nothing happens if `coord` names no cell.
    pub fn set_operator(&mut self, coord: &[usize])
        requires
            old(self).wf(),
        ensures
            final(self).wf(),
            valid_coord(old(self)@.dims, coord@) ==> final(self)@ == old(self)@.pinned(
                index_of(old(self)@.dims, coord@) as int,
            ),
            !valid_coord(old(self)@.dims, coord@) ==> final(self)@ == old(self)@,
    {
        match self.get_index_from_coord(coord) {
            Some(idx) => {
                let state = self.fixed_operator_state();
                self.grid[idx].consciousness = ConsciousnessState::Operator;
                self.grid[idx].state = state;
                proof {
                    assert(self@.cells =~= old(self)@.pinned(idx as int).cells);
                }
            },
            None => {},
        }
    }

    /// Resets the cell at `coord` to a new `Potential` cell with the same id
    /// and a fresh random state, whatever its phase was. Nothing happens if
    /// `coord` names no cell.
    pub fn clear_operator(&mut self, coord: &[usize])
        requires
            old(self).wf(),
        ensures
            final(self).wf(),
            valid_coord(old(self)@.dims, coord@) ==> final(self)@ == old(self)@.renewed(
                index_of(old(self)@.dims, coord@) as int,
                final(self)@.cells[index_of(old(self)@.dims, coord@) as int].state,
            ),
            !valid_coord(old(self)@.dims, coord@) ==> final(self)@ == old(self)@,
    {
        match self.get_index_from_coord(coord) {
            Some(idx) => {
                let id: u64 = self.grid[idx].id;
                self.grid[idx] = Existon::new(id, self.ga_dims);
                proof {
                    assert(self@.cells =~= old(self)@.renewed(
                        idx as int,
                        self@.cells[idx as int].state,
                    ).cells);
                }
            },
            None => {},
        }
    }

    /// Disrupts the cell `idx`: an `Observed` cell decays to `Potential` with
    /// a fresh random state. Nothing happens to a cell in another phase, or
    /// if there is no cell `idx`.
    pub fn disrupt_cell(&mut self, idx: usize)
        requires
            old(self).wf(),
        ensures
            final(self).wf(),
            idx < old(self)@.cells.len() ==> final(self)@ == old(self)@.with_cell(
                idx as int,
                decayed(old(self)@.cells[idx as int], final(self)@.cells[idx as int].state),
            ),
            idx >= old(self)@.cells.len() ==> final(self)@ == old(self)@,
    {
        if idx < self.grid.len() {
            self.grid[idx].decay();
            proof {
                assert(self@.cells =~= old(self)@.with_cell(
                    idx as int,
                    decayed(old(self)@.cells[idx as int], self@.cells[idx as int].state),
                ).cells);
            }
        }
    }

    /// Observes the cell `idx`: a `Potential` cell becomes `Observed` and its
    /// state collapses. Nothing happens to a cell in another phase, or if
    /// there is no cell `idx`.
    pub fn observe_cell(&mut self, idx: usize)
        requires
            old(self).wf(),
        ensures
            final(self).wf(),
            idx < old(self)@.cells.len() ==> final(self)@ == old(self)@.with_cell(
                idx as int,
                observed(old(self)@.cells[idx as int]),
            ),
            idx >= old(self)@.cells.len() ==> final(self)@ == old(self)@,
    {
        if idx < self.grid.len() {
            self.grid[idx].observe();
            proof {
                lemma_collapse_is_multivector(old(self)@.cells[idx as int].state, self@.p);
                assert(self@.cells =~= old(self)@.with_cell(
                    idx as int,
                    observed(old(self)@.cells[idx as int]),
                ).cells);
            }
        }
    }

    /// Replaces the state of the cell `idx`. A state of another algebra is
    /// refused. Nothing happens if there is no cell `idx`.
    pub fn set_state(&mut self, idx: usize, state: Multivector) -> (r: Result<
        (),
        DimensionMismatch,
    >)
        requires
            old(self).wf(),
            state.wf(),
        ensures
            final(self).wf(),
            r.is_err() <==> state.dim() != old(self)@.p,
            r matches Err(e) ==> e.left == old(self)@.p && e.right == state.dim() && final(self)@
                == old(self)@,
            r.is_ok() && idx < old(self)@.cells.len() ==> final(self)@ == old(self)@.with_cell(
                idx as int,
                CellView {
                    id: old(self)@.cells[idx as int].id,
                    phase: old(self)@.cells[idx as int].phase,
                    state: state@,
                },
            ),
            r.is_ok() && idx >= old(self)@.cells.len() ==> final(self)@ == old(self)@,
    {
        if state.p() != self.ga_dims {
            return Err(DimensionMismatch { left: self.ga_dims, right: state.p() });
        }
        if idx < self.grid.len() {
            self.grid[idx].state = state;
            proof {
                assert(self@.cells =~= old(self)@.with_cell(
                    idx as int,
                    CellView {
                        id: old(self)@.cells[idx as int].id,
                        phase: old(self)@.cells[idx as int].phase,
                        state: state@,
                    },
                ).cells);
            }
        }
        Ok(())
    }

    //----------------------------------------------------------------------------
    // Entanglement
    //----------------------------------------------------------------------------

    /// Makes partners of the ids `id1` and `id2`, if they differ and neither
    /// has a partner yet. Nothing happens otherwise.
    pub fn entangle_pair(&mut self, id1: u64, id2: u64)
        requires
            old(self).wf(),
        ensures
            final(self).wf(),
            final(self)@ == old(self)@.with_pairs(entangled(old(self)@.pairs, id1, id2)),
    {
        proof {
            lemma_entangled_is_valid(self@.pairs, id1, id2);
        }
        if id1 != id2 && !self.entangled_pairs.contains_key(&id1)
            && !self.entangled_pairs.contains_key(&id2) {
            self.entangled_pairs.insert(id1, id2);
            self.entangled_pairs.insert(id2, id1);
        }
    }

    /// Discards every partnership and entangles the cells anew at random:
    /// the ids are shuffled, and partners are made of the last two, of the two
    /// before them, and so on, until the share `entanglement_percentage` of
    /// the cells has a partner.
    pub fn re_entangle(&mut self)
        requires
            old(self).wf(),
        ensures
            final(self).wf(),
            final(self)@ == old(self)@.with_pairs(final(self)@.pairs),
            exists|order: Seq<u64>|
                is_ordering_of_ids(order, old(self)@.cells.len()) && final(self)@.pairs
                    == pairing_from(
                    order,
                    pair_quota(
                        old(self)@.cells.len(),
                        old(self)@.entanglement_percentage.num(),
                        old(self)@.entanglement_percentage.den(),
                    ),
                ),
    {
        self.entangled_pairs =
        Self::generate_entangled_pairs(self.grid.len(), self.entanglement_percentage);
    }

    //----------------------------------------------------------------------------
    // The step
    //----------------------------------------------------------------------------

    /// Rolls the lifecycle of a cell in the given phase. A `Potential` cell
    /// is observed at the observation rate; if it is not, it takes a fresh
    /// random state at the fluctuation rate. An `Observed` cell decays into a
    /// fresh random state at the decay rate. A pinned cell rolls nothing.
    fn roll(&self, phase: ConsciousnessState) -> (roll: Roll)
        requires
            self.wf(),
        ensures
            roll.wf(),
            roll.fits(self@.p),
            roll_possible(self@, phase, roll@),
    {
        match phase {
            ConsciousnessState::Potential => {
                if self.observation_rate.sample() {
                    Roll::Observe
                } else if self.fluctuation_rate.sample() {
                    Roll::Renew(Multivector::random(self.ga_dims))
                } else {
                    Roll::Hold
                }
            },
            ConsciousnessState::Observed => {
                if self.decay_rate.sample() {
                    Roll::Renew(Multivector::random(self.ga_dims))
                } else {
                    Roll::Hold
                }
            },
            ConsciousnessState::Operator => Roll::Hold,
        }
    }

    /// Rolls the lifecycle of every cell, in the order of the flat indices.
    fn roll_all(&self) -> (rolls: Vec<Roll>)
        requires
            self.wf(),
        ensures
            rolls_possible(self@, roll_views(rolls@)),
            forall|i: int|
                0 <= i < rolls@.len() ==> (#[trigger] rolls@[i]).wf() && rolls@[i].fits(self@.p),
    {
        let n: usize = self.grid.len();
        let mut rolls: Vec<Roll> = Vec::new();
        let mut idx: usize = 0;
        while idx < n
            invariant
                idx <= n,
                n == self.grid@.len(),
                self.wf(),
                rolls@.len() == idx,
                forall|i: int|
                    0 <= i < idx ==> (#[trigger] rolls@[i]).wf() && rolls@[i].fits(self@.p)
                        && roll_possible(self@, self@.cells[i].phase, rolls@[i]@),
            decreases n - idx,
        {
            let roll = self.roll(self.grid[idx].consciousness);
            rolls.push(roll);
            idx = idx + 1;
        }
        rolls
    }

    /// The sum of the states of the cells listed in `among`, taken in that
    /// order from zero by wraparound addition.
    fn influence_of(&self, among: &Vec<usize>) -> (sum: Multivector)
        requires
            self.wf(),
            forall|t: int| 0 <= t < among@.len() ==> #[trigger] among@[t] < self@.cells.len(),
        ensures
            sum.wf(),
            sum.dim() == self@.p,
            sum@ == influence(self@.states(), among@, self@.p, among@.len()),
    {
        let mut operator = Multivector::zero(self.ga_dims);
        let mut t: usize = 0;
        while t < among.len()
            invariant
                t <= among@.len(),
                self.wf(),
                forall|k: int| 0 <= k < among@.len() ==> #[trigger] among@[k] < self@.cells.len(),
                operator.wf(),
                operator.dim() == self@.p,
                operator@ == influence(self@.states(), among@, self@.p, t as nat),
            decreases among@.len() - t,
        {
            let neighbor_idx: usize = among[t];
            proof {
                assert(among@[t as int] < self@.cells.len());
                assert(is_multivector(self@.cells[neighbor_idx as int].state, self@.p));
                assert(self.grid@[neighbor_idx as int].state.dim() == self@.p);
            }
            operator = operator.add(&self.grid[neighbor_idx].state).unwrap();
            t = t + 1;
        }
        operator
    }

    /// Cell `idx` after the local pass under the decision `roll`.
    fn local_update(&self, idx: usize, roll: &Roll) -> (next: Existon)
        requires
            self.wf(),
            idx < self@.cells.len(),
            roll.wf(),
            roll.fits(self@.p),
        ensures
            next@ == local_next(self@, idx as int, roll@),
            next.state.dim() == self@.p,
            is_multivector(next@.state, self@.p),
    {
        let cell = &self.grid[idx];
        if cell.consciousness == ConsciousnessState::Operator {
            return cell.clone();
        }
        let coord = self.get_coord_from_index(idx);
        let neighbor_indices = self.get_neighbors(coord.as_slice());
        let operator = self.influence_of(&neighbor_indices);
        let product = operator.geometric_product(&cell.state).unwrap();
        let mut next = Existon { id: cell.id, consciousness: cell.consciousness, state: product };
        match roll {
            Roll::Hold => {},
            Roll::Observe => {
                proof {
                    lemma_collapse_is_multivector(next@.state, self@.p);
                }
                next.observe();
            },
            Roll::Renew(fresh) => {
                next =
                Existon {
                    id: cell.id,
                    consciousness: ConsciousnessState::Potential,
                    state: fresh.clone(),
                };
            },
        }
        next
    }

    /// One step of the automaton under given decisions of the random source,
    /// one for every cell by flat index; a cell without a decision holds.
    ///
    /// In the local pass every cell that is not pinned takes the product of
    /// the sum of its neighbours' states with its own state, all read from the
    /// grid as it was before the step, and then follows its decision. In the
    /// nonlocal pass every cell that the local pass observed, in the order of
    /// the flat indices, reaches its partner: a partner that is still
    /// `Potential` is observed too and its state inverted. Returns those
    /// observations, each as the ids of the observed cell and of its partner.
    ///
    /// A fresh state of another algebra is refused, and nothing changes.
    pub fn advance(&mut self, rolls: &Vec<Roll>) -> (r: Result<Vec<(u64, u64)>, DimensionMismatch>)
        requires
            old(self).wf(),
            forall|i: int| 0 <= i < rolls@.len() ==> (#[trigger] rolls@[i]).wf(),
        ensures
            final(self).wf(),
            r.is_ok() <==> forall|i: int|
                0 <= i < rolls@.len() ==> (#[trigger] rolls@[i]).fits(old(self)@.p),
            r matches Err(e) ==> final(self)@ == old(self)@ && e.left == old(self)@.p && e.right
                != e.left,
            r matches Ok(events) ==> final(self)@ == old(self)@.with_cells(
                step(old(self)@, roll_views(rolls@)).cells,
            ) && events@ == step(old(self)@, roll_views(rolls@)).events,
    {
        let mut checked: usize = 0;
        while checked < rolls.len()
            invariant
                checked <= rolls@.len(),
                self.wf(),
                self@ == old(self)@,
                forall|i: int| 0 <= i < checked ==> (#[trigger] rolls@[i]).fits(self@.p),
            decreases rolls@.len() - checked,
        {
            match &rolls[checked] {
                Roll::Renew(fresh) => {
                    if fresh.p() != self.ga_dims {
                        return Err(DimensionMismatch { left: self.ga_dims, right: fresh.p() });
                    }
                },
                _ => {},
            }
            checked = checked + 1;
        }
        let ghost before = self@;
        let ghost decisions = roll_views(rolls@);
        let n: usize = self.grid.len();
        let hold = Roll::Hold;
        let mut next_grid: Vec<Existon> = Vec::new();
        let mut observed_in_tick: Vec<u64> = Vec::new();
        let mut idx: usize = 0;
        while idx < n
            invariant
                idx <= n,
                n == self.grid@.len(),
                self.wf(),
                before == self@,
                decisions == roll_views(rolls@),
                hold@ == RollView::Hold,
                forall|i: int|
                    0 <= i < rolls@.len() ==> (#[trigger] rolls@[i]).wf() && rolls@[i].fits(
                        self@.p,
                    ),
                next_grid@.len() == idx,
                forall|k: int|
                    0 <= k < idx ==> (#[trigger] next_grid@[k])@ == local_next(
                        before,
                        k,
                        roll_at(decisions, k),
                    ) && next_grid@[k].state.dim() == before.p && is_multivector(
                        next_grid@[k]@.state,
                        before.p,
                    ),
                observed_in_tick@ == observed_ids(before, decisions, idx as nat),
            decreases n - idx,
        {
            let roll: &Roll = if idx < rolls.len() {
                &rolls[idx]
            } else {
                &hold
            };
            let next = self.local_update(idx, roll);
            if self.grid[idx].consciousness == ConsciousnessState::Potential {
                match roll {
                    Roll::Observe => {
                        observed_in_tick.push(next.id);
                    },
                    _ => {},
                }
            }
            next_grid.push(next);
            idx = idx + 1;
        }
        let ghost local = local_pass(before, decisions);
        let ghost ids = observed_in_tick@;
        proof {
            assert(Seq::new(next_grid@.len(), |i: int| next_grid@[i]@) =~= local);
        }
        let entanglement_inversion = self.entanglement_inversion_operator();
        let mut triggered_entanglements: Vec<(u64, u64)> = Vec::new();
        let mut t: usize = 0;
        while t < observed_in_tick.len()
            invariant
                t <= ids.len(),
                ids == observed_in_tick@,
                n == next_grid@.len(),
                n == before.cells.len(),
                before == self@,
                self.wf(),
                entanglement_inversion.wf(),
                entanglement_inversion.dim() == before.p,
                entanglement_inversion@ == inversion(before.p),
                Seq::new(next_grid@.len(), |i: int| next_grid@[i]@) == propagate(
                    local,
                    before.pairs,
                    before.p,
                    ids,
                    t as nat,
                ).cells,
                triggered_entanglements@ == propagate(
                    local,
                    before.pairs,
                    before.p,
                    ids,
                    t as nat,
                ).events,
                forall|k: int|
                    0 <= k < n ==> (#[trigger] next_grid@[k]).id == k && next_grid@[k].state.dim()
                        == before.p && is_multivector(next_grid@[k]@.state, before.p),
            decreases ids.len() - t,
        {
            let id: u64 = observed_in_tick[t];
            let ghost earlier = propagate(local, before.pairs, before.p, ids, t as nat);
            match self.entangled_pairs.get(&id) {
                Some(partner) => {
                    let partner_id: u64 = *partner;
                    if partner_id < n as u64 {
                        let partner_idx: usize = partner_id as usize;
                        if next_grid[partner_idx].consciousness == ConsciousnessState::Potential {
                            proof {
                                lemma_collapse_is_multivector(
                                    next_grid@[partner_idx as int]@.state,
                                    before.p,
                                );
                            }
                            next_grid[partner_idx].observe();
                            let inverted = next_grid[partner_idx].state.geometric_product(
                                &entanglement_inversion,
                            ).unwrap();
                            next_grid[partner_idx].state = inverted;
                            triggered_entanglements.push((id, partner_id));
                            proof {
                                assert(Seq::new(next_grid@.len(), |i: int| next_grid@[i]@)
                                    =~= earlier.cells.update(
                                    partner_idx as int,
                                    reached(earlier.cells[partner_idx as int], before.p),
                                ));
                            }
                        }
                    }
                },
                None => {},
            }
            t = t + 1;
        }
        self.grid = next_grid;
        proof {
            assert(self@.cells =~= step(before, decisions).cells);
        }
        Ok(triggered_entanglements)
    }

    /// One step of the automaton: rolls the lifecycle of every cell, in the
    /// order of the flat indices, and advances under those decisions. Returns
    /// the observations that reached a partner, each as the ids of the
    /// observed cell and of its partner.
    pub fn tick(&mut self) -> (events: Vec<(u64, u64)>)
        requires
            old(self).wf(),
        ensures
            final(self).wf(),
            exists|rolls: Seq<RollView>|
                rolls_possible(old(self)@, rolls) && final(self)@ == old(self)@.with_cells(
                    step(old(self)@, rolls).cells,
                ) && events@ == step(old(self)@, rolls).events,
    {
        let rolls = self.roll_all();
        let events = self.advance(&rolls).unwrap();
        proof {
            let decisions = roll_views(rolls@);
            assert(rolls_possible(old(self)@, decisions) && self@ == old(self)@.with_cells(
                step(old(self)@, decisions).cells,
            ) && events@ == step(old(self)@, decisions).events);
        }
        events
    }
}

/// A reordering of the ids `0 .. n` lists each of them once.
proof fn lemma_shuffle_is_ordering(sorted: Seq<u64>, order: Seq<u64>)
    requires
        forall|k: int| 0 <= k < sorted.len() ==> #[trigger] sorted[k] == k,
        order.to_multiset() == sorted.to_multiset(),
    ensures
        is_ordering_of_ids(order, sorted.len()),
{
    broadcast use vstd::seq_lib::group_to_multiset_ensures;

    assert(sorted.no_duplicates());
    sorted.lemma_multiset_has_no_duplicates();
    order.lemma_multiset_has_no_duplicates_conv();
    assert(order.len() == sorted.len()) by {
        vstd::seq_lib::to_multiset_len(order);
        vstd::seq_lib::to_multiset_len(sorted);
    }
    assert forall|i: int| 0 <= i < order.len() implies #[trigger] order[i] < sorted.len() by {
        vstd::seq_lib::to_multiset_contains(order, order[i]);
        vstd::seq_lib::to_multiset_contains(sorted, order[i]);
        assert(order.contains(order[i]));
        assert(sorted.contains(order[i]));
        let k = choose|k: int| 0 <= k < sorted.len() && sorted[k] == order[i];
        assert(sorted[k] == k);
    }
}

} // verus!
