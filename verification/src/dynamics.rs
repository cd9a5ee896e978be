//! The automaton as a mathematical value, and what one step makes of it.
//!
//! A step has a local pass, in which every cell that is not pinned is
//! multiplied by the sum of its neighbours and then rolls its lifecycle, and
//! a nonlocal pass, in which every observation of the local pass reaches the
//! observed cell's entangled partner.

use crate::chance::Rate;
use crate::existon::{
    collapse, lemma_collapse_is_multivector, observed, CellView, ConsciousnessState,
};
use crate::ga_core::{geometric_product, is_multivector, mv_add, mv_pure, mv_zero};
use crate::ga_laws::lemma_product_is_multivector;
use crate::lattice::{cell_count, coord_of, lemma_stride_positive, moore_neighbors, valid_shape};
use vstd::prelude::*;

verus! {

//================================================================================
// Entanglement
//================================================================================

/// A partner relation: nobody is their own partner, and the partner of one's
/// partner is oneself.
pub open spec fn valid_pairing(pairs: Map<u64, u64>) -> bool {
    forall|a: u64| #[trigger]
        pairs.contains_key(a) ==> pairs[a] != a && pairs.contains_key(pairs[a]) && pairs[pairs[a]]
            == a
}

/// The relation `pairs` with `a` and `b` made partners, where that is
/// allowed: they differ and neither has a partner yet.
pub open spec fn entangled(pairs: Map<u64, u64>, a: u64, b: u64) -> Map<u64, u64> {
    if a != b && !pairs.contains_key(a) && !pairs.contains_key(b) {
        pairs.insert(a, b).insert(b, a)
    } else {
        pairs
    }
}

/// `order` lists each of the ids `0 .. n` once.
pub open spec fn is_ordering_of_ids(order: Seq<u64>, n: nat) -> bool {
    &&& order.len() == n
    &&& order.no_duplicates()
    &&& forall|i: int| 0 <= i < n ==> #[trigger] order[i] < n
}

/// The relation that makes partners of the last two ids of `order`, of the
/// two before them, and so on, `count` times.
pub open spec fn pairing_from(order: Seq<u64>, count: nat) -> Map<u64, u64>
    decreases count,
{
    if count == 0 {
        Map::empty()
    } else {
        let done = (count - 1) as nat;
        let a = order[order.len() - 1 - 2 * done];
        let b = order[order.len() - 2 - 2 * done];
        pairing_from(order, done).insert(a, b).insert(b, a)
    }
}

/// Making partners of two ids that are free keeps a partner relation one.
pub proof fn lemma_entangled_is_valid(pairs: Map<u64, u64>, a: u64, b: u64)
    requires
        valid_pairing(pairs),
    ensures
        valid_pairing(entangled(pairs, a, b)),
{
    let next = entangled(pairs, a, b);
    if a != b && !pairs.contains_key(a) && !pairs.contains_key(b) {
        assert forall|x: u64| #[trigger] next.contains_key(x) implies next[x] != x
            && next.contains_key(next[x]) && next[next[x]] == x by {
            if x != a && x != b {
                assert(pairs.contains_key(x));
                assert(pairs.contains_key(pairs[x]));
            }
        }
    }
}

/// In a partner relation no id is the partner of two different ids.
pub proof fn lemma_partner_is_unique(pairs: Map<u64, u64>, a: u64, b: u64)
    requires
        valid_pairing(pairs),
        pairs.contains_key(a),
        pairs.contains_key(b),
        pairs[a] == pairs[b],
    ensures
        a == b,
{
}

/// In a partner relation the partner relation is symmetric.
pub proof fn lemma_partner_is_mutual(pairs: Map<u64, u64>, a: u64)
    requires
        valid_pairing(pairs),
        pairs.contains_key(a),
    ensures
        pairs[a] != a,
        pairs.contains_key(pairs[a]),
        pairs[pairs[a]] == a,
{
}

/// The ids that `pairing_from` has given a partner are the last `2 * count`
/// of the ordering, and the result is a partner relation.
pub proof fn lemma_pairing_from_is_valid(order: Seq<u64>, count: nat)
    requires
        order.no_duplicates(),
        2 * count <= order.len(),
    ensures
        valid_pairing(pairing_from(order, count)),
        forall|x: u64| #[trigger]
            pairing_from(order, count).contains_key(x) <==> exists|i: int|
                order.len() - 2 * count <= i < order.len() && #[trigger] order[i] == x,
    decreases count,
{
    if count > 0 {
        let done = (count - 1) as nat;
        let earlier = pairing_from(order, done);
        let ia = order.len() - 1 - 2 * done;
        let ib = order.len() - 2 - 2 * done;
        let a = order[ia];
        let b = order[ib];
        lemma_pairing_from_is_valid(order, done);
        assert(a != b);
        if earlier.contains_key(a) {
            let i = choose|i: int| order.len() - 2 * done <= i < order.len() && order[i] == a;
            assert(false);
        }
        if earlier.contains_key(b) {
            let i = choose|i: int| order.len() - 2 * done <= i < order.len() && order[i] == b;
            assert(false);
        }
        assert(pairing_from(order, count) == entangled(earlier, a, b));
        lemma_entangled_is_valid(earlier, a, b);
        let all = pairing_from(order, count);
        assert forall|x: u64| #[trigger] all.contains_key(x) <==> exists|i: int|
            order.len() - 2 * count <= i < order.len() && #[trigger] order[i] == x by {
            if all.contains_key(x) {
                if x == a {
                    assert(order[ia] == x);
                } else if x == b {
                    assert(order[ib] == x);
                } else {
                    assert(earlier.contains_key(x));
                    let i = choose|i: int|
                        order.len() - 2 * done <= i < order.len() && order[i] == x;
                    assert(order[i] == x);
                }
            }
            if exists|i: int|
                order.len() - 2 * count <= i < order.len() && #[trigger] order[i] == x {
                let i = choose|i: int|
                    order.len() - 2 * count <= i < order.len() && #[trigger] order[i] == x;
                if i != ia && i != ib {
                    assert(order.len() - 2 * done <= i < order.len() && order[i] == x);
                    assert(earlier.contains_key(x));
                }
            }
        }
    }
}

//================================================================================
// The automaton as a value
//================================================================================

/// The automaton as a mathematical value.
pub struct Model {
    /// Extents of the grid, one for each dimension.
    pub dims: Seq<usize>,
    /// Number of basis vectors of the algebra of the cell states.
    pub p: nat,
    /// The cells, by flat index.
    pub cells: Seq<CellView>,
    /// The partner of every entangled id.
    pub pairs: Map<u64, u64>,
    /// Chance that a `Potential` cell is observed in a step.
    pub observation_rate: Rate,
    /// Chance that an `Observed` cell decays in a step.
    pub decay_rate: Rate,
    /// Share of the cells that a fresh entanglement pairs up.
    pub entanglement_percentage: Rate,
    /// Chance that a `Potential` cell that was not observed takes a new
    /// random state in a step.
    pub fluctuation_rate: Rate,
}

impl Model {
    /// The value describes an automaton: a grid shape, one cell for every
    /// flat index with that index as its id and a state of the algebra, a
    /// partner relation, and four probabilities.
    pub open spec fn wf(self) -> bool {
        &&& valid_shape(self.dims)
        &&& self.p < usize::BITS
        &&& self.cells.len() == cell_count(self.dims)
        &&& forall|i: int|
            0 <= i < self.cells.len() ==> (#[trigger] self.cells[i]).id == i && is_multivector(
                self.cells[i].state,
                self.p,
            )
        &&& valid_pairing(self.pairs)
        &&& self.observation_rate.valid()
        &&& self.decay_rate.valid()
        &&& self.entanglement_percentage.valid()
        &&& self.fluctuation_rate.valid()
    }

    /// The states of the cells, by flat index.
    pub open spec fn states(self) -> Seq<Seq<int>> {
        Seq::new(self.cells.len(), |i: int| self.cells[i].state)
    }

    /// The automaton with other cells.
    pub open spec fn with_cells(self, cells: Seq<CellView>) -> Model {
        Model { cells, ..self }
    }

    /// The automaton with another partner relation.
    pub open spec fn with_pairs(self, pairs: Map<u64, u64>) -> Model {
        Model { pairs, ..self }
    }

    /// The automaton with the cell `idx` replaced.
    pub open spec fn with_cell(self, idx: int, cell: CellView) -> Model {
        Model { cells: self.cells.update(idx, cell), ..self }
    }

    /// The automaton with the cell `idx` pinned: an `Operator` in the state
    /// of a pinned cell.
    pub open spec fn pinned(self, idx: int) -> Model {
        self.with_cell(
            idx,
            CellView {
                id: self.cells[idx].id,
                phase: ConsciousnessState::Operator,
                state: operator_state(self.p),
            },
        )
    }

    /// The automaton with the cell `idx` made new: `Potential`, in the state
    /// `fresh`.
    pub open spec fn renewed(self, idx: int, fresh: Seq<int>) -> Model {
        self.with_cell(
            idx,
            CellView { id: self.cells[idx].id, phase: ConsciousnessState::Potential, state: fresh },
        )
    }
}

/// The state of a pinned cell: the first basis vector, or zero in the algebra
/// without basis vectors.
pub open spec fn operator_state(p: nat) -> Seq<int> {
    if p > 0 {
        mv_pure(p, 1, 1)
    } else {
        mv_zero(p)
    }
}

/// The multivector that inverts a state: the scalar -1.
pub open spec fn inversion(p: nat) -> Seq<int> {
    mv_pure(p, 0, -1)
}

//================================================================================
// The local pass
//================================================================================

/// The sum of the states of the first `k` cells listed in `among`, taken in
/// that order from zero by wraparound addition.
pub open spec fn influence(states: Seq<Seq<int>>, among: Seq<usize>, p: nat, k: nat) -> Seq<int>
    decreases k,
{
    if k == 0 {
        mv_zero(p)
    } else {
        mv_add(influence(states, among, p, (k - 1) as nat), states[among[k - 1] as int])
    }
}

/// The state that the local update gives cell `idx`: the sum of its
/// neighbours' states, multiplied from the left onto its own state.
pub open spec fn local_state(m: Model, idx: int) -> Seq<int> {
    let among = moore_neighbors(m.dims, coord_of(m.dims, idx as nat));
    geometric_product(influence(m.states(), among, m.p, among.len()), m.cells[idx].state, m.p)
}

/// What the random source decided for one cell in one step.
pub enum RollView {
    /// Nothing happens.
    Hold,
    /// The cell is observed.
    Observe,
    /// The cell takes this fresh state.
    Renew(Seq<int>),
}

/// The decision for cell `i`; a cell without one holds.
pub open spec fn roll_at(rolls: Seq<RollView>, i: int) -> RollView {
    if 0 <= i < rolls.len() {
        rolls[i]
    } else {
        RollView::Hold
    }
}

/// Cell `idx` after the local pass. A pinned cell is left as it is. Any other
/// cell takes its local state; then a `Potential` cell is observed or takes a
/// fresh state if the roll says so, and an `Observed` cell decays into a
/// fresh state if the roll says so.
pub open spec fn local_next(m: Model, idx: int, roll: RollView) -> CellView {
    let c = m.cells[idx];
    let moved = CellView { id: c.id, phase: c.phase, state: local_state(m, idx) };
    match c.phase {
        ConsciousnessState::Operator => c,
        ConsciousnessState::Potential => match roll {
            RollView::Hold => moved,
            RollView::Observe => observed(moved),
            RollView::Renew(fresh) => CellView {
                id: c.id,
                phase: ConsciousnessState::Potential,
                state: fresh,
            },
        },
        ConsciousnessState::Observed => match roll {
            RollView::Renew(fresh) => CellView {
                id: c.id,
                phase: ConsciousnessState::Potential,
                state: fresh,
            },
            _ => moved,
        },
    }
}

/// The cells after the local pass.
pub open spec fn local_pass(m: Model, rolls: Seq<RollView>) -> Seq<CellView> {
    Seq::new(m.cells.len(), |i: int| local_next(m, i, roll_at(rolls, i)))
}

/// Whether the local pass observes cell `i`.
pub open spec fn observes(m: Model, rolls: Seq<RollView>, i: int) -> bool {
    m.cells[i].phase == ConsciousnessState::Potential && roll_at(rolls, i) == RollView::Observe
}

/// The ids of the cells among the first `k` that the local pass observes, in
/// the order of their flat indices.
pub open spec fn observed_ids(m: Model, rolls: Seq<RollView>, k: nat) -> Seq<u64>
    decreases k,
{
    if k == 0 {
        Seq::empty()
    } else {
        let earlier = observed_ids(m, rolls, (k - 1) as nat);
        if observes(m, rolls, k - 1) {
            earlier.push(m.cells[k - 1].id)
        } else {
            earlier
        }
    }
}

//================================================================================
// The nonlocal pass
//================================================================================

/// The cells and the entanglement events of a step.
pub struct Outcome {
    /// The cells, by flat index.
    pub cells: Seq<CellView>,
    /// Every observation that reached a partner: the id of the observed cell
    /// and that of its partner.
    pub events: Seq<(u64, u64)>,
}

/// The partner of an observed cell after the observation has reached it:
/// observed too, with its collapsed state inverted.
pub open spec fn reached(c: CellView, p: nat) -> CellView {
    CellView {
        id: c.id,
        phase: ConsciousnessState::Observed,
        state: geometric_product(collapse(c.state), inversion(p), p),
    }
}

/// Whether an observation of `id` reaches a partner: `id` has one, that
/// partner is a cell, and the cell is still `Potential`.
pub open spec fn reaches(cells: Seq<CellView>, pairs: Map<u64, u64>, id: u64) -> bool {
    &&& pairs.contains_key(id)
    &&& pairs[id] < cells.len()
    &&& cells[pairs[id] as int].phase == ConsciousnessState::Potential
}

/// The nonlocal pass over the first `k` of the observed ids, in order.
pub open spec fn propagate(
    cells: Seq<CellView>,
    pairs: Map<u64, u64>,
    p: nat,
    ids: Seq<u64>,
    k: nat,
) -> Outcome
    decreases k,
{
    if k == 0 {
        Outcome { cells, events: Seq::empty() }
    } else {
        let earlier = propagate(cells, pairs, p, ids, (k - 1) as nat);
        let id = ids[k - 1];
        if reaches(earlier.cells, pairs, id) {
            let partner = pairs[id];
            Outcome {
                cells: earlier.cells.update(
                    partner as int,
                    reached(earlier.cells[partner as int], p),
                ),
                events: earlier.events.push((id, partner)),
            }
        } else {
            earlier
        }
    }
}

/// One step of the automaton under the decisions `rolls`.
pub open spec fn step(m: Model, rolls: Seq<RollView>) -> Outcome {
    let ids = observed_ids(m, rolls, m.cells.len());
    propagate(local_pass(m, rolls), m.pairs, m.p, ids, ids.len())
}

/// Whether the random source can have decided `roll` for a cell in the phase
/// `phase`: a trial at a rate of zero never succeeds, one at a rate of one
/// never fails, and a pinned cell rolls nothing.
pub open spec fn roll_possible(m: Model, phase: ConsciousnessState, roll: RollView) -> bool {
    match phase {
        ConsciousnessState::Operator => roll == RollView::Hold,
        ConsciousnessState::Potential => match roll {
            RollView::Observe => !m.observation_rate.is_never(),
            RollView::Renew(fresh) => !m.observation_rate.is_always()
                && !m.fluctuation_rate.is_never() && is_multivector(fresh, m.p),
            RollView::Hold => !m.observation_rate.is_always() && !m.fluctuation_rate.is_always(),
        },
        ConsciousnessState::Observed => match roll {
            RollView::Observe => false,
            RollView::Renew(fresh) => !m.decay_rate.is_never() && is_multivector(fresh, m.p),
            RollView::Hold => !m.decay_rate.is_always(),
        },
    }
}

/// Whether the random source can have made the decisions `rolls`, one for
/// every cell.
pub open spec fn rolls_possible(m: Model, rolls: Seq<RollView>) -> bool {
    &&& rolls.len() == m.cells.len()
    &&& forall|i: int|
        0 <= i < rolls.len() ==> roll_possible(m, m.cells[i].phase, #[trigger] rolls[i])
}

//================================================================================
// Laws of the step
//================================================================================

/// The nonlocal pass keeps the number of cells and every cell's id, and
/// changes no cell that is not `Potential`.
pub proof fn lemma_propagate_keeps(
    cells: Seq<CellView>,
    pairs: Map<u64, u64>,
    p: nat,
    ids: Seq<u64>,
    k: nat,
    i: int,
)
    requires
        0 <= i < cells.len(),
    ensures
        propagate(cells, pairs, p, ids, k).cells.len() == cells.len(),
        propagate(cells, pairs, p, ids, k).cells[i].id == cells[i].id,
        cells[i].phase != ConsciousnessState::Potential ==> propagate(cells, pairs, p, ids, k).cells[i]
            == cells[i],
    decreases k,
{
    if k > 0 {
        lemma_propagate_keeps(cells, pairs, p, ids, (k - 1) as nat, i);
    }
}

/// Whether every fresh state among the decisions is of the algebra over `p`
/// basis vectors.
pub open spec fn rolls_fit(rolls: Seq<RollView>, p: nat) -> bool {
    forall|i: int|
        0 <= i < rolls.len() ==> (#[trigger] rolls[i] matches RollView::Renew(fresh)
            ==> is_multivector(fresh, p))
}

/// The local pass leaves every cell its id and a state of the algebra.
pub proof fn lemma_local_next_is_cell(m: Model, rolls: Seq<RollView>, i: int)
    requires
        m.wf(),
        rolls_fit(rolls, m.p),
        0 <= i < m.cells.len(),
    ensures
        local_next(m, i, roll_at(rolls, i)).id == i,
        is_multivector(local_next(m, i, roll_at(rolls, i)).state, m.p),
{
    let among = moore_neighbors(m.dims, coord_of(m.dims, i as nat));
    let sum = influence(m.states(), among, m.p, among.len());
    lemma_product_is_multivector(sum, m.cells[i].state, m.p);
    lemma_collapse_is_multivector(local_state(m, i), m.p);
    if 0 <= i < rolls.len() {
        assert(rolls[i] matches RollView::Renew(fresh) ==> is_multivector(fresh, m.p));
    }
}

/// The nonlocal pass leaves every cell a state of the algebra.
pub proof fn lemma_propagate_is_cells(
    cells: Seq<CellView>,
    pairs: Map<u64, u64>,
    p: nat,
    ids: Seq<u64>,
    k: nat,
    i: int,
)
    requires
        0 <= i < cells.len(),
        is_multivector(cells[i].state, p),
    ensures
        is_multivector(propagate(cells, pairs, p, ids, k).cells[i].state, p),
    decreases k,
{
    if k > 0 {
        let earlier = propagate(cells, pairs, p, ids, (k - 1) as nat);
        lemma_propagate_is_cells(cells, pairs, p, ids, (k - 1) as nat, i);
        lemma_propagate_keeps(cells, pairs, p, ids, (k - 1) as nat, i);
        lemma_product_is_multivector(collapse(earlier.cells[i].state), inversion(p), p);
    }
}

/// A step takes an automaton to an automaton: the grid, the ids, the
/// algebra of the states, the partner relation and the rates stay.
pub proof fn lemma_step_keeps_wf(m: Model, rolls: Seq<RollView>)
    requires
        m.wf(),
        rolls_fit(rolls, m.p),
    ensures
        m.with_cells(step(m, rolls).cells).wf(),
{
    let local = local_pass(m, rolls);
    let ids = observed_ids(m, rolls, m.cells.len());
    let after = step(m, rolls).cells;
    lemma_stride_positive(m.dims, m.dims.len());
    lemma_propagate_keeps(local, m.pairs, m.p, ids, ids.len(), 0);
    assert forall|i: int| 0 <= i < after.len() implies (#[trigger] after[i]).id == i
        && is_multivector(after[i].state, m.p) by {
        lemma_local_next_is_cell(m, rolls, i);
        lemma_propagate_keeps(local, m.pairs, m.p, ids, ids.len(), i);
        lemma_propagate_is_cells(local, m.pairs, m.p, ids, ids.len(), i);
    }
}

/// A pinned cell is the same after a step, whatever the random source
/// decides.
pub proof fn lemma_operator_is_fixed(m: Model, rolls: Seq<RollView>, i: int)
    requires
        0 <= i < m.cells.len(),
        m.cells[i].phase == ConsciousnessState::Operator,
    ensures
        step(m, rolls).cells[i] == m.cells[i],
{
    let ids = observed_ids(m, rolls, m.cells.len());
    lemma_propagate_keeps(local_pass(m, rolls), m.pairs, m.p, ids, ids.len(), i);
}

/// With an observation rate of zero the random source observes no cell.
pub proof fn lemma_no_observation(m: Model, rolls: Seq<RollView>, k: nat)
    requires
        rolls_possible(m, rolls),
        m.observation_rate.is_never(),
        k <= m.cells.len(),
    ensures
        observed_ids(m, rolls, k) == Seq::<u64>::empty(),
    decreases k,
{
    if k > 0 {
        lemma_no_observation(m, rolls, (k - 1) as nat);
        assert(roll_possible(m, m.cells[k - 1].phase, rolls[k - 1]));
    }
}

/// With an observation rate of zero a step is its local pass, and has no
/// entanglement events.
pub proof fn lemma_no_observation_no_event(m: Model, rolls: Seq<RollView>)
    requires
        rolls_possible(m, rolls),
        m.observation_rate.is_never(),
    ensures
        step(m, rolls).events == Seq::<(u64, u64)>::empty(),
        step(m, rolls).cells == local_pass(m, rolls),
{
    lemma_no_observation(m, rolls, m.cells.len());
}

} // verus!
