//! The cell of the automaton and its lifecycle: a multivector state that is
//! either in superposition, collapsed by an observation, or pinned.

use crate::ga_core::{grade, is_multivector, popcount, Mod3, Multivector};
use vstd::prelude::*;

verus! {

/// The lifecycle phase of a cell.
#[derive(Clone, Copy, Debug, PartialEq, Eq, Structural)]
pub enum ConsciousnessState {
    /// In superposition, not yet observed.
    Potential,
    /// Collapsed by an observation.
    Observed,
    /// Pinned: a fixed cell that only acts on its neighbours.
    Operator,
}

/// One cell: an identity, a lifecycle phase and a multivector state.
#[derive(Debug, PartialEq)]
pub struct Existon {
    /// The cell's identity, which never changes.
    pub id: u64,
    /// The cell's lifecycle phase.
    pub consciousness: ConsciousnessState,
    /// The cell's algebraic state.
    pub state: Multivector,
}

/// A cell as a mathematical value.
pub struct CellView {
    /// The cell's identity.
    pub id: u64,
    /// The cell's lifecycle phase.
    pub phase: ConsciousnessState,
    /// The coefficients of the cell's state.
    pub state: Seq<int>,
}

/// The state left by an observation: every coefficient of a blade of grade 2
/// or more is 0, the scalar and vector parts are kept.
pub open spec fn collapse(s: Seq<int>) -> Seq<int> {
    Seq::new(
        s.len(),
        |i: int|
            if popcount(i as nat) >= 2 {
                0int
            } else {
                s[i]
            },
    )
}

/// The cell after an observation: a `Potential` cell becomes `Observed` with
/// a collapsed state, any other cell is left as it is.
pub open spec fn observed(c: CellView) -> CellView {
    if c.phase == ConsciousnessState::Potential {
        CellView { id: c.id, phase: ConsciousnessState::Observed, state: collapse(c.state) }
    } else {
        c
    }
}

/// The cell after a decay into the state `fresh`: an `Observed` cell becomes
/// `Potential` with that state, any other cell is left as it is.
pub open spec fn decayed(c: CellView, fresh: Seq<int>) -> CellView {
    if c.phase == ConsciousnessState::Observed {
        CellView { id: c.id, phase: ConsciousnessState::Potential, state: fresh }
    } else {
        c
    }
}

impl View for Existon {
    type V = CellView;

    open spec fn view(&self) -> CellView {
        CellView { id: self.id, phase: self.consciousness, state: self.state@ }
    }
}

impl Clone for Existon {
    fn clone(&self) -> (r: Self)
        ensures
            r@ == self@,
            r.state.dim() == self.state.dim(),
    {
        Existon { id: self.id, consciousness: self.consciousness, state: self.state.clone() }
    }
}

impl Existon {
    /// The cell's state is a multivector of some algebra.
    pub open spec fn wf(&self) -> bool {
        self.state.wf()
    }

    /// A `Potential` cell with a random state over `p` basis vectors.
    pub fn new(id: u64, p: usize) -> (r: Self)
        requires
            p < usize::BITS,
        ensures
            r.id == id,
            r.consciousness == ConsciousnessState::Potential,
            r.state.dim() == p,
            r.wf(),
    {
        Existon { id, consciousness: ConsciousnessState::Potential, state: Multivector::random(p) }
    }

    /// Observes the cell: a `Potential` cell becomes `Observed`, and its
    /// state collapses to its scalar and vector parts. Any other cell is left
    /// as it is.
    pub fn observe(&mut self)
        ensures
            final(self)@ == observed(old(self)@),
            final(self).state.dim() == old(self).state.dim(),
            old(self).wf() ==> final(self).wf(),
    {
        if self.consciousness == ConsciousnessState::Potential {
            self.consciousness = ConsciousnessState::Observed;
            let n: usize = self.state.len();
            let mut i: usize = 0;
            while i < n
                invariant
                    i <= n,
                    n == old(self).state@.len(),
                    self.state@.len() == n,
                    self.id == old(self).id,
                    self.consciousness == ConsciousnessState::Observed,
                    self.state.dim() == old(self).state.dim(),
                    forall|k: int|
                        0 <= k < n ==> #[trigger] self.state@[k] == (if k < i && popcount(k as nat)
                            >= 2 {
                            0int
                        } else {
                            old(self).state@[k]
                        }),
                decreases n - i,
            {
                if grade(i) >= 2 {
                    self.state.set(i, Mod3::new(0));
                }
                i = i + 1;
            }
            assert(self.state@ =~= collapse(old(self).state@));
        }
    }

    /// Lets the cell decay: an `Observed` cell becomes `Potential` again, with
    /// a fresh random state of the same algebra. Any other cell is left as it
    /// is.
    pub fn decay(&mut self)
        requires
            old(self).wf(),
        ensures
            final(self)@ == decayed(old(self)@, final(self).state@),
            final(self).state.dim() == old(self).state.dim(),
            final(self).wf(),
    {
        if self.consciousness == ConsciousnessState::Observed {
            self.consciousness = ConsciousnessState::Potential;
            self.state = Multivector::random(self.state.p());
        }
    }
}

/// A second observation changes nothing.
pub proof fn lemma_observe_idempotent(c: CellView)
    ensures
        observed(observed(c)) == observed(c),
{
}

/// Once a `Potential` cell is observed, the coefficient of every blade of
/// grade 2 or more is 0, and the other coefficients are as before.
pub proof fn lemma_observed_is_classical(c: CellView, blade: int)
    requires
        c.phase == ConsciousnessState::Potential,
        0 <= blade < c.state.len(),
    ensures
        observed(c).phase == ConsciousnessState::Observed,
        popcount(blade as nat) >= 2 ==> observed(c).state[blade] == 0,
        popcount(blade as nat) < 2 ==> observed(c).state[blade] == c.state[blade],
{
}

/// A decay changes `Observed` cells only: a `Potential` or a pinned cell is
/// left as it is.
pub proof fn lemma_decay_only_affects_observed(c: CellView, fresh: Seq<int>)
    requires
        c.phase != ConsciousnessState::Observed,
    ensures
        decayed(c, fresh) == c,
{
}

/// A collapse keeps a multivector a multivector of the same algebra.
pub proof fn lemma_collapse_is_multivector(s: Seq<int>, p: nat)
    requires
        is_multivector(s, p),
    ensures
        is_multivector(collapse(s), p),
{
}

} // verus!
