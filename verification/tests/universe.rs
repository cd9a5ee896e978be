use existon_automaton::chance::Rate;
use existon_automaton::existon::ConsciousnessState;
use existon_automaton::ga_core::{grade, DimensionMismatch, Mod3, Multivector};
use existon_automaton::universe::{Roll, Universe};
use std::collections::HashMap;

fn state(p: usize, coefficients: &[i8]) -> Multivector {
    let scalars: Vec<Mod3> = coefficients.iter().map(|&c| Mod3::new(c)).collect();
    Multivector::from_coefficients(p, scalars).unwrap()
}

fn values(m: &Multivector) -> Vec<i8> {
    (0..m.len()).map(|i| m.get(i).value()).collect()
}

fn rate(numerator: u32, denominator: u32) -> Rate {
    Rate::new(numerator, denominator).unwrap()
}

/// A universe in which nothing happens by chance.
fn still_universe(grid_dims: Vec<usize>, ga_dims: usize) -> Universe {
    let mut universe = Universe::new(grid_dims, ga_dims);
    universe.set_observation_rate(rate(0, 1));
    universe.set_decay_rate(rate(0, 1));
    universe.set_fluctuation_rate(rate(0, 1));
    universe
}

fn load(universe: &mut Universe, states: &[Vec<i8>]) {
    let p = universe.ga_dims();
    for (idx, coefficients) in states.iter().enumerate() {
        universe.set_state(idx, state(p, coefficients)).unwrap();
    }
}

fn phases(universe: &Universe) -> Vec<ConsciousnessState> {
    universe.grid().iter().map(|cell| cell.consciousness).collect()
}

fn assert_valid_pairing(pairs: &HashMap<u64, u64>) {
    for (&a, &b) in pairs {
        assert_ne!(a, b, "{a} is its own partner");
        assert_eq!(pairs.get(&b), Some(&a), "{a} -> {b} has no way back");
    }
}

fn example_states() -> Vec<Vec<i8>> {
    vec![
        vec![1, 1, -1, 0],
        vec![1, 1, -1, 0],
        vec![1, -1, -1, 0],
        vec![0, -1, -1, -1],
        vec![0, 0, 1, 0],
        vec![0, -1, -1, 0],
        vec![1, 1, 0, 0],
        vec![0, -1, 1, 1],
        vec![0, 0, -1, -1],
    ]
}

fn example_products() -> Vec<Vec<i8>> {
    vec![
        vec![1, -1, 1, 1],
        vec![1, -1, 1, 1],
        vec![0, 1, -1, -1],
        vec![0, -1, -1, -1],
        vec![1, -1, 1, -1],
        vec![0, 0, 1, 0],
        vec![1, 1, 0, 0],
        vec![0, -1, -1, -1],
        vec![0, 0, 0, 0],
    ]
}

#[test]
fn new_universe_has_one_potential_cell_per_index() {
    let universe = Universe::new(vec![4, 3, 2], 3);
    assert_eq!(universe.grid_dims(), &vec![4, 3, 2]);
    assert_eq!(universe.ga_dims(), 3);
    assert_eq!(universe.grid().len(), 24);
    for (idx, cell) in universe.grid().iter().enumerate() {
        assert_eq!(cell.id, idx as u64);
        assert_eq!(cell.consciousness, ConsciousnessState::Potential);
        assert_eq!(cell.state.p(), 3);
        assert_eq!(cell.state.len(), 8);
    }
}

#[test]
fn new_universe_has_the_default_rates() {
    let universe = Universe::new(vec![2, 2], 1);
    assert_eq!(universe.observation_rate(), rate(1, 2000));
    assert_eq!(universe.decay_rate(), rate(1, 100));
    assert_eq!(universe.entanglement_percentage(), rate(1, 20));
    assert_eq!(universe.fluctuation_rate(), rate(1, 1000));
}

#[test]
fn new_universe_entangles_one_cell_in_twenty() {
    let universe = Universe::new(vec![20, 10], 1);
    assert_eq!(universe.entangled_pairs().len(), 10);
    assert_valid_pairing(universe.entangled_pairs());
    assert!(universe.entangled_pairs().keys().all(|&id| id < 200));
    let small = Universe::new(vec![3, 3], 1);
    assert!(small.entangled_pairs().is_empty());
}

#[test]
fn universe_without_dimensions_has_one_cell() {
    let mut universe = still_universe(Vec::new(), 2);
    assert_eq!(universe.grid().len(), 1);
    assert_eq!(universe.get_index_from_coord(&[]), Some(0));
    assert_eq!(universe.get_coord_from_index(0), Vec::<usize>::new());
    universe.set_state(0, state(2, &[1, 1, 1, 1])).unwrap();
    assert!(universe.tick().is_empty());
    // No neighbours: the influence is zero, and so is the product.
    assert_eq!(values(&universe.grid()[0].state), vec![0, 0, 0, 0]);
}

#[test]
fn shape_fits_tests_the_limits() {
    assert!(Universe::shape_fits(&vec![3, 3], 1));
    assert!(Universe::shape_fits(&vec![120, 80], 3));
    assert!(Universe::shape_fits(&Vec::new(), 0));
    assert!(!Universe::shape_fits(&vec![3, 0], 1));
    assert!(!Universe::shape_fits(&vec![usize::MAX, 2], 1));
    assert!(!Universe::shape_fits(&vec![3, 3], usize::BITS as usize));
    assert!(Universe::shape_fits(&vec![3, 3], usize::BITS as usize - 1));
    assert!(!Universe::shape_fits(&vec![1; 64], 1));
    assert!(Universe::shape_fits(&vec![1; 20], 1));
}

#[test]
fn set_operator_pins_a_cell() {
    let mut universe = still_universe(vec![3, 3], 2);
    universe.set_operator(&[1, 1]);
    let cell = &universe.grid()[4];
    assert_eq!(cell.id, 4);
    assert_eq!(cell.consciousness, ConsciousnessState::Operator);
    assert_eq!(values(&cell.state), vec![0, 1, 0, 0]);
    for (idx, phase) in phases(&universe).iter().enumerate() {
        if idx != 4 {
            assert_eq!(*phase, ConsciousnessState::Potential);
        }
    }
}

#[test]
fn set_operator_in_the_algebra_without_vectors() {
    let mut universe = still_universe(vec![2], 0);
    universe.set_operator(&[1]);
    assert_eq!(universe.grid()[1].consciousness, ConsciousnessState::Operator);
    assert_eq!(values(&universe.grid()[1].state), vec![0]);
}

#[test]
fn set_operator_ignores_what_is_no_cell() {
    let mut universe = still_universe(vec![3, 3], 1);
    let before = universe.grid().clone();
    universe.set_operator(&[3, 0]);
    universe.set_operator(&[0]);
    universe.set_operator(&[0, 0, 0]);
    assert_eq!(universe.grid(), &before);
}

#[test]
fn clear_operator_makes_the_cell_new() {
    let mut universe = still_universe(vec![3, 3], 2);
    universe.set_operator(&[2, 1]);
    assert_eq!(universe.grid()[5].consciousness, ConsciousnessState::Operator);
    universe.clear_operator(&[2, 1]);
    let cell = &universe.grid()[5];
    assert_eq!(cell.id, 5);
    assert_eq!(cell.consciousness, ConsciousnessState::Potential);
    assert_eq!(cell.state.p(), 2);
}

#[test]
fn clear_operator_resets_any_phase() {
    let mut universe = still_universe(vec![2, 2], 6);
    universe.observe_cell(1);
    assert_eq!(universe.grid()[1].consciousness, ConsciousnessState::Observed);
    universe.clear_operator(&[1, 0]);
    assert_eq!(universe.grid()[1].consciousness, ConsciousnessState::Potential);
    assert_eq!(universe.grid()[1].id, 1);
    // A cell that is Potential already gets a fresh state too.
    let zero = Multivector::zero(6);
    let mut renewed = false;
    for _ in 0..10 {
        universe.set_state(2, zero.clone()).unwrap();
        universe.clear_operator(&[0, 1]);
        assert_eq!(universe.grid()[2].consciousness, ConsciousnessState::Potential);
        if universe.grid()[2].state != zero {
            renewed = true;
        }
    }
    assert!(renewed);
}

#[test]
fn clear_operator_ignores_what_is_no_cell() {
    let mut universe = still_universe(vec![2, 2], 1);
    let before = universe.grid().clone();
    universe.clear_operator(&[0, 2]);
    universe.clear_operator(&[1]);
    assert_eq!(universe.grid(), &before);
}

#[test]
fn observe_cell_collapses_one_cell() {
    let mut universe = still_universe(vec![3], 2);
    universe.set_state(1, state(2, &[1, -1, 1, -1])).unwrap();
    let before = universe.grid().clone();
    universe.observe_cell(1);
    assert_eq!(universe.grid()[1].consciousness, ConsciousnessState::Observed);
    assert_eq!(values(&universe.grid()[1].state), vec![1, -1, 1, 0]);
    assert_eq!(universe.grid()[0], before[0]);
    assert_eq!(universe.grid()[2], before[2]);
    let once = universe.grid().clone();
    universe.observe_cell(1);
    assert_eq!(universe.grid(), &once);
    universe.observe_cell(3);
    assert_eq!(universe.grid(), &once);
}

#[test]
fn disrupt_cell_only_touches_observed_cells() {
    let mut universe = still_universe(vec![3], 2);
    universe.set_operator(&[2]);
    let before = universe.grid().clone();
    universe.disrupt_cell(0);
    universe.disrupt_cell(2);
    universe.disrupt_cell(7);
    assert_eq!(universe.grid(), &before);
    universe.observe_cell(0);
    universe.disrupt_cell(0);
    assert_eq!(universe.grid()[0].consciousness, ConsciousnessState::Potential);
    assert_eq!(universe.grid()[0].id, 0);
    assert_eq!(universe.grid()[0].state.p(), 2);
    assert_eq!(universe.grid()[1], before[1]);
    assert_eq!(universe.grid()[2], before[2]);
}

#[test]
fn set_state_refuses_another_algebra() {
    let mut universe = still_universe(vec![2], 2);
    let before = universe.grid().clone();
    assert_eq!(
        universe.set_state(0, Multivector::zero(3)),
        Err(DimensionMismatch { left: 2, right: 3 })
    );
    assert_eq!(universe.grid(), &before);
    assert_eq!(universe.set_state(5, Multivector::zero(2)), Ok(()));
    assert_eq!(universe.grid(), &before);
    assert_eq!(universe.set_state(1, state(2, &[1, 0, 0, -1])), Ok(()));
    assert_eq!(values(&universe.grid()[1].state), vec![1, 0, 0, -1]);
    assert_eq!(universe.grid()[1].consciousness, ConsciousnessState::Potential);
    assert_eq!(universe.grid()[0], before[0]);
}

#[test]
fn entangle_pair_is_symmetric() {
    let mut universe = still_universe(vec![3, 3], 1);
    universe.entangle_pair(0, 4);
    assert_eq!(universe.entangled_pairs().len(), 2);
    assert_eq!(universe.entangled_pairs().get(&0), Some(&4));
    assert_eq!(universe.entangled_pairs().get(&4), Some(&0));
}

#[test]
fn entangle_pair_refuses_self_and_taken_ids() {
    let mut universe = still_universe(vec![3, 3], 1);
    universe.entangle_pair(2, 2);
    assert!(universe.entangled_pairs().is_empty());
    universe.entangle_pair(0, 4);
    universe.entangle_pair(0, 5);
    universe.entangle_pair(6, 4);
    universe.entangle_pair(4, 0);
    assert_eq!(universe.entangled_pairs().len(), 2);
    assert_eq!(universe.entangled_pairs().get(&0), Some(&4));
    assert_eq!(universe.entangled_pairs().get(&4), Some(&0));
    universe.entangle_pair(7, 8);
    assert_eq!(universe.entangled_pairs().len(), 4);
    assert_valid_pairing(universe.entangled_pairs());
}

#[test]
fn re_entangle_pairs_the_asked_share() {
    let mut universe = still_universe(vec![10, 10], 1);
    universe.set_entanglement_percentage(rate(1, 2));
    universe.re_entangle();
    assert_eq!(universe.entangled_pairs().len(), 50);
    assert_valid_pairing(universe.entangled_pairs());
    assert!(universe.entangled_pairs().keys().all(|&id| id < 100));
    universe.set_entanglement_percentage(rate(1, 1));
    universe.re_entangle();
    assert_eq!(universe.entangled_pairs().len(), 100);
    assert_valid_pairing(universe.entangled_pairs());
    universe.set_entanglement_percentage(rate(0, 1));
    universe.re_entangle();
    assert!(universe.entangled_pairs().is_empty());
}

#[test]
fn re_entangle_discards_the_old_pairs() {
    let mut universe = still_universe(vec![3, 3], 1);
    universe.entangle_pair(0, 4);
    universe.entangle_pair(100, 200);
    universe.re_entangle();
    assert!(universe.entangled_pairs().is_empty());
    universe.set_entanglement_percentage(rate(1, 1));
    universe.re_entangle();
    assert_eq!(universe.entangled_pairs().len(), 8);
    assert!(universe.entangled_pairs().keys().all(|&id| id < 9));
}

#[test]
fn re_entangle_shuffles() {
    let mut universe = still_universe(vec![10, 10], 1);
    universe.set_entanglement_percentage(rate(1, 1));
    let mut unsorted = false;
    for _ in 0..5 {
        universe.re_entangle();
        let in_order = (0..50u64)
            .all(|k| universe.entangled_pairs().get(&(2 * k)) == Some(&(2 * k + 1)));
        if !in_order {
            unsorted = true;
        }
    }
    assert!(unsorted);
}

#[test]
fn pairing_stays_valid_through_any_calls() {
    let mut universe = Universe::new(vec![6, 5], 1);
    universe.set_entanglement_percentage(rate(2, 3));
    for round in 0..20u64 {
        universe.re_entangle();
        assert_valid_pairing(universe.entangled_pairs());
        for a in 0..30u64 {
            universe.entangle_pair(a, (a * 7 + round) % 30);
            assert_valid_pairing(universe.entangled_pairs());
        }
        assert_eq!(universe.entangled_pairs().len() % 2, 0);
    }
}

#[test]
fn rates_can_be_tuned() {
    let mut universe = Universe::new(vec![2], 1);
    universe.set_observation_rate(rate(1, 3));
    universe.set_decay_rate(rate(2, 3));
    universe.set_entanglement_percentage(rate(3, 4));
    universe.set_fluctuation_rate(rate(4, 5));
    assert_eq!(universe.observation_rate(), rate(1, 3));
    assert_eq!(universe.decay_rate(), rate(2, 3));
    assert_eq!(universe.entanglement_percentage(), rate(3, 4));
    assert_eq!(universe.fluctuation_rate(), rate(4, 5));
}

#[test]
fn tick_multiplies_each_cell_by_the_sum_of_its_neighbours() {
    let mut universe = still_universe(vec![3, 3], 1);
    let a: [i8; 9] = [1, 0, -1, 0, 1, 1, -1, -1, 0];
    let b: [i8; 9] = [0, 1, 1, -1, 0, 1, 1, 0, -1];
    let states: Vec<Vec<i8>> = (0..9).map(|i| vec![a[i], b[i]]).collect();
    load(&mut universe, &states);
    let events = universe.tick();
    assert!(events.is_empty());
    let expected: [[i8; 2]; 9] =
        [[-1, -1], [1, 0], [0, 0], [0, 0], [-1, -1], [0, 0], [0, 0], [-1, 1], [0, 0]];
    for idx in 0..9 {
        let cell = &universe.grid()[idx];
        assert_eq!(values(&cell.state), expected[idx].to_vec(), "cell {idx}");
        assert_eq!(cell.consciousness, ConsciousnessState::Potential);
        assert_eq!(cell.id, idx as u64);
    }
}

#[test]
fn tick_equals_product_of_neighbour_sum_and_state() {
    let mut universe = still_universe(vec![3, 3], 2);
    load(&mut universe, &example_states());
    let old: Vec<Multivector> = universe.grid().iter().map(|cell| cell.state.clone()).collect();
    universe.tick();
    for idx in 0..9 {
        let mut sum = Multivector::zero(2);
        for other in 0..9 {
            if other != idx {
                sum = sum.add(&old[other]).unwrap();
            }
        }
        let product = sum.geometric_product(&old[idx]).unwrap();
        assert_eq!(universe.grid()[idx].state, product, "cell {idx}");
    }
    let after: Vec<Vec<i8>> = universe.grid().iter().map(|cell| values(&cell.state)).collect();
    assert_eq!(after, example_products());
}

#[test]
fn tick_counts_a_neighbour_for_every_offset() {
    // On a ring of two cells the other cell is the neighbour on both sides,
    // and on a ring of one the cell is its own neighbour twice.
    let mut ring = still_universe(vec![2], 1);
    load(&mut ring, &[vec![1, 0], vec![1, 1]]);
    ring.tick();
    // Cell 0: influence (1,1) + (1,1) = (-1,-1); times (1,0) = (-1,-1).
    assert_eq!(values(&ring.grid()[0].state), vec![-1, -1]);
    // Cell 1: influence (1,0) + (1,0) = (-1,0); times (1,1) = (-1,-1).
    assert_eq!(values(&ring.grid()[1].state), vec![-1, -1]);
    let mut point = still_universe(vec![1], 1);
    load(&mut point, &[vec![1, 0]]);
    point.tick();
    // Influence (1,0) + (1,0) = (-1,0); times (1,0) = (-1,0).
    assert_eq!(values(&point.grid()[0].state), vec![-1, 0]);
}

#[test]
fn tick_reads_the_grid_as_it_was() {
    let mut universe = still_universe(vec![4], 1);
    load(&mut universe, &[vec![1, 0], vec![0, 0], vec![0, 0], vec![0, 0]]);
    universe.tick();
    // Only the neighbours of cell 0 see it, and they are zero themselves.
    for idx in 0..4 {
        assert_eq!(values(&universe.grid()[idx].state), vec![0, 0], "cell {idx}");
    }
}

#[test]
fn operator_survives_five_ticks() {
    let mut universe = Universe::new(vec![3, 3], 1);
    universe.set_operator(&[1, 1]);
    let pinned = universe.grid()[4].clone();
    assert_eq!(pinned.consciousness, ConsciousnessState::Operator);
    assert_eq!(values(&pinned.state), vec![0, 1]);
    for _ in 0..5 {
        universe.tick();
        assert_eq!(universe.grid()[4], pinned);
    }
}

#[test]
fn operator_survives_under_any_rates() {
    let mut universe = Universe::new(vec![3, 3], 2);
    universe.set_observation_rate(rate(1, 2));
    universe.set_decay_rate(rate(1, 2));
    universe.set_fluctuation_rate(rate(1, 2));
    universe.set_operator(&[1, 1]);
    universe.entangle_pair(4, 0);
    let pinned = universe.grid()[4].clone();
    for _ in 0..50 {
        universe.tick();
        assert_eq!(universe.grid()[4], pinned);
    }
}

#[test]
fn operator_acts_on_its_neighbours() {
    let mut universe = still_universe(vec![3], 1);
    load(&mut universe, &[vec![1, 0], vec![0, 0], vec![0, 0]]);
    universe.set_operator(&[1]);
    universe.tick();
    // Cell 0 sees cell 2 (0,0) and the operator (0,1): (0,1) times (1,0).
    assert_eq!(values(&universe.grid()[0].state), vec![0, 1]);
    assert_eq!(values(&universe.grid()[1].state), vec![0, 1]);
    assert_eq!(universe.grid()[1].consciousness, ConsciousnessState::Operator);
}

#[test]
fn observation_before_a_tick_reaches_no_partner() {
    let mut universe = still_universe(vec![3, 3], 2);
    load(&mut universe, &example_states());
    universe.entangle_pair(0, 4);
    universe.observe_cell(0);
    assert_eq!(universe.grid()[0].consciousness, ConsciousnessState::Observed);
    let events = universe.tick();
    // Only observations made in the tick itself reach a partner.
    assert!(events.is_empty());
    assert_eq!(universe.grid()[4].consciousness, ConsciousnessState::Potential);
    assert_eq!(universe.grid()[0].consciousness, ConsciousnessState::Observed);
}

#[test]
fn observation_in_a_step_reaches_the_partner() {
    let mut universe = still_universe(vec![3, 3], 2);
    load(&mut universe, &example_states());
    universe.entangle_pair(0, 4);
    let mut rolls = vec![Roll::Hold; 9];
    rolls[0] = Roll::Observe;
    let events = universe.advance(&rolls).unwrap();
    assert_eq!(events, vec![(0, 4)]);
    let products = example_products();
    // The observed cell: its product, collapsed.
    assert_eq!(universe.grid()[0].consciousness, ConsciousnessState::Observed);
    assert_eq!(values(&universe.grid()[0].state), vec![1, -1, 1, 0]);
    // Its partner: its product (1,-1,1,-1), collapsed and inverted.
    assert_eq!(universe.grid()[4].consciousness, ConsciousnessState::Observed);
    assert_eq!(values(&universe.grid()[4].state), vec![-1, 1, -1, 0]);
    let collapsed = state(2, &[1, -1, 1, 0]);
    let minus_one = state(2, &[-1, 0, 0, 0]);
    assert_eq!(universe.grid()[4].state, collapsed.geometric_product(&minus_one).unwrap());
    for idx in [1, 2, 3, 5, 6, 7, 8] {
        assert_eq!(universe.grid()[idx].consciousness, ConsciousnessState::Potential);
        assert_eq!(values(&universe.grid()[idx].state), products[idx], "cell {idx}");
    }
}

#[test]
fn observation_reaches_only_a_potential_partner() {
    let products = example_products();
    // The partner is observed in the same step: nothing reaches it.
    let mut universe = still_universe(vec![3, 3], 2);
    load(&mut universe, &example_states());
    universe.entangle_pair(0, 4);
    let mut rolls = vec![Roll::Hold; 9];
    rolls[0] = Roll::Observe;
    rolls[4] = Roll::Observe;
    let events = universe.advance(&rolls).unwrap();
    // Cell 4 was observed before cell 0's observation got to it, and cell 0
    // before cell 4's.
    assert!(events.is_empty());
    assert_eq!(values(&universe.grid()[4].state), vec![1, -1, 1, 0]);
    assert_eq!(values(&universe.grid()[0].state), vec![1, -1, 1, 0]);
    // The partner is pinned: nothing reaches it.
    let mut universe = still_universe(vec![3, 3], 2);
    load(&mut universe, &example_states());
    universe.entangle_pair(8, 4);
    universe.set_operator(&[1, 1]);
    let mut rolls = vec![Roll::Hold; 9];
    rolls[8] = Roll::Observe;
    let events = universe.advance(&rolls).unwrap();
    assert!(events.is_empty());
    assert_eq!(universe.grid()[4].consciousness, ConsciousnessState::Operator);
    assert_eq!(universe.grid()[8].consciousness, ConsciousnessState::Observed);
    // A partner that is no cell: nothing to reach.
    let mut universe = still_universe(vec![3, 3], 2);
    load(&mut universe, &example_states());
    universe.entangle_pair(1, 9);
    universe.entangle_pair(2, u64::MAX);
    let mut rolls = vec![Roll::Hold; 9];
    rolls[1] = Roll::Observe;
    rolls[2] = Roll::Observe;
    let events = universe.advance(&rolls).unwrap();
    assert!(events.is_empty());
    assert_eq!(universe.grid()[1].consciousness, ConsciousnessState::Observed);
    assert_eq!(values(&universe.grid()[1].state), vec![1, -1, 1, 0]);
    assert_eq!(values(&universe.grid()[3].state), products[3]);
}

#[test]
fn observations_reach_partners_in_index_order() {
    let mut universe = still_universe(vec![3, 3], 2);
    load(&mut universe, &example_states());
    universe.entangle_pair(7, 1);
    universe.entangle_pair(2, 6);
    let mut rolls = vec![Roll::Hold; 9];
    rolls[7] = Roll::Observe;
    rolls[2] = Roll::Observe;
    let events = universe.advance(&rolls).unwrap();
    assert_eq!(events, vec![(2, 6), (7, 1)]);
    // Cell 6: product (1,1,0,0), collapsed and inverted.
    assert_eq!(values(&universe.grid()[6].state), vec![-1, -1, 0, 0]);
    // Cell 1: product (1,-1,1,1), collapsed and inverted.
    assert_eq!(values(&universe.grid()[1].state), vec![-1, 1, -1, 0]);
    assert_eq!(universe.grid()[6].consciousness, ConsciousnessState::Observed);
    assert_eq!(universe.grid()[1].consciousness, ConsciousnessState::Observed);
}

#[test]
fn advance_follows_the_rolls() {
    let mut universe = still_universe(vec![3, 3], 2);
    load(&mut universe, &example_states());
    universe.observe_cell(3);
    universe.observe_cell(5);
    universe.set_operator(&[0, 2]);
    let before = universe.grid().clone();
    let fresh = state(2, &[1, 1, 1, 1]);
    let rolls = vec![
        Roll::Renew(fresh.clone()),
        Roll::Hold,
        Roll::Observe,
        Roll::Renew(fresh.clone()),
        Roll::Hold,
        Roll::Observe,
        Roll::Renew(fresh.clone()),
        Roll::Hold,
        Roll::Hold,
    ];
    let events = universe.advance(&rolls).unwrap();
    assert!(events.is_empty());
    let grid = universe.grid();
    // A Potential cell fluctuates into the fresh state.
    assert_eq!(grid[0].consciousness, ConsciousnessState::Potential);
    assert_eq!(grid[0].state, fresh);
    // A Potential cell is observed.
    assert_eq!(grid[2].consciousness, ConsciousnessState::Observed);
    for blade in 0..4 {
        if grade(blade) >= 2 {
            assert_eq!(grid[2].state.get(blade).value(), 0);
        }
    }
    // An Observed cell decays into the fresh state.
    assert_eq!(grid[3].consciousness, ConsciousnessState::Potential);
    assert_eq!(grid[3].state, fresh);
    // An Observed cell cannot be observed again: it only takes its product.
    assert_eq!(grid[5].consciousness, ConsciousnessState::Observed);
    // A pinned cell ignores its roll.
    assert_eq!(grid[6], before[6]);
    for idx in [1, 4, 7, 8] {
        assert_eq!(grid[idx].consciousness, ConsciousnessState::Potential);
    }
    for idx in 0..9 {
        assert_eq!(grid[idx].id, idx as u64);
    }
}

#[test]
fn advance_lets_cells_without_a_roll_hold() {
    let mut short = still_universe(vec![3, 3], 2);
    load(&mut short, &example_states());
    let mut full = short.clone();
    assert_eq!(short.advance(&vec![Roll::Observe]).unwrap(), Vec::new());
    let mut rolls = vec![Roll::Hold; 12];
    rolls[0] = Roll::Observe;
    rolls[10] = Roll::Observe;
    assert_eq!(full.advance(&rolls).unwrap(), Vec::new());
    assert_eq!(short.grid(), full.grid());
    assert_eq!(short.grid()[0].consciousness, ConsciousnessState::Observed);
    assert_eq!(values(&short.grid()[1].state), example_products()[1]);
}

#[test]
fn advance_refuses_a_state_of_another_algebra() {
    let mut universe = still_universe(vec![3, 3], 2);
    load(&mut universe, &example_states());
    let before = universe.grid().clone();
    let mut rolls = vec![Roll::Hold; 9];
    rolls[0] = Roll::Observe;
    rolls[3] = Roll::Renew(Multivector::zero(3));
    assert_eq!(universe.advance(&rolls), Err(DimensionMismatch { left: 2, right: 3 }));
    assert_eq!(universe.grid(), &before);
}

#[test]
fn tick_with_certain_observation_observes_every_potential_cell() {
    let mut universe = still_universe(vec![3, 3], 3);
    universe.set_observation_rate(rate(1, 1));
    universe.set_operator(&[0, 0]);
    universe.entangle_pair(1, 2);
    let events = universe.tick();
    // Every partner was observed in the local pass already.
    assert!(events.is_empty());
    assert_eq!(universe.grid()[0].consciousness, ConsciousnessState::Operator);
    for idx in 1..9 {
        let cell = &universe.grid()[idx];
        assert_eq!(cell.consciousness, ConsciousnessState::Observed);
        for blade in 0..8 {
            if grade(blade) >= 2 {
                assert_eq!(cell.state.get(blade).value(), 0);
            }
        }
    }
}

#[test]
fn tick_with_certain_decay_renews_every_observed_cell() {
    let mut universe = still_universe(vec![2, 2], 2);
    universe.set_decay_rate(rate(1, 1));
    universe.observe_cell(0);
    universe.observe_cell(3);
    universe.tick();
    assert!(phases(&universe).iter().all(|&phase| phase == ConsciousnessState::Potential));
}

#[test]
fn tick_reaches_a_partner_that_decayed_in_the_same_tick() {
    let mut universe = still_universe(vec![3, 3], 2);
    universe.set_observation_rate(rate(1, 1));
    universe.set_decay_rate(rate(1, 1));
    universe.entangle_pair(0, 4);
    universe.observe_cell(4);
    let events = universe.tick();
    // Cell 4 decayed to Potential in the local pass, cell 0 was observed.
    assert_eq!(events, vec![(0, 4)]);
    let partner = &universe.grid()[4];
    assert_eq!(partner.consciousness, ConsciousnessState::Observed);
    assert_eq!(partner.state.get(3).value(), 0);
    for idx in 0..9 {
        assert_eq!(universe.grid()[idx].consciousness, ConsciousnessState::Observed);
    }
}

#[test]
fn tick_with_certain_fluctuation_keeps_cells_potential() {
    let mut universe = still_universe(vec![2, 2], 6);
    universe.set_fluctuation_rate(rate(1, 1));
    for idx in 0..4 {
        universe.set_state(idx, Multivector::zero(6)).unwrap();
    }
    universe.tick();
    // Without the fluctuation every state would be zero.
    assert!(phases(&universe).iter().all(|&phase| phase == ConsciousnessState::Potential));
    assert!(universe.grid().iter().any(|cell| cell.state != Multivector::zero(6)));
    assert!(universe.grid().iter().all(|cell| cell.state.p() == 6));
}

#[test]
fn tick_keeps_the_universe_in_shape() {
    let mut universe = Universe::new(vec![5, 4], 3);
    universe.set_observation_rate(rate(1, 4));
    universe.set_decay_rate(rate(1, 4));
    universe.set_fluctuation_rate(rate(1, 4));
    universe.set_entanglement_percentage(rate(1, 1));
    universe.re_entangle();
    let pairs = universe.entangled_pairs().clone();
    for _ in 0..30 {
        let events = universe.tick();
        assert_eq!(universe.grid().len(), 20);
        for (idx, cell) in universe.grid().iter().enumerate() {
            assert_eq!(cell.id, idx as u64);
            assert_eq!(cell.state.p(), 3);
            assert_eq!(cell.state.len(), 8);
        }
        for (observer, partner) in events {
            assert_eq!(pairs.get(&observer), Some(&partner));
            assert_eq!(
                universe.grid()[partner as usize].consciousness,
                ConsciousnessState::Observed
            );
        }
        assert_eq!(universe.entangled_pairs(), &pairs);
    }
}

#[test]
fn tick_in_three_dimensions_sums_the_twenty_six_others() {
    let mut universe = still_universe(vec![3, 3, 3], 0);
    let mut states = vec![vec![1i8]; 27];
    states[0] = vec![-1];
    load(&mut universe, &states);
    universe.tick();
    // Cell 0 sees 26 ones: their sum is -1, and -1 times -1 is 1.
    assert_eq!(values(&universe.grid()[0].state), vec![1]);
    // Every other cell sees 25 ones and one -1: their sum is 0.
    for idx in 1..27 {
        assert_eq!(values(&universe.grid()[idx].state), vec![0], "cell {idx}");
    }
}

#[test]
fn tick_leaves_the_entanglement_alone() {
    let mut universe = Universe::new(vec![20, 10], 1);
    let pairs = universe.entangled_pairs().clone();
    assert_eq!(pairs.len(), 10);
    for _ in 0..5 {
        universe.tick();
    }
    assert_eq!(universe.entangled_pairs(), &pairs);
    assert_eq!(universe.grid_dims(), &vec![20, 10]);
    assert_eq!(universe.ga_dims(), 1);
}
