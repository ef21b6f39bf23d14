use coupon_collect::markov_chain::{ChainError, MarkovChain, StateTransition};
use coupon_collect::Rational;
use num::BigInt;

fn equal_weight_chain(group: usize, kinds: usize) -> MarkovChain {
    let mut mc = MarkovChain::new(group);
    let mut i = 0;
    while i < kinds {
        mc.define_cards(1, Rational::from_u64(1));
        i += 1;
    }
    mc
}

fn collect_transitions(mc: &MarkovChain) -> Vec<StateTransition> {
    mc.get_transitions().unwrap()
}

#[test]
fn test() {
    let mut mc = MarkovChain::new(3);
    mc.define_cards(1, Rational::from_u64(1));
    mc.define_cards(1, Rational::from_u64(1));
    let probabilities = mc.get_probabilities().unwrap();
    println!("{:?}", probabilities);
    let mut states = mc.get_transition_states();
    while let Some(state) = states.next() {
        println!("{:?}", mc.get_frequency(&state));
    }
}

#[test]
fn probabilities_of_equal_weights_are_halves() {
    let mc = equal_weight_chain(3, 2);
    let ps = mc.get_probabilities().unwrap();
    assert_eq!(ps.len(), 2);
    let half = Rational::new(1, 2);
    assert!(ps[0].eq_value(&half));
    assert!(ps[1].eq_value(&half));
}

#[test]
fn probabilities_sum_to_one_with_uneven_weights() {
    let mut mc = MarkovChain::new(2);
    mc.define_cards(1, Rational::from_u64(1));
    mc.define_cards(1, Rational::from_u64(3));
    mc.define_cards(1, Rational::new(1, 2));
    let ps = mc.get_probabilities().unwrap();
    let mut sum = Rational::from_u64(0);
    for p in &ps {
        sum = sum.add(p);
    }
    assert!(sum.eq_value(&Rational::from_u64(1)));
    assert!(ps[0].eq_value(&Rational::new(2, 9)));
    assert!(ps[1].eq_value(&Rational::new(6, 9)));
    assert!(ps[2].eq_value(&Rational::new(1, 9)));
}

#[test]
fn enumeration_counts_match_weak_compositions() {
    // C(G + K - 1, K - 1) compositions: 4 for G = 3, K = 2; 10 for G = 2, K = 4.
    let mc = equal_weight_chain(3, 2);
    let mut states = mc.get_transition_states();
    let mut seen: Vec<Vec<usize>> = Vec::new();
    while let Some(state) = states.next() {
        assert_eq!(state.iter().sum::<usize>(), 3);
        assert_eq!(state.len(), 2);
        assert!(!seen.contains(&state));
        seen.push(state);
    }
    assert_eq!(seen.len(), 4);

    let mc = equal_weight_chain(2, 4);
    let mut states = mc.get_transition_states();
    let mut seen: Vec<Vec<usize>> = Vec::new();
    while let Some(state) = states.next() {
        assert_eq!(state.iter().sum::<usize>(), 2);
        assert_eq!(state.len(), 4);
        assert!(!seen.contains(&state));
        seen.push(state);
    }
    assert_eq!(seen.len(), 10);
}

#[test]
fn frequency_of_extreme_compositions() {
    // All items on one kind: frequency 1; one item moved: frequency G.
    let mc = equal_weight_chain(5, 3);
    let one = Rational::from_u64(1);
    assert!(mc.get_frequency(&vec![5, 0, 0]).eq_value(&one));
    assert!(mc.get_frequency(&vec![0, 0, 5]).eq_value(&one));
    assert!(mc.get_frequency(&vec![4, 1, 0]).eq_value(&Rational::from_u64(5)));
}

#[test]
fn scenario_two_kinds_pack_of_three() {
    let mc = equal_weight_chain(3, 2);
    let expected_states: Vec<Vec<usize>> = vec![
        vec![3, 0],
        vec![2, 1],
        vec![1, 2],
        vec![0, 3],
    ];
    let expected_frequencies: Vec<u64> = vec![1, 3, 3, 1];
    let mut states = mc.get_transition_states();
    let mut i = 0;
    while let Some(state) = states.next() {
        assert_eq!(state, expected_states[i]);
        let f = mc.get_frequency(&state);
        assert!(f.eq_value(&Rational::from_u64(expected_frequencies[i])));
        i += 1;
    }
    assert_eq!(i, 4);

    let transitions = collect_transitions(&mc);
    assert_eq!(transitions.len(), 4);
    let expected_probabilities: Vec<Rational> = vec![
        Rational::new(1, 8),
        Rational::new(3, 8),
        Rational::new(3, 8),
        Rational::new(1, 8),
    ];
    let mut sum = Rational::from_u64(0);
    for (k, t) in transitions.iter().enumerate() {
        assert_eq!(t.transition, expected_states[k]);
        assert!(t.probability.eq_value(&expected_probabilities[k]));
        sum = sum.add(&t.probability);
    }
    assert!(sum.eq_value(&Rational::from_u64(1)));
}

#[test]
fn scenario_three_kinds_pack_of_one() {
    let mc = equal_weight_chain(1, 3);
    let transitions = collect_transitions(&mc);
    assert_eq!(transitions.len(), 3);
    let expected_states: Vec<Vec<usize>> = vec![
        vec![1, 0, 0],
        vec![0, 1, 0],
        vec![0, 0, 1],
    ];
    let third = Rational::new(1, 3);
    let one = Rational::from_u64(1);
    let mut sum = Rational::from_u64(0);
    for (k, t) in transitions.iter().enumerate() {
        assert_eq!(t.transition, expected_states[k]);
        assert!(mc.get_frequency(&t.transition).eq_value(&one));
        assert!(t.probability.eq_value(&third));
        sum = sum.add(&t.probability);
    }
    assert!(sum.eq_value(&one));
}

#[test]
fn transition_probabilities_with_uneven_weights() {
    // G = 2, weights 1 : 3 -> probabilities 1/4 and 3/4.
    let mut mc = MarkovChain::new(2);
    mc.define_cards(1, Rational::from_u64(1));
    mc.define_cards(1, Rational::from_u64(3));
    let transitions = collect_transitions(&mc);
    assert_eq!(transitions.len(), 3);
    assert_eq!(transitions[0].transition, vec![2, 0]);
    assert!(transitions[0].probability.eq_value(&Rational::new(1, 16)));
    assert_eq!(transitions[1].transition, vec![1, 1]);
    assert!(transitions[1].probability.eq_value(&Rational::new(6, 16)));
    assert_eq!(transitions[2].transition, vec![0, 2]);
    assert!(transitions[2].probability.eq_value(&Rational::new(9, 16)));
    let mut sum = Rational::from_u64(0);
    for t in &transitions {
        sum = sum.add(&t.probability);
    }
    assert!(sum.eq_value(&Rational::from_u64(1)));
}

#[test]
fn single_kind_and_empty_pack_edge_cases() {
    // K = 1: the single composition (G) with probability 1.
    let mc = equal_weight_chain(4, 1);
    let transitions = collect_transitions(&mc);
    assert_eq!(transitions.len(), 1);
    assert_eq!(transitions[0].transition, vec![4]);
    assert!(transitions[0].probability.eq_value(&Rational::from_u64(1)));

    // G = 0: the single all-zero composition with probability 1.
    let mc = equal_weight_chain(0, 2);
    let transitions = collect_transitions(&mc);
    assert_eq!(transitions.len(), 1);
    assert_eq!(transitions[0].transition, vec![0, 0]);
    assert!(transitions[0].probability.eq_value(&Rational::from_u64(1)));
}

#[test]
fn zero_total_weight_is_a_configuration_error() {
    let mut mc = MarkovChain::new(3);
    mc.define_cards(1, Rational::from_u64(0));
    mc.define_cards(1, Rational::from_u64(0));
    assert_eq!(mc.get_probabilities().unwrap_err(), ChainError::ZeroTotalWeight);
    assert_eq!(mc.get_transitions().unwrap_err(), ChainError::ZeroTotalWeight);
}

#[test]
fn malformed_compositions_are_rejected() {
    let mc = equal_weight_chain(3, 2);
    // Wrong sum.
    assert!(mc.try_frequency(&vec![1, 1]).is_none());
    assert!(mc.try_frequency(&vec![3, 1]).is_none());
    // Wrong length.
    assert!(mc.try_frequency(&vec![3]).is_none());
    // Well formed.
    let f = mc.try_frequency(&vec![2, 1]).unwrap();
    assert!(f.eq_value(&Rational::from_u64(3)));
}

#[test]
fn accessors_report_the_configuration() {
    let mc = equal_weight_chain(7, 3);
    assert_eq!(mc.count_kind(), 3);
    assert_eq!(mc.count_deck(), 7);
    let ws = mc.get_weights();
    assert_eq!(ws.len(), 3);
    for w in &ws {
        assert!(w.eq_value(&Rational::from_u64(1)));
    }
}

#[test]
fn rational_arithmetic_is_exact() {
    let a = Rational::new(1, 3);
    let b = Rational::new(1, 6);
    assert!(a.add(&b).eq_value(&Rational::new(1, 2)));
    assert!(a.mul(&b).eq_value(&Rational::new(1, 18)));
    assert!(a.div(&b).eq_value(&Rational::from_u64(2)));
    assert!(a.pow_u(3).eq_value(&Rational::new(1, 27)));
    assert!(!a.eq_value(&b));
    assert!(Rational::from_u64(0).is_zero());
    assert!(!a.is_zero());
    let c = Rational::new(3, 4);
    assert_eq!(c.numerator(), BigInt::from(3));
    assert_eq!(c.denominator(), BigInt::from(4));
    assert!(c.duplicate().eq_value(&c));
}

#[test]
fn large_packs_stay_exact() {
    // 40! / (20! 20!) = C(40, 20), far beyond any fixed-width integer's
    // ability to hold the intermediate 40!.
    let mc = equal_weight_chain(40, 2);
    let f = mc.get_frequency(&vec![20, 20]);
    let expected = Rational::new(137846528820, 1);
    assert!(f.eq_value(&expected));
}

#[test]
fn enumeration_order_three_kinds_pack_of_two() {
    // The full successor chain for G = 2, K = 3.
    let mc = equal_weight_chain(2, 3);
    let expected: Vec<Vec<usize>> = vec![
        vec![2, 0, 0],
        vec![1, 1, 0],
        vec![0, 2, 0],
        vec![1, 0, 1],
        vec![0, 1, 1],
        vec![0, 0, 2],
    ];
    let mut states = mc.get_transition_states();
    let mut seen: Vec<Vec<usize>> = Vec::new();
    while let Some(state) = states.next() {
        seen.push(state);
    }
    assert_eq!(seen, expected);
}

#[test]
fn repeated_enumerations_agree() {
    // Pure and deterministic: two full distributions of the same chain
    // agree element by element.
    let mc = equal_weight_chain(3, 3);
    let a = mc.get_transitions().unwrap();
    let b = mc.get_transitions().unwrap();
    assert_eq!(a.len(), b.len());
    for k in 0..a.len() {
        assert_eq!(a[k].transition, b[k].transition);
        assert!(a[k].probability.eq_value(&b[k].probability));
    }
    // C(5, 2) == 10 compositions for G = 3, K = 3.
    assert_eq!(a.len(), 10);
}
