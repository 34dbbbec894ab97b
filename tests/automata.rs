use regex_dfa::bits::StateSet;
use regex_dfa::nfa::Predicate;
use regex_dfa::{CharRange, Dfa, Nfa};

/// A condition that always holds: it keeps every transition.
#[derive(Clone, Copy, Debug)]
struct Always;

impl Predicate for Always {
    fn filter_transitions(
        &self,
        ins: &Vec<(CharRange, StateSet)>,
        outs: &Vec<(CharRange, StateSet)>,
    ) -> (Vec<(CharRange, StateSet)>, Vec<(CharRange, StateSet)>) {
        (
            ins.iter().map(|e| (e.0, e.1.duplicate())).collect(),
            outs.iter().map(|e| (e.0, e.1.duplicate())).collect(),
        )
    }

    fn intersect(&self, _other: &Always) -> Option<Always> {
        Some(Always)
    }
}

/// A condition that never holds: it keeps no transition.
#[derive(Clone, Copy, Debug)]
struct Never;

impl Predicate for Never {
    fn filter_transitions(
        &self,
        _ins: &Vec<(CharRange, StateSet)>,
        _outs: &Vec<(CharRange, StateSet)>,
    ) -> (Vec<(CharRange, StateSet)>, Vec<(CharRange, StateSet)>) {
        (Vec::new(), Vec::new())
    }

    fn intersect(&self, _other: &Never) -> Option<Never> {
        None
    }
}

fn r(a: char, b: char) -> CharRange {
    CharRange::new(a as u32, b as u32)
}

fn transitions(dfa: &Dfa, s: usize) -> Vec<(u32, u32, usize)> {
    dfa.transitions_from(s).iter().map(|t| (t.0.start, t.0.end, t.1)).collect()
}

#[test]
fn determinize_alternation_through_eps() {
    // ab | ac, with the second branch reached by an eps-transition.
    let mut nfa = Nfa::<Always>::new();
    for acc in [false, false, true, false, false, true] {
        nfa.add_state(acc);
    }
    nfa.add_transition(0, 1, r('a', 'a'));
    nfa.add_transition(1, 2, r('b', 'b'));
    nfa.add_eps(0, 3);
    nfa.add_transition(3, 4, r('a', 'a'));
    nfa.add_transition(4, 5, r('c', 'c'));
    assert_eq!(nfa.num_states(), 6);

    let dfa = nfa.determinize(100).unwrap();
    assert_eq!(dfa.num_states(), 4);
    assert_eq!(transitions(&dfa, 0), vec![('a' as u32, 'a' as u32, 1)]);
    assert_eq!(transitions(&dfa, 1), vec![('b' as u32, 'b' as u32, 2), ('c' as u32, 'c' as u32, 3)]);
    assert!(!dfa.is_accepting(0));
    assert!(!dfa.is_accepting(1));
    assert!(dfa.is_accepting(2));
    assert!(dfa.is_accepting(3));
    assert!(transitions(&dfa, 2).is_empty());
}

#[test]
fn determinize_splits_overlapping_ranges() {
    let mut nfa = Nfa::<Always>::with_capacity(3);
    nfa.add_state(false);
    nfa.add_state(true);
    nfa.add_state(false);
    nfa.add_transition(0, 1, r('a', 'z'));
    nfa.add_transition(0, 2, r('m', 'p'));
    let (dfa, sets) = nfa.determinize_with_sets(10).unwrap();
    assert_eq!(sets.len(), 3);
    assert_eq!(
        transitions(&dfa, 0),
        vec![
            ('a' as u32, 'l' as u32, 1),
            ('m' as u32, 'p' as u32, 2),
            ('q' as u32, 'z' as u32, 1)
        ]
    );
    assert!(!dfa.is_accepting(0));
    assert!(dfa.is_accepting(1));
    assert!(dfa.is_accepting(2));
}

#[test]
fn determinize_start_closure_accepts() {
    let mut nfa = Nfa::<Always>::new();
    nfa.add_state(false);
    nfa.add_state(true);
    nfa.add_eps(0, 1);
    nfa.add_eps(1, 0);
    let dfa = nfa.determinize(1).unwrap();
    assert_eq!(dfa.num_states(), 1);
    assert!(dfa.is_accepting(0));
}

#[test]
fn determinize_respects_state_limit() {
    let mut nfa = Nfa::<Always>::new();
    nfa.add_state(false);
    nfa.add_state(true);
    nfa.add_transition(0, 1, r('x', 'x'));
    assert!(nfa.determinize(1).is_none());
    assert!(nfa.determinize(0).is_none());
    assert_eq!(nfa.determinize(2).unwrap().num_states(), 2);
}

#[test]
fn reversed_flips_edges() {
    let mut nfa = Nfa::<Always>::new();
    nfa.add_state(false);
    nfa.add_state(true);
    nfa.add_transition(0, 1, r('a', 'c'));
    nfa.add_eps(1, 0);
    let rev = nfa.reversed();
    assert_eq!(rev.num_states(), 2);
    assert_eq!(rev.transitions_from(1), &vec![(r('a', 'c'), 0)]);
    assert!(rev.transitions_from(0).is_empty());
    // In the reversed automaton, state 0 reaches state 1 by eps, so the start closure
    // accepts.
    assert!(rev.determinize(5).unwrap().is_accepting(0));
}

#[test]
fn dfa_sink_basics() {
    let mut dfa = Dfa::new();
    assert_eq!(dfa.add_state(false), 0);
    assert_eq!(dfa.add_state(true), 1);
    dfa.add_transition(0, 1, r('x', 'y'));
    dfa.add_transition(0, 0, r('a', 'b'));
    dfa.sort_transitions();
    assert_eq!(transitions(&dfa, 0), vec![('a' as u32, 'b' as u32, 0), ('x' as u32, 'y' as u32, 1)]);
    assert_eq!(dfa.num_states(), 2);
}

#[test]
fn predicate_that_always_holds_is_bridged() {
    // 0 -a-> 1 -(pred)-> 2 -b-> 3 (accepting)
    let mut nfa = Nfa::<Always>::new();
    for acc in [false, false, false, true] {
        nfa.add_state(acc);
    }
    nfa.add_transition(0, 1, r('a', 'a'));
    nfa.add_predicate(1, 2, Always);
    nfa.add_transition(2, 3, r('b', 'b'));
    assert!(nfa.remove_predicates(100));
    assert_eq!(nfa.num_states(), 5);
    assert_eq!(nfa.transitions_from(0), &vec![(r('a', 'a'), 1), (r('a', 'a'), 4)]);
    assert_eq!(nfa.transitions_from(4), &vec![(r('b', 'b'), 3)]);
    let dfa = nfa.determinize(10).unwrap();
    assert_eq!(transitions(&dfa, 0), vec![('a' as u32, 'a' as u32, 1)]);
    assert_eq!(transitions(&dfa, 1), vec![('b' as u32, 'b' as u32, 2)]);
    assert!(dfa.is_accepting(2));
}

#[test]
fn predicate_that_never_holds_cuts_the_path() {
    let mut nfa = Nfa::<Never>::new();
    for acc in [false, false, false, true] {
        nfa.add_state(acc);
    }
    nfa.add_transition(0, 1, r('a', 'a'));
    nfa.add_predicate(1, 2, Never);
    nfa.add_transition(2, 3, r('b', 'b'));
    assert!(nfa.remove_predicates(100));
    assert_eq!(nfa.num_states(), 5);
    assert!(nfa.transitions_from(4).is_empty());
    let dfa = nfa.determinize(10).unwrap();
    assert_eq!(dfa.num_states(), 2);
    assert!(!dfa.is_accepting(0) && !dfa.is_accepting(1));
}

#[test]
fn predicate_removal_respects_state_limit() {
    let mut nfa = Nfa::<Always>::new();
    nfa.add_state(false);
    nfa.add_state(true);
    nfa.add_predicate(0, 1, Always);
    assert!(!nfa.remove_predicates(1));
    let mut plain = Nfa::<Always>::new();
    plain.add_state(true);
    assert!(!plain.remove_predicates(0));
    assert!(plain.remove_predicates(1));
    assert_eq!(plain.num_states(), 1);
}

#[test]
fn reversed_flips_predicate_edges() {
    let mut nfa = Nfa::<Always>::new();
    nfa.add_state(false);
    nfa.add_state(false);
    nfa.add_predicate(0, 1, Always);
    nfa.add_predicate(0, 1, Always);
    let rev = nfa.reversed();
    assert_eq!(rev.num_states(), 2);
    // Two predicate edges 0 -> 1 become two edges 1 -> 0: removing them adds two states.
    let mut rev = rev;
    assert!(rev.remove_predicates(10));
    assert_eq!(rev.num_states(), 4);
}

#[test]
fn one_pass_can_add_more_states_than_predicate_edges() {
    // 0 -(p)-> 1 and 2 -(q)-> 0: removing the first edge carries an intersected edge onto
    // state 2, which the same pass then removes too.
    let mut nfa = Nfa::<Always>::new();
    for _ in 0..3 {
        nfa.add_state(false);
    }
    nfa.add_predicate(0, 1, Always);
    nfa.add_predicate(2, 0, Always);
    assert!(nfa.remove_predicates_once());
    assert_eq!(nfa.num_states(), 6);
    let mut plain = Nfa::<Always>::new();
    plain.add_state(true);
    assert!(!plain.remove_predicates_once());
    assert_eq!(plain.num_states(), 1);
}
