use nfa_converter::converter::{nfa_to_dfa, try_nfa_to_dfa};
use nfa_converter::dfa::DFA;
use nfa_converter::minimizer::{
    build_minimized_dfa, create_minimal_rejecting_dfa, find_reachable_states, has_path_to_accept,
    minimize_dfa, partition_states,
};
use nfa_converter::nfa::NFA;
use nfa_converter::state_set::StateSet;
use std::collections::HashSet;

fn set(states: &[u32]) -> HashSet<u32> {
    states.iter().cloned().collect()
}

fn canonical(states: &[u32]) -> StateSet {
    StateSet::from_vec(&states.to_vec())
}

fn nfa(
    states: &[u32],
    alphabet: &[char],
    transitions: &[(u32, Option<char>, &[u32])],
    start: u32,
    accept: &[u32],
) -> NFA {
    NFA {
        q: set(states),
        alphabet: alphabet.to_vec(),
        trxn: transitions.iter().map(|t| (t.0, t.1, set(t.2))).collect(),
        q0: start,
        f: set(accept),
    }
}

fn dfa(
    states: &[u32],
    alphabet: &[char],
    transitions: &[(u32, char, u32)],
    start: u32,
    accept: &[u32],
) -> DFA {
    DFA {
        q: set(states),
        alphabet: alphabet.to_vec(),
        trxn: transitions.to_vec(),
        q0: start,
        f: set(accept),
    }
}

fn nfa_accepts(n: &NFA, word: &[char]) -> bool {
    let mut current = n.epsilon_closure(&set(&[n.q0]));
    for &symbol in word {
        current = n.epsilon_closure(&n.step_over(&current, symbol));
    }
    current.iter().any(|s| n.f.contains(s))
}

fn dfa_accepts(d: &DFA, word: &[char]) -> bool {
    let mut current = d.q0;
    for &symbol in word {
        match d.step_over(current, symbol) {
            Some(next) => current = next,
            None => return false,
        }
    }
    d.f.contains(&current)
}

fn words(alphabet: &[char], longest: usize) -> Vec<Vec<char>> {
    let mut all: Vec<Vec<char>> = vec![vec![]];
    let mut last: Vec<Vec<char>> = vec![vec![]];
    for _ in 0..longest {
        let mut next = Vec::new();
        for word in &last {
            for &symbol in alphabet {
                let mut longer = word.clone();
                longer.push(symbol);
                next.push(longer);
            }
        }
        all.extend(next.iter().cloned());
        last = next;
    }
    all
}

fn each_pair_listed_once(d: &DFA) -> bool {
    for i in 0..d.trxn.len() {
        for j in (i + 1)..d.trxn.len() {
            if d.trxn[i].0 == d.trxn[j].0 && d.trxn[i].1 == d.trxn[j].1 {
                return false;
            }
        }
    }
    true
}

/// (a|b)*abb, the classic example, with epsilon transitions.
fn ends_in_abb() -> NFA {
    nfa(
        &[0, 1, 2, 3, 4, 5, 6, 7, 8, 9, 10],
        &['a', 'b'],
        &[
            (0, None, &[1, 7]),
            (1, None, &[2, 4]),
            (2, Some('a'), &[3]),
            (4, Some('b'), &[5]),
            (3, None, &[6]),
            (5, None, &[6]),
            (6, None, &[1, 7]),
            (7, Some('a'), &[8]),
            (8, Some('b'), &[9]),
            (9, Some('b'), &[10]),
        ],
        0,
        &[10],
    )
}

#[test]
fn test_simple_nfa_to_dfa() {
    // No epsilon transitions: from 0 on 'a' to 0 and 1.
    let n = nfa(&[0, 1], &['a'], &[(0, Some('a'), &[0, 1])], 0, &[1]);
    let d = nfa_to_dfa(&n);
    assert_eq!(d.q, set(&[0, 1]));
    assert_eq!(d.alphabet, vec!['a']);
    assert_eq!(d.q0, 0);
    assert_eq!(d.trxn, vec![(0, 'a', 1), (1, 'a', 1)]);
    assert_eq!(d.f, set(&[1]));
    assert_eq!(d.step_over(0, 'a'), Some(1));
    assert_eq!(d.step_over(1, 'a'), Some(1));
}

#[test]
fn nfa_to_dfa_takes_the_closure_of_the_start_state() {
    let n = nfa(
        &[0, 1, 2],
        &['a'],
        &[(0, None, &[1]), (1, Some('a'), &[2])],
        0,
        &[2],
    );
    assert_eq!(n.epsilon_closure(&set(&[0])), set(&[0, 1]));
    assert_eq!(n.epsilon_closure(&set(&[2])), set(&[2]));
    let d = nfa_to_dfa(&n);
    assert_eq!(d.q, set(&[0, 1]));
    assert_eq!(d.q0, 0);
    assert!(!d.f.contains(&0));
    assert_eq!(d.step_over(0, 'a'), Some(1));
    assert_eq!(d.f, set(&[1]));
    // The subset {2} has no transition on 'a': absent, not a trap.
    assert_eq!(d.step_over(1, 'a'), None);
    assert_eq!(d.trxn, vec![(0, 'a', 1)]);
}

#[test]
fn nfa_to_dfa_numbers_states_in_breadth_first_order() {
    let n = ends_in_abb();
    let d = nfa_to_dfa(&n);
    assert_eq!(d.q, set(&[0, 1, 2, 3, 4]));
    assert_eq!(
        d.trxn,
        vec![
            (0, 'a', 1),
            (0, 'b', 2),
            (1, 'a', 1),
            (1, 'b', 3),
            (2, 'a', 1),
            (2, 'b', 2),
            (3, 'a', 1),
            (3, 'b', 4),
            (4, 'a', 1),
            (4, 'b', 2),
        ]
    );
    assert_eq!(d.f, set(&[4]));
    assert_eq!(d.alphabet, vec!['a', 'b']);
}

#[test]
fn nfa_to_dfa_follows_the_order_of_the_alphabet() {
    let forward = nfa(
        &[0, 1, 2],
        &['a', 'b'],
        &[(0, Some('a'), &[1]), (0, Some('b'), &[2])],
        0,
        &[2],
    );
    let backward = nfa(
        &[0, 1, 2],
        &['b', 'a'],
        &[(0, Some('a'), &[1]), (0, Some('b'), &[2])],
        0,
        &[2],
    );
    let d = nfa_to_dfa(&forward);
    assert_eq!(d.trxn, vec![(0, 'a', 1), (0, 'b', 2)]);
    assert_eq!(d.f, set(&[2]));
    let d = nfa_to_dfa(&backward);
    assert_eq!(d.trxn, vec![(0, 'b', 1), (0, 'a', 2)]);
    assert_eq!(d.f, set(&[1]));
}

#[test]
fn try_nfa_to_dfa_gives_the_same_automaton() {
    let n = ends_in_abb();
    assert_eq!(try_nfa_to_dfa(&n), Some(nfa_to_dfa(&n)));
}

#[test]
fn epsilon_closure_is_a_fixed_point() {
    let n = ends_in_abb();
    for from in [
        set(&[]),
        set(&[0]),
        set(&[3]),
        set(&[5, 8]),
        set(&[9, 10]),
        set(&[0, 1, 2, 3, 4, 5, 6, 7, 8, 9, 10]),
    ] {
        let once = n.epsilon_closure(&from);
        let twice = n.epsilon_closure(&once);
        assert_eq!(once, twice);
        for s in &from {
            assert!(once.contains(s));
        }
    }
    assert_eq!(n.epsilon_closure(&set(&[0])), set(&[0, 1, 2, 4, 7]));
    assert_eq!(n.epsilon_closure(&set(&[3])), set(&[1, 2, 3, 4, 6, 7]));
    assert_eq!(n.epsilon_closure(&set(&[])), set(&[]));
}

#[test]
fn epsilon_closure_ends_on_a_cycle() {
    let n = nfa(
        &[0, 1, 2],
        &['a'],
        &[(0, None, &[1]), (1, None, &[2]), (2, None, &[0])],
        0,
        &[],
    );
    assert_eq!(n.epsilon_closure(&set(&[1])), set(&[0, 1, 2]));
}

#[test]
fn step_over_is_the_union_of_the_destinations() {
    let n = nfa(
        &[0, 1, 2, 3],
        &['a', 'b'],
        &[
            (0, Some('a'), &[1, 2]),
            (1, Some('a'), &[2, 3]),
            (2, Some('b'), &[0]),
            (3, None, &[0]),
        ],
        0,
        &[],
    );
    assert_eq!(n.step_over(&set(&[0, 1]), 'a'), set(&[1, 2, 3]));
    assert_eq!(n.step_over(&set(&[0, 1]), 'b'), set(&[]));
    assert_eq!(n.step_over(&set(&[2, 3]), 'b'), set(&[0]));
    // No closure is taken, and epsilon transitions are not followed.
    assert_eq!(n.step_over(&set(&[3]), 'a'), set(&[]));
    assert_eq!(n.step_over(&set(&[]), 'a'), set(&[]));
}

#[test]
fn the_last_record_for_a_pair_counts() {
    let n = nfa(
        &[0, 1, 2],
        &['a'],
        &[(0, Some('a'), &[1]), (0, Some('a'), &[2])],
        0,
        &[],
    );
    assert_eq!(n.step_over(&set(&[0]), 'a'), set(&[2]));
    let d = dfa(&[0, 1, 2], &['a'], &[(0, 'a', 1), (0, 'a', 2)], 0, &[]);
    assert_eq!(d.step_over(0, 'a'), Some(2));
}

#[test]
fn dfa_step_over_is_partial() {
    let d = dfa(&[0, 1], &['a', 'b'], &[(0, 'a', 1), (1, 'b', 0)], 0, &[1]);
    assert_eq!(d.step_over(0, 'a'), Some(1));
    assert_eq!(d.step_over(0, 'b'), None);
    assert_eq!(d.step_over(1, 'b'), Some(0));
    assert_eq!(d.step_over(1, 'a'), None);
    assert_eq!(d.step_over(7, 'a'), None);
}

#[test]
fn outputs_are_deterministic() {
    let d = nfa_to_dfa(&ends_in_abb());
    assert!(each_pair_listed_once(&d));
    let m = minimize_dfa(&d);
    assert!(each_pair_listed_once(&m));
    for &s in &m.q {
        for &a in &m.alphabet {
            let hits = m.trxn.iter().filter(|t| t.0 == s && t.1 == a).count();
            assert!(hits <= 1);
        }
    }
}

#[test]
fn all_three_automata_accept_the_same_words() {
    let automata = vec![
        ends_in_abb(),
        nfa(&[0, 1], &['a'], &[(0, Some('a'), &[0, 1])], 0, &[1]),
        nfa(
            &[0, 1, 2],
            &['a'],
            &[(0, None, &[1]), (1, Some('a'), &[2])],
            0,
            &[2],
        ),
        nfa(
            &[0, 1, 2, 3],
            &['a', 'b'],
            &[
                (0, Some('a'), &[0, 1]),
                (0, Some('b'), &[0]),
                (1, Some('a'), &[2]),
                (1, Some('b'), &[2]),
                (2, Some('a'), &[3]),
                (2, Some('b'), &[3]),
            ],
            0,
            &[3],
        ),
        nfa(
            &[0, 1, 2, 3],
            &['a', 'b'],
            &[(0, Some('a'), &[1]), (0, Some('b'), &[2]), (1, Some('a'), &[3])],
            0,
            &[2],
        ),
        nfa(&[0, 1], &['a', 'b'], &[(0, Some('a'), &[1])], 0, &[]),
    ];
    for n in &automata {
        let d = nfa_to_dfa(n);
        let m = minimize_dfa(&d);
        for word in words(&n.alphabet, 6) {
            let expected = nfa_accepts(n, &word);
            assert_eq!(dfa_accepts(&d, &word), expected);
            assert_eq!(dfa_accepts(&m, &word), expected);
        }
        // A symbol outside the alphabet is never accepted.
        assert!(!dfa_accepts(&d, &['z']));
        assert!(!nfa_accepts(n, &['z']));
    }
}

#[test]
fn minimizing_twice_changes_nothing() {
    let inputs = vec![
        nfa_to_dfa(&ends_in_abb()),
        dfa(
            &[0, 1, 2, 3],
            &['a', 'b'],
            &[(0, 'a', 1), (0, 'b', 2), (1, 'a', 3), (2, 'a', 3)],
            0,
            &[3],
        ),
        dfa(&[0, 1], &['a'], &[(0, 'a', 1)], 0, &[]),
        dfa(
            &[5, 9, 7],
            &['x'],
            &[(9, 'x', 5), (5, 'x', 7), (7, 'x', 9)],
            9,
            &[5, 7],
        ),
    ];
    for d in &inputs {
        let once = minimize_dfa(d);
        let twice = minimize_dfa(&once);
        assert_eq!(once.q.len(), twice.q.len());
        assert_eq!(once, twice);
    }
}

#[test]
fn test_minimize_dfa() {
    // States 1 and 2 are not accepting and go to the same state on 'a'.
    let d = dfa(
        &[0, 1, 2, 3],
        &['a', 'b'],
        &[(0, 'a', 1), (0, 'b', 2), (1, 'a', 3), (2, 'a', 3)],
        0,
        &[3],
    );
    let m = minimize_dfa(&d);
    assert_eq!(m.q, set(&[0, 1, 2]));
    assert_eq!(m.q0, 0);
    assert_eq!(m.f, set(&[2]));
    assert_eq!(m.alphabet, vec!['a', 'b']);
    assert_eq!(m.trxn, vec![(0, 'a', 1), (0, 'b', 1), (1, 'a', 2)]);
    for word in words(&['a', 'b'], 5) {
        assert_eq!(dfa_accepts(&m, &word), dfa_accepts(&d, &word));
    }
}

#[test]
fn minimize_dfa_gives_the_rejecting_automaton_where_nothing_is_accepted() {
    let d = dfa(
        &[0, 1, 2],
        &['a', 'b'],
        &[(0, 'a', 1), (1, 'b', 0), (2, 'a', 2)],
        0,
        &[2],
    );
    let m = minimize_dfa(&d);
    assert_eq!(m.q, set(&[0]));
    assert_eq!(m.q0, 0);
    assert_eq!(m.f, set(&[]));
    assert_eq!(m.alphabet, vec!['a', 'b']);
    assert_eq!(m.trxn, vec![(0, 'a', 0), (0, 'b', 0)]);
    assert_eq!(m, create_minimal_rejecting_dfa(&d));
}

#[test]
fn minimize_dfa_drops_unreachable_and_dead_states() {
    // 3 is unreachable, 2 is a dead end.
    let d = dfa(
        &[0, 1, 2, 3],
        &['a', 'b'],
        &[(0, 'a', 1), (0, 'b', 2), (2, 'a', 2), (3, 'a', 1)],
        0,
        &[1],
    );
    let m = minimize_dfa(&d);
    assert_eq!(m.q, set(&[0, 1]));
    assert_eq!(m.trxn, vec![(0, 'a', 1)]);
    assert_eq!(m.f, set(&[1]));
    assert_eq!(m.step_over(0, 'b'), None);
}

#[test]
fn minimize_dfa_tells_a_missing_transition_from_one_that_is_there() {
    // 1 and 2 are both accepting, but only 1 can go on.
    let d = dfa(
        &[0, 1, 2],
        &['a', 'b'],
        &[(0, 'a', 1), (0, 'b', 2), (1, 'a', 1)],
        0,
        &[1, 2],
    );
    let m = minimize_dfa(&d);
    assert_eq!(m.q.len(), 3);
    assert_eq!(m.trxn, vec![(0, 'a', 1), (0, 'b', 2), (1, 'a', 1)]);
}

#[test]
fn minimize_dfa_numbers_classes_by_their_smallest_member() {
    let d = dfa(
        &[10, 20, 30, 40, 50],
        &['a', 'b'],
        &[
            (30, 'a', 50),
            (30, 'b', 10),
            (50, 'a', 20),
            (10, 'a', 20),
            (20, 'a', 40),
            (40, 'a', 40),
        ],
        30,
        &[20, 40],
    );
    // Classes: {10, 50}, {20, 40}, {30}.
    let m = minimize_dfa(&d);
    assert_eq!(m.q, set(&[0, 1, 2]));
    assert_eq!(m.q0, 2);
    assert_eq!(m.f, set(&[1]));
    assert_eq!(
        m.trxn,
        vec![(0, 'a', 1), (1, 'a', 1), (2, 'a', 0), (2, 'b', 0)]
    );
}

#[test]
fn minimize_dfa_reduces_the_subset_construction() {
    let d = nfa_to_dfa(&ends_in_abb());
    let m = minimize_dfa(&d);
    // States 0 and 2 of the construction are equivalent.
    assert_eq!(m.q, set(&[0, 1, 2, 3]));
    assert_eq!(m.q0, 0);
    assert_eq!(m.f, set(&[3]));
    assert_eq!(
        m.trxn,
        vec![
            (0, 'a', 1),
            (0, 'b', 0),
            (1, 'a', 1),
            (1, 'b', 2),
            (2, 'a', 1),
            (2, 'b', 3),
            (3, 'a', 1),
            (3, 'b', 0),
        ]
    );
}

#[test]
fn find_reachable_states_follows_transitions_from_the_start() {
    let d = dfa(
        &[0, 1, 2, 3, 4],
        &['a', 'b'],
        &[(0, 'a', 1), (1, 'b', 2), (2, 'a', 0), (3, 'a', 4), (4, 'b', 0)],
        0,
        &[4],
    );
    assert_eq!(find_reachable_states(&d).to_vec(), vec![0, 1, 2]);
    let alone = dfa(&[3], &['a'], &[], 3, &[]);
    assert_eq!(find_reachable_states(&alone).to_vec(), vec![3]);
}

#[test]
fn has_path_to_accept_stays_within_the_given_states() {
    let d = dfa(
        &[0, 1, 2, 3],
        &['a', 'b'],
        &[(0, 'a', 1), (1, 'a', 2), (0, 'b', 3)],
        0,
        &[2],
    );
    let all = canonical(&[0, 1, 2, 3]);
    assert!(has_path_to_accept(&d, 0, &all));
    assert!(has_path_to_accept(&d, 1, &all));
    assert!(has_path_to_accept(&d, 2, &all));
    assert!(!has_path_to_accept(&d, 3, &all));
    // Without state 1 there is no way from 0 to 2.
    assert!(!has_path_to_accept(&d, 0, &canonical(&[0, 2, 3])));
    // The state asked about need not be among the given states.
    assert!(has_path_to_accept(&d, 2, &canonical(&[])));
    assert!(has_path_to_accept(&d, 1, &canonical(&[2])));
}

#[test]
fn partition_states_groups_equivalent_states() {
    let d = dfa(
        &[0, 1, 2, 3],
        &['a', 'b'],
        &[(0, 'a', 1), (0, 'b', 2), (1, 'a', 3), (2, 'a', 3)],
        0,
        &[3],
    );
    let classes = partition_states(&d, &canonical(&[0, 1, 2, 3]));
    let listed: Vec<Vec<u32>> = classes.iter().map(|c| c.to_vec()).collect();
    assert_eq!(listed, vec![vec![0], vec![1, 2], vec![3]]);
    let m = build_minimized_dfa(&d, &classes);
    assert_eq!(m, minimize_dfa(&d));
}

#[test]
fn build_minimized_dfa_leaves_out_transitions_into_dropped_states() {
    let d = dfa(
        &[0, 1, 2],
        &['a', 'b'],
        &[(0, 'a', 1), (0, 'b', 2)],
        0,
        &[1],
    );
    let classes = vec![canonical(&[0]), canonical(&[1])];
    let m = build_minimized_dfa(&d, &classes);
    assert_eq!(m.q, set(&[0, 1]));
    assert_eq!(m.trxn, vec![(0, 'a', 1)]);
    assert_eq!(m.q0, 0);
    assert_eq!(m.f, set(&[1]));
}

#[test]
fn create_minimal_rejecting_dfa_loops_on_every_symbol() {
    let d = dfa(&[4, 5], &['x', 'y', 'z'], &[(4, 'x', 5)], 4, &[5]);
    let r = create_minimal_rejecting_dfa(&d);
    assert_eq!(r.q, set(&[0]));
    assert_eq!(r.q0, 0);
    assert!(r.f.is_empty());
    assert_eq!(r.alphabet, vec!['x', 'y', 'z']);
    assert_eq!(r.trxn, vec![(0, 'x', 0), (0, 'y', 0), (0, 'z', 0)]);
    for word in words(&['x', 'y', 'z'], 3) {
        assert!(!dfa_accepts(&r, &word));
    }
}

/// A small generator of pseudo-random numbers, so that the automata below are always the same.
struct Dice(u64);

impl Dice {
    fn roll(&mut self, sides: u64) -> u64 {
        self.0 = self.0.wrapping_mul(6364136223846793005).wrapping_add(1442695040888963407);
        (self.0 >> 33) % sides
    }
}

fn some_nfa(dice: &mut Dice) -> NFA {
    let count = 1 + dice.roll(5) as u32;
    let states: Vec<u32> = (0..count).map(|s| s * 3 + 1).collect();
    let alphabet = vec!['a', 'b'];
    let mut transitions: Vec<(u32, Option<char>, HashSet<u32>)> = Vec::new();
    for &from in &states {
        for symbol in [None, Some('a'), Some('b')] {
            if dice.roll(3) == 0 {
                continue;
            }
            let mut to = HashSet::new();
            for &target in &states {
                if dice.roll(3) == 0 {
                    to.insert(target);
                }
            }
            if !to.is_empty() {
                transitions.push((from, symbol, to));
            }
        }
    }
    let accept: HashSet<u32> = states.iter().cloned().filter(|_| dice.roll(3) == 0).collect();
    NFA {
        q: states.iter().cloned().collect(),
        alphabet,
        trxn: transitions,
        q0: states[dice.roll(count as u64) as usize],
        f: accept,
    }
}

#[test]
fn many_small_automata_keep_their_language() {
    let mut dice = Dice(2024);
    let all = words(&['a', 'b'], 6);
    for _ in 0..300 {
        let n = some_nfa(&mut dice);
        let d = nfa_to_dfa(&n);
        let m = minimize_dfa(&d);
        assert!(each_pair_listed_once(&d));
        assert!(each_pair_listed_once(&m));
        assert!(m.q.len() <= d.q.len());
        for word in &all {
            let expected = nfa_accepts(&n, word);
            assert_eq!(dfa_accepts(&d, word), expected);
            assert_eq!(dfa_accepts(&m, word), expected);
        }
        assert_eq!(minimize_dfa(&m), m);
        // No two states of the minimal form accept the same words.
        let states: Vec<u32> = (0..m.q.len() as u32).collect();
        for &s in &states {
            for &t in &states {
                if s < t {
                    let from = |start: u32| DFA {
                        q: m.q.clone(),
                        alphabet: m.alphabet.clone(),
                        trxn: m.trxn.clone(),
                        q0: start,
                        f: m.f.clone(),
                    };
                    let (ms, mt) = (from(s), from(t));
                    assert!(all.iter().any(|w| dfa_accepts(&ms, w) != dfa_accepts(&mt, w)));
                }
            }
        }
    }
}
