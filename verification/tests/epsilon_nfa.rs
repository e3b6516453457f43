use rustformlang::fa::epsilon_nfa::ENFA;
use rustformlang::fa::state::State;
use rustformlang::input_symbol::{epsilon, InputSymbol};
use rustformlang::language::Language;

#[test]
fn test_empty_enfa() {
    let enfa = ENFA::empty();

    assert_eq!(enfa.states.len(), 1, "Empty ENFA should have one state only");
    assert_eq!(enfa.alphabet.len(), 0, "Empty ENFA should no symbol");
    assert!(enfa.is_empty(), "Empty ENFA should have no accept states");

    assert!(!enfa.accepts(&vec![]), "Empty ENFA should not accept the empty string");
}

#[test]
fn test_add_states_and_transitions() {
    let mut enfa = ENFA::empty();

    let state1 = State::new("q1");
    let state2 = State::new("q2");

    let symbol_a = InputSymbol::new("a");

    enfa.set_start_state(state1.clone());
    assert_eq!(enfa.states.len(), 2, "ENFA should have exactly two states after adding start state");

    enfa.add_accept_state(state2.clone());
    assert_eq!(enfa.states.len(), 3, "ENFA should have three states after adding accept state");

    enfa.add_transition(&state1, &symbol_a, &state2);
}

#[test]
fn test_remove_epsilon_transitions() {
    let mut enfa = ENFA::empty();

    let state1 = State::new("q1");
    let state2 = State::new("q2");
    let state3 = State::new("q3");

    let symbol_a = InputSymbol::new("a");
    let symbol_b = InputSymbol::new("b");

    enfa.set_start_state(state1.clone());
    enfa.add_accept_state(state3.clone());
    enfa.add_transition(&state1, &epsilon(), &state2);
    enfa.add_transition(&state2, &symbol_a, &state3);
    enfa.add_transition(&state1, &symbol_b, &state3);

    assert!(!enfa.is_empty(), "ENFA should not be empty");

    let nfa = enfa.remove_epsilon_transitions();

    assert_eq!(nfa.states.len(), enfa.states.len(), "NFA should have the same number of states as the original ENFA");

    assert!(nfa.accepts(&vec![symbol_a.clone()]), "NFA should accept the string 'a'");
    assert!(nfa.accepts(&vec![symbol_b.clone()]), "NFA should accept the string 'a'");
    assert!(!nfa.accepts(&vec![symbol_a.clone(), symbol_a.clone()]), "DFA should not accept the string 'aa'");

    let dfa = nfa.to_deterministic();
    assert!(dfa.accepts(&vec![symbol_a.clone()]), "DFA should accept the string 'a'");
    assert!(dfa.accepts(&vec![symbol_b.clone()]), "DFA should accept the string 'b'");
    assert!(!dfa.accepts(&vec![symbol_a.clone(), symbol_a.clone()]), "DFA should not accept the string 'aa'");

    let min_dfa = dfa.minimize();
    assert!(min_dfa.accepts(&vec![symbol_a.clone()]), "Minimized DFA should accept the string 'a'");
    assert!(min_dfa.accepts(&vec![symbol_b.clone()]), "Minimized DFA should accept the string 'b'");
    assert!(!min_dfa.accepts(&vec![symbol_a.clone(), symbol_a.clone()]), "Minimized DFA should not accept the string 'aa'");
    assert!(!min_dfa.is_empty(), "Minimized DFA should not be empty");
}

#[test]
fn test_accepts_string() {
    let mut enfa = ENFA::empty();

    let state1 = State::new("q1");
    let state2 = State::new("q2");
    let state3 = State::new("q3");

    let symbol_a = InputSymbol::new("a");
    let symbol_b = InputSymbol::new("b");

    enfa.set_start_state(state1.clone());
    enfa.add_transition(&state1, &epsilon(), &state2);
    enfa.add_transition(&state2, &symbol_a, &state3);
    enfa.add_accept_state(state3.clone());

    assert!(enfa.accepts(&vec![symbol_a.clone()]), "ENFA should accept string 'a'");
    assert!(!enfa.accepts(&vec![symbol_a.clone(), symbol_a.clone()]), "ENFA should not accept string 'aa'");
    assert!(!enfa.accepts(&vec![symbol_b.clone()]), "ENFA should not accept string 'b'");

    enfa.add_accept_state(state2.clone());
    assert!(enfa.accepts(&vec![]), "ENFA should accept empty string due to epsilon transitions leading to accept state");
}

#[test]
fn test_n_suffix_language() {
    let mut enfa = ENFA::empty();

    let state1 = State::new("q1");
    let state2 = State::new("q2");
    let state3 = State::new("q3");

    let symbol_a = InputSymbol::new("a");
    let symbol_b = InputSymbol::new("b");

    enfa.set_start_state(state1.clone());
    enfa.add_transition(&state1, &symbol_a, &state2);
    enfa.add_transition(&state2, &symbol_b, &state3);
    enfa.add_accept_state(state3.clone());

    let suffix_1 = enfa.n_suffix_language(1);

    assert!(suffix_1.accepts_string("b"), "ENFA should accept suffix 'b'");
    assert!(!suffix_1.accepts_string("a"), "ENFA should not accept suffix 'a'");
    assert!(!suffix_1.accepts_string("ab"), "ENFA should not accept suffix 'ab' (0-length prefix suffix)");
    assert!(suffix_1.accepts_string(""), "ENFA should accept empty string as suffix");

    let suffix_0 = enfa.n_suffix_language(0);

    assert!(suffix_0.accepts_string(""), "ENFA should accept empty string as suffix");
    assert!(!suffix_0.accepts_string("a"), "ENFA should not accept 'a' as suffix");
    assert!(suffix_0.accepts_string("b"), "ENFA should accept 'b' as suffix");
    assert!(suffix_0.accepts_string("ab"), "ENFA should accept suffix 'ab' (0-length prefix suffix)");
}
