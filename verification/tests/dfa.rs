use rustformlang::fa::dfa::DFA;
use rustformlang::fa::state::State;
use rustformlang::input_symbol::InputSymbol;
use rustformlang::language::Language;

/// An automaton from its transitions, start state and accepting states.
fn automaton(transitions: &[(&str, &str, &str)], start: &str, accepting: &[&str]) -> DFA {
    let mut dfa = DFA::empty();
    dfa.set_start_state(State::new(start));
    for (from, symbol, to) in transitions {
        dfa.add_transition(&State::new(from), &InputSymbol::new(symbol), &State::new(to));
    }
    for state in accepting {
        dfa.add_accept_state(State::new(state));
    }
    dfa
}

#[test]
fn minimize_merges_states_that_accept_alike() {
    // (a|b) c*, with a separate state after each of a and b
    let dfa = automaton(
        &[("s", "a", "x"), ("s", "b", "y"), ("x", "c", "x"), ("y", "c", "y")],
        "s",
        &["x", "y"],
    );
    let min = dfa.minimize();
    assert_eq!(min.states.len(), 2);
    for word in ["a", "b", "ac", "bccc"] {
        assert!(dfa.accepts_string(word));
        assert!(min.accepts_string(word), "lost {}", word);
    }
    for word in ["", "c", "ab", "ca"] {
        assert!(!dfa.accepts_string(word));
        assert!(!min.accepts_string(word), "gained {}", word);
    }
}

#[test]
fn minimize_keeps_distinguishable_states_apart() {
    // words of a's of even length
    let dfa = automaton(&[("e", "a", "o"), ("o", "a", "e")], "e", &["e"]);
    let min = dfa.minimize();
    assert_eq!(min.states.len(), 2);
    assert!(min.accepts_string(""));
    assert!(min.accepts_string("aa"));
    assert!(!min.accepts_string("a"));
    assert!(!min.accepts_string("aaa"));
}

#[test]
fn minimize_drops_states_that_lead_nowhere() {
    let dfa = automaton(&[("s", "a", "f"), ("s", "b", "dead"), ("dead", "a", "dead")], "s", &["f"]);
    let min = dfa.minimize();
    assert_eq!(min.states.len(), 2);
    assert!(min.accepts_string("a"));
    assert!(!min.accepts_string("b"));
    assert!(!min.accepts_string("ba"));
}

#[test]
fn minimize_of_an_empty_language_has_one_state() {
    let dfa = automaton(&[("s", "a", "t")], "s", &[]);
    let min = dfa.minimize();
    assert_eq!(min.states.len(), 1);
    assert!(!min.accepts_string("a"));
    assert!(!min.accepts_string(""));
}

#[test]
fn minimize_of_a_star_has_one_state() {
    let mut d = DFA::empty();
    d.add_transition(&State::new("0"), &InputSymbol::new("a"), &State::new("0"));
    d.add_accept_state(State::new("0"));
    let r = d.minimize();
    assert_eq!(r.states.len(), 1);
    assert!(r.accepts_string(""));
    assert!(r.accepts_string("aa"));
    assert!(!r.accepts_string("b"));
}
