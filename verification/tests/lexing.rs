use rustformlang::fa::dfa::DFA;
use rustformlang::fa::state::State;
use rustformlang::input_symbol::InputSymbol;
use rustformlang::lexing::lex;

/// An automaton from its transitions, start state and accepting states.
fn automaton(transitions: &[(&str, &str, &str)], start: &str, accepting: &[&str]) -> DFA {
    let mut dfa = DFA::empty();
    dfa.set_start_state(State::new(start));
    for (from, symbol, to) in transitions {
        dfa.add_transition(&State::new(from), &InputSymbol::new(symbol), &State::new(to));
    }
    for state in accepting {
        dfa.add_accept_state(State::new(state));
    }
    dfa
}

/// Token `A`: words `a+`; token `B`: the word `b`.
fn lexer() -> Vec<(InputSymbol, DFA, DFA, DFA, DFA)> {
    let a_plus = || automaton(&[("s0", "a", "s1"), ("s1", "a", "s1")], "s0", &["s1"]);
    let a_star = || automaton(&[("s0", "a", "s0")], "s0", &["s0"]);
    let b_word = || automaton(&[("s0", "b", "s1")], "s0", &["s1"]);
    let b_or_empty = || automaton(&[("s0", "b", "s1")], "s0", &["s0", "s1"]);
    vec![
        (InputSymbol::new("A"), a_plus(), a_star(), a_star(), a_star()),
        (InputSymbol::new("B"), b_word(), b_or_empty(), b_or_empty(), b_or_empty()),
    ]
}

fn names(v: &Vec<InputSymbol>) -> Vec<String> {
    v.iter().map(|s| s.get_name().to_string()).collect()
}

fn has(r: &Vec<(Vec<InputSymbol>, Option<Vec<u8>>, Option<Vec<u8>>)>, toks: &[&str], first: Option<&[u8]>, last: Option<&[u8]>) -> bool {
    r.iter().any(|(t, f, l)| {
        names(t) == toks.iter().map(|s| s.to_string()).collect::<Vec<String>>()
            && f.as_deref() == first
            && l.as_deref() == last
    })
}

#[test]
fn lex_first_word_reads_whole_tokens_and_a_last_prefix() {
    let r = lex(b"aab", &lexer(), true, &vec![b' ']);
    assert!(has(&r, &["A", "B"], None, None));
    assert!(has(&r, &["A", "B"], None, Some(b"b")));
    assert_eq!(r.len(), 2);
}

#[test]
fn lex_later_word_may_start_inside_a_token() {
    let r = lex(b"aab", &lexer(), false, &vec![b' ']);
    assert!(has(&r, &["A", "B"], None, None));
    assert!(has(&r, &["A", "B"], None, Some(b"b")));
    assert!(has(&r, &["A", "B"], Some(b"aa"), None));
    assert!(has(&r, &["A", "B"], Some(b"aa"), Some(b"b")));
    assert_eq!(r.len(), 4);
}

#[test]
fn lex_skips_strip_characters() {
    let r = lex(b"a  b", &lexer(), true, &vec![b' ']);
    assert!(has(&r, &["A", "B"], None, None));
    assert!(has(&r, &["A", "B"], None, Some(b"b")));
    assert_eq!(r.len(), 2);
}

#[test]
fn lex_of_an_unknown_word_is_empty() {
    let r = lex(b"c", &lexer(), true, &vec![b' ']);
    assert!(r.is_empty());
    let r = lex(b"", &lexer(), true, &vec![b' ']);
    assert!(has(&r, &[], None, None));
    assert_eq!(r.len(), 1);
}
