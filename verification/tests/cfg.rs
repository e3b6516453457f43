use rustformlang::cfg::cfg::{SymbolIndex, CFG};
use rustformlang::cfg::production::{Production, Symbol};
use rustformlang::cfg::terminal::Terminal;
use rustformlang::cfg::two_grams::eliminate_shared_2_grams_single_pass;
use rustformlang::cfg::variable::Variable;
use rustformlang::collections::SubstitutionMap;
use rustformlang::fa::dfa::DFA;
use rustformlang::fa::state::State;
use rustformlang::input_symbol::InputSymbol;
use rustformlang::language::Language;

/// An automaton with the given transitions, start state and accept states.
fn automaton(transitions: &[(&str, &str, &str)], start: &str, accepting: &[&str]) -> DFA {
    let mut dfa = DFA::empty();
    dfa.set_start_state(State::new(start));
    for (from, symbol, to) in transitions {
        dfa.add_transition(&State::new(from), &InputSymbol::new(symbol), &State::new(to));
    }
    for state in accepting {
        dfa.add_accept_state(State::new(state));
    }
    dfa
}

/// The automaton of one word, written one symbol per character.
fn word_dfa(word: &str) -> DFA {
    let symbols: Vec<InputSymbol> = word.chars().map(|c| InputSymbol::new(&c.to_string())).collect();
    CFG::word_automaton(&symbols)
}

#[test]
fn test_cfg_to_text() {
    let start_variable = Variable::new("S");
    let a_variable = Variable::new("A");
    let b_variable = Variable::new("B");
    let terminal_a = Terminal::new("a");
    let terminal_b = Terminal::new("b");

    let production1 = Production::new(
        start_variable.clone(),
        vec![Symbol::T(terminal_a.clone()), Symbol::V(start_variable.clone())],
    );
    let production2 = Production::new(
        start_variable.clone(),
        vec![
            Symbol::V(b_variable.clone()),
            Symbol::V(a_variable.clone()),
            Symbol::T(terminal_b.clone()),
        ],
    );
    let production3 = Production::new(a_variable.clone(), vec![Symbol::T(terminal_a.clone())]);
    let production4 = Production::new(b_variable.clone(), vec![Symbol::T(terminal_b.clone())]);
    let production5 = Production::new(start_variable.clone(), vec![]);
    let productions = vec![production1, production2, production3, production4, production5];

    let cfg = CFG::from_start_and_productions(start_variable, productions);
    let _expected_output = "Start Symbol: S\n\
S -> a S | B A b | ε \n\
B -> b \n\
A -> a \n\
Terminals: a b ";
    assert_eq!(cfg.productions.len(), 3);
    assert_eq!(cfg.terminals.len(), 2);
}

#[test]
fn test_from_text() {
    let text = r#"
        S -> A | B
        A -> Bobo r
        B -> a
        "#;

    let cfg = CFG::from_text(text, Variable::new("S"));
    assert_eq!(cfg.productions.len(), 4);
    assert_eq!(cfg.get_productions().len(), 4);
    assert_eq!(cfg.terminals.len(), 2);
}

#[test]
fn test_from_text2() {
    let text = r#"
        S -> A B
        A -> a
        B -> b
        "#;

    let cfg = CFG::from_text(text, Variable::new("S"));
    assert_eq!(cfg.productions.len(), 3);
    assert_eq!(cfg.terminals.len(), 2);
    assert_eq!(cfg.get_productions().len(), 3);
    assert!(!cfg.generates_epsilon());
}

#[test]
fn test_from_text3() {
    let text = r#"
        S ->  A  B
        A -> Bobo r
        "#;

    let cfg = CFG::from_text(text, Variable::new("S"));
    assert_eq!(cfg.productions.len(), 4);
    assert_eq!(cfg.get_productions().len(), 2);
    assert_eq!(cfg.terminals.len(), 1);
    assert!(!cfg.generates_epsilon());
}

#[test]
fn test_from_text_union() {
    let text = r#"
        "VAR:S" -> "TER:a" | b
        "#;

    let cfg = CFG::from_text(text, Variable::new("S"));
    assert_eq!(cfg.get_productions().len(), 2);
    assert!(!cfg.generates_epsilon());
}

#[test]
fn test_epsilon() {
    let text = r#"
        S -> epsilon
        "#;

    let cfg = CFG::from_text(text, Variable::new("S"));
    assert!(!cfg.is_empty());
    assert_eq!(cfg.terminals.len(), 0);
    assert!(cfg.generates_epsilon());
}

#[test]
fn test_epsilon2() {
    let text = r#"
        S -> A B | a
        A -> $
        B -> b
        "#;

    let cfg = CFG::from_text(text, Variable::new("S"));
    assert!(!cfg.is_empty());
    assert!(!cfg.generates_epsilon());
}

#[test]
fn test_epsilon3() {
    let text = r#"
        S -> B | a A | a
        A -> $
        B -> b | A
        "#;

    let cfg = CFG::from_text(text, Variable::new("S"));
    assert!(!cfg.is_empty());
    assert!(cfg.generates_epsilon());
}

#[test]
fn test_clean() {
    let text = r#"
        S -> A B | a
        A -> $
        B -> b
        "#;

    let cfg = CFG::from_text(text, Variable::new("S"));
    assert!(!cfg.is_empty());
    let cleaned_cfg = cfg.cleaned();
    assert!(!cleaned_cfg.generates_epsilon());
    assert!(!cleaned_cfg.is_empty());
}

#[test]
fn test_clean2() {
    let text = r#"
        S -> A B | a | C A | A B A S
        A -> $
        B -> b
        A -> E
        Z -> u
        "#;

    let cfg = CFG::from_text(text, Variable::new("S"));
    assert!(!cfg.is_empty());
    let cleaned_cfg = cfg.cleaned();
    println!("Cleaned CFG: {}", cleaned_cfg.to_text());
    assert!(!cleaned_cfg.generates_epsilon());
    assert!(!cleaned_cfg.is_empty());
    assert!(!cleaned_cfg.terminals.contains(&Terminal::new("u")));
}

#[test]
fn test_clean3() {
    let text = r#"
        S -> A B | A B A S
        B -> b
        A -> $
        A -> c
        "#;

    let cfg = CFG::from_text(text, Variable::new("S"));
    assert!(!cfg.is_empty());
    let cleaned_cfg = cfg.cleaned();
    println!("Cleaned CFG: {}", cleaned_cfg.to_text());
    assert!(!cleaned_cfg.generates_epsilon());
    assert!(!cleaned_cfg.is_empty());
}

#[test]
fn test_clean4() {
    let text = r#"
        S -> A B | A B A S
        A -> $
        A -> c
        "#;

    let cfg = CFG::from_text(text, Variable::new("S"));
    assert!(cfg.is_empty());
    println!("orig CFG: {}", cfg.to_text());
    let cleaned_cfg = cfg.cleaned();
    println!("Cleaned CFG: {}", cleaned_cfg.to_text());
    assert!(!cleaned_cfg.generates_epsilon());
    assert!(cleaned_cfg.is_empty());
}

#[test]
fn test_to_cnf_simple() {
    let text = r#"
        S -> A B | a
        A -> a
        B -> b
        "#;

    let cfg = CFG::from_text(text, Variable::new("S"));
    let _cnf_cfg = cfg.to_normal_form();
    assert!(cfg.terminals.len() == 2);
}

#[test]
fn test_to_cnf_with_epsilon() {
    let text = r#"
        S -> A B | epsilon | A B A S
        A -> a
        B -> b
        B -> $
        "#;

    let cfg = CFG::from_text(text, Variable::new("S"));
    let _cnf_cfg = cfg.to_normal_form();
}

#[test]
fn test_to_cnf_removal_of_useless_symbols() {
    let text = r#"
        S -> A B | C
        A -> a
        B -> b
        C -> D
        D -> E
        "#;

    let cfg = CFG::from_text(text, Variable::new("S"));
    let cnf_cfg = cfg.to_normal_form();
    assert_eq!(cnf_cfg.productions.len(), 3);
}

#[test]
fn test_to_cnf_large_grammar() {
    let text = r#"
        S -> A B C | D E
        A -> a
        B -> b
        C -> c
        D -> d
        E -> e
        "#;

    let cfg = CFG::from_text(text, Variable::new("S"));
    println!("orig CFG: {}", cfg.to_text());
    let cnf_cfg = cfg.to_normal_form();
    println!("CNF CFG: {}", cnf_cfg.to_text());
}

#[test]
fn cfg_test_intersection() {
    let text1 = r#"
        S -> A B | C
        A -> a
        B -> b
        C -> c
        "#;
    let cfg = CFG::from_text(text1, Variable::new("S"));
    assert!(!cfg.is_empty());

    for word in ["ab", "c"] {
        let dfa = word_dfa(word);
        assert!(!dfa.is_empty());

        let intersection_cfg = cfg.intersection(&dfa).cleaned();
        println!("Intersection CFG: {}", intersection_cfg.to_text());
        assert!(!intersection_cfg.is_empty());
    }
}

#[test]
fn test_intersection2() {
    let text1 = r#"
        S -> A B | C | A B A S
        A -> a
        B -> b
        C -> c
        "#;
    let cfg = CFG::from_text(text1, Variable::new("S")).to_normal_form();
    assert!(!cfg.is_empty());

    let aab_star = automaton(&[("s0", "a", "s1"), ("s1", "a", "s2"), ("s2", "b", "s0")], "s0", &["s0"]);
    let a_star_b_star = automaton(&[("s0", "a", "s0"), ("s0", "b", "s1"), ("s1", "b", "s1")], "s0", &["s0", "s1"]);
    let a_star_b = automaton(&[("s0", "a", "s0"), ("s0", "b", "s1")], "s0", &["s1"]);
    let abac = word_dfa("abac");
    let a_star = automaton(&[("s0", "a", "s0")], "s0", &["s0"]);
    let aac = word_dfa("aac");
    for (pattern, dfa, isempty) in [
        ("(aab)*", aab_star, true),
        ("a*b*", a_star_b_star, false),
        ("a*b", a_star_b, false),
        ("abac", abac, false),
        ("a*", a_star, true),
        ("aac", aac, true),
    ] {
        assert!(!dfa.is_empty());

        let intersection_cfg = cfg.intersection(&dfa).cleaned();
        println!("Intersection CFG: {}", intersection_cfg.to_text());
        assert!(intersection_cfg.is_empty() == isempty, "failed for {}", pattern);
    }
}

#[test]
fn test_intersection_eps() {
    let text1 = r#"
        S -> A B | C
        A -> a
        B -> b
        C -> $
        "#;
    let cfg = CFG::from_text(text1, Variable::new("S"));
    assert!(!cfg.is_empty());

    for word in [""] {
        let dfa = word_dfa(word);
        assert!(!dfa.is_empty());

        let intersection_cfg = cfg.intersection(&dfa).cleaned();
        println!("Intersection CFG: {}", intersection_cfg.to_text());
        assert!(!intersection_cfg.is_empty());
    }
}

#[test]
fn test_accept() {
    let text = r#"
        S -> A B | C | A B A S
        A -> a
        B -> b
        B -> $
        C -> c
        "#;

    let mut cfg = CFG::from_text(text, Variable::new("S"));
    cfg = cfg.to_normal_form();
    assert!(!cfg.is_empty());
    println!("CFG: {}", cfg.to_text());

    for word in ["ab", "c", "aac", "abaab", "aaab", "abac"] {
        assert!(cfg.accepts_string(word), "CFG should accept the word '{}', but it does not.", word);
    }
    for word in ["e", "abc", "abaca", "bb", "aa", "aab"] {
        assert!(!cfg.accepts_string(word), "CFG should not accept the word '{}', but it does.", word);
    }
}

#[test]
fn test_substitution() {
    let text = r#"
        S -> A B | C
        A -> a
        B -> b
        C -> c
        "#;

    let cfg = CFG::from_text(text, Variable::new("S"));
    assert!(!cfg.is_empty());

    let text2 = r#"
        S -> c S c | e
        "#;

    let cfg2 = CFG::from_text(text2, Variable::new("S"));
    assert!(!cfg2.is_empty());

    let mut substitutions = SubstitutionMap::new();
    substitutions.insert(Terminal::new("a"), cfg2.clone());
    let substituted_cfg = cfg.substitute(&substitutions);
    println!("Substituted CFG: {}", substituted_cfg.to_text());
    assert!(!substituted_cfg.is_empty());
    assert!(substituted_cfg.accepts_string("cecb"), "Substituted CFG should accept the word 'ccb', but it does not.");
    assert!(!substituted_cfg.accepts_string("a"), "Substituted CFG should not accept the word 'a', but it does.");
    assert!(!substituted_cfg.accepts_string("cb"), "Substituted CFG should not accept the word 'a', but it does.");
}

#[test]
fn cfg_test_concat() {
    let text = r#"
        S -> A B | C
        A -> a
        B -> b
        C -> c
        "#;

    let cfg = CFG::from_text(text, Variable::new("S"));
    assert!(!cfg.is_empty());

    let text2 = r#"
        S -> c S c | e
        "#;

    let cfg2 = CFG::from_text(text2, Variable::new("S"));
    assert!(!cfg2.is_empty());

    let concatenated_cfg = CFG::concat(vec![&cfg, &cfg2]);
    println!("Concatenated CFG: {}", concatenated_cfg.to_text());
    assert!(!concatenated_cfg.is_empty());
    assert!(concatenated_cfg.accepts_string("abcec"), "Concatenated CFG should accept the word 'abcec', but it does not.");
    assert!(!concatenated_cfg.accepts_string("a"), "Concatenated CFG should not accept the word 'a', but it does.");
}

#[test]
fn test_to_normal_form() {
    let text = r#"
C#CNF#1 -> F
C#CNF#1 -> C#CNF#1 * F
E -> C#CNF#1
E -> E + C#CNF#1
F -> I
F -> ( E )
I -> b
I -> I 0
I -> a
I -> I 1
I -> I b
I -> I a
"#;
    let cfg = CFG::from_text(&text, Variable::new("E"));
    assert!(!cfg.is_empty());
    let cnf_cfg = cfg.to_normal_form();
    println!("CNF CFG: {}", cnf_cfg.to_text());
    assert!(!cnf_cfg.is_empty());
    assert_eq!(cnf_cfg.terminals.len(), 8);
    assert_eq!(cnf_cfg.productions.len(), 12);
    assert_eq!(cnf_cfg.get_productions().len(), 20);
    assert!(cnf_cfg.accepts_string("a0b1"));
}

#[test]
fn cfg_test_example_word() {
    let text = r#"
        S -> A | B
        A -> B a
        B -> b
        "#;
    let dfa = automaton(&[("s0", "a", "s0"), ("s0", "b", "s0")], "s0", &["s0"]);

    let cfg = CFG::from_text(text, Variable::new("S"));
    let example_word = cfg.example_word(&dfa, None).unwrap();
    println!("{:?}", example_word);
    assert!(cfg.accepts(&example_word));
    let text = r#"
        S -> A | B
        A -> B | a b
        B -> A
        "#;

    let cfg = CFG::from_text(text, Variable::new("S"));
    let example_word = cfg.example_word(&dfa, None).unwrap();
    println!("{:?}", example_word);
    assert!(cfg.accepts(&example_word));
}

#[test]
fn new_start_keeps_words() {
    let text = r#"
        S -> a S | b
        "#;
    let cfg = CFG::from_text(text, Variable::new("S"));
    let n = cfg.productions.len();
    let with_start = cfg.clone().with_new_start();
    assert_eq!(with_start.start_symbol, n);
    assert_eq!(with_start.productions.len(), n + 1);
    assert_eq!(with_start.productions[n], vec![vec![SymbolIndex::VariableIndex(cfg.start_symbol)]]);
    let normal = with_start.to_normal_form();
    assert!(normal.accepts_string("aab"));
    assert!(!normal.accepts_string("aa"));
}

#[test]
fn intersection_holds_the_words_of_both() {
    let text = r#"
        S -> a S b | a b
        "#;
    let cfg = CFG::from_text(text, Variable::new("S")).to_normal_form();
    let a_star_b_star = automaton(&[("s0", "a", "s0"), ("s0", "b", "s1"), ("s1", "b", "s1")], "s0", &["s0", "s1"]);
    let short = automaton(&[("s0", "a", "s1"), ("s1", "b", "s2"), ("s1", "a", "s3"), ("s3", "b", "s4"), ("s4", "b", "s2")], "s0", &["s2"]);
    let both = cfg.intersection(&a_star_b_star);
    assert!(both.accepts_string("ab"));
    assert!(both.accepts_string("aabb"));
    assert!(!both.accepts_string("aab"));
    assert!(!both.accepts_string("ba"));
    let both = cfg.intersection(&short);
    assert!(both.accepts_string("ab"));
    assert!(both.accepts_string("aabb"));
    assert!(!both.accepts_string("aaabbb"));
}

#[test]
fn single_terminal_productions_keep_words() {
    let text = r#"
        S -> a S b | c
        "#;
    let cfg = CFG::from_text(text, Variable::new("S"));
    let lifted = cfg.with_only_single_terminal_productions();
    assert_eq!(lifted.productions.len(), cfg.productions.len() + 2);
    assert!(lifted.accepts_string("c"));
    assert!(lifted.accepts_string("acb"));
    assert!(lifted.accepts_string("aacbb"));
    assert!(!lifted.accepts_string("ab"));
    assert!(!lifted.accepts_string("acbb"));
}

#[test]
fn decomposed_productions_keep_words() {
    let text = r#"
        S -> a b c d | a b S
        "#;
    let cfg = CFG::from_text(text, Variable::new("S"));
    let decomposed = cfg.with_decomposed_productions();
    for v in 0..decomposed.productions.len() {
        for body in decomposed.productions[v].iter() {
            assert!(body.len() <= 2);
        }
    }
    assert!(decomposed.accepts_string("abcd"));
    assert!(decomposed.accepts_string("ababcd"));
    assert!(!decomposed.accepts_string("abc"));
    assert!(!decomposed.accepts_string("abab"));
}

#[test]
fn intersection_is_empty_over_another_alphabet() {
    let text = r#"
        S -> A B
        A -> a
        B -> b
        "#;
    let cfg = CFG::from_text(text, Variable::new("S")).to_normal_form();
    let ab = automaton(&[("s0", "x", "s0"), ("s0", "a", "s1"), ("s1", "b", "s2")], "s0", &["s2"]);
    let ba = automaton(&[("s0", "b", "s1"), ("s1", "a", "s2")], "s0", &["s2"]);
    assert!(!cfg.is_intersection_empty(&ab, None));
    assert!(cfg.is_intersection_empty(&ba, None));
}

#[test]
fn shared_pairs_keep_words() {
    let text = r#"
        S -> a b c | a b d | x a b
        "#;
    let cfg = CFG::from_text(text, Variable::new("S"));
    let n = cfg.productions.len();
    let (rows, changed) = eliminate_shared_2_grams_single_pass(cfg.productions.clone());
    assert!(changed);
    assert_eq!(rows.len(), n + 1);
    assert_eq!(rows[n].len(), 1);
    assert_eq!(rows[n][0].len(), 2);
    let (again, changed_again) = eliminate_shared_2_grams_single_pass(rows.clone());
    assert!(!changed_again);
    assert_eq!(again, rows);
    let shared = cfg.clone().eliminate_shared_2_grams();
    for word in ["abc", "abd", "xab"] {
        assert!(shared.accepts_string(word), "lost {}", word);
    }
    for word in ["ab", "abab", "xabc"] {
        assert!(!shared.accepts_string(word), "gained {}", word);
    }
}

#[test]
fn word_automaton_accepts_its_word_alone() {
    let a = InputSymbol::new("a");
    let b = InputSymbol::new("b");
    let word = vec![a.clone(), b.clone(), a.clone()];
    let dfa = CFG::word_automaton(&word);
    assert!(Language::accepts(&dfa, &word));
    assert!(!Language::accepts(&dfa, &vec![a.clone(), b.clone()]));
    assert!(!Language::accepts(&dfa, &vec![a.clone(), b.clone(), a.clone(), a.clone()]));
    assert!(!Language::accepts(&dfa, &vec![]));
    let empty = CFG::word_automaton(&vec![]);
    assert!(Language::accepts(&empty, &vec![]));
    assert!(!Language::accepts(&empty, &vec![a]));
}

#[test]
fn left_factoring_keeps_words() {
    let text = r#"
        S -> a b | a c | d
        "#;
    let cfg = CFG::from_text(text, Variable::new("S"));
    let (factored, added) = cfg.eliminate_common_prefix();
    assert!(added);
    assert_eq!(factored.productions.len(), cfg.productions.len() + 1);
    let normal = factored.to_normal_form();
    assert!(normal.accepts_string("ab"));
    assert!(normal.accepts_string("ac"));
    assert!(normal.accepts_string("d"));
    assert!(!normal.accepts_string("a"));
    assert!(!normal.accepts_string("ad"));
}

#[test]
fn cleaning_keeps_words() {
    let text = r#"
        S -> A B | a | U
        A -> a
        B -> b
        U -> U c
        "#;
    let cfg = CFG::from_text(text, Variable::new("S"));
    let cleaned = cfg.cleaned();
    assert!(cleaned.is_cleaned());
    assert!(cleaned.accepts_string("ab"));
    assert!(cleaned.accepts_string("a"));
    assert!(!cleaned.accepts_string("b"));
    assert!(!cleaned.accepts_string("c"));
    assert!(!cleaned.accepts_string("abc"));
}
