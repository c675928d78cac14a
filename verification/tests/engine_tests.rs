use regex_dfa::compile_regex;
use regex_dfa::dfa::{Dfa, SimError};
use regex_dfa::nfa::Nfa;
use regex_dfa::parse::{lex, parse, CompileError};
use regex_dfa::test_string;
use regex_dfa::transition_table::{NfaState, StateCounter, Transition};

#[test]
fn closure_is_idempotent_on_a_concrete_table() {
    // Start -e-> s0 -e-> s1, plus an unrelated edge s2 -a-> s3
    let mut n = Nfa::empty();
    n.add_transition(NfaState::Start, Transition::Epsilon, NfaState::S(0));
    n.add_transition(NfaState::S(0), Transition::Epsilon, NfaState::S(1));
    n.add_transition(NfaState::S(2), Transition::Literal('a'), NfaState::S(3));

    let once = n.epsilon_closure(&vec![NfaState::Start]);
    assert_eq!(
        once,
        vec![NfaState::Start, NfaState::S(0), NfaState::S(1)]
    );
    let twice = n.epsilon_closure(&once);
    assert_eq!(once, twice);
}

#[test]
fn closure_handles_epsilon_cycles() {
    let mut n = Nfa::empty();
    n.add_transition(NfaState::S(0), Transition::Epsilon, NfaState::S(1));
    n.add_transition(NfaState::S(1), Transition::Epsilon, NfaState::S(0));
    let c = n.epsilon_closure(&vec![NfaState::S(1)]);
    assert_eq!(c, vec![NfaState::S(0), NfaState::S(1)]);
}

fn unminimized(pattern: &str) -> Dfa {
    let toks = lex(pattern.to_string()).unwrap();
    let mut counter = StateCounter::new();
    let nfa = parse(&toks, &mut counter).unwrap();
    Dfa::from_nfa(nfa).unwrap()
}

#[test]
fn minimization_preserves_results_on_samples() {
    let patterns = ["a*|b", "(abc)+", "a{2,4}", "a.b", "\\w", "(ab+)12\\1*"];
    let inputs = [
        "", "a", "b", "ab", "abc", "abcabc", "aa", "aaa", "aaaa", "aaaaa", "axb", "ab12ab", "_",
        "z", "bb",
    ];
    for p in patterns.iter() {
        let plain = unminimized(p);
        let mut small = unminimized(p);
        small.minimize();
        for s in inputs.iter() {
            assert_eq!(
                test_string(s, &plain),
                test_string(s, &small),
                "pattern {p} input {s}"
            );
        }
    }
}

#[test]
fn final_dfa_has_no_epsilon_transitions() {
    for p in ["a*|b", "(abc)+", "a{2,4}", "(a|b)*abb", "x?y?z?"].iter() {
        let d = compile_regex(p).unwrap();
        for row in d.transitions.iter() {
            for (label, _) in row.iter() {
                assert!(!matches!(label, Transition::Epsilon));
            }
        }
    }
}

#[test]
fn minimization_collapses_equivalent_states() {
    // both branches of the alternation accept the same single string
    let plain = unminimized("ab|ab");
    let mut small = unminimized("ab|ab");
    small.minimize();
    assert!(small.states.len() <= plain.states.len());
    assert_eq!(test_string("ab", &small), Ok(()));
    assert_eq!(test_string("a", &small), Err(SimError::EndOfString));
}

#[test]
fn backreferences_are_structural_copies() {
    // a backreference inlines a copy of the group's automaton, not a
    // runtime equality check, so `(a|b)\1` accepts all four combinations
    let d = compile_regex("(a|b)\\1").unwrap();
    assert_eq!(test_string("aa", &d), Ok(()));
    assert_eq!(test_string("ab", &d), Ok(()));
    assert_eq!(test_string("ba", &d), Ok(()));
    assert_eq!(test_string("bb", &d), Ok(()));
    assert_eq!(test_string("a", &d), Err(SimError::EndOfString));
}

#[test]
fn minimization_merges_indistinguishable_states() {
    let plain = unminimized("aa|ba");
    let mut small = unminimized("aa|ba");
    small.minimize();
    assert_eq!(plain.states.len(), 4);
    assert_eq!(small.states.len(), 3);
    for s in ["aa", "ba", "a", "b", "ab", ""].iter() {
        assert_eq!(test_string(s, &plain), test_string(s, &small));
    }
}

#[test]
fn shorthand_classes_match_their_characters() {
    let d = compile_regex("\\d").unwrap();
    for c in '0'..='9' {
        assert_eq!(test_string(String::from(c).as_str(), &d), Ok(()));
    }
    assert_eq!(test_string("a", &d), Err(SimError::NoMatch('a')));

    let s = compile_regex("\\s").unwrap();
    assert_eq!(test_string(" ", &s), Ok(()));
    assert_eq!(test_string("\t", &s), Ok(()));
    assert_eq!(test_string("x", &s), Err(SimError::NoMatch('x')));
}

#[test]
fn bracket_ranges_and_hyphens() {
    let d = compile_regex("[a-c]").unwrap();
    assert_eq!(test_string("a", &d), Ok(()));
    assert_eq!(test_string("b", &d), Ok(()));
    assert_eq!(test_string("c", &d), Ok(()));
    assert_eq!(test_string("d", &d), Err(SimError::NoMatch('d')));

    // a leading or trailing hyphen is a literal
    let lead = compile_regex("[-a]").unwrap();
    assert_eq!(test_string("-", &lead), Ok(()));
    assert_eq!(test_string("a", &lead), Ok(()));
    let trail = compile_regex("[a-]").unwrap();
    assert_eq!(test_string("-", &trail), Ok(()));
    assert_eq!(test_string("a", &trail), Ok(()));
}

#[test]
fn escapes_match_single_characters() {
    let tab = compile_regex("\\t").unwrap();
    assert_eq!(test_string("\t", &tab), Ok(()));

    let dot = compile_regex("\\.").unwrap();
    assert_eq!(test_string(".", &dot), Ok(()));
    assert_eq!(test_string("x", &dot), Err(SimError::NoMatch('x')));

    let hex = compile_regex("\\x41").unwrap();
    assert_eq!(test_string("A", &hex), Ok(()));
}

#[test]
fn malformed_patterns_are_rejected() {
    assert_eq!(compile_regex("(a").unwrap_err(), CompileError::UnbalancedGroup);
    assert_eq!(compile_regex("a)").unwrap_err(), CompileError::UnbalancedGroup);
    assert_eq!(compile_regex("*a").unwrap_err(), CompileError::DanglingQuantifier);
    assert_eq!(compile_regex("\\q").unwrap_err(), CompileError::UnknownEscape('q'));
    assert_eq!(compile_regex("a\\").unwrap_err(), CompileError::UnexpectedEnd);
    assert_eq!(compile_regex("[ab").unwrap_err(), CompileError::UnexpectedEnd);
    assert_eq!(compile_regex("[]").unwrap_err(), CompileError::EmptyBracket);
    assert_eq!(compile_regex("a{2").unwrap_err(), CompileError::UnexpectedEnd);
    assert_eq!(
        compile_regex("a\\5").unwrap_err(),
        CompileError::BadBackReference(5)
    );
    assert_eq!(
        compile_regex("\\ud800").unwrap_err(),
        CompileError::InvalidCodePoint(0xD800)
    );
    assert_eq!(
        compile_regex("a{99999999999999999999}").unwrap_err(),
        CompileError::NumberTooLarge
    );
}

#[test]
fn dot_output_names_states_and_edges() {
    let mut n = Nfa::empty();
    n.add_transition(NfaState::Start, Transition::Literal('a'), NfaState::S(10));
    n.add_transition(NfaState::S(10), Transition::Epsilon, NfaState::Accepting);
    let dot = n.to_dot();
    assert_eq!(
        dot,
        "digraph nfa {\ngraph [label=\"NFA\"];\nstart -> s10 [label = \"'a'\"];\n\
         s10 -> accepting [label = \"\u{03B5}\"];\n}"
    );

    let d = compile_regex("a").unwrap();
    let ddot = d.to_dot("DFA");
    assert!(ddot.starts_with("digraph dfa {\ngraph [label=\"DFA\"];\n"));
    assert!(ddot.contains("doublecircle"));
    assert!(ddot.contains(" -> "));
    assert!(ddot.ends_with("}"));
}

#[test]
fn state_names_render_decimal_ids() {
    let mut counter = StateCounter::new();
    let s0 = NfaState::new(&mut counter);
    let s1 = NfaState::new(&mut counter);
    assert_eq!(s0, NfaState::S(0));
    assert_eq!(s1, NfaState::S(1));
    assert_eq!(s0.dot_node(), "s0");
    assert_eq!(NfaState::S(1234567890).dot_node(), "s1234567890");
    assert_eq!(NfaState::Start.dot_node(), "start");
    assert_eq!(NfaState::Accepting.dot_node(), "accepting");
    assert_eq!(Transition::Literal('x').dot_label(), "'x'");
    assert_eq!(Transition::Wildcard.dot_label(), ".");
}

#[test]
fn empty_pattern_rejects_nonempty_input() {
    let d = compile_regex("").unwrap();
    assert_eq!(test_string("a", &d), Err(SimError::NoTransitions));
}

#[test]
fn whole_string_acceptance_only() {
    let d = compile_regex("ab").unwrap();
    assert_eq!(test_string("ab", &d), Ok(()));
    assert_eq!(test_string("abc", &d), Err(SimError::Premature));
    assert_eq!(test_string("a", &d), Err(SimError::EndOfString));
    assert_eq!(test_string("", &d), Err(SimError::EndOfString));
}
