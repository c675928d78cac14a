//! A small regular-expression engine built on finite automata.
//!
//! A pattern is lexed into parse elements, parsed into a nondeterministic
//! finite automaton (NFA) by Thompson-style composition, converted to a
//! deterministic finite automaton (DFA) by epsilon-closure subset
//! construction, minimized with Hopcroft's partition refinement, and then
//! simulated against input strings for whole-string acceptance.
//!
//! Backreferences are structural, not referential: `\k` is expanded at
//! compile time into a fresh copy of group `k`'s automaton, so `(a|b)\1`
//! accepts `ab` and `ba` as well as `aa` and `bb`. Regular languages are
//! not closed under true backreferences, and this engine stays within
//! regular languages by design.

use vstd::prelude::*;

pub mod dfa;
pub mod nfa;
pub mod parse;
pub mod transition_table;

use crate::dfa::{many_reachable, subset_construction, Dfa, SimError, STATE_BUDGET};
use crate::nfa::is_eps_closure;
use crate::parse::{lex, lex_spec, parse, spec_parse, CompileError, PElemV};
use crate::transition_table::{NfaState, StateCounter};

verus! {

/// Compiles a pattern into a minimized DFA: lex, parse, subset
/// construction, Hopcroft minimization.
///
/// Each stage's error is returned exactly: the lexer's, per
/// [`lex_spec`]; the parser's, per [`spec_parse`] with the fresh-id
/// counter starting at zero; and the state budget's, which can occur
/// only when more than [`STATE_BUDGET`] distinct reachable subset states
/// exist for the parsed NFA — so success is owed whenever the pattern
/// lexes, parses and stays within the budget. On success the automaton
/// runs exactly like the subset construction of the parsed NFA, per
/// [`subset_construction`]; in particular it accepts the empty input
/// exactly when `Accepting` lies in the epsilon closure of `Start`.
pub fn compile_regex(input: &str) -> (r: Result<Dfa, CompileError>)
    ensures
        match r {
            Ok(d) => {
                &&& d.wf()
                &&& lex_spec(input@) matches Ok(tks) && spec_parse(tks, 0) matches Ok(p) && (
                exists|d0: Dfa|
                    (#[trigger] subset_construction(d0, p.0.edges)) && forall|s: Seq<char>|
                        d.sim_from(d.start_state as int, s) == d0.sim_from(
                            d0.start_state as int,
                            s,
                        ))
                &&& lex_spec(input@) matches Ok(tks) && spec_parse(tks, 0) matches Ok(p) && (
                forall|cl: Set<NfaState>|
                    is_eps_closure(p.0.edges, set![NfaState::Start], cl)
                        ==> (d.states@[d.start_state as int].accepting == cl.contains(
                        NfaState::Accepting,
                    )))
            },
            Err(e) => {
                ||| lex_spec(input@) == Err::<Seq<PElemV>, CompileError>(e)
                ||| (lex_spec(input@) matches Ok(tks) && spec_parse(tks, 0) == Err::<
                    (crate::nfa::NfaV, u64),
                    CompileError,
                >(e))
                ||| (e == CompileError::StateBudget && (lex_spec(input@) matches Ok(tks)
                    && spec_parse(tks, 0) matches Ok(p) && many_reachable(
                    p.0.edges,
                    STATE_BUDGET as int,
                )))
            },
        },
        lex_spec(input@) is Err ==> r == Err::<Dfa, CompileError>(lex_spec(input@)->Err_0),
        (lex_spec(input@) matches Ok(tks) && spec_parse(tks, 0) is Err) ==> (lex_spec(input@)
            matches Ok(tks2) && r == Err::<Dfa, CompileError>(spec_parse(tks2, 0)->Err_0)),
{
    let toks = match lex(input.to_owned()) {
        Ok(t) => t,
        Err(e) => {
            return Err(e);
        }
    };
    let mut counter = StateCounter::new();
    let nfa = match parse(&toks, &mut counter) {
        Ok(n) => n,
        Err(e) => {
            return Err(e);
        }
    };
    let ghost nfa_v = nfa@;
    let mut d = match Dfa::from_nfa(nfa) {
        Ok(d) => d,
        Err(e) => {
            return Err(e);
        }
    };
    let ghost d0 = d;
    let ghost cl0 = d.states@[0].internal@.to_set();
    let ghost acc0 = d.states@[d.start_state as int].accepting;
    proof {
        assert(acc0 == cl0.contains(NfaState::Accepting));
    }
    d.minimize();
    proof {
        assert(subset_construction(d0, nfa_v.edges));
        assert(forall|s: Seq<char>|
            d.sim_from(d.start_state as int, s) == d0.sim_from(d0.start_state as int, s));
        assert forall|cl: Set<NfaState>|
            is_eps_closure(nfa_v.edges, set![NfaState::Start], cl) implies (d.states@[
            d.start_state as int].accepting == cl.contains(NfaState::Accepting)) by {
            crate::nfa::lemma_eps_closure_unique(nfa_v.edges, set![NfaState::Start], cl, cl0);
        }
    }
    Ok(d)
}

/// Runs the automaton over the whole input: `Ok(())` exactly when the
/// input is consumed entirely and an accepting state is reached, per
/// [`Dfa::sim_from`].
pub fn test_string(input: &str, dfa: &Dfa) -> (r: Result<(), SimError>)
    requires
        dfa.wf(),
    ensures
        r == dfa.sim_from(dfa.start_state as int, input@),
{
    dfa.simulate(input.to_owned())
}

} // verus!
