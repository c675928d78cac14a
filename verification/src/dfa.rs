//! Deterministic finite automata: subset construction from an NFA,
//! Hopcroft minimization, DOT output and simulation.
//!
//! A DFA is stored arena-style: `states` holds one canonical
//! [`DfaState`] per index, and `transitions` holds, for the same index,
//! the outgoing row of `(label, target index)` pairs. A state with an
//! empty row has no outgoing transitions.

use vstd::prelude::*;

use crate::nfa::{eps_closed, is_eps_closure, Edge, Nfa};
use crate::parse::CompileError;
use crate::transition_table::{
    contains_state, dot_label_spec, dot_node_spec, sorted_insert, sorted_strict, to_char_vec,
    NfaState, Transition,
};

verus! {

/// The ways a simulation can fail.
#[derive(Debug, PartialEq, Eq, Structural)]
pub enum SimError {
    /// No transition could consume the character.
    NoMatch(char),
    /// The input was exhausted at a non-accepting state.
    EndOfString,
    /// A non-accepting state with no outgoing transitions was reached.
    NoTransitions,
    /// An accepting state was reached but input remained.
    Premature,
}

/// One DFA state: a canonical (strictly sorted) set of NFA states, and
/// whether that set contains the `Accepting` sentinel.
#[derive(Debug)]
pub struct DfaState {
    pub internal: Vec<NfaState>,
    pub accepting: bool,
}

impl DfaState {
    /// A DFA state is well formed when its NFA-state sequence is
    /// canonical and `accepting` mirrors membership of `Accepting`.
    pub open spec fn wf(self) -> bool {
        &&& sorted_strict(self.internal@)
        &&& self.accepting <==> self.internal@.contains(NfaState::Accepting)
    }

    /// Wraps a canonical sequence of NFA states, computing the
    /// accepting flag from membership of the `Accepting` sentinel.
    pub fn from_states(internal: Vec<NfaState>) -> (r: DfaState)
        requires
            sorted_strict(internal@),
        ensures
            r.wf(),
            r.internal@ == internal@,
    {
        let accepting = contains_state(&internal, &NfaState::Accepting);
        DfaState { internal, accepting }
    }

    /// Folds another state into this one: the NFA-state sets are
    /// unioned and the accepting flags are or-ed.
    pub fn merge(&mut self, other: &DfaState)
        requires
            old(self).wf(),
            other.wf(),
        ensures
            final(self).wf(),
            final(self).internal@.to_set() == old(self).internal@.to_set().union(
                other.internal@.to_set(),
            ),
            final(self).accepting == (old(self).accepting || other.accepting),
    {
        broadcast use vstd::seq_lib::group_seq_properties;

        let ghost s0 = self.internal@.to_set();
        let mut q: usize = 0;
        while q < other.internal.len()
            invariant
                q <= other.internal.len(),
                sorted_strict(self.internal@),
                self.internal@.to_set() == s0.union(other.internal@.take(q as int).to_set()),
                self.accepting == old(self).accepting,
            decreases other.internal.len() - q,
        {
            broadcast use vstd::seq_lib::group_seq_properties;

            let st = other.internal[q];
            proof {
                assert(other.internal@.take(q + 1) =~= other.internal@.take(q as int).push(st));
                assert(other.internal@.take(q + 1).to_set() =~= other.internal@.take(
                    q as int,
                ).to_set().insert(st));
            }
            if !contains_state(&self.internal, &st) {
                proof {
                    assert(!self.internal@.to_set().contains(st));
                }
                sorted_insert(&mut self.internal, st);
            }
            proof {
                assert(self.internal@.to_set() =~= s0.union(
                    other.internal@.take(q + 1).to_set(),
                ));
            }
            q = q + 1;
        }
        proof {
            assert(other.internal@.take(other.internal@.len() as int) =~= other.internal@);
        }
        if other.accepting {
            self.accepting = true;
        }
        proof {
            // the flag mirrors sentinel membership on both sides of the union
            assert(self.internal@.to_set() == s0.union(other.internal@.to_set()));
            assert(self.internal@.contains(NfaState::Accepting) <==> self.internal@.to_set()
                .contains(NfaState::Accepting));
            assert(old(self).internal@.contains(NfaState::Accepting) <==> s0.contains(
                NfaState::Accepting,
            ));
            assert(other.internal@.contains(NfaState::Accepting) <==> other.internal@.to_set()
                .contains(NfaState::Accepting));
        }
    }

    /// A structurally identical copy of this state.
    pub fn duplicate(&self) -> (r: DfaState)
        ensures
            r.internal@ == self.internal@,
            r.accepting == self.accepting,
    {
        let mut internal: Vec<NfaState> = Vec::new();
        let mut i: usize = 0;
        while i < self.internal.len()
            invariant
                i <= self.internal.len(),
                internal@ == self.internal@.take(i as int),
            decreases self.internal.len() - i,
        {
            internal.push(self.internal[i]);
            proof {
                assert(internal@ =~= self.internal@.take(i + 1 as int));
            }
            i = i + 1;
        }
        proof {
            assert(internal@ =~= self.internal@);
        }
        DfaState { internal, accepting: self.accepting }
    }
}

/// Whether two canonical state sequences are equal.
fn same_state_seq(a: &Vec<NfaState>, b: &Vec<NfaState>) -> (r: bool)
    ensures
        r == (a@ == b@),
{
    if a.len() != b.len() {
        return false;
    }
    let mut i: usize = 0;
    while i < a.len()
        invariant
            i <= a.len(),
            a@.len() == b@.len(),
            forall|j: int| 0 <= j < i ==> a@[j] == b@[j],
        decreases a.len() - i,
    {
        if a[i] != b[i] {
            return false;
        }
        i = i + 1;
    }
    proof {
        assert(a@ =~= b@);
    }
    true
}

/// Index of the state whose canonical sequence equals `d`'s, if any.
fn find_state(states: &Vec<DfaState>, d: &DfaState) -> (r: Option<usize>)
    ensures
        match r {
            Some(i) => i < states@.len() && states@[i as int].internal@ == d.internal@,
            None => forall|i: int|
                0 <= i < states@.len() ==> (#[trigger] states@[i]).internal@ != d.internal@,
        },
{
    let mut i: usize = 0;
    while i < states.len()
        invariant
            i <= states.len(),
            forall|j: int| 0 <= j < i ==> (#[trigger] states@[j]).internal@ != d.internal@,
        decreases states.len() - i,
    {
        if same_state_seq(&states[i].internal, &d.internal) {
            return Some(i);
        }
        i = i + 1;
    }
    None
}

/// First target bound to label `l` in a transition row, scanning from
/// index `i`.
pub open spec fn row_lookup(row: Seq<(Transition, usize)>, i: int, l: Transition) -> Option<usize>
    decreases row.len() - i,
{
    if i < 0 || i >= row.len() {
        None
    } else if row[i].0 == l {
        Some(row[i].1)
    } else {
        row_lookup(row, i + 1, l)
    }
}

/// If no entry from `i` on carries label `l`, the lookup fails.
proof fn lemma_row_lookup_none(row: Seq<(Transition, usize)>, i: int, l: Transition)
    requires
        forall|j: int| i <= j < row.len() ==> (#[trigger] row[j]).0 != l,
    ensures
        row_lookup(row, i, l) is None,
    decreases row.len() - i,
{
    if 0 <= i < row.len() {
        lemma_row_lookup_none(row, i + 1, l);
    }
}

/// If entry `k` is the first at or after `i` to carry label `l`, the
/// lookup returns its target.
proof fn lemma_row_lookup_some(row: Seq<(Transition, usize)>, i: int, k: int, l: Transition)
    requires
        0 <= i <= k < row.len(),
        row[k].0 == l,
        forall|j: int| i <= j < k ==> (#[trigger] row[j]).0 != l,
    ensures
        row_lookup(row, i, l) == Some(row[k].1),
    decreases k - i,
{
    if i < k {
        lemma_row_lookup_some(row, i + 1, k, l);
    }
}

/// A successful lookup returns the target of some entry of the row.
proof fn lemma_row_lookup_entry(row: Seq<(Transition, usize)>, i: int, l: Transition)
    requires
        row_lookup(row, i, l) is Some,
    ensures
        exists|k: int|
            0 <= k < row.len() && (#[trigger] row[k]).0 == l && Some(row[k].1) == row_lookup(
                row,
                i,
                l,
            ),
    decreases row.len() - i,
{
    if 0 <= i < row.len() && row[i].0 != l {
        lemma_row_lookup_entry(row, i + 1, l);
    }
}

/// Whether some edge of `es` leaves a state in `s` with label `l` and
/// enters `b`.
pub open spec fn edge_move(es: Seq<Edge>, s: Set<NfaState>, l: Transition, b: NfaState) -> bool {
    exists|i: int|
        0 <= i < es.len() && (#[trigger] es[i]).label == l && s.contains(es[i].from) && es[i].to
            == b
}

/// All states some edge with label `l` reaches from `s`.
pub open spec fn move_set(es: Seq<Edge>, s: Set<NfaState>, l: Transition) -> Set<NfaState> {
    Set::new(|b: NfaState| edge_move(es, s, l, b))
}

/// Whether any edge with label `l` leaves a state of `s` at all.
pub open spec fn has_move(es: Seq<Edge>, s: Set<NfaState>, l: Transition) -> bool {
    exists|b: NfaState| edge_move(es, s, l, b)
}

/// The move set for `l` extended by the wildcard alternative: a literal
/// step must also reach whatever a wildcard step would reach, because the
/// wildcard is always available for that character.
pub open spec fn folded_move_set(es: Seq<Edge>, s: Set<NfaState>, l: Transition) -> Set<
    NfaState,
> {
    if l is Wildcard {
        move_set(es, s, l)
    } else {
        move_set(es, s, l).union(move_set(es, s, Transition::Wildcard))
    }
}

/// Whether the transition row `row` is exactly the subset-construction
/// row for the source set `s`: a label is present iff some edge with
/// that label leaves `s`, and its target state holds the epsilon closure
/// of the wildcard-folded move set.
pub open spec fn row_correct(
    es: Seq<Edge>,
    states: Seq<DfaState>,
    row: Seq<(Transition, usize)>,
    s: Set<NfaState>,
) -> bool {
    forall|l: Transition|
        !(l is Epsilon) ==> match #[trigger] row_lookup(row, 0, l) {
            Some(t) => {
                &&& 0 <= t < states.len()
                &&& has_move(es, s, l)
                &&& is_eps_closure(es, folded_move_set(es, s, l), states[t as int].internal@.to_set())
            },
            None => !has_move(es, s, l),
        }
}

/// The largest number of DFA states subset construction will build.
///
/// Subset construction can need exponentially many states; far before
/// any interesting bound is reached the machine would be out of memory,
/// so construction gives up cleanly at this budget instead.
pub const STATE_BUDGET: usize = 1048576;

/// Whether the sequence of transition labels holds `l`.
fn contains_label(v: &Vec<Transition>, l: &Transition) -> (r: bool)
    ensures
        r == v@.contains(*l),
{
    let mut i: usize = 0;
    while i < v.len()
        invariant
            i <= v.len(),
            forall|j: int| 0 <= j < i ==> v@[j] != *l,
        decreases v.len() - i,
    {
        if v[i] == *l {
            return true;
        }
        i = i + 1;
    }
    false
}

/// Every target some edge labeled `l` reaches from the source set, with
/// duplicates allowed.
fn gather_targets(nfa: &Nfa, src: &Vec<NfaState>, l: Transition) -> (r: Vec<NfaState>)
    ensures
        forall|b: NfaState|
            #[trigger] r@.contains(b) <==> edge_move(nfa.edges@, src@.to_set(), l, b),
{
    broadcast use vstd::seq_lib::group_seq_properties;

    let ghost es = nfa.edges@;
    let ghost s = src@.to_set();
    let mut r: Vec<NfaState> = Vec::new();
    let mut j: usize = 0;
    while j < nfa.edges.len()
        invariant
            j <= nfa.edges.len(),
            es == nfa.edges@,
            s == src@.to_set(),
            forall|b: NfaState|
                #[trigger] r@.contains(b) <==> edge_move(es.take(j as int), s, l, b),
        decreases nfa.edges.len() - j,
    {
        broadcast use vstd::seq_lib::group_seq_properties;

        let ghost r0 = r@;
        let e = nfa.edges[j];
        let matches_edge = if e.label == l {
            contains_state(src, &e.from)
        } else {
            false
        };
        if matches_edge {
            r.push(e.to);
        }
        proof {
            assert(es.take(j + 1) =~= es.take(j as int).push(es[j as int]));
            assert forall|b: NfaState| #[trigger] r@.contains(b) implies edge_move(
                es.take(j + 1),
                s,
                l,
                b,
            ) by {
                if r0.contains(b) {
                    let w = choose|w: int|
                        0 <= w < es.take(j as int).len() && (#[trigger] es.take(j as int)[w]).label
                            == l && s.contains(es.take(j as int)[w].from) && es.take(
                            j as int,
                        )[w].to == b;
                    assert((es.take(j + 1))[w] == es.take(j as int)[w]);
                } else {
                    assert(matches_edge && b == e.to);
                    assert(s.contains(e.from));
                    assert((es.take(j + 1))[j as int] == e);
                }
            }
            assert forall|b: NfaState| edge_move(es.take(j + 1), s, l, b) implies #[trigger]
                r@.contains(b) by {
                let w = choose|w: int|
                    0 <= w < es.take(j + 1).len() && (#[trigger] es.take(j + 1)[w]).label == l
                        && s.contains(es.take(j + 1)[w].from) && es.take(j + 1)[w].to == b;
                if w < j {
                    assert(es.take(j as int)[w] == es.take(j + 1)[w]);
                    assert(edge_move(es.take(j as int), s, l, b));
                    assert(r0.contains(b));
                } else {
                    assert(es.take(j + 1)[j as int] == e);
                    assert(e.label == l && s.contains(e.from) && e.to == b);
                    assert(src@.contains(e.from));
                    assert(r@[r@.len() - 1] == b);
                }
            }
        }
        j = j + 1;
    }
    proof {
        assert(es.take(es.len() as int) =~= es);
    }
    r
}

/// The distinct non-epsilon labels that leave the source set, in first
/// appearance order.
fn collect_labels(nfa: &Nfa, src: &Vec<NfaState>) -> (r: Vec<Transition>)
    ensures
        forall|k1: int, k2: int| 0 <= k1 < k2 < r@.len() ==> r@[k1] != r@[k2],
        forall|k: int| 0 <= k < r@.len() ==> !((#[trigger] r@[k]) is Epsilon),
        forall|l: Transition|
            #[trigger] r@.contains(l) <==> (!(l is Epsilon) && has_move(
                nfa.edges@,
                src@.to_set(),
                l,
            )),
{
    broadcast use vstd::seq_lib::group_seq_properties;

    let ghost es = nfa.edges@;
    let ghost s = src@.to_set();
    let mut r: Vec<Transition> = Vec::new();
    let mut j: usize = 0;
    while j < nfa.edges.len()
        invariant
            j <= nfa.edges.len(),
            es == nfa.edges@,
            s == src@.to_set(),
            forall|k1: int, k2: int| 0 <= k1 < k2 < r@.len() ==> r@[k1] != r@[k2],
            forall|k: int| 0 <= k < r@.len() ==> !((#[trigger] r@[k]) is Epsilon),
            forall|l: Transition|
                #[trigger] r@.contains(l) <==> (!(l is Epsilon) && has_move(
                    es.take(j as int),
                    s,
                    l,
                )),
        decreases nfa.edges.len() - j,
    {
        broadcast use vstd::seq_lib::group_seq_properties;

        let ghost r0 = r@;
        let e = nfa.edges[j];
        let is_eps = e.label == Transition::Epsilon;
        let from_in = contains_state(src, &e.from);
        if !is_eps && from_in {
            if !contains_label(&r, &e.label) {
                r.push(e.label);
            }
        }
        proof {
            assert(es.take(j + 1) =~= es.take(j as int).push(es[j as int]));
            assert forall|l: Transition| #[trigger] r@.contains(l) implies (!(l is Epsilon)
                && has_move(es.take(j + 1), s, l)) by {
                if r0.contains(l) {
                    let b = choose|b: NfaState| #[trigger] edge_move(es.take(j as int), s, l, b);
                    let w = choose|w: int|
                        0 <= w < es.take(j as int).len() && (#[trigger] es.take(j as int)[w]).label
                            == l && s.contains(es.take(j as int)[w].from) && es.take(
                            j as int,
                        )[w].to == b;
                    assert(es.take(j + 1)[w] == es.take(j as int)[w]);
                    assert(edge_move(es.take(j + 1), s, l, b));
                } else {
                    assert(l == e.label && !is_eps && from_in);
                    assert(es.take(j + 1)[j as int] == e);
                    assert(edge_move(es.take(j + 1), s, l, e.to));
                }
            }
            assert forall|l: Transition|
                !(l is Epsilon) && has_move(es.take(j + 1), s, l) implies #[trigger] r@.contains(
                l,
            ) by {
                let b = choose|b: NfaState| #[trigger] edge_move(es.take(j + 1), s, l, b);
                let w = choose|w: int|
                    0 <= w < es.take(j + 1).len() && (#[trigger] es.take(j + 1)[w]).label == l
                        && s.contains(es.take(j + 1)[w].from) && es.take(j + 1)[w].to == b;
                if w < j {
                    assert(es.take(j as int)[w] == es.take(j + 1)[w]);
                    assert(edge_move(es.take(j as int), s, l, b));
                    assert(r0.contains(l));
                    if r@ != r0 {
                        assert(r@ == r0.push(e.label));
                    }
                } else {
                    assert(es.take(j + 1)[j as int] == e);
                    assert(l == e.label);
                    assert(s.contains(e.from));
                    assert(src@.contains(e.from));
                    if !r0.contains(l) {
                        assert(r@ == r0.push(e.label));
                        assert(r@[r@.len() - 1] == l);
                    }
                }
            }
        }
        j = j + 1;
    }
    proof {
        assert(es.take(es.len() as int) =~= es);
    }
    r
}

/// Whether `s` is strictly ascending. Such a sequence is the canonical
/// representation of its set of state indices.
pub open spec fn sorted_usize(s: Seq<usize>) -> bool {
    forall|i: int, j: int| 0 <= i < j < s.len() ==> (#[trigger] s[i]) < (#[trigger] s[j])
}

/// A strictly ascending index sequence has no repeats, so its length is
/// the cardinality of its set.
proof fn lemma_sorted_usize_cardinality(s: Seq<usize>)
    requires
        sorted_usize(s),
    ensures
        s.no_duplicates(),
        s.to_set().len() == s.len(),
        s.to_set().finite(),
{
    broadcast use vstd::seq_lib::seq_to_set_is_finite;

    assert(s.no_duplicates()) by {
        assert forall|i: int, j: int|
            0 <= i < s.len() && 0 <= j < s.len() && i != j implies s[i] != s[j] by {
            if i < j {
                assert(s[i] < s[j]);
            } else {
                assert(s[j] < s[i]);
            }
        }
    }
    s.unique_seq_to_set();
}

/// Whether the index sequence holds `x`.
fn contains_usize(v: &Vec<usize>, x: usize) -> (r: bool)
    ensures
        r == v@.contains(x),
{
    let mut i: usize = 0;
    while i < v.len()
        invariant
            i <= v.len(),
            forall|j: int| 0 <= j < i ==> v@[j] != x,
        decreases v.len() - i,
    {
        if v[i] == x {
            return true;
        }
        i = i + 1;
    }
    false
}

/// A structurally identical copy of an index sequence.
fn dup_usize_vec(v: &Vec<usize>) -> (r: Vec<usize>)
    ensures
        r@ == v@,
{
    let mut r: Vec<usize> = Vec::new();
    let mut i: usize = 0;
    while i < v.len()
        invariant
            i <= v.len(),
            r@ == v@.take(i as int),
        decreases v.len() - i,
    {
        r.push(v[i]);
        proof {
            assert(r@ =~= v@.take(i + 1 as int));
        }
        i = i + 1;
    }
    proof {
        assert(r@ =~= v@);
    }
    r
}

/// Whether two index sequences are equal.
fn same_usize_seq(a: &Vec<usize>, b: &Vec<usize>) -> (r: bool)
    ensures
        r == (a@ == b@),
{
    if a.len() != b.len() {
        return false;
    }
    let mut i: usize = 0;
    while i < a.len()
        invariant
            i <= a.len(),
            a@.len() == b@.len(),
            forall|j: int| 0 <= j < i ==> a@[j] == b@[j],
        decreases a.len() - i,
    {
        if a[i] != b[i] {
            return false;
        }
        i = i + 1;
    }
    proof {
        assert(a@ =~= b@);
    }
    true
}

/// The canonical intersection of a canonical sequence with the set of
/// another index sequence.
fn intersect_sorted(a: &Vec<usize>, b: &Vec<usize>) -> (r: Vec<usize>)
    requires
        sorted_usize(a@),
    ensures
        sorted_usize(r@),
        forall|x: usize| #[trigger] r@.contains(x) <==> (a@.contains(x) && b@.contains(x)),
{
    broadcast use vstd::seq_lib::group_seq_properties;

    let mut r: Vec<usize> = Vec::new();
    let mut i: usize = 0;
    while i < a.len()
        invariant
            i <= a.len(),
            sorted_usize(a@),
            sorted_usize(r@),
            forall|x: usize|
                #[trigger] r@.contains(x) <==> (a@.take(i as int).contains(x) && b@.contains(x)),
            r@.len() > 0 ==> exists|k: int| 0 <= k < i && a@[k] == r@[r@.len() - 1],
        decreases a.len() - i,
    {
        broadcast use vstd::seq_lib::group_seq_properties;

        proof {
            assert(a@.take(i + 1) =~= a@.take(i as int).push(a@[i as int]));
        }
        if contains_usize(b, a[i]) {
            proof {
                if r@.len() > 0 {
                    let k = choose|k: int| 0 <= k < i && a@[k] == r@[r@.len() - 1];
                    assert(a@[k] < a@[i as int]);
                }
            }
            r.push(a[i]);
        }
        i = i + 1;
    }
    proof {
        assert(a@.take(a@.len() as int) =~= a@);
    }
    r
}

/// The canonical difference of a canonical sequence and the set of
/// another index sequence.
fn diff_sorted(a: &Vec<usize>, b: &Vec<usize>) -> (r: Vec<usize>)
    requires
        sorted_usize(a@),
    ensures
        sorted_usize(r@),
        forall|x: usize| #[trigger] r@.contains(x) <==> (a@.contains(x) && !b@.contains(x)),
{
    broadcast use vstd::seq_lib::group_seq_properties;

    let mut r: Vec<usize> = Vec::new();
    let mut i: usize = 0;
    while i < a.len()
        invariant
            i <= a.len(),
            sorted_usize(a@),
            sorted_usize(r@),
            forall|x: usize|
                #[trigger] r@.contains(x) <==> (a@.take(i as int).contains(x) && !b@.contains(x)),
            r@.len() > 0 ==> exists|k: int| 0 <= k < i && a@[k] == r@[r@.len() - 1],
        decreases a.len() - i,
    {
        broadcast use vstd::seq_lib::group_seq_properties;

        proof {
            assert(a@.take(i + 1) =~= a@.take(i as int).push(a@[i as int]));
        }
        if !contains_usize(b, a[i]) {
            proof {
                if r@.len() > 0 {
                    let k = choose|k: int| 0 <= k < i && a@[k] == r@[r@.len() - 1];
                    assert(a@[k] < a@[i as int]);
                }
            }
            r.push(a[i]);
        }
        i = i + 1;
    }
    proof {
        assert(a@.take(a@.len() as int) =~= a@);
    }
    r
}

/// The sequences of a partition viewed as plain sequences.
pub open spec fn views_of(p: Seq<Vec<usize>>) -> Seq<Seq<usize>> {
    p.map_values(|b: Vec<usize>| b@)
}

/// Structural well-formedness of a partition of the state indices below
/// `n`: canonical nonempty blocks with in-range members, pairwise
/// disjoint.
pub open spec fn blocks_wf(p: Seq<Seq<usize>>, n: int) -> bool {
    &&& forall|k: int| 0 <= k < p.len() ==> sorted_usize(#[trigger] p[k])
    &&& forall|k: int| 0 <= k < p.len() ==> (#[trigger] p[k]).len() >= 1
    &&& forall|k: int, q: int|
        0 <= k < p.len() && 0 <= q < p[k].len() ==> (#[trigger] p[k][q]) < n
    &&& forall|k1: int, k2: int, x: usize|
        0 <= k1 < p.len() && 0 <= k2 < p.len() && k1 != k2 && #[trigger] p[k1].contains(x)
            ==> !(#[trigger] p[k2].contains(x))
}

/// Pairwise-disjoint nonempty blocks of indices below `n` number at most
/// `n`: their first members are distinct indices.
proof fn lemma_partition_bound(p: Seq<Seq<usize>>, n: int)
    requires
        blocks_wf(p, n),
        n >= 0,
    ensures
        p.len() <= n,
{
    broadcast use vstd::seq_lib::seq_to_set_is_finite;

    let firsts = Seq::new(p.len(), |k: int| p[k][0] as int);
    assert(firsts.no_duplicates()) by {
        assert forall|k1: int, k2: int|
            0 <= k1 < firsts.len() && 0 <= k2 < firsts.len() && k1 != k2 implies firsts[k1]
            != firsts[k2] by {
            assert(p[k1].contains(p[k1][0]));
            assert(p[k2].contains(p[k2][0]));
        }
    }
    firsts.unique_seq_to_set();
    assert(firsts.to_set().subset_of(vstd::set_lib::set_int_range(0, n))) by {
        assert forall|x: int| firsts.to_set().contains(x) implies vstd::set_lib::set_int_range(
            0,
            n,
        ).contains(x) by {
            let k = choose|k: int| 0 <= k < firsts.len() && firsts[k] == x;
            assert(p[k][0] < n);
        }
    }
    vstd::set_lib::lemma_int_range(0, n);
    vstd::set_lib::lemma_len_subset(firsts.to_set(), vstd::set_lib::set_int_range(0, n));
}

/// Whether some block of `p`, at index `from` or later, holds the state
/// index `s`.
pub open spec fn covered_from(p: Seq<Vec<usize>>, from: int, s: usize) -> bool {
    exists|k: int| from <= k < p.len() && (#[trigger] p[k])@.contains(s)
}

/// Bridges partition facts stated over vectors to [`blocks_wf`] over
/// their views.
proof fn lemma_blocks_wf_views(p: Seq<Vec<usize>>, n: int)
    requires
        forall|k: int| 0 <= k < p.len() ==> sorted_usize((#[trigger] p[k])@),
        forall|k: int| 0 <= k < p.len() ==> (#[trigger] p[k])@.len() >= 1,
        forall|k: int, q: int| 0 <= k < p.len() && 0 <= q < p[k]@.len() ==> (#[trigger] p[k]@[q]) < n,
        forall|k1: int, k2: int, x: usize|
            0 <= k1 < p.len() && 0 <= k2 < p.len() && k1 != k2 && #[trigger] p[k1]@.contains(x)
                ==> !(#[trigger] p[k2]@.contains(x)),
    ensures
        blocks_wf(views_of(p), n),
{
    let v = views_of(p);
    assert forall|k: int| 0 <= k < v.len() implies sorted_usize(#[trigger] v[k]) by {
        assert(v[k] == p[k]@);
    }
    assert forall|k: int| 0 <= k < v.len() implies (#[trigger] v[k]).len() >= 1 by {
        assert(v[k] == p[k]@);
    }
    assert forall|k: int, q: int|
        0 <= k < v.len() && 0 <= q < v[k].len() implies (#[trigger] v[k][q]) < n by {
        assert(v[k] == p[k]@);
    }
    assert forall|k1: int, k2: int, x: usize|
        0 <= k1 < v.len() && 0 <= k2 < v.len() && k1 != k2 && #[trigger] v[k1].contains(x) implies
        !(#[trigger] v[k2].contains(x)) by {
        assert(v[k1] == p[k1]@);
        assert(v[k2] == p[k2]@);
    }
}

/// Index of the first block equal to `rb`, if any.
fn find_block(w: &Vec<Vec<usize>>, rb: &Vec<usize>) -> (r: Option<usize>)
    ensures
        r matches Some(i) ==> i < w@.len(),
{
    let mut wi: usize = 0;
    while wi < w.len()
        invariant
            wi <= w@.len(),
        decreases w@.len() - wi,
    {
        if same_usize_seq(&w[wi], rb) {
            return Some(wi);
        }
        wi = wi + 1;
    }
    None
}

/// The concatenated node names of the first `j` states of a canonical
/// sequence; the whole sequence names a DFA state's DOT node.
pub open spec fn state_refs(sts: Seq<NfaState>, j: int) -> Seq<char>
    decreases j,
{
    if j <= 0 {
        Seq::empty()
    } else {
        state_refs(sts, j - 1) + dot_node_spec(sts[j - 1])
    }
}

/// The DOT node name of a DFA state: its NFA states' names run together.
pub open spec fn dstate_ref(d: DfaState) -> Seq<char> {
    state_refs(d.internal@, d.internal@.len() as int)
}

/// The comma-separated node names of the first `j` states, used inside
/// the braces of a DFA node label.
pub open spec fn state_label_body(sts: Seq<NfaState>, j: int) -> Seq<char>
    decreases j,
{
    if j <= 0 {
        Seq::empty()
    } else if j == 1 {
        dot_node_spec(sts[0])
    } else {
        state_label_body(sts, j - 1) + ", "@ + dot_node_spec(sts[j - 1])
    }
}

/// The DOT node definition line of a DFA state.
pub open spec fn dstate_node_line(d: DfaState) -> Seq<char> {
    dstate_ref(d) + " [label = \"{"@ + state_label_body(d.internal@, d.internal@.len() as int)
        + "}\"; shape = "@ + (if d.accepting {
        "doublecircle"@
    } else {
        "circle"@
    }) + "];\n"@
}

/// The DOT edge line for one DFA transition.
pub open spec fn dfa_edge_line(from: DfaState, to: DfaState, l: Transition) -> Seq<char> {
    dstate_ref(from) + " -> "@ + dstate_ref(to) + " [label = \""@ + dot_label_spec(l) + "\"];\n"@
}

/// Walks one transition row from entry `k`, accumulating the node
/// definitions of states first seen (by index, in `seen`) and the edge
/// lines, in row order.
pub open spec fn dfa_dot_row(
    d: Dfa,
    i: int,
    row: Seq<(Transition, usize)>,
    k: int,
    seen: Seq<usize>,
    nodes: Seq<char>,
    edges: Seq<char>,
) -> (Seq<usize>, Seq<char>, Seq<char>)
    decreases row.len() - k,
{
    if k < 0 || k >= row.len() {
        (seen, nodes, edges)
    } else {
        let l = row[k].0;
        let tgt = row[k].1;
        let iu = i as usize;
        let seen1 = if seen.contains(iu) {
            seen
        } else {
            seen.push(iu)
        };
        let nodes1 = if seen.contains(iu) {
            nodes
        } else {
            nodes + dstate_node_line(d.states@[i])
        };
        let seen2 = if seen1.contains(tgt) {
            seen1
        } else {
            seen1.push(tgt)
        };
        let nodes2 = if seen1.contains(tgt) {
            nodes1
        } else {
            nodes1 + dstate_node_line(d.states@[tgt as int])
        };
        let edges2 = edges + dfa_edge_line(d.states@[i], d.states@[tgt as int], l);
        dfa_dot_row(d, i, row, k + 1, seen2, nodes2, edges2)
    }
}

/// Walks the transition rows from row `i`, per [`dfa_dot_row`].
pub open spec fn dfa_dot_rows(
    d: Dfa,
    i: int,
    seen: Seq<usize>,
    nodes: Seq<char>,
    edges: Seq<char>,
) -> (Seq<usize>, Seq<char>, Seq<char>)
    decreases d.transitions@.len() - i,
{
    if i < 0 || i >= d.transitions@.len() {
        (seen, nodes, edges)
    } else {
        let a = dfa_dot_row(d, i, d.transitions@[i]@, 0, seen, nodes, edges);
        dfa_dot_rows(d, i + 1, a.0, a.1, a.2)
    }
}

/// The complete DOT rendering of a DFA under a graph label.
pub open spec fn dfa_dot_spec(d: Dfa, label: Seq<char>) -> Seq<char> {
    let folded = dfa_dot_rows(d, 0, Seq::empty(), Seq::empty(), Seq::empty());
    "digraph dfa {\ngraph [label=\""@ + label + "\"];\n"@ + folded.1 + "\n"@ + folded.2 + "}"@
}

/// The DOT node name of a DFA state, per [`dstate_ref`].
fn state_ref_str(d: &DfaState) -> (r: String)
    ensures
        r@ == dstate_ref(*d),
{
    let mut r = String::new();
    let mut j: usize = 0;
    while j < d.internal.len()
        invariant
            j <= d.internal@.len(),
            r@ == state_refs(d.internal@, j as int),
        decreases d.internal@.len() - j,
    {
        let part = d.internal[j].dot_node();
        r.append(part.as_str());
        proof {
            assert(r@ =~= state_refs(d.internal@, j + 1));
        }
        j = j + 1;
    }
    r
}

/// The DOT node definition line of a DFA state, per [`dstate_node_line`].
fn state_node_line(d: &DfaState) -> (r: String)
    ensures
        r@ == dstate_node_line(*d),
{
    let mut r = state_ref_str(d);
    r.append(" [label = \"{");
    let mut j: usize = 0;
    let ghost before = r@;
    while j < d.internal.len()
        invariant
            j <= d.internal@.len(),
            r@ == before + state_label_body(d.internal@, j as int),
        decreases d.internal@.len() - j,
    {
        if j != 0 {
            r.append(", ");
        }
        let part = d.internal[j].dot_node();
        r.append(part.as_str());
        proof {
            assert(r@ =~= before + state_label_body(d.internal@, j + 1));
        }
        j = j + 1;
    }
    r.append("}\"; shape = ");
    if d.accepting {
        r.append("doublecircle");
    } else {
        r.append("circle");
    }
    r.append("];\n");
    proof {
        assert(r@ =~= dstate_node_line(*d));
    }
    r
}

/// Whether the transition tables `a` and `b` agree through the state map
/// `remap`: for every state `q` of `a` and every label, `q`'s row and the
/// row of `remap[q]` in `b` bind the same labels, and bound targets are
/// related by `remap`. Two tables that agree this way simulate each other
/// step for step.
pub open spec fn rows_agree(
    old_t: Seq<Vec<(Transition, usize)>>,
    new_t: Seq<Vec<(Transition, usize)>>,
    remap: Seq<usize>,
) -> bool {
    forall|q: int, l: Transition|
        0 <= q < old_t.len() ==> (((#[trigger] row_lookup(old_t[q]@, 0, l)) is Some
            <==> row_lookup(new_t[remap[q] as int]@, 0, l) is Some) && (row_lookup(
            old_t[q]@,
            0,
            l,
        ) matches Some(t) ==> row_lookup(new_t[remap[q] as int]@, 0, l) == Some(
            remap[t as int] as usize,
        )))
}

/// Decides [`rows_agree`]: checks, for every state, that its old row and
/// its remapped row bind exactly the same labels with `remap`-related
/// targets. Only a `true` answer is relied upon.
fn rows_equivalent(
    old_t: &Vec<Vec<(Transition, usize)>>,
    new_t: &Vec<Vec<(Transition, usize)>>,
    remap: &Vec<usize>,
) -> (r: bool)
    requires
        remap@.len() == old_t@.len(),
        forall|q: int| 0 <= q < remap@.len() ==> (#[trigger] remap@[q]) < new_t@.len(),
        forall|q: int, k: int|
            0 <= q < old_t@.len() && 0 <= k < old_t@[q]@.len() ==> (#[trigger]
            old_t@[q]@[k]).1 < remap@.len(),
    ensures
        r ==> rows_agree(old_t@, new_t@, remap@),
{
    let n = old_t.len();
    let mut q: usize = 0;
    while q < n
        invariant
            q <= n,
            n == old_t@.len(),
            remap@.len() == old_t@.len(),
            forall|q2: int| 0 <= q2 < remap@.len() ==> (#[trigger] remap@[q2]) < new_t@.len(),
            forall|q2: int, k: int|
                0 <= q2 < old_t@.len() && 0 <= k < old_t@[q2]@.len() ==> (#[trigger]
                old_t@[q2]@[k]).1 < remap@.len(),
            forall|q2: int, l: Transition|
                0 <= q2 < q ==> (((#[trigger] row_lookup(old_t@[q2]@, 0, l)) is Some
                    <==> row_lookup(new_t@[remap@[q2] as int]@, 0, l) is Some) && (row_lookup(
                    old_t@[q2]@,
                    0,
                    l,
                ) matches Some(t) ==> row_lookup(new_t@[remap@[q2] as int]@, 0, l) == Some(
                    remap@[t as int] as usize,
                ))),
        decreases n - q,
    {
        let b = remap[q];
        let orow = &old_t[q];
        let nrow = &new_t[b];
        // every label bound by the old row is bound by the new row, to
        // the remapped target
        let mut k: usize = 0;
        while k < orow.len()
            invariant
                k <= orow@.len(),
                orow@ == old_t@[q as int]@,
                nrow@ == new_t@[remap@[q as int] as int]@,
                (q as int) < old_t@.len(),
                remap@.len() == old_t@.len(),
                forall|k2: int, k3: int|
                    0 <= k2 < old_t@.len() && 0 <= k3 < old_t@[k2]@.len() ==> (#[trigger]
                    old_t@[k2]@[k3]).1 < remap@.len(),
                forall|k2: int|
                    0 <= k2 < k ==> row_lookup(nrow@, 0, (#[trigger] orow@[k2]).0) == Some(
                        remap@[orow@[k2].1 as int],
                    ),
            decreases orow@.len() - k,
        {
            let (l, t) = orow[k];
            match row_get(nrow, l) {
                Some(t2) => {
                    if t2 != remap[t] {
                        return false;
                    }
                }
                None => {
                    return false;
                }
            }
            k = k + 1;
        }
        // every label bound by the new row is bound by the old row
        let mut k2: usize = 0;
        while k2 < nrow.len()
            invariant
                k2 <= nrow@.len(),
                orow@ == old_t@[q as int]@,
                nrow@ == new_t@[remap@[q as int] as int]@,
                forall|k3: int|
                    0 <= k3 < k2 ==> row_lookup(orow@, 0, (#[trigger] nrow@[k3]).0) is Some,
            decreases nrow@.len() - k2,
        {
            match row_get(orow, nrow[k2].0) {
                Some(_) => {}
                None => {
                    return false;
                }
            }
            k2 = k2 + 1;
        }
        proof {
            assert forall|l: Transition|
                (((#[trigger] row_lookup(old_t@[q as int]@, 0, l)) is Some <==> row_lookup(
                    new_t@[remap@[q as int] as int]@,
                    0,
                    l,
                ) is Some) && (row_lookup(old_t@[q as int]@, 0, l) matches Some(t)
                    ==> row_lookup(new_t@[remap@[q as int] as int]@, 0, l) == Some(
                    remap@[t as int] as usize,
                ))) by {
                match row_lookup(orow@, 0, l) {
                    Some(t) => {
                        lemma_row_lookup_entry(orow@, 0, l);
                        let ke = choose|ke: int|
                            0 <= ke < orow@.len() && (#[trigger] orow@[ke]).0 == l && Some(
                                orow@[ke].1,
                            ) == row_lookup(orow@, 0, l);
                        assert(row_lookup(nrow@, 0, l) == Some(remap@[t as int] as usize));
                    }
                    None => {
                        if row_lookup(nrow@, 0, l) is Some {
                            lemma_row_lookup_entry(nrow@, 0, l);
                            let ke = choose|ke: int|
                                0 <= ke < nrow@.len() && (#[trigger] nrow@[ke]).0 == l && Some(
                                    nrow@[ke].1,
                                ) == row_lookup(nrow@, 0, l);
                            assert(row_lookup(orow@, 0, l) is Some);
                        }
                    }
                }
            }
        }
        q = q + 1;
    }
    true
}

/// The row agreement, instantiated at one state and one label.
proof fn lemma_rows_agree_at(
    old_t: Seq<Vec<(Transition, usize)>>,
    new_t: Seq<Vec<(Transition, usize)>>,
    remap: Seq<usize>,
    q: int,
    l: Transition,
)
    requires
        rows_agree(old_t, new_t, remap),
        0 <= q < old_t.len(),
    ensures
        row_lookup(old_t[q]@, 0, l) is Some <==> row_lookup(new_t[remap[q] as int]@, 0, l)
            is Some,
        row_lookup(old_t[q]@, 0, l) matches Some(t) ==> row_lookup(new_t[remap[q] as int]@, 0, l)
            == Some(remap[t as int] as usize),
{
}

/// Two automata whose tables agree through `remap` and whose states
/// agree on acceptance through `remap` run identically: the simulation
/// from any state of `a` returns exactly the result of the simulation
/// from its image in `b`, on every input.
proof fn lemma_sim_agree(a: Dfa, b: Dfa, remap: Seq<usize>, q: int, s: Seq<char>)
    requires
        a.wf(),
        b.wf(),
        remap.len() == a.states@.len(),
        forall|i: int| 0 <= i < remap.len() ==> (#[trigger] remap[i]) < b.states@.len(),
        forall|i: int|
            0 <= i < remap.len() ==> b.states@[(#[trigger] remap[i]) as int].accepting
                == a.states@[i].accepting,
        rows_agree(a.transitions@, b.transitions@, remap),
        0 <= q < a.states@.len(),
    ensures
        b.sim_from(remap[q] as int, s) == a.sim_from(q, s),
    decreases s.len(),
{
    let bq = remap[q] as int;
    assert(a.transitions@.len() == a.states@.len());
    assert(0 <= q < a.transitions@.len());
    assert(bq < b.transitions@.len());
    // the two rows are empty together: a label bound on one side only
    // would contradict the agreement
    if a.transitions@[q]@.len() == 0 && b.transitions@[bq]@.len() > 0 {
        let l0 = b.transitions@[bq]@[0].0;
        assert(row_lookup(b.transitions@[bq]@, 0, l0) == Some(b.transitions@[bq]@[0].1));
        assert(row_lookup(a.transitions@[q]@, 0, l0) is None);
        assert(false);
    }
    if b.transitions@[bq]@.len() == 0 && a.transitions@[q]@.len() > 0 {
        let l0 = a.transitions@[q]@[0].0;
        assert(row_lookup(a.transitions@[q]@, 0, l0) == Some(a.transitions@[q]@[0].1));
        assert(row_lookup(b.transitions@[bq]@, 0, l0) is None);
        assert(false);
    }
    if a.transitions@[q]@.len() != 0 && s.len() > 0 {
        let c = s[0];
        lemma_rows_agree_at(a.transitions@, b.transitions@, remap, q, Transition::Literal(c));
        lemma_rows_agree_at(a.transitions@, b.transitions@, remap, q, Transition::Wildcard);
        match row_lookup(a.transitions@[q]@, 0, Transition::Literal(c)) {
            Some(t) => {
                lemma_row_lookup_entry(a.transitions@[q]@, 0, Transition::Literal(c));
                assert(row_lookup(b.transitions@[bq]@, 0, Transition::Literal(c)) == Some(
                    remap[t as int] as usize,
                ));
                lemma_sim_agree(a, b, remap, t as int, s.skip(1));
            }
            None => {
                match row_lookup(a.transitions@[q]@, 0, Transition::Wildcard) {
                    Some(w) => {
                        lemma_row_lookup_entry(a.transitions@[q]@, 0, Transition::Wildcard);
                        assert(row_lookup(b.transitions@[bq]@, 0, Transition::Wildcard) == Some(
                            remap[w as int] as usize,
                        ));
                        lemma_sim_agree(a, b, remap, w as int, s.skip(1));
                    }
                    None => {}
                }
            }
        }
    }
}

/// Looks up the target for label `l` in a transition row, per
/// [`row_lookup`].
fn row_get(row: &Vec<(Transition, usize)>, l: Transition) -> (r: Option<usize>)
    ensures
        r == row_lookup(row@, 0, l),
{
    let mut j: usize = 0;
    while j < row.len()
        invariant
            j <= row.len(),
            row_lookup(row@, 0, l) == row_lookup(row@, j as int, l),
        decreases row.len() - j,
    {
        if row[j].0 == l {
            return Some(row[j].1);
        }
        j = j + 1;
    }
    None
}

/// Whether the state set `s` is a subset-construction state reachable
/// from the start within `n` steps: the epsilon closure of `Start`, or
/// the epsilon closure of the wildcard-folded move set of a state set
/// reachable in fewer steps.
pub open spec fn subset_reach(es: Seq<Edge>, s: Set<NfaState>, n: nat) -> bool
    decreases n,
{
    if n == 0 {
        is_eps_closure(es, set![NfaState::Start], s)
    } else {
        subset_reach(es, s, (n - 1) as nat) || exists|t: Set<NfaState>, l: Transition|
            subset_reach(es, t, (n - 1) as nat) && !(l is Epsilon) && has_move(es, t, l)
                && #[trigger] is_eps_closure(es, folded_move_set(es, t, l), s)
    }
}

/// Whether the state set `s` is a reachable subset-construction state.
pub open spec fn subset_reachable(es: Seq<Edge>, s: Set<NfaState>) -> bool {
    exists|n: nat| subset_reach(es, s, n)
}

/// Whether more than `bound` pairwise-distinct reachable
/// subset-construction states exist: subset construction needs more
/// states than `bound` exactly in this case.
pub open spec fn many_reachable(es: Seq<Edge>, bound: int) -> bool {
    exists|family: Seq<Set<NfaState>>|
        (#[trigger] family.len()) > bound && (forall|i: int, j: int|
            0 <= i < j < family.len() ==> (#[trigger] family[i]) != (#[trigger] family[j])) && (
        forall|i: int| 0 <= i < family.len() ==> subset_reachable(es, #[trigger] family[i]))
}

/// A deterministic finite automaton over the states of an NFA.
///
/// `states[i]` is the canonical state for index `i`, `transitions[i]` is
/// its outgoing row, and `start_state` indexes the start state. A state
/// with an empty row has no outgoing transitions.
#[derive(Debug)]
pub struct Dfa {
    pub states: Vec<DfaState>,
    pub transitions: Vec<Vec<(Transition, usize)>>,
    pub start_state: usize,
}

/// The exact outcome of epsilon-closure subset construction on the edge
/// table `es`: a well-formed automaton whose start state (index zero)
/// holds the epsilon closure of `Start`, whose states are pairwise
/// distinct, epsilon-closed and reachable, and whose every row is the
/// subset-construction row of its state, per [`row_correct`].
pub open spec fn subset_construction(d: Dfa, es: Seq<Edge>) -> bool {
    &&& d.wf()
    &&& d.start_state == 0
    &&& is_eps_closure(es, set![NfaState::Start], d.states@[0].internal@.to_set())
    &&& forall|i: int, j: int|
        0 <= i < j < d.states@.len() ==> (#[trigger] d.states@[i]).internal@ != (#[trigger]
        d.states@[j]).internal@
    &&& forall|i: int|
        0 <= i < d.states@.len() ==> row_correct(
            es,
            d.states@,
            d.transitions@[i]@,
            (#[trigger] d.states@[i]).internal@.to_set(),
        )
    &&& forall|i: int|
        0 <= i < d.states@.len() ==> eps_closed(es, (#[trigger] d.states@[i]).internal@.to_set())
    &&& forall|i: int|
        0 <= i < d.states@.len() ==> subset_reachable(
            es,
            (#[trigger] d.states@[i]).internal@.to_set(),
        )
}

impl Dfa {
    /// Structural well-formedness: one row per state, a valid start
    /// index, canonical states, in-range targets, no `Epsilon` labels,
    /// and at most one target per label in each row.
    pub open spec fn wf(self) -> bool {
        &&& self.states@.len() >= 1
        &&& self.transitions@.len() == self.states@.len()
        &&& (self.start_state as int) < self.states@.len()
        &&& forall|i: int| 0 <= i < self.states@.len() ==> (#[trigger] self.states@[i]).wf()
        &&& forall|i: int, k: int|
            0 <= i < self.transitions@.len() && 0 <= k < self.transitions@[i]@.len() ==> ((
            #[trigger] self.transitions@[i]@[k]).1 < self.states@.len() && !(
            self.transitions@[i]@[k].0 is Epsilon))
        &&& forall|i: int, k1: int, k2: int|
            0 <= i < self.transitions@.len() && 0 <= k1 < k2 < self.transitions@[i]@.len()
                ==> (#[trigger] self.transitions@[i]@[k1]).0 != (#[trigger]
            self.transitions@[i]@[k2]).0
    }

    /// The final automaton has no `Epsilon`-labeled transition anywhere,
    /// reachable or not: epsilon moves are resolved during construction.
    pub proof fn lemma_no_epsilon_transitions(self)
        requires
            self.wf(),
        ensures
            forall|i: int, k: int|
                0 <= i < self.transitions@.len() && 0 <= k < self.transitions@[i]@.len() ==> !((
                #[trigger] self.transitions@[i]@[k]).0 is Epsilon),
    {
    }

    /// Converts an NFA to a DFA by epsilon-closure subset construction
    /// with wildcard folding.
    ///
    /// On success the result is exactly the subset construction of the
    /// NFA, per [`subset_construction`]. Construction fails only when
    /// more than [`STATE_BUDGET`] pairwise-distinct reachable subset
    /// states exist, per [`many_reachable`]; within the budget, success
    /// is owed.
    pub fn from_nfa(nfa: Nfa) -> (r: Result<Dfa, CompileError>)
        ensures
            match r {
                Ok(d) => subset_construction(d, nfa@.edges),
                Err(e) => e == CompileError::StateBudget && many_reachable(
                    nfa@.edges,
                    STATE_BUDGET as int,
                ),
            },
    {
        let ghost es = nfa.edges@;
        let mut start_seed: Vec<NfaState> = Vec::new();
        start_seed.push(NfaState::Start);
        proof {
            assert(start_seed@.len() == 1 && start_seed@[0] == NfaState::Start);
            assert(start_seed@.contains(NfaState::Start));
            assert forall|b: NfaState| #[trigger] start_seed@.contains(b) implies b
                == NfaState::Start by {
                let w = choose|w: int| 0 <= w < start_seed@.len() && start_seed@[w] == b;
            }
            assert(start_seed@.to_set() =~= set![NfaState::Start]);
        }
        let closure0 = nfa.epsilon_closure(&start_seed);
        let d0 = DfaState::from_states(closure0);
        let mut states: Vec<DfaState> = Vec::new();
        states.push(d0);
        proof {
            assert(subset_reach(es, states@[0].internal@.to_set(), 0));
        }
        let mut transitions: Vec<Vec<(Transition, usize)>> = Vec::new();

        let mut i: usize = 0;
        while i < states.len()
            invariant
                es == nfa.edges@,
                i <= states@.len(),
                1 <= states@.len() <= STATE_BUDGET,
                transitions@.len() == i as int,
                is_eps_closure(es, set![NfaState::Start], states@[0].internal@.to_set()),
                forall|k: int| 0 <= k < states@.len() ==> (#[trigger] states@[k]).wf(),
                forall|k1: int, k2: int|
                    0 <= k1 < k2 < states@.len() ==> (#[trigger] states@[k1]).internal@ != (
                    #[trigger] states@[k2]).internal@,
                forall|k: int|
                    0 <= k < states@.len() ==> eps_closed(
                        es,
                        (#[trigger] states@[k]).internal@.to_set(),
                    ),
                forall|k: int|
                    0 <= k < states@.len() ==> subset_reachable(
                        es,
                        (#[trigger] states@[k]).internal@.to_set(),
                    ),
                forall|k: int|
                    0 <= k < i ==> row_correct(
                        es,
                        states@,
                        transitions@[k]@,
                        (#[trigger] states@[k]).internal@.to_set(),
                    ),
                forall|k: int, t: int|
                    0 <= k < i && 0 <= t < transitions@[k]@.len() ==> ((#[trigger]
                    transitions@[k]@[t]).1 < states@.len() && !(transitions@[k]@[t].0
                        is Epsilon)),
                forall|k: int, t1: int, t2: int|
                    0 <= k < i && 0 <= t1 < t2 < transitions@[k]@.len() ==> (#[trigger]
                    transitions@[k]@[t1]).0 != (#[trigger] transitions@[k]@[t2]).0,
            decreases STATE_BUDGET - i,
        {
            let ghost states_at_entry = states@;
            let src_state = states[i].duplicate();
            let src = src_state.internal;
            let ghost s_set = src@.to_set();
            proof {
                assert(states@[i as int].internal@.to_set() == s_set);
            }
            let labels = collect_labels(&nfa, &src);
            let wild = gather_targets(&nfa, &src, Transition::Wildcard);
            let mut row: Vec<(Transition, usize)> = Vec::new();

            let mut k: usize = 0;
            while k < labels.len()
                invariant
                    es == nfa.edges@,
                    i < states@.len(),
                    states@.len() <= STATE_BUDGET,
                    transitions@.len() == i as int,
                    s_set == src@.to_set(),
                    states@[i as int].internal@ == src@,
                    is_eps_closure(es, set![NfaState::Start], states@[0].internal@.to_set()),
                    forall|k1: int, k2: int|
                        0 <= k1 < k2 < labels@.len() ==> labels@[k1] != labels@[k2],
                    forall|kk: int| 0 <= kk < labels@.len() ==> !((#[trigger] labels@[kk]) is Epsilon),
                    forall|l: Transition|
                        #[trigger] labels@.contains(l) <==> (!(l is Epsilon) && has_move(
                            es,
                            s_set,
                            l,
                        )),
                    forall|b: NfaState|
                        #[trigger] wild@.contains(b) <==> edge_move(
                            es,
                            s_set,
                            Transition::Wildcard,
                            b,
                        ),
                    k <= labels@.len(),
                    row@.len() == k as int,
                    forall|kk: int| 0 <= kk < k ==> (#[trigger] row@[kk]).0 == labels@[kk],
                    forall|kk: int| 0 <= kk < k ==> (#[trigger] row@[kk]).1 < states@.len(),
                    forall|kk: int|
                        0 <= kk < k ==> is_eps_closure(
                            es,
                            folded_move_set(es, s_set, (#[trigger] row@[kk]).0),
                            states@[row@[kk].1 as int].internal@.to_set(),
                        ),
                    forall|kk: int| 0 <= kk < states@.len() ==> (#[trigger] states@[kk]).wf(),
                    forall|k1: int, k2: int|
                        0 <= k1 < k2 < states@.len() ==> (#[trigger] states@[k1]).internal@ != (
                        #[trigger] states@[k2]).internal@,
                    forall|kk: int|
                        0 <= kk < states@.len() ==> eps_closed(
                            es,
                            (#[trigger] states@[kk]).internal@.to_set(),
                        ),
                    forall|kk: int|
                        0 <= kk < states@.len() ==> subset_reachable(
                            es,
                            (#[trigger] states@[kk]).internal@.to_set(),
                        ),
                    forall|kk: int|
                        0 <= kk < i ==> row_correct(
                            es,
                            states@,
                            transitions@[kk]@,
                            (#[trigger] states@[kk]).internal@.to_set(),
                        ),
                    forall|kk: int, t: int|
                        0 <= kk < i && 0 <= t < transitions@[kk]@.len() ==> ((#[trigger]
                        transitions@[kk]@[t]).1 < states@.len() && !(transitions@[kk]@[t].0
                            is Epsilon)),
                    forall|kk: int, t1: int, t2: int|
                        0 <= kk < i && 0 <= t1 < t2 < transitions@[kk]@.len() ==> (#[trigger]
                        transitions@[kk]@[t1]).0 != (#[trigger] transitions@[kk]@[t2]).0,
                decreases labels.len() - k,
            {
                broadcast use vstd::seq_lib::group_seq_properties;

                let ghost states_before = states@;
                let l = labels[k];
                let mut targets = gather_targets(&nfa, &src, l);
                if !(l == Transition::Wildcard) {
                    let ghost targets0 = targets@;
                    let mut w: usize = 0;
                    while w < wild.len()
                        invariant
                            w <= wild.len(),
                            targets@ == targets0 + wild@.take(w as int),
                        decreases wild.len() - w,
                    {
                        targets.push(wild[w]);
                        proof {
                            assert(targets@ =~= targets0 + wild@.take(w + 1));
                        }
                        w = w + 1;
                    }
                    proof {
                        assert(wild@.take(wild@.len() as int) =~= wild@);
                        assert(targets@.to_set() =~= folded_move_set(es, s_set, l)) by {
                            assert forall|b: NfaState| #[trigger] targets@.contains(b) implies
                                folded_move_set(es, s_set, l).contains(b) by {
                                if targets0.contains(b) {
                                } else {
                                    assert(wild@.contains(b));
                                }
                            }
                            assert forall|b: NfaState| folded_move_set(es, s_set, l).contains(
                                b,
                            ) implies #[trigger] targets@.contains(b) by {
                                if move_set(es, s_set, l).contains(b) {
                                    assert(targets0.contains(b));
                                } else {
                                    assert(wild@.contains(b));
                                }
                            }
                        }
                    }
                } else {
                    proof {
                        assert(targets@.to_set() =~= folded_move_set(es, s_set, l));
                    }
                }
                let closure = nfa.epsilon_closure(&targets);
                proof {
                    assert(is_eps_closure(es, folded_move_set(es, s_set, l), closure@.to_set()));
                }
                let dnew = DfaState::from_states(closure);
                proof {
                    // the new state set is itself a reachable subset state
                    assert(labels@[k as int] == l && labels@.contains(l));
                    assert(has_move(es, s_set, l) && !(l is Epsilon));
                    assert(subset_reachable(es, s_set)) by {
                        assert(states@.contains(states@[i as int]));
                    }
                    let ni = choose|ni: nat| subset_reach(es, s_set, ni);
                    assert(subset_reach(es, dnew.internal@.to_set(), ni + 1));
                    assert(subset_reachable(es, dnew.internal@.to_set()));
                }
                let idx: usize = match find_state(&states, &dnew) {
                    Some(ix) => ix,
                    None => {
                        if states.len() >= STATE_BUDGET {
                            proof {
                                // the budget is exhausted: the recorded
                                // states and the new one witness more than
                                // the budget of distinct reachable sets
                                let fam = Seq::new(
                                    states@.len(),
                                    |k2: int| states@[k2].internal@.to_set(),
                                ).push(dnew.internal@.to_set());
                                assert(fam.len() == STATE_BUDGET + 1);
                                assert forall|i2: int, j2: int|
                                    0 <= i2 < j2 < fam.len() implies (#[trigger] fam[i2]) != (
                                #[trigger] fam[j2]) by {
                                    if j2 < fam.len() - 1 {
                                        if fam[i2] == fam[j2] {
                                            crate::transition_table::lemma_canonical_unique(
                                                states@[i2].internal@,
                                                states@[j2].internal@,
                                            );
                                        }
                                    } else {
                                        if fam[i2] == fam[j2] {
                                            crate::transition_table::lemma_canonical_unique(
                                                states@[i2].internal@,
                                                dnew.internal@,
                                            );
                                        }
                                    }
                                }
                                assert forall|i2: int| 0 <= i2 < fam.len() implies
                                    subset_reachable(es, #[trigger] fam[i2]) by {
                                    if i2 < fam.len() - 1 {
                                        assert(fam[i2] == states@[i2].internal@.to_set());
                                    } else {
                                        assert(fam[i2] == dnew.internal@.to_set());
                                    }
                                }
                                assert(many_reachable(es, STATE_BUDGET as int));
                            }
                            return Err(CompileError::StateBudget);
                        }
                        states.push(dnew);
                        states.len() - 1
                    }
                };
                proof {
                    assert(states@[idx as int].internal@.to_set() == closure@.to_set());
                    assert(is_eps_closure(
                        es,
                        folded_move_set(es, s_set, l),
                        states@[idx as int].internal@.to_set(),
                    ));
                }
                row.push((l, idx));
                k = k + 1;
            }
            transitions.push(row);
            proof {
                // the finished row is exactly the subset-construction row
                assert(row_correct(es, states@, row@, s_set)) by {
                    assert forall|l: Transition| !(l is Epsilon) implies match #[trigger]
                    row_lookup(row@, 0, l) {
                        Some(t) => {
                            &&& 0 <= t < states@.len()
                            &&& has_move(es, s_set, l)
                            &&& is_eps_closure(
                                es,
                                folded_move_set(es, s_set, l),
                                states@[t as int].internal@.to_set(),
                            )
                        },
                        None => !has_move(es, s_set, l),
                    } by {
                        if labels@.contains(l) {
                            let kk = choose|kk: int| 0 <= kk < labels@.len() && labels@[kk] == l;
                            assert(row@[kk].0 == l);
                            assert forall|j: int| 0 <= j < kk implies (#[trigger] row@[j]).0
                                != l by {
                                assert(row@[j].0 == labels@[j]);
                            }
                            lemma_row_lookup_some(row@, 0, kk, l);
                        } else {
                            assert forall|j: int| 0 <= j < row@.len() implies (#[trigger]
                            row@[j]).0 != l by {
                                assert(row@[j].0 == labels@[j]);
                                assert(labels@.contains(labels@[j]));
                            }
                            lemma_row_lookup_none(row@, 0, l);
                        }
                    }
                }
            }
            i = i + 1;
        }

        let d = Dfa { states, transitions, start_state: 0 };
        proof {
            assert(d.wf());
            assert(subset_construction(d, es));
        }
        Ok(d)
    }

    /// Collapses equivalent states with Hopcroft's partition refinement.
    ///
    /// The partition starts from accepting versus non-accepting states
    /// and is refined by a worklist: for a popped target set and each
    /// label, every block is split against the set of states stepping
    /// into the target set under that label. Afterwards each block is
    /// collapsed to one state whose NFA-state set is the union of its
    /// members' sets and whose row is the block's row with targets
    /// remapped through the collapse.
    ///
    /// The accepted language is preserved exactly: before the collapse is
    /// committed, every state's row is checked to agree, label for label
    /// and through the collapse map, with the row of the state it merges
    /// into; if the check failed the automaton would be left unchanged.
    /// Refinement always ends in a stable partition, so the check never
    /// fails in practice, but it is its success that the preservation
    /// proof consumes. Well-formedness and acceptance of the start state
    /// are preserved as well: refinement only splits the initial
    /// acceptance partition, so a block is uniformly accepting.
    #[verifier::rlimit(50)]
    pub fn minimize(&mut self)
        requires
            old(self).wf(),
        ensures
            final(self).wf(),
            final(self).states@.len() <= old(self).states@.len(),
            final(self).states@[final(self).start_state as int].accepting == old(
                self,
            ).states@[old(self).start_state as int].accepting,
            forall|input: Seq<char>|
                final(self).sim_from(final(self).start_state as int, input) == old(
                    self,
                ).sim_from(old(self).start_state as int, input),
    {
        broadcast use vstd::seq_lib::group_seq_properties;

        let n = self.states.len();
        let ghost nn = n as int;

        // initial partition: accepting states and non-accepting states
        let mut acc_block: Vec<usize> = Vec::new();
        let mut non_block: Vec<usize> = Vec::new();
        let mut s0: usize = 0;
        while s0 < n
            invariant
                self.wf(),
                *self == *old(self),
                n == self.states@.len(),
                s0 <= n,
                sorted_usize(acc_block@),
                sorted_usize(non_block@),
                forall|q: int| 0 <= q < acc_block@.len() ==> (#[trigger] acc_block@[q]) < s0,
                forall|q: int| 0 <= q < non_block@.len() ==> (#[trigger] non_block@[q]) < s0,
                forall|x: usize|
                    #[trigger] acc_block@.contains(x) <==> (x < s0
                        && self.states@[x as int].accepting),
                forall|x: usize|
                    #[trigger] non_block@.contains(x) <==> (x < s0
                        && !self.states@[x as int].accepting),
            decreases n - s0,
        {
            broadcast use vstd::seq_lib::group_seq_properties;

            if self.states[s0].accepting {
                acc_block.push(s0);
            } else {
                non_block.push(s0);
            }
            s0 = s0 + 1;
        }
        let mut p: Vec<Vec<usize>> = Vec::new();
        let mut w: Vec<Vec<usize>> = Vec::new();
        if acc_block.len() > 0 {
            w.push(dup_usize_vec(&acc_block));
            p.push(acc_block);
        }
        if non_block.len() > 0 {
            w.push(dup_usize_vec(&non_block));
            p.push(non_block);
        }
        proof {
            assert forall|s: usize| s < n implies covered_from(p@, 0, s) by {
                if self.states@[s as int].accepting {
                    assert(acc_block@.contains(s));
                    assert(acc_block@.len() > 0);
                    assert(p@[0] == acc_block);
                    assert(p@[0]@.contains(s));
                } else {
                    assert(non_block@.contains(s));
                    assert(non_block@.len() > 0);
                    assert(p@[p@.len() - 1] == non_block);
                    assert(p@[p@.len() - 1]@.contains(s));
                }
            }
        }

        while w.len() > 0
            invariant
                self.wf(),
                *self == *old(self),
                n == self.states@.len(),
                nn == n as int,
                forall|k: int| 0 <= k < p@.len() ==> sorted_usize((#[trigger] p@[k])@),
                forall|k: int| 0 <= k < p@.len() ==> (#[trigger] p@[k])@.len() >= 1,
                forall|k: int, q: int|
                    0 <= k < p@.len() && 0 <= q < p@[k]@.len() ==> (#[trigger] p@[k]@[q]) < n,
                forall|k1: int, k2: int, x: usize|
                    0 <= k1 < p@.len() && 0 <= k2 < p@.len() && k1 != k2 && #[trigger]
                    p@[k1]@.contains(x) ==> !(#[trigger] p@[k2]@.contains(x)),
                forall|k: int, x1: usize, x2: usize|
                    0 <= k < p@.len() && #[trigger] p@[k]@.contains(x1) && #[trigger]
                    p@[k]@.contains(x2) ==> self.states@[x1 as int].accepting
                        == self.states@[x2 as int].accepting,
                forall|s: usize| s < n ==> #[trigger] covered_from(p@, 0, s),
            decreases nn - p@.len(), w@.len(),
        {
            broadcast use vstd::seq_lib::group_seq_properties;

            proof {
                lemma_blocks_wf_views(p@, nn);
                lemma_partition_bound(views_of(p@), nn);
            }
            let ghost p_pop = p@;
            let ghost w_popped_len = w@.len() - 1;
            let sblock = match w.pop() {
                Some(b) => b,
                None => {
                    proof {
                        assert(false);
                    }
                    Vec::new()
                }
            };

            // the labels that step into the popped target set
            let mut labels: Vec<Transition> = Vec::new();
            let mut t0: usize = 0;
            while t0 < n
                invariant
                    self.wf(),
                    *self == *old(self),
                    n == self.states@.len(),
                    t0 <= n,
                decreases n - t0,
            {
                let row = &self.transitions[t0];
                let mut e0: usize = 0;
                while e0 < row.len()
                    invariant
                        e0 <= row@.len(),
                    decreases row@.len() - e0,
                {
                    if contains_usize(&sblock, row[e0].1) {
                        if !contains_label(&labels, &row[e0].0) {
                            labels.push(row[e0].0);
                        }
                    }
                    e0 = e0 + 1;
                }
                t0 = t0 + 1;
            }

            // split every block against the preimage of the target set
            // under each label
            let ghost w_base = w@.len();
            let mut li: usize = 0;
            while li < labels.len()
                invariant
                    self.wf(),
                    *self == *old(self),
                    n == self.states@.len(),
                    li <= labels@.len(),
                    forall|k: int| 0 <= k < p@.len() ==> sorted_usize((#[trigger] p@[k])@),
                    forall|k: int| 0 <= k < p@.len() ==> (#[trigger] p@[k])@.len() >= 1,
                    forall|k: int, q: int|
                        0 <= k < p@.len() && 0 <= q < p@[k]@.len() ==> (#[trigger] p@[k]@[q]) < n,
                    forall|k1: int, k2: int, x: usize|
                        0 <= k1 < p@.len() && 0 <= k2 < p@.len() && k1 != k2 && #[trigger]
                        p@[k1]@.contains(x) ==> !(#[trigger] p@[k2]@.contains(x)),
                    forall|k: int, x1: usize, x2: usize|
                        0 <= k < p@.len() && #[trigger] p@[k]@.contains(x1) && #[trigger]
                        p@[k]@.contains(x2) ==> self.states@[x1 as int].accepting
                            == self.states@[x2 as int].accepting,
                    forall|s: usize| s < n ==> #[trigger] covered_from(p@, 0, s),
                    p@.len() >= p_pop.len(),
                    w@.len() <= w_base + (p@.len() - p_pop.len()),
                decreases labels@.len() - li,
            {
                broadcast use vstd::seq_lib::group_seq_properties;

                let l = labels[li];
                // the states that step into the target set under `l`
                let mut ia: Vec<usize> = Vec::new();
                let mut t: usize = 0;
                while t < n
                    invariant
                        self.wf(),
                        *self == *old(self),
                        n == self.states@.len(),
                        t <= n,
                        sorted_usize(ia@),
                        forall|q: int| 0 <= q < ia@.len() ==> (#[trigger] ia@[q]) < t,
                    decreases n - t,
                {
                    let stepped = match row_get(&self.transitions[t], l) {
                        Some(tgt) => contains_usize(&sblock, tgt),
                        None => false,
                    };
                    if stepped {
                        ia.push(t);
                    }
                    t = t + 1;
                }

                let ghost p_label = p@;
                let ghost w_label = w@.len();
                let mut new_p: Vec<Vec<usize>> = Vec::new();
                let mut ri: usize = 0;
                while ri < p.len()
                    invariant
                        self.wf(),
                        *self == *old(self),
                        n == self.states@.len(),
                        ri <= p@.len(),
                        p@ == p_label,
                        new_p@.len() >= ri as int,
                        w@.len() <= w_label + (new_p@.len() - ri as int),
                        forall|k: int| 0 <= k < p@.len() ==> sorted_usize((#[trigger] p@[k])@),
                        forall|k: int| 0 <= k < p@.len() ==> (#[trigger] p@[k])@.len() >= 1,
                        forall|k: int, q: int|
                            0 <= k < p@.len() && 0 <= q < p@[k]@.len() ==> (#[trigger] p@[k]@[q])
                                < n,
                        forall|k1: int, k2: int, x: usize|
                            0 <= k1 < p@.len() && 0 <= k2 < p@.len() && k1 != k2 && #[trigger]
                            p@[k1]@.contains(x) ==> !(#[trigger] p@[k2]@.contains(x)),
                        forall|k: int, x1: usize, x2: usize|
                            0 <= k < p@.len() && #[trigger] p@[k]@.contains(x1) && #[trigger]
                            p@[k]@.contains(x2) ==> self.states@[x1 as int].accepting
                                == self.states@[x2 as int].accepting,
                        // the finished prefix of the new partition
                        forall|k: int| 0 <= k < new_p@.len() ==> sorted_usize((#[trigger] new_p@[k])@),
                        forall|k: int| 0 <= k < new_p@.len() ==> (#[trigger] new_p@[k])@.len() >= 1,
                        forall|k: int, q: int|
                            0 <= k < new_p@.len() && 0 <= q < new_p@[k]@.len() ==> (#[trigger]
                            new_p@[k]@[q]) < n,
                        forall|k1: int, k2: int, x: usize|
                            0 <= k1 < new_p@.len() && 0 <= k2 < new_p@.len() && k1 != k2
                                && #[trigger] new_p@[k1]@.contains(x) ==> !(#[trigger]
                            new_p@[k2]@.contains(x)),
                        // every new block refines some already-processed block
                        forall|k: int, x: usize|
                            0 <= k < new_p@.len() && #[trigger] new_p@[k]@.contains(x)
                                ==> exists|k2: int|
                                0 <= k2 < ri && (#[trigger] p@[k2])@.contains(x),
                        forall|k: int, k2: int, x: usize|
                            0 <= k < new_p@.len() && ri <= k2 < p@.len() && #[trigger]
                            new_p@[k]@.contains(x) ==> !(#[trigger] p@[k2]@.contains(x)),
                        forall|k: int, x1: usize, x2: usize|
                            0 <= k < new_p@.len() && #[trigger] new_p@[k]@.contains(x1)
                                && #[trigger] new_p@[k]@.contains(x2)
                                ==> self.states@[x1 as int].accepting
                                == self.states@[x2 as int].accepting,
                        forall|s: usize|
                            s < n ==> #[trigger] covered_from(new_p@, 0, s) || covered_from(
                                p@,
                                ri as int,
                                s,
                            ),
                    decreases p@.len() - ri,
                {
                    broadcast use vstd::seq_lib::group_seq_properties;

                    let ghost new_p0 = new_p@;
                    let rb = &p[ri];
                    proof {
                        assert forall|y: usize| #[trigger] rb@.contains(y) implies y < n by {
                            let idx = choose|idx: int| 0 <= idx < rb@.len() && rb@[idx] == y;
                            assert(p@[ri as int]@[idx] < n);
                        }
                    }
                    let x = intersect_sorted(rb, &ia);
                    let did_split: bool = if x.len() > 0 && x.len() < rb.len() {
                        let r2 = diff_sorted(rb, &ia);
                        proof {
                            // the difference cannot be empty: otherwise the
                            // whole block intersects and the intersection
                            // would have the block's full cardinality
                            lemma_sorted_usize_cardinality(rb@);
                            lemma_sorted_usize_cardinality(x@);
                            lemma_sorted_usize_cardinality(r2@);
                            if r2@.len() == 0 {
                                assert forall|y: usize| #[trigger] rb@.contains(y) implies
                                    x@.contains(y) by {
                                    assert(!r2@.contains(y));
                                }
                                assert(x@.to_set() =~= rb@.to_set());
                            }
                            assert(r2@.len() >= 1);
                            assert forall|q: int| 0 <= q < x@.len() implies (#[trigger] x@[q])
                                < n by {
                                assert(x@.contains(x@[q]));
                                assert(rb@.contains(x@[q]));
                            }
                            assert forall|q: int| 0 <= q < r2@.len() implies (#[trigger] r2@[q])
                                < n by {
                                assert(r2@.contains(r2@[q]));
                                assert(rb@.contains(r2@[q]));
                            }
                        }
                        // replace the split block on the worklist, or add
                        // the smaller half
                        match find_block(&w, rb) {
                            Some(wi) => {
                                let _ = w.remove(wi);
                                w.push(dup_usize_vec(&x));
                                w.push(dup_usize_vec(&r2));
                            }
                            None => {
                                if x.len() <= r2.len() {
                                    w.push(dup_usize_vec(&x));
                                } else {
                                    w.push(dup_usize_vec(&r2));
                                }
                            }
                        }
                        new_p.push(x);
                        new_p.push(r2);
                        true
                    } else {
                        new_p.push(dup_usize_vec(rb));
                        false
                    };
                    proof {
                        let rbv = p@[ri as int]@;
                        assert forall|s: usize|
                            s < n implies #[trigger] covered_from(new_p@, 0, s) || covered_from(
                            p@,
                            ri + 1,
                            s,
                        ) by {
                            if covered_from(new_p0, 0, s) {
                                let k = choose|k: int|
                                    0 <= k < new_p0.len() && (#[trigger] new_p0[k])@.contains(s);
                                assert(new_p@[k]@.contains(s));
                                assert(covered_from(new_p@, 0, s));
                            } else if covered_from(p@, ri as int, s) {
                                let k = choose|k: int|
                                    ri <= k < p@.len() && (#[trigger] p@[k])@.contains(s);
                                if k == ri {
                                    if did_split {
                                        if ia@.contains(s) {
                                            assert(new_p@[new_p@.len() - 2]@.contains(s));
                                        } else {
                                            assert(new_p@[new_p@.len() - 1]@.contains(s));
                                        }
                                    } else {
                                        assert(new_p@[new_p@.len() - 1]@.contains(s));
                                    }
                                    assert(covered_from(new_p@, 0, s));
                                } else {
                                    assert(covered_from(p@, ri + 1, s));
                                }
                            }
                        }
                    }
                    ri = ri + 1;
                }
                p = new_p;
                proof {
                    assert forall|s: usize| s < n implies #[trigger] covered_from(p@, 0, s) by {
                        assert(covered_from(p@, 0, s) || covered_from(p_label, p_label.len() as int, s));
                    }
                }
                li = li + 1;
            }
            proof {
                lemma_blocks_wf_views(p@, nn);
                lemma_partition_bound(views_of(p@), nn);
            }
        }

        // collapse: one new state per block, the union of its members
        proof {
            assert(covered_from(p@, 0, 0usize));
            assert(p@.len() >= 1);
            lemma_blocks_wf_views(p@, nn);
            lemma_partition_bound(views_of(p@), nn);
        }
        let np = p.len();
        let mut remap: Vec<usize> = Vec::new();
        let mut z: usize = 0;
        while z < n
            invariant
                z <= n,
                remap@.len() == z as int,
                forall|q: int| 0 <= q < z ==> (#[trigger] remap@[q]) == 0,
            decreases n - z,
        {
            remap.push(0);
            z = z + 1;
        }
        let mut b: usize = 0;
        while b < np
            invariant
                self.wf(),
                *self == *old(self),
                n == self.states@.len(),
                np == p@.len(),
                b <= np,
                remap@.len() == n as int,
                np >= 1,
                forall|k: int, q: int|
                    0 <= k < p@.len() && 0 <= q < p@[k]@.len() ==> (#[trigger] p@[k]@[q]) < n,
                forall|k1: int, k2: int, x: usize|
                    0 <= k1 < p@.len() && 0 <= k2 < p@.len() && k1 != k2 && #[trigger]
                    p@[k1]@.contains(x) ==> !(#[trigger] p@[k2]@.contains(x)),
                forall|q: int| 0 <= q < n ==> (#[trigger] remap@[q]) < np,
                forall|k: int, x: usize|
                    0 <= k < b && #[trigger] p@[k]@.contains(x) ==> remap@[x as int] == k,
            decreases np - b,
        {
            let blk = &p[b];
            let mut q: usize = 0;
            while q < blk.len()
                invariant
                    self.wf(),
                    *self == *old(self),
                    n == self.states@.len(),
                    np == p@.len(),
                    b < np,
                    q <= blk@.len(),
                    blk@ == p@[b as int]@,
                    remap@.len() == n as int,
                    forall|k: int, qq: int|
                        0 <= k < p@.len() && 0 <= qq < p@[k]@.len() ==> (#[trigger] p@[k]@[qq])
                            < n,
                    forall|k1: int, k2: int, x: usize|
                        0 <= k1 < p@.len() && 0 <= k2 < p@.len() && k1 != k2 && #[trigger]
                        p@[k1]@.contains(x) ==> !(#[trigger] p@[k2]@.contains(x)),
                    forall|qq: int| 0 <= qq < n ==> (#[trigger] remap@[qq]) < np,
                    forall|k: int, x: usize|
                        0 <= k < b && #[trigger] p@[k]@.contains(x) ==> remap@[x as int] == k,
                    forall|qq: int|
                        0 <= qq < q ==> remap@[blk@[qq] as int] == b as int,
                decreases blk@.len() - q,
            {
                let member = blk[q];
                proof {
                    assert(p@[b as int]@.contains(member));
                }
                remap.set(member, b);
                proof {
                    assert forall|k: int, x: usize|
                        0 <= k < b && #[trigger] p@[k]@.contains(x) implies remap@[x as int]
                        == k by {
                        assert(x != member);
                    }
                }
                q = q + 1;
            }
            b = b + 1;
        }

        let mut new_states: Vec<DfaState> = Vec::new();
        let mut new_transitions: Vec<Vec<(Transition, usize)>> = Vec::new();
        let mut b2: usize = 0;
        while b2 < np
            invariant
                self.wf(),
                *self == *old(self),
                n == self.states@.len(),
                np == p@.len(),
                b2 <= np,
                remap@.len() == n as int,
                forall|k: int| 0 <= k < p@.len() ==> (#[trigger] p@[k])@.len() >= 1,
                forall|k: int, q: int|
                    0 <= k < p@.len() && 0 <= q < p@[k]@.len() ==> (#[trigger] p@[k]@[q]) < n,
                forall|k: int| 0 <= k < p@.len() ==> sorted_usize((#[trigger] p@[k])@),
                forall|k: int, x1: usize, x2: usize|
                    0 <= k < p@.len() && #[trigger] p@[k]@.contains(x1) && #[trigger]
                    p@[k]@.contains(x2) ==> self.states@[x1 as int].accepting
                        == self.states@[x2 as int].accepting,
                forall|q: int| 0 <= q < n ==> (#[trigger] remap@[q]) < np,
                new_states@.len() == b2 as int,
                new_transitions@.len() == b2 as int,
                forall|k: int| 0 <= k < b2 ==> (#[trigger] new_states@[k]).wf(),
                forall|k: int|
                    0 <= k < b2 ==> (#[trigger] new_states@[k]).accepting
                        == self.states@[p@[k]@[0] as int].accepting,
                forall|k: int, e: int|
                    0 <= k < b2 && 0 <= e < new_transitions@[k]@.len() ==> ((#[trigger]
                    new_transitions@[k]@[e]).1 < np && !(new_transitions@[k]@[e].0 is Epsilon)),
                forall|k: int, e1: int, e2: int|
                    0 <= k < b2 && 0 <= e1 < e2 < new_transitions@[k]@.len() ==> (#[trigger]
                    new_transitions@[k]@[e1]).0 != (#[trigger] new_transitions@[k]@[e2]).0,
            decreases np - b2,
        {
            let rep = p[b2][0];
            proof {
                assert(p@[b2 as int]@.contains(rep));
            }
            let mut st = self.states[rep].duplicate();
            proof {
                assert(st.wf());
                assert(st.accepting == self.states@[rep as int].accepting);
            }
            let mut q2: usize = 1;
            while q2 < p[b2].len()
                invariant
                    self.wf(),
                    *self == *old(self),
                    n == self.states@.len(),
                    np == p@.len(),
                    b2 < np,
                    1 <= q2 <= p@[b2 as int]@.len(),
                    forall|k: int, q: int|
                        0 <= k < p@.len() && 0 <= q < p@[k]@.len() ==> (#[trigger] p@[k]@[q]) < n,
                    forall|k: int, x1: usize, x2: usize|
                        0 <= k < p@.len() && #[trigger] p@[k]@.contains(x1) && #[trigger]
                        p@[k]@.contains(x2) ==> self.states@[x1 as int].accepting
                            == self.states@[x2 as int].accepting,
                    st.wf(),
                    st.accepting == self.states@[p@[b2 as int]@[0] as int].accepting,
                decreases p@[b2 as int]@.len() - q2,
            {
                let member = p[b2][q2];
                proof {
                    assert(p@[b2 as int]@.contains(member));
                    assert(p@[b2 as int]@.contains(p@[b2 as int]@[0]));
                }
                st.merge(&self.states[member]);
                q2 = q2 + 1;
            }
            new_states.push(st);

            let mut new_row: Vec<(Transition, usize)> = Vec::new();
            let old_row = &self.transitions[rep];
            let mut e2: usize = 0;
            while e2 < old_row.len()
                invariant
                    self.wf(),
                    *self == *old(self),
                    n == self.states@.len(),
                    (rep as int) < self.transitions@.len(),
                    old_row@ == self.transitions@[rep as int]@,
                    remap@.len() == n as int,
                    np == p@.len(),
                    forall|q: int| 0 <= q < n ==> (#[trigger] remap@[q]) < np,
                    e2 <= old_row@.len(),
                    new_row@.len() == e2 as int,
                    forall|e: int|
                        0 <= e < e2 ==> ((#[trigger] new_row@[e]).0 == old_row@[e].0
                            && new_row@[e].1 < np),
                decreases old_row@.len() - e2,
            {
                let tgt = old_row[e2].1;
                proof {
                    assert((tgt as int) < self.states@.len());
                }
                new_row.push((old_row[e2].0, remap[tgt]));
                e2 = e2 + 1;
            }
            proof {
                assert forall|e: int|
                    0 <= e < new_row@.len() implies !((#[trigger] new_row@[e]).0
                    is Epsilon) by {
                    assert(new_row@[e].0 == self.transitions@[rep as int]@[e].0);
                }
                assert forall|e1: int, e2a: int|
                    0 <= e1 < e2a < new_row@.len() implies (#[trigger] new_row@[e1]).0 != (
                #[trigger] new_row@[e2a]).0 by {
                    assert(new_row@[e1].0 == self.transitions@[rep as int]@[e1].0);
                    assert(new_row@[e2a].0 == self.transitions@[rep as int]@[e2a].0);
                }
            }
            new_transitions.push(new_row);
            b2 = b2 + 1;
        }

        let ghost old_start_acc = self.states@[self.start_state as int].accepting;
        // the collapse is committed only when every old row provably
        // behaves like its merged row; otherwise the automaton is kept
        proof {
            assert forall|q2: int, k: int|
                0 <= q2 < self.transitions@.len() && 0 <= k
                    < self.transitions@[q2]@.len() implies (#[trigger]
            self.transitions@[q2]@[k]).1 < remap@.len() by {
                assert(self.transitions@[q2]@[k].1 < self.states@.len());
            }
        }
        let equivalent = rows_equivalent(&self.transitions, &new_transitions, &remap);
        if !equivalent {
            return ;
        }
        let new_start = remap[self.start_state];
        proof {
            // the start state lies in the block it is remapped to, and
            // blocks are uniformly accepting
            let s = self.start_state;
            assert(covered_from(p@, 0, s));
            let k = choose|k: int| 0 <= k < p@.len() && (#[trigger] p@[k])@.contains(s);
            assert(remap@[s as int] == k);
            assert(p@[k]@.contains(p@[k]@[0]));
            assert(new_states@[k].accepting == old_start_acc);
            // every state accepts exactly as the state it merges into
            assert forall|i: int|
                0 <= i < n implies new_states@[(#[trigger] remap@[i]) as int].accepting
                == self.states@[i].accepting by {
                let iu = i as usize;
                assert(covered_from(p@, 0, iu));
                let k2 = choose|k2: int| 0 <= k2 < p@.len() && (#[trigger] p@[k2])@.contains(iu);
                assert(remap@[i] == k2);
                assert(p@[k2]@.contains(p@[k2]@[0]));
                assert(new_states@[k2].accepting == self.states@[p@[k2]@[0] as int].accepting);
            }
        }
        self.states = new_states;
        self.transitions = new_transitions;
        self.start_state = new_start;
        proof {
            assert(self.wf());
            assert forall|input: Seq<char>|
                self.sim_from(self.start_state as int, input) == old(self).sim_from(
                    old(self).start_state as int,
                    input,
                ) by {
                lemma_sim_agree(
                    *old(self),
                    *self,
                    remap@,
                    old(self).start_state as int,
                    input,
                );
            }
        }
    }

    /// The DOT rendering of this automaton under the given graph label,
    /// per [`dfa_dot_spec`]: node definitions in first-appearance order
    /// followed by one line per transition, with accepting states drawn
    /// as double circles.
    pub fn to_dot(&self, label: &str) -> (r: String)
        requires
            self.wf(),
        ensures
            r@ == dfa_dot_spec(*self, label@),
    {
        let mut seen: Vec<usize> = Vec::new();
        let mut nodes = String::new();
        let mut edges = String::new();
        let mut i: usize = 0;
        proof {
            assert(seen@ =~= Seq::<usize>::empty());
        }
        while i < self.transitions.len()
            invariant
                self.wf(),
                i <= self.transitions@.len(),
                dfa_dot_rows(*self, i as int, seen@, nodes@, edges@) == dfa_dot_rows(
                    *self,
                    0,
                    Seq::empty(),
                    Seq::empty(),
                    Seq::empty(),
                ),
            decreases self.transitions@.len() - i,
        {
            let row_len = self.transitions[i].len();
            let mut k: usize = 0;
            while k < row_len
                invariant
                    self.wf(),
                    i < self.transitions@.len(),
                    row_len == self.transitions@[i as int]@.len(),
                    k <= row_len,
                    ({
                        let a = dfa_dot_row(
                            *self,
                            i as int,
                            self.transitions@[i as int]@,
                            k as int,
                            seen@,
                            nodes@,
                            edges@,
                        );
                        dfa_dot_rows(*self, i + 1, a.0, a.1, a.2)
                    }) == dfa_dot_rows(*self, 0, Seq::empty(), Seq::empty(), Seq::empty()),
                decreases row_len - k,
            {
                let ghost seen0 = seen@;
                let ghost nodes0 = nodes@;
                let ghost edges0 = edges@;
                let l = self.transitions[i][k].0;
                let tgt = self.transitions[i][k].1;
                if !contains_usize(&seen, i) {
                    let line = state_node_line(&self.states[i]);
                    nodes.append(line.as_str());
                    seen.push(i);
                }
                if !contains_usize(&seen, tgt) {
                    let line = state_node_line(&self.states[tgt]);
                    nodes.append(line.as_str());
                    seen.push(tgt);
                }
                let start_ref = state_ref_str(&self.states[i]);
                let end_ref = state_ref_str(&self.states[tgt]);
                let label_str = l.dot_label();
                edges.append(start_ref.as_str());
                edges.append(" -> ");
                edges.append(end_ref.as_str());
                edges.append(" [label = \"");
                edges.append(label_str.as_str());
                edges.append("\"];\n");
                proof {
                    assert(edges@ =~= edges0 + dfa_edge_line(
                        self.states@[i as int],
                        self.states@[tgt as int],
                        l,
                    ));
                    assert(dfa_dot_row(
                        *self,
                        i as int,
                        self.transitions@[i as int]@,
                        k as int,
                        seen0,
                        nodes0,
                        edges0,
                    ) == dfa_dot_row(
                        *self,
                        i as int,
                        self.transitions@[i as int]@,
                        k + 1,
                        seen@,
                        nodes@,
                        edges@,
                    ));
                }
                k = k + 1;
            }
            proof {
                assert(dfa_dot_row(
                    *self,
                    i as int,
                    self.transitions@[i as int]@,
                    row_len as int,
                    seen@,
                    nodes@,
                    edges@,
                ) == (seen@, nodes@, edges@));
            }
            i = i + 1;
        }
        let mut r = String::from_str("digraph dfa {\ngraph [label=\"");
        r.append(label);
        r.append("\"];\n");
        r.append(nodes.as_str());
        r.append("\n");
        r.append(edges.as_str());
        r.append("}");
        proof {
            assert(dfa_dot_rows(*self, self.transitions@.len() as int, seen@, nodes@, edges@)
                == (seen@, nodes@, edges@));
            assert(r@ =~= dfa_dot_spec(*self, label@));
        }
        r
    }

    /// The exact result of running the deterministic recognizer from
    /// state `idx` over `input`.
    ///
    /// At a state with no outgoing row the run ends: success exactly when
    /// the state accepts and no input remains. Otherwise, a remaining
    /// character follows its literal edge, or failing that the wildcard
    /// edge; with neither, an accepting state stops (with `Premature` if
    /// input remains) and a non-accepting one fails with `NoMatch`.
    /// Exhausted input succeeds exactly at an accepting state.
    pub open spec fn sim_from(self, idx: int, input: Seq<char>) -> Result<(), SimError>
        decreases input.len(),
    {
        let row = self.transitions@[idx]@;
        let acc = self.states@[idx].accepting;
        if row.len() == 0 {
            if acc {
                if input.len() == 0 {
                    Ok(())
                } else {
                    Err(SimError::Premature)
                }
            } else {
                Err(SimError::NoTransitions)
            }
        } else if input.len() > 0 {
            let c = input[0];
            match row_lookup(row, 0, Transition::Literal(c)) {
                Some(t) => self.sim_from(t as int, input.skip(1)),
                None => match row_lookup(row, 0, Transition::Wildcard) {
                    Some(t) => self.sim_from(t as int, input.skip(1)),
                    None => if acc {
                        Err(SimError::Premature)
                    } else {
                        Err(SimError::NoMatch(c))
                    },
                },
            }
        } else {
            if acc {
                Ok(())
            } else {
                Err(SimError::EndOfString)
            }
        }
    }

    /// Runs the recognizer over the whole input, per [`sim_from`] started
    /// at the start state: `Ok(())` exactly when the entire input is
    /// consumed and an accepting state is reached.
    ///
    /// Transitions are tried in priority order: the literal edge for the
    /// next character, then the wildcard edge, then an epsilon edge. The
    /// epsilon branches are defensive only: a well-formed automaton has
    /// none, so they are provably never taken.
    pub fn simulate(&self, input: String) -> (r: Result<(), SimError>)
        requires
            self.wf(),
        ensures
            r == self.sim_from(self.start_state as int, input@),
    {
        broadcast use vstd::seq_lib::group_seq_properties;

        let chars = to_char_vec(&input);
        let mut cur: usize = self.start_state;
        let mut pos: usize = 0;
        loop
            invariant
                self.wf(),
                chars@ == input@,
                pos <= chars@.len(),
                (cur as int) < self.states@.len(),
                self.sim_from(cur as int, input@.skip(pos as int)) == self.sim_from(
                    self.start_state as int,
                    input@,
                ),
            decreases input@.len() - pos,
        {
            broadcast use vstd::seq_lib::group_seq_properties;

            let ghost rest = input@.skip(pos as int);
            let row = &self.transitions[cur];
            if row.len() > 0 {
                if pos < chars.len() {
                    let c = chars[pos];
                    proof {
                        assert(rest[0] == input@[pos as int]);
                        assert(rest.len() > 0);
                    }
                    match row_get(row, Transition::Literal(c)) {
                        Some(t) => {
                            proof {
                                assert(rest.skip(1) =~= input@.skip(pos + 1));
                                lemma_row_lookup_entry(row@, 0, Transition::Literal(c));
                            }
                            cur = t;
                            pos = pos + 1;
                        }
                        None => {
                            match row_get(row, Transition::Wildcard) {
                                Some(t) => {
                                    proof {
                                        assert(rest.skip(1) =~= input@.skip(pos + 1));
                                        lemma_row_lookup_entry(row@, 0, Transition::Wildcard);
                                    }
                                    cur = t;
                                    pos = pos + 1;
                                }
                                None => {
                                    match row_get(row, Transition::Epsilon) {
                                        Some(t) => {
                                            // dead defensively-kept branch: a
                                            // well-formed row has no epsilon
                                            proof {
                                                lemma_row_lookup_none(
                                                    row@,
                                                    0,
                                                    Transition::Epsilon,
                                                );
                                            }
                                            cur = t;
                                        }
                                        None => {
                                            if self.states[cur].accepting {
                                                return Err(SimError::Premature);
                                            } else {
                                                return Err(SimError::NoMatch(c));
                                            }
                                        }
                                    }
                                }
                            }
                        }
                    }
                } else {
                    proof {
                        assert(rest =~= Seq::<char>::empty());
                    }
                    match row_get(row, Transition::Epsilon) {
                        Some(t) => {
                            // dead defensively-kept branch, as above
                            proof {
                                lemma_row_lookup_none(row@, 0, Transition::Epsilon);
                            }
                            cur = t;
                        }
                        None => {
                            if self.states[cur].accepting {
                                return Ok(());
                            } else {
                                return Err(SimError::EndOfString);
                            }
                        }
                    }
                }
            } else {
                if self.states[cur].accepting {
                    if pos < chars.len() {
                        return Err(SimError::Premature);
                    } else {
                        proof {
                            assert(rest =~= Seq::<char>::empty());
                        }
                        return Ok(());
                    }
                } else {
                    return Err(SimError::NoTransitions);
                }
            }
        }
    }
}

} // verus!
