//! Nondeterministic finite automata built by Thompson-style composition.
//!
//! An NFA is a flat table of labeled edges between [`NfaState`]s. The
//! `Start` and `Accepting` sentinels act as per-automaton rendezvous
//! points: every composition operator except plain union first renames a
//! sentinel to a fresh state so that the combined automaton cannot
//! short-circuit through it.

use vstd::prelude::*;

use crate::parse::ParseElement;
use crate::transition_table::{
    bump, contains_state, dot_label_spec, dot_node_spec, fresh_id,
    lemma_sorted_strict_cardinality, sorted_insert, sorted_strict, NfaState, StateCounter,
    Transition,
};

verus! {

/// One transition of an NFA: `from` steps to `to` when `label` is taken.
#[derive(Clone, Copy, PartialEq, Eq, Structural, Debug)]
pub struct Edge {
    pub from: NfaState,
    pub label: Transition,
    pub to: NfaState,
}

/// A nondeterministic finite automaton.
///
/// `empty` marks the seed automaton used to start a composition chain:
/// concatenating anything onto an empty NFA replaces the empty NFA.
pub struct Nfa {
    pub edges: Vec<Edge>,
    pub empty: bool,
}

/// The mathematical value of an [`Nfa`]: its edge sequence and seed flag.
pub ghost struct NfaV {
    pub edges: Seq<Edge>,
    pub empty: bool,
}

impl View for Nfa {
    type V = NfaV;

    open spec fn view(&self) -> NfaV {
        NfaV { edges: self.edges@, empty: self.empty }
    }
}

/// `s` with every occurrence of `o` replaced by `n`.
pub open spec fn subst_state(s: NfaState, o: NfaState, n: NfaState) -> NfaState {
    if s == o {
        n
    } else {
        s
    }
}

/// `e` with state `o` renamed to `n` at both endpoints.
pub open spec fn rename_edge(e: Edge, o: NfaState, n: NfaState) -> Edge {
    Edge { from: subst_state(e.from, o, n), label: e.label, to: subst_state(e.to, o, n) }
}

/// Every edge of `es` with state `o` renamed to `n`.
pub open spec fn rename_edges(es: Seq<Edge>, o: NfaState, n: NfaState) -> Seq<Edge> {
    es.map_values(|e: Edge| rename_edge(e, o, n))
}

/// An epsilon edge from `a` to `b`.
pub open spec fn eps_edge(a: NfaState, b: NfaState) -> Edge {
    Edge { from: a, label: Transition::Epsilon, to: b }
}

/// The single-edge table of an atomic NFA for label `t`.
pub open spec fn atom_edges(t: Transition) -> Seq<Edge> {
    seq![Edge { from: NfaState::Start, label: t, to: NfaState::Accepting }]
}

/// The value of `a` concatenated with `b` at counter `c`: `a`'s `Accepting`
/// and `b`'s `Start` are renamed to one fresh junction state and the tables
/// are merged. Concatenating onto an empty seed yields `b` unchanged.
pub open spec fn concat_v(a: NfaV, b: NfaV, c: u64) -> (NfaV, u64) {
    if a.empty {
        (b, c)
    } else {
        let m = NfaState::S(fresh_id(c));
        (
            NfaV {
                edges: rename_edges(a.edges, NfaState::Accepting, m) + rename_edges(
                    b.edges,
                    NfaState::Start,
                    m,
                ),
                empty: a.empty,
            },
            bump(c),
        )
    }
}

/// The value of `n` after the `?` modifier: an epsilon skip from `Start`
/// to `Accepting`.
pub open spec fn question_v(n: NfaV, c: u64) -> (NfaV, u64) {
    (
        NfaV { edges: n.edges.push(eps_edge(NfaState::Start, NfaState::Accepting)), empty: n.empty },
        c,
    )
}

/// The value of `n` after the `*` modifier: `Accepting` and `Start` are
/// renamed to fresh states `f` and `s`, and epsilon edges for skipping
/// (`s -> Accepting`), repeating (`f -> s`) and entering (`Start -> s`)
/// are added.
pub open spec fn star_v(n: NfaV, c: u64) -> (NfaV, u64) {
    let f = NfaState::S(fresh_id(c));
    let c1 = bump(c);
    let s = NfaState::S(fresh_id(c1));
    let c2 = bump(c1);
    let renamed = rename_edges(rename_edges(n.edges, NfaState::Accepting, f), NfaState::Start, s);
    let with_eps = renamed.push(eps_edge(s, NfaState::Accepting)).push(eps_edge(f, s)).push(
        eps_edge(NfaState::Start, s),
    );
    (NfaV { edges: with_eps, empty: n.empty }, c2)
}

/// The two primitive operations every transition table supports: adding
/// one transition, and renaming a state throughout the table while
/// keeping every transition of the renamed state.
pub trait TransitionTable {
    /// The edges of the table.
    spec fn table(&self) -> Seq<Edge>;

    /// Appends one transition to the table.
    fn add_transition(&mut self, from: NfaState, label: Transition, to: NfaState)
        ensures
            final(self).table() == old(self).table().push(Edge { from, label, to }),
    ;

    /// Renames state `o` to `n` at every edge endpoint.
    fn rename(&mut self, o: NfaState, n: NfaState)
        ensures
            final(self).table() == rename_edges(old(self).table(), o, n),
    ;
}

impl TransitionTable for Nfa {
    open spec fn table(&self) -> Seq<Edge> {
        self.edges@
    }

    fn add_transition(&mut self, from: NfaState, label: Transition, to: NfaState) {
        Nfa::add_transition(self, from, label, to);
    }

    fn rename(&mut self, o: NfaState, n: NfaState) {
        Nfa::rename(self, o, n);
    }
}

/// Whether the table holds an epsilon edge from `a` to `b`.
pub open spec fn has_eps_edge(es: Seq<Edge>, a: NfaState, b: NfaState) -> bool {
    exists|i: int|
        0 <= i < es.len() && (#[trigger] es[i]) == Edge {
            from: a,
            label: Transition::Epsilon,
            to: b,
        }
}

/// Whether `s` is closed under the epsilon edges of the table.
pub open spec fn eps_closed(es: Seq<Edge>, s: Set<NfaState>) -> bool {
    forall|a: NfaState, b: NfaState|
        s.contains(a) && #[trigger] has_eps_edge(es, a, b) ==> s.contains(b)
}

/// Whether `c` is the epsilon closure of `t` over the table `es`: the
/// least epsilon-closed superset of `t`.
pub open spec fn is_eps_closure(es: Seq<Edge>, t: Set<NfaState>, c: Set<NfaState>) -> bool {
    &&& t.subset_of(c)
    &&& eps_closed(es, c)
    &&& forall|d: Set<NfaState>|
        t.subset_of(d) && #[trigger] eps_closed(es, d) ==> c.subset_of(d)
}

/// Whether `s` can be reached from the seed set `t` by at most `n`
/// epsilon steps.
pub open spec fn eps_reach(es: Seq<Edge>, t: Set<NfaState>, s: NfaState, n: nat) -> bool
    decreases n,
{
    if n == 0 {
        t.contains(s)
    } else {
        t.contains(s) || exists|a: NfaState|
            eps_reach(es, t, a, (n - 1) as nat) && #[trigger] has_eps_edge(es, a, s)
    }
}

/// Any epsilon-closed superset of the seed set contains every state the
/// seed set reaches by epsilon steps.
proof fn lemma_closed_contains_reach(
    es: Seq<Edge>,
    t: Set<NfaState>,
    d: Set<NfaState>,
    s: NfaState,
    n: nat,
)
    requires
        t.subset_of(d),
        eps_closed(es, d),
        eps_reach(es, t, s, n),
    ensures
        d.contains(s),
    decreases n,
{
    if n > 0 && !t.contains(s) {
        let a = choose|a: NfaState|
            eps_reach(es, t, a, (n - 1) as nat) && #[trigger] has_eps_edge(es, a, s);
        lemma_closed_contains_reach(es, t, d, a, (n - 1) as nat);
    }
}

/// The epsilon closure of a set is unique: two sets that both satisfy
/// [`is_eps_closure`] for the same seed set are equal.
pub proof fn lemma_eps_closure_unique(
    es: Seq<Edge>,
    t: Set<NfaState>,
    c1: Set<NfaState>,
    c2: Set<NfaState>,
)
    requires
        is_eps_closure(es, t, c1),
        is_eps_closure(es, t, c2),
    ensures
        c1 == c2,
{
    assert(c1 =~= c2);
}

/// Epsilon closure is idempotent: the closure of a closure is itself.
/// Formally, if `c1` is the epsilon closure of `t` and `c2` is the
/// epsilon closure of `c1`, then `c2 == c1`.
pub proof fn lemma_eps_closure_idempotent(
    es: Seq<Edge>,
    t: Set<NfaState>,
    c1: Set<NfaState>,
    c2: Set<NfaState>,
)
    requires
        is_eps_closure(es, t, c1),
        is_eps_closure(es, c1, c2),
    ensures
        c2 == c1,
{
    assert(c1.subset_of(c1) && eps_closed(es, c1));
    assert(c2 =~= c1);
}

/// One line of DOT output for an NFA edge.
pub open spec fn nfa_dot_line(e: Edge) -> Seq<char> {
    dot_node_spec(e.from) + " -> "@ + dot_node_spec(e.to) + " [label = \""@ + dot_label_spec(
        e.label,
    ) + "\"];\n"@
}

/// The DOT lines for the first `i` edges of the table, in table order.
pub open spec fn nfa_dot_lines(es: Seq<Edge>, i: int) -> Seq<char>
    decreases i,
{
    if i <= 0 || i > es.len() {
        Seq::empty()
    } else {
        nfa_dot_lines(es, i - 1) + nfa_dot_line(es[i - 1])
    }
}

/// The complete DOT rendering of an NFA edge table.
pub open spec fn nfa_dot_spec(es: Seq<Edge>) -> Seq<char> {
    "digraph nfa {\ngraph [label=\"NFA\"];\n"@ + nfa_dot_lines(es, es.len() as int) + "}"@
}

/// Looks up key `k` in the association list, per [`assoc_find`].
fn assoc_get(assoc: &Vec<(u64, u64)>, k: u64) -> (r: Option<u64>)
    ensures
        r == assoc_find(assoc@, 0, k),
{
    let mut j: usize = 0;
    while j < assoc.len()
        invariant
            j <= assoc.len(),
            assoc_find(assoc@, 0, k) == assoc_find(assoc@, j as int, k),
        decreases assoc.len() - j,
    {
        if assoc[j].0 == k {
            return Some(assoc[j].1);
        }
        j = j + 1;
    }
    None
}

/// Maps one state through the refreshing copy, per [`refresh_state_v`]:
/// sentinels pass through, known ids are reused, unknown ids are minted
/// fresh and recorded.
fn refresh_state(s: NfaState, assoc: &mut Vec<(u64, u64)>, counter: &mut StateCounter) -> (r:
    NfaState)
    ensures
        ({
            let t = refresh_state_v(s, old(assoc)@, old(counter).next);
            r == t.0 && final(assoc)@ == t.1 && final(counter).next == t.2
        }),
{
    match s {
        NfaState::Start => NfaState::Start,
        NfaState::Accepting => NfaState::Accepting,
        NfaState::S(id) => {
            match assoc_get(assoc, id) {
                Some(v) => NfaState::S(v),
                None => {
                    let nid = counter.next;
                    if counter.next < u64::MAX {
                        counter.next = counter.next + 1;
                    }
                    assoc.push((id, nid));
                    NfaState::S(nid)
                }
            }
        }
    }
}

/// First binding of key `k` in the association list `m`, scanning from
/// index `i`.
pub open spec fn assoc_find(m: Seq<(u64, u64)>, i: int, k: u64) -> Option<u64>
    decreases m.len() - i,
{
    if i < 0 || i >= m.len() {
        None
    } else if m[i].0 == k {
        Some(m[i].1)
    } else {
        assoc_find(m, i + 1, k)
    }
}

/// One state processed by a refreshing copy: sentinels are kept; a fresh
/// id already seen is mapped as before; a fresh id seen for the first
/// time is mapped to a newly minted id recorded in the association list.
pub open spec fn refresh_state_v(s: NfaState, assoc: Seq<(u64, u64)>, c: u64) -> (
    NfaState,
    Seq<(u64, u64)>,
    u64,
) {
    match s {
        NfaState::Start => (s, assoc, c),
        NfaState::Accepting => (s, assoc, c),
        NfaState::S(id) => match assoc_find(assoc, 0, id) {
            Some(v) => (NfaState::S(v), assoc, c),
            None => (NfaState::S(fresh_id(c)), assoc.push((id, fresh_id(c))), bump(c)),
        },
    }
}

/// The edges of a refreshing copy, processed left to right from index `i`
/// with the edges already produced in `done`.
pub open spec fn refresh_from(
    es: Seq<Edge>,
    i: int,
    done: Seq<Edge>,
    assoc: Seq<(u64, u64)>,
    c: u64,
) -> (Seq<Edge>, u64)
    decreases es.len() - i,
{
    if i < 0 || i >= es.len() {
        (done, c)
    } else {
        let r1 = refresh_state_v(es[i].from, assoc, c);
        let r2 = refresh_state_v(es[i].to, r1.1, r1.2);
        refresh_from(
            es,
            i + 1,
            done.push(Edge { from: r1.0, label: es[i].label, to: r2.0 }),
            r2.1,
            r2.2,
        )
    }
}

/// A copy of `n` in which every fresh id is consistently replaced by a
/// newly minted one, so that the copy shares no fresh state with `n`.
pub open spec fn refresh_v(n: NfaV, c: u64) -> (NfaV, u64) {
    let r = refresh_from(n.edges, 0, Seq::empty(), Seq::empty(), c);
    (NfaV { edges: r.0, empty: n.empty }, r.1)
}

/// The value of `n` after the `+` modifier: `n` concatenated with a
/// starred refreshing copy of itself, giving `N N*`.
pub open spec fn plus_v(n: NfaV, c: u64) -> (NfaV, u64) {
    let r = refresh_v(n, c);
    let s = star_v(r.0, r.1);
    concat_v(n, s.0, s.1)
}

/// The value accumulated by the `{lo,hi}` modifier after the copies with
/// index below `i` have been concatenated onto `acc`: copies with index
/// at least `lo` are made optional with `?` first.
pub open spec fn range_from_v(acc: NfaV, tmpl: NfaV, i: int, lo: u64, hi: u64, c: u64) -> (
    NfaV,
    u64,
)
    decreases hi - i,
{
    if i < 1 || i >= hi {
        (acc, c)
    } else {
        let r = refresh_v(tmpl, c);
        let q = if i >= lo {
            question_v(r.0, r.1)
        } else {
            r
        };
        let cc = concat_v(acc, q.0, q.1);
        range_from_v(cc.0, tmpl, i + 1, lo, hi, cc.1)
    }
}

/// The value accumulated by the `{lo,}` modifier after the copies with
/// index below `i` have been concatenated onto `acc`: the last copy is
/// starred first.
pub open spec fn open_range_from_v(acc: NfaV, tmpl: NfaV, i: int, lo: u64, c: u64) -> (NfaV, u64)
    decreases lo - i,
{
    if i < 0 || i >= lo {
        (acc, c)
    } else {
        let r = refresh_v(tmpl, c);
        let q = if i == lo - 1 {
            star_v(r.0, r.1)
        } else {
            r
        };
        let cc = concat_v(acc, q.0, q.1);
        open_range_from_v(cc.0, tmpl, i + 1, lo, cc.1)
    }
}

/// The value of `n` after an optional quantifier modifier is applied.
/// Elements that are not quantifiers leave the automaton unchanged.
pub open spec fn modifier_applied_v(n: NfaV, m: Option<ParseElement>, c: u64) -> (NfaV, u64) {
    match m {
        Some(ParseElement::Star) => star_v(n, c),
        Some(ParseElement::Plus) => plus_v(n, c),
        Some(ParseElement::Question) => question_v(n, c),
        Some(ParseElement::Range(lo, hi)) => range_from_v(n, n, 1, lo, hi, c),
        Some(ParseElement::OpenRange(lo)) => open_range_from_v(n, n, 0, lo, c),
        _ => (n, c),
    }
}

/// Recursion rank of a modifier: `+`, `{lo,hi}` and `{lo,}` expand into
/// the simpler modifiers `*` and `?`.
pub open spec fn modifier_rank(m: Option<ParseElement>) -> nat {
    match m {
        Some(ParseElement::Plus) => 1,
        Some(ParseElement::Range(_, _)) => 1,
        Some(ParseElement::OpenRange(_)) => 1,
        _ => 0,
    }
}

impl Nfa {
    /// The empty seed automaton.
    pub fn empty() -> (r: Nfa)
        ensures
            r@.edges == Seq::<Edge>::empty(),
            r@.empty,
    {
        let r = Nfa { edges: Vec::new(), empty: true };
        proof {
            assert(r@.edges =~= Seq::<Edge>::empty());
        }
        r
    }

    /// A structurally identical copy of this automaton.
    pub fn duplicate(&self) -> (r: Nfa)
        ensures
            r@ == self@,
    {
        let mut edges: Vec<Edge> = Vec::new();
        let mut i: usize = 0;
        while i < self.edges.len()
            invariant
                i <= self.edges.len(),
                edges@ == self.edges@.take(i as int),
            decreases self.edges.len() - i,
        {
            edges.push(self.edges[i]);
            proof {
                assert(edges@ =~= self.edges@.take(i + 1 as int));
            }
            i = i + 1;
        }
        proof {
            assert(edges@ =~= self.edges@);
        }
        Nfa { edges, empty: self.empty }
    }

    /// Appends one transition to the table.
    pub fn add_transition(&mut self, from: NfaState, label: Transition, to: NfaState)
        ensures
            final(self)@.edges == old(self)@.edges.push(Edge { from, label, to }),
            final(self)@.empty == old(self)@.empty,
    {
        self.edges.push(Edge { from, label, to });
    }

    /// Renames state `o` to `n` throughout the table, at both edge
    /// endpoints, merging `o`'s transitions into `n`'s.
    pub fn rename(&mut self, o: NfaState, n: NfaState)
        ensures
            final(self)@.edges == rename_edges(old(self)@.edges, o, n),
            final(self)@.empty == old(self)@.empty,
    {
        let ghost orig = self.edges@;
        let mut i: usize = 0;
        while i < self.edges.len()
            invariant
                i <= self.edges.len(),
                self.edges@.len() == orig.len(),
                self.empty == old(self)@.empty,
                forall|j: int| 0 <= j < i ==> self.edges@[j] == rename_edge(orig[j], o, n),
                forall|j: int| i <= j < orig.len() ==> self.edges@[j] == orig[j],
            decreases self.edges.len() - i,
        {
            let e = self.edges[i];
            let new_from = if e.from == o {
                n
            } else {
                e.from
            };
            let new_to = if e.to == o {
                n
            } else {
                e.to
            };
            self.edges.set(i, Edge { from: new_from, label: e.label, to: new_to });
            i = i + 1;
        }
        proof {
            assert(self.edges@ =~= rename_edges(orig, o, n));
        }
    }

    /// Merges every transition of `other` into this automaton. Because
    /// both automata share the `Start` and `Accepting` sentinels and all
    /// other states carry fresh ids, the merged table accepts through
    /// either branch.
    pub fn union(&mut self, other: &Nfa)
        ensures
            final(self)@.edges == old(self)@.edges + other@.edges,
            final(self)@.empty == old(self)@.empty,
    {
        let mut i: usize = 0;
        while i < other.edges.len()
            invariant
                i <= other.edges.len(),
                self.edges@ == old(self)@.edges + other.edges@.take(i as int),
                self.empty == old(self)@.empty,
            decreases other.edges.len() - i,
        {
            self.edges.push(other.edges[i]);
            proof {
                assert(old(self)@.edges + other.edges@.take(i as int) + seq![other.edges@[i as int]]
                    =~= old(self)@.edges + other.edges@.take(i + 1 as int));
            }
            i = i + 1;
        }
        proof {
            assert(other.edges@.take(other.edges@.len() as int) =~= other.edges@);
        }
    }

    /// An atomic automaton for one transition label, with an optional
    /// quantifier modifier applied: the table `Start --t--> Accepting`
    /// run through [`modifier_applied_v`].
    pub fn new(edge: Transition, modifier: Option<ParseElement>, counter: &mut StateCounter) -> (r:
        Nfa)
        ensures
            ({
                let t = modifier_applied_v(
                    NfaV { edges: atom_edges(edge), empty: false },
                    modifier,
                    old(counter).next,
                );
                r@ == t.0 && final(counter).next == t.1
            }),
    {
        let mut ret = Nfa { edges: Vec::new(), empty: false };
        ret.edges.push(Edge { from: NfaState::Start, label: edge, to: NfaState::Accepting });
        proof {
            assert(ret@.edges =~= atom_edges(edge));
        }
        ret.add_modifier(modifier, counter);
        ret
    }

    /// A refreshing copy of this automaton, per [`refresh_v`]: the same
    /// shape over brand-new fresh ids, so that composing the copy with
    /// the original cannot conflate their internal states.
    pub fn refreshed(&self, counter: &mut StateCounter) -> (r: Nfa)
        ensures
            (r@, final(counter).next) == refresh_v(self@, old(counter).next),
    {
        let ghost c0 = counter.next;
        let mut done: Vec<Edge> = Vec::new();
        let mut assoc: Vec<(u64, u64)> = Vec::new();
        let mut i: usize = 0;
        while i < self.edges.len()
            invariant
                i <= self.edges.len(),
                refresh_from(self.edges@, i as int, done@, assoc@, counter.next)
                    == refresh_from(self.edges@, 0, Seq::empty(), Seq::empty(), c0),
            decreases self.edges.len() - i,
        {
            let ghost done0 = done@;
            let ghost assoc0 = assoc@;
            let ghost cn0 = counter.next;
            let e = self.edges[i];
            let from = refresh_state(e.from, &mut assoc, counter);
            let ghost assoc1 = assoc@;
            let ghost cn1 = counter.next;
            let to = refresh_state(e.to, &mut assoc, counter);
            done.push(Edge { from, label: e.label, to });
            proof {
                let r1 = refresh_state_v(self.edges@[i as int].from, assoc0, cn0);
                let r2 = refresh_state_v(self.edges@[i as int].to, r1.1, r1.2);
                assert(refresh_from(self.edges@, i as int, done0, assoc0, cn0)
                    == refresh_from(self.edges@, i + 1, done@, assoc@, counter.next));
            }
            i = i + 1;
        }
        let r = Nfa { edges: done, empty: self.empty };
        proof {
            assert(refresh_from(self.edges@, self.edges@.len() as int, done@, assoc@, counter.next)
                == (done@, counter.next));
        }
        r
    }

    /// Applies a quantifier modifier in place, per [`modifier_applied_v`].
    ///
    /// `*` renames both sentinels to fresh states and adds the skip,
    /// repeat and enter epsilon edges; `?` adds a skip edge; `+` expands
    /// to `N N*`; `{lo,hi}` concatenates `hi - 1` refreshing copies, the
    /// ones past `lo` made optional; `{lo,}` concatenates `lo` copies,
    /// the last one starred. Any other element leaves the automaton
    /// unchanged.
    pub fn add_modifier(&mut self, modifier: Option<ParseElement>, counter: &mut StateCounter)
        ensures
            (final(self)@, final(counter).next) == modifier_applied_v(
                old(self)@,
                modifier,
                old(counter).next,
            ),
        decreases modifier_rank(modifier),
    {
        match modifier {
            Some(ParseElement::Star) => {
                let final_state = NfaState::new(counter);
                let start_state = NfaState::new(counter);
                self.rename(NfaState::Accepting, final_state);
                self.rename(NfaState::Start, start_state);
                // skip: zero instances go straight to the accepting sentinel
                self.add_transition(start_state, Transition::Epsilon, NfaState::Accepting);
                // repeat: loop back for further instances
                self.add_transition(final_state, Transition::Epsilon, start_state);
                // enter: the outer start reaches the loop
                self.add_transition(NfaState::Start, Transition::Epsilon, start_state);
            }
            Some(ParseElement::Plus) => {
                let mut copy = self.refreshed(counter);
                copy.add_modifier(Some(ParseElement::Star), counter);
                self.concat(&copy, counter);
            }
            Some(ParseElement::Question) => {
                self.add_transition(NfaState::Start, Transition::Epsilon, NfaState::Accepting);
            }
            Some(ParseElement::Range(lo, hi)) => {
                let ghost n0 = self@;
                let ghost c0 = counter.next;
                let template = self.duplicate();
                let mut i: u64 = 1;
                while i < hi
                    invariant
                        1 <= i <= hi || (hi < 1 && i == 1),
                        modifier_rank(modifier) == 1,
                        template@ == n0,
                        range_from_v(self@, template@, i as int, lo, hi, counter.next)
                            == range_from_v(n0, n0, 1, lo, hi, c0),
                    decreases hi - i,
                {
                    let ghost acc0 = self@;
                    let ghost cn0 = counter.next;
                    let mut copy = template.refreshed(counter);
                    if i >= lo {
                        copy.add_modifier(Some(ParseElement::Question), counter);
                    }
                    self.concat(&copy, counter);
                    proof {
                        let r = refresh_v(template@, cn0);
                        let q = if i >= lo {
                            question_v(r.0, r.1)
                        } else {
                            r
                        };
                        let cc = concat_v(acc0, q.0, q.1);
                        assert(range_from_v(acc0, template@, i as int, lo, hi, cn0)
                            == range_from_v(cc.0, template@, i + 1, lo, hi, cc.1));
                    }
                    i = i + 1;
                }
            }
            Some(ParseElement::OpenRange(lo)) => {
                let ghost n0 = self@;
                let ghost c0 = counter.next;
                let template = self.duplicate();
                let mut i: u64 = 0;
                while i < lo
                    invariant
                        0 <= i <= lo,
                        modifier_rank(modifier) == 1,
                        template@ == n0,
                        open_range_from_v(self@, template@, i as int, lo, counter.next)
                            == open_range_from_v(n0, n0, 0, lo, c0),
                    decreases lo - i,
                {
                    let ghost acc0 = self@;
                    let ghost cn0 = counter.next;
                    let mut copy = template.refreshed(counter);
                    if i == lo - 1 {
                        copy.add_modifier(Some(ParseElement::Star), counter);
                    }
                    self.concat(&copy, counter);
                    proof {
                        let r = refresh_v(template@, cn0);
                        let q = if i == lo - 1 {
                            star_v(r.0, r.1)
                        } else {
                            r
                        };
                        let cc = concat_v(acc0, q.0, q.1);
                        assert(open_range_from_v(acc0, template@, i as int, lo, cn0)
                            == open_range_from_v(cc.0, template@, i + 1, lo, cc.1));
                    }
                    i = i + 1;
                }
            }
            _ => {}
        }
    }

    /// All states reachable from `states` through epsilon transitions
    /// alone, inclusive of `states`, as a canonical sorted sequence.
    pub fn epsilon_closure(&self, states: &Vec<NfaState>) -> (r: Vec<NfaState>)
        ensures
            sorted_strict(r@),
            is_eps_closure(self.edges@, states@.to_set(), r@.to_set()),
    {
        broadcast use vstd::seq_lib::group_seq_properties;
        broadcast use vstd::seq_lib::seq_to_set_is_finite;

        let ghost es = self.edges@;
        let ghost t = states@.to_set();
        let ghost universe = states@.to_set().union(
            self.edges@.map_values(|e: Edge| e.to).to_set(),
        );
        let mut ret: Vec<NfaState> = Vec::new();
        let mut stack: Vec<NfaState> = Vec::new();

        let mut k: usize = 0;
        while k < states.len()
            invariant
                k <= states.len(),
                t == states@.to_set(),
                sorted_strict(ret@),
                ret@.to_set() == states@.take(k as int).to_set(),
                stack@.to_set() == ret@.to_set(),
                forall|s: NfaState| #[trigger] ret@.contains(s) ==> eps_reach(es, t, s, 0),
            decreases states.len() - k,
        {
            broadcast use vstd::seq_lib::group_seq_properties;

            let st = states[k];
            proof {
                assert(states@.take(k + 1 as int) =~= states@.take(k as int).push(st));
                assert(states@.take(k + 1 as int).to_set() =~= states@.take(
                    k as int,
                ).to_set().insert(st));
                assert(states@[k as int] == st && states@.contains(st));
            }
            if !contains_state(&ret, &st) {
                let ghost retp = ret@;
                sorted_insert(&mut ret, st);
                stack.push(st);
                proof {
                    assert(stack@.to_set() =~= ret@.to_set());
                    assert forall|s: NfaState| #[trigger] ret@.contains(s) implies eps_reach(
                        es,
                        t,
                        s,
                        0,
                    ) by {
                        assert(ret@.to_set().contains(s));
                        if s == st {
                            assert(t.contains(st));
                        } else {
                            assert(retp.to_set().contains(s));
                            assert(retp.contains(s));
                        }
                    }
                }
            } else {
                proof {
                    assert(ret@.to_set() =~= states@.take(k as int).to_set().insert(st));
                }
            }
            k = k + 1;
        }
        proof {
            assert(states@.take(states@.len() as int) =~= states@);
        }

        while stack.len() > 0
            invariant
                es == self.edges@,
                t == states@.to_set(),
                universe == states@.to_set().union(
                    self.edges@.map_values(|e: Edge| e.to).to_set(),
                ),
                sorted_strict(ret@),
                t.subset_of(ret@.to_set()),
                stack@.to_set().subset_of(ret@.to_set()),
                ret@.to_set().subset_of(universe),
                universe.finite(),
                forall|s: NfaState|
                    #[trigger] ret@.contains(s) ==> exists|n: nat| eps_reach(es, t, s, n),
                forall|a: NfaState, b: NfaState|
                    ret@.contains(a) && !stack@.contains(a) && #[trigger] has_eps_edge(es, a, b)
                        ==> ret@.contains(b),
            decreases universe.len() - ret@.len(), stack@.len(),
        {
            broadcast use vstd::seq_lib::group_seq_properties;

            proof {
                lemma_sorted_strict_cardinality(ret@);
                vstd::set_lib::lemma_len_subset(ret@.to_set(), universe);
            }
            let ghost ret0 = ret@;
            let ghost stack0 = stack@;
            let top = stack[stack.len() - 1];
            stack.pop();
            proof {
                assert(stack@ =~= stack0.take(stack0.len() - 1));
                assert(stack0.contains(top));
                assert(ret@.to_set().contains(top));
                assert(ret@.contains(top));
                // popping removes only the one occurrence at the end
                assert forall|a: NfaState, b: NfaState|
                    ret@.contains(a) && !stack@.contains(a) && a != top && #[trigger]
                    has_eps_edge(es, a, b) implies ret@.contains(b) by {
                    if stack0.contains(a) {
                        let idx = choose|idx: int| 0 <= idx < stack0.len() && stack0[idx] == a;
                        assert(idx < stack0.len() - 1 ==> stack@[idx] == a);
                        assert(a == top);
                    }
                }
            }

            let mut j: usize = 0;
            while j < self.edges.len()
                invariant
                    j <= self.edges.len(),
                    es == self.edges@,
                    t == states@.to_set(),
                    universe == states@.to_set().union(
                        self.edges@.map_values(|e: Edge| e.to).to_set(),
                    ),
                    sorted_strict(ret@),
                    t.subset_of(ret@.to_set()),
                    stack@.to_set().subset_of(ret@.to_set()),
                    ret@.to_set().subset_of(universe),
                    universe.finite(),
                    ret0.to_set().subset_of(ret@.to_set()),
                    ret@.len() - ret0.len() == stack@.len() - (stack0.len() - 1),
                    ret@.len() >= ret0.len(),
                    ret@.contains(top),
                    forall|s: NfaState|
                        #[trigger] ret@.contains(s) ==> exists|n: nat| eps_reach(es, t, s, n),
                    forall|a: NfaState, b: NfaState|
                        ret@.contains(a) && !stack@.contains(a) && a != top && #[trigger]
                        has_eps_edge(es, a, b) ==> ret@.contains(b),
                    forall|jj: int|
                        0 <= jj < j && (#[trigger] es[jj]).from == top && es[jj].label
                            is Epsilon ==> ret@.contains(es[jj].to),
                decreases self.edges.len() - j,
            {
                broadcast use vstd::seq_lib::group_seq_properties;

                let e = self.edges[j];
                if e.from == top && e.label == Transition::Epsilon {
                    if !contains_state(&ret, &e.to) {
                        proof {
                            lemma_sorted_strict_cardinality(ret@);
                            // the target of an edge lies in the universe
                            assert(self.edges@.map_values(|ed: Edge| ed.to)[j as int] == e.to);
                            assert(self.edges@.map_values(|ed: Edge| ed.to).contains(e.to));
                            assert(universe.contains(e.to));
                            // reachability carries over one epsilon step
                            let n = choose|n: nat| eps_reach(es, t, top, n);
                            assert(has_eps_edge(es, top, e.to)) by {
                                assert(es[j as int] == Edge {
                                    from: top,
                                    label: Transition::Epsilon,
                                    to: e.to,
                                });
                            }
                            assert(eps_reach(es, t, e.to, n + 1));
                        }
                        let ghost ret1 = ret@;
                        let ghost stack1 = stack@;
                        sorted_insert(&mut ret, e.to);
                        stack.push(e.to);
                        proof {
                            assert(ret@.to_set().contains(top));
                            assert(ret@.contains(top));
                            // the recorded set only grows
                            assert forall|s: NfaState| #[trigger] ret1.contains(s) implies
                                ret@.contains(s) by {
                                assert(ret1.to_set().contains(s));
                                assert(ret@.to_set().contains(s));
                            }
                            assert(ret@.contains(e.to));
                            // every recorded state is still reachable
                            assert forall|s: NfaState| #[trigger] ret@.contains(s) implies exists|
                                n: nat,
                            | eps_reach(es, t, s, n) by {
                                assert(ret@.to_set().contains(s));
                                if s == e.to {
                                    let n = choose|n: nat| eps_reach(es, t, top, n);
                                    assert(eps_reach(es, t, e.to, n + 1));
                                } else {
                                    assert(ret1.to_set().contains(s));
                                    assert(ret1.contains(s));
                                }
                            }
                            assert forall|a: NfaState, b: NfaState|
                                ret@.contains(a) && !stack@.contains(a) && a != top && #[trigger]
                                has_eps_edge(es, a, b) implies ret@.contains(b) by {
                                if a == e.to {
                                    assert(stack@[stack@.len() - 1] == e.to);
                                    assert(stack@.contains(a));
                                } else {
                                    assert(ret@.to_set().contains(a));
                                    assert(ret1.to_set().contains(a));
                                    assert(ret1.contains(a));
                                    assert(!stack1.contains(a)) by {
                                        if stack1.contains(a) {
                                            let idx = choose|idx: int|
                                                0 <= idx < stack1.len() && stack1[idx] == a;
                                            assert(stack@[idx] == a);
                                        }
                                    }
                                    assert(ret1.contains(b));
                                    assert(ret@.to_set().contains(b));
                                }
                            }
                        }
                    }
                }
                j = j + 1;
            }
            proof {
                // every epsilon edge out of `top` has been visited
                assert forall|a: NfaState, b: NfaState|
                    ret@.contains(a) && !stack@.contains(a) && #[trigger] has_eps_edge(es, a, b)
                        implies ret@.contains(b) by {
                    if a == top {
                        let jj = choose|jj: int|
                            0 <= jj < es.len() && (#[trigger] es[jj]) == Edge {
                                from: a,
                                label: Transition::Epsilon,
                                to: b,
                            };
                        assert(ret@.contains(es[jj].to));
                    }
                }
                // the result can never outgrow the finite universe
                lemma_sorted_strict_cardinality(ret@);
                vstd::set_lib::lemma_len_subset(ret@.to_set(), universe);
            }
        }

        proof {
            // the worklist is empty, so every recorded state is processed
            // and the result is epsilon-closed
            assert(eps_closed(es, ret@.to_set()));
            // minimality: every state recorded is reachable, and a closed
            // superset of the seed contains everything reachable
            assert forall|d: Set<NfaState>|
                t.subset_of(d) && #[trigger] eps_closed(es, d) implies ret@.to_set().subset_of(
                d,
            ) by {
                assert forall|s: NfaState| ret@.to_set().contains(s) implies d.contains(s) by {
                    let n = choose|n: nat| eps_reach(es, t, s, n);
                    lemma_closed_contains_reach(es, t, d, s, n);
                }
            }
        }
        ret
    }

    /// The DOT rendering of this automaton: one edge line per transition,
    /// in table order, per [`nfa_dot_spec`].
    pub fn to_dot(&self) -> (r: String)
        ensures
            r@ == nfa_dot_spec(self.edges@),
    {
        let mut out = String::new();
        let mut i: usize = 0;
        while i < self.edges.len()
            invariant
                i <= self.edges.len(),
                out@ == nfa_dot_lines(self.edges@, i as int),
            decreases self.edges.len() - i,
        {
            let ghost out0 = out@;
            let e = self.edges[i];
            let from_str = e.from.dot_node();
            let to_str = e.to.dot_node();
            let label_str = e.label.dot_label();
            out.append(from_str.as_str());
            out.append(" -> ");
            out.append(to_str.as_str());
            out.append(" [label = \"");
            out.append(label_str.as_str());
            out.append("\"];\n");
            proof {
                assert(out@ =~= out0 + nfa_dot_line(self.edges@[i as int]));
                assert(out@ =~= nfa_dot_lines(self.edges@, i + 1));
            }
            i = i + 1;
        }
        let mut r = String::from_str("digraph nfa {\ngraph [label=\"NFA\"];\n");
        r.append(out.as_str());
        r.append("}");
        proof {
            assert(r@ =~= nfa_dot_spec(self.edges@));
        }
        r
    }

    /// Concatenates `other` onto this automaton through a fresh junction
    /// state, per [`concat_v`].
    pub fn concat(&mut self, other: &Nfa, counter: &mut StateCounter)
        ensures
            (final(self)@, final(counter).next) == concat_v(
                old(self)@,
                other@,
                old(counter).next,
            ),
    {
        if self.empty {
            *self = other.duplicate();
            return ;
        }
        let m = NfaState::new(counter);
        self.rename(NfaState::Accepting, m);
        let mut renamed_other = other.duplicate();
        renamed_other.rename(NfaState::Start, m);
        self.union(&renamed_other);
    }
}

} // verus!
