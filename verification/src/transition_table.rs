//! States and transition labels shared by the NFA and the DFA, together
//! with the counter that mints fresh state identifiers.

use vstd::prelude::*;

verus! {

/// A state of an NFA: the per-automaton `Start` and `Accepting` sentinels,
/// or a fresh state `S(id)` minted from a [`StateCounter`].
#[derive(Clone, Copy, PartialEq, Eq, Structural, Debug)]
pub enum NfaState {
    Start,
    Accepting,
    S(u64),
}

/// A transition label: a literal character, a wildcard matching any single
/// character, or an epsilon move that consumes no input.
#[derive(Clone, Copy, PartialEq, Eq, Structural, Debug)]
pub enum Transition {
    Literal(char),
    Wildcard,
    Epsilon,
}

/// Total order on states used to keep state sets in canonical (strictly
/// ascending) form: `Start`, then `Accepting`, then fresh ids in numeric order.
pub open spec fn state_key(s: NfaState) -> int {
    match s {
        NfaState::Start => 0,
        NfaState::Accepting => 1,
        NfaState::S(n) => n + 2,
    }
}

/// Decides `state_key(*a) < state_key(*b)` executably.
pub fn state_lt(a: &NfaState, b: &NfaState) -> (r: bool)
    ensures
        r == (state_key(*a) < state_key(*b)),
{
    match (a, b) {
        (NfaState::Start, NfaState::Start) => false,
        (NfaState::Start, _) => true,
        (NfaState::Accepting, NfaState::Start) => false,
        (NfaState::Accepting, NfaState::Accepting) => false,
        (NfaState::Accepting, NfaState::S(_)) => true,
        (NfaState::S(_), NfaState::Start) => false,
        (NfaState::S(_), NfaState::Accepting) => false,
        (NfaState::S(n), NfaState::S(m)) => n < m,
    }
}

/// Whether `s` is strictly ascending under [`state_key`]. Such a sequence
/// is the canonical representation of its set of states.
pub open spec fn sorted_strict(s: Seq<NfaState>) -> bool {
    forall|i: int, j: int| 0 <= i < j < s.len() ==> state_key(#[trigger] s[i]) < state_key(
        #[trigger] s[j],
    )
}

/// [`state_key`] tells distinct states apart.
pub proof fn lemma_state_key_injective(a: NfaState, b: NfaState)
    requires
        state_key(a) == state_key(b),
    ensures
        a == b,
{
}

/// A strictly sorted sequence has no repeated states, so its length is
/// the cardinality of its set.
pub proof fn lemma_sorted_strict_cardinality(s: Seq<NfaState>)
    requires
        sorted_strict(s),
    ensures
        s.no_duplicates(),
        s.to_set().len() == s.len(),
        s.to_set().finite(),
{
    broadcast use vstd::seq_lib::seq_to_set_is_finite;

    assert(s.no_duplicates()) by {
        assert forall|i: int, j: int|
            0 <= i < s.len() && 0 <= j < s.len() && i != j implies s[i] != s[j] by {
            if i < j {
                assert(state_key(s[i]) < state_key(s[j]));
            } else {
                assert(state_key(s[j]) < state_key(s[i]));
            }
        }
    }
    s.unique_seq_to_set();
}

/// A canonical sequence is determined by its set: two strictly sorted
/// sequences with the same states are equal.
pub proof fn lemma_canonical_unique(a: Seq<NfaState>, b: Seq<NfaState>)
    requires
        sorted_strict(a),
        sorted_strict(b),
        a.to_set() == b.to_set(),
    ensures
        a == b,
    decreases a.len(),
{
    if a.len() == 0 {
        if b.len() > 0 {
            assert(b.contains(b[0]));
            assert(b.to_set().contains(b[0]));
            assert(a.to_set().contains(b[0]));
            assert(a.contains(b[0]));
            assert(false);
        }
        assert(a =~= b);
    } else {
        if b.len() == 0 {
            assert(a.contains(a[0]));
            assert(a.to_set().contains(a[0]));
            assert(b.to_set().contains(a[0]));
            assert(b.contains(a[0]));
            assert(false);
        }
        // the heads are both the unique minimum of the shared set
        assert(a.contains(a[0]));
        assert(b.to_set().contains(a[0]));
        assert(b.contains(a[0]));
        let ja = choose|ja: int| 0 <= ja < b.len() && b[ja] == a[0];
        assert(state_key(b[0]) <= state_key(a[0]));
        assert(b.contains(b[0]));
        assert(a.to_set().contains(b[0]));
        assert(a.contains(b[0]));
        let jb = choose|jb: int| 0 <= jb < a.len() && a[jb] == b[0];
        assert(state_key(a[0]) <= state_key(b[0]));
        lemma_state_key_injective(a[0], b[0]);
        // the tails carry the set without the shared head
        let at = a.drop_first();
        let bt = b.drop_first();
        assert(sorted_strict(at)) by {
            assert forall|i: int, j: int| 0 <= i < j < at.len() implies state_key(#[trigger] at[i])
                < state_key(#[trigger] at[j]) by {
                assert(at[i] == a[i + 1] && at[j] == a[j + 1]);
            }
        }
        assert(sorted_strict(bt)) by {
            assert forall|i: int, j: int| 0 <= i < j < bt.len() implies state_key(#[trigger] bt[i])
                < state_key(#[trigger] bt[j]) by {
                assert(bt[i] == b[i + 1] && bt[j] == b[j + 1]);
            }
        }
        assert(at.to_set() =~= a.to_set().remove(a[0])) by {
            assert forall|y: NfaState| at.contains(y) implies a.to_set().remove(a[0]).contains(
                y,
            ) by {
                let k = choose|k: int| 0 <= k < at.len() && at[k] == y;
                assert(a[k + 1] == y);
                assert(a.contains(y));
                assert(state_key(a[0]) < state_key(a[k + 1]));
            }
            assert forall|y: NfaState| a.to_set().remove(a[0]).contains(y) implies at.contains(
                y,
            ) by {
                let k = choose|k: int| 0 <= k < a.len() && a[k] == y;
                if k == 0 {
                } else {
                    assert(at[k - 1] == y);
                }
            }
        }
        assert(bt.to_set() =~= b.to_set().remove(b[0])) by {
            assert forall|y: NfaState| bt.contains(y) implies b.to_set().remove(b[0]).contains(
                y,
            ) by {
                let k = choose|k: int| 0 <= k < bt.len() && bt[k] == y;
                assert(b[k + 1] == y);
                assert(b.contains(y));
                assert(state_key(b[0]) < state_key(b[k + 1]));
            }
            assert forall|y: NfaState| b.to_set().remove(b[0]).contains(y) implies bt.contains(
                y,
            ) by {
                let k = choose|k: int| 0 <= k < b.len() && b[k] == y;
                if k == 0 {
                } else {
                    assert(bt[k - 1] == y);
                }
            }
        }
        lemma_canonical_unique(at, bt);
        assert(a =~= b) by {
            assert forall|k: int| 0 <= k < a.len() implies a[k] == b[k] by {
                if k > 0 {
                    assert(a[k] == at[k - 1] && b[k] == bt[k - 1]);
                }
            }
        }
    }
}

/// Whether the canonical sequence `v` holds the state `x`.
pub fn contains_state(v: &Vec<NfaState>, x: &NfaState) -> (r: bool)
    ensures
        r == v@.contains(*x),
{
    let mut i: usize = 0;
    while i < v.len()
        invariant
            i <= v.len(),
            forall|j: int| 0 <= j < i ==> v@[j] != *x,
        decreases v.len() - i,
    {
        if v[i] == *x {
            return true;
        }
        i = i + 1;
    }
    false
}

/// Inserts a state that is not yet present into a canonical sequence,
/// keeping it strictly sorted.
pub fn sorted_insert(v: &mut Vec<NfaState>, x: NfaState)
    requires
        sorted_strict(old(v)@),
        !old(v)@.contains(x),
    ensures
        sorted_strict(final(v)@),
        final(v)@.to_set() == old(v)@.to_set().insert(x),
        final(v)@.len() == old(v)@.len() + 1,
        final(v)@.contains(x),
    decreases old(v)@.len(),
{
    let mut p: usize = 0;
    while p < v.len() && state_lt(&v[p], &x)
        invariant
            p <= v.len(),
            forall|j: int| 0 <= j < p ==> state_key(#[trigger] v@[j]) < state_key(x),
            sorted_strict(v@),
            v@ == old(v)@,
        decreases v.len() - p,
    {
        p = p + 1;
    }
    proof {
        if p < v@.len() {
            if state_key(v@[p as int]) == state_key(x) {
                lemma_state_key_injective(v@[p as int], x);
                assert(v@.contains(x));
            }
            assert(state_key(v@[p as int]) > state_key(x));
        }
        v@.insert_ensures(p as int, x);
    }
    let ghost s = v@;
    let ghost pos = p as int;
    v.insert(p, x);
    proof {
        let t = v@;
        assert(t == s.insert(pos, x));
        assert forall|i: int, j: int| 0 <= i < j < t.len() implies state_key(#[trigger] t[i])
            < state_key(#[trigger] t[j]) by {
            let ki = if i < pos {
                state_key(s[i])
            } else if i == pos {
                state_key(x)
            } else {
                state_key(s[i - 1])
            };
            assert(state_key(t[i]) == ki);
            let kj = if j < pos {
                state_key(s[j])
            } else if j == pos {
                state_key(x)
            } else {
                state_key(s[j - 1])
            };
            assert(state_key(t[j]) == kj);
            if j > pos && j - 1 > pos {
                assert(state_key(s[pos]) <= state_key(s[j - 1]));
            }
        }
        assert(t.to_set() =~= s.to_set().insert(x)) by {
            assert forall|y: NfaState| t.contains(y) implies s.to_set().insert(x).contains(y) by {
                let k = choose|k: int| 0 <= k < t.len() && t[k] == y;
                if k < pos {
                    assert(s[k] == y);
                    assert(s.contains(y));
                } else if k == pos {
                } else {
                    assert(s[k - 1] == y);
                    assert(s.contains(y));
                }
            }
            assert forall|y: NfaState| s.to_set().insert(x).contains(y) implies t.contains(y) by {
                if y == x {
                    assert(t[pos] == x);
                } else {
                    let k = choose|k: int| 0 <= k < s.len() && s[k] == y;
                    if k < pos {
                        assert(t[k] == y);
                    } else {
                        assert(t[k + 1] == y);
                    }
                }
            }
        }
    }
}

/// The characters of a string as a vector.
pub fn to_char_vec(s: &String) -> (r: Vec<char>)
    ensures
        r@ == s@,
{
    let st = s.as_str();
    let n = st.unicode_len();
    let mut r: Vec<char> = Vec::new();
    let mut i: usize = 0;
    while i < n
        invariant
            i <= n,
            n == st@.len(),
            st@ == s@,
            r@ == s@.take(i as int),
        decreases n - i,
    {
        r.push(st.get_char(i));
        proof {
            assert(r@ =~= s@.take(i + 1 as int));
        }
        i = i + 1;
    }
    proof {
        assert(s@.take(s@.len() as int) =~= s@);
    }
    r
}

/// Mints globally fresh state identifiers for one compilation.
///
/// The id space saturates at `u64::MAX`: once `2^64 - 1` ids have been
/// handed out, further requests all return the last id. Reaching that point
/// would take more state allocations than any machine can perform, so the
/// saturation branch is dead in practice; it exists so that minting can
/// never fail or overflow.
pub struct StateCounter {
    pub next: u64,
}

/// The id handed out when the counter stands at `c`.
pub open spec fn fresh_id(c: u64) -> u64 {
    c
}

/// The counter value after one id has been handed out at `c`. The
/// counter saturates at `u64::MAX`, where ids would start to repeat;
/// see [`StateCounter`] for why that point is unreachable in practice.
pub open spec fn bump(c: u64) -> u64 {
    if c == u64::MAX {
        u64::MAX
    } else {
        (c + 1) as u64
    }
}

impl StateCounter {
    /// A counter that will mint ids starting from zero.
    pub fn new() -> (r: StateCounter)
        ensures
            r.next == 0,
    {
        StateCounter { next: 0 }
    }
}

impl NfaState {
    /// Mints a fresh state from the counter.
    pub fn new(counter: &mut StateCounter) -> (r: NfaState)
        ensures
            r == NfaState::S(fresh_id(old(counter).next)),
            final(counter).next == bump(old(counter).next),
    {
        let id = counter.next;
        if counter.next < u64::MAX {
            counter.next = counter.next + 1;
        }
        NfaState::S(id)
    }
}

/// The decimal digit character for `d` (which must be below ten).
pub open spec fn dec_digit(d: int) -> char {
    (d + 48) as char
}

/// The decimal rendering of `n`, most significant digit first.
pub open spec fn dec_rep(n: nat) -> Seq<char>
    decreases n,
{
    if n < 10 {
        seq![dec_digit(n as int)]
    } else {
        dec_rep(n / 10).push(dec_digit((n % 10) as int))
    }
}

/// Appends one decimal digit character to `out`.
fn push_digit(out: &mut String, d: u64)
    requires
        d < 10,
    ensures
        final(out)@ == old(out)@ + seq![dec_digit(d as int)],
{
    match d {
        0 => {
            proof { reveal_strlit("0"); }
            out.append("0");
        }
        1 => {
            proof { reveal_strlit("1"); }
            out.append("1");
        }
        2 => {
            proof { reveal_strlit("2"); }
            out.append("2");
        }
        3 => {
            proof { reveal_strlit("3"); }
            out.append("3");
        }
        4 => {
            proof { reveal_strlit("4"); }
            out.append("4");
        }
        5 => {
            proof { reveal_strlit("5"); }
            out.append("5");
        }
        6 => {
            proof { reveal_strlit("6"); }
            out.append("6");
        }
        7 => {
            proof { reveal_strlit("7"); }
            out.append("7");
        }
        8 => {
            proof { reveal_strlit("8"); }
            out.append("8");
        }
        _ => {
            proof { reveal_strlit("9"); }
            out.append("9");
        }
    }
}

/// Appends the decimal rendering of `n` to `out`.
pub fn push_u64(out: &mut String, n: u64)
    ensures
        final(out)@ == old(out)@ + dec_rep(n as nat),
    decreases n,
{
    if n >= 10 {
        push_u64(out, n / 10);
    }
    push_digit(out, n % 10);
    proof {
        if n >= 10 {
            assert(old(out)@ + dec_rep((n / 10) as nat) + seq![dec_digit((n % 10) as int)]
                =~= old(out)@ + dec_rep(n as nat));
        } else {
            assert(old(out)@ + seq![dec_digit(n as int)] =~= old(out)@ + dec_rep(n as nat));
        }
    }
}

/// The node name used for a state in DOT output.
pub open spec fn dot_node_spec(s: NfaState) -> Seq<char> {
    match s {
        NfaState::Start => seq!['s', 't', 'a', 'r', 't'],
        NfaState::Accepting => seq!['a', 'c', 'c', 'e', 'p', 't', 'i', 'n', 'g'],
        NfaState::S(n) => seq!['s'] + dec_rep(n as nat),
    }
}

impl NfaState {
    /// The DOT node name of this state: `start`, `accepting`, or `s<id>`.
    pub fn dot_node(&self) -> (r: String)
        ensures
            r@ == dot_node_spec(*self),
    {
        match self {
            NfaState::Start => {
                proof { reveal_strlit("start"); }
                let r = String::from_str("start");
                proof { assert(r@ =~= dot_node_spec(*self)); }
                r
            }
            NfaState::Accepting => {
                proof { reveal_strlit("accepting"); }
                let r = String::from_str("accepting");
                proof { assert(r@ =~= dot_node_spec(*self)); }
                r
            }
            NfaState::S(n) => {
                proof { reveal_strlit("s"); }
                let mut r = String::from_str("s");
                push_u64(&mut r, *n);
                proof { assert(r@ =~= dot_node_spec(*self)); }
                r
            }
        }
    }
}

/// The edge label used for a transition in DOT output.
pub open spec fn dot_label_spec(t: Transition) -> Seq<char> {
    match t {
        Transition::Literal(c) => seq!['\'', c, '\''],
        Transition::Wildcard => seq!['.'],
        Transition::Epsilon => seq!['\u{03B5}'],
    }
}

impl Transition {
    /// The DOT edge label of this transition: `'c'`, `.`, or the Greek
    /// letter epsilon.
    pub fn dot_label(&self) -> (r: String)
        ensures
            r@ == dot_label_spec(*self),
    {
        match self {
            Transition::Literal(c) => {
                proof { reveal_strlit("'"); }
                let mut r = String::from_str("'");
                push_char(&mut r, *c);
                r.append("'");
                proof { assert(r@ =~= dot_label_spec(*self)); }
                r
            }
            Transition::Wildcard => {
                proof { reveal_strlit("."); }
                let r = String::from_str(".");
                proof { assert(r@ =~= dot_label_spec(*self)); }
                r
            }
            Transition::Epsilon => {
                proof { reveal_strlit("\u{03B5}"); }
                let r = String::from_str("\u{03B5}");
                proof { assert(r@ =~= dot_label_spec(*self)); }
                r
            }
        }
    }
}

/// Appends a single character to `out`.
pub fn push_char(out: &mut String, c: char)
    ensures
        final(out)@ == old(out)@ + seq![c],
{
    let s = char_to_string(c);
    out.append(s.as_str());
}

/// Relies on `char::to_string` from std: the returned string holds exactly
/// the one character it was called on.
#[verifier::external_body]
fn char_to_string(c: char) -> (r: String)
    ensures
        r@ == seq![c],
{
    c.to_string()
}

} // verus!
