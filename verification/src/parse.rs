//! Lexing a pattern string into parse elements, and parsing those
//! elements into an NFA.

use vstd::prelude::*;

use crate::nfa::{atom_edges, concat_v, modifier_applied_v, refresh_v, Edge, Nfa, NfaV};
use crate::transition_table::{StateCounter, Transition};

verus! {

/// Whether `c` is a decimal digit.
pub open spec fn is_digit(c: char) -> bool {
    48 <= c as u32 <= 57
}

/// The value of the decimal digit `c`.
pub open spec fn digit_val(c: char) -> u64 {
    (c as u32 - 48) as u64
}

/// The value of `c` as a hexadecimal digit, if it is one.
pub open spec fn hex_val(c: char) -> Option<u32> {
    let v = c as u32;
    if 48 <= v <= 57 {
        Some((v - 48) as u32)
    } else if 97 <= v <= 102 {
        Some((v - 87) as u32)
    } else if 65 <= v <= 70 {
        Some((v - 55) as u32)
    } else {
        None
    }
}

/// Whether `v` is a Unicode scalar value, that is, a code point that is
/// no surrogate.
pub open spec fn valid_code(v: u32) -> bool {
    v <= 0x10FFFF && !(0xD800 <= v <= 0xDFFF)
}

/// The characters with code points from `lo` through `hi`, all assumed
/// to be valid; used for the ASCII shorthand classes.
pub open spec fn char_range_seq(lo: int, hi: int) -> Seq<char>
    decreases hi - lo + 1,
{
    if lo > hi {
        Seq::empty()
    } else {
        seq![lo as char] + char_range_seq(lo + 1, hi)
    }
}

/// Extending an ASCII range on the right appends one character.
proof fn lemma_char_range_snoc(lo: int, hi: int)
    requires
        lo <= hi,
    ensures
        char_range_seq(lo, hi) == char_range_seq(lo, hi - 1).push(hi as char),
    decreases hi - lo,
{
    if lo == hi {
        assert(char_range_seq(lo + 1, hi) =~= Seq::<char>::empty());
        assert(char_range_seq(lo, hi - 1) =~= Seq::<char>::empty());
        assert(char_range_seq(lo, hi) =~= char_range_seq(lo, hi - 1).push(hi as char));
    } else {
        lemma_char_range_snoc(lo + 1, hi);
        assert(char_range_seq(lo, hi - 1) =~= seq![lo as char] + char_range_seq(lo + 1, hi - 1));
        assert(char_range_seq(lo, hi) =~= char_range_seq(lo, hi - 1).push(hi as char));
    }
}

/// The characters with code points from `lo` through `hi`, skipping
/// surrogates; used for `-` ranges in bracket classes.
pub open spec fn char_span(lo: int, hi: int) -> Seq<char>
    decreases hi - lo + 1,
{
    if lo > hi {
        Seq::empty()
    } else {
        (if valid_code(lo as u32) && 0 <= lo {
            seq![lo as char]
        } else {
            Seq::empty()
        }) + char_span(lo + 1, hi)
    }
}

/// Extending a span on the right appends at most one character.
proof fn lemma_char_span_snoc(lo: int, hi: int)
    requires
        lo <= hi,
    ensures
        char_span(lo, hi) == char_span(lo, hi - 1) + (if valid_code(hi as u32) && 0 <= hi {
            seq![hi as char]
        } else {
            Seq::empty()
        }),
    decreases hi - lo,
{
    if lo == hi {
        assert(char_span(lo + 1, hi) =~= Seq::<char>::empty());
        assert(char_span(lo, hi - 1) =~= Seq::<char>::empty());
        assert(char_span(lo, hi) =~= char_span(lo, hi - 1) + (if valid_code(hi as u32) && 0 <= hi {
            seq![hi as char]
        } else {
            Seq::empty()
        }));
    } else {
        lemma_char_span_snoc(lo + 1, hi);
        assert(char_span(lo, hi - 1) =~= (if valid_code(lo as u32) && 0 <= lo {
            seq![lo as char]
        } else {
            Seq::empty()
        }) + char_span(lo + 1, hi - 1));
        assert(char_span(lo, hi) =~= char_span(lo, hi - 1) + (if valid_code(hi as u32) && 0 <= hi {
            seq![hi as char]
        } else {
            Seq::empty()
        }));
    }
}

/// The characters of a shorthand class: `\w` is `[A-Za-z0-9_]`, `\d` is
/// `[0-9]`, and `\s` is a space or a tab.
pub open spec fn class_chars(c: char) -> Seq<char> {
    if c == 'w' {
        char_range_seq(65, 90) + char_range_seq(97, 122) + char_range_seq(48, 57) + seq!['_']
    } else if c == 'd' {
        char_range_seq(48, 57)
    } else {
        seq![' ', '\t']
    }
}

/// Whether `c` names a shorthand class.
pub open spec fn is_class_char(c: char) -> bool {
    c == 'w' || c == 'd' || c == 's'
}

/// Whether `c` is a meta character that a backslash escapes to itself.
pub open spec fn is_meta(c: char) -> bool {
    ||| c == '.'
    ||| c == '*'
    ||| c == '+'
    ||| c == '?'
    ||| c == '{'
    ||| c == '}'
    ||| c == '|'
    ||| c == '^'
    ||| c == '$'
    ||| c == '('
    ||| c == ')'
    ||| c == '['
    ||| c == ']'
    ||| c == '-'
    ||| c == '\\'
}

/// The character denoted by the escape starting at `i` (the position
/// just after the backslash), with the position after it: a meta
/// character stands for itself, `t` for a tab, `x` takes two hex digits
/// and `u` four.
pub open spec fn spec_escaped(cs: Seq<char>, i: int) -> Result<(char, int), CompileError> {
    if i >= cs.len() {
        Err(CompileError::UnexpectedEnd)
    } else {
        let c = cs[i];
        if is_meta(c) {
            Ok((c, i + 1))
        } else if c == 't' {
            Ok(('\t', i + 1))
        } else if c == 'x' {
            if cs.len() - i <= 2 {
                Err(CompileError::UnexpectedEnd)
            } else {
                match (hex_val(cs[i + 1]), hex_val(cs[i + 2])) {
                    (Some(h1), Some(h2)) => Ok((((h1 * 16 + h2) as u32) as char, i + 3)),
                    (None, _) => Err(CompileError::UnknownEscape(cs[i + 1])),
                    (_, None) => Err(CompileError::UnknownEscape(cs[i + 2])),
                }
            }
        } else if c == 'u' {
            if cs.len() - i <= 4 {
                Err(CompileError::UnexpectedEnd)
            } else {
                match (hex_val(cs[i + 1]), hex_val(cs[i + 2]), hex_val(cs[i + 3]), hex_val(
                    cs[i + 4],
                )) {
                    (Some(h1), Some(h2), Some(h3), Some(h4)) => {
                        let code = ((h1 * 16 + h2) * 16 + h3) * 16 + h4;
                        if valid_code(code as u32) {
                            Ok(((code as u32) as char, i + 5))
                        } else {
                            Err(CompileError::InvalidCodePoint(code as u32))
                        }
                    },
                    (None, _, _, _) => Err(CompileError::UnknownEscape(cs[i + 1])),
                    (_, None, _, _) => Err(CompileError::UnknownEscape(cs[i + 2])),
                    (_, _, None, _) => Err(CompileError::UnknownEscape(cs[i + 3])),
                    (_, _, _, None) => Err(CompileError::UnknownEscape(cs[i + 4])),
                }
            }
        } else {
            Err(CompileError::UnknownEscape(c))
        }
    }
}

/// The ways compiling a pattern can fail.
#[derive(Debug, PartialEq, Eq, Structural)]
pub enum CompileError {
    /// The pattern ended where more characters were required.
    UnexpectedEnd,
    /// An escape sequence named an unknown character.
    UnknownEscape(char),
    /// A shorthand class other than `\w`, `\d` or `\s` was named.
    UnknownClass(char),
    /// A `\x` or `\u` escape named a code point that is no character.
    InvalidCodePoint(u32),
    /// A group was opened and never closed, or closed and never opened.
    UnbalancedGroup,
    /// A quantifier appeared with no atom before it.
    DanglingQuantifier,
    /// A backreference named a group that does not exist.
    BadBackReference(u64),
    /// A repetition count does not fit in 64 bits.
    NumberTooLarge,
    /// A bracket class held no characters.
    EmptyBracket,
    /// Subset construction needed more states than the budget allows.
    StateBudget,
}

/// One element of a lexed pattern.
#[derive(Debug)]
pub enum ParseElement {
    /// A single literal character.
    Literal(char),
    /// `.`, matching any one character.
    Wildcard,
    /// `*`, zero or more repetitions.
    Star,
    /// `+`, one or more repetitions.
    Plus,
    /// `?`, zero or one occurrence.
    Question,
    /// `{lo,hi}`, between `lo` and `hi` repetitions; `{n}` is `Range(n, n)`.
    Range(u64, u64),
    /// `{lo,}`, at least `lo` repetitions.
    OpenRange(u64),
    /// `|`, alternation between branches.
    Union,
    /// `(...)`, a group of elements.
    Group(Vec<ParseElement>),
    /// `[...]`, any one of a set of characters.
    Bracket(Vec<char>),
    /// `\n`, a structural copy of the `n`-th group.
    BackReference(u64),
}

/// The mathematical value of a [`ParseElement`]: the same shape with
/// mathematical sequences for the group and bracket contents.
pub ghost enum PElemV {
    Literal(char),
    Wildcard,
    Star,
    Plus,
    Question,
    Range(u64, u64),
    OpenRange(u64),
    Union,
    Group(Seq<PElemV>),
    Bracket(Seq<char>),
    BackReference(u64),
}

/// The mathematical value of one parse element.
pub open spec fn pe_view(e: ParseElement) -> PElemV
    decreases e,
    via pe_view_dec
{
    match e {
        ParseElement::Literal(c) => PElemV::Literal(c),
        ParseElement::Wildcard => PElemV::Wildcard,
        ParseElement::Star => PElemV::Star,
        ParseElement::Plus => PElemV::Plus,
        ParseElement::Question => PElemV::Question,
        ParseElement::Range(lo, hi) => PElemV::Range(lo, hi),
        ParseElement::OpenRange(lo) => PElemV::OpenRange(lo),
        ParseElement::Union => PElemV::Union,
        ParseElement::Group(v) => PElemV::Group(pes_view(v@)),
        ParseElement::Bracket(v) => PElemV::Bracket(v@),
        ParseElement::BackReference(n) => PElemV::BackReference(n),
    }
}

#[via_fn]
proof fn pe_view_dec(e: ParseElement) {
    broadcast use vstd::std_specs::vec::group_vec_axioms;
    broadcast use vstd::seq::group_seq_axioms;

    match e {
        ParseElement::Group(v) => {
            assert(decreases_to!(e => v));
            assert(decreases_to!(v => v@));
        }
        _ => {}
    }
}

/// The mathematical values of a sequence of parse elements.
pub open spec fn pes_view(s: Seq<ParseElement>) -> Seq<PElemV>
    decreases s,
{
    if s.len() == 0 {
        Seq::empty()
    } else {
        seq![pe_view(s[0])] + pes_view(s.drop_first())
    }
}

/// The mathematical values of a vector of parse elements.
pub open spec fn pes_of(v: Vec<ParseElement>) -> Seq<PElemV> {
    pes_view(v@)
}

/// Whether the mathematical element is a quantifier.
pub open spec fn is_modifier_pev(e: PElemV) -> bool {
    match e {
        PElemV::Star => true,
        PElemV::Plus => true,
        PElemV::Question => true,
        PElemV::Range(_, _) => true,
        PElemV::OpenRange(_) => true,
        _ => false,
    }
}

/// The position of the first decimal digit at or after `i`.
pub open spec fn skip_to_digit(cs: Seq<char>, i: int) -> Result<int, CompileError>
    decreases cs.len() - i,
{
    if i < 0 || i >= cs.len() {
        Err(CompileError::UnexpectedEnd)
    } else if is_digit(cs[i]) {
        Ok(i)
    } else {
        skip_to_digit(cs, i + 1)
    }
}

/// The number read from the digits at `i` onward, on top of the digits
/// already accumulated in `acc`, with the position after them.
pub open spec fn read_num(cs: Seq<char>, i: int, acc: u64) -> Result<(u64, int), CompileError>
    decreases cs.len() - i,
{
    if i < 0 || i >= cs.len() || !is_digit(cs[i]) {
        Ok((acc, i))
    } else {
        let v = acc * 10 + digit_val(cs[i]);
        if v > u64::MAX {
            Err(CompileError::NumberTooLarge)
        } else {
            read_num(cs, i + 1, v as u64)
        }
    }
}

/// The position of the first `,` or `}` at or after `i`.
pub open spec fn skip_to_comma_or_brace(cs: Seq<char>, i: int) -> Result<int, CompileError>
    decreases cs.len() - i,
{
    if i < 0 || i >= cs.len() {
        Err(CompileError::UnexpectedEnd)
    } else if cs[i] == ',' || cs[i] == '}' {
        Ok(i)
    } else {
        skip_to_comma_or_brace(cs, i + 1)
    }
}

/// Scans for the upper bound of a range: consumes characters until a
/// digit is in view, but a consumed `}` ends the range as open.
pub open spec fn scan_open(cs: Seq<char>, i: int) -> Result<(bool, int), CompileError>
    decreases cs.len() - i,
{
    if i < 0 || i >= cs.len() {
        Err(CompileError::UnexpectedEnd)
    } else if is_digit(cs[i]) {
        Ok((false, i))
    } else if cs[i] == '}' {
        Ok((true, i + 1))
    } else {
        scan_open(cs, i + 1)
    }
}

/// The position just after the first `}` at or after `i`.
pub open spec fn skip_past_brace(cs: Seq<char>, i: int) -> Result<int, CompileError>
    decreases cs.len() - i,
{
    if i < 0 || i >= cs.len() {
        Err(CompileError::UnexpectedEnd)
    } else if cs[i] == '}' {
        Ok(i + 1)
    } else {
        skip_past_brace(cs, i + 1)
    }
}

/// The repetition quantifier read from a `{...}` form, starting just
/// after the `{`, with the position after the closing `}`. Whitespace
/// (any non-digit) around the numbers is tolerated; `{n}` gives
/// `Range(n, n)`, `{n,}` gives `OpenRange(n)` and `{n,m}` gives
/// `Range(n, m)`.
pub open spec fn spec_lex_range(cs: Seq<char>, i: int) -> Result<(PElemV, int), CompileError> {
    match skip_to_digit(cs, i) {
        Err(e) => Err(e),
        Ok(j) => match read_num(cs, j, 0) {
            Err(e) => Err(e),
            Ok((minv, j2)) => match skip_to_comma_or_brace(cs, j2) {
                Err(e) => Err(e),
                Ok(j3) => if cs[j3] == '}' {
                    Ok((PElemV::Range(minv, minv), j3 + 1))
                } else {
                    match scan_open(cs, j3 + 1) {
                        Err(e) => Err(e),
                        Ok((true, j4)) => Ok((PElemV::OpenRange(minv), j4)),
                        Ok((false, j4)) => match read_num(cs, j4, 0) {
                            Err(e) => Err(e),
                            Ok((maxv, j5)) => match skip_past_brace(cs, j5) {
                                Err(e) => Err(e),
                                Ok(j6) => Ok((PElemV::Range(minv, maxv), j6)),
                            },
                        },
                    }
                },
            },
        },
    }
}

/// The characters collected by a `[...]` class starting at `i` (just
/// after the `[`), on top of those already collected in `vals`, with
/// the position after the closing `]`. Escapes and shorthand classes
/// are expanded; `-` between two characters denotes their span, and a
/// leading or trailing `-` stands for itself.
pub open spec fn spec_lex_bracket(cs: Seq<char>, i: int, vals: Seq<char>) -> Result<
    (Seq<char>, int),
    CompileError,
>
    decreases cs.len() - i,
{
    if i < 0 || i >= cs.len() {
        Err(CompileError::UnexpectedEnd)
    } else if cs[i] == ']' {
        Ok((vals, i + 1))
    } else if cs[i] == '\\' {
        if i + 1 >= cs.len() {
            Err(CompileError::UnexpectedEnd)
        } else if is_class_char(cs[i + 1]) {
            spec_lex_bracket(cs, i + 2, vals + class_chars(cs[i + 1]))
        } else {
            match spec_escaped(cs, i + 1) {
                Err(e) => Err(e),
                Ok((ch, ni)) => if i < ni <= cs.len() {
                    spec_lex_bracket(cs, ni, vals.push(ch))
                } else {
                    Err(CompileError::UnexpectedEnd)
                },
            }
        }
    } else if cs[i] == '-' {
        if vals.len() == 0 {
            spec_lex_bracket(cs, i + 1, vals.push('-'))
        } else if i + 1 >= cs.len() {
            Err(CompileError::UnexpectedEnd)
        } else if cs[i + 1] == ']' {
            spec_lex_bracket(cs, i + 1, vals.push('-'))
        } else {
            let prev = vals.last();
            spec_lex_bracket(
                cs,
                i + 2,
                vals.drop_last() + char_span((prev as u32) as int, (cs[i + 1] as u32) as int),
            )
        }
    } else {
        spec_lex_bracket(cs, i + 1, vals.push(cs[i]))
    }
}

/// The tokens lexed from `cs` starting at `i`, with the elements already
/// lexed for the current group in `curr` and the elements of enclosing
/// groups on `stack`. Each character either contributes one element, or
/// opens or closes a group; an unclosed or unopened group is an error.
pub open spec fn spec_lex(
    cs: Seq<char>,
    i: int,
    stack: Seq<Seq<PElemV>>,
    curr: Seq<PElemV>,
) -> Result<Seq<PElemV>, CompileError>
    decreases cs.len() - i,
{
    if i < 0 {
        Err(CompileError::UnexpectedEnd)
    } else if i >= cs.len() {
        if stack.len() > 0 {
            Err(CompileError::UnbalancedGroup)
        } else {
            Ok(curr)
        }
    } else {
        let c = cs[i];
        if c == '.' {
            spec_lex(cs, i + 1, stack, curr.push(PElemV::Wildcard))
        } else if c == '*' {
            spec_lex(cs, i + 1, stack, curr.push(PElemV::Star))
        } else if c == '+' {
            spec_lex(cs, i + 1, stack, curr.push(PElemV::Plus))
        } else if c == '?' {
            spec_lex(cs, i + 1, stack, curr.push(PElemV::Question))
        } else if c == '|' {
            spec_lex(cs, i + 1, stack, curr.push(PElemV::Union))
        } else if c == '{' {
            match spec_lex_range(cs, i + 1) {
                Err(e) => Err(e),
                Ok((pe, ni)) => if i < ni <= cs.len() {
                    spec_lex(cs, ni, stack, curr.push(pe))
                } else {
                    Err(CompileError::UnexpectedEnd)
                },
            }
        } else if c == '(' {
            spec_lex(cs, i + 1, stack.push(curr), Seq::empty())
        } else if c == ')' {
            if stack.len() == 0 {
                Err(CompileError::UnbalancedGroup)
            } else {
                spec_lex(cs, i + 1, stack.drop_last(), stack.last().push(PElemV::Group(curr)))
            }
        } else if c == '[' {
            match spec_lex_bracket(cs, i + 1, Seq::empty()) {
                Err(e) => Err(e),
                Ok((vals, ni)) => if i < ni <= cs.len() {
                    spec_lex(cs, ni, stack, curr.push(PElemV::Bracket(vals)))
                } else {
                    Err(CompileError::UnexpectedEnd)
                },
            }
        } else if c == '\\' {
            if i + 1 >= cs.len() {
                Err(CompileError::UnexpectedEnd)
            } else if is_class_char(cs[i + 1]) {
                spec_lex(cs, i + 2, stack, curr.push(PElemV::Bracket(class_chars(cs[i + 1]))))
            } else if is_digit(cs[i + 1]) {
                match read_num(cs, i + 1, 0) {
                    Err(e) => Err(e),
                    Ok((n, ni)) => if i < ni <= cs.len() {
                        spec_lex(cs, ni, stack, curr.push(PElemV::BackReference(n)))
                    } else {
                        Err(CompileError::UnexpectedEnd)
                    },
                }
            } else {
                match spec_escaped(cs, i + 1) {
                    Err(e) => Err(e),
                    Ok((ch, ni)) => if i < ni <= cs.len() {
                        spec_lex(cs, ni, stack, curr.push(PElemV::Literal(ch)))
                    } else {
                        Err(CompileError::UnexpectedEnd)
                    },
                }
            }
        } else {
            spec_lex(cs, i + 1, stack, curr.push(PElemV::Literal(c)))
        }
    }
}

/// The parse elements of a whole pattern.
pub open spec fn lex_spec(cs: Seq<char>) -> Result<Seq<PElemV>, CompileError> {
    spec_lex(cs, 0, Seq::empty(), Seq::empty())
}

/// The views of a stack of element groups.
pub open spec fn stack_views(st: Seq<Vec<ParseElement>>) -> Seq<Seq<PElemV>> {
    Seq::new(st.len(), |k: int| pes_of(st[k]))
}

/// The structural size of a mathematical parse element; groups count
/// their contents.
pub open spec fn pev_size(e: PElemV) -> nat
    decreases e,
{
    match e {
        PElemV::Group(v) => 1 + pevs_size(v),
        _ => 1,
    }
}

/// The total structural size of a sequence of elements.
pub open spec fn pevs_size(s: Seq<PElemV>) -> nat
    decreases s,
{
    if s.len() == 0 {
        0
    } else {
        pev_size(s[0]) + pevs_size(s.drop_first())
    }
}

/// Every element's size takes part in the total.
proof fn lemma_pevs_size_element(s: Seq<PElemV>, i: int)
    requires
        0 <= i < s.len(),
    ensures
        pev_size(s[i]) <= pevs_size(s),
    decreases s.len(),
{
    if i > 0 {
        lemma_pevs_size_element(s.drop_first(), i - 1);
        assert(s.drop_first()[i - 1] == s[i]);
    }
}

/// The mathematical value of the empty seed automaton.
pub open spec fn empty_nfa_v() -> NfaV {
    NfaV { edges: Seq::empty(), empty: true }
}

/// The value of folding one automaton into another by union: the edge
/// tables are merged.
pub open spec fn union_v(a: NfaV, b: NfaV) -> NfaV {
    NfaV { edges: a.edges + b.edges, empty: a.empty }
}

/// The value of repeatedly unioning the tops of the alternation stack
/// into the current automaton, emptying the stack.
pub open spec fn fold_unions(cur: NfaV, stack: Seq<NfaV>) -> NfaV
    decreases stack.len(),
{
    if stack.len() == 0 {
        cur
    } else {
        fold_unions(union_v(cur, stack.last()), stack.drop_last())
    }
}

/// The edges of a bracket class automaton: one atom per character, from
/// index `j` downward, merged by union.
pub open spec fn bracket_seg(chv: Seq<char>, hi: int, lo: int) -> Seq<Edge>
    decreases hi - lo + 1,
{
    if hi < lo {
        Seq::empty()
    } else {
        atom_edges(Transition::Literal(chv[hi])) + bracket_seg(chv, hi - 1, lo)
    }
}

/// Raising the lower bound of a bracket segment splits off its last atom.
proof fn lemma_bracket_seg_low(chv: Seq<char>, hi: int, lo: int)
    requires
        lo <= hi,
    ensures
        bracket_seg(chv, hi, lo) == bracket_seg(chv, hi, lo + 1) + atom_edges(
            Transition::Literal(chv[lo]),
        ),
    decreases hi - lo,
{
    if lo == hi {
        assert(bracket_seg(chv, hi, lo + 1) =~= Seq::<Edge>::empty());
        assert(bracket_seg(chv, hi - 1, lo) =~= Seq::<Edge>::empty());
        assert(bracket_seg(chv, hi, lo) =~= bracket_seg(chv, hi, lo + 1) + atom_edges(
            Transition::Literal(chv[lo]),
        ));
    } else {
        lemma_bracket_seg_low(chv, hi - 1, lo);
        assert(bracket_seg(chv, hi, lo) =~= bracket_seg(chv, hi, lo + 1) + atom_edges(
            Transition::Literal(chv[lo]),
        ));
    }
}

/// The parse element denoted by a quantifier view; quantifier views
/// carry no nested vectors, so the element can be rebuilt exactly.
pub open spec fn pev_to_elem(m: PElemV) -> ParseElement {
    match m {
        PElemV::Star => ParseElement::Star,
        PElemV::Plus => ParseElement::Plus,
        PElemV::Question => ParseElement::Question,
        PElemV::Range(lo, hi) => ParseElement::Range(lo, hi),
        PElemV::OpenRange(lo) => ParseElement::OpenRange(lo),
        _ => ParseElement::Star,
    }
}

/// A quantifier's view rebuilds to the quantifier itself, and viewing
/// preserves being a quantifier.
proof fn lemma_modifier_view(e: ParseElement)
    ensures
        is_modifier_v(e) == is_modifier_pev(pe_view(e)),
        is_modifier_v(e) ==> pev_to_elem(pe_view(e)) == e,
{
}

/// The mathematical values of a stack of automata.
pub open spec fn nfas_views(st: Seq<Nfa>) -> Seq<NfaV> {
    Seq::new(st.len(), |k: int| st[k]@)
}

/// The automaton parsed from the elements of `toks` from index `i` on,
/// with the automaton built so far for the current branch in `cur`, the
/// previous alternation branches on `ustack`, the group automata
/// recorded so far in `groups`, and the fresh-id counter at `c`.
///
/// Each atom is built, has a following quantifier applied, and is
/// concatenated onto the current automaton; `|` pushes the current
/// branch; at the end the branches are merged by union. A quantifier
/// with no preceding atom, a backreference to a missing group and an
/// empty bracket class are errors.
pub open spec fn spec_parse_at(
    toks: Seq<PElemV>,
    i: int,
    cur: NfaV,
    ustack: Seq<NfaV>,
    groups: Seq<NfaV>,
    c: u64,
) -> Result<(NfaV, u64), CompileError>
    decreases toks, toks.len() - i,
{
    if i < 0 {
        Err(CompileError::DanglingQuantifier)
    } else if i >= toks.len() {
        Ok((fold_unions(cur, ustack), c))
    } else {
        let has_mod = i + 1 < toks.len() && is_modifier_pev(toks[i + 1]);
        let mo = if has_mod {
            Some(pev_to_elem(toks[i + 1]))
        } else {
            None
        };
        let ni = if has_mod {
            i + 2
        } else {
            i + 1
        };
        match toks[i] {
            PElemV::Literal(ch) => {
                let t = modifier_applied_v(
                    NfaV { edges: atom_edges(Transition::Literal(ch)), empty: false },
                    mo,
                    c,
                );
                let cc = concat_v(cur, t.0, t.1);
                spec_parse_at(toks, ni, cc.0, ustack, groups, cc.1)
            },
            PElemV::Wildcard => {
                let t = modifier_applied_v(
                    NfaV { edges: atom_edges(Transition::Wildcard), empty: false },
                    mo,
                    c,
                );
                let cc = concat_v(cur, t.0, t.1);
                spec_parse_at(toks, ni, cc.0, ustack, groups, cc.1)
            },
            PElemV::Union => {
                spec_parse_at(toks, ni, empty_nfa_v(), ustack.push(cur), groups, c)
            },
            PElemV::Bracket(chv) => {
                if chv.len() == 0 {
                    Err(CompileError::EmptyBracket)
                } else {
                    let bn = NfaV {
                        edges: bracket_seg(chv, chv.len() - 1, 0),
                        empty: false,
                    };
                    let t = modifier_applied_v(bn, mo, c);
                    let cc = concat_v(cur, t.0, t.1);
                    spec_parse_at(toks, ni, cc.0, ustack, groups, cc.1)
                }
            },
            PElemV::Group(inner) => {
                match spec_parse_at(inner, 0, empty_nfa_v(), Seq::empty(), Seq::empty(), c) {
                    Err(e) => Err(e),
                    Ok((gv, c1)) => {
                        let t = modifier_applied_v(gv, mo, c1);
                        let cc = concat_v(cur, t.0, t.1);
                        spec_parse_at(toks, ni, cc.0, ustack, groups.push(gv), cc.1)
                    },
                }
            },
            PElemV::BackReference(n) => {
                if n < 1 || n > groups.len() {
                    Err(CompileError::BadBackReference(n))
                } else {
                    let r = refresh_v(groups[n - 1], c);
                    let t = modifier_applied_v(r.0, mo, r.1);
                    let cc = concat_v(cur, t.0, t.1);
                    spec_parse_at(toks, ni, cc.0, ustack, groups, cc.1)
                }
            },
            _ => Err(CompileError::DanglingQuantifier),
        }
    }
}

/// The automaton parsed from a whole element sequence.
pub open spec fn spec_parse(toks: Seq<PElemV>, c: u64) -> Result<(NfaV, u64), CompileError> {
    spec_parse_at(toks, 0, empty_nfa_v(), Seq::empty(), Seq::empty(), c)
}

/// Appends a literal element, extending the view by the literal.
fn push_literal(curr: &mut Vec<ParseElement>, c: char)
    ensures
        pes_view(final(curr)@) == pes_view(old(curr)@).push(PElemV::Literal(c)),
{
    proof {
        lemma_pes_view_push(curr@, ParseElement::Literal(c));
    }
    curr.push(ParseElement::Literal(c));
}



/// The character at position `i`.
fn char_at(cs: &Vec<char>, i: usize) -> (r: char)
    requires
        i < cs@.len(),
    ensures
        r == cs@[i as int],
{
    cs[i]
}





/// Pushing an element extends the pointwise view by its view.
proof fn lemma_pes_view_push(s: Seq<ParseElement>, e: ParseElement)
    ensures
        pes_view(s.push(e)) == pes_view(s).push(pe_view(e)),
{
    lemma_pes_view(s);
    lemma_pes_view(s.push(e));
    assert forall|k: int| 0 <= k < s.len() + 1 implies pes_view(s.push(e))[k] == pes_view(s).push(
        pe_view(e),
    )[k] by {
        if k < s.len() {
            assert(s.push(e)[k] == s[k]);
        } else {
            assert(s.push(e)[k] == e);
        }
    }
    assert(pes_view(s.push(e)) =~= pes_view(s).push(pe_view(e)));
}

/// Relies on `char::from_u32` from std: it returns `Some` exactly for
/// Unicode scalar values (code points outside the surrogate range), and
/// the returned character has the given code point.
#[verifier::external_body]
fn char_from_u32(v: u32) -> (r: Option<char>)
    ensures
        r == (if valid_code(v) {
            Some(v as char)
        } else {
            None::<char>
        }),
{
    char::from_u32(v)
}

/// The value of `c` as a hexadecimal digit, per [`hex_val`].
fn hex_digit(c: char) -> (r: Option<u32>)
    ensures
        r == hex_val(c),
{
    let v = c as u32;
    if 48 <= v && v <= 57 {
        Some(v - 48)
    } else if 97 <= v && v <= 102 {
        Some(v - 87)
    } else if 65 <= v && v <= 70 {
        Some(v - 55)
    } else {
        None
    }
}

/// Whether `c` is a decimal digit, per [`is_digit`].
fn digit_char(c: char) -> (r: bool)
    ensures
        r == is_digit(c),
{
    let v = c as u32;
    48 <= v && v <= 57
}

/// Appends the ASCII characters with code points `lo` through `hi`.
fn push_ascii_range(out: &mut Vec<char>, lo: u8, hi: u8)
    requires
        lo <= hi,
    ensures
        final(out)@ == old(out)@ + char_range_seq(lo as int, hi as int),
{
    let mut b: u8 = lo;
    while b < hi
        invariant
            lo <= b <= hi,
            out@ == old(out)@ + char_range_seq(lo as int, b as int - 1),
        decreases hi - b,
    {
        out.push(b as char);
        proof {
            lemma_char_range_snoc(lo as int, b as int);
            assert(out@ =~= old(out)@ + char_range_seq(lo as int, b as int));
        }
        b = b + 1;
    }
    out.push(hi as char);
    proof {
        lemma_char_range_snoc(lo as int, hi as int);
        assert(out@ =~= old(out)@ + char_range_seq(lo as int, hi as int));
    }
}

/// The characters of the shorthand class named by `c`, per
/// [`class_chars`].
fn get_character_class(c: char) -> (r: Vec<char>)
    requires
        is_class_char(c),
    ensures
        r@ == class_chars(c),
{
    let mut values: Vec<char> = Vec::new();
    if c == 'w' {
        push_ascii_range(&mut values, 65, 90);
        push_ascii_range(&mut values, 97, 122);
        push_ascii_range(&mut values, 48, 57);
        values.push('_');
        proof {
            assert(values@ =~= class_chars(c));
        }
    } else if c == 'd' {
        push_ascii_range(&mut values, 48, 57);
        proof {
            assert(values@ =~= class_chars(c));
        }
    } else {
        values.push(' ');
        values.push('\t');
        proof {
            assert(values@ =~= class_chars(c));
        }
    }
    values
}

/// Reads one escape sequence starting at `i` (just after the
/// backslash), per [`spec_escaped`].
fn get_escaped(cs: &Vec<char>, i: usize) -> (r: Result<(char, usize), CompileError>)
    ensures
        match r {
            Ok(p) => Some((p.0, p.1 as int)) == spec_escaped(cs@, i as int).ok() && i < p.1
                <= cs@.len(),
            Err(e) => spec_escaped(cs@, i as int) == Err::<(char, int), CompileError>(e),
        },
{
    if i >= cs.len() {
        return Err(CompileError::UnexpectedEnd);
    }
    let c = cs[i];
    let v = c as u32;
    let meta = c == '.' || c == '*' || c == '+' || c == '?' || c == '{' || c == '}' || c == '|'
        || c == '^' || c == '$' || c == '(' || c == ')' || c == '[' || c == ']' || c == '-' || c
        == '\\';
    if meta {
        Ok((c, i + 1))
    } else if c == 't' {
        Ok(('\t', i + 1))
    } else if c == 'x' {
        if cs.len() - i <= 2 {
            return Err(CompileError::UnexpectedEnd);
        }
        let h1 = match hex_digit(cs[i + 1]) {
            Some(h) => h,
            None => {
                return Err(CompileError::UnknownEscape(cs[i + 1]));
            }
        };
        let h2 = match hex_digit(cs[i + 2]) {
            Some(h) => h,
            None => {
                return Err(CompileError::UnknownEscape(cs[i + 2]));
            }
        };
        let code = h1 * 16 + h2;
        match char_from_u32(code) {
            Some(ch) => Ok((ch, i + 3)),
            None => {
                // two hex digits stay below 256, always a valid character
                proof {
                    assert(false);
                }
                Err(CompileError::InvalidCodePoint(code))
            }
        }
    } else if c == 'u' {
        if cs.len() - i <= 4 {
            return Err(CompileError::UnexpectedEnd);
        }
        let h1 = match hex_digit(cs[i + 1]) {
            Some(h) => h,
            None => {
                return Err(CompileError::UnknownEscape(cs[i + 1]));
            }
        };
        let h2 = match hex_digit(cs[i + 2]) {
            Some(h) => h,
            None => {
                return Err(CompileError::UnknownEscape(cs[i + 2]));
            }
        };
        let h3 = match hex_digit(cs[i + 3]) {
            Some(h) => h,
            None => {
                return Err(CompileError::UnknownEscape(cs[i + 3]));
            }
        };
        let h4 = match hex_digit(cs[i + 4]) {
            Some(h) => h,
            None => {
                return Err(CompileError::UnknownEscape(cs[i + 4]));
            }
        };
        let code = ((h1 * 16 + h2) * 16 + h3) * 16 + h4;
        match char_from_u32(code) {
            Some(ch) => Ok((ch, i + 5)),
            None => Err(CompileError::InvalidCodePoint(code)),
        }
    } else {
        Err(CompileError::UnknownEscape(c))
    }
}

/// The view of a sequence of parse elements is pointwise.
pub proof fn lemma_pes_view(s: Seq<ParseElement>)
    ensures
        pes_view(s).len() == s.len(),
        forall|k: int| 0 <= k < s.len() ==> pes_view(s)[k] == pe_view(#[trigger] s[k]),
    decreases s,
{
    if s.len() > 0 {
        lemma_pes_view(s.drop_first());
        assert forall|k: int| 0 <= k < s.len() implies pes_view(s)[k] == pe_view(
            #[trigger] s[k],
        ) by {
            if k > 0 {
                assert(s.drop_first()[k - 1] == s[k]);
            }
        }
    }
}

/// Reads one `{...}` quantifier starting just after the `{`, per
/// [`spec_lex_range`].
fn lex_range(cs: &Vec<char>, i: usize) -> (r: Result<(ParseElement, usize), CompileError>)
    ensures
        match r {
            Ok(p) => Some((pe_view(p.0), p.1 as int)) == spec_lex_range(cs@, i as int).ok() && i
                < p.1 <= cs@.len(),
            Err(e) => spec_lex_range(cs@, i as int) == Err::<(PElemV, int), CompileError>(e),
        },
{
    let ghost i0 = i as int;
    // find the first digit
    let mut j: usize = i;
    while j < cs.len() && !digit_char(cs[j])
        invariant
            i <= j,
            skip_to_digit(cs@, i0) == skip_to_digit(cs@, j as int),
        decreases cs@.len() - j,
    {
        j = j + 1;
    }
    if j >= cs.len() {
        return Err(CompileError::UnexpectedEnd);
    }
    let ghost jd = j as int;
    proof {
        assert(skip_to_digit(cs@, i0) == Ok::<int, CompileError>(jd));
    }
    // read the lower bound
    let mut minv: u64 = 0;
    while j < cs.len() && digit_char(cs[j])
        invariant
            jd <= j,
            j <= cs@.len(),
            skip_to_digit(cs@, i as int) == Ok::<int, CompileError>(jd),
            read_num(cs@, jd, 0) == read_num(cs@, j as int, minv),
        decreases cs@.len() - j,
    {
        let d = (cs[j] as u32 - 48) as u64;
        let v: u128 = (minv as u128) * 10 + (d as u128);
        if v > u64::MAX as u128 {
            proof {
                assert(read_num(cs@, j as int, minv) == Err::<(u64, int), CompileError>(
                    CompileError::NumberTooLarge,
                ));
            }
            return Err(CompileError::NumberTooLarge);
        }
        minv = v as u64;
        j = j + 1;
    }
    let ghost j2 = j as int;
    proof {
        assert(read_num(cs@, jd, 0) == Ok::<(u64, int), CompileError>((minv, j2)));
    }
    // find the comma or closing brace
    while j < cs.len() && !(cs[j] == ',' || cs[j] == '}')
        invariant
            j2 <= j,
            skip_to_comma_or_brace(cs@, j2) == skip_to_comma_or_brace(cs@, j as int),
        decreases cs@.len() - j,
    {
        j = j + 1;
    }
    if j >= cs.len() {
        return Err(CompileError::UnexpectedEnd);
    }
    let ghost j3 = j as int;
    proof {
        assert(skip_to_comma_or_brace(cs@, j2) == Ok::<int, CompileError>(j3));
    }
    if cs[j] == '}' {
        // an exact repetition count
        return Ok((ParseElement::Range(minv, minv), j + 1));
    }
    // the comma is consumed; scan for an upper bound or a closing brace
    j = j + 1;
    let ghost j3c = j as int;
    while j < cs.len() && !digit_char(cs[j]) && !(cs[j] == '}')
        invariant
            j3c <= j,
            scan_open(cs@, j3c) == scan_open(cs@, j as int),
        decreases cs@.len() - j,
    {
        j = j + 1;
    }
    if j >= cs.len() {
        return Err(CompileError::UnexpectedEnd);
    }
    if cs[j] == '}' {
        proof {
            assert(scan_open(cs@, j3c) == Ok::<(bool, int), CompileError>((true, j + 1)));
        }
        return Ok((ParseElement::OpenRange(minv), j + 1));
    }
    let ghost j4 = j as int;
    proof {
        assert(scan_open(cs@, j3c) == Ok::<(bool, int), CompileError>((false, j4)));
    }
    // read the upper bound
    let mut maxv: u64 = 0;
    while j < cs.len() && digit_char(cs[j])
        invariant
            j4 <= j,
            j <= cs@.len(),
            skip_to_digit(cs@, i as int) == Ok::<int, CompileError>(jd),
            read_num(cs@, jd, 0) == Ok::<(u64, int), CompileError>((minv, j2)),
            skip_to_comma_or_brace(cs@, j2) == Ok::<int, CompileError>(j3),
            0 <= j3 < cs@.len() && cs@[j3] != '}',
            j3c == j3 + 1,
            scan_open(cs@, j3c) == Ok::<(bool, int), CompileError>((false, j4)),
            read_num(cs@, j4, 0) == read_num(cs@, j as int, maxv),
        decreases cs@.len() - j,
    {
        let d = (cs[j] as u32 - 48) as u64;
        let v: u128 = (maxv as u128) * 10 + (d as u128);
        if v > u64::MAX as u128 {
            proof {
                assert(read_num(cs@, j as int, maxv) == Err::<(u64, int), CompileError>(
                    CompileError::NumberTooLarge,
                ));
            }
            return Err(CompileError::NumberTooLarge);
        }
        maxv = v as u64;
        j = j + 1;
    }
    let ghost j5 = j as int;
    proof {
        assert(read_num(cs@, j4, 0) == Ok::<(u64, int), CompileError>((maxv, j5)));
    }
    // consume through the closing brace
    while j < cs.len() && !(cs[j] == '}')
        invariant
            j5 <= j,
            skip_past_brace(cs@, j5) == skip_past_brace(cs@, j as int),
        decreases cs@.len() - j,
    {
        j = j + 1;
    }
    if j >= cs.len() {
        return Err(CompileError::UnexpectedEnd);
    }
    proof {
        assert(skip_past_brace(cs@, j5) == Ok::<int, CompileError>(j + 1));
    }
    Ok((ParseElement::Range(minv, maxv), j + 1))
}

/// Reads one `[...]` class starting just after the `[`, per
/// [`spec_lex_bracket`].
fn lex_bracket(cs: &Vec<char>, i: usize) -> (r: Result<(Vec<char>, usize), CompileError>)
    ensures
        match r {
            Ok(p) => ({
                &&& spec_lex_bracket(cs@, i as int, Seq::empty()) matches Ok(q) && q.0 == p.0@
                    && q.1 == p.1 as int
                &&& i < p.1 <= cs@.len()
            }),
            Err(e) => spec_lex_bracket(cs@, i as int, Seq::empty()) == Err::<
                (Seq<char>, int),
                CompileError,
            >(e),
        },
{
    let ghost i0 = i as int;
    let mut vals: Vec<char> = Vec::new();
    let mut j: usize = i;
    loop
        invariant
            i <= j,
            spec_lex_bracket(cs@, i as int, Seq::empty()) == spec_lex_bracket(
                cs@,
                j as int,
                vals@,
            ),
        decreases cs@.len() - j,
    {
        let ghost jb = j as int;
        let ghost valsb = vals@;
        if j >= cs.len() {
            proof {
                assert(spec_lex_bracket(cs@, jb, valsb) == Err::<(Seq<char>, int), CompileError>(
                    CompileError::UnexpectedEnd,
                ));
            }
            return Err(CompileError::UnexpectedEnd);
        }
        let c = cs[j];
        if c == ']' {
            proof {
                assert(spec_lex_bracket(cs@, jb, valsb) == Ok::<(Seq<char>, int), CompileError>(
                    (valsb, jb + 1),
                ));
            }
            return Ok((vals, j + 1));
        }
        if c == '\\' {
            if j + 1 >= cs.len() {
                proof {
                    assert(spec_lex_bracket(cs@, jb, valsb) == Err::<
                        (Seq<char>, int),
                        CompileError,
                    >(CompileError::UnexpectedEnd));
                }
                return Err(CompileError::UnexpectedEnd);
            }
            let c2 = cs[j + 1];
            if c2 == 'w' || c2 == 'd' || c2 == 's' {
                let cls = get_character_class(c2);
                let ghost vals0 = vals@;
                let mut k: usize = 0;
                while k < cls.len()
                    invariant
                        k <= cls.len(),
                        vals@ == vals0 + cls@.take(k as int),
                    decreases cls.len() - k,
                {
                    vals.push(cls[k]);
                    proof {
                        assert(vals@ =~= vals0 + cls@.take(k + 1));
                    }
                    k = k + 1;
                }
                proof {
                    assert(cls@.take(cls@.len() as int) =~= cls@);
                    assert(vals@ == vals0 + class_chars(c2));
                }
                j = j + 2;
                proof {
                    assert(spec_lex_bracket(cs@, jb, valsb) == spec_lex_bracket(
                        cs@,
                        j as int,
                        vals@,
                    ));
                }
            } else {
                match get_escaped(cs, j + 1) {
                    Ok((ch, ni)) => {
                        vals.push(ch);
                        j = ni;
                        proof {
                            assert(spec_lex_bracket(cs@, jb, valsb) == spec_lex_bracket(
                                cs@,
                                j as int,
                                vals@,
                            ));
                        }
                    }
                    Err(e) => {
                        proof {
                            assert(spec_lex_bracket(cs@, jb, valsb) == Err::<
                                (Seq<char>, int),
                                CompileError,
                            >(e));
                        }
                        return Err(e);
                    }
                }
            }
        } else if c == '-' {
            if vals.len() == 0 {
                vals.push('-');
                j = j + 1;
                proof {
                    assert(spec_lex_bracket(cs@, jb, valsb) == spec_lex_bracket(
                        cs@,
                        j as int,
                        vals@,
                    ));
                }
            } else if j + 1 >= cs.len() {
                proof {
                    assert(spec_lex_bracket(cs@, jb, valsb) == Err::<
                        (Seq<char>, int),
                        CompileError,
                    >(CompileError::UnexpectedEnd));
                }
                return Err(CompileError::UnexpectedEnd);
            } else if cs[j + 1] == ']' {
                vals.push('-');
                j = j + 1;
                proof {
                    assert(spec_lex_bracket(cs@, jb, valsb) == spec_lex_bracket(
                        cs@,
                        j as int,
                        vals@,
                    ));
                }
            } else {
                let prev = vals[vals.len() - 1];
                let ghost vals0 = vals@;
                let _ = vals.pop();
                proof {
                    assert(vals@ =~= vals0.drop_last());
                }
                let end = cs[j + 1];
                let ghost base = vals@;
                let pv = prev as u32;
                let ev = end as u32;
                if pv <= ev {
                    let mut cp: u32 = pv;
                    proof {
                        assert(vals@ =~= base + char_span(pv as int, pv as int - 1));
                    }
                    while cp < ev
                        invariant
                            pv <= cp <= ev,
                            vals@ == base + char_span(pv as int, cp as int - 1),
                        decreases ev - cp,
                    {
                        match char_from_u32(cp) {
                            Some(ch) => {
                                vals.push(ch);
                            }
                            None => {}
                        }
                        proof {
                            lemma_char_span_snoc(pv as int, cp as int);
                            assert(vals@ =~= base + char_span(pv as int, cp as int));
                        }
                        cp = cp + 1;
                    }
                    match char_from_u32(ev) {
                        Some(ch) => {
                            vals.push(ch);
                        }
                        None => {}
                    }
                    proof {
                        lemma_char_span_snoc(pv as int, ev as int);
                        assert(vals@ =~= base + char_span(pv as int, ev as int));
                    }
                } else {
                    proof {
                        assert(char_span(pv as int, ev as int) =~= Seq::<char>::empty());
                        assert(vals@ =~= base + char_span(pv as int, ev as int));
                    }
                }
                j = j + 2;
                proof {
                    assert(prev == valsb.last());
                    assert(spec_lex_bracket(cs@, jb, valsb) == spec_lex_bracket(
                        cs@,
                        j as int,
                        vals@,
                    ));
                }
            }
        } else {
            vals.push(c);
            j = j + 1;
            proof {
                assert(spec_lex_bracket(cs@, jb, valsb) == spec_lex_bracket(cs@, j as int, vals@));
            }
        }
    }
}

/// Whether `e` is a quantifier that modifies the preceding atom.
pub open spec fn is_modifier_v(e: ParseElement) -> bool {
    match e {
        ParseElement::Star => true,
        ParseElement::Plus => true,
        ParseElement::Question => true,
        ParseElement::Range(_, _) => true,
        ParseElement::OpenRange(_) => true,
        _ => false,
    }
}

impl ParseElement {
    /// Whether this element is a quantifier (`*`, `+`, `?`, `{..}`).
    pub fn is_modifier(&self) -> (r: bool)
        ensures
            r == is_modifier_v(*self),
    {
        match self {
            ParseElement::Star => true,
            ParseElement::Plus => true,
            ParseElement::Question => true,
            ParseElement::Range(_, _) => true,
            ParseElement::OpenRange(_) => true,
            _ => false,
        }
    }
}

/// Lexes a pattern string into a sequence of parse elements, per
/// [`lex_spec`]: literals, quantifiers, alternation, nested groups,
/// bracket classes, shorthand classes, escapes and backreferences.
#[verifier::rlimit(50)]
pub fn lex(input: String) -> (r: Result<Vec<ParseElement>, CompileError>)
    ensures
        match r {
            Ok(v) => lex_spec(input@) == Ok::<Seq<PElemV>, CompileError>(pes_of(v)),
            Err(e) => lex_spec(input@) == Err::<Seq<PElemV>, CompileError>(e),
        },
{
    broadcast use vstd::seq::group_seq_axioms;

    let cs = crate::transition_table::to_char_vec(&input);
    let mut stack: Vec<Vec<ParseElement>> = Vec::new();
    let mut curr: Vec<ParseElement> = Vec::new();
    let mut i: usize = 0;
    proof {
        assert(stack_views(stack@) =~= Seq::<Seq<PElemV>>::empty());
        assert(pes_of(curr) =~= Seq::<PElemV>::empty());
    }
    loop
        invariant
            cs@ == input@,
            i <= cs@.len(),
            spec_lex(cs@, i as int, stack_views(stack@), pes_of(curr)) == lex_spec(input@),
        decreases cs@.len() - i,
    {
        broadcast use vstd::seq::group_seq_axioms;

        let ghost ib = i as int;
        let ghost stb = stack_views(stack@);
        let ghost cb = pes_of(curr);
        if i >= cs.len() {
            if stack.len() > 0 {
                proof {
                    assert(stb.len() > 0);
                }
                return Err(CompileError::UnbalancedGroup);
            }
            proof {
                assert(stb.len() == 0);
                assert(spec_lex(cs@, ib, stb, cb) == Ok::<Seq<PElemV>, CompileError>(cb));
            }
            return Ok(curr);
        }
        let c = char_at(&cs, i);
        if c == '.' {
            proof {
                lemma_pes_view_push(curr@, ParseElement::Wildcard);
            }
            curr.push(ParseElement::Wildcard);
            i = i + 1;
            proof {
                assert(spec_lex(cs@, ib, stb, cb) == spec_lex(
                    cs@,
                    i as int,
                    stack_views(stack@),
                    pes_of(curr),
                ));
            }
        } else if c == '*' {
            proof {
                lemma_pes_view_push(curr@, ParseElement::Star);
            }
            curr.push(ParseElement::Star);
            i = i + 1;
            proof {
                assert(spec_lex(cs@, ib, stb, cb) == spec_lex(
                    cs@,
                    i as int,
                    stack_views(stack@),
                    pes_of(curr),
                ));
            }
        } else if c == '+' {
            proof {
                lemma_pes_view_push(curr@, ParseElement::Plus);
            }
            curr.push(ParseElement::Plus);
            i = i + 1;
            proof {
                assert(spec_lex(cs@, ib, stb, cb) == spec_lex(
                    cs@,
                    i as int,
                    stack_views(stack@),
                    pes_of(curr),
                ));
            }
        } else if c == '?' {
            proof {
                lemma_pes_view_push(curr@, ParseElement::Question);
            }
            curr.push(ParseElement::Question);
            i = i + 1;
            proof {
                assert(spec_lex(cs@, ib, stb, cb) == spec_lex(
                    cs@,
                    i as int,
                    stack_views(stack@),
                    pes_of(curr),
                ));
            }
        } else if c == '|' {
            proof {
                lemma_pes_view_push(curr@, ParseElement::Union);
            }
            curr.push(ParseElement::Union);
            i = i + 1;
            proof {
                assert(spec_lex(cs@, ib, stb, cb) == spec_lex(
                    cs@,
                    i as int,
                    stack_views(stack@),
                    pes_of(curr),
                ));
            }
        } else if c == '{' {
            match lex_range(&cs, i + 1) {
                Ok((pe, ni)) => {
                    proof {
                        lemma_pes_view_push(curr@, pe);
                    }
                    curr.push(pe);
                    i = ni;
                    proof {
                        assert(spec_lex(cs@, ib, stb, cb) == spec_lex(
                            cs@,
                            i as int,
                            stack_views(stack@),
                            pes_of(curr),
                        ));
                    }
                }
                Err(e) => {
                    return Err(e);
                }
            }
        } else if c == '(' {
            let ghost st0 = stack@;
            stack.push(curr);
            curr = Vec::new();
            proof {
                assert(stack_views(stack@) =~= stb.push(cb)) by {
                    assert forall|k: int| 0 <= k < stack@.len() implies stack_views(stack@)[k]
                        == stb.push(cb)[k] by {
                        if k < st0.len() {
                            assert(stack@[k] == st0[k]);
                        }
                    }
                }
                assert(pes_of(curr) =~= Seq::<PElemV>::empty());
            }
            i = i + 1;
            proof {
                assert(spec_lex(cs@, ib, stb, cb) == spec_lex(
                    cs@,
                    i as int,
                    stack_views(stack@),
                    pes_of(curr),
                ));
            }
        } else if c == ')' {
            if stack.len() == 0 {
                proof {
                    assert(stb.len() == 0);
                }
                return Err(CompileError::UnbalancedGroup);
            }
            let ghost st0 = stack@;
            let inner = curr;
            let mut top = match stack.pop() {
                Some(t) => t,
                None => {
                    proof {
                        assert(false);
                    }
                    Vec::new()
                }
            };
            proof {
                assert(pe_view(ParseElement::Group(inner)) == PElemV::Group(cb));
                lemma_pes_view_push(top@, ParseElement::Group(inner));
                assert(pes_of(top) == stb.last()) by {
                    assert(top@ == st0.last()@);
                    assert(stb[st0.len() - 1] == pes_of(st0[st0.len() - 1]));
                }
            }
            top.push(ParseElement::Group(inner));
            curr = top;
            proof {
                assert(stack_views(stack@) =~= stb.drop_last()) by {
                    assert forall|k: int| 0 <= k < stack@.len() implies stack_views(stack@)[k]
                        == stb.drop_last()[k] by {
                        assert(stack@[k] == st0[k]);
                    }
                }
                assert(pes_of(curr) == stb.last().push(PElemV::Group(cb)));
            }
            i = i + 1;
            proof {
                assert(spec_lex(cs@, ib, stb, cb) == spec_lex(
                    cs@,
                    i as int,
                    stack_views(stack@),
                    pes_of(curr),
                ));
            }
        } else if c == '[' {
            match lex_bracket(&cs, i + 1) {
                Ok((vals, ni)) => {
                    let elem = ParseElement::Bracket(vals);
                    proof {
                        lemma_pes_view_push(curr@, elem);
                    }
                    curr.push(elem);
                    i = ni;
                    proof {
                        assert(spec_lex(cs@, ib, stb, cb) == spec_lex(
                            cs@,
                            i as int,
                            stack_views(stack@),
                            pes_of(curr),
                        ));
                    }
                }
                Err(e) => {
                    return Err(e);
                }
            }
        } else if c == '\\' {
            if i + 1 >= cs.len() {
                return Err(CompileError::UnexpectedEnd);
            }
            let c2 = char_at(&cs, i + 1);
            if c2 == 'w' || c2 == 'd' || c2 == 's' {
                let cls = get_character_class(c2);
                let elem = ParseElement::Bracket(cls);
                proof {
                    lemma_pes_view_push(curr@, elem);
                }
                curr.push(elem);
                i = i + 2;
                proof {
                    assert(spec_lex(cs@, ib, stb, cb) == spec_lex(
                        cs@,
                        i as int,
                        stack_views(stack@),
                        pes_of(curr),
                    ));
                }
            } else if digit_char(c2) {
                let mut n: u64 = 0;
                let mut j: usize = i + 1;
                while j < cs.len() && digit_char(cs[j])
                    invariant
                        ib + 1 <= j <= cs@.len(),
                        cs@ == input@,
                        0 <= ib < cs@.len(),
                        cs@[ib] == '\\',
                        ib + 1 < cs@.len(),
                        is_digit(cs@[ib + 1]),
                        !is_class_char(cs@[ib + 1]),
                        spec_lex(cs@, ib, stb, cb) == lex_spec(input@),
                        read_num(cs@, ib + 1, 0) == read_num(cs@, j as int, n),
                    decreases cs@.len() - j,
                {
                    let d = (cs[j] as u32 - 48) as u64;
                    let v: u128 = (n as u128) * 10 + (d as u128);
                    if v > u64::MAX as u128 {
                        proof {
                            assert(read_num(cs@, j as int, n) == Err::<
                                (u64, int),
                                CompileError,
                            >(CompileError::NumberTooLarge));
                        }
                        return Err(CompileError::NumberTooLarge);
                    }
                    n = v as u64;
                    j = j + 1;
                }
                proof {
                    assert(read_num(cs@, ib + 1, 0) == Ok::<(u64, int), CompileError>((
                        n,
                        j as int,
                    )));
                }
                let elem = ParseElement::BackReference(n);
                proof {
                    lemma_pes_view_push(curr@, elem);
                }
                curr.push(elem);
                i = j;
                proof {
                    assert(spec_lex(cs@, ib, stb, cb) == spec_lex(
                        cs@,
                        i as int,
                        stack_views(stack@),
                        pes_of(curr),
                    ));
                }
            } else {
                match get_escaped(&cs, i + 1) {
                    Ok((ch, ni)) => {
                        let elem = ParseElement::Literal(ch);
                        proof {
                            lemma_pes_view_push(curr@, elem);
                        }
                        curr.push(elem);
                        i = ni;
                        proof {
                            assert(spec_escaped(cs@, ib + 1) == Ok::<(char, int), CompileError>(
                                (ch, ni as int),
                            ));
                            assert(pes_of(curr) == cb.push(PElemV::Literal(ch)));
                            assert(spec_lex(cs@, ib, stb, cb) == spec_lex(
                                cs@,
                                i as int,
                                stack_views(stack@),
                                pes_of(curr),
                            ));
                        }
                    }
                    Err(e) => {
                        return Err(e);
                    }
                }
            }
        } else {
            push_literal(&mut curr, c);
            i = i + 1;
            proof {
                assert(pes_of(curr) == cb.push(PElemV::Literal(c)));
                assert(spec_lex(cs@, ib, stb, cb) == spec_lex(
                    cs@,
                    i as int,
                    stack_views(stack@),
                    pes_of(curr),
                ));
            }
        }
        proof {
            assert(spec_lex(cs@, ib, stb, cb) == spec_lex(
                cs@,
                i as int,
                stack_views(stack@),
                pes_of(curr),
            ));
        }
    }
}

/// The element at position `i`.
fn elem_at<'a>(v: &'a Vec<ParseElement>, i: usize) -> (r: &'a ParseElement)
    requires
        i < v@.len(),
    ensures
        *r == v@[i as int],
{
    &v[i]
}

/// The automaton at position `i`.
fn nfa_at<'a>(v: &'a Vec<Nfa>, i: usize) -> (r: &'a Nfa)
    requires
        i < v@.len(),
    ensures
        r@ == v@[i as int]@,
{
    &v[i]
}

/// An owned copy of a quantifier element.
fn copy_modifier(e: &ParseElement) -> (r: ParseElement)
    requires
        is_modifier_v(*e),
    ensures
        r == *e,
{
    match e {
        ParseElement::Star => ParseElement::Star,
        ParseElement::Plus => ParseElement::Plus,
        ParseElement::Question => ParseElement::Question,
        ParseElement::Range(lo, hi) => ParseElement::Range(*lo, *hi),
        ParseElement::OpenRange(lo) => ParseElement::OpenRange(*lo),
        _ => {
            proof {
                assert(false);
            }
            ParseElement::Star
        }
    }
}

/// Parses a sequence of elements into an NFA, per [`spec_parse`]:
/// atoms are composed by concatenation, quantifiers bind to the
/// preceding atom, `|` branches are merged by union, groups are parsed
/// recursively and recorded, and backreferences inline a refreshing
/// copy of the named group's automaton.
#[verifier::rlimit(50)]
pub fn parse(toks: &Vec<ParseElement>, counter: &mut StateCounter) -> (r: Result<
    Nfa,
    CompileError,
>)
    ensures
        match r {
            Ok(n) => spec_parse(pes_of(*toks), old(counter).next) matches Ok(p) && p.0 == n@
                && p.1 == final(counter).next,
            Err(e) => spec_parse(pes_of(*toks), old(counter).next) == Err::<
                (NfaV, u64),
                CompileError,
            >(e),
        },
    decreases pevs_size(pes_of(*toks)),
{
    let ghost tv = pes_of(*toks);
    let ghost c0 = counter.next;
    proof {
        lemma_pes_view(toks@);
    }
    let mut curr_nfa = Nfa::empty();
    let mut union_stack: Vec<Nfa> = Vec::new();
    let mut groups: Vec<Nfa> = Vec::new();
    let mut i: usize = 0;
    proof {
        assert(curr_nfa@ == empty_nfa_v());
        assert(nfas_views(union_stack@) =~= Seq::<NfaV>::empty());
        assert(nfas_views(groups@) =~= Seq::<NfaV>::empty());
    }
    loop
        invariant
            tv == pes_of(*toks),
            c0 == old(counter).next,
            tv.len() == toks@.len(),
            forall|k: int| 0 <= k < toks@.len() ==> tv[k] == pe_view(#[trigger] toks@[k]),
            i <= tv.len(),
            spec_parse_at(
                tv,
                i as int,
                curr_nfa@,
                nfas_views(union_stack@),
                nfas_views(groups@),
                counter.next,
            ) == spec_parse(tv, c0),
        decreases tv.len() - i,
    {
        let ghost ib = i as int;
        let ghost curb = curr_nfa@;
        let ghost usb = nfas_views(union_stack@);
        let ghost grb = nfas_views(groups@);
        let ghost cnb = counter.next;
        if i >= toks.len() {
            // merge the alternation branches
            while union_stack.len() > 0
                invariant
                    fold_unions(curr_nfa@, nfas_views(union_stack@)) == fold_unions(curb, usb),
                decreases union_stack@.len(),
            {
                let ghost us0 = nfas_views(union_stack@);
                let ghost cur0 = curr_nfa@;
                let top = match union_stack.pop() {
                    Some(t) => t,
                    None => {
                        proof {
                            assert(false);
                        }
                        Nfa::empty()
                    }
                };
                curr_nfa.union(&top);
                proof {
                    assert(nfas_views(union_stack@) =~= us0.drop_last());
                    assert(top@ == us0.last());
                    assert(curr_nfa@ == union_v(cur0, us0.last()));
                    assert(fold_unions(cur0, us0) == fold_unions(
                        union_v(cur0, us0.last()),
                        us0.drop_last(),
                    ));
                }
            }
            proof {
                assert(nfas_views(union_stack@).len() == 0);
                assert(fold_unions(curr_nfa@, nfas_views(union_stack@)) == curr_nfa@);
                assert(spec_parse_at(tv, ib, curb, usb, grb, cnb) == Ok::<
                    (NfaV, u64),
                    CompileError,
                >((fold_unions(curb, usb), cnb)));
            }
            return Ok(curr_nfa);
        }
        let tok = elem_at(toks, i);
        let has_mod = if i + 1 < toks.len() {
            elem_at(toks, i + 1).is_modifier()
        } else {
            false
        };
        proof {
            if i + 1 < toks@.len() {
                lemma_modifier_view(toks@[ib + 1]);
            }
        }
        let modifier: Option<ParseElement> = if has_mod {
            Some(copy_modifier(elem_at(toks, i + 1)))
        } else {
            None
        };
        let ni = if has_mod {
            i + 2
        } else {
            i + 1
        };
        match tok {
            ParseElement::Literal(ch) => {
                let atom = Nfa::new(Transition::Literal(*ch), modifier, counter);
                curr_nfa.concat(&atom, counter);
                i = ni;
            }
            ParseElement::Wildcard => {
                let atom = Nfa::new(Transition::Wildcard, modifier, counter);
                curr_nfa.concat(&atom, counter);
                i = ni;
            }
            ParseElement::Union => {
                union_stack.push(curr_nfa);
                curr_nfa = Nfa::empty();
                proof {
                    assert(nfas_views(union_stack@) =~= usb.push(curb));
                }
                i = ni;
            }
            ParseElement::Bracket(chars) => {
                let ghost chv = chars@;
                if chars.len() == 0 {
                    proof {
                        assert(tv[ib] == PElemV::Bracket(chv));
                        assert(spec_parse_at(tv, ib, curb, usb, grb, cnb) == Err::<
                            (NfaV, u64),
                            CompileError,
                        >(CompileError::EmptyBracket));
                    }
                    return Err(CompileError::EmptyBracket);
                }
                let last = char_at(chars, chars.len() - 1);
                let mut bn = Nfa::new(Transition::Literal(last), None, counter);
                proof {
                    assert(bn@.edges == atom_edges(Transition::Literal(chv[chv.len() - 1])));
                    assert(bracket_seg(chv, chv.len() - 2, chv.len() - 1) =~= Seq::<Edge>::empty());
                    assert(bn@.edges =~= bracket_seg(chv, chv.len() - 1, chv.len() - 1));
                }
                let mut k: usize = chars.len() - 1;
                while k > 0
                    invariant
                        k < chars@.len(),
                        chv == chars@,
                        bn@.edges == bracket_seg(chv, chv.len() - 1, k as int),
                        bn@.empty == false,
                        counter.next == cnb,
                    decreases k,
                {
                    k = k - 1;
                    let ch = char_at(chars, k);
                    let atom = Nfa::new(Transition::Literal(ch), None, counter);
                    bn.union(&atom);
                    proof {
                        lemma_bracket_seg_low(chv, chv.len() - 1, k as int);
                    }
                }
                bn.add_modifier(modifier, counter);
                curr_nfa.concat(&bn, counter);
                i = ni;
            }
            ParseElement::Group(inner) => {
                proof {
                    assert(tv[ib] == PElemV::Group(pes_view(inner@)));
                    assert(pev_size(tv[ib]) == 1 + pevs_size(pes_view(inner@)));
                    lemma_pevs_size_element(tv, ib);
                    assert(pevs_size(pes_of(*inner)) < pevs_size(tv));
                }
                let mut g = match parse(inner, counter) {
                    Ok(g) => g,
                    Err(e) => {
                        proof {
                            assert(tv[ib] == PElemV::Group(pes_of(*inner)));
                            assert(spec_parse_at(tv, ib, curb, usb, grb, cnb) == Err::<
                                (NfaV, u64),
                                CompileError,
                            >(e));
                        }
                        return Err(e);
                    }
                };
                groups.push(g.duplicate());
                proof {
                    assert(nfas_views(groups@) =~= grb.push(g@));
                }
                g.add_modifier(modifier, counter);
                curr_nfa.concat(&g, counter);
                i = ni;
            }
            ParseElement::BackReference(n) => {
                let nv = *n;
                if nv < 1 || nv > groups.len() as u64 {
                    proof {
                        assert(tv[ib] == PElemV::BackReference(nv));
                        assert(grb.len() == groups@.len());
                        assert(spec_parse_at(tv, ib, curb, usb, grb, cnb) == Err::<
                            (NfaV, u64),
                            CompileError,
                        >(CompileError::BadBackReference(nv)));
                    }
                    return Err(CompileError::BadBackReference(nv));
                }
                let idx = (nv - 1) as usize;
                let mut b = nfa_at(&groups, idx).refreshed(counter);
                proof {
                    assert(nfas_views(groups@)[idx as int] == groups@[idx as int]@);
                }
                b.add_modifier(modifier, counter);
                curr_nfa.concat(&b, counter);
                i = ni;
            }
            _ => {
                proof {
                    assert(spec_parse_at(tv, ib, curb, usb, grb, cnb) == Err::<
                        (NfaV, u64),
                        CompileError,
                    >(CompileError::DanglingQuantifier));
                }
                return Err(CompileError::DanglingQuantifier);
            }
        }
        proof {
            assert(spec_parse_at(tv, ib, curb, usb, grb, cnb) == spec_parse_at(
                tv,
                i as int,
                curr_nfa@,
                nfas_views(union_stack@),
                nfas_views(groups@),
                counter.next,
            ));
        }
    }
}

} // verus!
