//! The pattern parser: recursive descent over the pattern's characters,
//! producing one matcher tree.
//!
//! The meaning of parsing is given by [`parse_spec`] and the spec functions
//! it is built from; [`RegexParser::parse`] is proved to return exactly what
//! they describe, which also makes parsing deterministic.

use vstd::prelude::*;
use crate::matcher::{Matcher, models, lemma_models, digit_chars, word_chars};
use crate::semantics::{MatcherModel, collapse};

verus! {

/// Why a pattern was rejected.
#[derive(Clone, Copy, Debug, PartialEq, Eq, Structural)]
pub enum ParseError {
    /// The pattern ended where more characters were required.
    UnexpectedEnd,
    /// The escaped character has no meaning.
    InvalidEscape(char),
    /// The back-reference names group 0, which no pattern can open, or a
    /// group that has not been opened yet.
    InvalidBackref(usize),
    /// An alternative between `(`, `|` and `)` is empty.
    EmptyAlternative,
    /// A `(` is never closed, or a group body is malformed.
    UnbalancedParen,
    /// A `[` is never closed.
    UnbalancedBracket,
    /// A quantifier has no atom before it to apply to.
    QuantifierWithoutAtom,
    /// The body of a `{n}` quantifier is not a representable number.
    InvalidQuantifierBody,
}

/// Whether `c` is an ASCII digit.
pub open spec fn is_digit(c: char) -> bool {
    '0' as u32 <= c as u32 && c as u32 <= '9' as u32
}

/// The numeric value of an ASCII digit.
pub open spec fn digit_val(c: char) -> int {
    c as u32 - '0' as u32
}

/// The matcher a `\d` escape stands for.
pub open spec fn digit_class() -> MatcherModel {
    MatcherModel::SingleCharBranch(digit_chars(), false)
}

/// The matcher a `\w` escape stands for.
pub open spec fn word_class() -> MatcherModel {
    MatcherModel::SingleCharBranch(word_chars(), false)
}

/// Reads the body of a character class from position `j` up to the closing
/// `]`; `chars` holds the characters read so far.
pub open spec fn scan_class(p: Seq<char>, j: int, chars: Seq<char>) -> Result<
    (Seq<char>, int),
    ParseError,
>
    decreases p.len() - j,
{
    if j < 0 || j >= p.len() {
        Err(ParseError::UnbalancedBracket)
    } else if p[j] == ']' {
        Ok((chars, j + 1))
    } else {
        scan_class(p, j + 1, chars.push(p[j]))
    }
}

pub proof fn lemma_scan_class_next(p: Seq<char>, j: int, chars: Seq<char>)
    ensures
        scan_class(p, j, chars) matches Ok(pair) ==> j < pair.1 <= p.len(),
    decreases p.len() - j,
{
    if j < 0 || j >= p.len() {
    } else if p[j] == ']' {
    } else {
        lemma_scan_class_next(p, j + 1, chars.push(p[j]));
    }
}

/// Reads the body of a `{n}` quantifier from position `j` up to the closing
/// `}`: `val` is the number read so far and `any` whether any digit was
/// read.  A value beyond `usize` is rejected.
pub open spec fn scan_quantifier(p: Seq<char>, j: int, val: int, any: bool) -> Result<
    (int, int),
    ParseError,
>
    decreases p.len() - j,
{
    if j < 0 || j >= p.len() {
        Err(ParseError::UnexpectedEnd)
    } else if is_digit(p[j]) {
        scan_quantifier(p, j + 1, val * 10 + digit_val(p[j]), true)
    } else if p[j] == '}' {
        if !any || val > usize::MAX {
            Err(ParseError::InvalidQuantifierBody)
        } else {
            Ok((val, j + 1))
        }
    } else {
        Err(ParseError::InvalidQuantifierBody)
    }
}

pub proof fn lemma_scan_quantifier_next(p: Seq<char>, j: int, val: int, any: bool)
    requires
        0 <= val,
    ensures
        scan_quantifier(p, j, val, any) matches Ok(pair) ==> j < pair.1 <= p.len() && 0 <= pair.0
            <= usize::MAX,
    decreases p.len() - j,
{
    if j < 0 || j >= p.len() {
    } else if is_digit(p[j]) {
        assert(0 <= digit_val(p[j]));
        lemma_scan_quantifier_next(p, j + 1, val * 10 + digit_val(p[j]), true);
    } else {
    }
}

/// Splits a group body starting at the `(` at position `j` into its
/// alternative segments, tracking the nesting `level`; `segs` are the
/// finished segments and `cur` the one being read.  On success the segments
/// come with the number of characters consumed, closing `)` included.
pub open spec fn split_rec(
    p: Seq<char>,
    i0: int,
    j: int,
    level: int,
    segs: Seq<Seq<char>>,
    cur: Seq<char>,
) -> Result<(Seq<Seq<char>>, int), ParseError>
    decreases p.len() - j,
{
    if j < 0 || j >= p.len() {
        Err(ParseError::UnbalancedParen)
    } else {
        let ch = p[j];
        if ch == '(' {
            if level == 0 {
                split_rec(p, i0, j + 1, 1, segs, cur)
            } else {
                split_rec(p, i0, j + 1, level + 1, segs, cur.push(ch))
            }
        } else if ch == ')' {
            if level == 1 {
                if cur.len() == 0 {
                    Err(ParseError::EmptyAlternative)
                } else {
                    Ok((segs.push(cur), j + 1 - i0))
                }
            } else {
                split_rec(p, i0, j + 1, level - 1, segs, cur.push(ch))
            }
        } else if ch == '|' && level == 1 {
            if cur.len() == 0 {
                Err(ParseError::EmptyAlternative)
            } else {
                split_rec(p, i0, j + 1, 1, segs.push(cur), Seq::empty())
            }
        } else {
            split_rec(p, i0, j + 1, level, segs, cur.push(ch))
        }
    }
}

/// Splits the group whose `(` stands at position `i`.
pub open spec fn split_alt(p: Seq<char>, i: int) -> Result<(Seq<Seq<char>>, int), ParseError> {
    split_rec(p, i, i, 0, Seq::empty(), Seq::empty())
}

/// The total length of all segments.
pub open spec fn seg_sum(segs: Seq<Seq<char>>) -> int
    decreases segs.len(),
{
    if segs.len() == 0 {
        0
    } else {
        seg_sum(segs.drop_last()) + segs.last().len()
    }
}

pub proof fn lemma_seg_sum_elem(segs: Seq<Seq<char>>, k: int)
    requires
        0 <= k < segs.len(),
    ensures
        segs[k].len() <= seg_sum(segs),
        0 <= seg_sum(segs),
    decreases segs.len(),
{
    lemma_seg_sum_nonneg(segs);
    if k == segs.len() - 1 {
        lemma_seg_sum_nonneg(segs.drop_last());
    } else {
        lemma_seg_sum_elem(segs.drop_last(), k);
        assert(segs.drop_last()[k] == segs[k]);
    }
}

pub proof fn lemma_seg_sum_nonneg(segs: Seq<Seq<char>>)
    ensures
        0 <= seg_sum(segs),
    decreases segs.len(),
{
    if segs.len() == 0 {
    } else {
        lemma_seg_sum_nonneg(segs.drop_last());
    }
}

/// The total length of the segments from `k` on.
pub open spec fn seg_sum_from(segs: Seq<Seq<char>>, k: int) -> int
    decreases segs.len() - k,
{
    if k < 0 || k >= segs.len() {
        0
    } else {
        segs[k].len() + seg_sum_from(segs, k + 1)
    }
}

pub proof fn lemma_seg_sum_from_drop(segs: Seq<Seq<char>>, k: int)
    requires
        0 <= k,
        segs.len() > 0,
    ensures
        k < segs.len() - 1 ==> seg_sum_from(segs, k) == seg_sum_from(segs.drop_last(), k)
            + segs.last().len(),
        k == segs.len() - 1 ==> seg_sum_from(segs, k) == segs.last().len(),
        k >= segs.len() ==> seg_sum_from(segs, k) == 0,
    decreases segs.len() - k,
{
    if k >= segs.len() {
    } else if k == segs.len() - 1 {
        assert(seg_sum_from(segs, k + 1) == 0);
        assert(segs[k] == segs.last());
    } else {
        lemma_seg_sum_from_drop(segs, k + 1);
        assert(segs.drop_last()[k] == segs[k]);
        if k + 1 == segs.len() - 1 {
            assert(seg_sum_from(segs.drop_last(), k + 1) == 0);
        }
    }
}

pub proof fn lemma_seg_sum_from_zero(segs: Seq<Seq<char>>)
    ensures
        seg_sum_from(segs, 0) == seg_sum(segs),
    decreases segs.len(),
{
    if segs.len() == 0 {
    } else if segs.len() == 1 {
        lemma_seg_sum_from_drop(segs, 0);
        assert(seg_sum(segs.drop_last()) == 0);
    } else {
        lemma_seg_sum_from_drop(segs, 0);
        lemma_seg_sum_from_zero(segs.drop_last());
    }
}

pub proof fn lemma_seg_sum_from_nonneg(segs: Seq<Seq<char>>, k: int)
    ensures
        0 <= seg_sum_from(segs, k),
    decreases segs.len() - k,
{
    if k < 0 || k >= segs.len() {
    } else {
        lemma_seg_sum_from_nonneg(segs, k + 1);
    }
}

/// What `split_rec` guarantees of a successful split: at least one
/// non-empty segment, between 2 and the remaining pattern's worth of
/// characters consumed, and the segments plus their separators fill the
/// consumed span except for the two parentheses.
pub proof fn lemma_split_rec_bounds(
    p: Seq<char>,
    i0: int,
    j: int,
    level: int,
    segs: Seq<Seq<char>>,
    cur: Seq<char>,
)
    requires
        i0 <= j <= p.len(),
        1 <= level,
        seg_sum(segs) + segs.len() + cur.len() == j - i0 - 1,
        forall|k: int| 0 <= k < segs.len() ==> #[trigger] segs[k].len() >= 1,
    ensures
        split_rec(p, i0, j, level, segs, cur) matches Ok(pair) ==> {
            &&& seg_sum(pair.0) + pair.0.len() == pair.1 - 1
            &&& 2 <= pair.1 <= p.len() - i0
            &&& 1 <= pair.0.len()
            &&& forall|k: int| 0 <= k < pair.0.len() ==> #[trigger] pair.0[k].len() >= 1
        },
    decreases p.len() - j,
{
    lemma_seg_sum_nonneg(segs);
    if j < 0 || j >= p.len() {
    } else {
        let ch = p[j];
        if ch == '(' {
            lemma_split_rec_bounds(p, i0, j + 1, level + 1, segs, cur.push(ch));
        } else if ch == ')' {
            if level == 1 {
                if cur.len() == 0 {
                } else {
                    assert(segs.push(cur).last() == cur);
                    assert(segs.push(cur).drop_last() =~= segs);
                    assert(seg_sum(segs.push(cur)) == seg_sum(segs) + cur.len());
                    assert forall|k: int| 0 <= k < segs.push(cur).len() implies #[trigger] segs.push(
                        cur,
                    )[k].len() >= 1 by {
                        if k < segs.len() {
                            assert(segs.push(cur)[k] == segs[k]);
                        } else {
                            assert(segs.push(cur)[k] == cur);
                        }
                    }
                }
            } else {
                lemma_split_rec_bounds(p, i0, j + 1, level - 1, segs, cur.push(ch));
            }
        } else if ch == '|' && level == 1 {
            if cur.len() == 0 {
            } else {
                assert(segs.push(cur).last() == cur);
                assert(segs.push(cur).drop_last() =~= segs);
                assert(seg_sum(segs.push(cur)) == seg_sum(segs) + cur.len());
                assert forall|k: int| 0 <= k < segs.push(cur).len() implies #[trigger] segs.push(
                    cur,
                )[k].len() >= 1 by {
                    if k < segs.len() {
                        assert(segs.push(cur)[k] == segs[k]);
                    } else {
                        assert(segs.push(cur)[k] == cur);
                    }
                }
                lemma_split_rec_bounds(p, i0, j + 1, 1, segs.push(cur), Seq::empty());
            }
        } else {
            lemma_split_rec_bounds(p, i0, j + 1, level, segs, cur.push(ch));
        }
    }
}

pub proof fn lemma_split_alt_bounds(p: Seq<char>, i: int)
    requires
        0 <= i < p.len(),
        p[i] == '(',
    ensures
        split_alt(p, i) matches Ok(pair) ==> {
            &&& seg_sum(pair.0) + pair.0.len() == pair.1 - 1
            &&& 2 <= pair.1 <= p.len() - i
            &&& 1 <= pair.0.len()
            &&& forall|k: int| 0 <= k < pair.0.len() ==> #[trigger] pair.0[k].len() >= 1
        },
{
    lemma_split_rec_bounds(p, i, i + 1, 1, Seq::empty(), Seq::empty());
}

/// What role a character plays at the top level of a pattern.
pub enum CharKind {
    /// Starts an escape sequence.
    Escape,
    /// Opens a character class.
    Class,
    /// Opens a group.
    Group,
    /// The start-of-text anchor.
    Caret,
    /// The end-of-text anchor.
    Dollar,
    /// The one-or-more quantifier.
    Plus,
    /// The zero-or-more quantifier.
    Star,
    /// The zero-or-one quantifier.
    Quest,
    /// Opens a counted quantifier.
    Brace,
    /// The wildcard.
    Dot,
    /// An ordinary literal character.
    Literal,
}

/// Classifies a character at the top level of a pattern.
pub open spec fn kind_of(c: char) -> CharKind {
    if c == '\\' {
        CharKind::Escape
    } else if c == '[' {
        CharKind::Class
    } else if c == '(' {
        CharKind::Group
    } else if c == '^' {
        CharKind::Caret
    } else if c == '$' {
        CharKind::Dollar
    } else if c == '+' {
        CharKind::Plus
    } else if c == '*' {
        CharKind::Star
    } else if c == '?' {
        CharKind::Quest
    } else if c == '{' {
        CharKind::Brace
    } else if c == '.' {
        CharKind::Dot
    } else {
        CharKind::Literal
    }
}

/// Parses the atoms of the pattern from position `i` on, with `g` the next
/// free group index and `acc` the atoms parsed so far.  Mirrors one parsing
/// step per construct; a quantifier wraps the atom parsed last.
pub open spec fn parse_atoms_spec(p: Seq<char>, i: int, g: int, acc: Seq<MatcherModel>) -> Result<
    (Seq<MatcherModel>, int),
    ParseError,
>
    decreases p.len(), 1int, p.len() - i,
        via parse_atoms_spec_dec
{
    if i < 0 {
        Err(ParseError::UnexpectedEnd)
    } else if i >= p.len() {
        Ok((acc, g))
    } else {
        let c = p[i];
        if kind_of(c) == CharKind::Escape {
            if i + 1 >= p.len() {
                Err(ParseError::UnexpectedEnd)
            } else {
                let d = p[i + 1];
                if d == 'd' {
                    parse_atoms_spec(p, i + 2, g, acc.push(digit_class()))
                } else if d == 'w' {
                    parse_atoms_spec(p, i + 2, g, acc.push(word_class()))
                } else if d == '\\' || d == '+' || d == '?' || d == '.' || d == '[' || d == '(' {
                    parse_atoms_spec(p, i + 2, g, acc.push(MatcherModel::SingleChar(d)))
                } else if is_digit(d) {
                    if digit_val(d) < 1 || digit_val(d) >= g {
                        Err(ParseError::InvalidBackref(digit_val(d) as usize))
                    } else {
                        parse_atoms_spec(
                            p,
                            i + 2,
                            g,
                            acc.push(MatcherModel::GroupReference(digit_val(d))),
                        )
                    }
                } else {
                    Err(ParseError::InvalidEscape(d))
                }
            }
        } else if kind_of(c) == CharKind::Class {
            if i + 1 >= p.len() {
                Err(ParseError::UnbalancedBracket)
            } else {
                let first = p[i + 1];
                let negated = first == '^';
                let init: Seq<char> = if negated {
                    Seq::empty()
                } else {
                    seq![first]
                };
                match scan_class(p, i + 2, init) {
                    Err(e) => Err(e),
                    Ok(pair) => parse_atoms_spec(
                        p,
                        pair.1,
                        g,
                        acc.push(MatcherModel::SingleCharBranch(pair.0, negated)),
                    ),
                }
            }
        } else if kind_of(c) == CharKind::Group {
            match split_alt(p, i) {
                Err(e) => Err(e),
                Ok(pair) => match parse_segments_spec(pair.0, 0, g + 1, Seq::empty()) {
                    Err(e) => Err(e),
                    Ok(inner) => parse_atoms_spec(
                        p,
                        i + pair.1,
                        inner.1,
                        acc.push(MatcherModel::Group(inner.0, g)),
                    ),
                },
            }
        } else if kind_of(c) == CharKind::Caret {
            parse_atoms_spec(p, i + 1, g, acc.push(MatcherModel::StartMatcher))
        } else if kind_of(c) == CharKind::Dollar {
            parse_atoms_spec(p, i + 1, g, acc.push(MatcherModel::EndMatcher))
        } else if kind_of(c) == CharKind::Plus {
            if acc.len() == 0 {
                Err(ParseError::QuantifierWithoutAtom)
            } else {
                parse_atoms_spec(
                    p,
                    i + 1,
                    g,
                    acc.drop_last().push(
                        MatcherModel::Multiple {
                            matcher: Box::new(acc.last()),
                            min: 1,
                            max: None,
                            follow: None,
                        },
                    ),
                )
            }
        } else if kind_of(c) == CharKind::Star {
            if acc.len() == 0 {
                Err(ParseError::QuantifierWithoutAtom)
            } else {
                parse_atoms_spec(
                    p,
                    i + 1,
                    g,
                    acc.drop_last().push(
                        MatcherModel::Multiple {
                            matcher: Box::new(acc.last()),
                            min: 0,
                            max: None,
                            follow: None,
                        },
                    ),
                )
            }
        } else if kind_of(c) == CharKind::Quest {
            if acc.len() == 0 {
                Err(ParseError::QuantifierWithoutAtom)
            } else {
                parse_atoms_spec(
                    p,
                    i + 1,
                    g,
                    acc.drop_last().push(
                        MatcherModel::Multiple {
                            matcher: Box::new(acc.last()),
                            min: 0,
                            max: Some(1),
                            follow: None,
                        },
                    ),
                )
            }
        } else if kind_of(c) == CharKind::Brace {
            if acc.len() == 0 {
                Err(ParseError::QuantifierWithoutAtom)
            } else {
                match scan_quantifier(p, i + 1, 0, false) {
                    Err(e) => Err(e),
                    Ok(pair) => parse_atoms_spec(
                        p,
                        pair.1,
                        g,
                        acc.drop_last().push(
                            MatcherModel::Multiple {
                                matcher: Box::new(acc.last()),
                                min: pair.0,
                                max: Some(pair.0),
                                follow: None,
                            },
                        ),
                    ),
                }
            }
        } else if kind_of(c) == CharKind::Dot {
            parse_atoms_spec(p, i + 1, g, acc.push(MatcherModel::Wildcard))
        } else {
            parse_atoms_spec(p, i + 1, g, acc.push(MatcherModel::SingleChar(c)))
        }
    }
}

#[via_fn]
proof fn parse_atoms_spec_dec(p: Seq<char>, i: int, g: int, acc: Seq<MatcherModel>) {
    if 0 <= i < p.len() {
        let c = p[i];
        if c == '[' && i + 1 < p.len() {
            let negated = p[i + 1] == '^';
            let init: Seq<char> = if negated {
                Seq::empty()
            } else {
                seq![p[i + 1]]
            };
            lemma_scan_class_next(p, i + 2, init);
        }
        if c == '(' {
            lemma_split_alt_bounds(p, i);
        }
        if c == '{' {
            lemma_scan_quantifier_next(p, i + 1, 0, false);
        }
    }
}

/// Parses each alternative segment of a group in turn, threading the next
/// free group index through, so that inner groups continue the numbering.
pub open spec fn parse_segments_spec(
    segs: Seq<Seq<char>>,
    k: int,
    g: int,
    acc: Seq<MatcherModel>,
) -> Result<(Seq<MatcherModel>, int), ParseError>
    decreases seg_sum(segs) + segs.len(), 0int, segs.len() - k,
        via parse_segments_spec_dec
{
    if k < 0 || k >= segs.len() {
        Ok((acc, g))
    } else {
        match parse_from_spec(segs[k], 0, g) {
            Err(e) => Err(e),
            Ok(pair) => parse_segments_spec(segs, k + 1, pair.1, acc.push(pair.0)),
        }
    }
}

#[via_fn]
proof fn parse_segments_spec_dec(segs: Seq<Seq<char>>, k: int, g: int, acc: Seq<MatcherModel>) {
    if 0 <= k < segs.len() {
        lemma_seg_sum_elem(segs, k);
    }
}

/// Parses a whole pattern from position `i` on: its atoms, collapsed into a
/// single matcher.  An empty pattern is an error; a single atom stands for
/// itself; several atoms form a sequence (with adjacent repetitions merged
/// and follows wired, see [`collapse`]).
pub open spec fn parse_from_spec(p: Seq<char>, i: int, g: int) -> Result<
    (MatcherModel, int),
    ParseError,
>
    decreases p.len(), 2int, 0int,
{
    match parse_atoms_spec(p, i, g, Seq::empty()) {
        Err(e) => Err(e),
        Ok(pair) => if pair.0.len() == 0 {
            Err(ParseError::UnexpectedEnd)
        } else if pair.0.len() == 1 {
            Ok((pair.0[0], pair.1))
        } else {
            Ok((MatcherModel::Sequence(collapse(pair.0)), pair.1))
        },
    }
}

/// What parsing a pattern means: the matcher it describes, or the error
/// that rejects it.
pub open spec fn parse_spec(p: Seq<char>) -> Result<MatcherModel, ParseError> {
    match parse_from_spec(p, 0, 1) {
        Ok(pair) => Ok(pair.0),
        Err(e) => Err(e),
    }
}


/// One parsing step for an escape sequence.
pub proof fn lemma_step_escape(p: Seq<char>, i: int, g: int, acc: Seq<MatcherModel>)
    requires
        0 <= i < p.len(),
        p[i] == '\\',
    ensures
        i + 1 >= p.len() ==> parse_atoms_spec(p, i, g, acc) == Err::<
            (Seq<MatcherModel>, int),
            ParseError,
        >(ParseError::UnexpectedEnd),
        i + 1 < p.len() ==> {
            let d = p[i + 1];
            if d == 'd' {
                parse_atoms_spec(p, i, g, acc) == parse_atoms_spec(
                    p,
                    i + 2,
                    g,
                    acc.push(digit_class()),
                )
            } else if d == 'w' {
                parse_atoms_spec(p, i, g, acc) == parse_atoms_spec(
                    p,
                    i + 2,
                    g,
                    acc.push(word_class()),
                )
            } else if d == '\\' || d == '+' || d == '?' || d == '.' || d == '[' || d == '(' {
                parse_atoms_spec(p, i, g, acc) == parse_atoms_spec(
                    p,
                    i + 2,
                    g,
                    acc.push(MatcherModel::SingleChar(d)),
                )
            } else if is_digit(d) && (digit_val(d) < 1 || digit_val(d) >= g) {
                parse_atoms_spec(p, i, g, acc) == Err::<(Seq<MatcherModel>, int), ParseError>(
                    ParseError::InvalidBackref(digit_val(d) as usize),
                )
            } else if is_digit(d) {
                parse_atoms_spec(p, i, g, acc) == parse_atoms_spec(
                    p,
                    i + 2,
                    g,
                    acc.push(MatcherModel::GroupReference(digit_val(d))),
                )
            } else {
                parse_atoms_spec(p, i, g, acc) == Err::<(Seq<MatcherModel>, int), ParseError>(
                    ParseError::InvalidEscape(d),
                )
            }
        },
{
}

/// One parsing step for a character class.
pub proof fn lemma_step_class(p: Seq<char>, i: int, g: int, acc: Seq<MatcherModel>)
    requires
        0 <= i < p.len(),
        p[i] == '[',
    ensures
        i + 1 >= p.len() ==> parse_atoms_spec(p, i, g, acc) == Err::<
            (Seq<MatcherModel>, int),
            ParseError,
        >(ParseError::UnbalancedBracket),
        i + 1 < p.len() ==> {
            let negated = p[i + 1] == '^';
            let init: Seq<char> = if negated {
                Seq::empty()
            } else {
                seq![p[i + 1]]
            };
            match scan_class(p, i + 2, init) {
                Err(e) => parse_atoms_spec(p, i, g, acc) == Err::<
                    (Seq<MatcherModel>, int),
                    ParseError,
                >(e),
                Ok(pair) => parse_atoms_spec(p, i, g, acc) == parse_atoms_spec(
                    p,
                    pair.1,
                    g,
                    acc.push(MatcherModel::SingleCharBranch(pair.0, negated)),
                ),
            }
        },
{
}

/// One parsing step for a group.
pub proof fn lemma_step_group(p: Seq<char>, i: int, g: int, acc: Seq<MatcherModel>)
    requires
        0 <= i < p.len(),
        p[i] == '(',
    ensures
        ({
            match split_alt(p, i) {
                Err(e) => parse_atoms_spec(p, i, g, acc) == Err::<
                    (Seq<MatcherModel>, int),
                    ParseError,
                >(e),
                Ok(pair) => match parse_segments_spec(pair.0, 0, g + 1, Seq::empty()) {
                    Err(e) => parse_atoms_spec(p, i, g, acc) == Err::<
                        (Seq<MatcherModel>, int),
                        ParseError,
                    >(e),
                    Ok(inner) => parse_atoms_spec(p, i, g, acc) == parse_atoms_spec(
                        p,
                        i + pair.1,
                        inner.1,
                        acc.push(MatcherModel::Group(inner.0, g)),
                    ),
                },
            }
        }),
{
}

/// One parsing step for the start anchor.
pub proof fn lemma_step_caret(p: Seq<char>, i: int, g: int, acc: Seq<MatcherModel>)
    requires
        0 <= i < p.len(),
        p[i] == '^',
    ensures
        parse_atoms_spec(p, i, g, acc) == parse_atoms_spec(
            p,
            i + 1,
            g,
            acc.push(MatcherModel::StartMatcher),
        ),
{
}

/// One parsing step for the end anchor.
pub proof fn lemma_step_dollar(p: Seq<char>, i: int, g: int, acc: Seq<MatcherModel>)
    requires
        0 <= i < p.len(),
        p[i] == '$',
    ensures
        parse_atoms_spec(p, i, g, acc) == parse_atoms_spec(
            p,
            i + 1,
            g,
            acc.push(MatcherModel::EndMatcher),
        ),
{
}

/// One parsing step for the wildcard.
pub proof fn lemma_step_dot(p: Seq<char>, i: int, g: int, acc: Seq<MatcherModel>)
    requires
        0 <= i < p.len(),
        p[i] == '.',
    ensures
        parse_atoms_spec(p, i, g, acc) == parse_atoms_spec(
            p,
            i + 1,
            g,
            acc.push(MatcherModel::Wildcard),
        ),
{
}

/// One parsing step for a literal character.  The character is passed by
/// value so that its well-formedness is in scope.
pub proof fn lemma_step_literal(p: Seq<char>, i: int, g: int, acc: Seq<MatcherModel>, c: char)
    requires
        0 <= i < p.len(),
        p[i] == c,
        kind_of(c) == CharKind::Literal,
    ensures
        parse_atoms_spec(p, i, g, acc) == parse_atoms_spec(
            p,
            i + 1,
            g,
            acc.push(MatcherModel::SingleChar(c)),
        ),
{
}

/// One parsing step for a `+`, `*` or `?` quantifier.
pub proof fn lemma_step_quantifier(p: Seq<char>, i: int, g: int, acc: Seq<MatcherModel>)
    requires
        0 <= i < p.len(),
        p[i] == '+' || p[i] == '*' || p[i] == '?',
    ensures
        acc.len() == 0 ==> parse_atoms_spec(p, i, g, acc) == Err::<
            (Seq<MatcherModel>, int),
            ParseError,
        >(ParseError::QuantifierWithoutAtom),
        acc.len() > 0 ==> parse_atoms_spec(p, i, g, acc) == parse_atoms_spec(
            p,
            i + 1,
            g,
            acc.drop_last().push(
                MatcherModel::Multiple {
                    matcher: Box::new(acc.last()),
                    min: if p[i] == '+' {
                        1
                    } else {
                        0
                    },
                    max: if p[i] == '?' {
                        Some(1)
                    } else {
                        None
                    },
                    follow: None,
                },
            ),
        ),
{
}

/// One parsing step for a `{n}` quantifier.
pub proof fn lemma_step_brace(p: Seq<char>, i: int, g: int, acc: Seq<MatcherModel>)
    requires
        0 <= i < p.len(),
        p[i] == '{',
    ensures
        acc.len() == 0 ==> parse_atoms_spec(p, i, g, acc) == Err::<
            (Seq<MatcherModel>, int),
            ParseError,
        >(ParseError::QuantifierWithoutAtom),
        acc.len() > 0 ==> match scan_quantifier(p, i + 1, 0, false) {
            Err(e) => parse_atoms_spec(p, i, g, acc) == Err::<(Seq<MatcherModel>, int), ParseError>(
                e,
            ),
            Ok(pair) => parse_atoms_spec(p, i, g, acc) == parse_atoms_spec(
                p,
                pair.1,
                g,
                acc.drop_last().push(
                    MatcherModel::Multiple {
                        matcher: Box::new(acc.last()),
                        min: pair.0,
                        max: Some(pair.0),
                        follow: None,
                    },
                ),
            ),
        },
{
}


/// The character lists of the segments, as sequences.
pub open spec fn seg_views(s: Seq<Vec<char>>) -> Seq<Seq<char>>
    decreases s.len(),
{
    if s.len() == 0 {
        Seq::empty()
    } else {
        seg_views(s.drop_last()).push(s.last()@)
    }
}

pub proof fn lemma_seg_views(s: Seq<Vec<char>>)
    ensures
        seg_views(s).len() == s.len(),
        forall|i: int| 0 <= i < s.len() ==> seg_views(s)[i] == s[i]@,
    decreases s.len(),
{
    if s.len() == 0 {
    } else {
        lemma_seg_views(s.drop_last());
        assert(forall|i: int| 0 <= i < s.len() - 1 ==> s.drop_last()[i] == s[i]);
    }
}

/// The pattern parser: the pattern's characters, the current position, and
/// the next free group index.
pub struct RegexParser {
    pattern: Vec<char>,
    index: usize,
    next_group_idx: usize,
}

impl RegexParser {
    /// The pattern being parsed.
    pub closed spec fn pattern_model(&self) -> Seq<char> {
        self.pattern@
    }

    /// The current position, in characters.
    pub closed spec fn position(&self) -> int {
        self.index as int
    }

    /// The next free group index.
    pub closed spec fn group_counter(&self) -> int {
        self.next_group_idx as int
    }

    /// The parser's invariant: the position is inside the pattern, and the
    /// group counter leaves room for one more group per remaining character.
    pub closed spec fn wf(&self) -> bool {
        &&& self.index <= self.pattern@.len()
        &&& 1 <= self.next_group_idx
        &&& self.next_group_idx + (self.pattern@.len() - self.index as int) <= usize::MAX + 1
    }

    /// A parser over `pattern`, with group numbering starting at 1.
    pub fn new(pattern: &str) -> (r: RegexParser)
        ensures
            r.wf(),
            r.pattern_model() == pattern@,
            r.position() == 0,
            r.group_counter() == 1,
    {
        let chars = crate::matcher::text_chars(pattern);
        proof {
            assert(chars@.len() == chars.len());
        }
        RegexParser { pattern: chars, index: 0, next_group_idx: 1 }
    }

    /// A sub-parser over one alternative segment, inheriting the group
    /// numbering.
    fn new_from_chars(pattern: Vec<char>, next_group_idx: usize) -> (r: RegexParser)
        requires
            1 <= next_group_idx,
            next_group_idx + pattern@.len() <= usize::MAX + 1,
        ensures
            r.wf(),
            r.pattern_model() == pattern@,
            r.position() == 0,
            r.group_counter() == next_group_idx as int,
    {
        RegexParser { pattern, index: 0, next_group_idx }
    }

    /// Splits the group whose `(` stands at the current position into its
    /// alternative segments, together with the number of characters the
    /// group occupies.
    fn split_alternation(&self) -> (r: Result<(Vec<Vec<char>>, usize), ParseError>)
        requires
            self.wf(),
            self.position() < self.pattern_model().len(),
            self.pattern_model()[self.position()] == '(',
        ensures
            match (r, split_alt(self.pattern_model(), self.position())) {
                (Ok(pe), Ok(ps)) => seg_views(pe.0@) == ps.0 && pe.1 == ps.1,
                (Err(a), Err(b)) => a == b,
                _ => false,
            },
    {
        let ghost p = self.pattern@;
        let ghost i0 = self.index as int;
        let mut segments: Vec<Vec<char>> = Vec::new();
        let mut segment: Vec<char> = Vec::new();
        let mut level: usize = 0;
        let mut j = self.index;
        proof {
            assert(p.len() == self.pattern.len());
        }
        loop
            invariant
                self.wf(),
                p == self.pattern@,
                p.len() <= usize::MAX,
                0 <= i0 < p.len(),
                p[i0] == '(',
                i0 == self.index as int,
                i0 <= j as int <= p.len(),
                level as int <= j as int - i0,
                (j as int == i0 && level == 0) || level >= 1,
                split_alt(p, i0) == split_rec(
                    p,
                    i0,
                    j as int,
                    level as int,
                    seg_views(segments@),
                    segment@,
                ),
            decreases p.len() - j,
        {
            if j >= self.pattern.len() {
                return Err(ParseError::UnbalancedParen);
            }
            let ch = self.pattern[j];
            if ch == '(' {
                if level == 0 {
                    level = 1;
                } else {
                    level = level + 1;
                    segment.push(ch);
                }
            } else if ch == ')' {
                if level == 1 {
                    if segment.len() == 0 {
                        return Err(ParseError::EmptyAlternative);
                    }
                    let ghost prevv = segments@;
                    let ghost segv = segment@;
                    segments.push(segment);
                    proof {
                        assert(segments@.drop_last() =~= prevv);
                        assert(segments@.last()@ == segv);
                        assert(seg_views(segments@) == seg_views(prevv).push(segv));
                    }
                    return Ok((segments, j + 1 - self.index));
                } else {
                    level = level - 1;
                    segment.push(ch);
                }
            } else if ch == '|' && level == 1 {
                if segment.len() == 0 {
                    return Err(ParseError::EmptyAlternative);
                }
                let ghost prevv = segments@;
                let ghost segv = segment@;
                segments.push(segment);
                proof {
                    assert(segments@.drop_last() =~= prevv);
                    assert(segments@.last()@ == segv);
                    assert(seg_views(segments@) == seg_views(prevv).push(segv));
                }
                segment = Vec::new();
            } else {
                segment.push(ch);
            }
            j = j + 1;
        }
    }

    /// Reads a character class: the characters between the current `[` and
    /// the closing `]`, negated when the body starts with `^`.
    fn parse_group_matcher(&mut self) -> (r: Result<Matcher, ParseError>)
        requires
            old(self).wf(),
            old(self).position() < old(self).pattern_model().len(),
            old(self).pattern_model()[old(self).position()] == '[',
        ensures
            final(self).wf(),
            final(self).pattern_model() == old(self).pattern_model(),
            final(self).group_counter() == old(self).group_counter(),
            old(self).position() <= final(self).position(),
            ({
                let p = old(self).pattern_model();
                let i = old(self).position();
                if i + 1 >= p.len() {
                    r == Err::<Matcher, ParseError>(ParseError::UnbalancedBracket)
                } else {
                    let negated = p[i + 1] == '^';
                    let init: Seq<char> = if negated {
                        Seq::empty()
                    } else {
                        seq![p[i + 1]]
                    };
                    match scan_class(p, i + 2, init) {
                        Err(e) => r == Err::<Matcher, ParseError>(e),
                        Ok(pair) => r matches Ok(m) && m@ == MatcherModel::SingleCharBranch(
                            pair.0,
                            negated,
                        ) && final(self).position() == pair.1,
                    }
                }
            }),
    {
        let ghost p = self.pattern@;
        let ghost i = self.index as int;
        proof {
            assert(p.len() == self.pattern.len());
        }
        if self.index + 1 >= self.pattern.len() {
            return Err(ParseError::UnbalancedBracket);
        }
        let first = self.pattern[self.index + 1];
        let negated = first == '^';
        let mut characters: Vec<char> = Vec::new();
        if !negated {
            characters.push(first);
        }
        let ghost init = characters@;
        let mut j = self.index + 2;
        loop
            invariant
                self.wf(),
                p == self.pattern@,
                old(self).pattern_model() == p,
                old(self).position() == i,
                old(self).group_counter() == self.next_group_idx as int,
                p.len() <= usize::MAX,
                0 <= i,
                i == self.index as int,
                i + 2 <= j as int <= p.len(),
                i + 1 < p.len(),
                negated == (p[i + 1] == '^'),
                (init == if negated {
                    Seq::<char>::empty()
                } else {
                    seq![p[i + 1]]
                }),
                scan_class(p, i + 2, init) == scan_class(p, j as int, characters@),
            decreases p.len() - j,
        {
            if j >= self.pattern.len() {
                return Err(ParseError::UnbalancedBracket);
            }
            let ch = self.pattern[j];
            if ch == ']' {
                self.index = j + 1;
                return Ok(Matcher::new_single_char_branch(characters, negated));
            }
            characters.push(ch);
            j = j + 1;
        }
    }

    /// Reads the body of a `{n}` quantifier from the current `{` and leaves
    /// the position after the closing `}`.
    fn parse_quantifiers(&mut self) -> (r: Result<usize, ParseError>)
        requires
            old(self).wf(),
            old(self).position() < old(self).pattern_model().len(),
            old(self).pattern_model()[old(self).position()] == '{',
        ensures
            final(self).wf(),
            final(self).pattern_model() == old(self).pattern_model(),
            final(self).group_counter() == old(self).group_counter(),
            old(self).position() <= final(self).position(),
            match (r, scan_quantifier(old(self).pattern_model(), old(self).position() + 1, 0, false)) {
                (Ok(n), Ok(pair)) => n as int == pair.0 && final(self).position() == pair.1,
                (Err(a), Err(b)) => a == b,
                _ => false,
            },
    {
        let ghost p = self.pattern@;
        let ghost i = self.index as int;
        proof {
            assert(p.len() == self.pattern.len());
        }
        let mut val: usize = 0;
        let mut overflowed = false;
        let mut any = false;
        let ghost mut sval: int = 0;
        let mut j = self.index + 1;
        loop
            invariant
                self.wf(),
                p == self.pattern@,
                old(self).pattern_model() == p,
                old(self).position() == i,
                old(self).group_counter() == self.next_group_idx as int,
                p.len() <= usize::MAX,
                0 <= i,
                i == self.index as int,
                i + 1 <= j as int <= p.len(),
                0 <= sval,
                !overflowed ==> val as int == sval,
                overflowed ==> sval > usize::MAX,
                scan_quantifier(p, i + 1, 0, false) == scan_quantifier(p, j as int, sval, any),
            decreases p.len() - j,
        {
            if j >= self.pattern.len() {
                return Err(ParseError::UnexpectedEnd);
            }
            let ch = self.pattern[j];
            let cu = ch as u32;
            if cu >= 48 && cu <= 57 {
                let d = (cu - 48) as usize;
                proof {
                    assert(is_digit(ch));
                    assert(digit_val(ch) == d as int);
                    sval = sval * 10 + digit_val(ch);
                }
                if !overflowed {
                    match val.checked_mul(10) {
                        Some(v10) => match v10.checked_add(d) {
                            Some(v) => {
                                val = v;
                            },
                            None => {
                                overflowed = true;
                            },
                        },
                        None => {
                            overflowed = true;
                        },
                    }
                }
                any = true;
                j = j + 1;
            } else if ch == '}' {
                proof {
                    assert(!is_digit(ch));
                }
                if !any || overflowed {
                    return Err(ParseError::InvalidQuantifierBody);
                }
                self.index = j + 1;
                return Ok(val);
            } else {
                proof {
                    assert(!is_digit(ch));
                }
                return Err(ParseError::InvalidQuantifierBody);
            }
        }
    }
}


impl RegexParser {
    /// Parses the group whose `(` stands at the current position: splits it
    /// into alternative segments, parses each with a sub-parser that
    /// continues the group numbering, and leaves the position after the
    /// closing `)`.
    fn parse_group(&mut self) -> (r: Result<Matcher, ParseError>)
        requires
            old(self).wf(),
            old(self).position() < old(self).pattern_model().len(),
            old(self).pattern_model()[old(self).position()] == '(',
        ensures
            final(self).wf(),
            final(self).pattern_model() == old(self).pattern_model(),
            old(self).group_counter() <= final(self).group_counter(),
            old(self).position() <= final(self).position(),
            ({
                let p = old(self).pattern_model();
                let i = old(self).position();
                let g = old(self).group_counter();
                match split_alt(p, i) {
                    Err(e) => r == Err::<Matcher, ParseError>(e),
                    Ok(pair) => match parse_segments_spec(pair.0, 0, g + 1, Seq::empty()) {
                        Err(e) => r == Err::<Matcher, ParseError>(e),
                        Ok(inner) => r matches Ok(m) && m@ == MatcherModel::Group(inner.0, g)
                            && final(self).position() == i + pair.1 && final(self).group_counter()
                            == inner.1 && inner.1 - g <= pair.1 - 1,
                    },
                }
            }),
        decreases old(self).pattern_model().len(), 0int,
    {
        let ghost p = self.pattern@;
        let ghost i = self.index as int;
        let ghost g0 = self.next_group_idx as int;
        proof {
            assert(p.len() == self.pattern.len());
        }
        let sr = self.split_alternation();
        let (segments, consumed) = match sr {
            Ok(x) => x,
            Err(e) => {
                return Err(e);
            },
        };
        let ghost segs = seg_views(segments@);
        proof {
            lemma_split_alt_bounds(p, i);
            lemma_seg_views(segments@);
            lemma_seg_sum_from_zero(segs);
        }
        let group_idx = self.next_group_idx;
        self.next_group_idx = self.next_group_idx + 1;
        let mut alts: Vec<Matcher> = Vec::new();
        let n = segments.len();
        for k in 0..n
            invariant
                n == segments.len(),
                self.pattern@ == p,
                old(self).pattern_model() == p,
                old(self).position() == i,
                old(self).group_counter() == g0,
                p.len() <= usize::MAX,
                0 <= i < p.len(),
                self.index as int == i,
                group_idx as int == g0,
                1 <= g0,
                g0 + (p.len() - i) <= usize::MAX + 1,
                segs == seg_views(segments@),
                segs.len() == n,
                forall|t: int| 0 <= t < n ==> segs[t] == segments@[t]@,
                split_alt(p, i) == Ok::<(Seq<Seq<char>>, int), ParseError>((segs, consumed as int)),
                seg_sum(segs) + segs.len() == consumed - 1,
                2 <= consumed as int <= p.len() - i,
                seg_sum_from(segs, 0) == seg_sum(segs),
                g0 + 1 <= self.next_group_idx as int,
                self.next_group_idx as int + seg_sum_from(segs, k as int) <= g0 + 1 + seg_sum(segs),
                parse_segments_spec(segs, 0, g0 + 1, Seq::empty()) == parse_segments_spec(
                    segs,
                    k as int,
                    self.next_group_idx as int,
                    models(alts@),
                ),
            decreases n - k,
        {
            proof {
                lemma_seg_sum_elem(segs, k as int);
                lemma_seg_sum_from_nonneg(segs, k as int + 1);
                assert(seg_sum_from(segs, k as int) == segs[k as int].len() + seg_sum_from(
                    segs,
                    k as int + 1,
                ));
            }
            let seg = crate::matcher::copy_chars(&segments[k]);
            let ghost cur_g = self.next_group_idx as int;
            let mut sub = RegexParser::new_from_chars(seg, self.next_group_idx);
            let sres = sub.parse();
            match sres {
                Err(e) => {
                    self.index = self.index + consumed;
                    return Err(e);
                },
                Ok(m) => {
                    let ghost prevv = alts@;
                    let ghost mm = m@;
                    alts.push(m);
                    self.next_group_idx = sub.next_group_idx;
                    proof {
                        assert(alts@.drop_last() =~= prevv);
                        assert(alts@.last()@ == mm);
                        assert(models(alts@) == models(prevv).push(mm));
                        assert(segs[k as int] == segments@[k as int]@);
                        assert(sub.group_counter() <= cur_g + segs[k as int].len());
                        assert(self.next_group_idx as int == sub.group_counter());
                    }
                },
            }
        }
        self.index = self.index + consumed;
        proof {
            assert(parse_segments_spec(
                segs,
                n as int,
                self.next_group_idx as int,
                models(alts@),
            ) == Ok::<(Seq<MatcherModel>, int), ParseError>((
                models(alts@),
                self.next_group_idx as int,
            )));
        }
        Ok(Matcher::new_group(alts, group_idx))
    }

    /// Parses the whole remaining pattern into one matcher: its atoms in
    /// order, with each quantifier wrapping the atom before it, collapsed
    /// into a sequence as [`collapse`] describes.  Returns exactly what
    /// [`parse_from_spec`] describes for the pattern, which in particular
    /// makes parsing deterministic.
    pub fn parse(&mut self) -> (r: Result<Matcher, ParseError>)
        requires
            old(self).wf(),
        ensures
            final(self).wf(),
            final(self).pattern_model() == old(self).pattern_model(),
            (match (
                r,
                parse_from_spec(
                    old(self).pattern_model(),
                    old(self).position(),
                    old(self).group_counter(),
                ),
            ) {
                (Ok(m), Ok(pair)) => m@ == pair.0 && final(self).group_counter() == pair.1 && old(
                    self,
                ).group_counter() <= pair.1 && pair.1 <= old(self).group_counter() + (old(
                    self,
                ).pattern_model().len() - old(self).position()),
                (Err(e), Err(e2)) => e == e2,
                _ => false,
            }),
        decreases old(self).pattern_model().len(), 1int,
    {
        let ghost p = self.pattern@;
        let ghost i0 = self.index as int;
        let ghost g0 = self.next_group_idx as int;
        proof {
            assert(p.len() == self.pattern.len());
        }
        let mut matchers: Vec<Matcher> = Vec::new();
        while self.index < self.pattern.len()
            invariant
                self.wf(),
                self.pattern@ == p,
                old(self).pattern_model() == p,
                old(self).position() == i0,
                old(self).group_counter() == g0,
                p.len() <= usize::MAX,
                0 <= i0 <= self.index as int,
                1 <= g0 <= self.next_group_idx as int,
                self.next_group_idx as int - g0 <= self.index as int - i0,
                parse_atoms_spec(p, i0, g0, Seq::empty()) == parse_atoms_spec(
                    p,
                    self.index as int,
                    self.next_group_idx as int,
                    models(matchers@),
                ),
            decreases p.len() - self.index,
        {
            let c = self.pattern[self.index];
            let ghost i = self.index as int;
            let ghost g = self.next_group_idx as int;
            let ghost ms = models(matchers@);
            if c == '\\' {
                proof {
                    lemma_step_escape(p, i, g, ms);
                }
                if self.index + 1 >= self.pattern.len() {
                    return Err(ParseError::UnexpectedEnd);
                }
                let d = self.pattern[self.index + 1];
                let atom: Matcher;
                if d == 'd' {
                    atom = crate::matcher::make_digit_matcher();
                } else if d == 'w' {
                    atom = crate::matcher::make_alpha_num_matcher();
                } else if d == '\\' || d == '+' || d == '?' || d == '.' || d == '[' || d == '(' {
                    atom = Matcher::new_single_char(d);
                } else {
                    let du = d as u32;
                    if du >= 48 && du <= 57 {
                        proof {
                            assert(is_digit(d));
                        }
                        let idx = (du - 48) as usize;
                        proof {
                            assert(digit_val(d) == idx as int);
                        }
                        if idx < 1 || idx >= self.next_group_idx {
                            return Err(ParseError::InvalidBackref(idx));
                        }
                        atom = Matcher::new_group_reference(idx);
                    } else {
                        proof {
                            assert(!is_digit(d));
                        }
                        return Err(ParseError::InvalidEscape(d));
                    }
                }
                let ghost am = atom@;
                let ghost prevv = matchers@;
                matchers.push(atom);
                self.index = self.index + 2;
                proof {
                    assert(matchers@.drop_last() =~= prevv);
                    assert(matchers@.last()@ == am);
                    assert(models(matchers@) == ms.push(am));
                }
            } else if c == '[' {
                proof {
                    lemma_step_class(p, i, g, ms);
                    if i + 1 < p.len() {
                        let negated = p[i + 1] == '^';
                        let init: Seq<char> = if negated {
                            Seq::empty()
                        } else {
                            seq![p[i + 1]]
                        };
                        lemma_scan_class_next(p, i + 2, init);
                    }
                }
                let cres = self.parse_group_matcher();
                match cres {
                    Err(e) => {
                        return Err(e);
                    },
                    Ok(atom) => {
                        let ghost am = atom@;
                        let ghost prevv = matchers@;
                        matchers.push(atom);
                        proof {
                            assert(matchers@.drop_last() =~= prevv);
                            assert(matchers@.last()@ == am);
                            assert(models(matchers@) == ms.push(am));
                        }
                    },
                }
            } else if c == '(' {
                proof {
                    lemma_step_group(p, i, g, ms);
                    lemma_split_alt_bounds(p, i);
                }
                let gres = self.parse_group();
                match gres {
                    Err(e) => {
                        return Err(e);
                    },
                    Ok(atom) => {
                        let ghost am = atom@;
                        let ghost prevv = matchers@;
                        matchers.push(atom);
                        proof {
                            assert(matchers@.drop_last() =~= prevv);
                            assert(matchers@.last()@ == am);
                            assert(models(matchers@) == ms.push(am));
                        }
                    },
                }
            } else if c == '^' {
                proof {
                    lemma_step_caret(p, i, g, ms);
                }
                let atom = Matcher::new_start();
                let ghost am = atom@;
                let ghost prevv = matchers@;
                matchers.push(atom);
                self.index = self.index + 1;
                proof {
                    assert(matchers@.drop_last() =~= prevv);
                    assert(matchers@.last()@ == am);
                    assert(models(matchers@) == ms.push(am));
                }
            } else if c == '$' {
                proof {
                    lemma_step_dollar(p, i, g, ms);
                }
                let atom = Matcher::new_end();
                let ghost am = atom@;
                let ghost prevv = matchers@;
                matchers.push(atom);
                self.index = self.index + 1;
                proof {
                    assert(matchers@.drop_last() =~= prevv);
                    assert(matchers@.last()@ == am);
                    assert(models(matchers@) == ms.push(am));
                }
            } else if c == '+' || c == '*' || c == '?' {
                proof {
                    lemma_step_quantifier(p, i, g, ms);
                    lemma_models(matchers@);
                }
                if matchers.len() == 0 {
                    return Err(ParseError::QuantifierWithoutAtom);
                }
                let ghost prevv = matchers@;
                let last = matchers.pop().unwrap();
                let ghost lastm = last@;
                proof {
                    assert(matchers@ =~= prevv.drop_last());
                    assert(models(prevv).drop_last() =~= models(prevv.drop_last()));
                    assert(lastm == ms.last());
                }
                let atom: Matcher;
                if c == '+' {
                    atom = Matcher::new_one_or_more(Box::new(last), None);
                } else if c == '*' {
                    atom = Matcher::new_zero_or_more(Box::new(last), None);
                } else {
                    atom = Matcher::new_zero_or_one(&last);
                }
                let ghost am = atom@;
                let ghost prevv2 = matchers@;
                matchers.push(atom);
                self.index = self.index + 1;
                proof {
                    assert(matchers@.drop_last() =~= prevv2);
                    assert(matchers@.last()@ == am);
                    assert(models(matchers@) == ms.drop_last().push(am));
                }
            } else if c == '{' {
                proof {
                    lemma_step_brace(p, i, g, ms);
                    lemma_models(matchers@);
                    lemma_scan_quantifier_next(p, i + 1, 0, false);
                }
                if matchers.len() == 0 {
                    return Err(ParseError::QuantifierWithoutAtom);
                }
                let qres = self.parse_quantifiers();
                let quantity = match qres {
                    Err(e) => {
                        return Err(e);
                    },
                    Ok(v) => v,
                };
                let ghost prevv = matchers@;
                let last = matchers.pop().unwrap();
                let ghost lastm = last@;
                proof {
                    assert(matchers@ =~= prevv.drop_last());
                    assert(models(prevv).drop_last() =~= models(prevv.drop_last()));
                    assert(lastm == ms.last());
                }
                let atom = Matcher::Multiple {
                    matcher: Box::new(last),
                    min: quantity,
                    max: Some(quantity),
                    follow: None,
                };
                let ghost am = atom@;
                let ghost prevv2 = matchers@;
                matchers.push(atom);
                proof {
                    assert(matchers@.drop_last() =~= prevv2);
                    assert(matchers@.last()@ == am);
                    assert(models(matchers@) == ms.drop_last().push(am));
                }
            } else if c == '.' {
                proof {
                    lemma_step_dot(p, i, g, ms);
                }
                let atom = Matcher::new_wildcard();
                let ghost am = atom@;
                let ghost prevv = matchers@;
                matchers.push(atom);
                self.index = self.index + 1;
                proof {
                    assert(matchers@.drop_last() =~= prevv);
                    assert(matchers@.last()@ == am);
                    assert(models(matchers@) == ms.push(am));
                }
            } else {
                proof {
                    assert(kind_of(c) == CharKind::Literal);
                    lemma_step_literal(p, i, g, ms, c);
                }
                let atom = Matcher::new_single_char(c);
                let ghost am = atom@;
                let ghost prevv = matchers@;
                matchers.push(atom);
                self.index = self.index + 1;
                proof {
                    assert(matchers@.drop_last() =~= prevv);
                    assert(matchers@.last()@ == am);
                    assert(models(matchers@) == ms.push(am));
                }
            }
        }
        let ghost ms = models(matchers@);
        proof {
            lemma_models(matchers@);
            assert(parse_atoms_spec(p, self.index as int, self.next_group_idx as int, ms) == Ok::<
                (Seq<MatcherModel>, int),
                ParseError,
            >((ms, self.next_group_idx as int)));
        }
        if matchers.len() == 0 {
            return Err(ParseError::UnexpectedEnd);
        } else if matchers.len() == 1 {
            let ghost prevv = matchers@;
            let m = matchers.pop().unwrap();
            proof {
                assert(m@ == ms[0]);
            }
            return Ok(m);
        } else {
            return Ok(Matcher::new_sequence(matchers));
        }
    }
}

} // verus!
