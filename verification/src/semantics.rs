//! The mathematical model of the engine.
//!
//! `MatcherModel` is the abstract form of a matcher tree, and `check_spec`
//! defines what it means to evaluate such a tree against a text at a given
//! character offset.  The executable evaluator in `crate::matcher` is proved
//! to return exactly what these functions describe.
//!
//! A match is described by a [`MatchModel`]: the span of text it covers and
//! a map from group index to the span captured by that group.  The matched
//! text itself is always the slice of the searched text covered by the span,
//! so the model carries spans rather than copies of the text.

use vstd::prelude::*;

verus! {

/// A contiguous run of `len` characters starting at character index `start`.
pub struct Span {
    pub start: int,
    pub len: int,
}

/// The abstract outcome of one successful evaluation: where the match starts,
/// how many characters it covers, and the spans captured by groups during it.
pub struct MatchModel {
    pub start: int,
    pub len: int,
    pub caps: Map<int, Span>,
}

/// The abstract form of a matcher tree.
pub enum MatcherModel {
    /// Matches exactly one given character.
    SingleChar(char),
    /// Zero-width; matches only at offset 0.
    StartMatcher,
    /// Zero-width; matches only at the end-of-text offset.
    EndMatcher,
    /// Matches one character in (or, when negated, not in) the given set.
    SingleCharBranch(Seq<char>, bool),
    /// Matches the children in order, concatenating their matches.
    Sequence(Seq<MatcherModel>),
    /// Repeats `matcher` between `min` and `max` times (greedy, with the
    /// `follow` lookahead used to curb greedy consumption).
    Multiple {
        matcher: Box<MatcherModel>,
        min: int,
        max: Option<int>,
        follow: Option<Box<MatcherModel>>,
    },
    /// Matches any single character.
    Wildcard,
    /// Matches the first alternative that succeeds and records the capture
    /// under the given group index.
    Group(Seq<MatcherModel>, int),
    /// Matches the text previously captured by the group with this index.
    GroupReference(int),
}

/// A zero-width match at `off`, with no captures.
pub open spec fn empty_match(off: int) -> MatchModel {
    MatchModel { start: off, len: 0, caps: Map::empty() }
}

/// A one-character match at `off`, with no captures.
pub open spec fn one_char_match(off: int) -> MatchModel {
    MatchModel { start: off, len: 1, caps: Map::empty() }
}

/// Remaining repetitions a `Multiple` evaluation may still need; part of the
/// termination measure of `check_star_spec`.
pub open spec fn star_budget(m: MatcherModel, count: int) -> int {
    match m->Multiple_max {
        Some(mx) => mx - count,
        None => if count < m->Multiple_min {
            m->Multiple_min - count
        } else {
            0
        },
    }
}

/// Evaluates matcher `m` against `text` at character offset `off`, with
/// `groups` holding the spans captured so far by earlier evaluation.
/// `None` means no match at exactly this offset.
pub open spec fn check_spec(
    m: MatcherModel,
    text: Seq<char>,
    off: int,
    groups: Map<int, Span>,
) -> Option<MatchModel>
    decreases m, 3int, 0int, 0int,
{
    match m {
        MatcherModel::SingleChar(c) => if off < text.len() && text[off] == c {
            Some(one_char_match(off))
        } else {
            None
        },
        MatcherModel::StartMatcher => if off == 0 {
            Some(empty_match(off))
        } else {
            None
        },
        MatcherModel::EndMatcher => if off == text.len() {
            Some(empty_match(off))
        } else {
            None
        },
        MatcherModel::SingleCharBranch(chars, negated) => if off < text.len() && (chars.contains(
            text[off],
        ) != negated) {
            Some(one_char_match(off))
        } else {
            None
        },
        MatcherModel::Wildcard => if off < text.len() {
            Some(one_char_match(off))
        } else {
            None
        },
        MatcherModel::Sequence(children) => {
            proof {
                assert(decreases_to!(m => m->Sequence_0));
            }
            check_seq_spec(children, 0, text, off, off, groups, Map::empty())
        },
        MatcherModel::Multiple { .. } => check_star_spec(m, text, off, off, 0, groups, Map::empty()),
        MatcherModel::Group(alts, idx) => {
            proof {
                assert(decreases_to!(m => m->Group_0));
            }
            check_alts_spec(alts, idx, 0, text, off, groups)
        },
        MatcherModel::GroupReference(idx) => check_ref_spec(idx, text, off, groups),
    }
}

/// Evaluates the `children` of a sequence node from child `k` on, where
/// the sequence match started at `start` and has consumed up to `off`, and
/// `caps` holds the captures made by the children so far.
pub open spec fn check_seq_spec(
    children: Seq<MatcherModel>,
    k: int,
    text: Seq<char>,
    start: int,
    off: int,
    groups: Map<int, Span>,
    caps: Map<int, Span>,
) -> Option<MatchModel>
    decreases children, 2int, children.len() - k, 0int,
{
    if k < 0 || k >= children.len() {
        Some(MatchModel { start, len: off - start, caps })
    } else {
        match check_spec(children[k], text, off, groups.union_prefer_right(caps)) {
            None => None,
            Some(cm) => check_seq_spec(
                children,
                k + 1,
                text,
                start,
                off + cm.len,
                groups,
                caps.union_prefer_right(cm.caps),
            ),
        }
    }
}

/// Evaluates the repetition node `m`: the repetition started at `start`, has
/// consumed up to `off` in `count` repetitions, and `caps` holds the captures
/// made by those repetitions.
///
/// A repetition of the child that consumed no characters cannot make further
/// progress once the minimum count is reached, so an unbounded repetition
/// stops there; this keeps the evaluation total.  The bounds test on the
/// child match is defensive: `lemma_check_spec_in_bounds` shows it never
/// fails for a result of `check_spec`.
pub open spec fn check_star_spec(
    m: MatcherModel,
    text: Seq<char>,
    start: int,
    off: int,
    count: int,
    groups: Map<int, Span>,
    caps: Map<int, Span>,
) -> Option<MatchModel>
    decreases m, 2int, text.len() - off, star_budget(m, count),
        when m is Multiple
{
    let child = *m->Multiple_matcher;
    let min = m->Multiple_min;
    let max = m->Multiple_max;
    let acc = MatchModel { start, len: off - start, caps };
    proof {
        assert(decreases_to!(m => m->Multiple_matcher));
        if m->Multiple_follow is Some {
            assert(decreases_to!(m => m->Multiple_follow));
            assert(decreases_to!(m->Multiple_follow => m->Multiple_follow->Some_0));
        }
    }
    match check_spec(child, text, off, groups.union_prefer_right(caps)) {
        None => if count >= min {
            Some(acc)
        } else {
            None
        },
        Some(cm) => if !(0 <= cm.len && off + cm.len <= text.len()) {
            None
        } else if count >= min && (m->Multiple_follow matches Some(f) && first_match_spec(
            *f,
            text.subrange(off, off + cm.len),
        ) is Some) {
            // The next repetition would itself be accepted by the matcher
            // that follows this one: yield it back instead of consuming it.
            Some(acc)
        } else {
            let caps2 = caps.union_prefer_right(cm.caps);
            if max matches Some(mx) && count + 1 >= mx {
                Some(MatchModel { start, len: off + cm.len - start, caps: caps2 })
            } else if cm.len == 0 && max is None && count + 1 >= min {
                Some(MatchModel { start, len: off - start, caps: caps2 })
            } else {
                check_star_spec(m, text, start, off + cm.len, count + 1, groups, caps2)
            }
        },
    }
}

/// Evaluates the `alts` alternatives of a group node with index `idx` from
/// alternative `k` on; the first alternative that matches decides, and the
/// group records its own span under its index.
pub open spec fn check_alts_spec(
    alts: Seq<MatcherModel>,
    idx: int,
    k: int,
    text: Seq<char>,
    off: int,
    groups: Map<int, Span>,
) -> Option<MatchModel>
    decreases alts, 2int, alts.len() - k, 0int,
{
    if k < 0 || k >= alts.len() {
        None
    } else {
        match check_spec(alts[k], text, off, groups) {
            Some(am) => Some(
                MatchModel {
                    start: off,
                    len: am.len,
                    caps: am.caps.insert(idx, Span { start: off, len: am.len }),
                },
            ),
            None => check_alts_spec(alts, idx, k + 1, text, off, groups),
        }
    }
}

/// Evaluates a back-reference: the text at `off` must begin with the exact
/// text captured for group `idx`; an unset group never matches.
pub open spec fn check_ref_spec(
    idx: int,
    text: Seq<char>,
    off: int,
    groups: Map<int, Span>,
) -> Option<MatchModel> {
    if groups.dom().contains(idx) {
        let cap = groups[idx];
        if off + cap.len <= text.len() && text.subrange(off, off + cap.len) == text.subrange(
            cap.start,
            cap.start + cap.len,
        ) {
            Some(MatchModel { start: off, len: cap.len, caps: Map::empty() })
        } else {
            None
        }
    } else {
        None
    }
}

/// The first offset at or after `off` where `m` matches, or `None` when no
/// offset up to and including the end of the text matches.
pub open spec fn find_from_spec(m: MatcherModel, text: Seq<char>, off: int) -> Option<MatchModel>
    decreases m, 4int, text.len() - off + 1, 0int,
{
    if off < 0 || off > text.len() {
        None
    } else {
        match check_spec(m, text, off, Map::empty()) {
            Some(mm) => Some(mm),
            None => find_from_spec(m, text, off + 1),
        }
    }
}

/// The leftmost match of `m` in `text`.
pub open spec fn first_match_spec(m: MatcherModel, text: Seq<char>) -> Option<MatchModel>
    decreases m, 5int, 0int, 0int,
{
    find_from_spec(m, text, 0)
}

/// All non-overlapping matches of `m` in `text`, searching from `from`:
/// each search resumes after the previous match's end, or one character
/// further when the previous match was empty.
pub open spec fn all_matches_spec(m: MatcherModel, text: Seq<char>, from: int) -> Seq<MatchModel>
    decreases text.len() - from + 1,
{
    if from < 0 || from > text.len() {
        Seq::empty()
    } else {
        match find_from_spec(m, text, from) {
            None => Seq::empty(),
            Some(mm) => {
                let next = if mm.len <= 0 {
                    mm.start + 1
                } else {
                    mm.start + mm.len
                };
                if next <= from || next > text.len() {
                    // `next > text.len()` ends the search; `next <= from`
                    // cannot happen for a result of `find_from_spec` (see
                    // `lemma_find_from_spec_in_bounds`) and is only here to
                    // make termination evident.
                    seq![mm]
                } else {
                    seq![mm] + all_matches_spec(m, text, next)
                }
            },
        }
    }
}

/// Two adjacent atoms of a sequence may be merged when the first is a
/// repetition and the second repeats the same matcher: either another
/// repetition of it, or one more literal occurrence of it.  The sums the
/// merge would form must fit in `usize`; neighbours whose sums would not
/// fit are left unmerged.  Merging is part of the engine's defined
/// behaviour, not a transparent rewrite: without backtracking, the merged
/// and unmerged forms can match different lengths (see
/// `crate::properties::lemma_merging_changes_match_length`).
pub open spec fn mergeable(a: MatcherModel, b: MatcherModel) -> bool {
    a matches MatcherModel::Multiple { matcher, min, max, .. } && (match b {
        MatcherModel::Multiple { matcher: m2, min: min2, max: max2, .. } => *matcher == *m2 && min
            + min2 <= usize::MAX && (match (max, max2) {
            (Some(x), Some(y)) => x + y <= usize::MAX,
            _ => true,
        }),
        _ => *matcher == b && min + 1 <= usize::MAX && (match max {
            Some(x) => x + 1 <= usize::MAX,
            None => true,
        }),
    })
}

/// The merged form of two adjacent atoms: the minima add up, the maxima add
/// up when both are bound (and become unbound otherwise), and a single
/// occurrence of the repeated matcher counts as one more of each.
pub open spec fn merged(a: MatcherModel, b: MatcherModel) -> MatcherModel {
    match (a, b) {
        (
            MatcherModel::Multiple { matcher: m1, min: min1, max: max1, .. },
            MatcherModel::Multiple { matcher: m2, min: min2, max: max2, .. },
        ) => MatcherModel::Multiple {
            matcher: m1,
            min: min1 + min2,
            max: match (max1, max2) {
                (Some(x), Some(y)) => Some(x + y),
                _ => None,
            },
            follow: None,
        },
        (MatcherModel::Multiple { matcher: m1, min: min1, max: max1, .. }, _) => MatcherModel::Multiple {
            matcher: m1,
            min: min1 + 1,
            max: match max1 {
                Some(x) => Some(x + 1),
                None => None,
            },
            follow: None,
        },
        _ => a,
    }
}

/// Whether attaching a follow matcher to `m` can change it: it reaches a
/// repetition through the last atom of a sequence or through the
/// alternatives of a group.
pub open spec fn can_take_follow(m: MatcherModel) -> bool
    decreases m,
{
    match m {
        MatcherModel::Multiple { .. } => true,
        MatcherModel::Group(alts, _) => {
            proof {
                assert(decreases_to!(m => m->Group_0));
            }
            any_can_take_follow(alts)
        },
        MatcherModel::Sequence(children) => {
            proof {
                assert(decreases_to!(m => m->Sequence_0));
            }
            children.len() > 0 && {
                proof {
                    assert(decreases_to!(children => children[children.len() - 1]));
                }
                can_take_follow(children.last())
            }
        },
        _ => false,
    }
}

/// Whether some matcher of `s` can take a follow matcher.
pub open spec fn any_can_take_follow(s: Seq<MatcherModel>) -> bool
    decreases s,
{
    s.len() > 0 && {
        proof {
            assert(decreases_to!(s => s[s.len() - 1]));
            assert(decreases_to!(s => s.subrange(0, s.len() - 1)));
            assert(s.drop_last() == s.subrange(0, s.len() - 1));
        }
        can_take_follow(s.last()) || any_can_take_follow(s.drop_last())
    }
}

/// Attaches `f` as the follow of every repetition that ends `m`: directly
/// on a repetition, on the last atom of a sequence, and on each alternative
/// of a group; anything else is left unchanged.
pub open spec fn with_follow(m: MatcherModel, f: MatcherModel) -> MatcherModel
    decreases m,
{
    match m {
        MatcherModel::Multiple { matcher, min, max, .. } => MatcherModel::Multiple {
            matcher,
            min,
            max,
            follow: Some(Box::new(f)),
        },
        MatcherModel::Group(alts, idx) => {
            proof {
                assert(decreases_to!(m => m->Group_0));
            }
            MatcherModel::Group(with_follow_all(alts, f), idx)
        },
        MatcherModel::Sequence(children) => {
            if children.len() == 0 {
                m
            } else {
                proof {
                    assert(decreases_to!(m => m->Sequence_0));
                    assert(decreases_to!(m->Sequence_0 => m->Sequence_0[m->Sequence_0.len() - 1]));
                }
                MatcherModel::Sequence(
                    children.update(children.len() - 1, with_follow(children.last(), f)),
                )
            }
        },
        _ => m,
    }
}

/// Attaches `f` to every matcher of `s` as `with_follow` does.
pub open spec fn with_follow_all(s: Seq<MatcherModel>, f: MatcherModel) -> Seq<MatcherModel>
    decreases s,
{
    if s.len() == 0 {
        Seq::empty()
    } else {
        proof {
            assert(decreases_to!(s => s[s.len() - 1]));
            assert(decreases_to!(s => s.subrange(0, s.len() - 1)));
            assert(s.drop_last() == s.subrange(0, s.len() - 1));
        }
        with_follow_all(s.drop_last(), f).push(with_follow(s.last(), f))
    }
}

pub proof fn lemma_with_follow_all(s: Seq<MatcherModel>, f: MatcherModel)
    ensures
        with_follow_all(s, f).len() == s.len(),
        forall|i: int| 0 <= i < s.len() ==> with_follow_all(s, f)[i] == with_follow(s[i], f),
    decreases s.len(),
{
    if s.len() == 0 {
    } else {
        lemma_with_follow_all(s.drop_last(), f);
        assert(forall|i: int| 0 <= i < s.len() - 1 ==> s.drop_last()[i] == s[i]);
    }
}

pub proof fn lemma_any_can_take_follow(s: Seq<MatcherModel>)
    ensures
        any_can_take_follow(s) <==> exists|i: int| 0 <= i < s.len() && can_take_follow(#[trigger] s[i]),
    decreases s.len(),
{
    if s.len() == 0 {
    } else {
        lemma_any_can_take_follow(s.drop_last());
        assert(forall|i: int| 0 <= i < s.len() - 1 ==> s.drop_last()[i] == s[i]);
        if can_take_follow(s.last()) {
            assert(can_take_follow(s[s.len() - 1]));
        } else if any_can_take_follow(s.drop_last()) {
            let i = choose|i: int| 0 <= i < s.drop_last().len() && can_take_follow(
                #[trigger] s.drop_last()[i],
            );
            assert(can_take_follow(s[i]));
        } else {
            assert(forall|i: int|
                0 <= i < s.len() ==> !can_take_follow(#[trigger] s[i]) || i == s.len() - 1);
        }
    }
}

/// One step of sequence construction: the previously pending atom is either
/// merged with the next one, or wired up with it as its follow and pushed.
pub open spec fn collapse_from(
    ms: Seq<MatcherModel>,
    i: int,
    out: Seq<MatcherModel>,
    pending: Option<MatcherModel>,
) -> Seq<MatcherModel>
    decreases ms.len() - i,
{
    if i < 0 || i >= ms.len() {
        match pending {
            Some(p) => out.push(p),
            None => out,
        }
    } else {
        let nx = ms[i];
        match pending {
            None => collapse_from(ms, i + 1, out, Some(nx)),
            Some(p) => if mergeable(p, nx) {
                collapse_from(ms, i + 1, out, Some(merged(p, nx)))
            } else if can_take_follow(p) {
                collapse_from(ms, i + 1, out.push(with_follow(p, nx)), Some(nx))
            } else {
                collapse_from(ms, i + 1, out.push(p), Some(nx))
            },
        }
    }
}

/// The children of a sequence after merging adjacent repetitions of one
/// matcher and wiring each atom's follow.
pub open spec fn collapse(ms: Seq<MatcherModel>) -> Seq<MatcherModel> {
    collapse_from(ms, 0, Seq::empty(), None)
}

/// The span lies inside a text of length `n`.
pub open spec fn span_in_bounds(sp: Span, n: int) -> bool {
    0 <= sp.start && 0 <= sp.len && sp.start + sp.len <= n
}

/// Spans in `g` all lie inside a text of length `n`.
pub open spec fn caps_in_bounds(g: Map<int, Span>, n: int) -> bool {
    forall|k: int| g.dom().contains(k) ==> span_in_bounds(#[trigger] g[k], n)
}

/// A match model lies inside a text of length `n` when it starts at `start`.
pub open spec fn match_in_bounds(mm: MatchModel, start: int, n: int) -> bool {
    &&& mm.start == start
    &&& 0 <= mm.start
    &&& 0 <= mm.len
    &&& mm.start + mm.len <= n
    &&& caps_in_bounds(mm.caps, n)
}

pub proof fn lemma_union_in_bounds(a: Map<int, Span>, b: Map<int, Span>, n: int)
    requires
        caps_in_bounds(a, n),
        caps_in_bounds(b, n),
    ensures
        caps_in_bounds(a.union_prefer_right(b), n),
{
    broadcast use vstd::map::group_map_axioms;

    let u = a.union_prefer_right(b);
    assert forall|k: int| u.dom().contains(k) implies span_in_bounds(#[trigger] u[k], n) by {
        if b.dom().contains(k) {
            assert(span_in_bounds(b[k], n));
            assert(u[k] == b[k]);
        } else {
            assert(a.dom().contains(k));
            assert(span_in_bounds(a[k], n));
            assert(u[k] == a[k]);
        }
    }
}

/// Every match that `check_spec` produces starts exactly at the offset it
/// was asked about and lies, together with all its captured spans, inside
/// the text.
pub proof fn lemma_check_spec_in_bounds(
    m: MatcherModel,
    text: Seq<char>,
    off: int,
    groups: Map<int, Span>,
)
    requires
        0 <= off <= text.len(),
        caps_in_bounds(groups, text.len() as int),
    ensures
        check_spec(m, text, off, groups) matches Some(mm) ==> match_in_bounds(
            mm,
            off,
            text.len() as int,
        ),
    decreases m, 3int, 0int, 0int,
{
    match m {
        MatcherModel::Sequence(children) => {
            lemma_check_seq_spec_in_bounds(children, 0, text, off, off, groups, Map::empty());
        },
        MatcherModel::Multiple { .. } => {
            lemma_check_star_spec_in_bounds(m, text, off, off, 0, groups, Map::empty());
        },
        MatcherModel::Group(alts, idx) => {
            lemma_check_alts_spec_in_bounds(alts, idx, 0, text, off, groups);
        },
        _ => {},
    }
}

pub proof fn lemma_check_seq_spec_in_bounds(
    children: Seq<MatcherModel>,
    k: int,
    text: Seq<char>,
    start: int,
    off: int,
    groups: Map<int, Span>,
    caps: Map<int, Span>,
)
    requires
        0 <= start <= off <= text.len(),
        caps_in_bounds(groups, text.len() as int),
        caps_in_bounds(caps, text.len() as int),
    ensures
        check_seq_spec(children, k, text, start, off, groups, caps) matches Some(mm)
            ==> match_in_bounds(mm, start, text.len() as int),
    decreases children, 2int, children.len() - k, 0int,
{
    if k < 0 || k >= children.len() {
    } else {
        lemma_union_in_bounds(groups, caps, text.len() as int);
        lemma_check_spec_in_bounds(children[k], text, off, groups.union_prefer_right(caps));
        match check_spec(children[k], text, off, groups.union_prefer_right(caps)) {
            None => {},
            Some(cm) => {
                lemma_union_in_bounds(caps, cm.caps, text.len() as int);
                lemma_check_seq_spec_in_bounds(
                    children,
                    k + 1,
                    text,
                    start,
                    off + cm.len,
                    groups,
                    caps.union_prefer_right(cm.caps),
                );
            },
        }
    }
}

pub proof fn lemma_check_star_spec_in_bounds(
    m: MatcherModel,
    text: Seq<char>,
    start: int,
    off: int,
    count: int,
    groups: Map<int, Span>,
    caps: Map<int, Span>,
)
    requires
        m is Multiple,
        0 <= start <= off <= text.len(),
        caps_in_bounds(groups, text.len() as int),
        caps_in_bounds(caps, text.len() as int),
    ensures
        check_star_spec(m, text, start, off, count, groups, caps) matches Some(mm)
            ==> match_in_bounds(mm, start, text.len() as int),
    decreases m, 2int, text.len() - off, star_budget(m, count),
{
    let child = *m->Multiple_matcher;
    let max = m->Multiple_max;
    lemma_union_in_bounds(groups, caps, text.len() as int);
    lemma_check_spec_in_bounds(child, text, off, groups.union_prefer_right(caps));
    match check_spec(child, text, off, groups.union_prefer_right(caps)) {
        None => {},
        Some(cm) => {
            if !(0 <= cm.len && off + cm.len <= text.len()) {
            } else if count >= m->Multiple_min && (m->Multiple_follow matches Some(f)
                && first_match_spec(*f, text.subrange(off, off + cm.len)) is Some) {
            } else {
                lemma_union_in_bounds(caps, cm.caps, text.len() as int);
                let caps2 = caps.union_prefer_right(cm.caps);
                if max matches Some(mx) && count + 1 >= mx {
                } else if cm.len == 0 && max is None && count + 1 >= m->Multiple_min {
                } else {
                    lemma_check_star_spec_in_bounds(
                        m,
                        text,
                        start,
                        off + cm.len,
                        count + 1,
                        groups,
                        caps2,
                    );
                }
            }
        },
    }
}

pub proof fn lemma_check_alts_spec_in_bounds(
    alts: Seq<MatcherModel>,
    idx: int,
    k: int,
    text: Seq<char>,
    off: int,
    groups: Map<int, Span>,
)
    requires
        0 <= off <= text.len(),
        caps_in_bounds(groups, text.len() as int),
    ensures
        check_alts_spec(alts, idx, k, text, off, groups) matches Some(mm) ==> match_in_bounds(
            mm,
            off,
            text.len() as int,
        ),
    decreases alts, 2int, alts.len() - k, 0int,
{
    if k < 0 || k >= alts.len() {
    } else {
        lemma_check_spec_in_bounds(alts[k], text, off, groups);
        match check_spec(alts[k], text, off, groups) {
            Some(am) => {
                let caps2 = am.caps.insert(idx, Span { start: off, len: am.len });
                assert forall|k2: int| caps2.dom().contains(k2) implies span_in_bounds(
                    #[trigger] caps2[k2],
                    text.len() as int,
                ) by {
                    if k2 != idx {
                        assert(caps2[k2] == am.caps[k2]);
                        assert(span_in_bounds(am.caps[k2], text.len() as int));
                    }
                }
            },
            None => {
                lemma_check_alts_spec_in_bounds(alts, idx, k + 1, text, off, groups);
            },
        }
    }
}

/// Every match that `find_from_spec` produces starts at or after the offset
/// the search began at, and lies inside the text.
pub proof fn lemma_find_from_spec_in_bounds(m: MatcherModel, text: Seq<char>, off: int)
    requires
        0 <= off,
    ensures
        find_from_spec(m, text, off) matches Some(mm) ==> {
            &&& off <= mm.start
            &&& 0 <= mm.len
            &&& mm.start + mm.len <= text.len()
            &&& caps_in_bounds(mm.caps, text.len() as int)
        },
    decreases m, 4int, text.len() - off + 1, 0int,
{
    if off < 0 || off > text.len() {
    } else {
        lemma_check_spec_in_bounds(m, text, off, Map::empty());
        match check_spec(m, text, off, Map::empty()) {
            Some(mm) => {},
            None => {
                lemma_find_from_spec_in_bounds(m, text, off + 1);
            },
        }
    }
}

/// A match that `find_from_spec` produces is leftmost: no offset between
/// the start of the search and the match's own start admits a match.
pub proof fn lemma_find_from_spec_leftmost(m: MatcherModel, text: Seq<char>, off: int)
    requires
        0 <= off,
    ensures
        find_from_spec(m, text, off) matches Some(mm) ==> forall|o: int|
            off <= o < mm.start ==> check_spec(m, text, o, Map::empty()) is None,
    decreases text.len() - off + 1,
{
    if off < 0 || off > text.len() {
    } else {
        match check_spec(m, text, off, Map::empty()) {
            Some(mm) => {
                lemma_check_spec_in_bounds(m, text, off, Map::empty());
                assert(mm.start == off);
            },
            None => {
                lemma_find_from_spec_leftmost(m, text, off + 1);
                match find_from_spec(m, text, off + 1) {
                    None => {},
                    Some(mm) => {
                        assert forall|o: int| off <= o < mm.start implies check_spec(
                            m,
                            text,
                            o,
                            Map::empty(),
                        ) is None by {
                            if o == off {
                            } else {
                                assert(off + 1 <= o < mm.start);
                            }
                        }
                    },
                }
            },
        }
    }
}

/// The matches that `all_matches_spec` yields do not overlap and come in
/// strictly increasing start offsets; each lies inside the text at or after
/// the offset the search began at.
pub proof fn lemma_all_matches_spec_ordered(m: MatcherModel, text: Seq<char>, from: int)
    requires
        0 <= from,
    ensures
        ({
            let s = all_matches_spec(m, text, from);
            &&& forall|i: int|
                0 <= i < s.len() ==> from <= #[trigger] s[i].start && 0 <= s[i].len && s[i].start
                    + s[i].len <= text.len()
            &&& forall|i: int, j: int|
                0 <= i < j < s.len() ==> #[trigger] s[i].start + s[i].len <= #[trigger] s[j].start
                    && s[i].start < s[j].start
        }),
    decreases text.len() - from + 1,
{
    if from < 0 || from > text.len() {
    } else {
        lemma_find_from_spec_in_bounds(m, text, from);
        match find_from_spec(m, text, from) {
            None => {},
            Some(mm) => {
                let next = if mm.len <= 0 {
                    mm.start + 1
                } else {
                    mm.start + mm.len
                };
                if next <= from || next > text.len() {
                } else {
                    lemma_all_matches_spec_ordered(m, text, next);
                    let s = all_matches_spec(m, text, from);
                    let rest = all_matches_spec(m, text, next);
                    assert(s == seq![mm] + rest);
                    assert(s.len() == 1 + rest.len());
                    assert(s[0] == mm);
                    assert(forall|i: int| 0 <= i < rest.len() ==> s[i + 1] == #[trigger] rest[i]);
                    assert forall|i: int|
                        0 <= i < s.len() implies from <= #[trigger] s[i].start && 0 <= s[i].len
                        && s[i].start + s[i].len <= text.len() by {
                        if i > 0 {
                            assert(s[i] == rest[i - 1]);
                        }
                    }
                    assert forall|i: int, j: int| 0 <= i < j < s.len() implies #[trigger] s[i].start
                        + s[i].len <= #[trigger] s[j].start && s[i].start < s[j].start by {
                        if i > 0 {
                            assert(s[i] == rest[i - 1]);
                            assert(s[j] == rest[j - 1]);
                        } else {
                            assert(s[j] == rest[j - 1]);
                            assert(next <= rest[j - 1].start);
                        }
                    }
                }
            },
        }
    }
}

} // verus!
