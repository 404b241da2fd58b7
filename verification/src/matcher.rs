//! The matcher tree and its evaluator.
//!
//! A [`Matcher`] is built by the parser (or by hand through the `new_*`
//! constructors) and evaluated against a text.  Its meaning is given by its
//! abstract form `self@` (a [`MatcherModel`]) and the spec functions of
//! [`crate::semantics`]; every evaluation function is proved to return
//! exactly what those functions describe.

use vstd::prelude::*;
use crate::semantics::{
    MatcherModel, MatchModel, Span, check_spec, check_seq_spec, check_star_spec, check_alts_spec,
    check_ref_spec, find_from_spec, first_match_spec, all_matches_spec, caps_in_bounds, lemma_check_spec_in_bounds, lemma_find_from_spec_in_bounds,
    lemma_union_in_bounds, mergeable, merged, can_take_follow, with_follow, with_follow_all,
    lemma_with_follow_all, lemma_any_can_take_follow, collapse, collapse_from,
};
use crate::captures::{Captures, GroupCapture, caps_map, capture_span};

verus! {

/// A node of the matcher tree; see [`MatcherModel`] for what each variant
/// means.
#[derive(Debug)]
pub enum Matcher {
    SingleChar(char),
    StartMatcher,
    EndMatcher,
    SingleCharBranch(Vec<char>, bool),
    Sequence(Vec<Matcher>),
    Multiple {
        matcher: Box<Matcher>,
        min: usize,
        max: Option<usize>,
        follow: Option<Box<Matcher>>,
    },
    Wildcard,
    Group(Vec<Matcher>, usize),
    GroupReference(usize),
}

/// The abstract form of a matcher tree.
pub open spec fn model(m: Matcher) -> MatcherModel
    decreases m,
{
    match m {
        Matcher::SingleChar(c) => MatcherModel::SingleChar(c),
        Matcher::StartMatcher => MatcherModel::StartMatcher,
        Matcher::EndMatcher => MatcherModel::EndMatcher,
        Matcher::SingleCharBranch(chars, negated) => MatcherModel::SingleCharBranch(chars@, negated),
        Matcher::Sequence(children) => {
            proof {
                assert(decreases_to!(m => m->Sequence_0));
                assert(decreases_to!(m->Sequence_0 => m->Sequence_0@));
            }
            MatcherModel::Sequence(models(children@))
        },
        Matcher::Multiple { matcher, min, max, follow } => {
            proof {
                assert(decreases_to!(m => m->Multiple_matcher));
                if m->Multiple_follow is Some {
                    assert(decreases_to!(m => m->Multiple_follow));
                    assert(decreases_to!(m->Multiple_follow => m->Multiple_follow->Some_0));
                }
            }
            MatcherModel::Multiple {
                matcher: Box::new(model(*matcher)),
                min: min as int,
                max: match max {
                    Some(v) => Some(v as int),
                    None => None,
                },
                follow: match follow {
                    Some(f) => Some(Box::new(model(*f))),
                    None => None,
                },
            }
        },
        Matcher::Wildcard => MatcherModel::Wildcard,
        Matcher::Group(alts, idx) => {
            proof {
                assert(decreases_to!(m => m->Group_0));
                assert(decreases_to!(m->Group_0 => m->Group_0@));
            }
            MatcherModel::Group(models(alts@), idx as int)
        },
        Matcher::GroupReference(idx) => MatcherModel::GroupReference(idx as int),
    }
}

/// The abstract forms of a list of matchers, in order.
pub open spec fn models(s: Seq<Matcher>) -> Seq<MatcherModel>
    decreases s,
{
    if s.len() == 0 {
        Seq::empty()
    } else {
        proof {
            assert(decreases_to!(s => s.subrange(0, s.len() - 1)));
            assert(s.drop_last() == s.subrange(0, s.len() - 1));
            assert(decreases_to!(s => s[s.len() - 1]));
            assert(s.last() == s[s.len() - 1]);
        }
        models(s.drop_last()).push(model(s.last()))
    }
}

pub proof fn lemma_models(s: Seq<Matcher>)
    ensures
        models(s).len() == s.len(),
        forall|i: int| 0 <= i < s.len() ==> models(s)[i] == model(s[i]),
    decreases s.len(),
{
    if s.len() == 0 {
    } else {
        lemma_models(s.drop_last());
        assert(forall|i: int| 0 <= i < s.len() - 1 ==> s.drop_last()[i] == s[i]);
    }
}

impl View for Matcher {
    type V = MatcherModel;

    open spec fn view(&self) -> MatcherModel {
        model(*self)
    }
}

/// Whether two character lists hold the same characters in the same order.
pub(crate) fn chars_equal(a: &Vec<char>, b: &Vec<char>) -> (r: bool)
    ensures
        r == (a@ == b@),
{
    if a.len() != b.len() {
        return false;
    }
    let n = a.len();
    for i in 0..n
        invariant
            n == a.len() == b.len(),
            forall|j: int| 0 <= j < i ==> a@[j] == b@[j],
    {
        if a[i] != b[i] {
            return false;
        }
    }
    proof {
        assert(a@ =~= b@);
    }
    true
}

/// Copies a character list.
pub(crate) fn copy_chars(v: &Vec<char>) -> (r: Vec<char>)
    ensures
        r@ == v@,
{
    let mut out: Vec<char> = Vec::new();
    let n = v.len();
    for i in 0..n
        invariant
            n == v.len(),
            out@ =~= v@.subrange(0, i as int),
    {
        out.push(v[i]);
    }
    proof {
        assert(out@ =~= v@);
    }
    out
}

impl Matcher {
    /// A matcher for exactly the character `c`.
    pub fn new_single_char(c: char) -> (r: Self)
        ensures
            r@ == MatcherModel::SingleChar(c),
    {
        Matcher::SingleChar(c)
    }

    /// The start-of-text anchor.
    pub fn new_start() -> (r: Self)
        ensures
            r@ == MatcherModel::StartMatcher,
    {
        Matcher::StartMatcher
    }

    /// The end-of-text anchor.
    pub fn new_end() -> (r: Self)
        ensures
            r@ == MatcherModel::EndMatcher,
    {
        Matcher::EndMatcher
    }

    /// A character class over `chars`, negated when `negated` is set.
    pub fn new_single_char_branch(chars: Vec<char>, negated: bool) -> (r: Self)
        ensures
            r@ == MatcherModel::SingleCharBranch(chars@, negated),
    {
        Matcher::SingleCharBranch(chars, negated)
    }

    /// A wildcard matching any one character.
    pub fn new_wildcard() -> (r: Self)
        ensures
            r@ == MatcherModel::Wildcard,
    {
        Matcher::Wildcard
    }

    /// A capturing group over the given alternatives.
    pub fn new_group(matchers: Vec<Matcher>, group_idx: usize) -> (r: Self)
        ensures
            r@ == MatcherModel::Group(models(matchers@), group_idx as int),
    {
        Matcher::Group(matchers, group_idx)
    }

    /// A back-reference to the group with the given index.
    pub fn new_group_reference(group_idx: usize) -> (r: Self)
        ensures
            r@ == MatcherModel::GroupReference(group_idx as int),
    {
        Matcher::GroupReference(group_idx)
    }

    /// `matcher` repeated one or more times.
    pub fn new_one_or_more(matcher: Box<Matcher>, follow: Option<&Matcher>) -> (r: Self)
        ensures
            r@ == (MatcherModel::Multiple {
                matcher: Box::new(matcher@),
                min: 1,
                max: None,
                follow: match follow {
                    Some(f) => Some(Box::new(f@)),
                    None => None,
                },
            }),
    {
        Matcher::Multiple {
            matcher,
            min: 1,
            max: None,
            follow: match follow {
                Some(f) => Some(Box::new(f.duplicate())),
                None => None,
            },
        }
    }

    /// `matcher` repeated zero or more times.
    pub fn new_zero_or_more(matcher: Box<Matcher>, follow: Option<&Matcher>) -> (r: Self)
        ensures
            r@ == (MatcherModel::Multiple {
                matcher: Box::new(matcher@),
                min: 0,
                max: None,
                follow: match follow {
                    Some(f) => Some(Box::new(f@)),
                    None => None,
                },
            }),
    {
        Matcher::Multiple {
            matcher,
            min: 0,
            max: None,
            follow: match follow {
                Some(f) => Some(Box::new(f.duplicate())),
                None => None,
            },
        }
    }

    /// `matcher` repeated zero or one times.
    pub fn new_zero_or_one(matcher: &Matcher) -> (r: Self)
        ensures
            r@ == (MatcherModel::Multiple {
                matcher: Box::new(matcher@),
                min: 0,
                max: Some(1),
                follow: None,
            }),
    {
        Matcher::Multiple { matcher: Box::new(matcher.duplicate()), min: 0, max: Some(1), follow: None }
    }

    /// A copy of this matcher with the same abstract form.
    pub fn duplicate(&self) -> (r: Matcher)
        ensures
            r@ == self@,
        decreases *self,
    {
        match self {
            Matcher::SingleChar(c) => Matcher::SingleChar(*c),
            Matcher::StartMatcher => Matcher::StartMatcher,
            Matcher::EndMatcher => Matcher::EndMatcher,
            Matcher::Wildcard => Matcher::Wildcard,
            Matcher::SingleCharBranch(chars, negated) => Matcher::SingleCharBranch(
                copy_chars(chars),
                *negated,
            ),
            Matcher::Sequence(children) => {
                let out = Self::duplicate_all(self, children);
                Matcher::Sequence(out)
            },
            Matcher::Group(alts, idx) => {
                let out = Self::duplicate_all(self, alts);
                Matcher::Group(out, *idx)
            },
            Matcher::Multiple { matcher, min, max, follow } => {
                proof {
                    assert(decreases_to!(*self => self->Multiple_matcher));
                    if self->Multiple_follow is Some {
                        assert(decreases_to!(*self => self->Multiple_follow));
                        assert(decreases_to!(self->Multiple_follow => self->Multiple_follow->Some_0));
                    }
                }
                Matcher::Multiple {
                    matcher: Box::new(matcher.duplicate()),
                    min: *min,
                    max: *max,
                    follow: match follow {
                        Some(f) => Some(Box::new(f.duplicate())),
                        None => None,
                    },
                }
            },
            Matcher::GroupReference(idx) => Matcher::GroupReference(*idx),
        }
    }

    /// Copies a list of matchers element by element.  `whole` is the node the
    /// list belongs to; it only serves the termination argument.
    fn duplicate_all(whole: &Matcher, children: &Vec<Matcher>) -> (r: Vec<Matcher>)
        requires
            (*whole matches Matcher::Sequence(cs) && cs == *children) || (*whole matches
                Matcher::Group(cs, _) && cs == *children),
        ensures
            r@.len() == children@.len(),
            forall|i: int| 0 <= i < children@.len() ==> #[trigger] r@[i]@ == children@[i]@,
            models(r@) == models(children@),
        decreases *whole, 0int,
    {
        let mut out: Vec<Matcher> = Vec::new();
        let n = children.len();
        for i in 0..n
            invariant
                n == children.len(),
                (*whole matches Matcher::Sequence(cs) && cs == *children) || (*whole matches
                    Matcher::Group(cs, _) && cs == *children),
                out@.len() == i,
                forall|j: int| 0 <= j < i ==> #[trigger] out@[j]@ == children@[j]@,
        {
            proof {
                if *whole is Sequence {
                    assert(decreases_to!(*whole => whole->Sequence_0));
                    assert(decreases_to!(whole->Sequence_0 => whole->Sequence_0@));
                    assert(decreases_to!(whole->Sequence_0@ => whole->Sequence_0@[i as int]));
                } else {
                    assert(decreases_to!(*whole => whole->Group_0));
                    assert(decreases_to!(whole->Group_0 => whole->Group_0@));
                    assert(decreases_to!(whole->Group_0@ => whole->Group_0@[i as int]));
                }
            }
            let d = children[i].duplicate();
            out.push(d);
        }
        proof {
            lemma_models(out@);
            lemma_models(children@);
            assert forall|i: int| 0 <= i < children@.len() implies models(out@)[i] == models(
                children@,
            )[i] by {
                assert(out@[i]@ == children@[i]@);
            }
            assert(models(out@) =~= models(children@));
        }
        out
    }
}

/// The outcome of a successful evaluation: the matched text, the character
/// offset it starts at, and, for each group that captured during the
/// evaluation, the group's index together with the match it captured.
#[derive(Debug)]
pub struct Match {
    pub matched_text: String,
    pub offset: usize,
    pub sub_matches: Vec<(usize, Match)>,
}

/// The map of captured spans that `sub_matches` describes; a later entry
/// for an index overrides an earlier one (the evaluator records each index
/// at most once).
pub open spec fn sub_matches_map(s: Seq<(usize, Match)>) -> Map<int, Span>
    decreases s.len(),
{
    if s.len() == 0 {
        Map::empty()
    } else {
        sub_matches_map(s.drop_last()).insert(
            s.last().0 as int,
            Span { start: s.last().1.offset as int, len: s.last().1.matched_text@.len() as int },
        )
    }
}

/// A capture entry is a leaf match: its text is the slice of `text` its
/// offset and length describe, and it carries no captures of its own.
pub open spec fn sub_entry_agrees(e: (usize, Match), text: Seq<char>) -> bool {
    &&& e.1.offset + e.1.matched_text@.len() <= text.len()
    &&& e.1.matched_text@ == text.subrange(
        e.1.offset as int,
        e.1.offset + e.1.matched_text@.len(),
    )
    &&& e.1.sub_matches@.len() == 0
}

/// How a public `Match` reflects a match model within `text`: same offset,
/// the matched text is the covered slice of `text`, and the recorded group
/// captures describe exactly the model's captured spans.
pub open spec fn match_agrees(m: Match, mm: MatchModel, text: Seq<char>) -> bool {
    &&& m.offset == mm.start
    &&& m.matched_text@ == text.subrange(mm.start, mm.start + mm.len)
    &&& sub_matches_map(m.sub_matches@) == mm.caps
    &&& forall|i: int| 0 <= i < m.sub_matches@.len() ==> sub_entry_agrees(#[trigger] m.sub_matches@[i], text)
}

/// The internal form of a match: the span it covers and the captured spans,
/// all referring to the text being searched.
pub(crate) struct SpanMatch {
    pub start: usize,
    pub len: usize,
    pub caps: Captures,
}

pub(crate) open spec fn span_match_model(m: SpanMatch) -> MatchModel {
    MatchModel { start: m.start as int, len: m.len as int, caps: m.caps@ }
}

pub(crate) open spec fn opt_match_model(r: Option<SpanMatch>) -> Option<MatchModel> {
    match r {
        None => None,
        Some(m) => Some(span_match_model(m)),
    }
}

/// Whether `c` is one of the characters of `chars`.
fn contains_char(chars: &Vec<char>, c: char) -> (r: bool)
    ensures
        r == chars@.contains(c),
{
    let n = chars.len();
    for i in 0..n
        invariant
            n == chars.len(),
            forall|j: int| 0 <= j < i ==> chars@[j] != c,
    {
        if chars[i] == c {
            return true;
        }
    }
    proof {
        assert(!chars@.contains(c));
    }
    false
}

/// The characters of `text` from `from` (inclusive) to `to` (exclusive).
fn subvec(text: &Vec<char>, from: usize, to: usize) -> (r: Vec<char>)
    requires
        from <= to <= text@.len(),
    ensures
        r@ == text@.subrange(from as int, to as int),
{
    let mut out: Vec<char> = Vec::new();
    for i in from..to
        invariant
            from <= to <= text@.len(),
            out@ =~= text@.subrange(from as int, i as int),
    {
        out.push(text[i]);
    }
    proof {
        assert(out@ =~= text@.subrange(from as int, to as int));
    }
    out
}

impl Matcher {
    /// Evaluates this matcher against `text` at character offset `offset`,
    /// with `groups` holding the captures made so far.
    pub(crate) fn check_match(&self, text: &Vec<char>, offset: usize, groups: &Captures) -> (r:
        Option<SpanMatch>)
        requires
            offset <= text@.len(),
            groups.wf(),
            caps_in_bounds(groups@, text@.len() as int),
        ensures
            opt_match_model(r) == check_spec(self@, text@, offset as int, groups@),
            r matches Some(sm) ==> sm.caps.wf(),
        decreases *self, 3int, 0int, 0int,
    {
        match self {
            Matcher::SingleChar(c) => {
                if offset < text.len() && text[offset] == *c {
                    Some(SpanMatch { start: offset, len: 1, caps: Captures::new() })
                } else {
                    None
                }
            },
            Matcher::StartMatcher => {
                if offset == 0 {
                    Some(SpanMatch { start: offset, len: 0, caps: Captures::new() })
                } else {
                    None
                }
            },
            Matcher::EndMatcher => {
                if offset == text.len() {
                    Some(SpanMatch { start: offset, len: 0, caps: Captures::new() })
                } else {
                    None
                }
            },
            Matcher::SingleCharBranch(chars, negated) => {
                if offset < text.len() {
                    let inside = contains_char(chars, text[offset]);
                    if inside != *negated {
                        Some(SpanMatch { start: offset, len: 1, caps: Captures::new() })
                    } else {
                        None
                    }
                } else {
                    None
                }
            },
            Matcher::Wildcard => {
                if offset < text.len() {
                    Some(SpanMatch { start: offset, len: 1, caps: Captures::new() })
                } else {
                    None
                }
            },
            Matcher::Sequence(..) => self.check_sequence(text, offset, groups),
            Matcher::Multiple { .. } => self.check_multiple(text, offset, groups),
            Matcher::Group(..) => self.check_group(text, offset, groups),
            Matcher::GroupReference(idx) => Self::check_group_reference(*idx, text, offset, groups),
        }
    }

    /// Evaluates a sequence node: its children in order, threading the
    /// offset and the captures forward.
    fn check_sequence(&self, text: &Vec<char>, offset: usize, groups: &Captures) -> (r: Option<
        SpanMatch,
    >)
        requires
            *self is Sequence,
            offset <= text@.len(),
            groups.wf(),
            caps_in_bounds(groups@, text@.len() as int),
        ensures
            opt_match_model(r) == check_spec(self@, text@, offset as int, groups@),
            r matches Some(sm) ==> sm.caps.wf(),
        decreases *self, 2int, 0int, 0int,
    {
        broadcast use vstd::map_lib::group_map_union;

        match self {
            Matcher::Sequence(children) => {
                let ghost ms = models(children@);
                proof {
                    assert(text@.len() == text.len());
                }
                proof {
                    lemma_models(children@);
                }
                let mut curr = SpanMatch { start: offset, len: 0, caps: Captures::new() };
                let mut curr_offset = offset;
                let mut curr_groups = groups.duplicate();
                let n = children.len();
                for i in 0..n
                    invariant
                        n == children.len(),
                        *self matches Matcher::Sequence(cs) && cs == *children,
                        ms == models(children@),
                        ms.len() == n,
                        forall|j: int| 0 <= j < n ==> ms[j] == model(children@[j]),
                        text@.len() <= usize::MAX,
                        offset <= curr_offset <= text@.len(),
                        curr.start == offset,
                        curr.len == curr_offset - offset,
                        curr.caps.wf(),
                        curr_groups.wf(),
                        groups.wf(),
                        caps_in_bounds(groups@, text@.len() as int),
                        caps_in_bounds(curr.caps@, text@.len() as int),
                        curr_groups@ == groups@.union_prefer_right(curr.caps@),
                        check_seq_spec(
                            ms,
                            0,
                            text@,
                            offset as int,
                            offset as int,
                            groups@,
                            Map::empty(),
                        ) == check_seq_spec(
                            ms,
                            i as int,
                            text@,
                            offset as int,
                            curr_offset as int,
                            groups@,
                            curr.caps@,
                        ),
                {
                    proof {
                        assert(decreases_to!(*self => self->Sequence_0));
                        assert(decreases_to!(self->Sequence_0 => self->Sequence_0@));
                        assert(decreases_to!(self->Sequence_0@ => self->Sequence_0@[i as int]));
                    }
                    proof {
                        lemma_union_in_bounds(groups@, curr.caps@, text@.len() as int);
                    }
                    let r = children[i].check_match(text, curr_offset, &curr_groups);
                    proof {
                        lemma_check_spec_in_bounds(
                            ms[i as int],
                            text@,
                            curr_offset as int,
                            curr_groups@,
                        );
                    }
                    match r {
                        None => {
                            return None;
                        },
                        Some(other) => {
                            proof {
                                assert(opt_match_model(r) == check_spec(
                                    ms[i as int],
                                    text@,
                                    curr_offset as int,
                                    curr_groups@,
                                ));
                                assert(check_spec(
                                    ms[i as int],
                                    text@,
                                    curr_offset as int,
                                    curr_groups@,
                                ) == Some(span_match_model(other)));
                                assert(other.len <= text@.len() - curr_offset);
                                lemma_union_in_bounds(
                                    curr.caps@,
                                    other.caps@,
                                    text@.len() as int,
                                );
                                assert(groups@.union_prefer_right(
                                    curr.caps@.union_prefer_right(other.caps@),
                                ) =~= curr_groups@.union_prefer_right(other.caps@));
                            }
                            curr.len = curr.len + other.len;
                            curr_offset = curr_offset + other.len;
                            curr.caps.merge_from(&other.caps);
                            curr_groups.merge_from(&other.caps);
                        },
                    }
                }
                Some(curr)
            },
            _ => None,
        }
    }

    /// Evaluates a repetition node: greedy, stopping early when the `follow`
    /// lookahead accepts the next piece, and stopping an unbounded repetition
    /// whose child consumed nothing once the minimum count is reached.
    fn check_multiple(&self, text: &Vec<char>, offset: usize, groups: &Captures) -> (r: Option<
        SpanMatch,
    >)
        requires
            *self is Multiple,
            offset <= text@.len(),
            groups.wf(),
            caps_in_bounds(groups@, text@.len() as int),
        ensures
            opt_match_model(r) == check_spec(self@, text@, offset as int, groups@),
            r matches Some(sm) ==> sm.caps.wf(),
        decreases *self, 2int, 0int, 0int,
    {
        broadcast use vstd::map_lib::group_map_union;

        match self {
            Matcher::Multiple { matcher, min, max, follow } => {
                let ghost mm = self@;
                proof {
                    assert(text@.len() == text.len());
                }
                let mut curr = SpanMatch { start: offset, len: 0, caps: Captures::new() };
                let mut curr_offset = offset;
                let mut curr_groups = groups.duplicate();
                // `need` counts down to the minimum and `remaining` down to
                // the bound; the exact repetition count is kept in ghost form
                // only, so that no counter can overflow.
                let ghost mut count: int = 0;
                let mut need: usize = *min;
                let mut remaining: usize = match max {
                    Some(mx) => *mx,
                    None => 0,
                };
                loop
                    invariant
                        *self matches Matcher::Multiple { matcher: lm, min: lmin, max: lmax, follow: lf }
                            && lm == matcher && lmin == min && lmax == max && lf == follow,
                        mm == self@,
                        mm is Multiple,
                        text@.len() <= usize::MAX,
                        offset <= curr_offset <= text@.len(),
                        curr.start == offset,
                        curr.len == curr_offset - offset,
                        curr.caps.wf(),
                        curr_groups.wf(),
                        groups.wf(),
                        caps_in_bounds(groups@, text@.len() as int),
                        caps_in_bounds(curr.caps@, text@.len() as int),
                        curr_groups@ == groups@.union_prefer_right(curr.caps@),
                        0 <= count,
                        need as int == (if count < *min as int {
                            *min as int - count
                        } else {
                            0
                        }),
                        (max matches Some(mx) ==> (mx as int >= 1 ==> count < mx as int
                            && remaining as int == mx as int - count) && (mx as int == 0 ==> count
                            == 0 && remaining == 0)),
                        check_star_spec(
                            mm,
                            text@,
                            offset as int,
                            offset as int,
                            0,
                            groups@,
                            Map::empty(),
                        ) == check_star_spec(
                            mm,
                            text@,
                            offset as int,
                            curr_offset as int,
                            count,
                            groups@,
                            curr.caps@,
                        ),
                    decreases text@.len() - curr_offset, crate::semantics::star_budget(mm, count),
                {
                    proof {
                        assert(decreases_to!(*self => self->Multiple_matcher));
                        if self->Multiple_follow is Some {
                            assert(decreases_to!(*self => self->Multiple_follow));
                            assert(decreases_to!(self->Multiple_follow => self
                                ->Multiple_follow->Some_0));
                        }
                    }
                    proof {
                        lemma_union_in_bounds(groups@, curr.caps@, text@.len() as int);
                    }
                    let r = matcher.check_match(text, curr_offset, &curr_groups);
                    proof {
                        lemma_check_spec_in_bounds(
                            *mm->Multiple_matcher,
                            text@,
                            curr_offset as int,
                            curr_groups@,
                        );
                    }
                    match r {
                        None => {
                            if need == 0 {
                                return Some(curr);
                            } else {
                                return None;
                            }
                        },
                        Some(other) => {
                            let min_reached = need == 0;
                            proof {
                                assert(min_reached == (count >= *min as int));
                            }
                            if min_reached {
                                if let Some(f) = follow {
                                    let ctext = subvec(text, curr_offset, curr_offset + other.len);
                                    if f.matches_chars(&ctext) {
                                        return Some(curr);
                                    }
                                }
                            }
                            proof {
                                lemma_union_in_bounds(
                                    curr.caps@,
                                    other.caps@,
                                    text@.len() as int,
                                );
                                assert(groups@.union_prefer_right(
                                    curr.caps@.union_prefer_right(other.caps@),
                                ) =~= curr_groups@.union_prefer_right(other.caps@));
                            }
                            curr.len = curr.len + other.len;
                            curr_offset = curr_offset + other.len;
                            curr.caps.merge_from(&other.caps);
                            curr_groups.merge_from(&other.caps);
                            proof {
                                count = count + 1;
                            }
                            if let Some(_) = max {
                                if remaining <= 1 {
                                    return Some(curr);
                                }
                                remaining = remaining - 1;
                            } else {
                                if other.len == 0 && need <= 1 {
                                    return Some(curr);
                                }
                            }
                            if need > 0 {
                                need = need - 1;
                            }
                        },
                    }
                }
            },
            _ => None,
        }
    }

    /// Evaluates a group node: the first alternative that matches decides,
    /// and the group's own span is recorded under its index.
    fn check_group(&self, text: &Vec<char>, offset: usize, groups: &Captures) -> (r: Option<
        SpanMatch,
    >)
        requires
            *self is Group,
            offset <= text@.len(),
            groups.wf(),
            caps_in_bounds(groups@, text@.len() as int),
        ensures
            opt_match_model(r) == check_spec(self@, text@, offset as int, groups@),
            r matches Some(sm) ==> sm.caps.wf(),
        decreases *self, 2int, 0int, 0int,
    {
        match self {
            Matcher::Group(alts, idx) => {
                let ghost ms = models(alts@);
                proof {
                    lemma_models(alts@);
                }
                let n = alts.len();
                for i in 0..n
                    invariant
                        n == alts.len(),
                        *self matches Matcher::Group(la, lidx) && la == alts && lidx == idx,
                        ms == models(alts@),
                        ms.len() == n,
                        forall|j: int| 0 <= j < n ==> ms[j] == model(alts@[j]),
                        offset <= text@.len(),
                        groups.wf(),
                        caps_in_bounds(groups@, text@.len() as int),
                        check_alts_spec(
                            ms,
                            *idx as int,
                            0,
                            text@,
                            offset as int,
                            groups@,
                        ) == check_alts_spec(
                            ms,
                            *idx as int,
                            i as int,
                            text@,
                            offset as int,
                            groups@,
                        ),
                {
                    proof {
                        assert(decreases_to!(*self => self->Group_0));
                        assert(decreases_to!(self->Group_0 => self->Group_0@));
                        assert(decreases_to!(self->Group_0@ => self->Group_0@[i as int]));
                    }
                    let r = alts[i].check_match(text, offset, groups);
                    match r {
                        Some(am) => {
                            let mut caps = am.caps;
                            caps.set(*idx, offset, am.len);
                            return Some(SpanMatch { start: offset, len: am.len, caps });
                        },
                        None => {},
                    }
                }
                None
            },
            _ => None,
        }
    }

    /// Evaluates a back-reference: the text at `offset` must begin with the
    /// exact text captured for the group.
    fn check_group_reference(idx: usize, text: &Vec<char>, offset: usize, groups: &Captures) -> (r:
        Option<SpanMatch>)
        requires
            offset <= text@.len(),
            groups.wf(),
            caps_in_bounds(groups@, text@.len() as int),
        ensures
            opt_match_model(r) == check_ref_spec(idx as int, text@, offset as int, groups@),
            r matches Some(sm) ==> sm.caps.wf(),
    {
        match groups.get(idx) {
            None => None,
            Some(e) => {
                proof {
                    assert(text@.len() == text.len());
                    assert(crate::semantics::span_in_bounds(groups@[idx as int], text@.len() as int));
                }
                if e.len > text.len() - offset {
                    return None;
                }
                let ghost sub_here = text@.subrange(offset as int, offset + e.len);
                let ghost sub_cap = text@.subrange(e.start as int, e.start + e.len);
                for i in 0..e.len
                    invariant
                        text@.len() <= usize::MAX,
                        groups@.dom().contains(idx as int),
                        groups@[idx as int] == capture_span(e),
                        offset + e.len <= text@.len(),
                        e.start + e.len <= text@.len(),
                        sub_here == text@.subrange(offset as int, offset + e.len),
                        sub_cap == text@.subrange(e.start as int, e.start + e.len),
                        forall|j: int| 0 <= j < i ==> sub_here[j] == sub_cap[j],
                {
                    if text[offset + i] != text[e.start + i] {
                        proof {
                            assert(sub_here[i as int] != sub_cap[i as int]);
                        }
                        return None;
                    }
                }
                proof {
                    assert(sub_here =~= sub_cap);
                }
                Some(SpanMatch { start: offset, len: e.len, caps: Captures::new() })
            },
        }
    }

    /// The first match of this matcher in `text` at or after offset `from`.
    pub(crate) fn find_match_from_chars(&self, text: &Vec<char>, from: usize) -> (r: Option<
        SpanMatch,
    >)
        ensures
            opt_match_model(r) == find_from_spec(self@, text@, from as int),
            r matches Some(sm) ==> sm.caps.wf(),
        decreases *self, 4int, 0int, 0int,
    {
        if from > text.len() {
            return None;
        }
        let empty = Captures::new();
        let mut off = from;
        loop
            invariant
                from <= off <= text@.len(),
                empty@ == Map::<int, Span>::empty(),
                empty.wf(),
                find_from_spec(self@, text@, from as int) == find_from_spec(
                    self@,
                    text@,
                    off as int,
                ),
            decreases text@.len() - off,
        {
            let r = self.check_match(text, off, &empty);
            match r {
                Some(sm) => {
                    return Some(sm);
                },
                None => {},
            }
            if off == text.len() {
                proof {
                    assert(find_from_spec(self@, text@, off as int + 1) is None);
                }
                return None;
            }
            off = off + 1;
        }
    }

    /// Whether this matcher matches anywhere in `text`.
    pub(crate) fn matches_chars(&self, text: &Vec<char>) -> (r: bool)
        ensures
            r == (first_match_spec(self@, text@) is Some),
        decreases *self, 5int, 0int, 0int,
    {
        self.find_match_from_chars(text, 0).is_some()
    }

    /// Whether this matcher matches anywhere in `text`.
    pub fn matches(&self, text: &str) -> (r: bool)
        ensures
            r == (first_match_spec(self@, text@) is Some),
    {
        let tv = text_chars(text);
        self.matches_chars(&tv)
    }

    /// The leftmost match of this matcher in `text`: the match at the
    /// smallest character offset at which evaluation succeeds, or `None`
    /// when no offset (up to and including the end of the text) matches.
    pub fn find_match(&self, text: &str) -> (r: Option<Match>)
        ensures
            match r {
                None => first_match_spec(self@, text@) is None,
                Some(m) => first_match_spec(self@, text@) matches Some(mm) && match_agrees(
                    m,
                    mm,
                    text@,
                ),
            },
    {
        let tv = text_chars(text);
        let r = self.find_match_from_chars(&tv, 0);
        match r {
            None => None,
            Some(sm) => {
                proof {
                    lemma_find_from_spec_in_bounds(self@, tv@, 0);
                    assert(tv@.len() == tv.len());
                }
                Some(build_match(text, &sm))
            },
        }
    }

    /// All non-overlapping matches of this matcher in `text`, leftmost
    /// first: each search resumes after the previous match's end, or one
    /// character further when the previous match was empty.
    pub fn find_all_matches(&self, text: &str) -> (r: Vec<Match>)
        ensures
            ({
                let all = all_matches_spec(self@, text@, 0);
                &&& r@.len() == all.len()
                &&& forall|i: int|
                    0 <= i < all.len() ==> match_agrees(#[trigger] r@[i], all[i], text@)
            }),
    {
        let tv = text_chars(text);
        proof {
            assert(tv@.len() == tv.len());
        }
        let ghost all = all_matches_spec(self@, text@, 0);
        let mut out: Vec<Match> = Vec::new();
        let mut from: usize = 0;
        loop
            invariant
                tv@ == text@,
                text@.len() <= usize::MAX,
                0 <= from <= tv@.len(),
                all == all_matches_spec(self@, text@, 0),
                all =~= match_models(out@) + all_matches_spec(self@, text@, from as int),
                forall|i: int| 0 <= i < out@.len() ==> match_agrees(#[trigger] out@[i], all[i], text@),
            decreases tv@.len() - from,
        {
            let r = self.find_match_from_chars(&tv, from);
            proof {
                lemma_find_from_spec_in_bounds(self@, tv@, from as int);
            }
            match r {
                None => {
                    proof {
                        assert(all_matches_spec(self@, text@, from as int) =~= Seq::<
                            MatchModel,
                        >::empty());
                        assert(all =~= match_models(out@));
                    }
                    return out;
                },
                Some(sm) => {
                    let ghost mm = span_match_model(sm);
                    let m = build_match_str(text, &tv, &sm);
                    out.push(m);
                    proof {
                        assert(match_models(out@) =~= match_models(out@.drop_last()) + seq![mm]);
                    }
                    if sm.len == 0 {
                        if sm.start == tv.len() {
                            proof {
                                assert(all =~= match_models(out@));
                            }
                            return out;
                        }
                        from = sm.start + 1;
                    } else {
                        from = sm.start + sm.len;
                    }
                },
            }
        }
    }
}

impl Matcher {
    /// Whether this matcher and `other` have the same abstract form.
    fn tree_equal(&self, other: &Matcher) -> (r: bool)
        ensures
            r == (self@ == other@),
        decreases *self,
    {
        match (self, other) {
            (Matcher::SingleChar(a), Matcher::SingleChar(b)) => a == b,
            (Matcher::StartMatcher, Matcher::StartMatcher) => true,
            (Matcher::EndMatcher, Matcher::EndMatcher) => true,
            (Matcher::Wildcard, Matcher::Wildcard) => true,
            (Matcher::SingleCharBranch(ca, na), Matcher::SingleCharBranch(cb, nb)) => {
                let ce = chars_equal(ca, cb);
                ce && na == nb
            },
            (Matcher::Sequence(..), Matcher::Sequence(cb)) => {
                Self::all_tree_equal(self, cb)
            },
            (Matcher::Group(_, ia), Matcher::Group(ab, ib)) => {
                let ae = Self::all_tree_equal(self, ab);
                ae && ia == ib
            },
            (
                Matcher::Multiple { matcher: ma, min: mina, max: maxa, follow: fa },
                Matcher::Multiple { matcher: mb, min: minb, max: maxb, follow: fb },
            ) => {
                proof {
                    assert(decreases_to!(*self => self->Multiple_matcher));
                    if self->Multiple_follow is Some {
                        assert(decreases_to!(*self => self->Multiple_follow));
                        assert(decreases_to!(self->Multiple_follow => self->Multiple_follow->Some_0));
                    }
                }
                let me = ma.tree_equal(mb);
                let maxe = match (maxa, maxb) {
                    (Some(x), Some(y)) => x == y,
                    (None, None) => true,
                    _ => false,
                };
                let fe = match (fa, fb) {
                    (Some(x), Some(y)) => x.tree_equal(y),
                    (None, None) => true,
                    _ => false,
                };
                me && mina == minb && maxe && fe
            },
            (Matcher::GroupReference(a), Matcher::GroupReference(b)) => a == b,
            _ => {
                proof {
                    assert(self@ != other@);
                }
                false
            },
        }
    }

    /// Whether the children of the sequence or group node `whole` and the
    /// matchers of `ys` have the same abstract forms, in order.
    fn all_tree_equal(whole: &Matcher, ys: &Vec<Matcher>) -> (r: bool)
        requires
            whole is Sequence || whole is Group,
        ensures
            ({
                let xs = if whole is Sequence {
                    whole->Sequence_0
                } else {
                    whole->Group_0
                };
                r == (models(xs@) == models(ys@))
            }),
        decreases *whole, 0int,
    {
        let xs = match whole {
            Matcher::Sequence(cs) => cs,
            Matcher::Group(cs, _) => cs,
            _ => {
                return false;
            },
        };
        proof {
            lemma_models(xs@);
            lemma_models(ys@);
        }
        if xs.len() != ys.len() {
            return false;
        }
        let n = xs.len();
        for i in 0..n
            invariant
                n == xs.len() == ys.len(),
                (whole is Sequence && xs == whole->Sequence_0) || (whole is Group && xs == whole
                    ->Group_0),
                models(xs@).len() == n && models(ys@).len() == n,
                forall|j: int| 0 <= j < n ==> models(xs@)[j] == model(xs@[j]),
                forall|j: int| 0 <= j < n ==> models(ys@)[j] == model(ys@[j]),
                forall|j: int| 0 <= j < i ==> model(xs@[j]) == model(#[trigger] ys@[j]),
        {
            proof {
                if whole is Sequence {
                    assert(decreases_to!(*whole => whole->Sequence_0));
                    assert(decreases_to!(whole->Sequence_0 => whole->Sequence_0@));
                    assert(decreases_to!(whole->Sequence_0@ => whole->Sequence_0@[i as int]));
                } else {
                    assert(decreases_to!(*whole => whole->Group_0));
                    assert(decreases_to!(whole->Group_0 => whole->Group_0@));
                    assert(decreases_to!(whole->Group_0@ => whole->Group_0@[i as int]));
                }
            }
            let eq = xs[i].tree_equal(&ys[i]);
            if !eq {
                proof {
                    assert(models(xs@)[i as int] != models(ys@)[i as int]);
                }
                return false;
            }
        }
        proof {
            assert(models(xs@) =~= models(ys@));
        }
        true
    }

    /// Whether this matcher is a repetition that can absorb `other` (see
    /// [`mergeable`]).
    fn is_mergeable_with(&self, other: &Matcher) -> (r: bool)
        ensures
            r == mergeable(self@, other@),
    {
        match self {
            Matcher::Multiple { matcher, min, max, .. } => {
                match other {
                    Matcher::Multiple { matcher: m2, min: min2, max: max2, .. } => {
                        let ce = matcher.tree_equal(m2);
                        let min_ok = min.checked_add(*min2).is_some();
                        let max_ok = match (max, max2) {
                            (Some(x), Some(y)) => x.checked_add(*y).is_some(),
                            _ => true,
                        };
                        ce && min_ok && max_ok
                    },
                    _ => {
                        let ce = matcher.tree_equal(other);
                        let min_ok = min.checked_add(1).is_some();
                        let max_ok = match max {
                            Some(x) => x.checked_add(1).is_some(),
                            None => true,
                        };
                        ce && min_ok && max_ok
                    },
                }
            },
            _ => false,
        }
    }

    /// The merged form of this repetition and `other` (see [`merged`]).
    fn merge_with(&self, other: &Matcher) -> (r: Matcher)
        requires
            mergeable(self@, other@),
        ensures
            r@ == merged(self@, other@),
    {
        match (self, other) {
            (
                Matcher::Multiple { matcher, min: min1, max: max1, .. },
                Matcher::Multiple { min: min2, max: max2, .. },
            ) => Matcher::Multiple {
                matcher: Box::new(matcher.duplicate()),
                min: *min1 + *min2,
                max: match (max1, max2) {
                    (Some(x), Some(y)) => Some(*x + *y),
                    _ => None,
                },
                follow: None,
            },
            (Matcher::Multiple { matcher, min, max, .. }, _) => Matcher::Multiple {
                matcher: Box::new(matcher.duplicate()),
                min: *min + 1,
                max: match max {
                    Some(x) => Some(*x + 1),
                    None => None,
                },
                follow: None,
            },
            _ => self.duplicate(),
        }
    }

    /// Whether attaching a follow matcher to this matcher can change it.
    fn can_have_follow(&self) -> (r: bool)
        ensures
            r == can_take_follow(self@),
        decreases *self,
    {
        match self {
            Matcher::Multiple { .. } => true,
            Matcher::Sequence(children) => {
                if children.len() == 0 {
                    proof {
                        lemma_models(children@);
                    }
                    false
                } else {
                    proof {
                        assert(decreases_to!(*self => self->Sequence_0));
                        assert(decreases_to!(self->Sequence_0 => self->Sequence_0@));
                        assert(decreases_to!(self->Sequence_0@ => self->Sequence_0@[children@.len()
                            - 1]));
                        lemma_models(children@);
                    }
                    children[children.len() - 1].can_have_follow()
                }
            },
            Matcher::Group(alts, _) => {
                let ghost ms = models(alts@);
                proof {
                    lemma_models(alts@);
                    lemma_any_can_take_follow(ms);
                }
                let n = alts.len();
                for i in 0..n
                    invariant
                        n == alts.len(),
                        *self matches Matcher::Group(la, _) && la == alts,
                        ms == models(alts@),
                        ms.len() == n,
                        forall|j: int| 0 <= j < n ==> ms[j] == model(alts@[j]),
                        forall|j: int| 0 <= j < i ==> !can_take_follow(#[trigger] ms[j]),
                {
                    proof {
                        assert(decreases_to!(*self => self->Group_0));
                        assert(decreases_to!(self->Group_0 => self->Group_0@));
                        assert(decreases_to!(self->Group_0@ => self->Group_0@[i as int]));
                    }
                    if alts[i].can_have_follow() {
                        proof {
                            lemma_any_can_take_follow(ms);
                            assert(can_take_follow(ms[i as int]));
                        }
                        return true;
                    }
                }
                proof {
                    lemma_any_can_take_follow(ms);
                }
                false
            },
            _ => false,
        }
    }

    /// A copy of this matcher with `follow` attached to every repetition
    /// that ends it.
    fn set_follow(&self, follow: &Matcher) -> (r: Matcher)
        ensures
            r@ == with_follow(self@, follow@),
        decreases *self,
    {
        match self {
            Matcher::Multiple { matcher, min, max, .. } => {
                proof {
                    assert(decreases_to!(*self => self->Multiple_matcher));
                }
                Matcher::Multiple {
                    matcher: Box::new(matcher.duplicate()),
                    min: *min,
                    max: *max,
                    follow: Some(Box::new(follow.duplicate())),
                }
            },
            Matcher::Sequence(children) => {
                if children.len() == 0 {
                    proof {
                        lemma_models(children@);
                    }
                    self.duplicate()
                } else {
                    let n = children.len();
                    let mut out: Vec<Matcher> = Vec::new();
                    for i in 0..n
                        invariant
                            n == children.len(),
                            *self matches Matcher::Sequence(lc) && lc == children,
                            out@.len() == i,
                            forall|j: int| 0 <= j < i ==> #[trigger] out@[j]@ == (if j == n - 1 {
                                with_follow(model(children@[j]), follow@)
                            } else {
                                model(children@[j])
                            }),
                    {
                        proof {
                            assert(decreases_to!(*self => self->Sequence_0));
                            assert(decreases_to!(self->Sequence_0 => self->Sequence_0@));
                            assert(decreases_to!(self->Sequence_0@ => self->Sequence_0@[i as int]));
                        }
                        if i == n - 1 {
                            out.push(children[i].set_follow(follow));
                        } else {
                            out.push(children[i].duplicate());
                        }
                    }
                    proof {
                        lemma_models(out@);
                        lemma_models(children@);
                        let target = models(children@).update(
                            children@.len() - 1,
                            with_follow(model(children@[children@.len() - 1]), follow@),
                        );
                        assert forall|j: int| 0 <= j < n implies models(out@)[j] == target[j] by {
                            assert(models(out@)[j] == out@[j]@);
                            assert(out@[j]@ == (if j == n - 1 {
                                with_follow(model(children@[j]), follow@)
                            } else {
                                model(children@[j])
                            }));
                        }
                        assert(models(out@) =~= target);
                    }
                    Matcher::Sequence(out)
                }
            },
            Matcher::Group(alts, idx) => {
                let n = alts.len();
                let mut out: Vec<Matcher> = Vec::new();
                for i in 0..n
                    invariant
                        n == alts.len(),
                        *self matches Matcher::Group(la, _) && la == alts,
                        out@.len() == i,
                        forall|j: int| 0 <= j < i ==> #[trigger] out@[j]@ == with_follow(
                            model(alts@[j]),
                            follow@,
                        ),
                {
                    proof {
                        assert(decreases_to!(*self => self->Group_0));
                        assert(decreases_to!(self->Group_0 => self->Group_0@));
                        assert(decreases_to!(self->Group_0@ => self->Group_0@[i as int]));
                    }
                    out.push(alts[i].set_follow(follow));
                }
                proof {
                    lemma_models(out@);
                    lemma_models(alts@);
                    lemma_with_follow_all(models(alts@), follow@);
                    assert forall|j: int| 0 <= j < n implies models(out@)[j] == with_follow_all(
                        models(alts@),
                        follow@,
                    )[j] by {
                        assert(models(out@)[j] == out@[j]@);
                        assert(out@[j]@ == with_follow(model(alts@[j]), follow@));
                    }
                    assert(models(out@) =~= with_follow_all(models(alts@), follow@));
                }
                Matcher::Group(out, *idx)
            },
            _ => self.duplicate(),
        }
    }

    /// A sequence over the given atoms, after merging adjacent repetitions
    /// of one matcher and wiring each quantified atom's follow (see
    /// [`collapse`]).
    pub fn new_sequence(matchers: Vec<Matcher>) -> (r: Self)
        ensures
            r@ == MatcherModel::Sequence(collapse(models(matchers@))),
    {
        let ghost ms = models(matchers@);
        proof {
            lemma_models(matchers@);
        }
        let mut new_matchers: Vec<Matcher> = Vec::new();
        let mut pending: Option<Matcher> = None;
        let n = matchers.len();
        for i in 0..n
            invariant
                n == matchers.len(),
                ms == models(matchers@),
                ms.len() == n,
                forall|j: int| 0 <= j < n ==> ms[j] == model(matchers@[j]),
                collapse_from(ms, 0, Seq::empty(), None) == collapse_from(
                    ms,
                    i as int,
                    models(new_matchers@),
                    match pending {
                        Some(p) => Some(p@),
                        None => None,
                    },
                ),
        {
            let cur = matchers[i].duplicate();
            match &pending {
                None => {
                    pending = Some(cur);
                },
                Some(p) => {
                    if p.is_mergeable_with(&cur) {
                        let m = p.merge_with(&cur);
                        pending = Some(m);
                    } else if p.can_have_follow() {
                        let ghost prevv = new_matchers@;
                        let pf = p.set_follow(&cur);
                        let ghost pfm = pf@;
                        new_matchers.push(pf);
                        proof {
                            assert(new_matchers@.drop_last() =~= prevv);
                            assert(new_matchers@.last()@ == pfm);
                            assert(models(new_matchers@) == models(prevv).push(pfm));
                            assert(pfm == with_follow(pending->Some_0@, cur@));
                        }
                        pending = Some(cur);
                    } else {
                        let ghost prevv = new_matchers@;
                        let d = p.duplicate();
                        let ghost dm = d@;
                        new_matchers.push(d);
                        proof {
                            assert(new_matchers@.drop_last() =~= prevv);
                            assert(new_matchers@.last()@ == dm);
                            assert(models(new_matchers@) == models(prevv).push(dm));
                            assert(dm == pending->Some_0@);
                        }
                        pending = Some(cur);
                    }
                },
            }
        }
        match pending {
            Some(p) => {
                let ghost prevv = new_matchers@;
                let ghost pm = p@;
                new_matchers.push(p);
                proof {
                    assert(new_matchers@.drop_last() =~= prevv);
                    assert(new_matchers@.last()@ == pm);
                    assert(models(new_matchers@) == models(prevv).push(pm));
                }
            },
            None => {},
        }
        Matcher::Sequence(new_matchers)
    }
}

/// The model a public `Match` describes: its offset, its length in
/// characters, and the spans of its recorded group captures.
pub open spec fn match_model_of(m: Match) -> MatchModel {
    MatchModel {
        start: m.offset as int,
        len: m.matched_text@.len() as int,
        caps: sub_matches_map(m.sub_matches@),
    }
}

/// The models of a list of matches, in order.
pub open spec fn match_models(s: Seq<Match>) -> Seq<MatchModel> {
    Seq::new(s.len(), |i: int| match_model_of(s[i]))
}

/// The characters of `s`, one by one.
pub(crate) fn text_chars(s: &str) -> (v: Vec<char>)
    ensures
        v@ == s@,
{
    let n = s.unicode_len();
    let mut v: Vec<char> = Vec::new();
    for i in 0..n
        invariant
            n == s@.len(),
            v@ =~= s@.subrange(0, i as int),
    {
        v.push(s.get_char(i));
    }
    proof {
        assert(v@ =~= s@);
    }
    v
}

/// Builds the public form of a match from its spans, slicing the matched
/// pieces out of `text` (whose characters are `tv`).
fn build_match_str(text: &str, tv: &Vec<char>, sm: &SpanMatch) -> (r: Match)
    requires
        text@ == tv@,
        sm.caps.wf(),
        sm.start + sm.len <= text@.len(),
        caps_in_bounds(sm.caps@, text@.len() as int),
    ensures
        match_agrees(r, span_match_model(*sm), text@),
{
    proof {
        assert(tv@.len() == tv.len());
    }
    let matched = text.substring_char(sm.start, sm.start + sm.len).to_owned();
    let mut subs: Vec<(usize, Match)> = Vec::new();
    let n = sm.caps.entries.len();
    for i in 0..n
        invariant
            text@ == tv@,
            text@.len() <= usize::MAX,
            n == sm.caps.entries.len(),
            sm.caps.wf(),
            caps_in_bounds(sm.caps@, text@.len() as int),
            sub_matches_map(subs@) == caps_map(sm.caps.entries@.subrange(0, i as int)),
            forall|j: int| 0 <= j < subs@.len() ==> sub_entry_agrees(#[trigger] subs@[j], text@),
            subs@.len() == i,
    {
        let e = sm.caps.entries[i];
        proof {
            crate::captures::lemma_caps_map_at(sm.caps.entries@, i as int);
            assert(crate::semantics::span_in_bounds(sm.caps@[e.idx as int], text@.len() as int));
        }
        let t = text.substring_char(e.start, e.start + e.len).to_owned();
        let entry = (e.idx, Match { matched_text: t, offset: e.start, sub_matches: Vec::new() });
        let ghost prev = subs@;
        subs.push(entry);
        proof {
            assert(sm.caps.entries@.subrange(0, i + 1 as int).drop_last() =~= sm.caps.entries@
                .subrange(0, i as int));
            assert(sm.caps.entries@.subrange(0, i + 1 as int).last() == e);
            assert(subs@.drop_last() =~= prev);
            assert(subs@.last() == entry);
            assert(entry.1.matched_text@.len() == e.len as int);
            assert(sub_matches_map(subs@) == sub_matches_map(prev).insert(
                e.idx as int,
                capture_span(e),
            ));
        }
    }
    proof {
        assert(sm.caps.entries@.subrange(0, n as int) =~= sm.caps.entries@);
    }
    Match { matched_text: matched, offset: sm.start, sub_matches: subs }
}

/// Builds the public form of a match from `text` alone.
fn build_match(text: &str, sm: &SpanMatch) -> (r: Match)
    requires
        sm.caps.wf(),
        sm.start + sm.len <= text@.len(),
        text@.len() <= usize::MAX,
        caps_in_bounds(sm.caps@, text@.len() as int),
    ensures
        match_agrees(r, span_match_model(*sm), text@),
{
    let tv = text_chars(text);
    build_match_str(text, &tv, sm)
}

/// The digits a `\d` class holds.
pub open spec fn digit_chars() -> Seq<char> {
    "0123456789"@
}

/// The word characters a `\w` class holds: ASCII letters, digits and the
/// underscore.
pub open spec fn word_chars() -> Seq<char> {
    "abcdefghijklmnopqrstuvwxyzABCDEFGHIJKLMNOPQRSTUVWXYZ0123456789_"@
}

/// The character class a `\d` escape stands for.
pub fn make_digit_matcher() -> (r: Matcher)
    ensures
        r@ == MatcherModel::SingleCharBranch(digit_chars(), false),
{
    let digits = text_chars("0123456789");
    Matcher::new_single_char_branch(digits, false)
}

/// The character class a `\w` escape stands for.
pub fn make_alpha_num_matcher() -> (r: Matcher)
    ensures
        r@ == MatcherModel::SingleCharBranch(word_chars(), false),
{
    let chars = text_chars("abcdefghijklmnopqrstuvwxyzABCDEFGHIJKLMNOPQRSTUVWXYZ0123456789_");
    Matcher::new_single_char_branch(chars, false)
}

} // verus!
