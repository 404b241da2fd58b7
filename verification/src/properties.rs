//! Laws of the engine: properties that hold of every pattern and text,
//! stated over the spec functions that the public contracts use.

use vstd::prelude::*;
use crate::semantics::{MatcherModel, MatchModel, Span, check_spec, check_seq_spec,
    check_star_spec, check_alts_spec, find_from_spec, first_match_spec, all_matches_spec,
    empty_match, one_char_match, caps_in_bounds, lemma_check_spec_in_bounds,
    lemma_find_from_spec_in_bounds, lemma_union_in_bounds, mergeable, merged, with_follow,
    collapse, collapse_from};
use crate::regex_parser::{parse_spec, parse_atoms_spec, parse_from_spec, ParseError, kind_of,
    CharKind, lemma_step_dollar, lemma_step_literal};

verus! {

proof fn lemma_end_anchor_find(text: Seq<char>, off: int)
    requires
        0 <= off <= text.len(),
    ensures
        find_from_spec(MatcherModel::EndMatcher, text, off) == Some(
            empty_match(text.len() as int),
        ),
    decreases text.len() - off,
{
    if off == text.len() {
        assert(check_spec(MatcherModel::EndMatcher, text, off, Map::empty()) == Some(
            empty_match(off),
        ));
    } else {
        assert(check_spec(MatcherModel::EndMatcher, text, off, Map::empty()) is None);
        lemma_end_anchor_find(text, off + 1);
    }
}

/// The end anchor pattern `$` parses, and its leftmost match in any text is
/// the empty match exactly at the end offset, the text's character count.
pub proof fn lemma_end_anchor_matches_at_end(text: Seq<char>)
    ensures
        parse_spec("$"@) matches Ok(m) && m == MatcherModel::EndMatcher,
        first_match_spec(MatcherModel::EndMatcher, text) == Some(empty_match(text.len() as int)),
{
    reveal_strlit("$");
    let p = "$"@;
    assert(p.len() == 1 && p[0] == '$');
    lemma_step_dollar(p, 0, 1, Seq::empty());
    let acc1 = Seq::empty().push(MatcherModel::EndMatcher);
    assert(parse_atoms_spec(p, 1, 1, acc1) == Ok::<(Seq<MatcherModel>, int), ParseError>((
        acc1,
        1,
    )));
    assert(acc1.len() == 1 && acc1[0] == MatcherModel::EndMatcher);
    assert(parse_from_spec(p, 0, 1) == Ok::<(MatcherModel, int), ParseError>((
        MatcherModel::EndMatcher,
        1,
    )));
    lemma_end_anchor_find(text, 0);
}

/// The character of `s` at `i`.  Unlike a bare index, a function
/// application carries the character's well-formedness, which the
/// inductive proofs below lean on.
pub open spec fn char_at(s: Seq<char>, i: int) -> char {
    s[i]
}

proof fn lemma_parse_atoms_end(s: Seq<char>, i: int, g: int, acc: Seq<MatcherModel>)
    requires
        i == s.len(),
    ensures
        parse_atoms_spec(s, i, g, acc) == Ok::<(Seq<MatcherModel>, int), ParseError>((acc, g)),
{
}

proof fn lemma_parse_literal_atoms(s: Seq<char>, i: int, g: int, acc: Seq<MatcherModel>)
    requires
        0 <= i <= s.len(),
        forall|j: int| 0 <= j < s.len() ==> kind_of(#[trigger] s[j]) == CharKind::Literal,
    ensures
        parse_atoms_spec(s, i, g, acc) matches Ok(pr) && pr.1 == g && pr.0.len() == acc.len() + (
        s.len() - i) && (forall|j: int| 0 <= j < acc.len() ==> pr.0[j] == acc[j]) && (forall|j: int|
            acc.len() <= j < pr.0.len() ==> pr.0[j] == MatcherModel::SingleChar(
                char_at(s, i + (j - acc.len())),
            )),
    decreases s.len() - i,
{
    if i == s.len() {
        lemma_parse_atoms_end(s, i, g, acc);
    } else {
        let c = char_at(s, i);
        lemma_step_literal(s, i, g, acc, c);
        let acc2 = acc.push(MatcherModel::SingleChar(c));
        lemma_parse_literal_atoms(s, i + 1, g, acc2);
        assert(parse_atoms_spec(s, i, g, acc) == parse_atoms_spec(s, i + 1, g, acc2));
        let pr = parse_atoms_spec(s, i, g, acc)->Ok_0;
        assert forall|j: int| 0 <= j < acc.len() implies pr.0[j] == acc[j] by {
            assert(pr.0[j] == acc2[j]);
        }
        assert forall|j: int| acc.len() <= j < pr.0.len() implies pr.0[j]
            == MatcherModel::SingleChar(char_at(s, i + (j - acc.len()))) by {
            if j == acc.len() {
                assert(pr.0[j] == acc2[j]);
            } else {
                assert(pr.0[j] == MatcherModel::SingleChar(char_at(s, i + 1 + (j - acc2.len()))));
                assert(i + 1 + (j - acc2.len()) == i + (j - acc.len()));
            }
        }
    }
}

proof fn lemma_collapse_literals(
    ms: Seq<MatcherModel>,
    k: int,
    out: Seq<MatcherModel>,
    pending: Option<MatcherModel>,
)
    requires
        0 <= k <= ms.len(),
        forall|j: int| k <= j < ms.len() ==> #[trigger] ms[j] is SingleChar,
        pending matches Some(q) ==> q is SingleChar,
    ensures
        ({
            let r = crate::semantics::collapse_from(ms, k, out, pending);
            let pn: int = if pending is Some {
                1
            } else {
                0
            };
            &&& r.len() == out.len() + pn + (ms.len() - k)
            &&& forall|j: int| 0 <= j < out.len() ==> r[j] == out[j]
            &&& (pending matches Some(q) ==> r[out.len() as int] == q)
            &&& forall|j: int|
                out.len() + pn <= j < r.len() ==> r[j] == ms[k + (j - out.len() - pn)]
        }),
    decreases ms.len() - k,
{
    if k >= ms.len() {
    } else {
        let nx = ms[k];
        match pending {
            None => {
                lemma_collapse_literals(ms, k + 1, out, Some(nx));
            },
            Some(q) => {
                assert(!crate::semantics::mergeable(q, nx));
                assert(!crate::semantics::can_take_follow(q));
                lemma_collapse_literals(ms, k + 1, out.push(q), Some(nx));
                let r = crate::semantics::collapse_from(ms, k, out, pending);
                assert forall|j: int| 0 <= j < out.len() implies r[j] == out[j] by {
                    assert(r[j] == out.push(q)[j]);
                }
                assert(r[out.len() as int] == out.push(q)[out.len() as int]);
            },
        }
    }
}

proof fn lemma_check_literal_seq(
    children: Seq<MatcherModel>,
    s: Seq<char>,
    k: int,
    groups: Map<int, Span>,
    caps: Map<int, Span>,
)
    requires
        children.len() == s.len(),
        forall|j: int|
            0 <= j < children.len() ==> #[trigger] children[j] == MatcherModel::SingleChar(
                char_at(s, j),
            ),
        0 <= k <= s.len(),
    ensures
        crate::semantics::check_seq_spec(children, k, s, 0, k, groups, caps) == Some(
            MatchModel { start: 0, len: s.len() as int, caps },
        ),
    decreases s.len() - k,
{
    if k == s.len() {
    } else {
        assert(children[k] == MatcherModel::SingleChar(char_at(s, k)));
        assert(check_spec(children[k], s, k, groups.union_prefer_right(caps)) == Some(
            crate::semantics::one_char_match(k),
        ));
        assert(caps.union_prefer_right(Map::empty()) =~= caps);
        lemma_check_literal_seq(children, s, k + 1, groups, caps);
    }
}

/// Searching a purely literal pattern in its own text yields exactly one
/// match: the whole text, at offset 0, with no captures.
pub proof fn lemma_literal_pattern_one_match(s: Seq<char>)
    requires
        s.len() > 0,
        forall|j: int| 0 <= j < s.len() ==> kind_of(#[trigger] s[j]) == CharKind::Literal,
    ensures
        parse_spec(s) matches Ok(m) && ({
            let all = all_matches_spec(m, s, 0);
            &&& all.len() == 1
            &&& all[0] == (MatchModel {
                start: 0,
                len: s.len() as int,
                caps: Map::<int, Span>::empty(),
            })
        }),
{
    lemma_parse_literal_atoms(s, 0, 1, Seq::empty());
    let atoms = parse_atoms_spec(s, 0, 1, Seq::empty())->Ok_0.0;
    assert(atoms.len() == s.len());
    assert(forall|j: int|
        0 <= j < atoms.len() ==> #[trigger] atoms[j] == MatcherModel::SingleChar(char_at(s, j)));
    let mm = MatchModel { start: 0, len: s.len() as int, caps: Map::<int, Span>::empty() };
    let n = s.len() as int;
    if s.len() == 1 {
        let m = atoms[0];
        assert(m == MatcherModel::SingleChar(char_at(s, 0)));
        assert(parse_spec(s) == Ok::<MatcherModel, ParseError>(m));
        assert(check_spec(m, s, 0, Map::empty()) == Some(crate::semantics::one_char_match(0)));
        assert(find_from_spec(m, s, 0) == Some(mm));
        assert(check_spec(m, s, 1, Map::empty()) is None);
        assert(find_from_spec(m, s, 2) is None);
        assert(find_from_spec(m, s, 1) is None);
        assert(all_matches_spec(m, s, 1) =~= Seq::<MatchModel>::empty());
        assert(all_matches_spec(m, s, 0) =~= seq![mm]);
    } else {
        assert(forall|j: int| 0 <= j < atoms.len() ==> (#[trigger] atoms[j]) is SingleChar);
        lemma_collapse_literals(atoms, 0, Seq::empty(), None);
        let collapsed = crate::semantics::collapse(atoms);
        assert(collapsed.len() == atoms.len());
        assert forall|j: int| 0 <= j < collapsed.len() implies collapsed[j] == atoms[j] by {
            assert(collapsed[j] == atoms[0 + (j - 0 - 0)]);
        }
        assert(collapsed =~= atoms);
        let m = MatcherModel::Sequence(atoms);
        assert(parse_spec(s) == Ok::<MatcherModel, ParseError>(m));
        lemma_check_literal_seq(atoms, s, 0, Map::empty(), Map::empty());
        assert(check_spec(m, s, 0, Map::empty()) == Some(mm));
        assert(find_from_spec(m, s, 0) == Some(mm));
        assert(atoms[0] == MatcherModel::SingleChar(char_at(s, 0)));
        assert(check_spec(atoms[0], s, n, Map::empty().union_prefer_right(Map::empty())) is None);
        assert(crate::semantics::check_seq_spec(atoms, 0, s, n, n, Map::empty(), Map::empty())
            is None);
        assert(check_spec(m, s, n, Map::empty()) is None);
        assert(find_from_spec(m, s, n + 1) is None);
        assert(find_from_spec(m, s, n) is None);
        assert(all_matches_spec(m, s, n) =~= Seq::<MatchModel>::empty());
        assert(all_matches_spec(m, s, 0) =~= seq![mm]);
    }
}

/// A matcher whose outcome depends only on the text from the match offset
/// on: no anchors (which read the absolute offset) and no back-references
/// (which read earlier captures).
pub open spec fn relocatable(m: MatcherModel) -> bool
    decreases m,
{
    match m {
        MatcherModel::SingleChar(_) => true,
        MatcherModel::StartMatcher => false,
        MatcherModel::EndMatcher => false,
        MatcherModel::SingleCharBranch(_, _) => true,
        MatcherModel::Wildcard => true,
        MatcherModel::Sequence(children) => {
            proof {
                assert(decreases_to!(m => m->Sequence_0));
            }
            all_relocatable(children)
        },
        MatcherModel::Group(alts, _) => {
            proof {
                assert(decreases_to!(m => m->Group_0));
            }
            all_relocatable(alts)
        },
        MatcherModel::Multiple { matcher, follow, .. } => {
            proof {
                assert(decreases_to!(m => m->Multiple_matcher));
                if m->Multiple_follow is Some {
                    assert(decreases_to!(m => m->Multiple_follow));
                    assert(decreases_to!(m->Multiple_follow => m->Multiple_follow->Some_0));
                }
            }
            relocatable(*matcher) && (match follow {
                Some(f) => relocatable(*f),
                None => true,
            })
        },
        MatcherModel::GroupReference(_) => false,
    }
}

/// Every matcher of `s` is relocatable.
pub open spec fn all_relocatable(s: Seq<MatcherModel>) -> bool
    decreases s,
{
    s.len() == 0 || {
        proof {
            assert(decreases_to!(s => s[s.len() - 1]));
            assert(decreases_to!(s => s.subrange(0, s.len() - 1)));
            assert(s.drop_last() == s.subrange(0, s.len() - 1));
        }
        relocatable(s.last()) && all_relocatable(s.drop_last())
    }
}

proof fn lemma_all_relocatable_index(s: Seq<MatcherModel>)
    requires
        all_relocatable(s),
    ensures
        forall|i: int| 0 <= i < s.len() ==> relocatable(#[trigger] s[i]),
    decreases s.len(),
{
    if s.len() == 0 {
    } else {
        lemma_all_relocatable_index(s.drop_last());
        assert(forall|i: int| 0 <= i < s.len() - 1 ==> s.drop_last()[i] == s[i]);
    }
}

/// How two evaluations of one relocatable matcher correspond when the
/// second runs in the same text with `t1` prepended: both fail, or both
/// match the same number of characters.
pub open spec fn outcomes_correspond(a: Option<MatchModel>, b: Option<MatchModel>) -> bool {
    match (a, b) {
        (None, None) => true,
        (Some(x), Some(y)) => x.len == y.len,
        _ => false,
    }
}

proof fn lemma_reloc_check(
    m: MatcherModel,
    t1: Seq<char>,
    t2: Seq<char>,
    off: int,
    g: Map<int, Span>,
    g2: Map<int, Span>,
)
    requires
        relocatable(m),
        0 <= off <= t2.len(),
        caps_in_bounds(g, t2.len() as int),
        caps_in_bounds(g2, t1.len() + t2.len() as int),
    ensures
        outcomes_correspond(
            check_spec(m, t2, off, g),
            check_spec(m, t1 + t2, t1.len() + off, g2),
        ),
    decreases m, 3int, 0int, 0int,
{
    let d = t1.len() as int;
    let t12 = t1 + t2;
    assert(t12.len() == d + t2.len());
    match m {
        MatcherModel::SingleChar(c) => {
            if off < t2.len() {
                assert(t12[d + off] == t2[off]);
            }
        },
        MatcherModel::SingleCharBranch(chars, negated) => {
            if off < t2.len() {
                assert(t12[d + off] == t2[off]);
            }
        },
        MatcherModel::Wildcard => {},
        MatcherModel::Sequence(children) => {
            lemma_all_relocatable_index(children);
            lemma_reloc_seq(children, 0, t1, t2, off, off, g, g2, Map::empty(), Map::empty());
        },
        MatcherModel::Multiple { .. } => {
            lemma_reloc_star(m, t1, t2, off, off, 0, g, g2, Map::empty(), Map::empty());
        },
        MatcherModel::Group(alts, idx) => {
            lemma_all_relocatable_index(alts);
            lemma_reloc_alts(alts, idx, 0, t1, t2, off, g, g2);
        },
        _ => {},
    }
}

proof fn lemma_reloc_seq(
    children: Seq<MatcherModel>,
    k: int,
    t1: Seq<char>,
    t2: Seq<char>,
    start: int,
    off: int,
    g: Map<int, Span>,
    g2: Map<int, Span>,
    caps: Map<int, Span>,
    caps2: Map<int, Span>,
)
    requires
        forall|i: int| 0 <= i < children.len() ==> relocatable(#[trigger] children[i]),
        0 <= start <= off <= t2.len(),
        caps_in_bounds(g, t2.len() as int),
        caps_in_bounds(g2, t1.len() + t2.len() as int),
        caps_in_bounds(caps, t2.len() as int),
        caps_in_bounds(caps2, t1.len() + t2.len() as int),
    ensures
        outcomes_correspond(
            check_seq_spec(children, k, t2, start, off, g, caps),
            check_seq_spec(
                children,
                k,
                t1 + t2,
                t1.len() + start,
                t1.len() + off,
                g2,
                caps2,
            ),
        ),
    decreases children, 2int, children.len() - k, 0int,
{
    let d = t1.len() as int;
    let t12 = t1 + t2;
    if k < 0 || k >= children.len() {
    } else {
        lemma_union_in_bounds(g, caps, t2.len() as int);
        lemma_union_in_bounds(g2, caps2, t12.len() as int);
        lemma_reloc_check(
            children[k],
            t1,
            t2,
            off,
            g.union_prefer_right(caps),
            g2.union_prefer_right(caps2),
        );
        match check_spec(children[k], t2, off, g.union_prefer_right(caps)) {
            None => {},
            Some(cm) => {
                lemma_check_spec_in_bounds(children[k], t2, off, g.union_prefer_right(caps));
                let cm2 = check_spec(
                    children[k],
                    t12,
                    d + off,
                    g2.union_prefer_right(caps2),
                )->Some_0;
                lemma_check_spec_in_bounds(
                    children[k],
                    t12,
                    d + off,
                    g2.union_prefer_right(caps2),
                );
                lemma_union_in_bounds(caps, cm.caps, t2.len() as int);
                lemma_union_in_bounds(caps2, cm2.caps, t12.len() as int);
                lemma_reloc_seq(
                    children,
                    k + 1,
                    t1,
                    t2,
                    start,
                    off + cm.len,
                    g,
                    g2,
                    caps.union_prefer_right(cm.caps),
                    caps2.union_prefer_right(cm2.caps),
                );
            },
        }
    }
}

proof fn lemma_reloc_star(
    m: MatcherModel,
    t1: Seq<char>,
    t2: Seq<char>,
    start: int,
    off: int,
    count: int,
    g: Map<int, Span>,
    g2: Map<int, Span>,
    caps: Map<int, Span>,
    caps2: Map<int, Span>,
)
    requires
        m is Multiple,
        relocatable(m),
        0 <= start <= off <= t2.len(),
        caps_in_bounds(g, t2.len() as int),
        caps_in_bounds(g2, t1.len() + t2.len() as int),
        caps_in_bounds(caps, t2.len() as int),
        caps_in_bounds(caps2, t1.len() + t2.len() as int),
    ensures
        outcomes_correspond(
            check_star_spec(m, t2, start, off, count, g, caps),
            check_star_spec(
                m,
                t1 + t2,
                t1.len() + start,
                t1.len() + off,
                count,
                g2,
                caps2,
            ),
        ),
    decreases m, 2int, t2.len() - off, crate::semantics::star_budget(m, count),
{
    let d = t1.len() as int;
    let t12 = t1 + t2;
    let child = *m->Multiple_matcher;
    let min = m->Multiple_min;
    let max = m->Multiple_max;
    lemma_union_in_bounds(g, caps, t2.len() as int);
    lemma_union_in_bounds(g2, caps2, t12.len() as int);
    lemma_reloc_check(
        child,
        t1,
        t2,
        off,
        g.union_prefer_right(caps),
        g2.union_prefer_right(caps2),
    );
    match check_spec(child, t2, off, g.union_prefer_right(caps)) {
        None => {},
        Some(cm) => {
            lemma_check_spec_in_bounds(child, t2, off, g.union_prefer_right(caps));
            let cm2 = check_spec(child, t12, d + off, g2.union_prefer_right(caps2))->Some_0;
            lemma_check_spec_in_bounds(child, t12, d + off, g2.union_prefer_right(caps2));
            if count >= min && m->Multiple_follow is Some {
                assert(t2.subrange(off, off + cm.len) =~= t12.subrange(
                    d + off,
                    d + off + cm2.len,
                ));
            }
            if count >= min && (m->Multiple_follow matches Some(f) && first_match_spec(
                *f,
                t2.subrange(off, off + cm.len),
            ) is Some) {
            } else {
                lemma_union_in_bounds(caps, cm.caps, t2.len() as int);
                lemma_union_in_bounds(caps2, cm2.caps, t12.len() as int);
                if max matches Some(mx) && count + 1 >= mx {
                } else if cm.len == 0 && max is None && count + 1 >= min {
                } else {
                    lemma_reloc_star(
                        m,
                        t1,
                        t2,
                        start,
                        off + cm.len,
                        count + 1,
                        g,
                        g2,
                        caps.union_prefer_right(cm.caps),
                        caps2.union_prefer_right(cm2.caps),
                    );
                }
            }
        },
    }
}

proof fn lemma_reloc_alts(
    alts: Seq<MatcherModel>,
    idx: int,
    k: int,
    t1: Seq<char>,
    t2: Seq<char>,
    off: int,
    g: Map<int, Span>,
    g2: Map<int, Span>,
)
    requires
        forall|i: int| 0 <= i < alts.len() ==> relocatable(#[trigger] alts[i]),
        0 <= off <= t2.len(),
        caps_in_bounds(g, t2.len() as int),
        caps_in_bounds(g2, t1.len() + t2.len() as int),
    ensures
        outcomes_correspond(
            check_alts_spec(alts, idx, k, t2, off, g),
            check_alts_spec(alts, idx, k, t1 + t2, t1.len() + off, g2),
        ),
    decreases alts, 2int, alts.len() - k, 0int,
{
    if k < 0 || k >= alts.len() {
    } else {
        lemma_reloc_check(alts[k], t1, t2, off, g, g2);
        match check_spec(alts[k], t2, off, g) {
            Some(am) => {},
            None => {
                lemma_reloc_alts(alts, idx, k + 1, t1, t2, off, g, g2);
            },
        }
    }
}

proof fn lemma_find_hits(m: MatcherModel, text: Seq<char>, off: int)
    requires
        0 <= off,
    ensures
        find_from_spec(m, text, off) matches Some(mm) ==> check_spec(m, text, mm.start, Map::empty())
            == Some(mm),
    decreases text.len() - off + 1,
{
    if off < 0 || off > text.len() {
    } else {
        crate::semantics::lemma_check_spec_in_bounds(m, text, off, Map::empty());
        match check_spec(m, text, off, Map::empty()) {
            Some(mm) => {},
            None => {
                lemma_find_hits(m, text, off + 1);
            },
        }
    }
}

proof fn lemma_find_reaches(m: MatcherModel, text: Seq<char>, from: int, o: int)
    requires
        0 <= from <= o <= text.len(),
        check_spec(m, text, o, Map::empty()) is Some,
    ensures
        find_from_spec(m, text, from) is Some,
    decreases o - from,
{
    if from == o {
    } else {
        match check_spec(m, text, from, Map::empty()) {
            Some(mm) => {},
            None => {
                lemma_find_reaches(m, text, from + 1, o);
            },
        }
    }
}

/// For a pattern with no anchors and no back-references, a match in a text
/// survives prepending more text: whatever matches somewhere in `t2` also
/// matches somewhere in `t1 + t2`.
pub proof fn lemma_match_survives_prefix(m: MatcherModel, t1: Seq<char>, t2: Seq<char>)
    requires
        relocatable(m),
    ensures
        first_match_spec(m, t2) is Some ==> first_match_spec(m, t1 + t2) is Some,
{
    if first_match_spec(m, t2) is Some {
        let mm = first_match_spec(m, t2)->Some_0;
        lemma_find_from_spec_in_bounds(m, t2, 0);
        lemma_find_hits(m, t2, 0);
        assert(check_spec(m, t2, mm.start, Map::empty()) == Some(mm));
        lemma_reloc_check(m, t1, t2, mm.start, Map::empty(), Map::empty());
        let d = t1.len() as int;
        assert(check_spec(m, t1 + t2, d + mm.start, Map::empty()) is Some);
        assert((t1 + t2).len() == t1.len() + t2.len());
        lemma_find_reaches(m, t1 + t2, 0, d + mm.start);
    }
}

/// Merging adjacent repetitions of one matcher is not observationally
/// neutral under this evaluator.  Without backtracking, the follow
/// lookahead makes an unmerged repetition yield its last piece back to the
/// atom after it, while the merged form keeps consuming greedily: on the
/// text `aaa`, one `a` repeated once-or-more and then once reaches two
/// characters unmerged but all three merged.  `new_sequence` therefore
/// merges not as a transparent optimization but because the merged form is
/// the behaviour the engine defines (its required scenarios depend on it).
pub proof fn lemma_merging_changes_match_length()
    ensures
        ({
            let rep = MatcherModel::Multiple {
                matcher: Box::new(MatcherModel::SingleChar('a')),
                min: 1,
                max: None,
                follow: None,
            };
            let atom = MatcherModel::SingleChar('a');
            let text = seq!['a', 'a', 'a'];
            &&& mergeable(rep, atom)
            &&& collapse(seq![rep, atom]) == seq![merged(rep, atom)]
            &&& (check_spec(
                MatcherModel::Sequence(seq![merged(rep, atom)]),
                text,
                0,
                Map::empty(),
            ) matches Some(x) && x.len == 3)
            &&& (check_spec(
                MatcherModel::Sequence(seq![with_follow(rep, atom), atom]),
                text,
                0,
                Map::empty(),
            ) matches Some(y) && y.len == 2)
        }),
{
    let rep = MatcherModel::Multiple {
        matcher: Box::new(MatcherModel::SingleChar('a')),
        min: 1,
        max: None,
        follow: None,
    };
    let atom = MatcherModel::SingleChar('a');
    let text = seq!['a', 'a', 'a'];
    let e = Map::<int, Span>::empty();
    assert(e.union_prefer_right(e) =~= e);
    assert(text.len() == 3 && text[0] == 'a' && text[1] == 'a' && text[2] == 'a');
    assert(check_spec(atom, text, 0, e) == Some(one_char_match(0)));
    assert(check_spec(atom, text, 1, e) == Some(one_char_match(1)));
    assert(check_spec(atom, text, 2, e) == Some(one_char_match(2)));
    assert(check_spec(atom, text, 3, e) is None);

    // The merged form consumes all three characters.
    let m2 = merged(rep, atom);
    assert(m2 == MatcherModel::Multiple {
        matcher: Box::new(MatcherModel::SingleChar('a')),
        min: 2,
        max: None,
        follow: None,
    });
    assert(check_star_spec(m2, text, 0, 3, 3, e, e) == Some(MatchModel { start: 0, len: 3, caps: e }));
    assert(check_star_spec(m2, text, 0, 2, 2, e, e) == Some(MatchModel { start: 0, len: 3, caps: e }));
    assert(check_star_spec(m2, text, 0, 1, 1, e, e) == Some(MatchModel { start: 0, len: 3, caps: e }));
    assert(check_star_spec(m2, text, 0, 0, 0, e, e) == Some(MatchModel { start: 0, len: 3, caps: e }));
    assert(check_spec(m2, text, 0, e) == Some(MatchModel { start: 0, len: 3, caps: e }));
    let cs1 = seq![m2];
    assert(check_seq_spec(cs1, 1, text, 0, 3, e, e) == Some(MatchModel { start: 0, len: 3, caps: e }));
    assert(check_seq_spec(cs1, 0, text, 0, 0, e, e) == Some(MatchModel { start: 0, len: 3, caps: e }));
    assert(check_spec(MatcherModel::Sequence(cs1), text, 0, e) == Some(
        MatchModel { start: 0, len: 3, caps: e },
    ));

    // The unmerged, follow-wired form yields the last repetition back and
    // stops after two characters.
    let w = with_follow(rep, atom);
    assert(w == MatcherModel::Multiple {
        matcher: Box::new(MatcherModel::SingleChar('a')),
        min: 1,
        max: None,
        follow: Some(Box::new(atom)),
    });
    let sub = text.subrange(1, 2);
    assert(sub.len() == 1 && sub[0] == 'a');
    assert(check_spec(atom, sub, 0, e) == Some(one_char_match(0)));
    assert(find_from_spec(atom, sub, 0) == Some(one_char_match(0)));
    assert(first_match_spec(atom, sub) is Some);
    assert(check_star_spec(w, text, 0, 1, 1, e, e) == Some(MatchModel { start: 0, len: 1, caps: e }));
    assert(check_star_spec(w, text, 0, 0, 0, e, e) == Some(MatchModel { start: 0, len: 1, caps: e }));
    assert(check_spec(w, text, 0, e) == Some(MatchModel { start: 0, len: 1, caps: e }));
    let cs2 = seq![w, atom];
    assert(check_seq_spec(cs2, 2, text, 0, 2, e, e) == Some(MatchModel { start: 0, len: 2, caps: e }));
    assert(cs2[1] == atom);
    assert(check_seq_spec(cs2, 1, text, 0, 1, e, e) == Some(MatchModel { start: 0, len: 2, caps: e }));
    assert(cs2[0] == w);
    assert(check_seq_spec(cs2, 0, text, 0, 0, e, e) == Some(MatchModel { start: 0, len: 2, caps: e }));
    assert(check_spec(MatcherModel::Sequence(cs2), text, 0, e) == Some(
        MatchModel { start: 0, len: 2, caps: e },
    ));

    // And collapsing the pair produces exactly the merged form.
    assert(collapse_from(seq![rep, atom], 2, Seq::empty(), Some(merged(rep, atom)))
        == Seq::empty().push(merged(rep, atom)));
    assert(collapse_from(seq![rep, atom], 1, Seq::empty(), Some(rep)) == Seq::empty().push(
        merged(rep, atom),
    ));
    assert(collapse_from(seq![rep, atom], 0, Seq::empty(), None) == Seq::empty().push(
        merged(rep, atom),
    ));
    assert(Seq::empty().push(merged(rep, atom)) =~= seq![merged(rep, atom)]);
}

/// The concatenation law for patterns with no anchors and no
/// back-references: the concatenation `t1 + t2` has a match exactly when
/// some match begins inside `t1` (covering both matches lying in `t1` and
/// matches straddling the boundary, as the evaluator sees them with the
/// whole concatenation in view) or `t2` alone has a match.  A match of
/// `t1` evaluated on `t1` by itself is not interchangeable with one that
/// begins inside `t1` here: this evaluator's greedy repetitions read the
/// text beyond the point they stop at, so widening the window can change
/// their outcome.
pub proof fn lemma_concat_match_decomposition(m: MatcherModel, t1: Seq<char>, t2: Seq<char>)
    requires
        relocatable(m),
    ensures
        (first_match_spec(m, t1 + t2) is Some) <==> ((exists|o: int|
            0 <= o < t1.len() && check_spec(m, t1 + t2, o, Map::empty()) is Some)
            || first_match_spec(m, t2) is Some),
{
    let d = t1.len() as int;
    let t12 = t1 + t2;
    assert(t12.len() == d + t2.len());
    if first_match_spec(m, t12) is Some {
        let mm = first_match_spec(m, t12)->Some_0;
        lemma_find_from_spec_in_bounds(m, t12, 0);
        lemma_find_hits(m, t12, 0);
        assert(check_spec(m, t12, mm.start, Map::empty()) == Some(mm));
        if mm.start < d {
            assert(0 <= mm.start < t1.len() && check_spec(m, t12, mm.start, Map::empty())
                is Some);
        } else {
            let off = mm.start - d;
            assert(0 <= off <= t2.len());
            lemma_reloc_check(m, t1, t2, off, Map::empty(), Map::empty());
            assert(check_spec(m, t2, off, Map::empty()) is Some);
            lemma_find_reaches(m, t2, 0, off);
        }
    }
    if exists|o: int| 0 <= o < t1.len() && check_spec(m, t12, o, Map::empty()) is Some {
        let o = choose|o: int| 0 <= o < t1.len() && check_spec(m, t12, o, Map::empty()) is Some;
        lemma_find_reaches(m, t12, 0, o);
    }
    if first_match_spec(m, t2) is Some {
        lemma_match_survives_prefix(m, t1, t2);
    }
}

} // verus!
