//! The capture table used during evaluation: a small association list from
//! group index to the span that group captured, abstracted as a
//! `Map<int, Span>`.  A later entry for an index overrides an earlier one,
//! and the executable operations keep the indices unique.

use vstd::prelude::*;
use crate::semantics::Span;

verus! {

/// One captured span: group `idx` captured `len` characters from `start`.
#[derive(Clone, Copy)]
pub struct GroupCapture {
    pub idx: usize,
    pub start: usize,
    pub len: usize,
}

/// The span a capture entry stands for.
pub open spec fn capture_span(e: GroupCapture) -> Span {
    Span { start: e.start as int, len: e.len as int }
}

/// The map described by an association list of captures; a later entry for
/// an index overrides an earlier one.
pub open spec fn caps_map(s: Seq<GroupCapture>) -> Map<int, Span>
    decreases s.len(),
{
    if s.len() == 0 {
        Map::empty()
    } else {
        caps_map(s.drop_last()).insert(s.last().idx as int, capture_span(s.last()))
    }
}

/// Every group index appears at most once.
pub open spec fn unique_indices(s: Seq<GroupCapture>) -> bool {
    forall|i: int, j: int| 0 <= i < j < s.len() ==> #[trigger] s[i].idx != #[trigger] s[j].idx
}

/// An entry's index is in the map's domain and decides its value, as long as
/// indices are unique.
pub(crate) proof fn lemma_caps_map_at(s: Seq<GroupCapture>, i: int)
    requires
        unique_indices(s),
        0 <= i < s.len(),
    ensures
        caps_map(s).dom().contains(s[i].idx as int),
        caps_map(s)[s[i].idx as int] == capture_span(s[i]),
    decreases s.len(),
{
    if i == s.len() - 1 {
    } else {
        lemma_caps_map_at(s.drop_last(), i);
        assert(s.drop_last()[i] == s[i]);
        assert(s[i].idx != s.last().idx);
    }
}

/// An index carried by no entry is not in the map's domain.
proof fn lemma_caps_map_absent(s: Seq<GroupCapture>, k: int)
    requires
        forall|i: int| 0 <= i < s.len() ==> #[trigger] s[i].idx as int != k,
    ensures
        !caps_map(s).dom().contains(k),
    decreases s.len(),
{
    if s.len() == 0 {
    } else {
        lemma_caps_map_absent(s.drop_last(), k);
    }
}

/// Replacing the entry that carries an index is insertion on the map.
proof fn lemma_caps_map_update(s: Seq<GroupCapture>, i: int, e: GroupCapture)
    requires
        unique_indices(s),
        0 <= i < s.len(),
        s[i].idx == e.idx,
    ensures
        caps_map(s.update(i, e)) == caps_map(s).insert(e.idx as int, capture_span(e)),
    decreases s.len(),
{
    let t = s.update(i, e);
    if i == s.len() - 1 {
        assert(t.drop_last() =~= s.drop_last());
        assert(t.last() == e);
        assert(s.last().idx == e.idx);
        assert(caps_map(t) =~= caps_map(s).insert(e.idx as int, capture_span(e)));
    } else {
        assert(t.drop_last() =~= s.drop_last().update(i, e));
        assert(s.drop_last()[i] == s[i]);
        lemma_caps_map_update(s.drop_last(), i, e);
        assert(s[i].idx != s.last().idx);
        assert(t.last() == s.last());
        assert(caps_map(t) =~= caps_map(s).insert(e.idx as int, capture_span(e)));
    }
}

/// The capture table threaded through one evaluation.
pub struct Captures {
    pub entries: Vec<GroupCapture>,
}

impl View for Captures {
    type V = Map<int, Span>;

    open spec fn view(&self) -> Map<int, Span> {
        caps_map(self.entries@)
    }
}

impl Captures {
    pub open spec fn wf(&self) -> bool {
        unique_indices(self.entries@)
    }

    /// An empty capture table.
    pub fn new() -> (r: Captures)
        ensures
            r@ == Map::<int, Span>::empty(),
            r.wf(),
    {
        Captures { entries: Vec::new() }
    }

    /// The capture recorded for group `idx`, if any.
    pub fn get(&self, idx: usize) -> (r: Option<GroupCapture>)
        requires
            self.wf(),
        ensures
            r is Some <==> self@.dom().contains(idx as int),
            r matches Some(e) ==> e.idx == idx && self@[idx as int] == capture_span(e),
    {
        let n = self.entries.len();
        for i in 0..n
            invariant
                n == self.entries.len(),
                self.wf(),
                forall|j: int| 0 <= j < i ==> #[trigger] self.entries@[j].idx != idx,
        {
            if self.entries[i].idx == idx {
                proof {
                    lemma_caps_map_at(self.entries@, i as int);
                }
                return Some(self.entries[i]);
            }
        }
        proof {
            lemma_caps_map_absent(self.entries@, idx as int);
        }
        None
    }

    /// Records (or overrides) the capture for group `idx`.
    pub fn set(&mut self, idx: usize, start: usize, len: usize)
        requires
            old(self).wf(),
        ensures
            final(self).wf(),
            final(self)@ == old(self)@.insert(
                idx as int,
                Span { start: start as int, len: len as int },
            ),
    {
        let e = GroupCapture { idx, start, len };
        let n = self.entries.len();
        for i in 0..n
            invariant
                n == self.entries.len(),
                self.wf(),
                self.entries@ == old(self).entries@,
                (e == GroupCapture { idx, start, len }),
                forall|j: int| 0 <= j < i ==> #[trigger] self.entries@[j].idx != idx,
        {
            if self.entries[i].idx == idx {
                proof {
                    lemma_caps_map_update(self.entries@, i as int, e);
                }
                let ghost snap = self.entries@;
                self.entries.set(i, e);
                proof {
                    assert forall|p: int, q: int| 0 <= p < q < self.entries@.len() implies #[trigger] self
                        .entries@[p].idx != #[trigger] self.entries@[q].idx by {
                        assert(snap[p].idx != snap[q].idx);
                    }
                }
                return ;
            }
        }
        proof {
            assert(self.entries@.push(e).drop_last() =~= self.entries@);
        }
        self.entries.push(e);
    }

    /// Copies the table.
    pub fn duplicate(&self) -> (r: Captures)
        requires
            self.wf(),
        ensures
            r@ == self@,
            r.wf(),
            r.entries@ == self.entries@,
    {
        let mut out: Vec<GroupCapture> = Vec::new();
        let n = self.entries.len();
        for i in 0..n
            invariant
                n == self.entries.len(),
                out@ =~= self.entries@.subrange(0, i as int),
        {
            out.push(self.entries[i]);
        }
        proof {
            assert(out@ =~= self.entries@);
        }
        Captures { entries: out }
    }

    /// Takes every capture of `other` over into this table, overriding any
    /// entry for the same group.
    pub fn merge_from(&mut self, other: &Captures)
        requires
            old(self).wf(),
            other.wf(),
        ensures
            final(self).wf(),
            final(self)@ == old(self)@.union_prefer_right(other@),
    {
        broadcast use vstd::map_lib::group_map_union;

        let n = other.entries.len();
        for i in 0..n
            invariant
                n == other.entries.len(),
                self.wf(),
                other.wf(),
                self@ == old(self)@.union_prefer_right(caps_map(other.entries@.subrange(0, i as int))),
        {
            let e = other.entries[i];
            proof {
                assert(other.entries@.subrange(0, i + 1 as int).drop_last() =~= other.entries@
                    .subrange(0, i as int));
                assert(other.entries@.subrange(0, i + 1 as int).last() == e);
            }
            self.set(e.idx, e.start, e.len);
        }
        proof {
            assert(other.entries@.subrange(0, n as int) =~= other.entries@);
            assert(self@ == old(self)@.union_prefer_right(other@));
        }
    }
}

} // verus!
