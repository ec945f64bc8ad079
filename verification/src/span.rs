//! Source spans and the merging of spans that overlap or touch.

use vstd::prelude::*;

verus! {

/// A region of source text, from the byte position `lo` up to, and not including,
/// the byte position `hi`.
#[derive(Clone, Copy, Debug, PartialEq, Eq, Structural, Hash)]
pub struct Span {
    pub lo: u32,
    pub hi: u32,
}

impl Span {
    /// The span does not end before it begins.
    pub open spec fn wf(self) -> bool {
        self.lo <= self.hi
    }

    /// Whether the byte at `pos` lies in the span.
    pub open spec fn covers(self, pos: int) -> bool {
        self.lo <= pos < self.hi
    }

    /// Whether `pos` is a position of the span, its two ends included.
    pub open spec fn touches(self, pos: int) -> bool {
        self.lo <= pos <= self.hi
    }

    /// Whether the two spans overlap or touch: they share a position.
    pub open spec fn meets(self, other: Span) -> bool {
        self.lo <= other.hi && other.lo <= self.hi
    }

    /// The least span that encloses both.
    pub open spec fn join(self, other: Span) -> Span {
        Span {
            lo: if self.lo <= other.lo {
                self.lo
            } else {
                other.lo
            },
            hi: if self.hi >= other.hi {
                self.hi
            } else {
                other.hi
            },
        }
    }

    /// Whether `self` comes no later than `other` in the order by start, then by end.
    pub open spec fn precedes(self, other: Span) -> bool {
        self.lo < other.lo || (self.lo == other.lo && self.hi <= other.hi)
    }

    /// The span between the two positions, whichever comes first.
    pub fn new(lo: u32, hi: u32) -> (span: Span)
        ensures
            span.wf(),
            span.lo == if lo <= hi {
                lo
            } else {
                hi
            },
            span.hi == if lo <= hi {
                hi
            } else {
                lo
            },
    {
        if lo <= hi {
            Span { lo, hi }
        } else {
            Span { lo: hi, hi: lo }
        }
    }

    /// Whether the two spans overlap or touch.
    pub fn overlaps_inclusive(&self, other: Span) -> (b: bool)
        ensures
            b == self.meets(other),
    {
        self.lo <= other.hi && other.lo <= self.hi
    }

    /// The least span that encloses both.
    pub fn to(&self, end: Span) -> (span: Span)
        ensures
            span == self.join(end),
    {
        Span {
            lo: if self.lo <= end.lo {
                self.lo
            } else {
                end.lo
            },
            hi: if self.hi >= end.hi {
                self.hi
            } else {
                end.hi
            },
        }
    }

    /// Whether `self` comes no later than `other` in the order by start, then by end.
    pub fn comes_before(&self, other: Span) -> (b: bool)
        ensures
            b == self.precedes(other),
    {
        self.lo < other.lo || (self.lo == other.lo && self.hi <= other.hi)
    }
}

/// Every span of the sequence is well formed.
pub open spec fn all_wf(spans: Seq<Span>) -> bool {
    forall|i: int| 0 <= i < spans.len() ==> (#[trigger] spans[i]).wf()
}

/// The positions of the spans in `spans`, their ends included.
pub open spec fn touched(spans: Set<Span>) -> Set<int> {
    Set::new(|pos: int| exists|s: Span| #[trigger] spans.contains(s) && s.touches(pos))
}

/// The bytes that lie in some span of `spans`.
pub open spec fn covered(spans: Set<Span>) -> Set<int> {
    Set::new(|pos: int| exists|s: Span| #[trigger] spans.contains(s) && s.covers(pos))
}

/// The spans come in ascending order and no two of them overlap or touch.
pub open spec fn separated(spans: Seq<Span>) -> bool {
    forall|i: int, j: int| 0 <= i < j < spans.len() ==> spans[i].hi < spans[j].lo
}

/// The spans come in ascending order by start, then by end.
pub open spec fn sorted(spans: Seq<Span>) -> bool {
    forall|i: int, j: int| 0 <= i < j < spans.len() ==> spans[i].precedes(spans[j])
}

/// Whether `merged` is the result of merging `spans`: its spans are well formed, in
/// ascending order and apart from each other, and together they have the positions
/// and the bytes of `spans`, no more and no fewer.
pub open spec fn is_merge_of(merged: Seq<Span>, spans: Set<Span>) -> bool {
    &&& all_wf(merged)
    &&& separated(merged)
    &&& touched(merged.to_set()) == touched(spans)
    &&& covered(merged.to_set()) == covered(spans)
}

/// Inserting an element into a sequence adds it to the multiset of its elements.
proof fn lemma_insert_to_multiset(s: Seq<Span>, pos: int, span: Span)
    requires
        0 <= pos <= s.len(),
    ensures
        s.insert(pos, span).to_multiset() == s.to_multiset().insert(span),
{
    let t = s.insert(pos, span);
    s.insert_ensures(pos, span);
    assert(t.remove(pos) =~= s);
    vstd::seq_lib::to_multiset_remove(t, pos);
    t.to_multiset_ensures();
    assert(t.contains(span)) by {
        assert(t[pos] == span);
    }
    assert(t.to_multiset() =~= s.to_multiset().insert(span));
}

/// Two sequences with the same multiset of elements have the same set of elements.
proof fn lemma_same_members(a: Seq<Span>, b: Seq<Span>)
    requires
        a.to_multiset() == b.to_multiset(),
    ensures
        a.to_set() == b.to_set(),
{
    a.to_multiset_ensures();
    b.to_multiset_ensures();
    assert forall|s: Span| a.to_set().contains(s) == b.to_set().contains(s) by {
        assert(a.contains(s) <==> a.to_multiset().count(s) > 0);
        assert(b.contains(s) <==> b.to_multiset().count(s) > 0);
    }
    assert(a.to_set() =~= b.to_set());
}

/// The spans of `spans` in ascending order by start, then by end.
fn sort_spans(spans: &Vec<Span>) -> (ordered: Vec<Span>)
    ensures
        sorted(ordered@),
        ordered@.to_multiset() == spans@.to_multiset(),
{
    let mut ordered: Vec<Span> = Vec::new();
    let mut i: usize = 0;
    assert(ordered@ == spans@.take(0));
    while i < spans.len()
        invariant
            i <= spans@.len(),
            sorted(ordered@),
            ordered@.to_multiset() == spans@.take(i as int).to_multiset(),
        decreases spans@.len() - i,
    {
        let span = spans[i];
        let mut pos: usize = 0;
        while pos < ordered.len() && ordered[pos].comes_before(span)
            invariant
                pos <= ordered@.len(),
                forall|q: int| 0 <= q < pos ==> ordered@[q].precedes(span),
            decreases ordered@.len() - pos,
        {
            pos += 1;
        }
        proof {
            let before = ordered@;
            let after = before.insert(pos as int, span);
            before.insert_ensures(pos as int, span);
            lemma_insert_to_multiset(before, pos as int, span);
            assert(spans@.take(i + 1) == spans@.take(i as int).push(span));
            vstd::seq_lib::to_multiset_build(spans@.take(i as int), span);
            assert forall|a: int, b: int| 0 <= a < b < after.len() implies after[a].precedes(
                after[b],
            ) by {
                if a < pos && b > pos {
                    assert(after[a] == before[a]);
                    assert(after[b] == before[b - 1]);
                } else if a < pos && b == pos {
                    assert(after[a] == before[a]);
                } else if a < pos {
                    assert(after[a] == before[a]);
                    assert(after[b] == before[b]);
                } else if a == pos {
                    assert(after[b] == before[b - 1]);
                    assert(!before[pos as int].precedes(span));
                    if b - 1 > pos {
                        assert(before[pos as int].precedes(before[b - 1]));
                    }
                } else {
                    assert(after[a] == before[a - 1]);
                    assert(after[b] == before[b - 1]);
                }
            }
        }
        ordered.insert(pos, span);
        i += 1;
    }
    proof {
        assert(spans@.take(spans@.len() as int) == spans@);
    }
    ordered
}

/// The positions of one span, its ends included.
pub open spec fn positions(span: Span) -> Set<int> {
    Set::new(|pos: int| span.touches(pos))
}

/// The bytes of one span.
pub open spec fn bytes(span: Span) -> Set<int> {
    Set::new(|pos: int| span.covers(pos))
}

/// A further span adds its own positions and bytes to those of a set of spans.
proof fn lemma_insert_span(spans: Set<Span>, span: Span)
    ensures
        touched(spans.insert(span)) == touched(spans).union(positions(span)),
        covered(spans.insert(span)) == covered(spans).union(bytes(span)),
{
    let more = spans.insert(span);
    assert forall|pos: int| touched(more).contains(pos) == touched(spans).union(
        positions(span),
    ).contains(pos) by {
        if touched(more).contains(pos) {
            let s = choose|s: Span| #[trigger] more.contains(s) && s.touches(pos);
            if s != span {
                assert(spans.contains(s));
            }
        }
        if touched(spans).contains(pos) {
            let s = choose|s: Span| #[trigger] spans.contains(s) && s.touches(pos);
            assert(more.contains(s));
        }
        if span.touches(pos) {
            assert(more.contains(span));
        }
    }
    assert forall|pos: int| covered(more).contains(pos) == covered(spans).union(
        bytes(span),
    ).contains(pos) by {
        if covered(more).contains(pos) {
            let s = choose|s: Span| #[trigger] more.contains(s) && s.covers(pos);
            if s != span {
                assert(spans.contains(s));
            }
        }
        if covered(spans).contains(pos) {
            let s = choose|s: Span| #[trigger] spans.contains(s) && s.covers(pos);
            assert(more.contains(s));
        }
        if span.covers(pos) {
            assert(more.contains(span));
        }
    }
    assert(touched(more) =~= touched(spans).union(positions(span)));
    assert(covered(more) =~= covered(spans).union(bytes(span)));
}

/// Where a span begins within another, or at its end, the join of the two has the
/// positions and the bytes of both.
proof fn lemma_join(first: Span, second: Span)
    requires
        first.wf(),
        second.wf(),
        first.lo <= second.lo <= first.hi,
    ensures
        first.join(second).wf(),
        first.join(second).lo == first.lo,
        positions(first.join(second)) == positions(first).union(positions(second)),
        bytes(first.join(second)) == bytes(first).union(bytes(second)),
{
    assert(positions(first.join(second)) =~= positions(first).union(positions(second)));
    assert(bytes(first.join(second)) =~= bytes(first).union(bytes(second)));
}

/// Merges the spans that overlap or touch: the result holds, in ascending order, one
/// span for each maximal run of spans that hang together.
pub fn merge_overlaps(spans: Vec<Span>) -> (merged: Vec<Span>)
    requires
        all_wf(spans@),
    ensures
        is_merge_of(merged@, spans@.to_set()),
{
    let ordered = sort_spans(&spans);
    proof {
        lemma_same_members(ordered@, spans@);
        assert forall|i: int| 0 <= i < ordered@.len() implies (#[trigger] ordered@[i]).wf() by {
            assert(ordered@.to_set().contains(ordered@[i]));
            assert(spans@.contains(ordered@[i]));
        }
    }
    let mut merged: Vec<Span> = Vec::new();
    let mut i: usize = 0;
    proof {
        assert(merged@.to_set() =~= ordered@.take(0).to_set());
    }
    while i < ordered.len()
        invariant
            i <= ordered@.len(),
            all_wf(ordered@),
            sorted(ordered@),
            all_wf(merged@),
            separated(merged@),
            touched(merged@.to_set()) == touched(ordered@.take(i as int).to_set()),
            covered(merged@.to_set()) == covered(ordered@.take(i as int).to_set()),
            merged@.len() > 0 ==> forall|k: int|
                i <= k < ordered@.len() ==> merged@.last().lo <= (#[trigger] ordered@[k]).lo,
        decreases ordered@.len() - i,
    {
        let span = ordered[i];
        let count = merged.len();
        let ghost before = merged@;
        proof {
            crate::sets::lemma_take_push_to_set(ordered@, i as int);
            lemma_insert_span(ordered@.take(i as int).to_set(), span);
            assert forall|k: int| i + 1 <= k < ordered@.len() implies span.lo <= (
            #[trigger] ordered@[k]).lo by {
                assert(ordered@[i as int].precedes(ordered@[k]));
            }
        }
        if count > 0 && span.overlaps_inclusive(merged[count - 1]) {
            let last = merged[count - 1];
            let joined = last.to(span);
            merged[count - 1] = joined;
            proof {
                let rest = before.drop_last();
                assert(merged@.drop_last() == rest);
                assert(before.take(count - 1) == rest);
                assert(before.take(count as int) == before);
                assert(merged@.take(count - 1) == rest);
                assert(merged@.take(count as int) == merged@);
                crate::sets::lemma_take_push_to_set(before, count - 1);
                crate::sets::lemma_take_push_to_set(merged@, count - 1);
                lemma_insert_span(rest.to_set(), last);
                lemma_insert_span(rest.to_set(), joined);
                lemma_join(last, span);
                assert(touched(merged@.to_set()) =~= touched(before.to_set()).union(
                    positions(span),
                ));
                assert(covered(merged@.to_set()) =~= covered(before.to_set()).union(bytes(span)));
            }
        } else {
            merged.push(span);
            proof {
                assert(merged@.take(count as int) == before);
                assert(merged@.take(count + 1) == merged@);
                crate::sets::lemma_take_push_to_set(merged@, count as int);
                lemma_insert_span(before.to_set(), span);
                assert forall|a: int, b: int| 0 <= a < b < merged@.len() implies merged@[a].hi
                    < merged@[b].lo by {
                    if b == count {
                        assert(before.last().lo <= ordered@[i as int].lo);
                        assert(!span.meets(before.last()));
                        if a < count - 1 {
                            assert(before[a].hi < before[count - 1].lo);
                            assert(before[count - 1].wf());
                        }
                    }
                }
            }
        }
        i += 1;
    }
    proof {
        assert(ordered@.take(ordered@.len() as int) == ordered@);
    }
    merged
}

/// Of spans in ascending order and apart from each other, those after the first
/// have the positions and the bytes of the whole that lie beyond the end of the
/// first.
proof fn lemma_beyond_first(spans: Seq<Span>, pos: int)
    requires
        spans.len() > 0,
        all_wf(spans),
        separated(spans),
    ensures
        touched(spans.drop_first().to_set()).contains(pos) <==> touched(spans.to_set()).contains(
            pos,
        ) && pos > spans[0].hi,
        covered(spans.drop_first().to_set()).contains(pos) <==> covered(spans.to_set()).contains(
            pos,
        ) && pos > spans[0].hi,
{
    let rest = spans.drop_first();
    if touched(rest.to_set()).contains(pos) {
        let s = choose|s: Span| #[trigger] rest.to_set().contains(s) && s.touches(pos);
        let j = choose|j: int| 0 <= j < rest.len() && rest[j] == s;
        assert(spans[j + 1] == s);
        assert(spans.to_set().contains(s));
        assert(spans[0].hi < spans[j + 1].lo);
    }
    if touched(spans.to_set()).contains(pos) && pos > spans[0].hi {
        let s = choose|s: Span| #[trigger] spans.to_set().contains(s) && s.touches(pos);
        let j = choose|j: int| 0 <= j < spans.len() && spans[j] == s;
        assert(j > 0);
        assert(rest[j - 1] == s);
        assert(rest.to_set().contains(s));
    }
    if covered(rest.to_set()).contains(pos) {
        let s = choose|s: Span| #[trigger] rest.to_set().contains(s) && s.covers(pos);
        let j = choose|j: int| 0 <= j < rest.len() && rest[j] == s;
        assert(spans[j + 1] == s);
        assert(spans.to_set().contains(s));
        assert(spans[0].hi < spans[j + 1].lo);
    }
    if covered(spans.to_set()).contains(pos) && pos > spans[0].hi {
        let s = choose|s: Span| #[trigger] spans.to_set().contains(s) && s.covers(pos);
        let j = choose|j: int| 0 <= j < spans.len() && spans[j] == s;
        assert(j > 0);
        assert(rest[j - 1] == s);
        assert(rest.to_set().contains(s));
    }
}

/// Of spans in ascending order and apart from each other, the first begins no later
/// than any position of the whole, and no byte of the whole lies at its end.
proof fn lemma_first_is_least(spans: Seq<Span>, pos: int)
    requires
        spans.len() > 0,
        all_wf(spans),
        separated(spans),
    ensures
        touched(spans.to_set()).contains(pos) ==> spans[0].lo <= pos,
        touched(spans.to_set()).contains(spans[0].lo as int),
        spans[0].lo <= pos < spans[0].hi ==> covered(spans.to_set()).contains(pos),
        !covered(spans.to_set()).contains(spans[0].hi as int),
{
    assert(spans.to_set().contains(spans[0]));
    assert(spans[0].touches(spans[0].lo as int));
    if spans[0].lo <= pos < spans[0].hi {
        assert(spans[0].covers(pos));
    }
    if touched(spans.to_set()).contains(pos) {
        let s = choose|s: Span| #[trigger] spans.to_set().contains(s) && s.touches(pos);
        let j = choose|j: int| 0 <= j < spans.len() && spans[j] == s;
        if j > 0 {
            assert(spans[0].hi < spans[j].lo);
        }
    }
    if covered(spans.to_set()).contains(spans[0].hi as int) {
        let s = choose|s: Span|
            #[trigger] spans.to_set().contains(s) && s.covers(spans[0].hi as int);
        let j = choose|j: int| 0 <= j < spans.len() && spans[j] == s;
        if j > 0 {
            assert(spans[0].hi < spans[j].lo);
        }
    }
}

/// Two sequences of spans, each in ascending order with its spans apart, that have
/// the same positions and the same bytes are the same sequence.
pub proof fn lemma_apart_spans_are_determined(a: Seq<Span>, b: Seq<Span>)
    requires
        all_wf(a),
        separated(a),
        all_wf(b),
        separated(b),
        touched(a.to_set()) == touched(b.to_set()),
        covered(a.to_set()) == covered(b.to_set()),
    ensures
        a == b,
    decreases a.len(),
{
    if a.len() == 0 || b.len() == 0 {
        if a.len() > 0 {
            lemma_first_is_least(a, 0);
            let s = choose|s: Span|
                #[trigger] b.to_set().contains(s) && s.touches(a[0].lo as int);
            assert(b.contains(s));
        }
        if b.len() > 0 {
            lemma_first_is_least(b, 0);
            let s = choose|s: Span|
                #[trigger] a.to_set().contains(s) && s.touches(b[0].lo as int);
            assert(a.contains(s));
        }
        assert(a =~= b);
    } else {
        lemma_first_is_least(a, b[0].lo as int);
        lemma_first_is_least(b, a[0].lo as int);
        assert(a[0].lo == b[0].lo);
        lemma_first_is_least(a, b[0].hi as int);
        lemma_first_is_least(b, a[0].hi as int);
        assert(a[0].hi == b[0].hi);
        assert(a[0] == b[0]);
        let rest_a = a.drop_first();
        let rest_b = b.drop_first();
        assert forall|pos: int|
            touched(rest_a.to_set()).contains(pos) == touched(rest_b.to_set()).contains(pos) by {
            lemma_beyond_first(a, pos);
            lemma_beyond_first(b, pos);
        }
        assert forall|pos: int|
            covered(rest_a.to_set()).contains(pos) == covered(rest_b.to_set()).contains(pos) by {
            lemma_beyond_first(a, pos);
            lemma_beyond_first(b, pos);
        }
        assert(touched(rest_a.to_set()) =~= touched(rest_b.to_set()));
        assert(covered(rest_a.to_set()) =~= covered(rest_b.to_set()));
        assert(all_wf(rest_a)) by {
            assert forall|i: int| 0 <= i < rest_a.len() implies (#[trigger] rest_a[i]).wf() by {
                assert(rest_a[i] == a[i + 1]);
            }
        }
        assert(all_wf(rest_b)) by {
            assert forall|i: int| 0 <= i < rest_b.len() implies (#[trigger] rest_b[i]).wf() by {
                assert(rest_b[i] == b[i + 1]);
            }
        }
        assert(separated(rest_a)) by {
            assert forall|i: int, j: int| 0 <= i < j < rest_a.len() implies rest_a[i].hi
                < rest_a[j].lo by {
                assert(a[i + 1].hi < a[j + 1].lo);
            }
        }
        assert(separated(rest_b)) by {
            assert forall|i: int, j: int| 0 <= i < j < rest_b.len() implies rest_b[i].hi
                < rest_b[j].lo by {
                assert(b[i + 1].hi < b[j + 1].lo);
            }
        }
        lemma_apart_spans_are_determined(rest_a, rest_b);
        assert(a =~= seq![a[0]] + rest_a);
        assert(b =~= seq![b[0]] + rest_b);
    }
}

/// Merging is exact: the merged spans neither overlap nor touch one another, they
/// have the bytes and the positions of the spans that were merged, no more and no
/// fewer, and no other sequence of spans does the same.
pub proof fn lemma_merge_is_exact(merged: Seq<Span>, spans: Set<Span>)
    requires
        is_merge_of(merged, spans),
    ensures
        forall|i: int, j: int|
            0 <= i < merged.len() && 0 <= j < merged.len() && i != j ==> !merged[i].meets(
                merged[j],
            ),
        covered(merged.to_set()) == covered(spans),
        touched(merged.to_set()) == touched(spans),
        forall|other: Seq<Span>| #[trigger] is_merge_of(other, spans) ==> other == merged,
{
    assert forall|i: int, j: int|
        0 <= i < merged.len() && 0 <= j < merged.len() && i != j implies !merged[i].meets(
        merged[j],
    ) by {
        if i < j {
            assert(merged[i].hi < merged[j].lo);
        } else {
            assert(merged[j].hi < merged[i].lo);
        }
    }
    assert forall|other: Seq<Span>| #[trigger] is_merge_of(other, spans) implies other
        == merged by {
        lemma_apart_spans_are_determined(other, merged);
    }
}

} // verus!
