//! The source map, and the projection of an output onto merged source spans.

use crate::program::{DependencySet, LocationSet, MemoryLocation, ProgramPoint};
use crate::sets::lemma_take_push_to_set;
use crate::span::{all_wf, is_merge_of, merge_overlaps, Span};
use vstd::prelude::*;

verus! {

/// Where the program points and the memory locations of a routine stand in the
/// source text.
#[derive(Debug)]
pub struct SourceMap {
    /// `point_spans[b][i]` holds the enclosing spans of the program point at offset
    /// `i` of block `b`, outermost scope only.
    pub point_spans: Vec<Vec<Vec<Span>>>,
    /// `declarations[i]` is the span of the declaration of the root binding of
    /// location `i`, where it has one in the source text.
    pub declarations: Vec<Option<Span>>,
    /// The spans that are flagged as invalid.
    pub invalid: Vec<Span>,
}

impl SourceMap {
    /// The enclosing spans of `point`; none for a point that the map does not know.
    pub open spec fn spans_of(&self, point: ProgramPoint) -> Seq<Span> {
        if point.block < self.point_spans@.len() && point.index < self.point_spans@[
            point.block as int
        ]@.len() {
            self.point_spans@[point.block as int]@[point.index as int]@
        } else {
            Seq::empty()
        }
    }

    /// The declaration span of the root binding of `location`, if it has one.
    pub open spec fn declaration_of(&self, location: MemoryLocation) -> Option<Span> {
        if location.0 < self.declarations@.len() {
            self.declarations@[location.0 as int]
        } else {
            None
        }
    }

    /// Whether `span` is flagged as invalid.
    pub open spec fn is_invalid(&self, span: Span) -> bool {
        self.invalid@.contains(span)
    }

    /// Every span of a program point and every declaration span is well formed.
    pub open spec fn wf(&self) -> bool {
        &&& forall|point: ProgramPoint| all_wf(#[trigger] self.spans_of(point))
        &&& forall|location: MemoryLocation|
            (#[trigger] self.declaration_of(location)) matches Some(span) ==> span.wf()
    }

    /// Whether the map is well formed.
    pub fn is_wf(&self) -> (b: bool)
        ensures
            b == self.wf(),
    {
        let mut block: usize = 0;
        while block < self.point_spans.len()
            invariant
                block <= self.point_spans@.len(),
                forall|point: ProgramPoint|
                    point.block < block ==> all_wf(#[trigger] self.spans_of(point)),
            decreases self.point_spans@.len() - block,
        {
            let points = &self.point_spans[block];
            let mut index: usize = 0;
            while index < points.len()
                invariant
                    index <= points@.len(),
                    block < self.point_spans@.len(),
                    *points == self.point_spans@[block as int],
                    forall|point: ProgramPoint|
                        point.block < block || (point.block == block && point.index < index)
                            ==> all_wf(#[trigger] self.spans_of(point)),
                decreases points@.len() - index,
            {
                let spans = &points[index];
                let mut k: usize = 0;
                while k < spans.len()
                    invariant
                        k <= spans@.len(),
                        block < self.point_spans@.len(),
                        index < points@.len(),
                        *points == self.point_spans@[block as int],
                        *spans == points@[index as int],
                        forall|i: int| 0 <= i < k ==> (#[trigger] spans@[i]).wf(),
                    decreases spans@.len() - k,
                {
                    if spans[k].lo > spans[k].hi {
                        proof {
                            let point = ProgramPoint { block, index };
                            assert(self.spans_of(point) == spans@);
                            assert(!self.spans_of(point)[k as int].wf());
                        }
                        return false;
                    }
                    k += 1;
                }
                proof {
                    let point = ProgramPoint { block, index };
                    assert(self.spans_of(point) == spans@);
                }
                index += 1;
            }
            block += 1;
        }
        let mut i: usize = 0;
        while i < self.declarations.len()
            invariant
                i <= self.declarations@.len(),
                forall|point: ProgramPoint| all_wf(#[trigger] self.spans_of(point)),
                forall|location: MemoryLocation|
                    location.0 < i ==> ((#[trigger] self.declaration_of(location)) matches Some(
                        span,
                    ) ==> span.wf()),
            decreases self.declarations@.len() - i,
        {
            match self.declarations[i] {
                Some(span) => {
                    if span.lo > span.hi {
                        assert(self.declaration_of(MemoryLocation(i)) == Some(span));
                        return false;
                    }
                },
                None => {},
            }
            i += 1;
        }
        true
    }

    /// The enclosing spans of `point`.
    pub fn point_to_spans(&self, point: ProgramPoint) -> (spans: Vec<Span>)
        ensures
            spans@ == self.spans_of(point),
    {
        let mut spans: Vec<Span> = Vec::new();
        if point.block < self.point_spans.len() && point.index
            < self.point_spans[point.block].len() {
            let found = &self.point_spans[point.block][point.index];
            let mut k: usize = 0;
            while k < found.len()
                invariant
                    k <= found@.len(),
                    spans@ == found@.take(k as int),
                decreases found@.len() - k,
            {
                spans.push(found[k]);
                assert(found@.take(k + 1) == found@.take(k as int).push(found@[k as int]));
                k += 1;
            }
            assert(found@.take(found@.len() as int) == found@);
        }
        spans
    }

    /// The declaration span of the root binding of `location`, if it has one.
    pub fn declaration_span(&self, location: MemoryLocation) -> (span: Option<Span>)
        ensures
            span == self.declaration_of(location),
    {
        if location.0 < self.declarations.len() {
            self.declarations[location.0]
        } else {
            None
        }
    }

    /// Whether `span` is flagged as invalid.
    pub fn invalid_span(&self, span: Span) -> (b: bool)
        ensures
            b == self.is_invalid(span),
    {
        let mut k: usize = 0;
        while k < self.invalid.len()
            invariant
                k <= self.invalid@.len(),
                forall|i: int| 0 <= i < k ==> self.invalid@[i] != span,
            decreases self.invalid@.len() - k,
        {
            if self.invalid[k] == span {
                return true;
            }
            k += 1;
        }
        false
    }
}

/// The spans that an output is projected onto, before they are merged: the enclosing
/// spans of each of its program points, and the declaration span of the root binding
/// of each of its locations, unless that span is flagged as invalid.
pub open spec fn projected(
    source_map: &SourceMap,
    points: Set<ProgramPoint>,
    locations: Set<MemoryLocation>,
) -> Set<Span> {
    Set::new(
        |span: Span|
            (exists|point: ProgramPoint|
                points.contains(point) && #[trigger] source_map.spans_of(point).contains(span)) || (
            !source_map.is_invalid(span) && exists|location: MemoryLocation|
                locations.contains(location) && #[trigger] source_map.declaration_of(location)
                    == Some(span)),
    )
}

/// One more program point adds its enclosing spans to the projection.
proof fn lemma_project_point(
    source_map: &SourceMap,
    points: Set<ProgramPoint>,
    locations: Set<MemoryLocation>,
    point: ProgramPoint,
)
    ensures
        projected(source_map, points.insert(point), locations) == projected(
            source_map,
            points,
            locations,
        ).union(source_map.spans_of(point).to_set()),
{
    let more = projected(source_map, points.insert(point), locations);
    let less = projected(source_map, points, locations);
    assert forall|span: Span| more.contains(span) == less.union(
        source_map.spans_of(point).to_set(),
    ).contains(span) by {
        if more.contains(span) && !less.contains(span) {
            let p = choose|p: ProgramPoint|
                points.insert(point).contains(p) && #[trigger] source_map.spans_of(p).contains(
                    span,
                );
            assert(p == point);
        }
        if less.contains(span) && !(!source_map.is_invalid(span) && exists|
            location: MemoryLocation,
        |
            locations.contains(location) && #[trigger] source_map.declaration_of(location)
                == Some(span)) {
            let p = choose|p: ProgramPoint|
                points.contains(p) && #[trigger] source_map.spans_of(p).contains(span);
            assert(points.insert(point).contains(p));
        }
        if source_map.spans_of(point).contains(span) {
            assert(points.insert(point).contains(point));
        }
    }
    assert(more =~= less.union(source_map.spans_of(point).to_set()));
}

/// One more location adds its declaration span to the projection, where it has one
/// that is not flagged as invalid.
proof fn lemma_project_location(
    source_map: &SourceMap,
    points: Set<ProgramPoint>,
    locations: Set<MemoryLocation>,
    location: MemoryLocation,
)
    ensures
        projected(source_map, points, locations.insert(location))
            == match source_map.declaration_of(location) {
            Some(span) if !source_map.is_invalid(span) => projected(
                source_map,
                points,
                locations,
            ).insert(span),
            _ => projected(source_map, points, locations),
        },
{
    let more = projected(source_map, points, locations.insert(location));
    let less = projected(source_map, points, locations);
    let stepped = match source_map.declaration_of(location) {
        Some(span) if !source_map.is_invalid(span) => less.insert(span),
        _ => less,
    };
    assert forall|span: Span| more.contains(span) == stepped.contains(span) by {
        if more.contains(span) && !less.contains(span) {
            let l = choose|l: MemoryLocation|
                locations.insert(location).contains(l) && #[trigger] source_map.declaration_of(l)
                    == Some(span);
            assert(l == location);
        }
        if less.contains(span) && !(exists|point: ProgramPoint|
            points.contains(point) && #[trigger] source_map.spans_of(point).contains(span)) {
            let l = choose|l: MemoryLocation|
                locations.contains(l) && #[trigger] source_map.declaration_of(l) == Some(span);
            assert(locations.insert(location).contains(l));
        }
        if stepped.contains(span) && !less.contains(span) {
            assert(locations.insert(location).contains(location));
            assert(source_map.declaration_of(location) == Some(span));
        }
    }
    assert(more =~= stepped);
}

/// The spans that `output` is projected onto, not yet merged.
pub fn collect_spans(source_map: &SourceMap, output: &(DependencySet, LocationSet)) -> (spans:
    Vec<Span>)
    requires
        source_map.wf(),
    ensures
        all_wf(spans@),
        spans@.to_set() == projected(source_map, output.0@, output.1@),
{
    let mut spans: Vec<Span> = Vec::new();
    let points = output.0.elements();
    let locations = output.1.elements();
    let ghost nowhere = Set::<MemoryLocation>::empty();
    let mut i: usize = 0;
    proof {
        assert(spans@.to_set() =~= projected(source_map, points@.take(0).to_set(), nowhere));
    }
    while i < points.len()
        invariant
            i <= points@.len(),
            source_map.wf(),
            all_wf(spans@),
            nowhere == Set::<MemoryLocation>::empty(),
            spans@.to_set() == projected(source_map, points@.take(i as int).to_set(), nowhere),
        decreases points@.len() - i,
    {
        let found = source_map.point_to_spans(points[i]);
        let ghost before = spans@;
        let mut k: usize = 0;
        proof {
            assert(all_wf(source_map.spans_of(points@[i as int])));
            assert(before.to_set().union(found@.take(0).to_set()) =~= before.to_set());
        }
        while k < found.len()
            invariant
                k <= found@.len(),
                all_wf(found@),
                all_wf(spans@),
                spans@.to_set() == before.to_set().union(found@.take(k as int).to_set()),
            decreases found@.len() - k,
        {
            let ghost pushed = spans@;
            spans.push(found[k]);
            proof {
                pushed.lemma_push_to_set_commute(found@[k as int]);
                lemma_take_push_to_set(found@, k as int);
                assert(spans@.to_set() =~= before.to_set().union(found@.take(k + 1).to_set()));
            }
            k += 1;
        }
        proof {
            assert(found@.take(found@.len() as int) == found@);
            lemma_take_push_to_set(points@, i as int);
            lemma_project_point(
                source_map,
                points@.take(i as int).to_set(),
                nowhere,
                points@[i as int],
            );
        }
        i += 1;
    }
    proof {
        assert(points@.take(points@.len() as int) == points@);
        assert(locations@.take(0).to_set() =~= nowhere);
    }
    let mut i: usize = 0;
    while i < locations.len()
        invariant
            i <= locations@.len(),
            source_map.wf(),
            all_wf(spans@),
            points@.to_set() == output.0@,
            spans@.to_set() == projected(
                source_map,
                output.0@,
                locations@.take(i as int).to_set(),
            ),
        decreases locations@.len() - i,
    {
        let ghost pushed = spans@;
        proof {
            lemma_take_push_to_set(locations@, i as int);
            lemma_project_location(
                source_map,
                output.0@,
                locations@.take(i as int).to_set(),
                locations@[i as int],
            );
        }
        match source_map.declaration_span(locations[i]) {
            Some(span) => {
                if !source_map.invalid_span(span) {
                    spans.push(span);
                    proof {
                        pushed.lemma_push_to_set_commute(span);
                    }
                }
            },
            None => {},
        }
        i += 1;
    }
    proof {
        assert(locations@.take(locations@.len() as int) == locations@);
    }
    spans
}

/// The merged source spans of `output`: least in number, apart from each other, and
/// covering what its program points and locations cover in the source text.
pub fn project_spans(source_map: &SourceMap, output: &(DependencySet, LocationSet)) -> (merged:
    Vec<Span>)
    requires
        source_map.wf(),
    ensures
        is_merge_of(merged@, projected(source_map, output.0@, output.1@)),
{
    merge_overlaps(collect_spans(source_map, output))
}

} // verus!
